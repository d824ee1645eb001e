# handcrafted

A small toolkit for building a language model by hand, split into a verified
library and a program around it.

`src/` is checked by Verus. It holds everything that works on integers and
text:

- `text` — cutting a text into lower-cased alphabetic words;
- `tokenizer` — the word ↔ id vocabulary with its special tokens, encoding,
  decoding, and saving/loading the word list as JSON;
- `dataset` — sliding-window next-word flashcards and their row-major batching;
- `graph` — the shape of an autograd computation graph, the depth-first order
  in which backpropagation visits it, and its tree listing;
- `layers` — the layer shapes of a perceptron and the order of its parameters;
- `attention` — the causal mask pattern and the split of the model width into heads;
- `generation` — what the model is shown at each generation step and when it stops.

`app/` is the program: the floating-point autograd engine (values, slopes,
chain rule) on top of the verified graph, neurons, layers, loss, SGD and Adam,
the Burn transformer, the decoding strategies, and the command-line demos.

`tests/` exercises the library on concrete inputs.
