//! The integer and text logic of a handcrafted language-model toolkit, with its
//! contracts proved: a word-level tokenizer, next-word flashcards and their
//! batching, the shape of an autograd computation graph and the order in which
//! backpropagation walks it, the layer shapes of a perceptron, the causal mask
//! and head split of attention, and the bookkeeping of text generation.

pub mod attention;
pub mod dataset;
pub mod generation;
pub mod graph;
pub mod layers;
pub mod text;
pub mod tokenizer;
