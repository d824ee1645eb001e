//! The bookkeeping of autoregressive text generation: which ids the model is
//! shown at each step, and what happens to the id it picks.
//!
//! The model itself runs outside; a caller alternates `context` (what to show
//! the model) and `feed` (the id the model picked) until `context` says stop.
use vstd::prelude::*;

use crate::text::raw_tokens;
use crate::tokenizer::{bos_word, encode_ids, eos_word, token_id, unk_word, word_id, Tokenizer};

verus! {

/// The ids generation starts from: the prompt's ids, or `<bos>` alone when the
/// prompt has no words.
pub open spec fn start_tokens(ws: Seq<Seq<char>>, prompt: Seq<char>) -> Seq<usize> {
    if encode_ids(ws, prompt).len() == 0 {
        seq![word_id(ws, bos_word()) as usize]
    } else {
        encode_ids(ws, prompt)
    }
}

/// The last `max_len` ids of `tokens` (all of them when there are fewer).
pub open spec fn context_window(tokens: Seq<usize>, max_len: nat) -> Seq<usize> {
    if tokens.len() > max_len {
        tokens.subrange(tokens.len() - max_len, tokens.len() as int)
    } else {
        tokens
    }
}

/// The state of a generation run.
#[derive(Debug)]
pub struct Generation {
    /// The prompt's ids followed by every id generated so far.
    pub tokens: Vec<usize>,
    /// How many more ids may still be generated.
    pub steps_left: usize,
    /// Whether the model asked to stop by picking `<eos>`.
    pub stopped: bool,
    /// The id of `<eos>` in the vocabulary generation runs on, if it holds one.
    pub eos_id: Option<usize>,
}

impl Generation {
    /// Starts generating after `prompt`, for at most `max_new_tokens` ids, with
    /// the `<eos>` of `tokenizer` as the id that stops it.
    pub fn start(tokenizer: &Tokenizer, prompt: &str, max_new_tokens: usize) -> (r: Generation)
        requires
            raw_tokens(prompt@).len() > 0 ==> tokenizer@.contains(unk_word()),
            raw_tokens(prompt@).len() == 0 ==> tokenizer@.contains(bos_word()),
            max_new_tokens > 0 ==> tokenizer@.contains(eos_word()),
        ensures
            r.tokens@ == start_tokens(tokenizer@, prompt@),
            raw_tokens(prompt@).len() > 0 ==> r.tokens@ == encode_ids(tokenizer@, prompt@),
            raw_tokens(prompt@).len() == 0 ==> r.tokens@ == seq![word_id(tokenizer@, bos_word()) as usize],
            r.steps_left == max_new_tokens,
            !r.stopped,
            r.eos_id == (if word_id(tokenizer@, eos_word()) >= 0 {
                Some(word_id(tokenizer@, eos_word()) as usize)
            } else {
                None::<usize>
            }),
            max_new_tokens > 0 ==> r.eos_id is Some,
    {
        let mut tokens = tokenizer.encode(prompt);
        if tokens.len() == 0 {
            tokens.push(tokenizer.bos_id());
            proof {
                assert(tokens@ =~= start_tokens(tokenizer@, prompt@));
            }
        }
        let eos_id = tokenizer.lookup(&String::from_str("<eos>"));
        proof {
            law_start_keeps_whole_prompt(tokenizer@, prompt@);
            crate::tokenizer::lemma_word_id(tokenizer@, eos_word());
            reveal_strlit("<eos>");
            assert("<eos>"@ =~= eos_word());
        }
        Generation { tokens, steps_left: max_new_tokens, stopped: false, eos_id }
    }

    /// Whether generation is over: the model picked `<eos>` or no step is left.
    pub fn is_done(&self) -> (r: bool)
        ensures
            r == (self.stopped || self.steps_left == 0),
    {
        self.stopped || self.steps_left == 0
    }

    /// The ids to show the model next (the last `max_seq_len` ids), or `None`
    /// once generation is over.
    pub fn context(&self, max_seq_len: usize) -> (r: Option<Vec<usize>>)
        ensures
            (self.stopped || self.steps_left == 0) ==> r is None,
            !(self.stopped || self.steps_left == 0) ==> (r matches Some(c) && c@ == context_window(
                self.tokens@,
                max_seq_len as nat,
            )),
    {
        if self.is_done() {
            return None;
        }
        let n = self.tokens.len();
        let from = if n > max_seq_len { n - max_seq_len } else { 0 };
        let mut c: Vec<usize> = Vec::new();
        for i in from..n
            invariant
                n == self.tokens@.len(),
                from <= n,
                c@ == self.tokens@.subrange(from as int, i as int),
        {
            c.push(self.tokens[i]);
            proof {
                assert(self.tokens@.subrange(from as int, i + 1) =~= self.tokens@.subrange(
                    from as int,
                    i as int,
                ).push(self.tokens@[i as int]));
            }
        }
        proof {
            if n <= max_seq_len {
                assert(self.tokens@.subrange(0, n as int) =~= self.tokens@);
            }
        }
        Some(c)
    }

    /// Takes the id the model picked: `<eos>` stops generation and is not kept;
    /// any other id is appended and uses up one step. Returns whether the id was
    /// appended; once generation is over nothing changes.
    pub fn feed(&mut self, next_id: usize) -> (appended: bool)
        ensures
            (old(self).stopped || old(self).steps_left == 0) ==> !appended && *final(self)
                == *old(self),
            !(old(self).stopped || old(self).steps_left == 0) && old(self).eos_id == Some(next_id)
                ==> !appended && final(self).stopped && final(self).tokens@ == old(self).tokens@
                && final(self).steps_left == old(self).steps_left && final(self).eos_id
                == old(self).eos_id,
            !(old(self).stopped || old(self).steps_left == 0) && old(self).eos_id != Some(next_id)
                ==> appended && !final(self).stopped && final(self).tokens@ == old(
                self,
            ).tokens@.push(next_id) && final(self).steps_left == old(self).steps_left - 1
                && final(self).eos_id == old(self).eos_id,
    {
        if self.is_done() {
            return false;
        }
        if self.eos_id == Some(next_id) {
            self.stopped = true;
            return false;
        }
        self.tokens.push(next_id);
        self.steps_left = self.steps_left - 1;
        true
    }
}

/// The window shown to the model is never longer than `max_len`, always ends
/// with the latest id, and is exactly the last ids of the sequence.
pub proof fn law_context_is_recent_suffix(tokens: Seq<usize>, max_len: nat)
    ensures
        context_window(tokens, max_len).len() <= max_len || context_window(tokens, max_len) == tokens,
        context_window(tokens, max_len).len() == (if tokens.len() > max_len {
            max_len
        } else {
            tokens.len()
        }),
        forall|i: int|
            0 <= i < context_window(tokens, max_len).len() ==> #[trigger] context_window(
                tokens,
                max_len,
            )[i] == tokens[tokens.len() - context_window(tokens, max_len).len() + i],
{
}

/// Generation starts from the whole prompt: when the prompt has words, the
/// starting ids are one per word of the prompt, in order, each the id the word
/// encodes to; when it has none, they are the id of `<bos>` alone.
pub proof fn law_start_keeps_whole_prompt(ws: Seq<Seq<char>>, prompt: Seq<char>)
    ensures
        raw_tokens(prompt).len() > 0 ==> start_tokens(ws, prompt).len() == raw_tokens(prompt).len(),
        raw_tokens(prompt).len() > 0 ==> forall|k: int|
            0 <= k < raw_tokens(prompt).len() ==> start_tokens(ws, prompt)[k] == token_id(
                ws,
                #[trigger] raw_tokens(prompt)[k],
            ) as usize,
        raw_tokens(prompt).len() == 0 ==> start_tokens(ws, prompt) == seq![
            word_id(ws, bos_word()) as usize,
        ],
{
}

} // verus!
