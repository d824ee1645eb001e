//! Next-word flashcards: a text is cut into sliding windows, each pairing a run
//! of token ids with the same run shifted one token into the future.
use vstd::prelude::*;

use crate::text::raw_tokens;
use crate::tokenizer::{encode_ids, unk_word, Tokenizer};

verus! {

/// One flashcard: the ids the model reads and the ids it should predict.
#[derive(Clone, Debug)]
pub struct LmItem {
    /// The front of the card.
    pub input: Vec<usize>,
    /// The back of the card: `input` shifted one token into the future.
    pub target: Vec<usize>,
}

/// All the sliding-window flashcards of a text.
#[derive(Debug)]
pub struct LmDataset {
    pub items: Vec<LmItem>,
}

/// The number of windows of length `seq_len` with a following token in `n` tokens.
pub open spec fn window_count(n: nat, seq_len: nat) -> nat {
    if n > seq_len {
        (n - seq_len) as nat
    } else {
        0
    }
}

/// `item` is the window of `tokens` that starts at `start`.
pub open spec fn is_window(item: LmItem, tokens: Seq<usize>, start: int, seq_len: nat) -> bool {
    &&& item.input@ == tokens.subrange(start, start + seq_len)
    &&& item.target@ == tokens.subrange(start + 1, start + seq_len + 1)
}

/// `items` are the windows of `tokens`, one for every start position, in order.
pub open spec fn windows_of(items: Seq<LmItem>, tokens: Seq<usize>, seq_len: nat) -> bool {
    &&& items.len() == window_count(tokens.len(), seq_len)
    &&& forall|i: int| 0 <= i < items.len() ==> is_window(#[trigger] items[i], tokens, i, seq_len)
}

/// A copy of `v[lo..hi]`.
fn copy_range(v: &Vec<usize>, lo: usize, hi: usize) -> (r: Vec<usize>)
    requires
        lo <= hi <= v@.len(),
    ensures
        r@ == v@.subrange(lo as int, hi as int),
{
    let mut r: Vec<usize> = Vec::new();
    for i in lo..hi
        invariant
            lo <= hi <= v@.len(),
            r@ == v@.subrange(lo as int, i as int),
    {
        r.push(v[i]);
        proof {
            assert(v@.subrange(lo as int, i + 1) =~= v@.subrange(lo as int, i as int).push(v@[i as int]));
        }
    }
    r
}

impl LmDataset {
    /// The flashcards of a token sequence: for every start position with
    /// `seq_len + 1` tokens from it on, the input is the `seq_len` tokens from
    /// there and the target the `seq_len` tokens one further on.
    pub fn from_tokens(tokens: &Vec<usize>, seq_len: usize) -> (r: LmDataset)
        ensures
            windows_of(r.items@, tokens@, seq_len as nat),
            tokens@.len() > seq_len ==> r.items@.len() + seq_len == tokens@.len(),
            tokens@.len() <= seq_len ==> r.items@.len() == 0,
            forall|s: int|
                0 <= s && s + seq_len < tokens@.len() ==> (#[trigger] r.items@[s]).input@
                    == tokens@.subrange(s, s + seq_len) && r.items@[s].target@ == tokens@.subrange(
                    s + 1,
                    s + seq_len + 1,
                ),
    {
        let n = tokens.len();
        let count = if n > seq_len { n - seq_len } else { 0 };
        let mut items: Vec<LmItem> = Vec::new();
        for start in 0..count
            invariant
                n == tokens@.len(),
                count == window_count(n as nat, seq_len as nat),
                items@.len() == start,
                forall|i: int| 0 <= i < start ==> is_window(#[trigger] items@[i], tokens@, i, seq_len as nat),
        {
            let input = copy_range(tokens, start, start + seq_len);
            let target = copy_range(tokens, start + 1, start + seq_len + 1);
            items.push(LmItem { input, target });
        }
        proof {
            law_every_window_has_a_card(items@, tokens@, seq_len as nat);
        }
        LmDataset { items }
    }

    /// The flashcards of `corpus` encoded by `tokenizer`.
    pub fn new(corpus: &str, tokenizer: &Tokenizer, seq_len: usize) -> (r: LmDataset)
        requires
            raw_tokens(corpus@).len() > 0 ==> tokenizer@.contains(unk_word()),
        ensures
            windows_of(r.items@, encode_ids(tokenizer@, corpus@), seq_len as nat),
            raw_tokens(corpus@).len() > seq_len ==> r.items@.len() + seq_len == raw_tokens(
                corpus@,
            ).len(),
            raw_tokens(corpus@).len() <= seq_len ==> r.items@.len() == 0,
    {
        let tokens = tokenizer.encode(corpus);
        LmDataset::from_tokens(&tokens, seq_len)
    }

    /// The number of flashcards.
    pub fn len(&self) -> (r: usize)
        ensures
            r == self.items@.len(),
    {
        self.items.len()
    }

    /// A copy of the flashcard at `index`, if there is one.
    pub fn get(&self, index: usize) -> (r: Option<LmItem>)
        ensures
            index < self.items@.len() ==> (r matches Some(item) && item.input@
                == self.items@[index as int].input@ && item.target@ == self.items@[index as int].target@),
            index >= self.items@.len() ==> r is None,
    {
        if index < self.items.len() {
            let item = &self.items[index];
            let input = copy_range(&item.input, 0, item.input.len());
            let target = copy_range(&item.target, 0, item.target.len());
            proof {
                assert(input@ =~= item.input@);
                assert(target@ =~= item.target@);
            }
            Some(LmItem { input, target })
        } else {
            None
        }
    }
}

/// The inputs of `items` laid end to end.
pub open spec fn concat_inputs(items: Seq<LmItem>) -> Seq<usize>
    decreases items.len(),
{
    if items.len() == 0 {
        Seq::empty()
    } else {
        concat_inputs(items.drop_last()) + items.last().input@
    }
}

/// The targets of `items` laid end to end.
pub open spec fn concat_targets(items: Seq<LmItem>) -> Seq<usize>
    decreases items.len(),
{
    if items.len() == 0 {
        Seq::empty()
    } else {
        concat_targets(items.drop_last()) + items.last().target@
    }
}

/// Ids converted to `i32` the way `as` converts them.
pub open spec fn ids_as_i32(ids: Seq<usize>) -> Seq<i32> {
    ids.map_values(|id: usize| id as i32)
}

/// A batch of flashcards as row-major arrays of `i32` ids, one row per card.
#[derive(Debug)]
pub struct FlatBatch {
    pub batch_size: usize,
    pub seq_len: usize,
    /// `batch_size * seq_len` input ids, row after row.
    pub input: Vec<i32>,
    /// `batch_size * seq_len` target ids, row after row.
    pub target: Vec<i32>,
}

/// Stacks flashcards into batches.
#[derive(Clone, Copy, Debug, Default)]
pub struct LmBatcher;

fn append_as_i32(out: &mut Vec<i32>, ids: &Vec<usize>)
    ensures
        final(out)@ == old(out)@ + ids_as_i32(ids@),
{
    let ghost start = out@;
    for j in 0..ids.len()
        invariant
            out@ == start + ids_as_i32(ids@.take(j as int)),
    {
        out.push(ids[j] as i32);
        proof {
            assert(ids@.take(j + 1) =~= ids@.take(j as int).push(ids@[j as int]));
            assert(ids_as_i32(ids@.take(j + 1)) =~= ids_as_i32(ids@.take(j as int)).push(
                ids@[j as int] as i32,
            ));
        }
    }
    proof {
        assert(ids@.take(ids@.len() as int) =~= ids@);
    }
}

impl LmBatcher {
    /// Lays the cards of a batch out row after row; every card must have
    /// inputs and targets as long as the first card's input.
    pub fn flatten(&self, items: &Vec<LmItem>) -> (r: FlatBatch)
        requires
            items@.len() > 0,
            forall|k: int|
                0 <= k < items@.len() ==> (#[trigger] items@[k]).input@.len() == items@[0].input@.len()
                    && items@[k].target@.len() == items@[0].input@.len(),
        ensures
            r.batch_size == items@.len(),
            r.seq_len == items@[0].input@.len(),
            r.input@ == ids_as_i32(concat_inputs(items@)),
            r.target@ == ids_as_i32(concat_targets(items@)),
            r.input@.len() == r.batch_size * r.seq_len,
            r.target@.len() == r.batch_size * r.seq_len,
            forall|k: int|
                0 <= k < r.batch_size ==> r.input@.subrange(k * r.seq_len, (k + 1) * r.seq_len)
                    == ids_as_i32((#[trigger] items@[k]).input@) && r.target@.subrange(
                    k * r.seq_len,
                    (k + 1) * r.seq_len,
                ) == ids_as_i32(items@[k].target@),
            forall|k: int, j: int|
                0 <= k < r.batch_size && 0 <= j < r.seq_len ==> r.input@[k * r.seq_len + j]
                    == (#[trigger] items@[k].input@[j]) as i32,
            forall|k: int, j: int|
                0 <= k < r.batch_size && 0 <= j < r.seq_len ==> r.target@[k * r.seq_len + j]
                    == (#[trigger] items@[k].target@[j]) as i32,
    {
        let batch_size = items.len();
        let seq_len = items[0].input.len();
        let mut input: Vec<i32> = Vec::new();
        let mut target: Vec<i32> = Vec::new();
        for k in 0..batch_size
            invariant
                batch_size == items@.len(),
                seq_len == items@[0].input@.len(),
                forall|m: int|
                    0 <= m < items@.len() ==> (#[trigger] items@[m]).input@.len() == seq_len
                        && items@[m].target@.len() == seq_len,
                input@ == ids_as_i32(concat_inputs(items@.take(k as int))),
                target@ == ids_as_i32(concat_targets(items@.take(k as int))),
                input@.len() == k * seq_len,
                target@.len() == k * seq_len,
        {
            proof {
                assert(items@.take(k + 1).drop_last() =~= items@.take(k as int));
                assert(items@.take(k + 1).last() == items@[k as int]);
            }
            append_as_i32(&mut input, &items[k].input);
            append_as_i32(&mut target, &items[k].target);
            proof {
                let xs = concat_inputs(items@.take(k as int));
                let ys = concat_targets(items@.take(k as int));
                assert(ids_as_i32(xs + items@[k as int].input@) =~= ids_as_i32(xs) + ids_as_i32(
                    items@[k as int].input@,
                ));
                assert(ids_as_i32(ys + items@[k as int].target@) =~= ids_as_i32(ys) + ids_as_i32(
                    items@[k as int].target@,
                ));
                assert((k + 1) * seq_len == k * seq_len + seq_len) by (nonlinear_arith);
            }
        }
        proof {
            assert(items@.take(batch_size as int) =~= items@);
            law_flatten_rows_are_cards(items@, seq_len as nat);
            assert forall|k: int| 0 <= k < batch_size implies input@.subrange(
                k * seq_len,
                (k + 1) * seq_len,
            ) == ids_as_i32((#[trigger] items@[k]).input@) && target@.subrange(
                k * seq_len,
                (k + 1) * seq_len,
            ) == ids_as_i32(items@[k].target@) by {
                let lo = k * seq_len;
                assert((k + 1) * seq_len == lo + seq_len) by (nonlinear_arith)
                    requires
                        lo == k * seq_len,
                ;
                assert(lo + seq_len <= batch_size * seq_len) by (nonlinear_arith)
                    requires
                        0 <= k < batch_size,
                        lo == k * seq_len,
                ;
                assert(input@.subrange(lo, lo + seq_len) =~= ids_as_i32(items@[k].input@));
                assert(target@.subrange(lo, lo + seq_len) =~= ids_as_i32(items@[k].target@));
            }
            assert forall|k: int, j: int| 0 <= k < batch_size && 0 <= j < seq_len implies input@[k
                * seq_len + j] == (#[trigger] items@[k].input@[j]) as i32 by {
                assert(k * seq_len + j < batch_size * seq_len) by (nonlinear_arith)
                    requires
                        0 <= k < batch_size,
                        0 <= j < seq_len,
                ;
                assert(concat_inputs(items@)[k * seq_len + j] == items@[k].input@[j]);
            }
            assert forall|k: int, j: int| 0 <= k < batch_size && 0 <= j < seq_len implies target@[k
                * seq_len + j] == (#[trigger] items@[k].target@[j]) as i32 by {
                assert(k * seq_len + j < batch_size * seq_len) by (nonlinear_arith)
                    requires
                        0 <= k < batch_size,
                        0 <= j < seq_len,
                ;
                assert(concat_targets(items@)[k * seq_len + j] == items@[k].target@[j]);
            }
        }
        FlatBatch { batch_size, seq_len, input, target }
    }
}

/// The target of every flashcard is its input shifted one token into the future,
/// and the input of each flashcard is the target of the one before it.
pub proof fn law_target_is_shifted_input(items: Seq<LmItem>, tokens: Seq<usize>, seq_len: nat)
    requires
        windows_of(items, tokens, seq_len),
    ensures
        forall|i: int, j: int|
            0 <= i < items.len() && 0 <= j < seq_len - 1 ==> #[trigger] items[i].target@[j]
                == items[i].input@[j + 1],
        forall|i: int|
            0 <= i < items.len() - 1 ==> #[trigger] items[i + 1].input@ == items[i].target@,
        forall|i: int| 0 <= i < items.len() ==> (#[trigger] items[i]).input@.len() == seq_len,
{
    assert forall|i: int| 0 <= i < items.len() - 1 implies #[trigger] items[i + 1].input@
        == items[i].target@ by {
        assert(is_window(items[i], tokens, i, seq_len));
        assert(is_window(items[i + 1], tokens, i + 1, seq_len));
        assert(items[i + 1].input@ =~= items[i].target@);
    }
    assert forall|i: int| 0 <= i < items.len() implies (#[trigger] items[i]).input@.len() == seq_len by {
        assert(is_window(items[i], tokens, i, seq_len));
    }
    assert forall|i: int, j: int|
        0 <= i < items.len() && 0 <= j < seq_len - 1 implies #[trigger] items[i].target@[j]
        == items[i].input@[j + 1] by {
        assert(is_window(items[i], tokens, i, seq_len));
    }
}

/// Card `k` of a batch of cards of length `seq_len` fills positions
/// `k * seq_len` to `(k + 1) * seq_len` of the laid-out inputs and targets:
/// the `j`-th id of card `k`'s input is at `k * seq_len + j` of the inputs, and
/// the `j`-th id of its target at the same place of the targets.
pub proof fn law_flatten_rows_are_cards(items: Seq<LmItem>, seq_len: nat)
    requires
        forall|k: int|
            0 <= k < items.len() ==> (#[trigger] items[k]).input@.len() == seq_len
                && items[k].target@.len() == seq_len,
    ensures
        concat_inputs(items).len() == items.len() * seq_len,
        concat_targets(items).len() == items.len() * seq_len,
        forall|k: int, j: int|
            0 <= k < items.len() && 0 <= j < seq_len ==> concat_inputs(items)[k * seq_len + j]
                == #[trigger] items[k].input@[j],
        forall|k: int, j: int|
            0 <= k < items.len() && 0 <= j < seq_len ==> concat_targets(items)[k * seq_len + j]
                == #[trigger] items[k].target@[j],
    decreases items.len(),
{
    if items.len() > 0 {
        let init = items.drop_last();
        let n = items.len() - 1;
        law_flatten_rows_are_cards(init, seq_len);
        assert(items.last() == items[n]);
        assert(items.len() * seq_len == n * seq_len + seq_len) by (nonlinear_arith)
            requires
                n == items.len() - 1,
        ;
        assert forall|k: int, j: int| 0 <= k < items.len() && 0 <= j < seq_len implies #[trigger] items[k].input@[j]
            == concat_inputs(items)[k * seq_len + j] && items[k].target@[j] == concat_targets(items)[k
            * seq_len + j] by {
            if k < n {
                assert(k * seq_len + j < n * seq_len) by (nonlinear_arith)
                    requires
                        0 <= k < n,
                        0 <= j < seq_len,
                ;
                assert(init[k] == items[k]);
            } else {
                assert(k * seq_len == n * seq_len);
            }
        }
        assert forall|k: int, j: int| 0 <= k < items.len() && 0 <= j < seq_len implies #[trigger] items[k].target@[j]
            == concat_targets(items)[k * seq_len + j] by {
            assert(items[k].input@[j] == concat_inputs(items)[k * seq_len + j]);
        }
    }
}

/// Every start position with `seq_len + 1` tokens from it on has its card, and
/// there are no others: `n - seq_len` cards for `n > seq_len` tokens, none for fewer.
pub proof fn law_every_window_has_a_card(items: Seq<LmItem>, tokens: Seq<usize>, seq_len: nat)
    requires
        windows_of(items, tokens, seq_len),
    ensures
        tokens.len() > seq_len ==> items.len() + seq_len == tokens.len(),
        tokens.len() <= seq_len ==> items.len() == 0,
        forall|s: int|
            0 <= s && s + seq_len < tokens.len() ==> (#[trigger] items[s]).input@ == tokens.subrange(
                s,
                s + seq_len,
            ) && items[s].target@ == tokens.subrange(s + 1, s + seq_len + 1),
{
    assert forall|s: int| 0 <= s && s + seq_len < tokens.len() implies (#[trigger] items[s]).input@
        == tokens.subrange(s, s + seq_len) && items[s].target@ == tokens.subrange(
        s + 1,
        s + seq_len + 1,
    ) by {
        assert(is_window(items[s], tokens, s, seq_len));
    }
}

} // verus!
