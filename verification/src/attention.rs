//! The integer side of attention: how heads split the model width, and which
//! positions a token may look at.
use vstd::prelude::*;

verus! {

/// The width of one attention head, when `n_heads` heads split `d_model` evenly.
pub fn head_dim(d_model: usize, n_heads: usize) -> (r: Option<usize>)
    ensures
        r == (if n_heads > 0 && d_model % n_heads == 0 {
            Some(d_model / n_heads)
        } else {
            None::<usize>
        }),
{
    if n_heads > 0 && d_model % n_heads == 0 {
        Some(d_model / n_heads)
    } else {
        None
    }
}

/// Splitting the model width into heads and concatenating the heads back
/// gives the model width again.
pub proof fn law_heads_concatenate_to_model_width(d_model: usize, n_heads: usize)
    requires
        n_heads > 0,
        d_model % n_heads == 0,
    ensures
        (d_model / n_heads) * n_heads == d_model,
{
    assert((d_model / n_heads) * n_heads + d_model % n_heads == d_model) by (nonlinear_arith)
        requires
            n_heads > 0,
    ;
}

/// Whether the token at `row` must not look at the token at `col`: it comes later.
pub open spec fn causal_blocked(row: int, col: int) -> bool {
    col > row
}

proof fn lemma_row_major(n: int, row: int, col: int)
    requires
        0 <= row < n,
        0 <= col < n,
    ensures
        0 <= row * n + col < n * n,
        row * n + col < (row + 1) * n,
        row * n <= row * n + col,
{
    assert(0 <= row * n + col < n * n) by (nonlinear_arith)
        requires
            0 <= row < n,
            0 <= col < n,
    ;
    assert((row + 1) * n == row * n + n) by (nonlinear_arith);
}

/// The causal mask of a sequence of `seq_len` tokens, row after row: the entry
/// for (`row`, `col`) is set exactly when `col` comes after `row`.
pub fn causal_mask_pattern(seq_len: usize) -> (r: Vec<bool>)
    requires
        seq_len * seq_len <= usize::MAX,
    ensures
        r@.len() == seq_len * seq_len,
        forall|row: int, col: int|
            0 <= row < seq_len && 0 <= col < seq_len ==> #[trigger] r@[row * seq_len + col]
                == causal_blocked(row, col),
{
    let n = seq_len;
    let mut r: Vec<bool> = Vec::new();
    proof {
        assert(0 * n == 0) by (nonlinear_arith);
    }
    for row in 0..n
        invariant
            n == seq_len,
            n * n <= usize::MAX,
            r@.len() == row * n,
            forall|a: int, b: int|
                0 <= a < row && 0 <= b < n ==> #[trigger] r@[a * n + b] == causal_blocked(a, b),
    {
        for col in 0..n
            invariant
                n == seq_len,
                row < n,
                r@.len() == row * n + col,
                forall|a: int, b: int|
                    0 <= a < row && 0 <= b < n ==> #[trigger] r@[a * n + b] == causal_blocked(a, b),
                forall|b: int| 0 <= b < col ==> #[trigger] r@[row * n + b] == causal_blocked(row as int, b),
        {
            proof {
                lemma_row_major(n as int, row as int, col as int);
            }
            let ghost before = r@;
            r.push(col > row);
            proof {
                assert forall|a: int, b: int| 0 <= a < row && 0 <= b < n implies #[trigger] r@[a * n + b]
                    == causal_blocked(a, b) by {
                    lemma_row_major(n as int, a, b);
                    assert((a + 1) * n <= row * n) by (nonlinear_arith)
                        requires
                            a + 1 <= row,
                            n >= 0,
                    ;
                    assert(r@[a * n + b] == before[a * n + b]);
                }
                assert forall|b: int| 0 <= b < col + 1 implies #[trigger] r@[row * n + b] == causal_blocked(
                    row as int,
                    b,
                ) by {
                    if b < col {
                        assert(r@[row * n + b] == before[row * n + b]);
                    }
                }
            }
        }
        proof {
            assert((row + 1) * n == row * n + n) by (nonlinear_arith);
        }
    }
    r
}

/// Each token may look at itself and at every token before it, and at nothing after it.
pub proof fn law_causal_visibility(seq_len: int, row: int)
    requires
        0 <= row < seq_len,
    ensures
        forall|col: int| 0 <= col < seq_len ==> (!causal_blocked(row, col) <==> col <= row),
        !causal_blocked(row, row),
        forall|col: int| 0 <= col <= row ==> !causal_blocked(row, col),
{
}

} // verus!
