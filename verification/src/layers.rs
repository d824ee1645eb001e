//! The shapes of the layers of a multi-layer perceptron.
use vstd::prelude::*;

verus! {

/// The shape of a fully-connected layer: `d_out` neurons over `d_in` inputs,
/// followed by a tanh squash when `nonlin` is set.
#[derive(Clone, Copy, Debug)]
pub struct LinearConfig {
    pub d_in: usize,
    pub d_out: usize,
    pub nonlin: bool,
}

impl LinearConfig {
    /// A layer from `d_in` inputs to `d_out` outputs, without the squash.
    pub fn new(d_in: usize, d_out: usize) -> (r: LinearConfig)
        ensures
            r.d_in == d_in,
            r.d_out == d_out,
            !r.nonlin,
    {
        LinearConfig { d_in, d_out, nonlin: false }
    }

    /// The same layer, squashed by tanh when `yes` (a hidden layer).
    pub fn with_nonlin(self, yes: bool) -> (r: LinearConfig)
        ensures
            r.d_in == self.d_in,
            r.d_out == self.d_out,
            r.nonlin == yes,
    {
        LinearConfig { d_in: self.d_in, d_out: self.d_out, nonlin: yes }
    }
}

/// The layers of a perceptron with `n_in` inputs and the given layer widths:
/// each layer reads what the one before it writes (the first reads the inputs),
/// and every layer but the last is squashed by tanh, so the last one gives raw scores.
pub fn mlp_layer_configs(n_in: usize, layer_sizes: &[usize]) -> (r: Vec<LinearConfig>)
    ensures
        r@.len() == layer_sizes@.len(),
        forall|i: int|
            0 <= i < r@.len() ==> (#[trigger] r@[i]).d_in == (if i == 0 {
                n_in
            } else {
                layer_sizes@[i - 1]
            }) && r@[i].d_out == layer_sizes@[i] && r@[i].nonlin == (i != r@.len() - 1),
{
    let n = layer_sizes.len();
    let mut r: Vec<LinearConfig> = Vec::new();
    for i in 0..n
        invariant
            n == layer_sizes@.len(),
            r@.len() == i,
            forall|m: int|
                0 <= m < i ==> (#[trigger] r@[m]).d_in == (if m == 0 {
                    n_in
                } else {
                    layer_sizes@[m - 1]
                }) && r@[m].d_out == layer_sizes@[m] && r@[m].nonlin == (m != n - 1),
    {
        let d_in = if i == 0 { n_in } else { layer_sizes[i - 1] };
        let last = i == n - 1;
        r.push(LinearConfig::new(d_in, layer_sizes[i]).with_nonlin(!last));
    }
    r
}

/// The rows of a weight matrix laid end to end.
pub open spec fn flatten_rows<T>(rows: Seq<Vec<T>>) -> Seq<T>
    decreases rows.len(),
{
    if rows.len() == 0 {
        Seq::empty()
    } else {
        flatten_rows(rows.drop_last()) + rows.last()@
    }
}

proof fn lemma_flatten_rows_len<T>(rows: Seq<Vec<T>>, d_in: nat)
    requires
        forall|i: int| 0 <= i < rows.len() ==> (#[trigger] rows[i])@.len() == d_in,
    ensures
        flatten_rows(rows).len() == rows.len() * d_in,
    decreases rows.len(),
{
    if rows.len() > 0 {
        lemma_flatten_rows_len(rows.drop_last(), d_in);
        assert(rows.last() == rows[rows.len() - 1]);
        assert(rows.len() * d_in == (rows.len() - 1) * d_in + d_in) by (nonlinear_arith);
    }
}

/// The tunable parameters of a layer in the order an optimizer sees them: the
/// weights row by row, then the biases.
pub fn layer_parameters<T: Copy>(weight: &Vec<Vec<T>>, bias: &Vec<T>) -> (r: Vec<T>)
    ensures
        r@ == flatten_rows(weight@) + bias@,
        forall|i: int| 0 <= i < bias@.len() ==> r@[r@.len() - bias@.len() + i] == #[trigger] bias@[i],
        weight@.len() > 0 && (forall|m: int|
            0 <= m < weight@.len() ==> (#[trigger] weight@[m])@.len() == weight@[0]@.len()) ==> forall|
            i: int,
            j: int,
        |
            0 <= i < weight@.len() && 0 <= j < weight@[0]@.len() ==> r@[i * weight@[0]@.len() + j]
                == #[trigger] weight@[i]@[j],
{
    let mut r: Vec<T> = Vec::new();
    for i in 0..weight.len()
        invariant
            r@ == flatten_rows(weight@.take(i as int)),
    {
        proof {
            assert(weight@.take(i + 1).drop_last() =~= weight@.take(i as int));
            assert(weight@.take(i + 1).last() == weight@[i as int]);
        }
        let row = &weight[i];
        let ghost start = r@;
        for j in 0..row.len()
            invariant
                r@ == start + row@.take(j as int),
        {
            r.push(row[j]);
            proof {
                assert(row@.take(j + 1) =~= row@.take(j as int).push(row@[j as int]));
            }
        }
        proof {
            assert(row@.take(row@.len() as int) =~= row@);
        }
    }
    proof {
        assert(weight@.take(weight@.len() as int) =~= weight@);
    }
    let ghost before = r@;
    for k in 0..bias.len()
        invariant
            r@ == before + bias@.take(k as int),
    {
        r.push(bias[k]);
        proof {
            assert(bias@.take(k + 1) =~= bias@.take(k as int).push(bias@[k as int]));
        }
    }
    proof {
        assert(bias@.take(bias@.len() as int) =~= bias@);
        if weight@.len() > 0 && (forall|m: int|
            0 <= m < weight@.len() ==> (#[trigger] weight@[m])@.len() == weight@[0]@.len()) {
            law_layer_parameter_positions(weight@, bias@, weight@[0]@.len());
        }
    }
    r
}

/// Every parameter of a layer has its own place: the weight in row `i` and
/// column `j` is at `i * d_in + j`, and the bias of neuron `i` at
/// `rows * d_in + i`, after all the weights.
pub proof fn law_layer_parameter_positions<T>(weight: Seq<Vec<T>>, bias: Seq<T>, d_in: nat)
    requires
        forall|i: int| 0 <= i < weight.len() ==> (#[trigger] weight[i])@.len() == d_in,
    ensures
        (flatten_rows(weight) + bias).len() == weight.len() * d_in + bias.len(),
        forall|i: int, j: int|
            0 <= i < weight.len() && 0 <= j < d_in ==> (flatten_rows(weight) + bias)[i * d_in + j]
                == #[trigger] weight[i]@[j],
        forall|i: int|
            0 <= i < bias.len() ==> (flatten_rows(weight) + bias)[weight.len() * d_in + i]
                == #[trigger] bias[i],
{
    lemma_flatten_rows_at(weight, d_in);
    lemma_flatten_rows_len(weight, d_in);
    assert forall|i: int, j: int| 0 <= i < weight.len() && 0 <= j < d_in implies (flatten_rows(
        weight,
    ) + bias)[i * d_in + j] == #[trigger] weight[i]@[j] by {
        assert(i * d_in + j < weight.len() * d_in) by (nonlinear_arith)
            requires
                0 <= i < weight.len(),
                0 <= j < d_in,
        ;
    }
}

/// The `j`-th weight of row `i` sits at `i * d_in + j` of the rows laid end to end.
proof fn lemma_flatten_rows_at<T>(rows: Seq<Vec<T>>, d_in: nat)
    requires
        forall|i: int| 0 <= i < rows.len() ==> (#[trigger] rows[i])@.len() == d_in,
    ensures
        forall|i: int, j: int|
            0 <= i < rows.len() && 0 <= j < d_in ==> flatten_rows(rows)[i * d_in + j]
                == #[trigger] rows[i]@[j],
    decreases rows.len(),
{
    if rows.len() > 0 {
        let init = rows.drop_last();
        let n = rows.len() - 1;
        lemma_flatten_rows_at(init, d_in);
        lemma_flatten_rows_len(init, d_in);
        assert(rows.last() == rows[n]);
        assert forall|i: int, j: int| 0 <= i < rows.len() && 0 <= j < d_in implies flatten_rows(
            rows,
        )[i * d_in + j] == #[trigger] rows[i]@[j] by {
            if i < n {
                assert(i * d_in + j < n * d_in) by (nonlinear_arith)
                    requires
                        0 <= i < n,
                        0 <= j < d_in,
                ;
                assert(init[i] == rows[i]);
            } else {
                assert(i * d_in == n * d_in);
            }
        }
    }
}

/// A layer with `d_out` rows of `d_in` weights and `d_out` biases has
/// `d_out * (d_in + 1)` parameters.
pub proof fn law_layer_parameter_count<T>(weight: Seq<Vec<T>>, bias: Seq<T>, d_in: nat)
    requires
        bias.len() == weight.len(),
        forall|i: int| 0 <= i < weight.len() ==> (#[trigger] weight[i])@.len() == d_in,
    ensures
        (flatten_rows(weight) + bias).len() == weight.len() * (d_in + 1),
{
    lemma_flatten_rows_len(weight, d_in);
    assert(weight.len() * (d_in + 1) == weight.len() * d_in + weight.len()) by (nonlinear_arith);
}

} // verus!
