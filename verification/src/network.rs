//! A multilayer perceptron over an arbitrary scalar type `T`: forward
//! inference, gradient-descent backpropagation and persistence of the
//! learned parameters.
//!
//! Scalar arithmetic and the activation strategy are closures supplied at
//! construction. Contracts pin the engine's behaviour relative to them:
//! whenever the closures implement mathematical functions, the cache left
//! by a forward pass and the parameters left by a backward pass equal the
//! corresponding specification-level recurrences.
use vstd::prelude::*;
use vstd::pervasive::VecAdditionalExecFns;

use crate::Error;
use crate::matrix::Matrix;
use crate::matrix::col_of;
use crate::matrix::col_seq_of;
use crate::matrix::dot_of;
use crate::matrix::fn1_models;
use crate::matrix::fn1_total;
use crate::matrix::fn2_models;
use crate::matrix::fn2_total;
use crate::matrix::map_of;
use crate::matrix::product_of;
use crate::matrix::scale_of;
use crate::matrix::shape_err;
use crate::matrix::transpose_of;
use crate::matrix::views_of;
use crate::matrix::zip_of;

verus! {

/// The activation strategy: a scalar function and its derivative. The
/// derivative must be expressed in terms of the activation's output, so it
/// is always applied to cached post-activation values.
pub struct Activation<F, D> {
    pub function: F,
    pub derivative: D,
}

/// The scalar arithmetic the engine computes with: addition, subtraction,
/// multiplication and the additive identity of the caller's scalar type.
pub struct Arith<T, A, S, M> {
    pub plus: A,
    pub minus: S,
    pub times: M,
    pub zero: T,
}

/// The weight and bias matrices of a network, one of each per layer
/// transition, as plain row-major nested sequences: the persisted form.
pub struct SavedParams<T> {
    pub weights: Vec<Vec<Vec<T>>>,
    pub biases: Vec<Vec<Vec<T>>>,
}

/// The deep view of a nested parameter list.
pub open spec fn grids_of<T>(v: Seq<Vec<Vec<T>>>) -> Seq<Seq<Seq<T>>> {
    v.map_values(|g: Vec<Vec<T>>| g@.map_values(|row: Vec<T>| row@))
}

/// `g` is a non-empty rectangular grid of exactly `rows` rows of `cols`
/// entries: the form a matrix of that shape can be rebuilt from.
pub open spec fn grid_ok<T>(g: Seq<Seq<T>>, rows: int, cols: int) -> bool {
    &&& g.len() == rows
    &&& g.len() > 0
    &&& forall|i: int| 0 <= i < g.len() ==> (#[trigger] g[i]).len() == cols
}

/// A persisted parameter record fits the topology `layers`: one grid per
/// layer transition, each of the shape the transition demands.
pub open spec fn load_ok<T>(layers: Seq<usize>, pw: Seq<Seq<Seq<T>>>, pb: Seq<Seq<Seq<T>>>) -> bool {
    &&& pw.len() == layers.len() - 1
    &&& pb.len() == layers.len() - 1
    &&& forall|i: int|
        0 <= i < pw.len() ==> grid_ok(#[trigger] pw[i], layers[i + 1] as int, layers[i] as int)
    &&& forall|i: int| 0 <= i < pb.len() ==> grid_ok(#[trigger] pb[i], layers[i + 1] as int, 1)
}

/// An exact copy of a flat vector.
fn copy_row<T: Copy>(src: &Vec<T>) -> (r: Vec<T>)
    ensures
        r@ == src@,
{
    let mut r: Vec<T> = Vec::new();
    let mut i: usize = 0;
    while i < src.len()
        invariant
            i <= src@.len(),
            r@ =~= src@.take(i as int),
        decreases src@.len() - i,
    {
        r.push(src[i]);
        i += 1;
    }
    proof {
        assert(r@ =~= src@);
    }
    r
}

/// An exact copy of a nested grid.
fn copy_grid<T: Copy>(src: &Vec<Vec<T>>) -> (r: Vec<Vec<T>>)
    ensures
        r@.len() == src@.len(),
        forall|i: int| 0 <= i < src@.len() ==> (#[trigger] r@[i])@ == src@[i]@,
{
    let mut r: Vec<Vec<T>> = Vec::new();
    let mut i: usize = 0;
    while i < src.len()
        invariant
            i <= src@.len(),
            r@.len() == i,
            forall|p: int| 0 <= p < i ==> (#[trigger] r@[p])@ == src@[p]@,
        decreases src@.len() - i,
    {
        let row = copy_row(&src[i]);
        r.push(row);
        i += 1;
    }
    r
}

/// One layer transition of the forward pass: multiply by the weights, add
/// the bias elementwise, then map the activation function over the result.
pub open spec fn layer_step_of<T>(
    w: Seq<Seq<T>>,
    b: Seq<Seq<T>>,
    x: Seq<Seq<T>>,
    sa: spec_fn(T, T) -> T,
    sm: spec_fn(T, T) -> T,
    sf: spec_fn(T) -> T,
    zero: T,
) -> Seq<Seq<T>> {
    map_of(zip_of(product_of(w, x, 1, sa, sm, zero), b, sa), sf)
}

/// The per-layer activation columns of a forward pass through the first
/// `n` transitions, starting from the input column `x0`: entry `0` is the
/// input, entry `i + 1` the output of transition `i`.
pub open spec fn cache_of<T>(
    ws: Seq<Seq<Seq<T>>>,
    bs: Seq<Seq<Seq<T>>>,
    x0: Seq<Seq<T>>,
    n: nat,
    sa: spec_fn(T, T) -> T,
    sm: spec_fn(T, T) -> T,
    sf: spec_fn(T) -> T,
    zero: T,
) -> Seq<Seq<Seq<T>>>
    decreases n,
{
    if n == 0 {
        seq![x0]
    } else {
        let prev = cache_of(ws, bs, x0, (n - 1) as nat, sa, sm, sf, zero);
        prev.push(layer_step_of(ws[n - 1], bs[n - 1], prev.last(), sa, sm, sf, zero))
    }
}

/// The backward pass over transitions `i, i - 1, .., 0`, starting from the
/// error and gradient columns `err` and `grad`: at each transition the
/// gradient is scaled by the Hadamard product with the error and the
/// learning rate, the weight matrix accumulates the outer product of the
/// scaled gradient with the cached input activation, the bias accumulates
/// the scaled gradient, the error is propagated backward through the
/// pre-update weights, and the next gradient is the derivative mapped over
/// the cached activation entering the transition. Returns the updated
/// weight and bias lists.
pub open spec fn bp_of<T>(
    layers: Seq<usize>,
    ws: Seq<Seq<Seq<T>>>,
    bs: Seq<Seq<Seq<T>>>,
    cache: Seq<Seq<Seq<T>>>,
    err: Seq<Seq<T>>,
    grad: Seq<Seq<T>>,
    i: int,
    lr: T,
    sa: spec_fn(T, T) -> T,
    sm: spec_fn(T, T) -> T,
    sd: spec_fn(T) -> T,
    zero: T,
) -> (Seq<Seq<Seq<T>>>, Seq<Seq<Seq<T>>>)
    decreases i + 1,
        when i >= -1
{
    if i < 0 {
        (ws, bs)
    } else {
        let g1 = scale_of(zip_of(grad, err, sm), lr, sm);
        let dw = product_of(g1, transpose_of(cache[i], 1), layers[i] as nat, sa, sm, zero);
        let nws = ws.update(i, zip_of(ws[i], dw, sa));
        let nbs = bs.update(i, zip_of(bs[i], g1, sa));
        let err2 = product_of(transpose_of(ws[i], layers[i] as nat), err, 1, sa, sm, zero);
        let g2 = map_of(cache[i], sd);
        bp_of(layers, nws, nbs, cache, err2, g2, i - 1, lr, sa, sm, sd, zero)
    }
}

/// The complete backward pass of a network whose forward cache is `cache`:
/// the initial error is the elementwise difference of the target and
/// output columns, the initial gradient the derivative mapped over the
/// cached output-layer activation, and every transition is processed from
/// the last down to the first.
pub open spec fn bp_result_of<T>(
    layers: Seq<usize>,
    ws: Seq<Seq<Seq<T>>>,
    bs: Seq<Seq<Seq<T>>>,
    cache: Seq<Seq<Seq<T>>>,
    tseq: Seq<T>,
    oseq: Seq<T>,
    lr: T,
    sa: spec_fn(T, T) -> T,
    ss: spec_fn(T, T) -> T,
    sm: spec_fn(T, T) -> T,
    sd: spec_fn(T) -> T,
    zero: T,
) -> (Seq<Seq<Seq<T>>>, Seq<Seq<Seq<T>>>) {
    bp_of(
        layers,
        ws,
        bs,
        cache,
        zip_of(col_seq_of(tseq), col_seq_of(oseq), ss),
        map_of(cache.last(), sd),
        layers.len() - 2,
        lr,
        sa,
        sm,
        sd,
        zero,
    )
}

/// The flat entries of a single-column nested sequence, top to bottom.
pub open spec fn flat_of<T>(col: Seq<Seq<T>>) -> Seq<T> {
    Seq::new(col.len(), |k: int| col[k][0])
}

/// One training step on one sample: the forward recurrence, then the
/// backward recurrence against the cache and output it produced.
pub open spec fn step_of<T>(
    layers: Seq<usize>,
    ws: Seq<Seq<Seq<T>>>,
    bs: Seq<Seq<Seq<T>>>,
    input: Seq<T>,
    target: Seq<T>,
    lr: T,
    sa: spec_fn(T, T) -> T,
    ss: spec_fn(T, T) -> T,
    sm: spec_fn(T, T) -> T,
    sf: spec_fn(T) -> T,
    sd: spec_fn(T) -> T,
    zero: T,
) -> (Seq<Seq<Seq<T>>>, Seq<Seq<Seq<T>>>) {
    let cache = cache_of(ws, bs, col_seq_of(input), (layers.len() - 1) as nat, sa, sm, sf, zero);
    bp_result_of(layers, ws, bs, cache, target, flat_of(cache.last()), lr, sa, ss, sm, sd, zero)
}

/// The tail of one epoch: the samples from index `j` on, processed in
/// order.
pub open spec fn epoch_of<T>(
    layers: Seq<usize>,
    ws: Seq<Seq<Seq<T>>>,
    bs: Seq<Seq<Seq<T>>>,
    inputs: Seq<Vec<T>>,
    targets: Seq<Vec<T>>,
    j: int,
    lr: T,
    sa: spec_fn(T, T) -> T,
    ss: spec_fn(T, T) -> T,
    sm: spec_fn(T, T) -> T,
    sf: spec_fn(T) -> T,
    sd: spec_fn(T) -> T,
    zero: T,
) -> (Seq<Seq<Seq<T>>>, Seq<Seq<Seq<T>>>)
    decreases inputs.len() - j,
        when j >= 0
{
    if j >= inputs.len() {
        (ws, bs)
    } else {
        let st = step_of(layers, ws, bs, inputs[j]@, targets[j]@, lr, sa, ss, sm, sf, sd, zero);
        epoch_of(layers, st.0, st.1, inputs, targets, j + 1, lr, sa, ss, sm, sf, sd, zero)
    }
}

/// A whole training run: `e` full epochs over the dataset.
pub open spec fn train_of<T>(
    layers: Seq<usize>,
    ws: Seq<Seq<Seq<T>>>,
    bs: Seq<Seq<Seq<T>>>,
    inputs: Seq<Vec<T>>,
    targets: Seq<Vec<T>>,
    e: nat,
    lr: T,
    sa: spec_fn(T, T) -> T,
    ss: spec_fn(T, T) -> T,
    sm: spec_fn(T, T) -> T,
    sf: spec_fn(T) -> T,
    sd: spec_fn(T) -> T,
    zero: T,
) -> (Seq<Seq<Seq<T>>>, Seq<Seq<Seq<T>>>)
    decreases e,
{
    if e == 0 {
        (ws, bs)
    } else {
        let ep = epoch_of(layers, ws, bs, inputs, targets, 0, lr, sa, ss, sm, sf, sd, zero);
        train_of(layers, ep.0, ep.1, inputs, targets, (e - 1) as nat, lr, sa, ss, sm, sf, sd, zero)
    }
}

/// A feed-forward network: layer sizes, one weight and one bias matrix per
/// transition, the activation column cache of the most recent forward
/// pass, the learning rate and the caller's scalar strategies.
pub struct Network<T, F, D, A, S, M> {
    pub layers: Vec<usize>,
    pub weights: Vec<Matrix<T>>,
    pub biases: Vec<Matrix<T>>,
    pub cache: Vec<Matrix<T>>,
    pub learning_rate: T,
    pub activation: Activation<F, D>,
    pub arith: Arith<T, A, S, M>,
}

impl<
    T: Copy,
    F: Fn(T) -> T,
    D: Fn(T) -> T,
    A: Fn(T, T) -> T,
    S: Fn(T, T) -> T,
    M: Fn(T, T) -> T,
> Network<T, F, D, A, S, M> {
    /// The structural invariant: there is at least one layer, one weight
    /// and one bias matrix per transition, weight matrix `i` has shape
    /// `(layers[i + 1], layers[i])` and bias `i` shape `(layers[i + 1], 1)`.
    pub open spec fn wf(self) -> bool {
        &&& self.layers@.len() >= 1
        &&& self.weights@.len() == self.layers@.len() - 1
        &&& self.biases@.len() == self.layers@.len() - 1
        &&& forall|i: int|
            0 <= i < self.weights@.len() ==> {
                &&& (#[trigger] self.weights@[i]).wf()
                &&& self.weights@[i].rows == self.layers@[i + 1]
                &&& self.weights@[i].cols == self.layers@[i]
            }
        &&& forall|i: int|
            0 <= i < self.biases@.len() ==> {
                &&& (#[trigger] self.biases@[i]).wf()
                &&& self.biases@[i].rows == self.layers@[i + 1]
                &&& self.biases@[i].cols == 1
            }
    }

    /// The caller's closures accept every argument.
    pub open spec fn ops_total(self) -> bool {
        &&& fn2_total(self.arith.plus)
        &&& fn2_total(self.arith.minus)
        &&& fn2_total(self.arith.times)
        &&& fn1_total(self.activation.function)
        &&& fn1_total(self.activation.derivative)
    }

    /// The cache holds one well-shaped column per layer: the state left by
    /// a successful forward pass, required by backpropagation.
    pub open spec fn cache_shaped(self) -> bool {
        &&& self.cache@.len() == self.layers@.len()
        &&& forall|i: int|
            0 <= i < self.cache@.len() ==> {
                &&& (#[trigger] self.cache@[i]).wf()
                &&& self.cache@[i].rows == self.layers@[i]
                &&& self.cache@[i].cols == 1
            }
    }

    /// Builds a network with the given topology, learning rate and scalar
    /// strategies; every weight and bias entry is initialized with an
    /// independent call of `draw`.
    pub fn new<R: Fn() -> T>(
        layers: Vec<usize>,
        learning_rate: T,
        activation: Activation<F, D>,
        arith: Arith<T, A, S, M>,
        draw: &R,
    ) -> (net: Network<T, F, D, A, S, M>)
        requires
            layers@.len() >= 1,
            call_requires(*draw, ()),
        ensures
            net.wf(),
            net.layers@ == layers@,
            net.learning_rate == learning_rate,
            net.activation == activation,
            net.arith == arith,
            net.cache@.len() == 0,
            forall|i: int, p: int, q: int|
                0 <= i < net.weights@.len() && 0 <= p < net.weights@[i]@.len() && 0 <= q
                    < net.weights@[i]@[p].len()
                    ==> call_ensures(*draw, (), #[trigger] net.weights@[i]@[p][q]),
            forall|i: int, p: int, q: int|
                0 <= i < net.biases@.len() && 0 <= p < net.biases@[i]@.len() && 0 <= q
                    < net.biases@[i]@[p].len()
                    ==> call_ensures(*draw, (), #[trigger] net.biases@[i]@[p][q]),
    {
        let mut weights: Vec<Matrix<T>> = Vec::new();
        let mut biases: Vec<Matrix<T>> = Vec::new();
        let mut i: usize = 0;
        let n = layers.len();
        while i < n - 1
            invariant
                n == layers@.len(),
                n >= 1,
                i <= n - 1,
                call_requires(*draw, ()),
                weights@.len() == i,
                biases@.len() == i,
                forall|p: int|
                    0 <= p < i ==> {
                        &&& (#[trigger] weights@[p]).wf()
                        &&& weights@[p].rows == layers@[p + 1]
                        &&& weights@[p].cols == layers@[p]
                    },
                forall|p: int|
                    0 <= p < i ==> {
                        &&& (#[trigger] biases@[p]).wf()
                        &&& biases@[p].rows == layers@[p + 1]
                        &&& biases@[p].cols == 1
                    },
                forall|p: int, x: int, y: int|
                    0 <= p < i && 0 <= x < weights@[p]@.len() && 0 <= y < weights@[p]@[x].len()
                        ==> call_ensures(*draw, (), #[trigger] weights@[p]@[x][y]),
                forall|p: int, x: int, y: int|
                    0 <= p < i && 0 <= x < biases@[p]@.len() && 0 <= y < biases@[p]@[x].len()
                        ==> call_ensures(*draw, (), #[trigger] biases@[p]@[x][y]),
            decreases n - 1 - i,
        {
            let w = Matrix::random(layers[i + 1], layers[i], draw);
            let b = Matrix::random(layers[i + 1], 1, draw);
            weights.push(w);
            biases.push(b);
            i += 1;
        }
        Network { layers, weights, biases, cache: Vec::new(), learning_rate, activation, arith }
    }

    /// Runs a forward pass. Fails with `ShapeMismatch` exactly when the
    /// input length differs from the input width `layers[0]`; otherwise
    /// replaces the cache with one activation column per layer and returns
    /// the output layer's values, whose count is always the output width
    /// `layers[last]`. Whenever the caller's addition, multiplication and
    /// activation closures implement mathematical functions, the new cache
    /// equals the specification-level forward recurrence [`cache_of`].
    pub fn feed_forward(&mut self, inputs: Vec<T>) -> (r: Result<Vec<T>, Error>)
        requires
            old(self).wf(),
            old(self).ops_total(),
        ensures
            final(self).wf(),
            final(self).layers@ == old(self).layers@,
            final(self).weights@ == old(self).weights@,
            final(self).biases@ == old(self).biases@,
            final(self).learning_rate == old(self).learning_rate,
            final(self).activation == old(self).activation,
            final(self).arith == old(self).arith,
            r is Ok <==> inputs@.len() == old(self).layers@[0],
            inputs@.len() != old(self).layers@[0] ==> r == Err::<Vec<T>, Error>(
                shape_err(old(self).layers@[0] as int, inputs@.len() as int),
            ) && *final(self) == *old(self),
            r matches Ok(out) ==> {
                &&& final(self).cache_shaped()
                &&& final(self).cache@[0]@ == col_seq_of(inputs@)
                &&& out@.len() == old(self).layers@[old(self).layers@.len() - 1]
                &&& forall|k: int|
                    0 <= k < out@.len() ==> #[trigger] out@[k]
                        == final(self).cache@.last()@[k][0]
                &&& forall|sa: spec_fn(T, T) -> T, sm: spec_fn(T, T) -> T, sf: spec_fn(T) -> T|
                    fn2_models(old(self).arith.plus, sa) && fn2_models(old(self).arith.times, sm)
                        && fn1_models(old(self).activation.function, sf) ==> views_of(
                        final(self).cache@,
                    ) == #[trigger] cache_of(
                        views_of(old(self).weights@),
                        views_of(old(self).biases@),
                        col_seq_of(inputs@),
                        (old(self).layers@.len() - 1) as nat,
                        sa,
                        sm,
                        sf,
                        old(self).arith.zero,
                    )
            },
    {
        if inputs.len() != self.layers[0] {
            return Err(Error::ShapeMismatch { expected: self.layers[0], actual: inputs.len() });
        }
        let ghost ws = views_of(self.weights@);
        let ghost bs = views_of(self.biases@);
        let ghost x0 = col_seq_of(inputs@);
        let first = Matrix::column(inputs);
        self.cache = Vec::new();
        self.cache.push(first);
        proof {
            assert forall|sa: spec_fn(T, T) -> T, sm: spec_fn(T, T) -> T, sf: spec_fn(T) -> T|
                fn2_models(self.arith.plus, sa) && fn2_models(self.arith.times, sm) && fn1_models(
                self.activation.function,
                sf,
            ) implies views_of(self.cache@) == #[trigger] cache_of(
                ws,
                bs,
                x0,
                0,
                sa,
                sm,
                sf,
                self.arith.zero,
            ) by {
                assert(views_of(self.cache@) =~= seq![x0]);
            }
        }
        let n = self.layers.len();
        let mut i: usize = 0;
        while i < n - 1
            invariant
                self.wf(),
                self.ops_total(),
                n == self.layers@.len(),
                n >= 1,
                i <= n - 1,
                self.layers@ == old(self).layers@,
                self.weights@ == old(self).weights@,
                self.biases@ == old(self).biases@,
                self.learning_rate == old(self).learning_rate,
                self.activation == old(self).activation,
                self.arith == old(self).arith,
                ws == views_of(self.weights@),
                bs == views_of(self.biases@),
                self.cache@.len() == i + 1,
                forall|p: int|
                    0 <= p <= i ==> {
                        &&& (#[trigger] self.cache@[p]).wf()
                        &&& self.cache@[p].rows == self.layers@[p]
                        &&& self.cache@[p].cols == 1
                    },
                self.cache@[0]@ == x0,
                forall|sa: spec_fn(T, T) -> T, sm: spec_fn(T, T) -> T, sf: spec_fn(T) -> T|
                    fn2_models(self.arith.plus, sa) && fn2_models(self.arith.times, sm)
                        && fn1_models(self.activation.function, sf) ==> views_of(self.cache@)
                        == #[trigger] cache_of(ws, bs, x0, i as nat, sa, sm, sf, self.arith.zero),
            decreases n - 1 - i,
        {
            let ghost prev_n: nat = i as nat;
            let last = self.cache.len() - 1;
            let stepped = match self.weights[i].multiply(
                &self.cache[last],
                &self.arith.plus,
                &self.arith.times,
                self.arith.zero,
            ) {
                Ok(m) => m,
                Err(e) => {
                    proof {
                        assert(false);
                    }
                    return Err(e);
                },
            };
            let biased = match stepped.combine(&self.biases[i], &self.arith.plus) {
                Ok(m) => m,
                Err(e) => {
                    proof {
                        assert(false);
                    }
                    return Err(e);
                },
            };
            let next = biased.map(&self.activation.function);
            let ghost oldc = self.cache@;
            self.cache.push(next);
            proof {
                assert forall|sa: spec_fn(T, T) -> T, sm: spec_fn(T, T) -> T, sf: spec_fn(T) -> T|
                    fn2_models(self.arith.plus, sa) && fn2_models(self.arith.times, sm)
                        && fn1_models(self.activation.function, sf) implies views_of(self.cache@)
                    == #[trigger] cache_of(ws, bs, x0, prev_n + 1, sa, sm, sf, self.arith.zero) by {
                    let prev = cache_of(ws, bs, x0, prev_n, sa, sm, sf, self.arith.zero);
                    assert(prev_n == i as nat);
                    assert(views_of(oldc) == prev);
                    assert(prev.last() == oldc[i as int]@);
                    assert(ws[i as int] == self.weights@[i as int]@);
                    assert(bs[i as int] == self.biases@[i as int]@);
                    assert(stepped@ == product_of(
                        self.weights@[i as int]@,
                        oldc[i as int]@,
                        1,
                        sa,
                        sm,
                        self.arith.zero,
                    ));
                    assert(biased@ == zip_of(stepped@, self.biases@[i as int]@, sa));
                    assert(next@ == map_of(biased@, sf));
                    assert(next@ == layer_step_of(
                        ws[i as int],
                        bs[i as int],
                        prev.last(),
                        sa,
                        sm,
                        sf,
                        self.arith.zero,
                    ));
                    assert(self.cache@ == oldc.push(next));
                    assert(views_of(self.cache@) =~= prev.push(next@));
                }
            }
            i += 1;
            proof {
                assert(i as nat == prev_n + 1);
            }
        }
        let last = self.cache.len() - 1;
        let out = self.cache[last].column_entries();
        Ok(out)
    }

    /// Runs one backpropagation step against the cache left by the most
    /// recent forward pass, whose output values are passed as `outputs`.
    /// Fails with `ShapeMismatch` exactly when the target count differs
    /// from the output width `layers[last]`; otherwise updates every
    /// weight and bias matrix in place, from the last transition down to
    /// the first. Whenever the caller's closures implement mathematical
    /// functions, the new parameters equal the specification-level
    /// backward recurrence [`bp_result_of`].
    pub fn back_propagate(&mut self, outputs: Vec<T>, targets: Vec<T>) -> (r: Result<(), Error>)
        requires
            old(self).wf(),
            old(self).ops_total(),
            old(self).cache_shaped(),
            outputs@.len() == old(self).layers@[old(self).layers@.len() - 1],
        ensures
            final(self).wf(),
            final(self).ops_total(),
            final(self).cache_shaped(),
            final(self).layers@ == old(self).layers@,
            final(self).cache@ == old(self).cache@,
            final(self).learning_rate == old(self).learning_rate,
            final(self).activation == old(self).activation,
            final(self).arith == old(self).arith,
            r is Ok <==> targets@.len() == old(self).layers@[old(self).layers@.len() - 1],
            targets@.len() != old(self).layers@[old(self).layers@.len() - 1] ==> r
                == Err::<(), Error>(
                shape_err(
                    old(self).layers@[old(self).layers@.len() - 1] as int,
                    targets@.len() as int,
                ),
            ) && *final(self) == *old(self),
            r is Ok ==> forall|
                sa: spec_fn(T, T) -> T,
                ss: spec_fn(T, T) -> T,
                sm: spec_fn(T, T) -> T,
                sd: spec_fn(T) -> T,
            |
                fn2_models(old(self).arith.plus, sa) && fn2_models(old(self).arith.minus, ss)
                    && fn2_models(old(self).arith.times, sm) && fn1_models(
                    old(self).activation.derivative,
                    sd,
                ) ==> views_of(final(self).weights@) == (#[trigger] bp_result_of(
                    old(self).layers@,
                    views_of(old(self).weights@),
                    views_of(old(self).biases@),
                    views_of(old(self).cache@),
                    targets@,
                    outputs@,
                    old(self).learning_rate,
                    sa,
                    ss,
                    sm,
                    sd,
                    old(self).arith.zero,
                )).0 && views_of(final(self).biases@) == bp_result_of(
                    old(self).layers@,
                    views_of(old(self).weights@),
                    views_of(old(self).biases@),
                    views_of(old(self).cache@),
                    targets@,
                    outputs@,
                    old(self).learning_rate,
                    sa,
                    ss,
                    sm,
                    sd,
                    old(self).arith.zero,
                ).1,
    {
        let n = self.layers.len();
        let last_size = self.layers[n - 1];
        if targets.len() != last_size {
            return Err(Error::ShapeMismatch { expected: last_size, actual: targets.len() });
        }
        let ghost tseq = targets@;
        let ghost oseq = outputs@;
        let ghost w0 = views_of(self.weights@);
        let ghost b0 = views_of(self.biases@);
        let ghost cv = views_of(self.cache@);
        let ghost lr = self.learning_rate;
        let ghost zero = self.arith.zero;
        let targets_col = Matrix::column(targets);
        let outputs_col = Matrix::column(outputs);
        let mut errors = match targets_col.combine(&outputs_col, &self.arith.minus) {
            Ok(m) => m,
            Err(e) => {
                proof {
                    assert(false);
                }
                return Err(e);
            },
        };
        let mut gradients = self.cache[n - 1].map(&self.activation.derivative);
        proof {
            assert(cv.last() == self.cache@[n - 1]@);
        }
        let mut t: usize = n - 1;
        while t > 0
            invariant
                self.wf(),
                self.ops_total(),
                self.cache_shaped(),
                n == self.layers@.len(),
                n >= 1,
                t <= n - 1,
                self.layers@ == old(self).layers@,
                self.cache@ == old(self).cache@,
                self.learning_rate == old(self).learning_rate,
                self.activation == old(self).activation,
                self.arith == old(self).arith,
                cv == views_of(self.cache@),
                lr == self.learning_rate,
                zero == self.arith.zero,
                errors.wf(),
                errors.rows == self.layers@[t as int],
                errors.cols == 1,
                gradients.wf(),
                gradients.rows == self.layers@[t as int],
                gradients.cols == 1,
                forall|
                    sa: spec_fn(T, T) -> T,
                    ss: spec_fn(T, T) -> T,
                    sm: spec_fn(T, T) -> T,
                    sd: spec_fn(T) -> T,
                |
                    fn2_models(self.arith.plus, sa) && fn2_models(self.arith.minus, ss)
                        && fn2_models(self.arith.times, sm) && fn1_models(
                        self.activation.derivative,
                        sd,
                    ) ==> bp_of(
                        self.layers@,
                        views_of(self.weights@),
                        views_of(self.biases@),
                        cv,
                        errors@,
                        gradients@,
                        t as int - 1,
                        lr,
                        sa,
                        sm,
                        sd,
                        zero,
                    ) == #[trigger] bp_result_of(
                        self.layers@,
                        w0,
                        b0,
                        cv,
                        tseq,
                        oseq,
                        lr,
                        sa,
                        ss,
                        sm,
                        sd,
                        zero,
                    ),
            decreases t,
        {
            let tr = t - 1;
            let ghost pre_w = views_of(self.weights@);
            let ghost pre_b = views_of(self.biases@);
            let ghost pre_e = errors@;
            let ghost pre_g = gradients@;
            let hadamard = match gradients.combine(&errors, &self.arith.times) {
                Ok(m) => m,
                Err(e) => {
                    proof {
                        assert(false);
                    }
                    return Err(e);
                },
            };
            let g1 = hadamard.scale(self.learning_rate, &self.arith.times);
            let wt = self.weights[tr].transpose();
            let new_errors = match wt.multiply(
                &errors,
                &self.arith.plus,
                &self.arith.times,
                self.arith.zero,
            ) {
                Ok(m) => m,
                Err(e) => {
                    proof {
                        assert(false);
                    }
                    return Err(e);
                },
            };
            let ct = self.cache[tr].transpose();
            let dw = match g1.multiply(&ct, &self.arith.plus, &self.arith.times, self.arith.zero) {
                Ok(m) => m,
                Err(e) => {
                    proof {
                        assert(false);
                    }
                    return Err(e);
                },
            };
            let new_w = match self.weights[tr].combine(&dw, &self.arith.plus) {
                Ok(m) => m,
                Err(e) => {
                    proof {
                        assert(false);
                    }
                    return Err(e);
                },
            };
            let new_b = match self.biases[tr].combine(&g1, &self.arith.plus) {
                Ok(m) => m,
                Err(e) => {
                    proof {
                        assert(false);
                    }
                    return Err(e);
                },
            };
            self.weights.set(tr, new_w);
            self.biases.set(tr, new_b);
            let new_gradients = self.cache[tr].map(&self.activation.derivative);
            proof {
                assert forall|
                    sa: spec_fn(T, T) -> T,
                    ss: spec_fn(T, T) -> T,
                    sm: spec_fn(T, T) -> T,
                    sd: spec_fn(T) -> T,
                |
                    fn2_models(self.arith.plus, sa) && fn2_models(self.arith.minus, ss)
                        && fn2_models(self.arith.times, sm) && fn1_models(
                        self.activation.derivative,
                        sd,
                    ) implies bp_of(
                    self.layers@,
                    views_of(self.weights@),
                    views_of(self.biases@),
                    cv,
                    new_errors@,
                    new_gradients@,
                    tr as int - 1,
                    lr,
                    sa,
                    sm,
                    sd,
                    zero,
                ) == #[trigger] bp_result_of(
                    self.layers@,
                    w0,
                    b0,
                    cv,
                    tseq,
                    oseq,
                    lr,
                    sa,
                    ss,
                    sm,
                    sd,
                    zero,
                ) by {
                    assert(bp_of(
                        self.layers@,
                        pre_w,
                        pre_b,
                        cv,
                        pre_e,
                        pre_g,
                        tr as int,
                        lr,
                        sa,
                        sm,
                        sd,
                        zero,
                    ) == bp_result_of(
                        self.layers@,
                        w0,
                        b0,
                        cv,
                        tseq,
                        oseq,
                        lr,
                        sa,
                        ss,
                        sm,
                        sd,
                        zero,
                    ));
                    assert(hadamard@ == zip_of(pre_g, pre_e, sm));
                    assert(g1@ == scale_of(hadamard@, lr, sm));
                    assert(wt@ == transpose_of(pre_w[tr as int], self.layers@[tr as int] as nat));
                    assert(new_errors@ == product_of(wt@, pre_e, 1, sa, sm, zero));
                    assert(ct@ == transpose_of(cv[tr as int], 1));
                    assert(dw@ == product_of(g1@, ct@, self.layers@[tr as int] as nat, sa, sm, zero));
                    assert(new_w@ == zip_of(pre_w[tr as int], dw@, sa));
                    assert(new_b@ == zip_of(pre_b[tr as int], g1@, sa));
                    assert(views_of(self.weights@) =~= pre_w.update(tr as int, new_w@));
                    assert(views_of(self.biases@) =~= pre_b.update(tr as int, new_b@));
                    assert(new_gradients@ == map_of(cv[tr as int], sd));
                }
            }
            errors = new_errors;
            gradients = new_gradients;
            t = tr;
        }
        Ok(())
    }

    /// Trains the network: for each epoch, for each sample in order, runs
    /// a forward pass and immediately backpropagates against the sample's
    /// targets. With at least one epoch and one sample, succeeds exactly
    /// when every sample's input and target lengths fit the topology;
    /// computation stops at the first violation. Whenever the caller's
    /// closures implement mathematical functions, the parameters left by
    /// a successful run equal the specification-level training fold
    /// [`train_of`].
    pub fn train(&mut self, inputs: Vec<Vec<T>>, targets: Vec<Vec<T>>, epochs: u16) -> (r: Result<
        (),
        Error,
    >)
        requires
            old(self).wf(),
            old(self).ops_total(),
            inputs@.len() == targets@.len(),
        ensures
            final(self).wf(),
            final(self).ops_total(),
            final(self).layers@ == old(self).layers@,
            final(self).learning_rate == old(self).learning_rate,
            final(self).activation == old(self).activation,
            final(self).arith == old(self).arith,
            epochs == 0 || inputs@.len() == 0 ==> r is Ok && *final(self) == *old(self),
            epochs > 0 && inputs@.len() > 0 ==> (r is Ok <==> Self::samples_ok(
                old(self).layers@,
                inputs@,
                targets@,
            )),
            r matches Err(e) ==> e is ShapeMismatch,
            r is Ok ==> forall|
                sa: spec_fn(T, T) -> T,
                ss: spec_fn(T, T) -> T,
                sm: spec_fn(T, T) -> T,
                sf: spec_fn(T) -> T,
                sd: spec_fn(T) -> T,
            |
                fn2_models(old(self).arith.plus, sa) && fn2_models(old(self).arith.minus, ss)
                    && fn2_models(old(self).arith.times, sm) && fn1_models(
                    old(self).activation.function,
                    sf,
                ) && fn1_models(old(self).activation.derivative, sd) ==> views_of(
                    final(self).weights@,
                ) == (#[trigger] train_of(
                    old(self).layers@,
                    views_of(old(self).weights@),
                    views_of(old(self).biases@),
                    inputs@,
                    targets@,
                    epochs as nat,
                    old(self).learning_rate,
                    sa,
                    ss,
                    sm,
                    sf,
                    sd,
                    old(self).arith.zero,
                )).0 && views_of(final(self).biases@) == train_of(
                    old(self).layers@,
                    views_of(old(self).weights@),
                    views_of(old(self).biases@),
                    inputs@,
                    targets@,
                    epochs as nat,
                    old(self).learning_rate,
                    sa,
                    ss,
                    sm,
                    sf,
                    sd,
                    old(self).arith.zero,
                ).1,
    {
        let ghost lay = self.layers@;
        let ghost w0 = views_of(self.weights@);
        let ghost b0 = views_of(self.biases@);
        let ghost lr = self.learning_rate;
        let ghost zero = self.arith.zero;
        let ghost etotal: nat = epochs as nat;
        let n_samples = inputs.len();
        let mut e: u16 = 0;
        while e < epochs
            invariant
                self.wf(),
                self.ops_total(),
                self.layers@ == old(self).layers@,
                self.learning_rate == old(self).learning_rate,
                self.activation == old(self).activation,
                self.arith == old(self).arith,
                lay == self.layers@,
                w0 == views_of(old(self).weights@),
                b0 == views_of(old(self).biases@),
                lr == self.learning_rate,
                zero == self.arith.zero,
                etotal == epochs as nat,
                n_samples == inputs@.len(),
                inputs@.len() == targets@.len(),
                e <= epochs,
                e > 0 ==> Self::samples_ok(self.layers@, inputs@, targets@),
                e == 0 ==> *self == *old(self),
                n_samples == 0 ==> *self == *old(self),
                forall|
                    sa: spec_fn(T, T) -> T,
                    ss: spec_fn(T, T) -> T,
                    sm: spec_fn(T, T) -> T,
                    sf: spec_fn(T) -> T,
                    sd: spec_fn(T) -> T,
                |
                    fn2_models(self.arith.plus, sa) && fn2_models(self.arith.minus, ss)
                        && fn2_models(self.arith.times, sm) && fn1_models(
                        self.activation.function,
                        sf,
                    ) && fn1_models(self.activation.derivative, sd) ==> (#[trigger] train_of(
                        lay,
                        w0,
                        b0,
                        inputs@,
                        targets@,
                        etotal,
                        lr,
                        sa,
                        ss,
                        sm,
                        sf,
                        sd,
                        zero,
                    )) == train_of(
                        lay,
                        views_of(self.weights@),
                        views_of(self.biases@),
                        inputs@,
                        targets@,
                        (epochs - e) as nat,
                        lr,
                        sa,
                        ss,
                        sm,
                        sf,
                        sd,
                        zero,
                    ),
            decreases epochs - e,
        {
            let ghost rem: nat = (epochs - e) as nat;
            let ghost rem1: nat = (rem - 1) as nat;
            proof {
                assert forall|
                    sa: spec_fn(T, T) -> T,
                    ss: spec_fn(T, T) -> T,
                    sm: spec_fn(T, T) -> T,
                    sf: spec_fn(T) -> T,
                    sd: spec_fn(T) -> T,
                |
                    fn2_models(self.arith.plus, sa) && fn2_models(self.arith.minus, ss)
                        && fn2_models(self.arith.times, sm) && fn1_models(
                        self.activation.function,
                        sf,
                    ) && fn1_models(self.activation.derivative, sd) implies (#[trigger] train_of(
                    lay,
                    w0,
                    b0,
                    inputs@,
                    targets@,
                    etotal,
                    lr,
                    sa,
                    ss,
                    sm,
                    sf,
                    sd,
                    zero,
                )) == train_of(
                    lay,
                    epoch_of(
                        lay,
                        views_of(self.weights@),
                        views_of(self.biases@),
                        inputs@,
                        targets@,
                        0,
                        lr,
                        sa,
                        ss,
                        sm,
                        sf,
                        sd,
                        zero,
                    ).0,
                    epoch_of(
                        lay,
                        views_of(self.weights@),
                        views_of(self.biases@),
                        inputs@,
                        targets@,
                        0,
                        lr,
                        sa,
                        ss,
                        sm,
                        sf,
                        sd,
                        zero,
                    ).1,
                    inputs@,
                    targets@,
                    rem1,
                    lr,
                    sa,
                    ss,
                    sm,
                    sf,
                    sd,
                    zero,
                ) by {
                    assert(train_of(
                        lay,
                        views_of(self.weights@),
                        views_of(self.biases@),
                        inputs@,
                        targets@,
                        rem,
                        lr,
                        sa,
                        ss,
                        sm,
                        sf,
                        sd,
                        zero,
                    ) == train_of(
                        lay,
                        epoch_of(
                            lay,
                            views_of(self.weights@),
                            views_of(self.biases@),
                            inputs@,
                            targets@,
                            0,
                            lr,
                            sa,
                            ss,
                            sm,
                            sf,
                            sd,
                            zero,
                        ).0,
                        epoch_of(
                            lay,
                            views_of(self.weights@),
                            views_of(self.biases@),
                            inputs@,
                            targets@,
                            0,
                            lr,
                            sa,
                            ss,
                            sm,
                            sf,
                            sd,
                            zero,
                        ).1,
                        inputs@,
                        targets@,
                        rem1,
                        lr,
                        sa,
                        ss,
                        sm,
                        sf,
                        sd,
                        zero,
                    ));
                }
            }
            let mut j: usize = 0;
            while j < n_samples
                invariant
                    self.wf(),
                    self.ops_total(),
                    self.layers@ == old(self).layers@,
                    self.learning_rate == old(self).learning_rate,
                    self.activation == old(self).activation,
                    self.arith == old(self).arith,
                    lay == self.layers@,
                    lr == self.learning_rate,
                    zero == self.arith.zero,
                    etotal == epochs as nat,
                    n_samples == inputs@.len(),
                    inputs@.len() == targets@.len(),
                    j <= n_samples,
                    e < epochs,
                    n_samples == 0 ==> *self == *old(self),
                    e > 0 ==> Self::samples_ok(self.layers@, inputs@, targets@),
                    forall|q: int|
                        0 <= q < j ==> (#[trigger] inputs@[q])@.len() == self.layers@[0],
                    forall|q: int|
                        0 <= q < j ==> (#[trigger] targets@[q])@.len()
                            == self.layers@[self.layers@.len() - 1],
                    forall|
                        sa: spec_fn(T, T) -> T,
                        ss: spec_fn(T, T) -> T,
                        sm: spec_fn(T, T) -> T,
                        sf: spec_fn(T) -> T,
                        sd: spec_fn(T) -> T,
                    |
                        fn2_models(self.arith.plus, sa) && fn2_models(self.arith.minus, ss)
                            && fn2_models(self.arith.times, sm) && fn1_models(
                            self.activation.function,
                            sf,
                        ) && fn1_models(self.activation.derivative, sd) ==> (#[trigger] train_of(
                            lay,
                            w0,
                            b0,
                            inputs@,
                            targets@,
                            etotal,
                            lr,
                            sa,
                            ss,
                            sm,
                            sf,
                            sd,
                            zero,
                        )) == train_of(
                            lay,
                            epoch_of(
                                lay,
                                views_of(self.weights@),
                                views_of(self.biases@),
                                inputs@,
                                targets@,
                                j as int,
                                lr,
                                sa,
                                ss,
                                sm,
                                sf,
                                sd,
                                zero,
                            ).0,
                            epoch_of(
                                lay,
                                views_of(self.weights@),
                                views_of(self.biases@),
                                inputs@,
                                targets@,
                                j as int,
                                lr,
                                sa,
                                ss,
                                sm,
                                sf,
                                sd,
                                zero,
                            ).1,
                            inputs@,
                            targets@,
                            rem1,
                            lr,
                            sa,
                            ss,
                            sm,
                            sf,
                            sd,
                            zero,
                        ),
                decreases n_samples - j,
            {
                let ghost jn: int = j as int;
                let ghost pre_w = views_of(self.weights@);
                let ghost pre_b = views_of(self.biases@);
                let sample = copy_row(&inputs[j]);
                let ghost sv = sample@;
                let out = match self.feed_forward(sample) {
                    Ok(o) => o,
                    Err(err) => {
                        return Err(err);
                    },
                };
                let ghost outv = out@;
                let target = copy_row(&targets[j]);
                let ghost tv = target@;
                match self.back_propagate(out, target) {
                    Ok(u) => u,
                    Err(err) => {
                        return Err(err);
                    },
                };
                proof {
                    assert forall|
                        sa: spec_fn(T, T) -> T,
                        ss: spec_fn(T, T) -> T,
                        sm: spec_fn(T, T) -> T,
                        sf: spec_fn(T) -> T,
                        sd: spec_fn(T) -> T,
                    |
                        fn2_models(self.arith.plus, sa) && fn2_models(self.arith.minus, ss)
                            && fn2_models(self.arith.times, sm) && fn1_models(
                            self.activation.function,
                            sf,
                        ) && fn1_models(self.activation.derivative, sd) implies (
                    #[trigger] train_of(
                        lay,
                        w0,
                        b0,
                        inputs@,
                        targets@,
                        etotal,
                        lr,
                        sa,
                        ss,
                        sm,
                        sf,
                        sd,
                        zero,
                    )) == train_of(
                        lay,
                        epoch_of(
                            lay,
                            views_of(self.weights@),
                            views_of(self.biases@),
                            inputs@,
                            targets@,
                            jn + 1,
                            lr,
                            sa,
                            ss,
                            sm,
                            sf,
                            sd,
                            zero,
                        ).0,
                        epoch_of(
                            lay,
                            views_of(self.weights@),
                            views_of(self.biases@),
                            inputs@,
                            targets@,
                            jn + 1,
                            lr,
                            sa,
                            ss,
                            sm,
                            sf,
                            sd,
                            zero,
                        ).1,
                        inputs@,
                        targets@,
                        rem1,
                        lr,
                        sa,
                        ss,
                        sm,
                        sf,
                        sd,
                        zero,
                    ) by {
                        let cache_spec = cache_of(
                            pre_w,
                            pre_b,
                            col_seq_of(sv),
                            (lay.len() - 1) as nat,
                            sa,
                            sm,
                            sf,
                            zero,
                        );
                        assert(views_of(self.cache@) == cache_spec);
                        assert(views_of(self.cache@).last() == self.cache@.last()@);
                        assert(outv =~= flat_of(cache_spec.last()));
                        assert(views_of(self.weights@) == bp_result_of(
                            lay,
                            pre_w,
                            pre_b,
                            cache_spec,
                            tv,
                            outv,
                            lr,
                            sa,
                            ss,
                            sm,
                            sd,
                            zero,
                        ).0);
                        assert(views_of(self.biases@) == bp_result_of(
                            lay,
                            pre_w,
                            pre_b,
                            cache_spec,
                            tv,
                            outv,
                            lr,
                            sa,
                            ss,
                            sm,
                            sd,
                            zero,
                        ).1);
                        assert(sv == inputs@[jn]@);
                        assert(tv == targets@[jn]@);
                        assert(step_of(lay, pre_w, pre_b, sv, tv, lr, sa, ss, sm, sf, sd, zero)
                            == (views_of(self.weights@), views_of(self.biases@)));
                        assert(epoch_of(
                            lay,
                            pre_w,
                            pre_b,
                            inputs@,
                            targets@,
                            jn,
                            lr,
                            sa,
                            ss,
                            sm,
                            sf,
                            sd,
                            zero,
                        ) == epoch_of(
                            lay,
                            views_of(self.weights@),
                            views_of(self.biases@),
                            inputs@,
                            targets@,
                            jn + 1,
                            lr,
                            sa,
                            ss,
                            sm,
                            sf,
                            sd,
                            zero,
                        ));
                    }
                }
                j += 1;
                proof {
                    assert(j as int == jn + 1);
                }
            }
            proof {
                assert forall|q: int| 0 <= q < inputs@.len() implies (#[trigger] inputs@[q])@.len()
                    == self.layers@[0] by {}
                assert forall|q: int|
                    0 <= q < targets@.len() implies (#[trigger] targets@[q])@.len()
                    == self.layers@[self.layers@.len() - 1] by {}
                assert(Self::samples_ok(self.layers@, inputs@, targets@));
                assert forall|
                    sa: spec_fn(T, T) -> T,
                    ss: spec_fn(T, T) -> T,
                    sm: spec_fn(T, T) -> T,
                    sf: spec_fn(T) -> T,
                    sd: spec_fn(T) -> T,
                |
                    fn2_models(self.arith.plus, sa) && fn2_models(self.arith.minus, ss)
                        && fn2_models(self.arith.times, sm) && fn1_models(
                        self.activation.function,
                        sf,
                    ) && fn1_models(self.activation.derivative, sd) implies (#[trigger] train_of(
                    lay,
                    w0,
                    b0,
                    inputs@,
                    targets@,
                    etotal,
                    lr,
                    sa,
                    ss,
                    sm,
                    sf,
                    sd,
                    zero,
                )) == train_of(
                    lay,
                    views_of(self.weights@),
                    views_of(self.biases@),
                    inputs@,
                    targets@,
                    rem1,
                    lr,
                    sa,
                    ss,
                    sm,
                    sf,
                    sd,
                    zero,
                ) by {
                    assert(epoch_of(
                        lay,
                        views_of(self.weights@),
                        views_of(self.biases@),
                        inputs@,
                        targets@,
                        n_samples as int,
                        lr,
                        sa,
                        ss,
                        sm,
                        sf,
                        sd,
                        zero,
                    ) == (views_of(self.weights@), views_of(self.biases@)));
                }
            }
            e += 1;
            proof {
                assert((epochs - e) as nat == rem1);
            }
        }
        Ok(())
    }

    /// Every sample's input length is the input width and every sample's
    /// target length the output width.
    pub open spec fn samples_ok(
        layers: Seq<usize>,
        inputs: Seq<Vec<T>>,
        targets: Seq<Vec<T>>,
    ) -> bool {
        &&& forall|j: int| 0 <= j < inputs.len() ==> (#[trigger] inputs[j])@.len() == layers[0]
        &&& forall|j: int|
            0 <= j < targets.len() ==> (#[trigger] targets[j])@.len() == layers[layers.len() - 1]
    }

    /// Captures the weight and bias matrices as the plain nested record
    /// that is persisted: one row-major grid per layer transition, weights
    /// first, biases second, in transition order.
    pub fn save(&self) -> (p: SavedParams<T>)
        ensures
            grids_of(p.weights@) == views_of(self.weights@),
            grids_of(p.biases@) == views_of(self.biases@),
    {
        let mut ws: Vec<Vec<Vec<T>>> = Vec::new();
        let mut i: usize = 0;
        while i < self.weights.len()
            invariant
                i <= self.weights@.len(),
                ws@.len() == i,
                forall|p: int|
                    0 <= p < i ==> grids_of(ws@)[p] == #[trigger] views_of(self.weights@)[p],
            decreases self.weights@.len() - i,
        {
            let g = copy_grid(&self.weights[i].data);
            ws.push(g);
            proof {
                assert(grids_of(ws@)[i as int] =~= views_of(self.weights@)[i as int]);
            }
            i += 1;
        }
        let mut bs: Vec<Vec<Vec<T>>> = Vec::new();
        let mut k: usize = 0;
        while k < self.biases.len()
            invariant
                k <= self.biases@.len(),
                bs@.len() == k,
                forall|p: int|
                    0 <= p < k ==> grids_of(bs@)[p] == #[trigger] views_of(self.biases@)[p],
            decreases self.biases@.len() - k,
        {
            let g = copy_grid(&self.biases[k].data);
            bs.push(g);
            proof {
                assert(grids_of(bs@)[k as int] =~= views_of(self.biases@)[k as int]);
            }
            k += 1;
        }
        let p = SavedParams { weights: ws, biases: bs };
        proof {
            assert(grids_of(p.weights@) =~= views_of(self.weights@));
            assert(grids_of(p.biases@) =~= views_of(self.biases@));
        }
        p
    }

    /// Replaces the weight and bias matrices wholesale with the contents
    /// of a persisted record. Fails with `ParseError` exactly when the
    /// record does not hold one grid per layer transition in each field;
    /// fails with `ShapeMismatch` when it does but some grid is not a
    /// non-empty rectangle of the shape the topology demands. On failure
    /// the network is left untouched.
    pub fn load(&mut self, params: &SavedParams<T>) -> (r: Result<(), Error>)
        requires
            old(self).wf(),
        ensures
            final(self).wf(),
            final(self).layers@ == old(self).layers@,
            final(self).cache@ == old(self).cache@,
            final(self).learning_rate == old(self).learning_rate,
            final(self).activation == old(self).activation,
            final(self).arith == old(self).arith,
            r is Ok <==> load_ok(
                old(self).layers@,
                grids_of(params.weights@),
                grids_of(params.biases@),
            ),
            r is Ok ==> views_of(final(self).weights@) == grids_of(params.weights@) && views_of(
                final(self).biases@,
            ) == grids_of(params.biases@),
            r is Err ==> *final(self) == *old(self),
            (params.weights@.len() != old(self).layers@.len() - 1 || params.biases@.len() != old(
                self,
            ).layers@.len() - 1) <==> r == Err::<(), Error>(Error::ParseError),
            params.weights@.len() == old(self).layers@.len() - 1 && params.biases@.len() == old(
                self,
            ).layers@.len() - 1 ==> (r matches Err(err) ==> err is ShapeMismatch),
    {
        let trans = self.layers.len() - 1;
        if params.weights.len() != trans || params.biases.len() != trans {
            return Err(Error::ParseError);
        }
        let mut new_weights: Vec<Matrix<T>> = Vec::new();
        let mut i: usize = 0;
        while i < trans
            invariant
                self.wf(),
                *self == *old(self),
                trans == self.layers@.len() - 1,
                params.weights@.len() == trans,
                params.biases@.len() == trans,
                i <= trans,
                new_weights@.len() == i,
                forall|p: int|
                    0 <= p < i ==> {
                        &&& (#[trigger] new_weights@[p]).wf()
                        &&& new_weights@[p].rows == self.layers@[p + 1]
                        &&& new_weights@[p].cols == self.layers@[p]
                        &&& new_weights@[p]@ == grids_of(params.weights@)[p]
                    },
                forall|p: int|
                    0 <= p < i ==> grid_ok(
                        #[trigger] grids_of(params.weights@)[p],
                        self.layers@[p + 1] as int,
                        self.layers@[p] as int,
                    ),
            decreases trans - i,
        {
            let g = copy_grid(&params.weights[i]);
            let ghost dv = g@;
            let ghost gv = grids_of(params.weights@)[i as int];
            proof {
                assert(dv.map_values(|row: Vec<T>| row@) =~= gv);
            }
            let m = match Matrix::from_rows(g) {
                Ok(m) => m,
                Err(err) => {
                    proof {
                        let rows = self.layers@[i + 1] as int;
                        let cols = self.layers@[i as int] as int;
                        if grid_ok(gv, rows, cols) {
                            assert(dv.len() == gv.len());
                            assert(dv.len() > 0);
                            assert forall|ii: int| 0 <= ii < dv.len() implies (
                            #[trigger] dv[ii])@.len() == dv[0]@.len() by {
                                assert(gv[ii] == dv[ii]@);
                                assert(gv[0] == dv[0]@);
                                assert(gv[ii].len() == cols);
                                assert(gv[0].len() == cols);
                            }
                            assert(false);
                        }
                    }
                    return Err(err);
                },
            };
            if m.rows != self.layers[i + 1] {
                return Err(Error::ShapeMismatch { expected: self.layers[i + 1], actual: m.rows });
            }
            if m.cols != self.layers[i] {
                proof {
                    let cols = self.layers@[i as int] as int;
                    if grid_ok(gv, self.layers@[i + 1] as int, cols) {
                        assert(gv[0].len() == cols);
                        assert(gv[0] == dv[0]@);
                        assert(false);
                    }
                }
                return Err(Error::ShapeMismatch { expected: self.layers[i], actual: m.cols });
            }
            proof {
                assert(m@ =~= gv);
            }
            new_weights.push(m);
            i += 1;
        }
        let mut new_biases: Vec<Matrix<T>> = Vec::new();
        let mut k: usize = 0;
        while k < trans
            invariant
                self.wf(),
                *self == *old(self),
                trans == self.layers@.len() - 1,
                params.weights@.len() == trans,
                params.biases@.len() == trans,
                k <= trans,
                new_biases@.len() == k,
                new_weights@.len() == trans,
                forall|p: int|
                    0 <= p < trans ==> {
                        &&& (#[trigger] new_weights@[p]).wf()
                        &&& new_weights@[p].rows == self.layers@[p + 1]
                        &&& new_weights@[p].cols == self.layers@[p]
                        &&& new_weights@[p]@ == grids_of(params.weights@)[p]
                    },
                forall|p: int|
                    0 <= p < trans ==> grid_ok(
                        #[trigger] grids_of(params.weights@)[p],
                        self.layers@[p + 1] as int,
                        self.layers@[p] as int,
                    ),
                forall|p: int|
                    0 <= p < k ==> {
                        &&& (#[trigger] new_biases@[p]).wf()
                        &&& new_biases@[p].rows == self.layers@[p + 1]
                        &&& new_biases@[p].cols == 1
                        &&& new_biases@[p]@ == grids_of(params.biases@)[p]
                    },
                forall|p: int|
                    0 <= p < k ==> grid_ok(
                        #[trigger] grids_of(params.biases@)[p],
                        self.layers@[p + 1] as int,
                        1,
                    ),
            decreases trans - k,
        {
            let g = copy_grid(&params.biases[k]);
            let ghost dv = g@;
            let ghost gv = grids_of(params.biases@)[k as int];
            proof {
                assert(dv.map_values(|row: Vec<T>| row@) =~= gv);
            }
            let m = match Matrix::from_rows(g) {
                Ok(m) => m,
                Err(err) => {
                    proof {
                        let rows = self.layers@[k + 1] as int;
                        if grid_ok(gv, rows, 1) {
                            assert(dv.len() == gv.len());
                            assert(dv.len() > 0);
                            assert forall|ii: int| 0 <= ii < dv.len() implies (
                            #[trigger] dv[ii])@.len() == dv[0]@.len() by {
                                assert(gv[ii] == dv[ii]@);
                                assert(gv[0] == dv[0]@);
                                assert(gv[ii].len() == 1);
                                assert(gv[0].len() == 1);
                            }
                            assert(false);
                        }
                    }
                    return Err(err);
                },
            };
            if m.rows != self.layers[k + 1] {
                return Err(Error::ShapeMismatch { expected: self.layers[k + 1], actual: m.rows });
            }
            if m.cols != 1 {
                proof {
                    if grid_ok(gv, self.layers@[k + 1] as int, 1) {
                        assert(gv[0].len() == 1);
                        assert(gv[0] == dv[0]@);
                        assert(false);
                    }
                }
                return Err(Error::ShapeMismatch { expected: 1, actual: m.cols });
            }
            proof {
                assert(m@ =~= gv);
            }
            new_biases.push(m);
            k += 1;
        }
        self.weights = new_weights;
        self.biases = new_biases;
        proof {
            assert(views_of(self.weights@) =~= grids_of(params.weights@));
            assert(views_of(self.biases@) =~= grids_of(params.biases@));
        }
        Ok(())
    }
}

/// The persistence round trip is lossless: the record a well-formed
/// network with positive layer sizes saves always satisfies `load_ok` for
/// its own topology, so by `load`'s contract, loading it into any network
/// of the same topology succeeds and restores exactly the saved weight
/// and bias entries.
pub proof fn lemma_save_load_round_trip<
    T: Copy,
    F: Fn(T) -> T,
    D: Fn(T) -> T,
    A: Fn(T, T) -> T,
    S: Fn(T, T) -> T,
    M: Fn(T, T) -> T,
>(net: Network<T, F, D, A, S, M>)
    requires
        net.wf(),
        forall|i: int| 0 <= i < net.layers@.len() ==> #[trigger] net.layers@[i] > 0,
    ensures
        load_ok(net.layers@, views_of(net.weights@), views_of(net.biases@)),
{
    let ws = views_of(net.weights@);
    let bs = views_of(net.biases@);
    assert forall|i: int| 0 <= i < ws.len() implies grid_ok(
        #[trigger] ws[i],
        net.layers@[i + 1] as int,
        net.layers@[i] as int,
    ) by {
        assert(net.weights@[i].wf());
        assert(ws[i] == net.weights@[i]@);
    }
    assert forall|i: int| 0 <= i < bs.len() implies grid_ok(
        #[trigger] bs[i],
        net.layers@[i + 1] as int,
        1,
    ) by {
        assert(net.biases@[i].wf());
        assert(bs[i] == net.biases@[i]@);
    }
}

/// The inner product of an all-zero row with any column is `zero`, for a
/// scalar arithmetic in which `zero` annihilates multiplication on the
/// left and is additively idempotent.
proof fn lemma_dot_zero_row<T>(
    r: Seq<T>,
    c: Seq<T>,
    sa: spec_fn(T, T) -> T,
    sm: spec_fn(T, T) -> T,
    zero: T,
)
    requires
        forall|k: int| 0 <= k < r.len() ==> #[trigger] r[k] == zero,
        forall|x: T| #[trigger] sm(zero, x) == zero,
        sa(zero, zero) == zero,
    ensures
        dot_of(r, c, sa, sm, zero) == zero,
    decreases r.len(),
{
    if r.len() > 0 {
        lemma_dot_zero_row(r.drop_last(), c.drop_last(), sa, sm, zero);
    }
}

/// With an all-zero weight matrix and bias on the final transition, the
/// forward pass leaves an all-zero output column whatever the input,
/// provided the scalar operations send `sm(zero, x)` to `zero`,
/// `sa(zero, zero)` to `zero` and the activation fixes `zero` (an
/// identity activation does).
pub proof fn lemma_zero_network_output<T>(
    ws: Seq<Seq<Seq<T>>>,
    bs: Seq<Seq<Seq<T>>>,
    x0: Seq<Seq<T>>,
    n: nat,
    sa: spec_fn(T, T) -> T,
    sm: spec_fn(T, T) -> T,
    sf: spec_fn(T) -> T,
    zero: T,
)
    requires
        1 <= n,
        n <= ws.len(),
        n <= bs.len(),
        forall|p: int, q: int|
            0 <= p < ws[n - 1].len() && 0 <= q < ws[n - 1][p].len()
                ==> #[trigger] ws[n - 1][p][q] == zero,
        bs[n - 1].len() == ws[n - 1].len(),
        forall|p: int|
            0 <= p < bs[n - 1].len() ==> (#[trigger] bs[n - 1][p]).len() == 1 && bs[n - 1][p][0]
                == zero,
        forall|x: T| #[trigger] sm(zero, x) == zero,
        sa(zero, zero) == zero,
        sf(zero) == zero,
    ensures
        cache_of(ws, bs, x0, n, sa, sm, sf, zero).last().len() == ws[n - 1].len(),
        forall|p: int|
            0 <= p < ws[n - 1].len() ==> (#[trigger] cache_of(
                ws,
                bs,
                x0,
                n,
                sa,
                sm,
                sf,
                zero,
            ).last()[p]).len() == 1 && cache_of(ws, bs, x0, n, sa, sm, sf, zero).last()[p][0]
                == zero,
{
    let prev = cache_of(ws, bs, x0, (n - 1) as nat, sa, sm, sf, zero);
    let w = ws[n - 1];
    let b = bs[n - 1];
    let x = prev.last();
    let pr = product_of(w, x, 1, sa, sm, zero);
    let zp = zip_of(pr, b, sa);
    let outv = map_of(zp, sf);
    assert(cache_of(ws, bs, x0, n, sa, sm, sf, zero).last() == layer_step_of(
        w,
        b,
        x,
        sa,
        sm,
        sf,
        zero,
    ));
    assert forall|p: int| 0 <= p < w.len() implies (#[trigger] outv[p]).len() == 1 && outv[p][0]
        == zero by {
        assert(pr[p].len() == 1);
        lemma_dot_zero_row(w[p], col_of(x, 0), sa, sm, zero);
        assert(pr[p][0] == zero);
        assert(zp[p].len() == 1);
        assert(zp[p][0] == sa(zero, zero));
        assert(outv[p] == zp[p].map_values(sf));
        assert(outv[p][0] == sf(zero));
    }
    assert(outv.len() == w.len());
}

} // verus!
