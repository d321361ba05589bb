//! A feed-forward network of square, equally wide layers, trained online by
//! backpropagation.
//!
//! Every layer's weights form a `num_inputs` x `num_inputs` matrix, so every
//! activation and every error vector has `num_inputs` entries. Errors are
//! carried back through the same weight matrices that the forward pass uses,
//! not through their transposes.
use vstd::prelude::*;

use vstd::arithmetic::div_mod::lemma_fundamental_div_mod_converse;

use crate::matrix::{column, lemma_cell_index, models, Matrix, MatrixError, MatrixModel};
use crate::scalar_fn::{call2, lemma_call2, pure1, pure2};

verus! {

/// The scalar arithmetic of a network.
pub struct ScalarOps<T, A, M, P, X> {
    /// The start of every dot product.
    pub zero: T,
    /// The unit, from which the slope of the activation at an output `o` is
    /// taken as `o * (one - o)`.
    pub one: T,
    /// The activation function applied to each cell of a layer's output.
    pub activation: A,
    /// `minus(a, b)` is `a - b`.
    pub minus: M,
    /// `plus(a, b)` is `a + b`.
    pub plus: P,
    /// `times(a, b)` is `a * b`.
    pub times: X,
}

/// The mathematical value of a network.
pub struct NetworkModel<T> {
    pub num_inputs: nat,
    pub num_layers: nat,
    pub weights: Seq<MatrixModel<T>>,
}

impl<T> NetworkModel<T> {
    /// Every weight matrix is well formed.
    pub open spec fn wf(self) -> bool {
        forall|l: int| 0 <= l < self.weights.len() ==> (#[trigger] self.weights[l]).wf()
    }

    /// There are `num_layers` weight matrices, each `num_inputs` x
    /// `num_inputs`.
    pub open spec fn layers_fit(self) -> bool {
        &&& self.weights.len() == self.num_layers
        &&& forall|l: int|
            0 <= l < self.weights.len() ==> (#[trigger] self.weights[l]).rows == self.num_inputs
                && self.weights[l].cols == self.num_inputs
    }

    /// `v` has one entry per input.
    pub open spec fn fits(self, v: Seq<T>) -> bool {
        v.len() == self.num_inputs
    }
}

/// Every example of `data` has an input vector and a target vector of one
/// entry per input of `net`.
pub open spec fn data_fits<T>(net: NetworkModel<T>, data: Seq<(Seq<T>, Seq<T>)>) -> bool {
    forall|i: int| 0 <= i < data.len() ==> net.fits((#[trigger] data[i]).0) && net.fits(data[i].1)
}

/// The entries of training examples.
pub open spec fn examples<T>(data: Seq<(Vec<T>, Vec<T>)>) -> Seq<(Seq<T>, Seq<T>)> {
    data.map_values(|e: (Vec<T>, Vec<T>)| (e.0@, e.1@))
}

impl<
    T,
    A: Fn(T) -> T,
    M: Fn(T, T) -> T,
    P: Fn(T, T) -> T,
    X: Fn(T, T) -> T,
> ScalarOps<T, A, M, P, X> {
    /// Every operation is pure.
    pub open spec fn wf(&self) -> bool {
        &&& pure1(&self.activation)
        &&& pure2(&self.minus)
        &&& pure2(&self.plus)
        &&& pure2(&self.times)
    }

    /// The activation of a layer with weights `w` on the input `x`.
    pub open spec fn layer(&self, w: MatrixModel<T>, x: MatrixModel<T>) -> MatrixModel<T> {
        w.product(x, self.zero, &self.plus, &self.times).map_cells(&self.activation)
    }

    /// The input `x` followed by the activations of the first `k` layers.
    pub open spec fn forward(&self, weights: Seq<MatrixModel<T>>, x: MatrixModel<T>, k: nat) -> Seq<MatrixModel<T>>
        decreases k,
    {
        if k == 0 {
            seq![x]
        } else {
            let prev = self.forward(weights, x, (k - 1) as nat);
            prev.push(self.layer(weights[k - 1], prev.last()))
        }
    }

    /// The outputs of `net` on `inputs`: the inputs as a column, then each
    /// layer's activation.
    pub open spec fn outputs(&self, net: NetworkModel<T>, inputs: Seq<T>) -> Seq<MatrixModel<T>> {
        self.forward(net.weights, column(inputs), net.num_layers)
    }

    /// The error at layer `i`: `last` at the top layer `top`, below it the
    /// error above multiplied by the weights of layer `i`.
    pub open spec fn back(&self, weights: Seq<MatrixModel<T>>, last: MatrixModel<T>, i: int, top: int) -> MatrixModel<T>
        decreases top - i,
    {
        if i >= top {
            last
        } else {
            weights[i].product(self.back(weights, last, i + 1, top), self.zero, &self.plus, &self.times)
        }
    }

    /// The errors of `net` on `inputs` against `targets`, one per output.
    pub open spec fn errors(&self, net: NetworkModel<T>, inputs: Seq<T>, targets: Seq<T>) -> Seq<MatrixModel<T>> {
        let outs = self.outputs(net, inputs);
        let top = net.num_layers as int;
        let last = column(targets).zip_with(outs[top], &self.minus);
        Seq::new(net.num_layers + 1, |i: int| self.back(net.weights, last, i, top))
    }

    /// One cell of a correction, `rate * err * out * (one - out) * prev`,
    /// multiplied from the left: the learning rate times the error, scaled
    /// by the slope of the sigmoid at the output, times the previous
    /// activation.
    pub open spec fn correction(&self, rate: T, err: T, out: T, prev: T) -> T {
        let p = &self.times;
        call2(p, call2(p, call2(p, call2(p, rate, err), out), call2(&self.minus, self.one, out)), prev)
    }

    /// The `n` x `n` correction whose cell `(j, k)` is
    /// `correction(rate, err[j], out[j], prev[k])`.
    pub open spec fn delta(
        &self,
        rate: T,
        err: MatrixModel<T>,
        out: MatrixModel<T>,
        prev: MatrixModel<T>,
        n: nat,
    ) -> MatrixModel<T> {
        MatrixModel {
            rows: n,
            cols: n,
            cells: Seq::new(
                n * n,
                |p: int| self.correction(rate, err.cells[p / n as int], out.cells[p / n as int], prev.cells[p % n as int]),
            ),
        }
    }

    /// The corrections of `net` on one example, one per layer.
    pub open spec fn deltas(&self, net: NetworkModel<T>, inputs: Seq<T>, targets: Seq<T>, rate: T) -> Seq<MatrixModel<T>> {
        let outs = self.outputs(net, inputs);
        let errs = self.errors(net, inputs, targets);
        Seq::new(
            net.num_layers,
            |l: int| self.delta(rate, errs[l + 1], outs[l + 1], outs[l], net.num_inputs),
        )
    }

    /// `net` after one update on the example `(inputs, targets)`.
    pub open spec fn learn(&self, net: NetworkModel<T>, inputs: Seq<T>, targets: Seq<T>, rate: T) -> NetworkModel<T> {
        let d = self.deltas(net, inputs, targets, rate);
        NetworkModel {
            weights: Seq::new(net.weights.len(), |l: int| net.weights[l].zip_with(d[l], &self.plus)),
            ..net
        }
    }

    /// `net` after updates on the first `k` examples of `data`, in order.
    pub open spec fn learn_examples(&self, net: NetworkModel<T>, data: Seq<(Seq<T>, Seq<T>)>, rate: T, k: nat) -> NetworkModel<T>
        decreases k,
    {
        if k == 0 {
            net
        } else {
            let prev = self.learn_examples(net, data, rate, (k - 1) as nat);
            self.learn(prev, data[k - 1].0, data[k - 1].1, rate)
        }
    }

    /// `net` after `epochs` passes over `data`.
    pub open spec fn learn_epochs(&self, net: NetworkModel<T>, data: Seq<(Seq<T>, Seq<T>)>, rate: T, epochs: nat) -> NetworkModel<T>
        decreases epochs,
    {
        if epochs == 0 {
            net
        } else {
            self.learn_examples(self.learn_epochs(net, data, rate, (epochs - 1) as nat), data, rate, data.len())
        }
    }
}

/// The outputs of a network on `inputs` are one more than its layers, and
/// the first is `inputs` as a column, unchanged.
pub proof fn lemma_outputs_shape<
    T,
    A: Fn(T) -> T,
    M: Fn(T, T) -> T,
    P: Fn(T, T) -> T,
    X: Fn(T, T) -> T,
>(ops: ScalarOps<T, A, M, P, X>, net: NetworkModel<T>, inputs: Seq<T>)
    ensures
        ops.outputs(net, inputs).len() == net.num_layers + 1,
        ops.outputs(net, inputs)[0] == column(inputs),
{
    lemma_forward_shape(ops, net.weights, column(inputs), net.num_layers);
}

proof fn lemma_forward_shape<
    T,
    A: Fn(T) -> T,
    M: Fn(T, T) -> T,
    P: Fn(T, T) -> T,
    X: Fn(T, T) -> T,
>(ops: ScalarOps<T, A, M, P, X>, weights: Seq<MatrixModel<T>>, x: MatrixModel<T>, k: nat)
    ensures
        ops.forward(weights, x, k).len() == k + 1,
        ops.forward(weights, x, k)[0] == x,
    decreases k,
{
    if k > 0 {
        lemma_forward_shape(ops, weights, x, (k - 1) as nat);
    }
}

/// A network of `num_layers` square layers over vectors of `num_inputs`
/// entries.
pub struct NeuralNetwork<T> {
    num_inputs: usize,
    num_layers: usize,
    weights: Vec<Matrix<T>>,
}

impl<T> View for NeuralNetwork<T> {
    type V = NetworkModel<T>;

    closed spec fn view(&self) -> NetworkModel<T> {
        NetworkModel {
            num_inputs: self.num_inputs as nat,
            num_layers: self.num_layers as nat,
            weights: models(self.weights@),
        }
    }
}

/// Training examples: pairs of an input vector and a target vector.
pub type TrainingData<T> = Vec<(Vec<T>, Vec<T>)>;

impl<T: Copy> NeuralNetwork<T> {
    /// A network without weights yet.
    pub fn new(num_inputs: usize, num_layers: usize) -> (r: NeuralNetwork<T>)
        ensures
            r@.num_inputs == num_inputs,
            r@.num_layers == num_layers,
            r@.weights.len() == 0,
            r@.wf(),
    {
        NeuralNetwork { num_inputs, num_layers, weights: Vec::new() }
    }

    /// The weight matrices, one per layer.
    pub fn get_weights(&self) -> (r: &Vec<Matrix<T>>)
        ensures
            models(r@) == self@.weights,
    {
        &self.weights
    }

    /// Replaces the weights by copies of `new_weights`.
    pub fn set_weights(&mut self, new_weights: &Vec<Matrix<T>>)
        requires
            new_weights.len() == old(self)@.num_layers,
            forall|l: int| 0 <= l < new_weights.len() ==> (#[trigger] new_weights@[l])@.wf(),
        ensures
            final(self)@ == (NetworkModel { weights: models(new_weights@), ..old(self)@ }),
            final(self)@.wf(),
    {
        let mut weights: Vec<Matrix<T>> = Vec::new();
        let mut l: usize = 0;
        while l < new_weights.len()
            invariant
                l <= new_weights.len(),
                weights.len() == l,
                forall|k: int| 0 <= k < l ==> (#[trigger] weights@[k])@ == new_weights@[k]@,
            decreases new_weights.len() - l,
        {
            weights.push(new_weights[l].clone());
            l += 1;
        }
        assert(models(weights@) =~= models(new_weights@));
        self.weights = weights;
    }

    /// Replaces the weights by `num_layers` square matrices whose cells are
    /// values returned by `draw`, drawn in row-major order layer by layer.
    pub fn randomize_weights<D: Fn() -> T>(&mut self, draw: D)
        requires
            old(self)@.num_inputs * old(self)@.num_inputs <= usize::MAX,
            draw.requires(()),
        ensures
            final(self)@.num_inputs == old(self)@.num_inputs,
            final(self)@.num_layers == old(self)@.num_layers,
            final(self)@.layers_fit(),
            final(self)@.wf(),
            forall|l: int, p: int|
                0 <= l < final(self)@.weights.len() && 0 <= p < final(self)@.weights[l].cells.len()
                    ==> draw.ensures((), #[trigger] final(self)@.weights[l].cells[p]),
    {
        let n = self.num_inputs;
        let count = n * n;
        let mut weights: Vec<Matrix<T>> = Vec::new();
        let mut l: usize = 0;
        while l < self.num_layers
            invariant
                n == self@.num_inputs,
                count == n * n,
                draw.requires(()),
                l <= self.num_layers,
                weights.len() == l,
                forall|m: int| 0 <= m < l ==> (#[trigger] weights@[m])@.rows == n && weights@[m]@.cols == n
                    && weights@[m]@.wf(),
                forall|m: int, p: int|
                    0 <= m < l && 0 <= p < weights@[m]@.cells.len() ==> draw.ensures(
                        (),
                        #[trigger] weights@[m]@.cells[p],
                    ),
            decreases self.num_layers - l,
        {
            let mut values: Vec<T> = Vec::new();
            let mut p: usize = 0;
            while p < count
                invariant
                    draw.requires(()),
                    p <= count,
                    values.len() == p,
                    forall|q: int| 0 <= q < p ==> draw.ensures((), #[trigger] values@[q]),
                decreases count - p,
            {
                values.push(draw());
                p += 1;
            }
            weights.push(Matrix::from_vec(&values, n, n));
            l += 1;
        }
        self.weights = weights;
    }
}

impl<T: Copy> NeuralNetwork<T> {
    /// Whether there are `num_layers` weight matrices, each square of side
    /// `num_inputs`.
    fn check_layers(&self) -> (r: bool)
        ensures
            r == self@.layers_fit(),
    {
        if self.weights.len() != self.num_layers {
            return false;
        }
        let mut l: usize = 0;
        while l < self.weights.len()
            invariant
                self.weights.len() == self.num_layers,
                l <= self.weights.len(),
                forall|m: int| 0 <= m < l ==> (#[trigger] self@.weights[m]).rows == self@.num_inputs
                    && self@.weights[m].cols == self@.num_inputs,
            decreases self.weights.len() - l,
        {
            let (rows, cols) = self.weights[l].size();
            if rows != self.num_inputs || cols != self.num_inputs {
                assert(!self@.layers_fit()) by {
                    assert(self@.weights[l as int] == self.weights@[l as int]@);
                }
                return false;
            }
            l += 1;
        }
        true
    }

    /// The forward pass on inputs that fit a network whose layers fit.
    fn forward_pass<A, M, P, X>(&self, inputs: &Vec<T>, ops: &ScalarOps<T, A, M, P, X>) -> (r: Vec<Matrix<T>>)
        where
            A: Fn(T) -> T,
            M: Fn(T, T) -> T,
            P: Fn(T, T) -> T,
            X: Fn(T, T) -> T,
        requires
            self@.wf(),
            self@.layers_fit(),
            self@.fits(inputs@),
            ops.wf(),
        ensures
            models(r@) == ops.outputs(self@, inputs@),
            r.len() == self@.num_layers + 1,
            forall|k: int| 0 <= k < r.len() ==> (#[trigger] r@[k])@.wf() && r@[k]@.rows == self@.num_inputs
                && r@[k]@.cols == 1,
    {
        let n = self.num_inputs;
        let ghost net = self@;
        let ghost x = column(inputs@);
        let mut current = Matrix::from_vec(inputs, n, 1);
        let mut result: Vec<Matrix<T>> = Vec::new();
        result.push(current.clone());
        assert(models(result@) =~= ops.forward(net.weights, x, 0));
        let mut i: usize = 0;
        while i < self.num_layers
            invariant
                net == self@,
                net.wf(),
                net.layers_fit(),
                ops.wf(),
                n == net.num_inputs,
                x == column(inputs@),
                i <= net.num_layers,
                result.len() == i + 1,
                models(result@) == ops.forward(net.weights, x, i as nat),
                current@ == result@[i as int]@,
                forall|k: int| 0 <= k < result.len() ==> (#[trigger] result@[k])@.wf() && result@[k]@.rows == n
                    && result@[k]@.cols == 1,
            decreases self.num_layers - i,
        {
            assert(self.weights@[i as int]@ == net.weights[i as int]);
            let mut next = match self.weights[i].dot_prod(&current, ops.zero, &ops.plus, &ops.times) {
                Ok(m) => m,
                Err(_) => return result,
            };
            next.map(&ops.activation);
            let ghost before = result@;
            result.push(next.clone());
            current = next;
            i += 1;
            assert(models(result@) =~= ops.forward(net.weights, x, i as nat)) by {
                assert(models(result@) =~= models(before).push(current@));
                assert(models(before).last() == before[i - 1]@);
            }
        }
        result
    }

    /// The errors of each output against `targets`, from the outputs of the
    /// forward pass.
    fn backward_pass<A, M, P, X>(
        &self,
        outputs: &Vec<Matrix<T>>,
        targets: &Vec<T>,
        ops: &ScalarOps<T, A, M, P, X>,
    ) -> (r: Vec<Matrix<T>>)
        where
            A: Fn(T) -> T,
            M: Fn(T, T) -> T,
            P: Fn(T, T) -> T,
            X: Fn(T, T) -> T,
        requires
            self@.wf(),
            self@.layers_fit(),
            self@.fits(targets@),
            ops.wf(),
            outputs.len() == self@.num_layers + 1,
            forall|k: int| 0 <= k < outputs.len() ==> (#[trigger] outputs@[k])@.wf() && outputs@[k]@.rows
                == self@.num_inputs && outputs@[k]@.cols == 1,
        ensures
            ({
                let top = self@.num_layers as int;
                let last = column(targets@).zip_with(outputs@[top]@, &ops.minus);
                models(r@) == Seq::new(self@.num_layers + 1, |i: int| ops.back(self@.weights, last, i, top))
            }),
            r.len() == self@.num_layers + 1,
            forall|k: int| 0 <= k < r.len() ==> (#[trigger] r@[k])@.wf() && r@[k]@.rows == self@.num_inputs
                && r@[k]@.cols == 1,
    {
        let n = self.num_inputs;
        let top = self.num_layers;
        let ghost net = self@;
        let target = Matrix::from_vec(targets, n, 1);
        let last = match target.subtract(&outputs[top], &ops.minus) {
            Ok(m) => m,
            Err(_) => return Vec::new(),
        };
        let ghost last_model = last@;
        assert(target@ == column(targets@));
        assert(last_model == column(targets@).zip_with(outputs@[top as int]@, &ops.minus));
        let mut reversed: Vec<Matrix<T>> = Vec::new();
        reversed.push(last.clone());
        let mut current = last;
        let mut k: usize = top;
        while k > 0
            invariant
                net == self@,
                net.wf(),
                net.layers_fit(),
                ops.wf(),
                n == net.num_inputs,
                top == net.num_layers,
                k <= top,
                reversed.len() == top - k + 1,
                forall|m: int| 0 <= m < reversed.len() ==> (#[trigger] reversed@[m])@ == ops.back(
                    net.weights,
                    last_model,
                    top - m,
                    top as int,
                ),
                forall|m: int| 0 <= m < reversed.len() ==> (#[trigger] reversed@[m])@.wf() && reversed@[m]@.rows == n
                    && reversed@[m]@.cols == 1,
                current@ == ops.back(net.weights, last_model, k as int, top as int),
                current@.wf(),
                current@.rows == n,
                current@.cols == 1,
            decreases k,
        {
            assert(self.weights@[k - 1]@ == net.weights[k - 1]);
            let next = match self.weights[k - 1].dot_prod(&current, ops.zero, &ops.plus, &ops.times) {
                Ok(m) => m,
                Err(_) => return Vec::new(),
            };
            assert(next@ == ops.back(net.weights, last_model, k - 1, top as int));
            reversed.push(next.clone());
            current = next;
            k -= 1;
        }
        let mut result: Vec<Matrix<T>> = Vec::new();
        let mut m: usize = reversed.len();
        while m > 0
            invariant
                reversed.len() == top + 1,
                m <= reversed.len(),
                result.len() == reversed.len() - m,
                forall|j: int| 0 <= j < result.len() ==> (#[trigger] result@[j])@ == ops.back(
                    net.weights,
                    last_model,
                    j,
                    top as int,
                ),
                forall|j: int| 0 <= j < reversed.len() ==> (#[trigger] reversed@[j])@ == ops.back(
                    net.weights,
                    last_model,
                    top - j,
                    top as int,
                ),
                forall|j: int| 0 <= j < reversed.len() ==> (#[trigger] reversed@[j])@.wf() && reversed@[j]@.rows == n
                    && reversed@[j]@.cols == 1,
                forall|j: int| 0 <= j < result.len() ==> (#[trigger] result@[j])@.wf() && result@[j]@.rows == n
                    && result@[j]@.cols == 1,
            decreases m,
        {
            m -= 1;
            result.push(reversed[m].clone());
        }
        assert(models(result@) =~= Seq::new(
            net.num_layers + 1,
            |i: int| ops.back(net.weights, last_model, i, top as int),
        ));
        result
    }
}

impl<T: Copy> NeuralNetwork<T> {
    /// The corrections of each layer, from the outputs and errors of one
    /// example.
    fn corrections<A, M, P, X>(
        &self,
        outputs: &Vec<Matrix<T>>,
        errors: &Vec<Matrix<T>>,
        learning_rate: T,
        ops: &ScalarOps<T, A, M, P, X>,
    ) -> (r: Vec<Matrix<T>>)
        where
            A: Fn(T) -> T,
            M: Fn(T, T) -> T,
            P: Fn(T, T) -> T,
            X: Fn(T, T) -> T,
        requires
            ops.wf(),
            outputs.len() == self@.num_layers + 1,
            errors.len() == self@.num_layers + 1,
            forall|k: int| 0 <= k < outputs.len() ==> (#[trigger] outputs@[k])@.wf() && outputs@[k]@.rows
                == self@.num_inputs && outputs@[k]@.cols == 1,
            forall|k: int| 0 <= k < errors.len() ==> (#[trigger] errors@[k])@.wf() && errors@[k]@.rows
                == self@.num_inputs && errors@[k]@.cols == 1,
        ensures
            models(r@) == Seq::new(
                self@.num_layers,
                |l: int| ops.delta(learning_rate, errors@[l + 1]@, outputs@[l + 1]@, outputs@[l]@, self@.num_inputs),
            ),
            forall|l: int| 0 <= l < r.len() ==> (#[trigger] r@[l])@.wf(),
    {
        let n = self.num_inputs;
        let ghost nn = n as nat;
        let mut result: Vec<Matrix<T>> = Vec::new();
        let mut layer: usize = 0;
        while layer < self.num_layers
            invariant
                ops.wf(),
                n == self@.num_inputs,
                nn == n,
                outputs.len() == self@.num_layers + 1,
                errors.len() == self@.num_layers + 1,
                forall|k: int| 0 <= k < outputs.len() ==> (#[trigger] outputs@[k])@.wf() && outputs@[k]@.rows == n
                    && outputs@[k]@.cols == 1,
                forall|k: int| 0 <= k < errors.len() ==> (#[trigger] errors@[k])@.wf() && errors@[k]@.rows == n
                    && errors@[k]@.cols == 1,
                layer <= self@.num_layers,
                result.len() == layer,
                forall|l: int| 0 <= l < layer ==> (#[trigger] result@[l])@ == ops.delta(
                    learning_rate,
                    errors@[l + 1]@,
                    outputs@[l + 1]@,
                    outputs@[l]@,
                    nn,
                ),
                forall|l: int| 0 <= l < layer ==> (#[trigger] result@[l])@.wf(),
            decreases self.num_layers - layer,
        {
            let err = errors[layer + 1].as_vec();
            let prev = outputs[layer].as_vec();
            let out = outputs[layer + 1].as_vec();
            let ghost target = ops.delta(learning_rate, errors@[layer + 1]@, outputs@[layer + 1]@, outputs@[layer as int]@, nn);
            let mut values: Vec<T> = Vec::new();
            let mut j: usize = 0;
            while j < n
                invariant
                    ops.wf(),
                    nn == n,
                    err@.len() == n,
                    prev@.len() == n,
                    out@.len() == n,
                    target == ops.delta(learning_rate, errors@[layer + 1]@, outputs@[layer + 1]@, outputs@[layer as int]@, nn),
                    err@ == errors@[layer + 1]@.cells,
                    prev@ == outputs@[layer as int]@.cells,
                    out@ == outputs@[layer + 1]@.cells,
                    j <= n,
                    values@ == target.cells.subrange(0, j * n),
                decreases n - j,
            {
                let mut k: usize = 0;
                while k < n
                    invariant
                        ops.wf(),
                        nn == n,
                        err@.len() == n,
                        prev@.len() == n,
                        out@.len() == n,
                        target == ops.delta(learning_rate, errors@[layer + 1]@, outputs@[layer + 1]@, outputs@[layer as int]@, nn),
                        err@ == errors@[layer + 1]@.cells,
                        prev@ == outputs@[layer as int]@.cells,
                        out@ == outputs@[layer + 1]@.cells,
                        j < n,
                        k <= n,
                        values@ == target.cells.subrange(0, j * n + k),
                    decreases n - k,
                {
                    let scaled = (ops.times)(learning_rate, err[j]);
                    let weighted = (ops.times)(scaled, out[j]);
                    let complement = (ops.minus)(ops.one, out[j]);
                    let sloped = (ops.times)(weighted, complement);
                    let x = (ops.times)(sloped, prev[k]);
                    proof {
                        lemma_call2(&ops.times, learning_rate, err@[j as int], scaled);
                        lemma_call2(&ops.times, scaled, out@[j as int], weighted);
                        lemma_call2(&ops.minus, ops.one, out@[j as int], complement);
                        lemma_call2(&ops.times, weighted, complement, sloped);
                        lemma_call2(&ops.times, sloped, prev@[k as int], x);
                        lemma_cell_index(j as int, k as int, n as int, n as int);
                        lemma_fundamental_div_mod_converse(j * n + k, n as int, j as int, k as int);
                    }
                    let ghost before = values@;
                    values.push(x);
                    k += 1;
                    assert(values@ =~= target.cells.subrange(0, j * n + k)) by {
                        assert(values@ =~= before.push(x));
                    }
                }
                assert((j + 1) * n == j * n + n) by (nonlinear_arith);
                j += 1;
            }
            assert(values@ =~= target.cells);
            result.push(Matrix::from_vec(&values, n, n));
            layer += 1;
        }
        assert(models(result@) =~= Seq::new(
            self@.num_layers,
            |l: int| ops.delta(learning_rate, errors@[l + 1]@, outputs@[l + 1]@, outputs@[l]@, self@.num_inputs),
        ));
        result
    }

    /// The outputs on `inputs`: the inputs as a column, then each layer's
    /// activation. Fails with `DimensionMismatch` unless `inputs` has one
    /// entry per input and the layers fit.
    pub fn get_outputs<A, M, P, X>(&self, inputs: &Vec<T>, ops: &ScalarOps<T, A, M, P, X>) -> (r: Result<
        Vec<Matrix<T>>,
        MatrixError,
    >)
        where
            A: Fn(T) -> T,
            M: Fn(T, T) -> T,
            P: Fn(T, T) -> T,
            X: Fn(T, T) -> T,
        requires
            self@.wf(),
            ops.wf(),
        ensures
            match r {
                Ok(v) => self@.layers_fit() && self@.fits(inputs@) && models(v@) == ops.outputs(self@, inputs@),
                Err(e) => !(self@.layers_fit() && self@.fits(inputs@)) && e == MatrixError::DimensionMismatch,
            },
    {
        if inputs.len() != self.num_inputs || !self.check_layers() {
            return Err(MatrixError::DimensionMismatch);
        }
        Ok(self.forward_pass(inputs, ops))
    }

    /// The errors on `inputs` against `targets`, one per output. Fails with
    /// `DimensionMismatch` unless both vectors have one entry per input and
    /// the layers fit.
    pub fn get_errors<A, M, P, X>(
        &self,
        inputs: &Vec<T>,
        targets: &Vec<T>,
        ops: &ScalarOps<T, A, M, P, X>,
    ) -> (r: Result<Vec<Matrix<T>>, MatrixError>)
        where
            A: Fn(T) -> T,
            M: Fn(T, T) -> T,
            P: Fn(T, T) -> T,
            X: Fn(T, T) -> T,
        requires
            self@.wf(),
            ops.wf(),
        ensures
            match r {
                Ok(v) => self@.layers_fit() && self@.fits(inputs@) && self@.fits(targets@) && models(v@)
                    == ops.errors(self@, inputs@, targets@),
                Err(e) => !(self@.layers_fit() && self@.fits(inputs@) && self@.fits(targets@)) && e
                    == MatrixError::DimensionMismatch,
            },
    {
        if inputs.len() != self.num_inputs || targets.len() != self.num_inputs || !self.check_layers() {
            return Err(MatrixError::DimensionMismatch);
        }
        let outputs = self.forward_pass(inputs, ops);
        Ok(self.backward_pass(&outputs, targets, ops))
    }

    fn deltas_of<A, M, P, X>(
        &self,
        inputs: &Vec<T>,
        targets: &Vec<T>,
        learning_rate: T,
        ops: &ScalarOps<T, A, M, P, X>,
    ) -> (r: Vec<Matrix<T>>)
        where
            A: Fn(T) -> T,
            M: Fn(T, T) -> T,
            P: Fn(T, T) -> T,
            X: Fn(T, T) -> T,
        requires
            self@.wf(),
            self@.layers_fit(),
            self@.fits(inputs@),
            self@.fits(targets@),
            ops.wf(),
        ensures
            models(r@) == ops.deltas(self@, inputs@, targets@, learning_rate),
            forall|l: int| 0 <= l < r.len() ==> (#[trigger] r@[l])@.wf(),
    {
        let outputs = self.forward_pass(inputs, ops);
        let errors = self.backward_pass(&outputs, targets, ops);
        let r = self.corrections(&outputs, &errors, learning_rate, ops);
        assert(models(r@) =~= ops.deltas(self@, inputs@, targets@, learning_rate)) by {
            assert(models(outputs@) == ops.outputs(self@, inputs@));
            assert(models(errors@) =~= ops.errors(self@, inputs@, targets@));
        }
        r
    }

    /// The corrections on `inputs` against `targets`, one `num_inputs` x
    /// `num_inputs` matrix per layer. Fails with `DimensionMismatch` unless
    /// both vectors have one entry per input and the layers fit.
    pub fn get_deltas<A, M, P, X>(
        &self,
        inputs: &Vec<T>,
        targets: &Vec<T>,
        learning_rate: T,
        ops: &ScalarOps<T, A, M, P, X>,
    ) -> (r: Result<Vec<Matrix<T>>, MatrixError>)
        where
            A: Fn(T) -> T,
            M: Fn(T, T) -> T,
            P: Fn(T, T) -> T,
            X: Fn(T, T) -> T,
        requires
            self@.wf(),
            ops.wf(),
        ensures
            match r {
                Ok(v) => self@.layers_fit() && self@.fits(inputs@) && self@.fits(targets@) && models(v@)
                    == ops.deltas(self@, inputs@, targets@, learning_rate),
                Err(e) => !(self@.layers_fit() && self@.fits(inputs@) && self@.fits(targets@)) && e
                    == MatrixError::DimensionMismatch,
            },
    {
        if inputs.len() != self.num_inputs || targets.len() != self.num_inputs || !self.check_layers() {
            return Err(MatrixError::DimensionMismatch);
        }
        Ok(self.deltas_of(inputs, targets, learning_rate, ops))
    }

    /// The activation of the last layer on `inputs`. Fails with
    /// `DimensionMismatch` unless `inputs` has one entry per input and the
    /// layers fit.
    pub fn execute<A, M, P, X>(&self, inputs: &Vec<T>, ops: &ScalarOps<T, A, M, P, X>) -> (r: Result<
        Matrix<T>,
        MatrixError,
    >)
        where
            A: Fn(T) -> T,
            M: Fn(T, T) -> T,
            P: Fn(T, T) -> T,
            X: Fn(T, T) -> T,
        requires
            self@.wf(),
            ops.wf(),
        ensures
            match r {
                Ok(m) => self@.layers_fit() && self@.fits(inputs@) && m@ == ops.outputs(self@, inputs@).last(),
                Err(e) => !(self@.layers_fit() && self@.fits(inputs@)) && e == MatrixError::DimensionMismatch,
            },
    {
        if inputs.len() != self.num_inputs || !self.check_layers() {
            return Err(MatrixError::DimensionMismatch);
        }
        let outputs = self.forward_pass(inputs, ops);
        let last = outputs[self.num_layers].clone();
        Ok(last)
    }
}

impl<T: Copy> NeuralNetwork<T> {
    /// Whether every example of `data` fits the network.
    fn check_data(&self, data: &TrainingData<T>) -> (r: bool)
        ensures
            r == data_fits(self@, examples(data@)),
    {
        let mut i: usize = 0;
        while i < data.len()
            invariant
                i <= data.len(),
                forall|k: int| 0 <= k < i ==> self@.fits((#[trigger] examples(data@)[k]).0) && self@.fits(
                    examples(data@)[k].1,
                ),
            decreases data.len() - i,
        {
            if data[i].0.len() != self.num_inputs || data[i].1.len() != self.num_inputs {
                assert(!self@.fits(examples(data@)[i as int].0) || !self@.fits(examples(data@)[i as int].1));
                return false;
            }
            i += 1;
        }
        true
    }

    /// One update on the example `(inputs, targets)`.
    fn learn_one<A, M, P, X>(
        &mut self,
        inputs: &Vec<T>,
        targets: &Vec<T>,
        learning_rate: T,
        ops: &ScalarOps<T, A, M, P, X>,
    )
        where
            A: Fn(T) -> T,
            M: Fn(T, T) -> T,
            P: Fn(T, T) -> T,
            X: Fn(T, T) -> T,
        requires
            old(self)@.wf(),
            old(self)@.layers_fit(),
            old(self)@.fits(inputs@),
            old(self)@.fits(targets@),
            ops.wf(),
        ensures
            final(self)@ == ops.learn(old(self)@, inputs@, targets@, learning_rate),
            final(self)@.wf(),
            final(self)@.layers_fit(),
    {
        let ghost start = self@;
        let deltas = self.deltas_of(inputs, targets, learning_rate, ops);
        let ghost d = ops.deltas(start, inputs@, targets@, learning_rate);
        assert(deltas@.len() == models(deltas@).len());
        let mut l: usize = 0;
        while l < self.num_layers
            invariant
                ops.wf(),
                start.wf(),
                start.layers_fit(),
                d == ops.deltas(start, inputs@, targets@, learning_rate),
                models(deltas@) == d,
                deltas.len() == start.num_layers,
                self@.num_inputs == start.num_inputs,
                self@.num_layers == start.num_layers,
                self@.weights.len() == start.weights.len(),
                l <= self@.num_layers,
                forall|m: int| 0 <= m < l ==> #[trigger] self@.weights[m] == start.weights[m].zip_with(d[m], &ops.plus),
                forall|m: int| l <= m < self@.num_layers ==> #[trigger] self@.weights[m] == start.weights[m],
            decreases self.num_layers - l,
        {
            assert(self.weights@[l as int]@ == self@.weights[l as int]);
            assert(deltas@[l as int]@ == d[l as int]);
            let updated = match self.weights[l].add(&deltas[l], &ops.plus) {
                Ok(m) => m,
                Err(_) => return,
            };
            let ghost before = self.weights@;
            let ghost new_model = updated@;
            self.weights.set(l, updated);
            assert(models(self.weights@) =~= models(before).update(l as int, new_model));
            l += 1;
        }
        assert(self@.weights =~= ops.learn(start, inputs@, targets@, learning_rate).weights);
    }

    /// Trains the network for `epochs` passes over `data`, visiting the
    /// examples in order and adding each example's corrections to the
    /// weights before the next. Fails with `DimensionMismatch`, leaving the
    /// weights unchanged, unless the layers fit and every vector of `data`
    /// has one entry per input.
    pub fn train<A, M, P, X>(
        &mut self,
        data: &TrainingData<T>,
        learning_rate: T,
        epochs: usize,
        ops: &ScalarOps<T, A, M, P, X>,
    ) -> (r: Result<(), MatrixError>)
        where
            A: Fn(T) -> T,
            M: Fn(T, T) -> T,
            P: Fn(T, T) -> T,
            X: Fn(T, T) -> T,
        requires
            old(self)@.wf(),
            ops.wf(),
        ensures
            final(self)@.wf(),
            match r {
                Ok(_) => old(self)@.layers_fit() && data_fits(old(self)@, examples(data@)) && final(self)@
                    == ops.learn_epochs(old(self)@, examples(data@), learning_rate, epochs as nat),
                Err(e) => !(old(self)@.layers_fit() && data_fits(old(self)@, examples(data@))) && e
                    == MatrixError::DimensionMismatch && final(self)@ == old(self)@,
            },
    {
        if !self.check_layers() || !self.check_data(data) {
            return Err(MatrixError::DimensionMismatch);
        }
        let ghost start = self@;
        let ghost ex = examples(data@);
        let mut epoch: usize = 0;
        while epoch < epochs
            invariant
                ops.wf(),
                ex == examples(data@),
                data_fits(start, ex),
                epoch <= epochs,
                self@ == ops.learn_epochs(start, ex, learning_rate, epoch as nat),
                self@.wf(),
                self@.layers_fit(),
                self@.num_inputs == start.num_inputs,
            decreases epochs - epoch,
        {
            let ghost from = self@;
            let mut i: usize = 0;
            while i < data.len()
                invariant
                    ops.wf(),
                    ex == examples(data@),
                    data_fits(start, ex),
                    i <= data.len(),
                    from == ops.learn_epochs(start, ex, learning_rate, epoch as nat),
                    self@ == ops.learn_examples(from, ex, learning_rate, i as nat),
                    self@.wf(),
                    self@.layers_fit(),
                    self@.num_inputs == start.num_inputs,
                decreases data.len() - i,
            {
                assert(ex[i as int] == (data@[i as int].0@, data@[i as int].1@));
                assert(self@.fits(ex[i as int].0) && self@.fits(ex[i as int].1));
                self.learn_one(&data[i].0, &data[i].1, learning_rate, ops);
                i += 1;
            }
            epoch += 1;
        }
        Ok(())
    }
}

} // verus!
