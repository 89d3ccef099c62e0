//! The network: layers chained input to output, with prediction and
//! the gradient-descent step over every parameter.

use vstd::prelude::*;
use rand::rngs::StdRng;
use crate::arith::add64;
use crate::arith::pow64;
use crate::arith::sub64;
use crate::bits::TWO_BITS;
use crate::bits::ZERO_BITS;
use crate::layer::Layer;
use crate::layer::layer_eval;
use crate::layer::lemma_layer_owns_bounds;
use crate::neuron::fresh_param;
use crate::layer::lemma_neuron_wf_prefix;
use crate::layer::lemma_neuron_wf_same_ops;
use crate::value::Graph;
use crate::value::Node;
use crate::value::Op;
use crate::value::Value;
use crate::value::lemma_reaches_operand;
use crate::value::lemma_reaches_same_ops;
use crate::value::lemma_reaches_trans;
use crate::value::lemma_vals_of_prefix;
use crate::value::reaches;
use crate::value::stepped;
use crate::value::vals_of;

verus! {

/// A feed-forward network of fully connected layers.
pub struct MLP {
    pub layers: Vec<Layer>,
}

/// The values a network produces after its first `k` layers, fed with
/// input values `xv`, every parameter read in `s`.
pub open spec fn mlp_eval(s: Seq<Node>, layers: Seq<Layer>, xv: Seq<u64>, k: int) -> Seq<u64>
    decreases k
    when 0 <= k <= layers.len()
{
    if k == 0 {
        xv
    } else {
        layer_eval(s, layers[k - 1], mlp_eval(s, layers, xv, k - 1))
    }
}

/// The number of inputs layer `k` reads: the network input for the
/// first layer, the previous layer's width after that.
pub open spec fn layer_in(layers: Seq<Layer>, n_in: int, k: int) -> int {
    if k == 0 {
        n_in
    } else {
        layers[k - 1].neurons@.len() as int
    }
}

/// How many nodes a prediction appends: each layer adds two nodes per
/// weight product plus the output node, for each of its neurons.
pub open spec fn predict_growth(layers: Seq<Layer>, n_in: int, k: int) -> int
    decreases k
    when 0 <= k <= layers.len()
{
    if k == 0 {
        0
    } else {
        predict_growth(layers, n_in, k - 1) + layers[k - 1].neurons@.len() * (2 * layer_in(
            layers,
            n_in,
            k - 1,
        ) + 1)
    }
}

proof fn lemma_predict_growth_mono(layers: Seq<Layer>, n_in: int, k1: int, k2: int)
    requires
        0 <= k1 <= k2 <= layers.len(),
        n_in >= 0,
    ensures
        predict_growth(layers, n_in, k1) <= predict_growth(layers, n_in, k2),
    decreases k2 - k1,
{
    if k1 < k2 {
        lemma_predict_growth_mono(layers, n_in, k1, k2 - 1);
        let w: int = layers[k2 - 1].neurons@.len() as int;
        let li: int = layer_in(layers, n_in, k2 - 1);
        assert(w * (2 * li + 1) >= 0) by (nonlinear_arith)
            requires
                w >= 0,
                li >= 0,
        ;
    }
}

/// Whether every value of `s1` that a network parameter points at is
/// also held at the same place in `s2`.
pub open spec fn params_equal(s1: Seq<Node>, s2: Seq<Node>, layers: Seq<Layer>) -> bool {
    forall|li: int, ni: int|
        0 <= li < layers.len() && 0 <= ni < layers[li].neurons@.len() ==> vals_of(
            s1,
            (#[trigger] layers[li].neurons@[ni]).weights@,
        ) == vals_of(s2, layers[li].neurons@[ni].weights@) && s1[layers[li].neurons@[ni].bias.i
            as int].val == s2[layers[li].neurons@[ni].bias.i as int].val
}

proof fn lemma_eval_params(s1: Seq<Node>, s2: Seq<Node>, layers: Seq<Layer>, xv: Seq<u64>, k: int)
    requires
        params_equal(s1, s2, layers),
        0 <= k <= layers.len(),
    ensures
        mlp_eval(s1, layers, xv, k) == mlp_eval(s2, layers, xv, k),
    decreases k,
{
    if k > 0 {
        lemma_eval_params(s1, s2, layers, xv, k - 1);
        let e: Seq<u64> = mlp_eval(s1, layers, xv, k - 1);
        assert(layer_eval(s1, layers[k - 1], e) =~= layer_eval(s2, layers[k - 1], e));
    }
}

/// Forward determinism: a network's outputs are a function of its
/// parameter values and its input values alone. Two graph states in
/// which every weight and bias holds the same value — in particular,
/// one state before and after other expressions were appended, with no
/// step in between — produce identical outputs on identical inputs.
pub proof fn law_forward_deterministic(s1: Seq<Node>, s2: Seq<Node>, net: MLP, xv: Seq<u64>)
    requires
        params_equal(s1, s2, net.layers@),
    ensures
        mlp_eval(s1, net.layers@, xv, net.layers@.len() as int) == mlp_eval(
            s2,
            net.layers@,
            xv,
            net.layers@.len() as int,
        ),
{
    lemma_eval_params(s1, s2, net.layers@, xv, net.layers@.len() as int);
}

/// A layer's evaluation only reads its parameters and its inputs, so
/// it is unchanged in any extension of the graph.
pub proof fn lemma_layer_eval_prefix(lay: Layer, s1: Seq<Node>, s2: Seq<Node>, xv: Seq<u64>)
    requires
        lay.wf(s1),
        s1.len() <= s2.len(),
        forall|j: int| 0 <= j < s1.len() ==> (#[trigger] s2[j]) == s1[j],
    ensures
        layer_eval(s1, lay, xv) == layer_eval(s2, lay, xv),
{
    assert forall|k: int| 0 <= k < lay.neurons@.len() implies vals_of(
        s1,
        (#[trigger] lay.neurons@[k]).weights@,
    ) == vals_of(s2, lay.neurons@[k].weights@) && s1[lay.neurons@[k].bias.i as int].val
        == s2[lay.neurons@[k].bias.i as int].val by {
        assert(lay.neurons@[k].wf(s1));
        lemma_vals_of_prefix(s1, s2, lay.neurons@[k].weights@);
    }
    assert(layer_eval(s1, lay, xv) =~= layer_eval(s2, lay, xv));
}

/// A whole network's evaluation only reads its parameters and its
/// inputs, so it is unchanged in any extension of the graph.
pub proof fn lemma_mlp_eval_prefix(
    layers: Seq<Layer>,
    s1: Seq<Node>,
    s2: Seq<Node>,
    xv: Seq<u64>,
    k: int,
)
    requires
        forall|m: int| 0 <= m < layers.len() ==> (#[trigger] layers[m]).wf(s1),
        s1.len() <= s2.len(),
        forall|j: int| 0 <= j < s1.len() ==> (#[trigger] s2[j]) == s1[j],
        0 <= k <= layers.len(),
    ensures
        mlp_eval(s1, layers, xv, k) == mlp_eval(s2, layers, xv, k),
{
    assert forall|li: int, ni: int|
        0 <= li < layers.len() && 0 <= ni < layers[li].neurons@.len() implies vals_of(
        s1,
        (#[trigger] layers[li].neurons@[ni]).weights@,
    ) == vals_of(s2, layers[li].neurons@[ni].weights@) && s1[layers[li].neurons@[ni].bias.i
        as int].val == s2[layers[li].neurons@[ni].bias.i as int].val by {
        assert(layers[li].wf(s1));
        assert(layers[li].neurons@[ni].wf(s1));
        lemma_vals_of_prefix(s1, s2, layers[li].neurons@[ni].weights@);
    }
    lemma_eval_params(s1, s2, layers, xv, k);
}

/// The input value sequences of a batch of examples.
pub open spec fn rows_of(xss: Seq<Vec<u64>>) -> Seq<Seq<u64>> {
    Seq::new(xss.len(), |i: int| xss[i]@)
}

/// The summed squared-error loss of a network over the first `k`
/// examples: the fold of `(out - target)^2`, accumulated left to right
/// onto a zero start.
pub open spec fn loss_eval(
    s: Seq<Node>,
    layers: Seq<Layer>,
    rows: Seq<Seq<u64>>,
    ys: Seq<u64>,
    k: int,
) -> u64
    decreases k
    when 0 <= k <= rows.len()
{
    if k == 0 {
        ZERO_BITS
    } else {
        add64(
            loss_eval(s, layers, rows, ys, k - 1),
            pow64(
                sub64(mlp_eval(s, layers, rows[k - 1], layers.len() as int)[0], ys[k - 1]),
                TWO_BITS,
            ),
        )
    }
}

/// How many nodes one evaluation of the loss over the given rows
/// appends to the graph.
pub open spec fn loss_growth(layers: Seq<Layer>, rows: Seq<Seq<u64>>, k: int) -> int
    decreases k
    when 0 <= k <= rows.len()
{
    if k == 0 {
        1
    } else {
        loss_growth(layers, rows, k - 1) + rows[k - 1].len() + predict_growth(
            layers,
            rows[k - 1].len() as int,
            layers.len() as int,
        ) + 4
    }
}

proof fn lemma_loss_growth_mono(layers: Seq<Layer>, rows: Seq<Seq<u64>>, k1: int, k2: int)
    requires
        0 <= k1 <= k2 <= rows.len(),
    ensures
        loss_growth(layers, rows, k1) <= loss_growth(layers, rows, k2),
    decreases k2 - k1,
{
    if k1 < k2 {
        lemma_loss_growth_mono(layers, rows, k1, k2 - 1);
        lemma_predict_growth_mono(layers, rows[k2 - 1].len() as int, 0, layers.len() as int);
    }
}

/// How many nodes building a network appends: one leaf per weight and
/// bias, layer by layer.
pub open spec fn build_growth(n_in: int, sizes: Seq<usize>, k: int) -> int
    decreases k
    when 0 <= k <= sizes.len()
{
    if k == 0 {
        0
    } else {
        build_growth(n_in, sizes, k - 1) + sizes[k - 1] * ((if k == 1 {
            n_in
        } else {
            sizes[k - 2] as int
        }) + 1)
    }
}

proof fn lemma_build_growth_mono(n_in: int, sizes: Seq<usize>, k1: int, k2: int)
    requires
        0 <= k1 <= k2 <= sizes.len(),
        n_in >= 0,
    ensures
        build_growth(n_in, sizes, k1) <= build_growth(n_in, sizes, k2),
    decreases k2 - k1,
{
    if k1 < k2 {
        lemma_build_growth_mono(n_in, sizes, k1, k2 - 1);
        let w: int = sizes[k2 - 1] as int;
        let li: int = if k2 == 1 {
            n_in
        } else {
            sizes[k2 - 2] as int
        };
        assert(w * (li + 1) >= 0) by (nonlinear_arith)
            requires
                w >= 0,
                li >= 0,
        ;
    }
}

/// Whether every layer has at least one neuron: the condition under
/// which a later layer's output is connected to everything below it.
pub open spec fn positive_widths(layers: Seq<Layer>) -> bool {
    forall|li: int| 0 <= li < layers.len() ==> (#[trigger] layers[li]).neurons@.len() > 0
}

impl MLP {
    /// Whether `j` is a parameter node of one of this network's layers.
    pub open spec fn owns(self, j: int) -> bool {
        exists|k: int| 0 <= k < self.layers@.len() && (#[trigger] self.layers@[k]).owns(j)
    }

    /// Whether `j` is a parameter node of a layer below the last one.
    pub open spec fn owns_inner(self, j: int) -> bool {
        exists|k: int| 0 <= k < self.layers@.len() - 1 && (#[trigger] self.layers@[k]).owns(j)
    }

    /// Every layer is well formed and no two layers share a parameter
    /// node.
    pub open spec fn wf(self, s: Seq<Node>) -> bool {
        &&& forall|k: int| 0 <= k < self.layers@.len() ==> (#[trigger] self.layers@[k]).wf(s)
        &&& forall|k1: int, k2: int, j: int|
            0 <= k1 < k2 < self.layers@.len() && #[trigger] self.layers@[k1].owns(j) ==> !(
            #[trigger] self.layers@[k2].owns(j))
    }

    /// The layers are wired input to output: the first reads `n_in`
    /// values, each later layer reads the previous layer's outputs.
    pub open spec fn chained(self, n_in: int) -> bool {
        &&& self.layers@.len() > 0
        &&& forall|k: int|
            0 <= k < self.layers@.len() ==> (#[trigger] self.layers@[k]).uniform(
                layer_in(self.layers@, n_in, k),
            )
    }

    /// A network over `inputs` inputs with one layer per entry of
    /// `sizes`, wired in order, every parameter freshly sampled.
    pub fn new(g: &mut Graph, inputs: usize, sizes: &Vec<usize>, rng: &mut StdRng) -> (net: MLP)
        requires
            sizes@.len() > 0,
            old(g)@.len() + build_growth(inputs as int, sizes@, sizes@.len() as int)
                <= usize::MAX,
        ensures
            net.layers@.len() == sizes@.len(),
            forall|k: int|
                0 <= k < sizes@.len() ==> (#[trigger] net.layers@[k]).neurons@.len() == sizes@[k],
            net.chained(inputs as int),
            net.wf(final(g)@),
            forall|j: int| 0 <= j < old(g)@.len() ==> (#[trigger] final(g)@[j]) == old(g)@[j],
            forall|j: int| net.owns(j) ==> old(g)@.len() <= j < final(g)@.len(),
            forall|j: int| net.owns(j) ==> fresh_param(final(g)@, j),
            old(g).wf() ==> final(g).wf(),
    {
        let ghost g0: Seq<Node> = g@;
        let total: usize = sizes.len();
        let mut layers: Vec<Layer> = Vec::new();
        let mut prev: usize = inputs;
        let mut k: usize = 0;
        while k < total
            invariant
                k <= total,
                total == sizes@.len(),
                layers@.len() == k,
                prev == layer_in_sizes(inputs as int, sizes@, k as int),
                g0.len() + build_growth(inputs as int, sizes@, total as int) <= usize::MAX,
                g@.len() == g0.len() + build_growth(inputs as int, sizes@, k as int),
                forall|j: int| 0 <= j < g0.len() ==> (#[trigger] g@[j]) == g0[j],
                forall|m: int|
                    0 <= m < k ==> (#[trigger] layers@[m]).wf(g@) && layers@[m].neurons@.len()
                        == sizes@[m] && layers@[m].uniform(
                        layer_in_sizes(inputs as int, sizes@, m),
                    ),
                forall|m: int, j: int|
                    0 <= m < k && #[trigger] layers@[m].owns(j) ==> g0.len() <= j < g@.len(),
                forall|m: int, j: int|
                    0 <= m < k && #[trigger] layers@[m].owns(j) ==> fresh_param(g@, j),
                forall|m1: int, m2: int, j: int|
                    0 <= m1 < m2 < k && #[trigger] layers@[m1].owns(j) ==> !(
                    #[trigger] layers@[m2].owns(j)),
                old(g).wf() ==> g.wf(),
                old(g)@ == g0,
            decreases total - k,
        {
            let width: usize = sizes[k];
            proof {
                lemma_build_growth_mono(inputs as int, sizes@, 0, k as int);
                lemma_build_growth_mono(inputs as int, sizes@, k as int + 1, total as int);
                assert(build_growth(inputs as int, sizes@, 0) == 0);
                assert(build_growth(inputs as int, sizes@, k as int + 1) == build_growth(
                    inputs as int,
                    sizes@,
                    k as int,
                ) + width * (prev + 1));
            }
            let ghost gpre: Seq<Node> = g@;
            let lay: Layer = Layer::new(g, prev, width, rng);
            proof {
                assert forall|m: int| 0 <= m < k implies (#[trigger] layers@[m]).wf(g@) by {
                    lemma_layer_wf_prefix(layers@[m], gpre, g@);
                }
                assert forall|m: int, j: int|
                    0 <= m < k && #[trigger] layers@[m].owns(j) implies fresh_param(g@, j) by {
                    assert(g@[j] == gpre[j]);
                }
            }
            layers.push(lay);
            prev = width;
            k = k + 1;
        }
        MLP { layers }
    }

    /// The network's outputs on `xs`: the inputs fed through every
    /// layer in order, each layer reading the previous one's freshly
    /// built outputs. The output values are exactly `mlp_eval` over the
    /// parameter and input values as they stood at the call.
    pub fn predict(&self, g: &mut Graph, xs: &Vec<Value>) -> (outs: Vec<Value>)
        requires
            self.wf(old(g)@),
            old(g).wf(),
            self.chained(xs@.len() as int),
            forall|k: int| 0 <= k < xs@.len() ==> (#[trigger] xs@[k]).i < old(g)@.len(),
            old(g)@.len() + predict_growth(self.layers@, xs@.len() as int, self.layers@.len() as int)
                <= usize::MAX,
        ensures
            final(g).wf(),
            self.wf(final(g)@),
            old(g)@.len() <= final(g)@.len(),
            final(g)@.len() <= old(g)@.len() + predict_growth(
                self.layers@,
                xs@.len() as int,
                self.layers@.len() as int,
            ),
            outs@.len() == self.layers@[self.layers@.len() - 1].neurons@.len(),
            forall|m: int| 0 <= m < outs@.len() ==> (#[trigger] outs@[m]).i < final(g)@.len(),
            forall|j: int| 0 <= j < old(g)@.len() ==> (#[trigger] final(g)@[j]) == old(g)@[j],
            vals_of(final(g)@, outs@) == mlp_eval(
                old(g)@,
                self.layers@,
                vals_of(old(g)@, xs@),
                self.layers@.len() as int,
            ),
            forall|m: int| 0 <= m < outs@.len() ==> old(g)@.len() <= (#[trigger] outs@[m]).i,
            forall|m: int, kk: int|
                0 <= m < outs@.len() && 0 <= kk < self.layers@[self.layers@.len()
                    - 1].neurons@[m].weights@.len() ==> reaches(
                    final(g)@,
                    (#[trigger] outs@[m]).i as int,
                    (#[trigger] self.layers@[self.layers@.len() - 1].neurons@[m].weights@[kk]).i
                        as int,
                ),
            forall|m: int|
                0 <= m < outs@.len() ==> reaches(
                    final(g)@,
                    (#[trigger] outs@[m]).i as int,
                    self.layers@[self.layers@.len() - 1].neurons@[m].bias.i as int,
                ),
            positive_widths(self.layers@) ==> forall|m: int, j: int|
                0 <= m < outs@.len() && #[trigger] self.owns_inner(j) ==> reaches(
                    final(g)@,
                    (#[trigger] outs@[m]).i as int,
                    j,
                ),
            positive_widths(self.layers@) ==> forall|m: int, kk: int|
                0 <= m < outs@.len() && 0 <= kk < xs@.len() ==> reaches(
                    final(g)@,
                    (#[trigger] outs@[m]).i as int,
                    (#[trigger] xs@[kk]).i as int,
                ),
    {
        let ghost g0: Seq<Node> = g@;
        let ghost xv: Seq<u64> = vals_of(g0, xs@);
        let ghost nin: int = xs@.len() as int;
        let total: usize = self.layers.len();
        proof {
            lemma_predict_growth_mono(self.layers@, nin, 1, total as int);
            assert(predict_growth(self.layers@, nin, 0) == 0);
            assert(predict_growth(self.layers@, nin, 1) == self.layers@[0].neurons@.len() * (2
                * nin + 1));
            let w0: int = self.layers@[0].neurons@.len() as int;
            assert(w0 * (2 * nin + 1) >= 0) by (nonlinear_arith)
                requires
                    w0 >= 0,
                    nin >= 0,
            ;
        }
        let mut cur: Vec<Value> = self.layers[0].calculate(g, xs);
        let mut k: usize = 1;
        proof {
            assert(mlp_eval(g0, self.layers@, xv, 0) == xv);
            assert(vals_of(g@, cur@) == mlp_eval(g0, self.layers@, xv, 1));
        }
        while k < total
            invariant
                1 <= k <= total,
                total == self.layers@.len(),
                self.wf(g0),
                self.chained(nin),
                nin == xs@.len() as int,
                g.wf(),
                cur@.len() == self.layers@[k - 1].neurons@.len(),
                forall|m: int| 0 <= m < cur@.len() ==> (#[trigger] cur@[m]).i < g@.len(),
                forall|m: int| 0 <= m < cur@.len() ==> g0.len() <= (#[trigger] cur@[m]).i,
                forall|kk: int| 0 <= kk < xs@.len() ==> (#[trigger] xs@[kk]).i < g0.len(),
                forall|m: int, kk: int|
                    0 <= m < cur@.len() && 0 <= kk < self.layers@[k
                        - 1].neurons@[m].weights@.len() ==> reaches(
                        g@,
                        (#[trigger] cur@[m]).i as int,
                        (#[trigger] self.layers@[k - 1].neurons@[m].weights@[kk]).i as int,
                    ),
                forall|m: int|
                    0 <= m < cur@.len() ==> reaches(
                        g@,
                        (#[trigger] cur@[m]).i as int,
                        self.layers@[k - 1].neurons@[m].bias.i as int,
                    ),
                positive_widths(self.layers@) ==> forall|m: int, li: int, j: int|
                    0 <= m < cur@.len() && 0 <= li < k - 1 && #[trigger] self.layers@[li].owns(j)
                        ==> reaches(g@, (#[trigger] cur@[m]).i as int, j),
                positive_widths(self.layers@) ==> forall|m: int, kk: int|
                    0 <= m < cur@.len() && 0 <= kk < xs@.len() ==> reaches(
                        g@,
                        (#[trigger] cur@[m]).i as int,
                        (#[trigger] xs@[kk]).i as int,
                    ),
                g0.len() + predict_growth(self.layers@, nin, total as int) <= usize::MAX,
                g0.len() <= g@.len(),
                g@.len() <= g0.len() + predict_growth(self.layers@, nin, k as int),
                forall|j: int| 0 <= j < g0.len() ==> (#[trigger] g@[j]) == g0[j],
                vals_of(g@, cur@) == mlp_eval(g0, self.layers@, xv, k as int),
                xv == vals_of(g0, xs@),
                old(g)@ == g0,
            decreases total - k,
        {
            proof {
                lemma_predict_growth_mono(self.layers@, nin, k as int + 1, total as int);
                assert(predict_growth(self.layers@, nin, k as int + 1) == predict_growth(
                    self.layers@,
                    nin,
                    k as int,
                ) + self.layers@[k as int].neurons@.len() * (2 * self.layers@[k as int
                    - 1].neurons@.len() + 1));
                let wk: int = self.layers@[k as int].neurons@.len() as int;
                let pk: int = self.layers@[k as int - 1].neurons@.len() as int;
                assert(wk * (2 * pk + 1) >= 0) by (nonlinear_arith)
                    requires
                        wk >= 0,
                        pk >= 0,
                ;
            }
            let ghost gpre: Seq<Node> = g@;
            proof {
                lemma_layer_wf_prefix(self.layers@[k as int], g0, gpre);
            }
            let lref: &Layer = &self.layers[k];
            let nxt: Vec<Value> = lref.calculate(g, &cur);
            proof {
                lemma_layer_eval_prefix(self.layers@[k as int], g0, gpre, vals_of(gpre, cur@));
                let ki: int = k as int;
                if positive_widths(self.layers@) {
                    assert(self.layers@[ki - 1].neurons@.len() > 0);
                    assert forall|m: int, li: int, j: int|
                        0 <= m < nxt@.len() && 0 <= li < ki && #[trigger] self.layers@[li].owns(j)
                        implies reaches(g@, (#[trigger] nxt@[m]).i as int, j) by {
                        assert(self.layers@[li].wf(g0));
                        let nn = choose|nn: int|
                            0 <= nn < self.layers@[li].neurons@.len() && (#[trigger] self.layers@[
                            li].neurons@[nn]).owns(j);
                        assert(self.layers@[li].neurons@[nn].wf(g0));
                        if j != self.layers@[li].neurons@[nn].bias.i as int {
                            let kk = choose|kk: int|
                                0 <= kk < self.layers@[li].neurons@[nn].weights@.len() && (
                                #[trigger] self.layers@[li].neurons@[nn].weights@[kk]).i as int
                                    == j;
                            assert(self.layers@[li].neurons@[nn].weights@[kk].i < g0.len());
                        }
                        if li == ki - 1 {
                            assert(reaches(gpre, cur@[nn].i as int, j));
                            assert forall|q: int| 0 <= q <= cur@[nn].i as int implies (
                            #[trigger] g@[q]).op == gpre[q].op by {
                                assert(g@[q] == gpre[q]);
                            }
                            lemma_reaches_same_ops(gpre, g@, cur@[nn].i as int, j);
                            lemma_reaches_trans(g@, nxt@[m].i as int, cur@[nn].i as int, j);
                        } else {
                            assert(reaches(gpre, cur@[0].i as int, j));
                            assert forall|q: int| 0 <= q <= cur@[0].i as int implies (
                            #[trigger] g@[q]).op == gpre[q].op by {
                                assert(g@[q] == gpre[q]);
                            }
                            lemma_reaches_same_ops(gpre, g@, cur@[0].i as int, j);
                            lemma_reaches_trans(g@, nxt@[m].i as int, cur@[0].i as int, j);
                        }
                    }
                    assert forall|m: int, kk: int|
                        0 <= m < nxt@.len() && 0 <= kk < xs@.len() implies reaches(
                        g@,
                        (#[trigger] nxt@[m]).i as int,
                        (#[trigger] xs@[kk]).i as int,
                    ) by {
                        assert(reaches(gpre, cur@[0].i as int, xs@[kk].i as int));
                        assert forall|q: int| 0 <= q <= cur@[0].i as int implies (
                        #[trigger] g@[q]).op == gpre[q].op by {
                            assert(g@[q] == gpre[q]);
                        }
                        lemma_reaches_same_ops(gpre, g@, cur@[0].i as int, xs@[kk].i as int);
                        lemma_reaches_trans(g@, nxt@[m].i as int, cur@[0].i as int, xs@[kk].i
                            as int);
                    }
                }
            }
            cur = nxt;
            k = k + 1;
        }
        proof {
            if positive_widths(self.layers@) {
                assert forall|m: int, j: int|
                    0 <= m < cur@.len() && #[trigger] self.owns_inner(j) implies reaches(
                    g@,
                    (#[trigger] cur@[m]).i as int,
                    j,
                ) by {
                    let li = choose|li: int|
                        0 <= li < self.layers@.len() - 1 && (#[trigger] self.layers@[li]).owns(j);
                    assert(self.layers@[li].owns(j));
                }
            }
        }
        cur
    }

    /// One step of gradient descent on every parameter of the network;
    /// every other node is untouched.
    pub fn step(&self, g: &mut Graph, epsilon: u64)
        requires
            self.wf(old(g)@),
        ensures
            final(g)@.len() == old(g)@.len(),
            self.wf(final(g)@),
            forall|j: int|
                0 <= j < old(g)@.len() ==> (#[trigger] final(g)@[j]).op == old(g)@[j].op
                    && final(g)@[j].grad == old(g)@[j].grad,
            forall|j: int|
                0 <= j < old(g)@.len() && !self.owns(j) ==> (#[trigger] final(g)@[j])
                    == old(g)@[j],
            forall|li: int, ni: int, k: int|
                0 <= li < self.layers@.len() && 0 <= ni < self.layers@[li].neurons@.len() && 0 <= k
                    < self.layers@[li].neurons@[ni].weights@.len() ==> stepped(
                    old(g)@,
                    final(g)@,
                    (#[trigger] self.layers@[li].neurons@[ni].weights@[k]).i as int,
                    epsilon,
                ),
            forall|li: int, ni: int|
                0 <= li < self.layers@.len() && 0 <= ni < self.layers@[li].neurons@.len()
                    ==> stepped(
                    old(g)@,
                    final(g)@,
                    (#[trigger] self.layers@[li].neurons@[ni]).bias.i as int,
                    epsilon,
                ),
            old(g).wf() ==> final(g).wf(),
    {
        let ghost g0: Seq<Node> = g@;
        let total: usize = self.layers.len();
        let mut m: usize = 0;
        while m < total
            invariant
                m <= total,
                total == self.layers@.len(),
                self.wf(g0),
                g@.len() == g0.len(),
                forall|j: int|
                    0 <= j < g0.len() ==> (#[trigger] g@[j]).op == g0[j].op && g@[j].grad
                        == g0[j].grad,
                forall|j: int|
                    0 <= j < g0.len() && !(exists|p: int|
                        0 <= p < m && (#[trigger] self.layers@[p]).owns(j)) ==> (#[trigger] g@[j])
                        == g0[j],
                forall|p: int, ni: int, k: int|
                    0 <= p < m && 0 <= ni < self.layers@[p].neurons@.len() && 0 <= k
                        < self.layers@[p].neurons@[ni].weights@.len() ==> stepped(
                        g0,
                        g@,
                        (#[trigger] self.layers@[p].neurons@[ni].weights@[k]).i as int,
                        epsilon,
                    ),
                forall|p: int, ni: int|
                    0 <= p < m && 0 <= ni < self.layers@[p].neurons@.len() ==> stepped(
                        g0,
                        g@,
                        (#[trigger] self.layers@[p].neurons@[ni]).bias.i as int,
                        epsilon,
                    ),
                old(g)@ == g0,
            decreases total - m,
        {
            let ghost gpre: Seq<Node> = g@;
            proof {
                lemma_layer_wf_same_ops(self.layers@[m as int], g0, gpre);
                assert forall|j: int|
                    self.layers@[m as int].owns(j) implies 0 <= j < g0.len() && (
                #[trigger] gpre[j]) == g0[j] by {
                    assert(self.layers@[m as int].wf(g0));
                    let ni = choose|ni: int|
                        0 <= ni < self.layers@[m as int].neurons@.len() && (#[trigger] self.layers@[
                        m as int].neurons@[ni]).owns(j);
                    assert(self.layers@[m as int].neurons@[ni].wf(g0));
                }
            }
            let lref: &Layer = &self.layers[m];
            lref.step(g, epsilon);
            m = m + 1;
        }
    }

    /// The summed squared-error loss of the network over a batch of
    /// examples: for each row of inputs, the network's first output is
    /// compared with the matching target, and the squared differences
    /// are added up left to right onto a fresh zero node. The loss
    /// node's value is exactly `loss_eval` over the parameter and input
    /// values as they stood at the call.
    pub fn find_loss(&self, g: &mut Graph, xss: &Vec<Vec<u64>>, ys: &Vec<u64>) -> (loss: Value)
        requires
            self.wf(old(g)@),
            old(g).wf(),
            xss@.len() == ys@.len(),
            forall|i: int|
                0 <= i < xss@.len() ==> self.chained((#[trigger] xss@[i])@.len() as int),
            self.layers@.len() > 0,
            self.layers@[self.layers@.len() - 1].neurons@.len() > 0,
            old(g)@.len() + loss_growth(self.layers@, rows_of(xss@), xss@.len() as int)
                <= usize::MAX,
        ensures
            final(g).wf(),
            self.wf(final(g)@),
            loss.i < final(g)@.len(),
            forall|j: int| 0 <= j < old(g)@.len() ==> (#[trigger] final(g)@[j]) == old(g)@[j],
            final(g)@[loss.i as int].val == loss_eval(
                old(g)@,
                self.layers@,
                rows_of(xss@),
                ys@,
                xss@.len() as int,
            ),
            xss@.len() > 0 ==> forall|kk: int|
                0 <= kk < self.layers@[self.layers@.len() - 1].neurons@[0].weights@.len()
                    ==> reaches(
                    final(g)@,
                    loss.i as int,
                    (#[trigger] self.layers@[self.layers@.len() - 1].neurons@[0].weights@[kk]).i
                        as int,
                ),
            xss@.len() > 0 ==> reaches(
                final(g)@,
                loss.i as int,
                self.layers@[self.layers@.len() - 1].neurons@[0].bias.i as int,
            ),
            xss@.len() > 0 && positive_widths(self.layers@) ==> forall|j: int|
                #[trigger] self.owns_inner(j) ==> reaches(final(g)@, loss.i as int, j),
    {
        let ghost g0: Seq<Node> = g@;
        let ghost rows: Seq<Seq<u64>> = rows_of(xss@);
        let ghost nl: int = self.layers@.len() as int;
        let total: usize = xss.len();
        proof {
            lemma_loss_growth_mono(self.layers@, rows, 0, total as int);
            assert(loss_growth(self.layers@, rows, 0) == 1);
        }
        let mut acc: Value = Value::constant(g, ZERO_BITS);
        let mut i: usize = 0;
        while i < total
            invariant
                i <= total,
                total == xss@.len(),
                total == ys@.len(),
                rows == rows_of(xss@),
                nl == self.layers@.len() as int,
                self.wf(g0),
                g.wf(),
                self.layers@.len() > 0,
                self.layers@[nl - 1].neurons@.len() > 0,
                forall|ii: int|
                    0 <= ii < xss@.len() ==> self.chained((#[trigger] xss@[ii])@.len() as int),
                g0.len() + loss_growth(self.layers@, rows, total as int) <= usize::MAX,
                g0.len() < g@.len(),
                g@.len() <= g0.len() + loss_growth(self.layers@, rows, i as int),
                forall|j: int| 0 <= j < g0.len() ==> (#[trigger] g@[j]) == g0[j],
                acc.i < g@.len(),
                g0.len() <= acc.i,
                g@[acc.i as int].val == loss_eval(g0, self.layers@, rows, ys@, i as int),
                i > 0 ==> forall|kk: int|
                    0 <= kk < self.layers@[nl - 1].neurons@[0].weights@.len() ==> reaches(
                        g@,
                        acc.i as int,
                        (#[trigger] self.layers@[nl - 1].neurons@[0].weights@[kk]).i as int,
                    ),
                i > 0 ==> reaches(
                    g@,
                    acc.i as int,
                    self.layers@[nl - 1].neurons@[0].bias.i as int,
                ),
                i > 0 && positive_widths(self.layers@) ==> forall|j: int|
                    #[trigger] self.owns_inner(j) ==> reaches(g@, acc.i as int, j),
                old(g)@ == g0,
            decreases total - i,
        {
            proof {
                lemma_loss_growth_mono(self.layers@, rows, i as int + 1, total as int);
                assert(loss_growth(self.layers@, rows, i as int + 1) == loss_growth(
                    self.layers@,
                    rows,
                    i as int,
                ) + rows[i as int].len() + predict_growth(
                    self.layers@,
                    rows[i as int].len() as int,
                    nl,
                ) + 4);
                lemma_predict_growth_mono(self.layers@, rows[i as int].len() as int, 0, nl);
            }
            let row: &Vec<u64> = &xss[i];
            let rlen: usize = row.len();
            let ghost gpre0: Seq<Node> = g@;
            let mut xv: Vec<Value> = Vec::new();
            let mut t: usize = 0;
            while t < rlen
                invariant
                    t <= rlen,
                    rlen == row@.len(),
                    xv@.len() == t,
                    g@.len() == gpre0.len() + t,
                    gpre0.len() + rlen <= usize::MAX,
                    g.wf(),
                    forall|j: int| 0 <= j < gpre0.len() ==> (#[trigger] g@[j]) == gpre0[j],
                    forall|m: int|
                        0 <= m < t ==> (#[trigger] xv@[m]).i < g@.len() && g@[xv@[m].i as int].val
                            == row@[m],
                decreases rlen - t,
            {
                let v: Value = Value::constant(g, row[t]);
                xv.push(v);
                t = t + 1;
            }
            let ghost gc: Seq<Node> = g@;
            proof {
                lemma_mlp_wf_prefix(*self, g0, gc);
                assert(vals_of(gc, xv@) =~= row@);
                assert(rows[i as int] == row@);
            }
            let outs: Vec<Value> = self.predict(g, &xv);
            proof {
                assert forall|m: int| 0 <= m < self.layers@.len() implies (
                #[trigger] self.layers@[m]).wf(g0) by {
                    assert(self.wf(g0));
                }
                lemma_mlp_eval_prefix(self.layers@, g0, gc, row@, nl);
                assert(g@[outs@[0].i as int].val == vals_of(g@, outs@)[0]);
                assert(vals_of(g@, outs@)[0] == mlp_eval(g0, self.layers@, row@, nl)[0]);
            }
            let ghost gp2: Seq<Node> = g@;
            let target: Value = Value::constant(g, ys[i]);
            let diff: Value = outs[0].sub(g, target);
            let sq: Value = diff.pow(g, TWO_BITS);
            let nxt: Value = acc.add(g, sq);
            proof {
                let oi: int = outs@[0].i as int;
                let ni2: int = nxt.i as int;
                let di: int = diff.i as int;
                let si: int = sq.i as int;
                assert forall|q: int| 0 <= q <= oi implies (#[trigger] g@[q]).op == gp2[q].op by {
                    assert(g@[q] == gp2[q]);
                }
                assert(g@[ni2].op == Op::Add(acc.i, sq.i));
                assert(g@[si].op == Op::Pow(diff.i, TWO_BITS));
                assert(g@[di].op == Op::Sub(outs@[0].i, target.i));
                lemma_reaches_operand(g@, ni2, si);
                lemma_reaches_operand(g@, si, di);
                lemma_reaches_trans(g@, ni2, si, di);
                lemma_reaches_operand(g@, di, oi);
                lemma_reaches_trans(g@, ni2, di, oi);
                assert(self.layers@[nl - 1].wf(g0));
                assert(self.layers@[nl - 1].neurons@[0].wf(g0));
                assert forall|kk: int|
                    0 <= kk < self.layers@[nl - 1].neurons@[0].weights@.len() implies reaches(
                    g@,
                    ni2,
                    (#[trigger] self.layers@[nl - 1].neurons@[0].weights@[kk]).i as int,
                ) by {
                    let wj: int = self.layers@[nl - 1].neurons@[0].weights@[kk].i as int;
                    assert(reaches(gp2, oi, wj));
                    lemma_reaches_same_ops(gp2, g@, oi, wj);
                    lemma_reaches_trans(g@, ni2, oi, wj);
                }
                assert(reaches(g@, ni2, self.layers@[nl - 1].neurons@[0].bias.i as int)) by {
                    let bj: int = self.layers@[nl - 1].neurons@[0].bias.i as int;
                    assert(reaches(gp2, oi, bj));
                    lemma_reaches_same_ops(gp2, g@, oi, bj);
                    lemma_reaches_trans(g@, ni2, oi, bj);
                }
                if positive_widths(self.layers@) {
                    assert forall|j: int| #[trigger] self.owns_inner(j) implies reaches(
                        g@,
                        ni2,
                        j,
                    ) by {
                        let li = choose|li: int|
                            0 <= li < self.layers@.len() - 1 && (#[trigger] self.layers@[
                            li]).owns(j);
                        lemma_layer_owns_bounds(self.layers@[li], g0, j);
                        assert(reaches(gp2, oi, j));
                        lemma_reaches_same_ops(gp2, g@, oi, j);
                        lemma_reaches_trans(g@, ni2, oi, j);
                    }
                }
            }
            acc = nxt;
            i = i + 1;
        }
        acc
    }
}

/// A network keeps its well-formedness in any extension of the graph.
pub proof fn lemma_mlp_wf_prefix(net: MLP, s1: Seq<Node>, s2: Seq<Node>)
    requires
        net.wf(s1),
        s1.len() <= s2.len(),
        forall|j: int| 0 <= j < s1.len() ==> (#[trigger] s2[j]) == s1[j],
    ensures
        net.wf(s2),
{
    assert forall|k: int| 0 <= k < net.layers@.len() implies (#[trigger] net.layers@[k]).wf(
        s2,
    ) by {
        lemma_layer_wf_prefix(net.layers@[k], s1, s2);
    }
}

/// What width layer `k` reads when the widths come from a size list.
pub open spec fn layer_in_sizes(n_in: int, sizes: Seq<usize>, k: int) -> int {
    if k == 0 {
        n_in
    } else {
        sizes[k - 1] as int
    }
}

/// A layer keeps its well-formedness in any extension of the graph.
pub proof fn lemma_layer_wf_prefix(lay: Layer, s1: Seq<Node>, s2: Seq<Node>)
    requires
        lay.wf(s1),
        s1.len() <= s2.len(),
        forall|j: int| 0 <= j < s1.len() ==> (#[trigger] s2[j]) == s1[j],
    ensures
        lay.wf(s2),
{
    assert forall|k: int| 0 <= k < lay.neurons@.len() implies (#[trigger] lay.neurons@[k]).wf(
        s2,
    ) by {
        lemma_neuron_wf_prefix(lay.neurons@[k], s1, s2);
    }
}

/// A layer keeps its well-formedness when only node values change.
pub proof fn lemma_layer_wf_same_ops(lay: Layer, s1: Seq<Node>, s2: Seq<Node>)
    requires
        lay.wf(s1),
        s1.len() == s2.len(),
        forall|j: int| 0 <= j < s1.len() ==> (#[trigger] s2[j]).op == s1[j].op,
    ensures
        lay.wf(s2),
{
    assert forall|k: int| 0 <= k < lay.neurons@.len() implies (#[trigger] lay.neurons@[k]).wf(
        s2,
    ) by {
        lemma_neuron_wf_same_ops(lay.neurons@[k], s1, s2);
    }
}

} // verus!
