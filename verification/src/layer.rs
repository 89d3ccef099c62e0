//! A layer: several neurons over the same input vector.

use vstd::prelude::*;
use rand::rngs::StdRng;
use crate::neuron::Neuron;
use crate::neuron::fresh_param;
use crate::neuron::neuron_eval;
use crate::value::Graph;
use crate::value::Node;
use crate::value::Value;
use crate::value::lemma_reaches_same_ops;
use crate::value::lemma_vals_of_prefix;
use crate::value::reaches;
use crate::value::stepped;
use crate::value::vals_of;

verus! {

/// A neuron's parameters live where its weights and bias point; a
/// layer's are the union over its neurons, pairwise disjoint.
pub struct Layer {
    pub neurons: Vec<Neuron>,
}

/// The output values of a layer on input values `xv`: one
/// `neuron_eval` per neuron, every neuron reading the same inputs.
pub open spec fn layer_eval(s: Seq<Node>, lay: Layer, xv: Seq<u64>) -> Seq<u64> {
    Seq::new(
        lay.neurons@.len(),
        |k: int|
            neuron_eval(
                vals_of(s, lay.neurons@[k].weights@),
                s[lay.neurons@[k].bias.i as int].val,
                xv,
            ),
    )
}

/// A parameter node of a well-formed layer lies inside the graph.
pub proof fn lemma_layer_owns_bounds(lay: Layer, s: Seq<Node>, j: int)
    requires
        lay.wf(s),
        lay.owns(j),
    ensures
        0 <= j < s.len(),
{
    let nn = choose|nn: int|
        0 <= nn < lay.neurons@.len() && (#[trigger] lay.neurons@[nn]).owns(j);
    assert(lay.neurons@[nn].wf(s));
    if j != lay.neurons@[nn].bias.i as int {
        let kk = choose|kk: int|
            0 <= kk < lay.neurons@[nn].weights@.len() && (#[trigger] lay.neurons@[nn].weights@[
            kk]).i as int == j;
        assert(lay.neurons@[nn].weights@[kk].i < s.len());
    }
}

/// A neuron keeps its well-formedness in any extension of the graph.
pub proof fn lemma_neuron_wf_prefix(n: Neuron, s1: Seq<Node>, s2: Seq<Node>)
    requires
        n.wf(s1),
        s1.len() <= s2.len(),
        forall|j: int| 0 <= j < s1.len() ==> (#[trigger] s2[j]) == s1[j],
    ensures
        n.wf(s2),
{
}

/// A neuron keeps its well-formedness when only node values change.
pub proof fn lemma_neuron_wf_same_ops(n: Neuron, s1: Seq<Node>, s2: Seq<Node>)
    requires
        n.wf(s1),
        s1.len() == s2.len(),
        forall|j: int| 0 <= j < s1.len() ==> (#[trigger] s2[j]).op == s1[j].op,
    ensures
        n.wf(s2),
{
}

impl Layer {
    /// Whether `j` is a parameter node of one of this layer's neurons.
    pub open spec fn owns(self, j: int) -> bool {
        exists|k: int| 0 <= k < self.neurons@.len() && (#[trigger] self.neurons@[k]).owns(j)
    }

    /// Every neuron is well formed and no two neurons share a
    /// parameter node.
    pub open spec fn wf(self, s: Seq<Node>) -> bool {
        &&& forall|k: int| 0 <= k < self.neurons@.len() ==> (#[trigger] self.neurons@[k]).wf(s)
        &&& forall|k1: int, k2: int, j: int|
            0 <= k1 < k2 < self.neurons@.len() && #[trigger] self.neurons@[k1].owns(j)
                ==> !(#[trigger] self.neurons@[k2].owns(j))
    }

    /// Every neuron takes the same number of inputs.
    pub open spec fn uniform(self, n_in: int) -> bool {
        forall|k: int|
            0 <= k < self.neurons@.len() ==> (#[trigger] self.neurons@[k]).weights@.len() == n_in
    }

    /// A layer of `outputs` independently initialized neurons over
    /// `inputs` inputs each.
    pub fn new(g: &mut Graph, inputs: usize, outputs: usize, rng: &mut StdRng) -> (lay: Layer)
        requires
            old(g)@.len() + outputs * (inputs + 1) <= usize::MAX,
        ensures
            lay.neurons@.len() == outputs,
            lay.uniform(inputs as int),
            lay.wf(final(g)@),
            final(g)@.len() == old(g)@.len() + outputs * (inputs + 1),
            forall|j: int| 0 <= j < old(g)@.len() ==> (#[trigger] final(g)@[j]) == old(g)@[j],
            forall|j: int| lay.owns(j) ==> old(g)@.len() <= j < final(g)@.len(),
            forall|j: int| lay.owns(j) ==> fresh_param(final(g)@, j),
            old(g).wf() ==> final(g).wf(),
    {
        let ghost g0: Seq<Node> = g@;
        let mut neurons: Vec<Neuron> = Vec::new();
        let mut k: usize = 0;
        while k < outputs
            invariant
                k <= outputs,
                neurons@.len() == k,
                g0.len() + outputs * (inputs + 1) <= usize::MAX,
                g@.len() == g0.len() + k * (inputs + 1),
                forall|j: int| 0 <= j < g0.len() ==> (#[trigger] g@[j]) == g0[j],
                forall|m: int|
                    0 <= m < k ==> (#[trigger] neurons@[m]).wf(g@) && neurons@[m].weights@.len()
                        == inputs,
                forall|m: int, j: int|
                    0 <= m < k && #[trigger] neurons@[m].owns(j) ==> g0.len() <= j < g@.len(),
                forall|m: int, j: int|
                    0 <= m < k && #[trigger] neurons@[m].owns(j) ==> fresh_param(g@, j),
                forall|m1: int, m2: int, j: int|
                    0 <= m1 < m2 < k && #[trigger] neurons@[m1].owns(j) ==> !(
                    #[trigger] neurons@[m2].owns(j)),
                old(g).wf() ==> g.wf(),
                old(g)@ == g0,
            decreases outputs - k,
        {
            proof {
                assert((k + 1) * (inputs + 1) <= outputs * (inputs + 1)) by (nonlinear_arith)
                    requires
                        0 <= k,
                        k + 1 <= outputs,
                        0 <= inputs,
                ;
                assert((k + 1) * (inputs + 1) == k * (inputs + 1) + (inputs + 1))
                    by (nonlinear_arith);
            }
            let ghost gpre: Seq<Node> = g@;
            let nu: Neuron = Neuron::new(g, inputs, rng);
            proof {
                assert forall|m: int| 0 <= m < k implies (#[trigger] neurons@[m]).wf(g@) by {
                    lemma_neuron_wf_prefix(neurons@[m], gpre, g@);
                }
                assert forall|m: int, j: int|
                    0 <= m < k && #[trigger] neurons@[m].owns(j) implies fresh_param(g@, j) by {
                    assert(g@[j] == gpre[j]);
                }
            }
            neurons.push(nu);
            k = k + 1;
        }
        Layer { neurons }
    }

    /// The layer's outputs on the given inputs: one fresh output node
    /// per neuron, all sharing the input nodes `xs`. Everything already
    /// in the graph is preserved, and each output carries the value
    /// `layer_eval` assigns it.
    pub fn calculate(&self, g: &mut Graph, xs: &Vec<Value>) -> (outs: Vec<Value>)
        requires
            self.wf(old(g)@),
            old(g).wf(),
            self.uniform(xs@.len() as int),
            forall|k: int| 0 <= k < xs@.len() ==> (#[trigger] xs@[k]).i < old(g)@.len(),
            old(g)@.len() + self.neurons@.len() * (2 * xs@.len() + 1) <= usize::MAX,
        ensures
            final(g).wf(),
            self.wf(final(g)@),
            final(g)@.len() == old(g)@.len() + self.neurons@.len() * (2 * xs@.len() + 1),
            outs@.len() == self.neurons@.len(),
            forall|m: int| 0 <= m < outs@.len() ==> (#[trigger] outs@[m]).i < final(g)@.len(),
            forall|m: int| 0 <= m < outs@.len() ==> old(g)@.len() <= (#[trigger] outs@[m]).i,
            forall|j: int| 0 <= j < old(g)@.len() ==> (#[trigger] final(g)@[j]) == old(g)@[j],
            vals_of(final(g)@, outs@) == layer_eval(old(g)@, *self, vals_of(old(g)@, xs@)),
            forall|m: int, k: int|
                0 <= m < outs@.len() && 0 <= k < self.neurons@[m].weights@.len() ==> reaches(
                    final(g)@,
                    (#[trigger] outs@[m]).i as int,
                    (#[trigger] self.neurons@[m].weights@[k]).i as int,
                ),
            forall|m: int|
                0 <= m < outs@.len() ==> reaches(
                    final(g)@,
                    (#[trigger] outs@[m]).i as int,
                    self.neurons@[m].bias.i as int,
                ),
            forall|m: int, k: int|
                0 <= m < outs@.len() && 0 <= k < xs@.len() ==> reaches(
                    final(g)@,
                    (#[trigger] outs@[m]).i as int,
                    (#[trigger] xs@[k]).i as int,
                ),
    {
        let ghost g0: Seq<Node> = g@;
        let ghost xv: Seq<u64> = vals_of(g0, xs@);
        let n: usize = xs.len();
        let total: usize = self.neurons.len();
        let mut outs: Vec<Value> = Vec::new();
        let mut m: usize = 0;
        while m < total
            invariant
                m <= total,
                total == self.neurons@.len(),
                n == xs@.len(),
                self.wf(g0),
                self.uniform(n as int),
                g.wf(),
                outs@.len() == m,
                g0.len() + total * (2 * n + 1) <= usize::MAX,
                g@.len() == g0.len() + m * (2 * n + 1),
                forall|j: int| 0 <= j < g0.len() ==> (#[trigger] g@[j]) == g0[j],
                forall|k: int| 0 <= k < n ==> (#[trigger] xs@[k]).i < g0.len(),
                forall|p: int|
                    0 <= p < m ==> (#[trigger] outs@[p]).i < g@.len() && g@[outs@[p].i as int].val
                        == neuron_eval(
                        vals_of(g0, self.neurons@[p].weights@),
                        g0[self.neurons@[p].bias.i as int].val,
                        xv,
                    ),
                forall|p: int| 0 <= p < m ==> g0.len() <= (#[trigger] outs@[p]).i,
                forall|p: int, kk: int|
                    0 <= p < m && 0 <= kk < self.neurons@[p].weights@.len() ==> reaches(
                        g@,
                        (#[trigger] outs@[p]).i as int,
                        (#[trigger] self.neurons@[p].weights@[kk]).i as int,
                    ),
                forall|p: int|
                    0 <= p < m ==> reaches(
                        g@,
                        (#[trigger] outs@[p]).i as int,
                        self.neurons@[p].bias.i as int,
                    ),
                forall|p: int, kk: int|
                    0 <= p < m && 0 <= kk < n ==> reaches(
                        g@,
                        (#[trigger] outs@[p]).i as int,
                        (#[trigger] xs@[kk]).i as int,
                    ),
                xv == vals_of(g0, xs@),
                old(g)@ == g0,
            decreases total - m,
        {
            proof {
                assert((m + 1) * (2 * n + 1) <= total * (2 * n + 1)) by (nonlinear_arith)
                    requires
                        0 <= m,
                        m + 1 <= total,
                        0 <= n,
                ;
                assert((m + 1) * (2 * n + 1) == m * (2 * n + 1) + (2 * n + 1)) by (nonlinear_arith);
            }
            let ghost gpre: Seq<Node> = g@;
            proof {
                lemma_neuron_wf_prefix(self.neurons@[m as int], g0, gpre);
            }
            let nref: &Neuron = &self.neurons[m];
            let out: Value = nref.calculate(g, xs);
            proof {
                lemma_vals_of_prefix(g0, gpre, self.neurons@[m as int].weights@);
                lemma_vals_of_prefix(g0, gpre, xs@);
                assert forall|p: int, kk: int|
                    0 <= p < m && 0 <= kk < self.neurons@[p].weights@.len() implies reaches(
                    g@,
                    (#[trigger] outs@[p]).i as int,
                    (#[trigger] self.neurons@[p].weights@[kk]).i as int,
                ) by {
                    let rt: int = outs@[p].i as int;
                    assert forall|q: int| 0 <= q <= rt implies (#[trigger] g@[q]).op
                        == gpre[q].op by {
                        assert(g@[q] == gpre[q]);
                    }
                    assert(self.neurons@[p].wf(g0));
                    lemma_reaches_same_ops(gpre, g@, rt, self.neurons@[p].weights@[kk].i as int);
                }
                assert forall|p: int| 0 <= p < m implies reaches(
                    g@,
                    (#[trigger] outs@[p]).i as int,
                    self.neurons@[p].bias.i as int,
                ) by {
                    let rt: int = outs@[p].i as int;
                    assert forall|q: int| 0 <= q <= rt implies (#[trigger] g@[q]).op
                        == gpre[q].op by {
                        assert(g@[q] == gpre[q]);
                    }
                    assert(self.neurons@[p].wf(g0));
                    lemma_reaches_same_ops(gpre, g@, rt, self.neurons@[p].bias.i as int);
                }
                assert forall|p: int, kk: int| 0 <= p < m && 0 <= kk < n implies reaches(
                    g@,
                    (#[trigger] outs@[p]).i as int,
                    (#[trigger] xs@[kk]).i as int,
                ) by {
                    let rt: int = outs@[p].i as int;
                    assert forall|q: int| 0 <= q <= rt implies (#[trigger] g@[q]).op
                        == gpre[q].op by {
                        assert(g@[q] == gpre[q]);
                    }
                    lemma_reaches_same_ops(gpre, g@, rt, xs@[kk].i as int);
                }
            }
            outs.push(out);
            m = m + 1;
        }
        proof {
            assert(vals_of(g@, outs@) =~= layer_eval(g0, *self, xv));
        }
        outs
    }

    /// One step of gradient descent on every parameter of every neuron
    /// of the layer; every other node is untouched.
    pub fn step(&self, g: &mut Graph, epsilon: u64)
        requires
            self.wf(old(g)@),
        ensures
            final(g)@.len() == old(g)@.len(),
            self.wf(final(g)@),
            forall|j: int|
                0 <= j < old(g)@.len() ==> (#[trigger] final(g)@[j]).op == old(g)@[j].op
                    && final(g)@[j].grad == old(g)@[j].grad,
            forall|j: int|
                0 <= j < old(g)@.len() && !self.owns(j) ==> (#[trigger] final(g)@[j])
                    == old(g)@[j],
            forall|ni: int, k: int|
                0 <= ni < self.neurons@.len() && 0 <= k < self.neurons@[ni].weights@.len()
                    ==> stepped(
                    old(g)@,
                    final(g)@,
                    (#[trigger] self.neurons@[ni].weights@[k]).i as int,
                    epsilon,
                ),
            forall|ni: int|
                0 <= ni < self.neurons@.len() ==> stepped(
                    old(g)@,
                    final(g)@,
                    (#[trigger] self.neurons@[ni]).bias.i as int,
                    epsilon,
                ),
            old(g).wf() ==> final(g).wf(),
    {
        let ghost g0: Seq<Node> = g@;
        let total: usize = self.neurons.len();
        let mut m: usize = 0;
        while m < total
            invariant
                m <= total,
                total == self.neurons@.len(),
                self.wf(g0),
                g@.len() == g0.len(),
                forall|j: int|
                    0 <= j < g0.len() ==> (#[trigger] g@[j]).op == g0[j].op && g@[j].grad
                        == g0[j].grad,
                forall|j: int|
                    0 <= j < g0.len() && !(exists|p: int|
                        0 <= p < m && (#[trigger] self.neurons@[p]).owns(j)) ==> (#[trigger] g@[j])
                        == g0[j],
                forall|p: int, k: int|
                    0 <= p < m && 0 <= k < self.neurons@[p].weights@.len() ==> stepped(
                        g0,
                        g@,
                        (#[trigger] self.neurons@[p].weights@[k]).i as int,
                        epsilon,
                    ),
                forall|p: int|
                    0 <= p < m ==> stepped(
                        g0,
                        g@,
                        (#[trigger] self.neurons@[p]).bias.i as int,
                        epsilon,
                    ),
                old(g)@ == g0,
            decreases total - m,
        {
            let ghost gpre: Seq<Node> = g@;
            proof {
                lemma_neuron_wf_same_ops(self.neurons@[m as int], g0, gpre);
                assert forall|j: int|
                    self.neurons@[m as int].owns(j) implies 0 <= j < g0.len() && (
                #[trigger] gpre[j]) == g0[j] by {
                    assert(self.neurons@[m as int].wf(g0));
                }
            }
            let nref: &Neuron = &self.neurons[m];
            nref.step(g, epsilon);
            m = m + 1;
        }
    }
}

} // verus!
