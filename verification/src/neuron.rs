//! A single neuron: a weighted sum of its inputs plus a bias, fed
//! through the hyperbolic tangent.
//!
//! Weights and bias are leaf nodes of the graph, sampled uniformly from
//! [-1, 1) at construction from an explicitly passed pseudo-random
//! source, so that initialization is reproducible.

use vstd::prelude::*;
use rand::Rng;
use rand::rngs::StdRng;
use crate::arith::add64;
use crate::arith::mul64;
use crate::arith::mul_bits;
use crate::arith::sub64;
use crate::arith::sub_bits;
use crate::arith::tanh64;
use crate::bits::THREE_BITS;
use crate::bits::TWO_BITS;
use crate::bits::ZERO_BITS;
use crate::value::Graph;
use crate::value::Node;
use crate::value::Op;
use crate::value::Value;
use crate::value::lemma_reaches_operand;
use crate::value::lemma_reaches_same_ops;
use crate::value::lemma_reaches_trans;
use crate::value::reaches;
use crate::value::stepped;
use crate::value::vals_of;

verus! {

#[verifier::external_type_specification]
#[verifier::external_body]
pub struct ExStdRng(StdRng);

/// Relies on rand's `StdRng::next_u64` for one pseudo-random 64-bit
/// sample; nothing is assumed of the value drawn.
#[verifier::external_body]
fn draw(rng: &mut StdRng) -> u64 {
    rng.next_u64()
}

/// What a freshly sampled parameter value looks like: `2u - 3` in the
/// engine's arithmetic, for some `u` whose sign bit is clear and whose
/// exponent field is 0x3FF — a binary64 number in [1, 2) — so the
/// sample lies in [-1, 1).
pub open spec fn unit_sample(r: u64) -> bool {
    exists|u: u64| #[trigger] (u >> 52u64) == 0x3FF && r == sub64(mul64(u, TWO_BITS), THREE_BITS)
}

/// A pattern drawn uniformly from [-1, 1): 52 random bits fill the
/// fraction of a number in [1, 2), which is mapped through `2u - 3`.
fn random_unit(rng: &mut StdRng) -> (r: u64)
    ensures
        unit_sample(r),
{
    let k: u64 = draw(rng);
    let u: u64 = 0x3FF0_0000_0000_0000u64 | (k >> 12u64);
    proof {
        assert((0x3FF0_0000_0000_0000u64 | (k >> 12u64)) >> 52u64 == 0x3FF) by (bit_vector);
    }
    sub_bits(mul_bits(u, TWO_BITS), THREE_BITS)
}

/// A freshly created parameter leaf: a `Constant` node whose gradient
/// accumulator starts at zero and whose value is a unit sample.
pub open spec fn fresh_param(s: Seq<Node>, j: int) -> bool {
    s[j].op == Op::Constant && s[j].grad == ZERO_BITS && unit_sample(s[j].val)
}

/// The left-to-right fold of the first `k` products `w_i * x_i` onto an
/// accumulator that starts at the bias.
pub open spec fn wsum(wv: Seq<u64>, xv: Seq<u64>, b: u64, k: int) -> u64
    decreases k
    when 0 <= k <= wv.len()
{
    if k == 0 {
        b
    } else {
        add64(wsum(wv, xv, b, k - 1), mul64(wv[k - 1], xv[k - 1]))
    }
}

/// A neuron's output value: `tanh(bias + sum of w_i * x_i)`, folded
/// left to right starting from the bias.
pub open spec fn neuron_eval(wv: Seq<u64>, b: u64, xv: Seq<u64>) -> u64 {
    tanh64(wsum(wv, xv, b, wv.len() as int))
}

/// One neuron: `n` weight leaves and one bias leaf.
pub struct Neuron {
    pub weights: Vec<Value>,
    pub bias: Value,
}

impl Neuron {
    /// Whether `j` is one of this neuron's parameter nodes.
    pub open spec fn owns(self, j: int) -> bool {
        j == self.bias.i as int || exists|k: int|
            0 <= k < self.weights@.len() && (#[trigger] self.weights@[k]).i as int == j
    }

    /// The parameters point at distinct leaf nodes of `s`.
    pub open spec fn wf(self, s: Seq<Node>) -> bool {
        &&& forall|k: int|
            0 <= k < self.weights@.len() ==> (#[trigger] self.weights@[k]).i < s.len() && s[
            self.weights@[k].i as int].op == Op::Constant
        &&& self.bias.i < s.len()
        &&& s[self.bias.i as int].op == Op::Constant
        &&& forall|k1: int, k2: int|
            0 <= k1 < k2 < self.weights@.len() ==> (#[trigger] self.weights@[k1]).i != (
            #[trigger] self.weights@[k2]).i
        &&& forall|k: int|
            0 <= k < self.weights@.len() ==> (#[trigger] self.weights@[k]).i != self.bias.i
    }

    /// A neuron over `inputs` inputs, each weight and the bias sampled
    /// uniformly from [-1, 1). The fresh leaves are appended to `g`;
    /// nothing below them changes.
    pub fn new(g: &mut Graph, inputs: usize, rng: &mut StdRng) -> (n: Neuron)
        requires
            old(g)@.len() + inputs + 1 <= usize::MAX,
        ensures
            n.wf(final(g)@),
            n.weights@.len() == inputs,
            final(g)@.len() == old(g)@.len() + inputs + 1,
            forall|j: int| 0 <= j < old(g)@.len() ==> (#[trigger] final(g)@[j]) == old(g)@[j],
            forall|j: int| n.owns(j) ==> old(g)@.len() <= j < final(g)@.len(),
            forall|j: int| n.owns(j) ==> fresh_param(final(g)@, j),
            old(g).wf() ==> final(g).wf(),
    {
        let ghost g0: Seq<Node> = g@;
        let mut weights: Vec<Value> = Vec::new();
        let mut k: usize = 0;
        while k < inputs
            invariant
                k <= inputs,
                g0.len() + inputs + 1 <= usize::MAX,
                g@.len() == g0.len() + k,
                weights@.len() == k,
                forall|j: int| 0 <= j < g0.len() ==> (#[trigger] g@[j]) == g0[j],
                forall|m: int|
                    0 <= m < k ==> (#[trigger] weights@[m]).i == g0.len() + m && fresh_param(
                        g@,
                        weights@[m].i as int,
                    ),
                old(g).wf() ==> g.wf(),
                old(g)@ == g0,
            decreases inputs - k,
        {
            let wb: u64 = random_unit(rng);
            let v: Value = Value::constant(g, wb);
            weights.push(v);
            k = k + 1;
        }
        let bb: u64 = random_unit(rng);
        let bias: Value = Value::constant(g, bb);
        Neuron { weights, bias }
    }

    /// The neuron's output on the given inputs: a fresh node holding
    /// `tanh(bias + sum of w_i * x_i)`, the sum built left to right as
    /// new graph nodes. Everything already in the graph is preserved.
    pub fn calculate(&self, g: &mut Graph, xs: &Vec<Value>) -> (out: Value)
        requires
            self.wf(old(g)@),
            old(g).wf(),
            xs@.len() == self.weights@.len(),
            forall|k: int| 0 <= k < xs@.len() ==> (#[trigger] xs@[k]).i < old(g)@.len(),
            old(g)@.len() + 2 * xs@.len() + 1 <= usize::MAX,
        ensures
            final(g).wf(),
            self.wf(final(g)@),
            out.valid(*final(g)),
            final(g)@.len() == old(g)@.len() + 2 * xs@.len() + 1,
            forall|j: int| 0 <= j < old(g)@.len() ==> (#[trigger] final(g)@[j]) == old(g)@[j],
            final(g)@[out.i as int].val == neuron_eval(
                vals_of(old(g)@, self.weights@),
                old(g)@[self.bias.i as int].val,
                vals_of(old(g)@, xs@),
            ),
            old(g)@.len() <= out.i,
            reaches(final(g)@, out.i as int, self.bias.i as int),
            forall|k: int|
                0 <= k < self.weights@.len() ==> reaches(
                    final(g)@,
                    out.i as int,
                    (#[trigger] self.weights@[k]).i as int,
                ),
            forall|k: int|
                0 <= k < xs@.len() ==> reaches(
                    final(g)@,
                    out.i as int,
                    (#[trigger] xs@[k]).i as int,
                ),
    {
        let ghost g0: Seq<Node> = g@;
        let ghost wv: Seq<u64> = vals_of(g0, self.weights@);
        let ghost xv: Seq<u64> = vals_of(g0, xs@);
        let ghost b0: u64 = g0[self.bias.i as int].val;
        let n: usize = xs.len();
        let mut acc: Value = self.bias;
        let mut k: usize = 0;
        proof {
            assert(reaches(g@, self.bias.i as int, self.bias.i as int));
        }
        while k < n
            invariant
                k <= n,
                n == xs@.len(),
                n == self.weights@.len(),
                self.wf(g0),
                g0.len() + 2 * n + 1 <= usize::MAX,
                g@.len() == g0.len() + 2 * k,
                g.wf(),
                forall|j: int| 0 <= j < g0.len() ==> (#[trigger] g@[j]) == g0[j],
                forall|m: int| 0 <= m < n ==> (#[trigger] xs@[m]).i < g0.len(),
                acc.i < g@.len(),
                if k == 0 {
                    acc == self.bias
                } else {
                    g0.len() <= acc.i
                },
                reaches(g@, acc.i as int, self.bias.i as int),
                forall|m: int|
                    0 <= m < k ==> reaches(
                        g@,
                        acc.i as int,
                        (#[trigger] self.weights@[m]).i as int,
                    ),
                forall|m: int|
                    0 <= m < k ==> reaches(g@, acc.i as int, (#[trigger] xs@[m]).i as int),
                g@[acc.i as int].val == wsum(wv, xv, b0, k as int),
                wv == vals_of(g0, self.weights@),
                xv == vals_of(g0, xs@),
                b0 == g0[self.bias.i as int].val,
            decreases n - k,
        {
            let ghost gpre: Seq<Node> = g@;
            let ghost ai: int = acc.i as int;
            let prod: Value = self.weights[k].mul(g, xs[k]);
            let nxt: Value = acc.add(g, prod);
            proof {
                assert(wv[k as int] == g0[self.weights@[k as int].i as int].val);
                assert(xv[k as int] == g0[xs@[k as int].i as int].val);
                let pa: int = prod.i as int;
                let na: int = nxt.i as int;
                let wi: int = self.weights@[k as int].i as int;
                let xi: int = xs@[k as int].i as int;
                assert forall|p: int| 0 <= p <= ai implies (#[trigger] g@[p]).op
                    == gpre[p].op by {
                    assert(g@[p] == gpre[p]);
                }
                assert(g@[pa].op == Op::Mul(self.weights@[k as int].i, xs@[k as int].i));
                assert(g@[na].op == Op::Add(acc.i, prod.i));
                lemma_reaches_operand(g@, na, ai);
                lemma_reaches_operand(g@, na, pa);
                lemma_reaches_operand(g@, pa, wi);
                lemma_reaches_operand(g@, pa, xi);
                lemma_reaches_trans(g@, na, pa, wi);
                lemma_reaches_trans(g@, na, pa, xi);
                assert(reaches(g@, na, self.bias.i as int)) by {
                    lemma_reaches_same_ops(gpre, g@, ai, self.bias.i as int);
                    lemma_reaches_trans(g@, na, ai, self.bias.i as int);
                }
                assert forall|m: int| 0 <= m < k + 1 implies reaches(
                    g@,
                    na,
                    (#[trigger] self.weights@[m]).i as int,
                ) by {
                    if m < k {
                        lemma_reaches_same_ops(gpre, g@, ai, self.weights@[m].i as int);
                        lemma_reaches_trans(g@, na, ai, self.weights@[m].i as int);
                    }
                }
                assert forall|m: int| 0 <= m < k + 1 implies reaches(
                    g@,
                    na,
                    (#[trigger] xs@[m]).i as int,
                ) by {
                    if m < k {
                        lemma_reaches_same_ops(gpre, g@, ai, xs@[m].i as int);
                        lemma_reaches_trans(g@, na, ai, xs@[m].i as int);
                    }
                }
            }
            acc = nxt;
            k = k + 1;
        }
        let ghost gl: Seq<Node> = g@;
        let ghost ai: int = acc.i as int;
        let out: Value = acc.tanh(g);
        proof {
            let oa: int = out.i as int;
            assert forall|p: int| 0 <= p <= ai implies (#[trigger] g@[p]).op == gl[p].op by {
                assert(g@[p] == gl[p]);
            }
            assert(g@[oa].op == Op::Tanh(acc.i));
            lemma_reaches_operand(g@, oa, ai);
            assert(reaches(g@, oa, self.bias.i as int)) by {
                lemma_reaches_same_ops(gl, g@, ai, self.bias.i as int);
                lemma_reaches_trans(g@, oa, ai, self.bias.i as int);
            }
            assert forall|m: int| 0 <= m < self.weights@.len() implies reaches(
                g@,
                oa,
                (#[trigger] self.weights@[m]).i as int,
            ) by {
                lemma_reaches_same_ops(gl, g@, ai, self.weights@[m].i as int);
                lemma_reaches_trans(g@, oa, ai, self.weights@[m].i as int);
            }
            assert forall|m: int| 0 <= m < xs@.len() implies reaches(
                g@,
                oa,
                (#[trigger] xs@[m]).i as int,
            ) by {
                lemma_reaches_same_ops(gl, g@, ai, xs@[m].i as int);
                lemma_reaches_trans(g@, oa, ai, xs@[m].i as int);
            }
        }
        out
    }

    /// One step of gradient descent on every parameter of the neuron:
    /// each weight leaf and the bias leaf has `epsilon * gradient`
    /// subtracted from its value; every other node is untouched.
    pub fn step(&self, g: &mut Graph, epsilon: u64)
        requires
            self.wf(old(g)@),
        ensures
            final(g)@.len() == old(g)@.len(),
            self.wf(final(g)@),
            forall|j: int|
                0 <= j < old(g)@.len() ==> (#[trigger] final(g)@[j]).op == old(g)@[j].op
                    && final(g)@[j].grad == old(g)@[j].grad,
            forall|j: int|
                0 <= j < old(g)@.len() && !self.owns(j) ==> (#[trigger] final(g)@[j])
                    == old(g)@[j],
            forall|k: int|
                0 <= k < self.weights@.len() ==> stepped(
                    old(g)@,
                    final(g)@,
                    (#[trigger] self.weights@[k]).i as int,
                    epsilon,
                ),
            stepped(old(g)@, final(g)@, self.bias.i as int, epsilon),
            old(g).wf() ==> final(g).wf(),
    {
        let ghost g0: Seq<Node> = g@;
        let n: usize = self.weights.len();
        let mut k: usize = 0;
        while k < n
            invariant
                k <= n,
                n == self.weights@.len(),
                self.wf(g0),
                g@.len() == g0.len(),
                forall|j: int|
                    0 <= j < g0.len() ==> (#[trigger] g@[j]).op == g0[j].op && g@[j].grad
                        == g0[j].grad,
                forall|j: int|
                    0 <= j < g0.len() && !(exists|m: int|
                        0 <= m < k && (#[trigger] self.weights@[m]).i as int == j) ==> (
                    #[trigger] g@[j]) == g0[j],
                forall|m: int|
                    0 <= m < k ==> stepped(g0, g@, (#[trigger] self.weights@[m]).i as int, epsilon),
            decreases n - k,
        {
            let w: Value = self.weights[k];
            proof {
                assert(g@[w.i as int] == g0[w.i as int]);
            }
            w.step(g, epsilon);
            k = k + 1;
        }
        proof {
            assert(g@[self.bias.i as int] == g0[self.bias.i as int]);
        }
        self.bias.step(g, epsilon);
    }
}

} // verus!
