//! The computation graph and its backward pass.
//!
//! Nodes live in an append-only arena; a `Value` is a stable index into
//! it. Every operand was created strictly before the node that uses it,
//! so the graph is acyclic and index order is a topological order. The
//! backward pass walks the arena from the root downwards — a reverse
//! topological order — so that a node's gradient is complete before the
//! node propagates it to its operands, and it accumulates (never
//! overwrites) the contribution of every path from the root.

use vstd::prelude::*;
use crate::arith::add64;
use crate::arith::add_bits;
use crate::arith::div_bits;
use crate::arith::exp_bits;
use crate::arith::mul64;
use crate::arith::mul_bits;
use crate::arith::pow64;
use crate::arith::pow_bits;
use crate::arith::sub64;
use crate::arith::sub_bits;
use crate::arith::tanh64;
use crate::bits::ONE_BITS;
use crate::bits::TWO_BITS;
use crate::bits::ZERO_BITS;

verus! {

/// How a node was derived: a leaf, or an operation over earlier nodes,
/// held by arena index. The exponent of `Pow` is a plain bit pattern,
/// not a node: it never receives a gradient.
#[derive(Clone, Copy, PartialEq, Eq, Structural, Debug)]
pub enum Op {
    Constant,
    Add(usize, usize),
    Sub(usize, usize),
    Mul(usize, usize),
    Pow(usize, u64),
    Tanh(usize),
}

/// One scalar of the computation graph: its binary64 value, its
/// accumulated gradient, and its derivation.
#[derive(Clone, Copy, PartialEq, Eq, Structural, Debug)]
pub struct Node {
    pub val: u64,
    pub grad: u64,
    pub op: Op,
}

/// The arena that holds a computation graph.
pub struct Graph {
    nodes: Vec<Node>,
}

/// A handle on one node of a `Graph`.
#[derive(Clone, Copy, PartialEq, Eq, Structural, Debug)]
pub struct Value {
    pub i: usize,
}

impl View for Graph {
    type V = Seq<Node>;

    closed spec fn view(&self) -> Seq<Node> {
        self.nodes@
    }
}

/// Whether `j` is an operand of `op`.
pub open spec fn is_operand(op: Op, j: int) -> bool {
    match op {
        Op::Constant => false,
        Op::Add(l, r) => l == j || r == j,
        Op::Sub(l, r) => l == j || r == j,
        Op::Mul(l, r) => l == j || r == j,
        Op::Pow(b, _e) => b == j,
        Op::Tanh(a) => a == j,
    }
}

/// Whether every operand of `op` was created before position `i`.
pub open spec fn op_bounded(op: Op, i: int) -> bool {
    match op {
        Op::Constant => true,
        Op::Add(l, r) => l < i && r < i,
        Op::Sub(l, r) => l < i && r < i,
        Op::Mul(l, r) => l < i && r < i,
        Op::Pow(b, _e) => b < i,
        Op::Tanh(a) => a < i,
    }
}

impl Graph {
    /// Acyclicity: operands always point strictly backwards.
    pub open spec fn wf(self) -> bool {
        forall|i: int|
            0 <= i < self@.len() ==> op_bounded(#[trigger] self@[i].op, i)
    }
}

impl Value {
    /// The handle points into the graph.
    pub open spec fn valid(self, g: Graph) -> bool {
        self.i < g@.len()
    }
}

/// The values carried by a sequence of handles, read in `s`.
pub open spec fn vals_of(s: Seq<Node>, vs: Seq<Value>) -> Seq<u64> {
    Seq::new(vs.len(), |k: int| s[vs[k].i as int].val)
}

/// Whether position `j` of `s1` holds the node of `s0` after one step
/// of gradient descent with rate `eps`: `value -= eps * gradient`, with
/// gradient and derivation kept.
pub open spec fn stepped(s0: Seq<Node>, s1: Seq<Node>, j: int, eps: u64) -> bool {
    s1[j] == (Node {
        val: sub64(s0[j].val, mul64(eps, s0[j].grad)),
        grad: s0[j].grad,
        op: s0[j].op,
    })
}

/// Reading values through handles that point below `s1`'s length gives
/// the same in any extension of `s1`.
pub proof fn lemma_vals_of_prefix(s1: Seq<Node>, s2: Seq<Node>, vs: Seq<Value>)
    requires
        s1.len() <= s2.len(),
        forall|j: int| 0 <= j < s1.len() ==> (#[trigger] s2[j]) == s1[j],
        forall|k: int| 0 <= k < vs.len() ==> (#[trigger] vs[k]).i < s1.len(),
    ensures
        vals_of(s1, vs) == vals_of(s2, vs),
{
    assert(vals_of(s1, vs) =~= vals_of(s2, vs));
}

/// The graph at the start of a backward pass from `root`: as it stood,
/// with the root's gradient overwritten by the seed `d root / d root = 1`.
pub open spec fn seeded(s: Seq<Node>, root: int) -> Seq<Node> {
    s.update(root, Node { val: s[root].val, grad: ONE_BITS, op: s[root].op })
}

/// Whether node `j` is reachable from `root` along operand edges, within
/// `s`. Operands point backwards, so any step goes to a smaller index.
pub open spec fn reaches(s: Seq<Node>, root: int, j: int) -> bool
    decreases root - j
    when 0 <= j <= root
{
    j == root || exists|p: int|
        j < p <= root && #[trigger] is_operand(s[p].op, j) && reaches(s, root, p)
}

/// Whether `j` is the head of some operand edge out of a reachable node
/// at position `k` or later. `reaches_from(s, root, j, j + 1)` is
/// exactly `reaches(s, root, j)` for `j < root`.
pub open spec fn reaches_from(s: Seq<Node>, root: int, j: int, k: int) -> bool {
    j == root || exists|p: int|
        k <= p <= root && #[trigger] is_operand(s[p].op, j) && reaches(s, root, p)
}

/// Reachability reads only derivations: two graphs whose nodes up to
/// `root` carry the same operations agree on what `root` reaches. In
/// particular, reachability survives appending nodes, seeding a
/// gradient, and stepping values.
pub proof fn lemma_reaches_same_ops(s1: Seq<Node>, s2: Seq<Node>, root: int, j: int)
    requires
        0 <= j <= root,
        forall|p: int| 0 <= p <= root ==> (#[trigger] s1[p]).op == s2[p].op,
    ensures
        reaches(s1, root, j) == reaches(s2, root, j),
    decreases root - j,
{
    if j != root {
        if reaches(s1, root, j) {
            let p = choose|p: int|
                j < p <= root && #[trigger] is_operand(s1[p].op, j) && reaches(s1, root, p);
            lemma_reaches_same_ops(s1, s2, root, p);
            assert(j < p <= root && is_operand(s2[p].op, j) && reaches(s2, root, p));
        }
        if reaches(s2, root, j) {
            let p = choose|p: int|
                j < p <= root && #[trigger] is_operand(s2[p].op, j) && reaches(s2, root, p);
            lemma_reaches_same_ops(s1, s2, root, p);
            assert(j < p <= root && is_operand(s1[p].op, j) && reaches(s1, root, p));
        }
    }
}

/// Any operand of the root itself is reachable from the root.
pub proof fn lemma_reaches_operand(s: Seq<Node>, root: int, j: int)
    requires
        0 <= j < root,
        is_operand(s[root].op, j),
    ensures
        reaches(s, root, j),
{
    assert(reaches(s, root, root));
    assert(j < root <= root && is_operand(s[root].op, j) && reaches(s, root, root));
}

/// Reachability composes: what a reachable node reaches, the root
/// reaches too.
pub proof fn lemma_reaches_trans(s: Seq<Node>, root: int, mid: int, j: int)
    requires
        0 <= j <= mid <= root,
        reaches(s, root, mid),
        reaches(s, mid, j),
    ensures
        reaches(s, root, j),
    decreases mid - j,
{
    if j != mid {
        let p = choose|p: int|
            j < p <= mid && #[trigger] is_operand(s[p].op, j) && reaches(s, mid, p);
        lemma_reaches_trans(s, root, mid, p);
        assert(j < p <= root && is_operand(s[p].op, j) && reaches(s, root, p));
    }
}

/// One parent's update of operand `j`'s gradient accumulator: the local
/// derivative rule of the parent's operation, applied to the parent's
/// own (final) gradient `gp`. When both operand slots point at `j`, the
/// left contribution lands before the right one.
pub open spec fn apply_parent(s: Seq<Node>, p: int, j: int, gp: u64, acc: u64) -> u64 {
    match s[p].op {
        Op::Constant => acc,
        Op::Add(l, r) => {
            let a1 = if l == j { add64(acc, gp) } else { acc };
            if r == j { add64(a1, gp) } else { a1 }
        },
        Op::Sub(l, r) => {
            let a1 = if l == j { add64(acc, gp) } else { acc };
            if r == j { sub64(a1, gp) } else { a1 }
        },
        Op::Mul(l, r) => {
            let a1 = if l == j { add64(acc, mul64(gp, s[r as int].val)) } else { acc };
            if r == j { add64(a1, mul64(gp, s[l as int].val)) } else { a1 }
        },
        Op::Pow(b, e) => {
            if b == j {
                add64(acc, mul64(mul64(gp, e), pow64(s[b as int].val, sub64(e, ONE_BITS))))
            } else {
                acc
            }
        },
        Op::Tanh(a) => {
            if a == j {
                add64(acc, mul64(gp, sub64(ONE_BITS, mul64(s[p].val, s[p].val))))
            } else {
                acc
            }
        },
    }
}

/// The gradient of node `j` once the backward scan has processed the
/// reachable nodes from `root` down to `k`: the seeded gradient of `j`,
/// with the contribution of every reachable parent in `[k, root]`
/// folded in, highest parent first.
pub open spec fn bgrad_partial(s: Seq<Node>, root: int, j: int, k: int) -> u64
    decreases root - j, root + 1 - k
    when 0 <= j < k <= root + 1
{
    if k > root {
        s[j].grad
    } else {
        let acc = bgrad_partial(s, root, j, k + 1);
        if reaches(s, root, k) {
            apply_parent(s, k, j, bgrad_partial(s, root, k, k + 1), acc)
        } else {
            acc
        }
    }
}

/// The gradient of node `j` after a complete backward pass from `root`
/// over the seeded graph `s`.
pub open spec fn bgrad(s: Seq<Node>, root: int, j: int) -> u64 {
    bgrad_partial(s, root, j, j + 1)
}

/// `reaches` and `reaches_from` agree where the latter starts right
/// above `j`: operand edges out of positions `j` and below cannot point
/// at `j`.
proof fn lemma_reaches_from(s: Seq<Node>, root: int, j: int)
    requires
        0 <= j <= root,
    ensures
        reaches(s, root, j) == reaches_from(s, root, j, j + 1),
{
    if j != root {
        if reaches(s, root, j) {
            let p = choose|p: int|
                j < p <= root && #[trigger] is_operand(s[p].op, j) && reaches(s, root, p);
            assert(j + 1 <= p <= root && is_operand(s[p].op, j) && reaches(s, root, p));
        }
        if reaches_from(s, root, j, j + 1) {
            let p = choose|p: int|
                j + 1 <= p <= root && #[trigger] is_operand(s[p].op, j) && reaches(s, root, p);
            assert(j < p <= root && is_operand(s[p].op, j) && reaches(s, root, p));
        }
    }
}

/// Peels position `k` off the range of `reaches_from`.
proof fn lemma_reaches_from_step(s: Seq<Node>, root: int, j: int, k: int)
    requires
        0 <= k <= root,
    ensures
        reaches_from(s, root, j, k) == (reaches_from(s, root, j, k + 1) || (is_operand(
            s[k].op,
            j,
        ) && reaches(s, root, k))),
{
    if j != root {
        if reaches_from(s, root, j, k) {
            let p = choose|p: int|
                k <= p <= root && #[trigger] is_operand(s[p].op, j) && reaches(s, root, p);
            if p == k {
                assert(is_operand(s[k].op, j) && reaches(s, root, k));
            } else {
                assert(k + 1 <= p <= root && is_operand(s[p].op, j) && reaches(s, root, p));
            }
        }
        if reaches_from(s, root, j, k + 1) {
            let p = choose|p: int|
                k + 1 <= p <= root && #[trigger] is_operand(s[p].op, j) && reaches(s, root, p);
            assert(k <= p <= root && is_operand(s[p].op, j) && reaches(s, root, p));
        }
        if is_operand(s[k].op, j) && reaches(s, root, k) {
            assert(k <= k <= root && is_operand(s[k].op, j) && reaches(s, root, k));
        }
    }
}

impl Graph {
    /// An empty graph.
    pub fn new() -> (g: Graph)
        ensures
            g@ =~= Seq::<Node>::empty(),
            g.wf(),
    {
        Graph { nodes: Vec::new() }
    }

    /// How many nodes the graph holds.
    pub fn len(&self) -> (n: usize)
        ensures
            n == self@.len(),
    {
        self.nodes.len()
    }

    /// Appends a node carrying `val`, derived by `op`, with a zero
    /// gradient accumulator.
    fn push_node(&mut self, val: u64, op: Op) -> (v: Value)
        requires
            old(self)@.len() < usize::MAX,
        ensures
            final(self)@ =~= old(self)@.push(Node { val: val, grad: ZERO_BITS, op: op }),
            v.i == old(self)@.len(),
    {
        let i: usize = self.nodes.len();
        self.nodes.push(Node { val: val, grad: ZERO_BITS, op: op });
        Value { i }
    }
}

impl Value {
    /// A fresh leaf node holding `x`. Leaves carry the trainable
    /// parameters and the inputs of a network.
    pub fn constant(g: &mut Graph, x: u64) -> (v: Value)
        requires
            old(g)@.len() < usize::MAX,
        ensures
            final(g)@ =~= old(g)@.push(Node { val: x, grad: ZERO_BITS, op: Op::Constant }),
            v.i == old(g)@.len(),
            v.valid(*final(g)),
            old(g).wf() ==> final(g).wf(),
    {
        g.push_node(x, Op::Constant)
    }

    /// The node's binary64 value, as bits.
    pub fn value(self, g: &Graph) -> (r: u64)
        requires
            self.valid(*g),
        ensures
            r == g@[self.i as int].val,
    {
        g.nodes[self.i].val
    }

    /// The node's accumulated gradient, as bits. It reads as zero until
    /// a backward pass from a root above this node has run.
    pub fn gradient(self, g: &Graph) -> (r: u64)
        requires
            self.valid(*g),
        ensures
            r == g@[self.i as int].grad,
    {
        g.nodes[self.i].grad
    }

    /// A new node holding the sum of `self` and `rhs`.
    pub fn add(self, g: &mut Graph, rhs: Value) -> (v: Value)
        requires
            self.valid(*old(g)),
            rhs.valid(*old(g)),
            old(g)@.len() < usize::MAX,
        ensures
            final(g)@ =~= old(g)@.push(
                (Node {
                    val: add64(old(g)@[self.i as int].val, old(g)@[rhs.i as int].val),
                    grad: ZERO_BITS,
                    op: Op::Add(self.i, rhs.i),
                }),
            ),
            v.i == old(g)@.len(),
            v.valid(*final(g)),
            old(g).wf() ==> final(g).wf(),
    {
        let val: u64 = add_bits(g.nodes[self.i].val, g.nodes[rhs.i].val);
        g.push_node(val, Op::Add(self.i, rhs.i))
    }

    /// A new node holding the difference of `self` and `rhs`.
    pub fn sub(self, g: &mut Graph, rhs: Value) -> (v: Value)
        requires
            self.valid(*old(g)),
            rhs.valid(*old(g)),
            old(g)@.len() < usize::MAX,
        ensures
            final(g)@ =~= old(g)@.push(
                (Node {
                    val: sub64(old(g)@[self.i as int].val, old(g)@[rhs.i as int].val),
                    grad: ZERO_BITS,
                    op: Op::Sub(self.i, rhs.i),
                }),
            ),
            v.i == old(g)@.len(),
            v.valid(*final(g)),
            old(g).wf() ==> final(g).wf(),
    {
        let val: u64 = sub_bits(g.nodes[self.i].val, g.nodes[rhs.i].val);
        g.push_node(val, Op::Sub(self.i, rhs.i))
    }

    /// A new node holding the product of `self` and `rhs`.
    pub fn mul(self, g: &mut Graph, rhs: Value) -> (v: Value)
        requires
            self.valid(*old(g)),
            rhs.valid(*old(g)),
            old(g)@.len() < usize::MAX,
        ensures
            final(g)@ =~= old(g)@.push(
                (Node {
                    val: mul64(old(g)@[self.i as int].val, old(g)@[rhs.i as int].val),
                    grad: ZERO_BITS,
                    op: Op::Mul(self.i, rhs.i),
                }),
            ),
            v.i == old(g)@.len(),
            v.valid(*final(g)),
            old(g).wf() ==> final(g).wf(),
    {
        let val: u64 = mul_bits(g.nodes[self.i].val, g.nodes[rhs.i].val);
        g.push_node(val, Op::Mul(self.i, rhs.i))
    }

    /// A new node holding `self` raised to the fixed exponent bits
    /// `exponent`. The exponent is not a node and never receives a
    /// gradient.
    pub fn pow(self, g: &mut Graph, exponent: u64) -> (v: Value)
        requires
            self.valid(*old(g)),
            old(g)@.len() < usize::MAX,
        ensures
            final(g)@ =~= old(g)@.push(
                (Node {
                    val: pow64(old(g)@[self.i as int].val, exponent),
                    grad: ZERO_BITS,
                    op: Op::Pow(self.i, exponent),
                }),
            ),
            v.i == old(g)@.len(),
            v.valid(*final(g)),
            old(g).wf() ==> final(g).wf(),
    {
        let val: u64 = pow_bits(g.nodes[self.i].val, exponent);
        g.push_node(val, Op::Pow(self.i, exponent))
    }

    /// A new node holding the hyperbolic tangent of `self`, computed
    /// through the exponential: with `E = exp(2x)`, the value is
    /// `(E - 1) / (E + 1)`.
    pub fn tanh(self, g: &mut Graph) -> (v: Value)
        requires
            self.valid(*old(g)),
            old(g)@.len() < usize::MAX,
        ensures
            final(g)@ =~= old(g)@.push(
                (Node {
                    val: tanh64(old(g)@[self.i as int].val),
                    grad: ZERO_BITS,
                    op: Op::Tanh(self.i),
                }),
            ),
            v.i == old(g)@.len(),
            v.valid(*final(g)),
            old(g).wf() ==> final(g).wf(),
    {
        let x: u64 = g.nodes[self.i].val;
        let ebits: u64 = exp_bits(mul_bits(x, TWO_BITS));
        let val: u64 = div_bits(sub_bits(ebits, ONE_BITS), add_bits(ebits, ONE_BITS));
        g.push_node(val, Op::Tanh(self.i))
    }

    /// The backward pass: seeds this node's gradient with 1 and walks
    /// the arena from here downwards — a reverse topological order — so
    /// that every node's gradient is complete before the node hands it
    /// on, adding each reachable parent's contribution into its
    /// operands' accumulators. Gradients of nodes outside this node's
    /// subgraph are left untouched; gradients inside it accumulate on
    /// top of whatever they held, so a fresh pass needs fresh (or
    /// explicitly zeroed) accumulators.
    pub fn backward(self, g: &mut Graph)
        requires
            old(g).wf(),
            self.valid(*old(g)),
        ensures
            final(g).wf(),
            final(g)@.len() == old(g)@.len(),
            forall|j: int|
                0 <= j < old(g)@.len() ==> (#[trigger] final(g)@[j]).val == old(g)@[j].val
                    && final(g)@[j].op == old(g)@[j].op,
            forall|j: int|
                0 <= j <= self.i ==> (#[trigger] final(g)@[j]).grad == bgrad(
                    seeded(old(g)@, self.i as int),
                    self.i as int,
                    j,
                ),
            forall|j: int|
                self.i < j < old(g)@.len() ==> (#[trigger] final(g)@[j]).grad == old(g)@[j].grad,
    {
        let root: usize = self.i;
        let total: usize = g.nodes.len();
        let ghost rt: int = root as int;
        let ghost s0: Seq<Node> = seeded(old(g)@, rt);
        proof {
            assert(root < total);
        }
        g.nodes[root].grad = ONE_BITS;
        proof {
            assert(g@ =~= s0);
        }
        let mut marked: Vec<bool> = Vec::new();
        let mut t: usize = 0;
        while t < root
            invariant
                marked@.len() == t,
                t <= root,
                forall|j: int| 0 <= j < t ==> (#[trigger] marked@[j]) == false,
            decreases root - t,
        {
            marked.push(false);
            t = t + 1;
        }
        marked.push(true);
        proof {
            assert forall|j: int| 0 <= j <= rt implies (#[trigger] marked@[j]) == reaches_from(
                s0,
                rt,
                j,
                rt + 1,
            ) by {
                if j < rt {
                    assert(!(exists|p: int|
                        rt + 1 <= p <= rt && #[trigger] is_operand(s0[p].op, j) && reaches(
                            s0,
                            rt,
                            p,
                        )));
                }
            }
        }
        let ghost n: int = s0.len() as int;
        proof {
            assert forall|j: int| 0 <= j <= rt implies g@[j].grad == bgrad_partial(
                s0,
                rt,
                j,
                rt + 1,
            ) by {
                assert(bgrad_partial(s0, rt, j, rt + 1) == s0[j].grad);
            }
        }
        let mut i: usize = root + 1;
        while i > 0
            invariant
                i <= root + 1,
                rt == root as int,
                0 <= rt < n,
                s0.len() == n,
                g@.len() == n,
                marked@.len() == rt + 1,
                forall|x: int| 0 <= x < n ==> op_bounded((#[trigger] s0[x]).op, x),
                forall|j: int|
                    0 <= j < n ==> (#[trigger] g@[j]).val == s0[j].val && g@[j].op == s0[j].op,
                forall|j: int| rt < j < n ==> (#[trigger] g@[j]).grad == s0[j].grad,
                forall|j: int| i <= j <= rt ==> (#[trigger] g@[j]).grad == bgrad(s0, rt, j),
                forall|j: int|
                    0 <= j < i ==> (#[trigger] g@[j]).grad == bgrad_partial(s0, rt, j, i as int),
                forall|j: int| i <= j <= rt ==> (#[trigger] marked@[j]) == reaches(s0, rt, j),
                forall|j: int|
                    0 <= j < i ==> (#[trigger] marked@[j]) == reaches_from(s0, rt, j, i as int),
            decreases i,
        {
            i = i - 1;
            let ghost ki: int = i as int;
            proof {
                lemma_reaches_from(s0, rt, ki);
            }
            if marked[i] {
                let gi: u64 = g.nodes[i].grad;
                let op: Op = g.nodes[i].op;
                let ghost gpre: Seq<Node> = g@;
                match op {
                    Op::Constant => {},
                    Op::Add(l, r) => {
                        let xl: u64 = add_bits(g.nodes[l].grad, gi);
                        g.nodes[l].grad = xl;
                        let xr: u64 = add_bits(g.nodes[r].grad, gi);
                        g.nodes[r].grad = xr;
                        marked[l] = true;
                        marked[r] = true;
                    },
                    Op::Sub(l, r) => {
                        let xl: u64 = add_bits(g.nodes[l].grad, gi);
                        g.nodes[l].grad = xl;
                        let xr: u64 = sub_bits(g.nodes[r].grad, gi);
                        g.nodes[r].grad = xr;
                        marked[l] = true;
                        marked[r] = true;
                    },
                    Op::Mul(l, r) => {
                        let xl: u64 = add_bits(g.nodes[l].grad, mul_bits(gi, g.nodes[r].val));
                        g.nodes[l].grad = xl;
                        let xr: u64 = add_bits(g.nodes[r].grad, mul_bits(gi, g.nodes[l].val));
                        g.nodes[r].grad = xr;
                        marked[l] = true;
                        marked[r] = true;
                    },
                    Op::Pow(b, e) => {
                        let bv: u64 = g.nodes[b].val;
                        let c: u64 = mul_bits(mul_bits(gi, e), pow_bits(bv, sub_bits(e, ONE_BITS)));
                        let xb: u64 = add_bits(g.nodes[b].grad, c);
                        g.nodes[b].grad = xb;
                        marked[b] = true;
                    },
                    Op::Tanh(a) => {
                        let vi: u64 = g.nodes[i].val;
                        let c: u64 = mul_bits(gi, sub_bits(ONE_BITS, mul_bits(vi, vi)));
                        let xa: u64 = add_bits(g.nodes[a].grad, c);
                        g.nodes[a].grad = xa;
                        marked[a] = true;
                    },
                }
                proof {
                    assert(reaches(s0, rt, ki));
                    assert(gi == bgrad_partial(s0, rt, ki, ki + 1));
                    assert forall|j: int| 0 <= j < ki implies (#[trigger] g@[j]).grad
                        == bgrad_partial(s0, rt, j, ki) by {
                        assert(gpre[j].grad == bgrad_partial(s0, rt, j, ki + 1));
                        assert(bgrad_partial(s0, rt, j, ki) == apply_parent(
                            s0,
                            ki,
                            j,
                            bgrad_partial(s0, rt, ki, ki + 1),
                            bgrad_partial(s0, rt, j, ki + 1),
                        ));
                    }
                    assert forall|j: int| 0 <= j < ki implies (#[trigger] marked@[j])
                        == reaches_from(s0, rt, j, ki) by {
                        lemma_reaches_from_step(s0, rt, j, ki);
                    }
                }
            } else {
                proof {
                    assert(!reaches(s0, rt, ki));
                    assert forall|j: int| 0 <= j < ki implies (#[trigger] g@[j]).grad
                        == bgrad_partial(s0, rt, j, ki) by {
                        assert(bgrad_partial(s0, rt, j, ki) == bgrad_partial(s0, rt, j, ki + 1));
                    }
                    assert forall|j: int| 0 <= j < ki implies (#[trigger] marked@[j])
                        == reaches_from(s0, rt, j, ki) by {
                        lemma_reaches_from_step(s0, rt, j, ki);
                    }
                }
            }
        }
    }

    /// One step of plain gradient descent on a leaf node:
    /// `value -= epsilon * gradient`. Only leaves — trainable parameters
    /// — may be stepped; derived nodes keep the value fixed at their
    /// construction.
    pub fn step(self, g: &mut Graph, epsilon: u64)
        requires
            self.valid(*old(g)),
            old(g)@[self.i as int].op == Op::Constant,
        ensures
            final(g)@ =~= old(g)@.update(
                self.i as int,
                (Node {
                    val: sub64(
                        old(g)@[self.i as int].val,
                        mul64(epsilon, old(g)@[self.i as int].grad),
                    ),
                    grad: old(g)@[self.i as int].grad,
                    op: Op::Constant,
                }),
            ),
            old(g).wf() ==> final(g).wf(),
    {
        let gr: u64 = g.nodes[self.i].grad;
        let nv: u64 = sub_bits(g.nodes[self.i].val, mul_bits(epsilon, gr));
        g.nodes[self.i].val = nv;
    }
}

} // verus!
