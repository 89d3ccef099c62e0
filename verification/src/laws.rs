//! The backward pass's local gradient rules, stated as theorems.
//!
//! `Value::backward` promises that every gradient equals `bgrad`, a fold
//! of the reachable parents' contributions in reverse creation order.
//! The lemmas here unfold that promise into the per-operation rules: what
//! a sole parent contributes to each operand, that a node used in both
//! operand slots receives both contributions, and that nodes outside the
//! root's subgraph are left untouched.

use vstd::prelude::*;
use crate::arith::add64;
use crate::arith::mul64;
use crate::arith::pow64;
use crate::arith::sub64;
use crate::bits::ONE_BITS;
use crate::value::Node;
use crate::value::Op;
use crate::value::apply_parent;
use crate::value::bgrad;
use crate::value::bgrad_partial;
use crate::value::is_operand;
use crate::value::lemma_reaches_same_ops;
use crate::value::reaches;
use crate::value::seeded;

verus! {

/// Seeding the root's gradient changes no derivation, so the graph a
/// backward pass works on reaches exactly what the plain graph reaches:
/// this carries the reachability stated by the forward builders into
/// `backward`'s own vocabulary.
pub proof fn law_seeding_preserves_reach(s: Seq<Node>, root: int, j: int)
    requires
        0 <= j <= root < s.len(),
    ensures
        reaches(seeded(s, root), root, j) == reaches(s, root, j),
{
    lemma_reaches_same_ops(s, seeded(s, root), root, j);
}

/// A node that the root cannot reach gets no contribution: its
/// accumulator still holds exactly what it held when the pass began.
pub proof fn law_untouched_outside_subgraph(s: Seq<Node>, root: int, j: int)
    requires
        0 <= j <= root < s.len(),
        !reaches(s, root, j),
    ensures
        bgrad(s, root, j) == s[j].grad,
{
    lemma_unreached_partial(s, root, j, j + 1);
}

proof fn lemma_unreached_partial(s: Seq<Node>, root: int, j: int, k: int)
    requires
        0 <= j < k <= root + 1,
        root < s.len(),
        !reaches(s, root, j),
    ensures
        bgrad_partial(s, root, j, k) == s[j].grad,
    decreases root + 1 - k,
{
    if k <= root {
        lemma_unreached_partial(s, root, j, k + 1);
        if reaches(s, root, k) && is_operand(s[k].op, j) {
            assert(j < k <= root && is_operand(s[k].op, j) && reaches(s, root, k));
            assert(reaches(s, root, j));
        }
    }
}

/// The root's own gradient is exactly its seed: the pass starts from
/// `d root / d root` and nothing above the root is visited.
pub proof fn law_root_gradient(s: Seq<Node>, root: int)
    requires
        0 <= root < s.len(),
    ensures
        bgrad(s, root, root) == s[root].grad,
{
}

proof fn lemma_skip_span(s: Seq<Node>, root: int, j: int, k: int, k2: int)
    requires
        0 <= j < k <= k2 <= root + 1,
        root < s.len(),
        forall|p: int| k <= p < k2 ==> !is_operand(#[trigger] s[p].op, j),
    ensures
        bgrad_partial(s, root, j, k) == bgrad_partial(s, root, j, k2),
    decreases k2 - k,
{
    if k < k2 {
        lemma_skip_span(s, root, j, k + 1, k2);
    }
}

/// When the root is the only node above `j` that uses `j` as an
/// operand, `j`'s gradient is its prior accumulator updated once by the
/// root's local rule, fed with the root's own gradient.
pub proof fn law_sole_parent_gradient(s: Seq<Node>, root: int, j: int)
    requires
        0 <= j < root < s.len(),
        forall|p: int| j < p < root ==> !is_operand(#[trigger] s[p].op, j),
    ensures
        bgrad(s, root, j) == apply_parent(s, root, j, s[root].grad, s[j].grad),
{
    lemma_skip_span(s, root, j, j + 1, root);
    assert(reaches(s, root, root));
    assert(bgrad_partial(s, root, root, root + 1) == s[root].grad);
    assert(bgrad_partial(s, root, j, root + 1) == s[j].grad);
}

/// The central accumulation invariant: a node consumed by two distinct
/// parents receives the contribution of both, the later-created parent's
/// first — the gradients of every path from the root are summed into
/// the accumulator, never overwritten.
pub proof fn law_two_parents_accumulate(s: Seq<Node>, root: int, j: int, p1: int, p2: int)
    requires
        0 <= j < p1 < p2 <= root < s.len(),
        is_operand(s[p1].op, j),
        is_operand(s[p2].op, j),
        reaches(s, root, p1),
        reaches(s, root, p2),
        forall|p: int|
            j < p <= root && p != p1 && p != p2 ==> !is_operand(#[trigger] s[p].op, j),
    ensures
        bgrad(s, root, j) == apply_parent(
            s,
            p1,
            j,
            bgrad(s, root, p1),
            apply_parent(s, p2, j, bgrad(s, root, p2), s[j].grad),
        ),
{
    lemma_skip_span(s, root, j, j + 1, p1);
    lemma_skip_span(s, root, j, p1 + 1, p2);
    lemma_skip_span(s, root, j, p2 + 1, root + 1);
    assert(bgrad_partial(s, root, j, root + 1) == s[j].grad);
    assert(bgrad_partial(s, root, j, p2) == apply_parent(
        s,
        p2,
        j,
        bgrad_partial(s, root, p2, p2 + 1),
        bgrad_partial(s, root, j, p2 + 1),
    ));
    assert(bgrad_partial(s, root, j, p1) == apply_parent(
        s,
        p1,
        j,
        bgrad_partial(s, root, p1, p1 + 1),
        bgrad_partial(s, root, j, p1 + 1),
    ));
}

/// Backward rule of addition: each distinct operand of `root` receives
/// the root's gradient, added to its accumulator.
pub proof fn law_add_gradient(s: Seq<Node>, root: int, l: usize, r: usize)
    requires
        0 <= root < s.len(),
        (l as int) < root,
        (r as int) < root,
        l != r,
        s[root].op == Op::Add(l, r),
        forall|p: int| l < p < root ==> !is_operand(#[trigger] s[p].op, l as int),
        forall|p: int| r < p < root ==> !is_operand(#[trigger] s[p].op, r as int),
    ensures
        bgrad(s, root, l as int) == add64(s[l as int].grad, s[root].grad),
        bgrad(s, root, r as int) == add64(s[r as int].grad, s[root].grad),
{
    law_sole_parent_gradient(s, root, l as int);
    law_sole_parent_gradient(s, root, r as int);
}

/// Backward rule of addition when one node fills both operand slots:
/// the accumulator receives the root's gradient twice, once per path,
/// never a single overwrite.
pub proof fn law_add_shared_gradient(s: Seq<Node>, root: int, a: usize)
    requires
        0 <= root < s.len(),
        (a as int) < root,
        s[root].op == Op::Add(a, a),
        forall|p: int| a < p < root ==> !is_operand(#[trigger] s[p].op, a as int),
    ensures
        bgrad(s, root, a as int) == add64(add64(s[a as int].grad, s[root].grad), s[root].grad),
{
    law_sole_parent_gradient(s, root, a as int);
}

/// Backward rule of subtraction: the left operand's accumulator gains
/// the root's gradient, the right operand's loses it.
pub proof fn law_sub_gradient(s: Seq<Node>, root: int, l: usize, r: usize)
    requires
        0 <= root < s.len(),
        (l as int) < root,
        (r as int) < root,
        l != r,
        s[root].op == Op::Sub(l, r),
        forall|p: int| l < p < root ==> !is_operand(#[trigger] s[p].op, l as int),
        forall|p: int| r < p < root ==> !is_operand(#[trigger] s[p].op, r as int),
    ensures
        bgrad(s, root, l as int) == add64(s[l as int].grad, s[root].grad),
        bgrad(s, root, r as int) == sub64(s[r as int].grad, s[root].grad),
{
    law_sole_parent_gradient(s, root, l as int);
    law_sole_parent_gradient(s, root, r as int);
}

/// Backward rule of multiplication: each operand's accumulator gains
/// the root's gradient scaled by the other operand's value.
pub proof fn law_mul_gradient(s: Seq<Node>, root: int, l: usize, r: usize)
    requires
        0 <= root < s.len(),
        (l as int) < root,
        (r as int) < root,
        l != r,
        s[root].op == Op::Mul(l, r),
        forall|p: int| l < p < root ==> !is_operand(#[trigger] s[p].op, l as int),
        forall|p: int| r < p < root ==> !is_operand(#[trigger] s[p].op, r as int),
    ensures
        bgrad(s, root, l as int) == add64(
            s[l as int].grad,
            mul64(s[root].grad, s[r as int].val),
        ),
        bgrad(s, root, r as int) == add64(
            s[r as int].grad,
            mul64(s[root].grad, s[l as int].val),
        ),
{
    law_sole_parent_gradient(s, root, l as int);
    law_sole_parent_gradient(s, root, r as int);
}

/// Backward rule of the power operation: the base's accumulator gains
/// `g * e * base^(e - 1)`, with the root's gradient `g` and the fixed
/// exponent `e`.
pub proof fn law_pow_gradient(s: Seq<Node>, root: int, b: usize, e: u64)
    requires
        0 <= root < s.len(),
        (b as int) < root,
        s[root].op == Op::Pow(b, e),
        forall|p: int| b < p < root ==> !is_operand(#[trigger] s[p].op, b as int),
    ensures
        bgrad(s, root, b as int) == add64(
            s[b as int].grad,
            mul64(mul64(s[root].grad, e), pow64(s[b as int].val, sub64(e, ONE_BITS))),
        ),
{
    law_sole_parent_gradient(s, root, b as int);
}

/// Backward rule of the hyperbolic tangent: the operand's accumulator
/// gains `g * (1 - t^2)`, where `t` is the root's own (forward) value.
pub proof fn law_tanh_gradient(s: Seq<Node>, root: int, a: usize)
    requires
        0 <= root < s.len(),
        (a as int) < root,
        s[root].op == Op::Tanh(a),
        forall|p: int| a < p < root ==> !is_operand(#[trigger] s[p].op, a as int),
    ensures
        bgrad(s, root, a as int) == add64(
            s[a as int].grad,
            mul64(s[root].grad, sub64(ONE_BITS, mul64(s[root].val, s[root].val))),
        ),
{
    law_sole_parent_gradient(s, root, a as int);
}

} // verus!
