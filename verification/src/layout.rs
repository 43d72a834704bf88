//! The implicit binary tree: node `v` has the children `2 * v + 1` and
//! `2 * v + 2`, and a node that covers the coordinates `[lo, hi]` hands
//! `[lo, midpoint]` to the first child and the rest to the second.

use vstd::prelude::*;

verus! {

/// The coordinate at which a node that covers `[lo, hi]` splits its range.
pub open spec fn midpoint(lo: int, hi: int) -> int {
    lo + (hi - lo) / 2
}

/// Whether node `w` is node `u` or one of its descendants.
pub open spec fn in_subtree(u: int, w: int) -> bool
    decreases w,
{
    w == u || (w > u && w > 0 && in_subtree(u, (w - 1) / 2))
}

/// A bound that keeps a node inside an array of `4 * n` nodes over a domain
/// of `n` coordinates. `span` is the node's `hi - lo`, and `p` stands for two
/// to the power of the node's depth.
pub open spec fn node_fits(v: int, span: int, p: int, n: int) -> bool {
    &&& 0 <= v
    &&& 0 <= span
    &&& 1 <= p < 2 * n
    &&& v + 1 < 2 * p
    &&& p * span < n
}

pub proof fn lemma_root_fits(n: int)
    requires
        1 <= n,
    ensures
        node_fits(0, n - 1, 1, n),
{
}

pub proof fn lemma_node_in_array(v: int, span: int, p: int, n: int)
    requires
        node_fits(v, span, p, n),
    ensures
        0 <= v < 4 * n,
        span > 0 ==> 2 * v + 2 < 4 * n,
{
    if span > 0 {
        assert(p <= p * span) by (nonlinear_arith)
            requires
                1 <= p,
                1 <= span,
        ;
    }
}

/// Both children of a node that fits and covers more than one coordinate fit.
pub proof fn lemma_children_fit(v: int, lo: int, hi: int, p: int, n: int)
    requires
        node_fits(v, hi - lo, p, n),
        lo < hi,
    ensures
        node_fits(2 * v + 1, midpoint(lo, hi) - lo, 2 * p, n),
        node_fits(2 * v + 2, hi - (midpoint(lo, hi) + 1), 2 * p, n),
{
    let span = hi - lo;
    let half = span / 2;
    assert(p <= p * span && (2 * p) * half <= p * span) by (nonlinear_arith)
        requires
            1 <= p,
            1 <= span,
            0 <= half,
            2 * half <= span,
    ;
    let rest = hi - (midpoint(lo, hi) + 1);
    assert((2 * p) * rest <= (2 * p) * half) by (nonlinear_arith)
        requires
            1 <= p,
            0 <= rest <= half,
    ;
}

/// What lies below a child lies below its parent.
pub proof fn lemma_subtree_of_child(u: int, child: int, w: int)
    requires
        0 <= u,
        child == 2 * u + 1 || child == 2 * u + 2,
        in_subtree(child, w),
    ensures
        in_subtree(u, w),
    decreases w,
{
    if w != child {
        lemma_subtree_of_child(u, child, (w - 1) / 2);
    } else {
        assert(in_subtree(u, (w - 1) / 2));
    }
}

/// The two children of a node have no descendant in common.
pub proof fn lemma_sibling_subtrees_disjoint(u: int, w: int)
    requires
        0 <= u,
    ensures
        !(in_subtree(2 * u + 1, w) && in_subtree(2 * u + 2, w)),
    decreases w,
{
    if in_subtree(2 * u + 1, w) && in_subtree(2 * u + 2, w) {
        if w == 2 * u + 2 {
            assert(!in_subtree(2 * u + 1, u));
        } else {
            lemma_sibling_subtrees_disjoint(u, (w - 1) / 2);
        }
    }
}

} // verus!
