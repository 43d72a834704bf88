//! The tree as a function of the lines inserted into it.
//!
//! The nodes are a sequence of lines, `no_line()` where a node is empty. The
//! functions here say what an insertion does to that sequence and what a
//! query reads from it; the proofs relate both to the lower envelope of the
//! inserted lines.

use vstd::prelude::*;
use vstd::math::min;
use crate::crossing::{
    below, lemma_no_line_value, lemma_single_crossing_no_line, pairwise_single_crossing,
    single_crossing,
};
use crate::layout::{
    in_subtree, lemma_children_fit, lemma_node_in_array, lemma_sibling_subtrees_disjoint,
    lemma_subtree_of_child, midpoint, node_fits,
};
use crate::line::{Line, no_line};

verus! {

/// Of a line handed to a node and the line stored there, the one that the
/// node keeps: the one handed in if it is strictly smaller at the node's
/// midpoint, else the stored one.
pub open spec fn kept_line(line: Line, stored: Line, mid: int) -> Line {
    if below(line, stored, mid) {
        line
    } else {
        stored
    }
}

/// Of a line handed to a node and the line stored there, the one that the
/// node does not keep.
pub open spec fn carried_line(line: Line, stored: Line, mid: int) -> Line {
    if below(line, stored, mid) {
        stored
    } else {
        line
    }
}

/// The nodes after `line` has been handed to node `v`, which covers the
/// coordinates `[lo, hi]`.
///
/// The node keeps whichever of `line` and its own line is strictly smaller at
/// the midpoint, its own on a tie. The other one is carried on: nowhere if
/// it is `no_line()` or the node covers a single coordinate; else to the
/// first child if it is strictly smaller than the kept line at `lo`; else to
/// the second child if it is strictly smaller at `hi`; else nowhere.
pub open spec fn inserted(nodes: Seq<Line>, line: Line, v: int, lo: int, hi: int) -> Seq<Line>
    decreases hi - lo,
{
    if 0 <= v < nodes.len() && lo <= hi {
        let mid = midpoint(lo, hi);
        let kept = kept_line(line, nodes[v], mid);
        let carried = carried_line(line, nodes[v], mid);
        let placed = nodes.update(v, kept);
        if carried == no_line() || lo == hi {
            placed
        } else if below(carried, kept, lo) {
            inserted(placed, carried, 2 * v + 1, lo, mid)
        } else if below(carried, kept, hi) {
            inserted(placed, carried, 2 * v + 2, mid + 1, hi)
        } else {
            placed
        }
    } else {
        nodes
    }
}

/// The least value at `x` of the lines on the path from node `v`, which
/// covers `[lo, hi]`, down to the node that covers `x` alone. A node outside
/// the sequence counts as empty.
pub open spec fn path_minimum(nodes: Seq<Line>, v: int, lo: int, hi: int, x: int) -> int
    decreases hi - lo,
{
    if !(0 <= v < nodes.len()) {
        i64::MAX as int
    } else if lo >= hi {
        nodes[v].value_at(x)
    } else if x <= midpoint(lo, hi) {
        min(nodes[v].value_at(x), path_minimum(nodes, 2 * v + 1, lo, midpoint(lo, hi), x))
    } else {
        min(nodes[v].value_at(x), path_minimum(nodes, 2 * v + 2, midpoint(lo, hi) + 1, hi, x))
    }
}

/// The nodes of a tree over `[lo, hi]` into which `lines` were inserted, the
/// first one first: four nodes for each coordinate, all empty at the start.
pub open spec fn nodes_of(lo: int, hi: int, lines: Seq<Line>) -> Seq<Line>
    decreases lines.len(),
{
    if lines.len() == 0 {
        Seq::new((4 * (hi - lo + 1)) as nat, |w: int| no_line())
    } else {
        inserted(nodes_of(lo, hi, lines.drop_last()), lines.last(), 0, lo, hi)
    }
}

/// What such a tree holds for the coordinate `x`.
pub open spec fn stored_minimum(lo: int, hi: int, lines: Seq<Line>, x: int) -> int {
    path_minimum(nodes_of(lo, hi, lines), 0, lo, hi, x)
}

/// A minimum as a query reports it: `i64::MAX` stands for no value.
pub open spec fn reported(minimum: int) -> Option<i64> {
    if minimum == i64::MAX {
        None
    } else {
        Some(minimum as i64)
    }
}

/// Whether `f` is the reserved value or one of `lines`.
pub open spec fn known(lines: Seq<Line>, f: Line) -> bool {
    f == no_line() || lines.contains(f)
}

/// Whether every node is empty or holds one of `lines`.
pub open spec fn drawn_from(nodes: Seq<Line>, lines: Seq<Line>) -> bool {
    forall|w: int| 0 <= w < nodes.len() ==> known(lines, #[trigger] nodes[w])
}

/// An insertion keeps the number of nodes and touches no node outside the
/// subtree it starts at.
pub proof fn lemma_inserted_frame(nodes: Seq<Line>, line: Line, v: int, lo: int, hi: int)
    requires
        0 <= v,
    ensures
        inserted(nodes, line, v, lo, hi).len() == nodes.len(),
        forall|w: int|
            0 <= w < nodes.len() && !in_subtree(v, w)
                ==> #[trigger] inserted(nodes, line, v, lo, hi)[w] == nodes[w],
    decreases hi - lo,
{
    if 0 <= v < nodes.len() && lo <= hi {
        let mid = midpoint(lo, hi);
        let kept = kept_line(line, nodes[v], mid);
        let carried = carried_line(line, nodes[v], mid);
        let placed = nodes.update(v, kept);
        if carried == no_line() || lo == hi {
        } else if below(carried, kept, lo) {
            lemma_inserted_frame(placed, carried, 2 * v + 1, lo, mid);
            assert forall|w: int| 0 <= w < nodes.len() && !in_subtree(v, w)
                implies #[trigger] inserted(nodes, line, v, lo, hi)[w] == nodes[w] by {
                if in_subtree(2 * v + 1, w) {
                    lemma_subtree_of_child(v, 2 * v + 1, w);
                }
            }
        } else if below(carried, kept, hi) {
            lemma_inserted_frame(placed, carried, 2 * v + 2, mid + 1, hi);
            assert forall|w: int| 0 <= w < nodes.len() && !in_subtree(v, w)
                implies #[trigger] inserted(nodes, line, v, lo, hi)[w] == nodes[w] by {
                if in_subtree(2 * v + 2, w) {
                    lemma_subtree_of_child(v, 2 * v + 2, w);
                }
            }
        }
    }
}

/// An insertion stores no line but the one handed in and those that were
/// stored before.
pub proof fn lemma_inserted_drawn(
    nodes: Seq<Line>,
    line: Line,
    v: int,
    lo: int,
    hi: int,
    lines: Seq<Line>,
)
    requires
        drawn_from(nodes, lines),
        known(lines, line),
    ensures
        drawn_from(inserted(nodes, line, v, lo, hi), lines),
    decreases hi - lo,
{
    if 0 <= v < nodes.len() && lo <= hi {
        let mid = midpoint(lo, hi);
        let kept = kept_line(line, nodes[v], mid);
        let carried = carried_line(line, nodes[v], mid);
        let placed = nodes.update(v, kept);
        assert(drawn_from(placed, lines));
        if carried == no_line() || lo == hi {
        } else if below(carried, kept, lo) {
            lemma_inserted_drawn(placed, carried, 2 * v + 1, lo, mid, lines);
        } else if below(carried, kept, hi) {
            lemma_inserted_drawn(placed, carried, 2 * v + 2, mid + 1, hi, lines);
        }
    }
}

/// A path minimum reads no node outside the subtree it starts at.
pub proof fn lemma_path_minimum_frame(
    a: Seq<Line>,
    b: Seq<Line>,
    v: int,
    lo: int,
    hi: int,
    x: int,
)
    requires
        0 <= v,
        a.len() == b.len(),
        forall|w: int| 0 <= w < a.len() && in_subtree(v, w) ==> a[w] == b[w],
    ensures
        path_minimum(a, v, lo, hi, x) == path_minimum(b, v, lo, hi, x),
    decreases hi - lo,
{
    if 0 <= v < a.len() && lo < hi {
        let mid = midpoint(lo, hi);
        let child = if x <= mid {
            2 * v + 1
        } else {
            2 * v + 2
        };
        assert forall|w: int| 0 <= w < a.len() && in_subtree(child, w) implies a[w] == b[w] by {
            lemma_subtree_of_child(v, child, w);
        }
        if x <= mid {
            lemma_path_minimum_frame(a, b, child, lo, mid, x);
        } else {
            lemma_path_minimum_frame(a, b, child, mid + 1, hi, x);
        }
    }
}

/// Any two lines that are known cross at most once where those of `lines` do.
pub proof fn lemma_known_single_crossing(lines: Seq<Line>, f: Line, g: Line, lo: int, hi: int)
    requires
        known(lines, f),
        known(lines, g),
        pairwise_single_crossing(lines, lo, hi),
    ensures
        single_crossing(f, g, lo, hi),
{
    if f == no_line() {
        lemma_single_crossing_no_line(g, lo, hi);
    } else if g == no_line() {
        lemma_single_crossing_no_line(f, lo, hi);
    } else {
        let i = choose|i: int| 0 <= i < lines.len() && lines[i] == f;
        let j = choose|j: int| 0 <= j < lines.len() && lines[j] == g;
        assert(single_crossing(lines[i], lines[j], lo, hi));
    }
}

/// Handing a line to a node lowers the path minimum of every coordinate the
/// node covers to the line's value there, where that is smaller, and leaves
/// it as it was otherwise; provided that the lines involved cross each other
/// at most once.
pub proof fn lemma_inserted_path_minimum(
    nodes: Seq<Line>,
    line: Line,
    v: int,
    lo: int,
    hi: int,
    x: int,
    p: int,
    n: int,
    lines: Seq<Line>,
    domain_lo: int,
    domain_hi: int,
)
    requires
        nodes.len() == 4 * n,
        node_fits(v, hi - lo, p, n),
        domain_lo <= lo <= x <= hi <= domain_hi,
        drawn_from(nodes, lines),
        known(lines, line),
        pairwise_single_crossing(lines, domain_lo, domain_hi),
    ensures
        path_minimum(inserted(nodes, line, v, lo, hi), v, lo, hi, x)
            == min(path_minimum(nodes, v, lo, hi, x), line.value_at(x)),
    decreases hi - lo,
{
    lemma_node_in_array(v, hi - lo, p, n);
    let mid = midpoint(lo, hi);
    let kept = kept_line(line, nodes[v], mid);
    let carried = carried_line(line, nodes[v], mid);
    let placed = nodes.update(v, kept);
    let after = inserted(nodes, line, v, lo, hi);
    lemma_known_single_crossing(lines, carried, kept, domain_lo, domain_hi);
    lemma_no_line_value(x);
    assert(!below(carried, kept, mid));
    assert(min(kept.value_at(x), carried.value_at(x))
        == min(nodes[v].value_at(x), line.value_at(x)));
    if lo == hi {
    } else {
        lemma_children_fit(v, lo, hi, p, n);
        let first = 2 * v + 1;
        let second = 2 * v + 2;
        if x <= mid {
            lemma_path_minimum_frame(nodes, placed, first, lo, mid, x);
        } else {
            lemma_path_minimum_frame(nodes, placed, second, mid + 1, hi, x);
        }
        if carried == no_line() {
        } else if below(carried, kept, lo) {
            lemma_inserted_frame(placed, carried, first, lo, mid);
            assert(after[v] == placed[v]);
            if x <= mid {
                lemma_inserted_path_minimum(
                    placed,
                    carried,
                    first,
                    lo,
                    mid,
                    x,
                    2 * p,
                    n,
                    lines,
                    domain_lo,
                    domain_hi,
                );
            } else {
                assert forall|w: int| 0 <= w < placed.len() && in_subtree(second, w)
                    implies placed[w] == after[w] by {
                    lemma_sibling_subtrees_disjoint(v, w);
                }
                lemma_path_minimum_frame(placed, after, second, mid + 1, hi, x);
                assert(!below(carried, kept, x));
            }
        } else if below(carried, kept, hi) {
            lemma_inserted_frame(placed, carried, second, mid + 1, hi);
            assert(after[v] == placed[v]);
            if x <= mid {
                assert forall|w: int| 0 <= w < placed.len() && in_subtree(first, w)
                    implies placed[w] == after[w] by {
                    lemma_sibling_subtrees_disjoint(v, w);
                }
                lemma_path_minimum_frame(placed, after, first, lo, mid, x);
                assert(!below(carried, kept, x));
            } else {
                lemma_inserted_path_minimum(
                    placed,
                    carried,
                    second,
                    mid + 1,
                    hi,
                    x,
                    2 * p,
                    n,
                    lines,
                    domain_lo,
                    domain_hi,
                );
            }
        } else {
            assert(!below(carried, kept, x));
        }
    }
}

/// Nodes drawn from some lines are drawn from any lines that include them.
pub proof fn lemma_drawn_from_more(nodes: Seq<Line>, fewer: Seq<Line>, more: Seq<Line>)
    requires
        drawn_from(nodes, fewer),
        forall|f: Line| fewer.contains(f) ==> more.contains(f),
    ensures
        drawn_from(nodes, more),
{
    assert forall|w: int| 0 <= w < nodes.len() implies known(more, #[trigger] nodes[w]) by {
        assert(known(fewer, nodes[w]));
    }
}

/// All but the last of some lines are among them.
pub proof fn lemma_front_contained(lines: Seq<Line>)
    requires
        lines.len() > 0,
    ensures
        forall|f: Line| lines.drop_last().contains(f) ==> lines.contains(f),
        lines.contains(lines.last()),
{
    let front = lines.drop_last();
    assert forall|f: Line| front.contains(f) implies lines.contains(f) by {
        let i = choose|i: int| 0 <= i < front.len() && front[i] == f;
        assert(lines[i] == f);
    }
    assert(lines[lines.len() - 1] == lines.last());
}

/// The nodes of a tree: four for each coordinate, each empty or holding one
/// of the inserted lines.
pub proof fn lemma_nodes_of_shape(lo: int, hi: int, lines: Seq<Line>)
    requires
        lo <= hi,
    ensures
        nodes_of(lo, hi, lines).len() == 4 * (hi - lo + 1),
        drawn_from(nodes_of(lo, hi, lines), lines),
    decreases lines.len(),
{
    if lines.len() > 0 {
        let front = lines.drop_last();
        let before = nodes_of(lo, hi, front);
        lemma_nodes_of_shape(lo, hi, front);
        lemma_inserted_frame(before, lines.last(), 0, lo, hi);
        lemma_front_contained(lines);
        lemma_drawn_from_more(before, front, lines);
        lemma_inserted_drawn(before, lines.last(), 0, lo, hi, lines);
    }
}

/// Over empty nodes every path minimum is `i64::MAX`.
pub proof fn lemma_empty_path_minimum(nodes: Seq<Line>, v: int, lo: int, hi: int, x: int)
    requires
        forall|w: int| 0 <= w < nodes.len() ==> nodes[w] == no_line(),
    ensures
        path_minimum(nodes, v, lo, hi, x) == i64::MAX,
    decreases hi - lo,
{
    lemma_no_line_value(x);
    if 0 <= v < nodes.len() && lo < hi {
        let mid = midpoint(lo, hi);
        if x <= mid {
            lemma_empty_path_minimum(nodes, 2 * v + 1, lo, mid, x);
        } else {
            lemma_empty_path_minimum(nodes, 2 * v + 2, mid + 1, hi, x);
        }
    }
}

} // verus!
