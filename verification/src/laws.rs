//! What holds of the answers of a tree, whatever was inserted into it and
//! in whatever order.

use vstd::prelude::*;
use vstd::math::min;
use crate::crossing::{
    all_exact_on, below, exact_on, lemma_all_exact_pairwise, lemma_exact_value,
    lemma_lower_envelope_least, lemma_lower_envelope_same_lines, lemma_no_line_value,
    lemma_single_point_pairwise, lower_envelope, pairwise_single_crossing, single_crossing,
};
use crate::layout::{lemma_root_fits, midpoint};
use crate::line::{Line, no_line};
use crate::model::{
    carried_line, drawn_from, inserted, kept_line, known, lemma_drawn_from_more,
    lemma_empty_path_minimum, lemma_front_contained, lemma_inserted_frame,
    lemma_inserted_path_minimum, lemma_nodes_of_shape, nodes_of, path_minimum, reported,
    stored_minimum,
};

verus! {

/// Any two of fewer lines cross at most once where any two of more lines do.
proof fn lemma_pairwise_of_fewer(fewer: Seq<Line>, more: Seq<Line>, lo: int, hi: int)
    requires
        pairwise_single_crossing(more, lo, hi),
        forall|f: Line| fewer.contains(f) ==> more.contains(f),
    ensures
        pairwise_single_crossing(fewer, lo, hi),
{
    assert forall|i: int, j: int| 0 <= i < fewer.len() && 0 <= j < fewer.len()
        implies single_crossing(#[trigger] fewer[i], #[trigger] fewer[j], lo, hi) by {
        assert(fewer.contains(fewer[i]));
        assert(fewer.contains(fewer[j]));
        let a = choose|a: int| 0 <= a < more.len() && more[a] == fewer[i];
        let b = choose|b: int| 0 <= b < more.len() && more[b] == fewer[j];
        assert(single_crossing(more[a], more[b], lo, hi));
    }
}

/// Where the inserted lines cross each other at most once over the domain,
/// the tree holds for every coordinate of the domain the least value that
/// any inserted line takes there, and `i64::MAX` while nothing was inserted.
pub proof fn lemma_stored_minimum_is_lower_envelope(lo: int, hi: int, lines: Seq<Line>, x: int)
    requires
        lo <= x <= hi,
        pairwise_single_crossing(lines, lo, hi),
    ensures
        stored_minimum(lo, hi, lines, x) == lower_envelope(lines, x),
    decreases lines.len(),
{
    if lines.len() > 0 {
        let front = lines.drop_last();
        let before = nodes_of(lo, hi, front);
        lemma_front_contained(lines);
        lemma_pairwise_of_fewer(front, lines, lo, hi);
        lemma_stored_minimum_is_lower_envelope(lo, hi, front, x);
        lemma_nodes_of_shape(lo, hi, front);
        lemma_drawn_from_more(before, front, lines);
        lemma_root_fits(hi - lo + 1);
        lemma_inserted_path_minimum(
            before,
            lines.last(),
            0,
            lo,
            hi,
            x,
            1,
            hi - lo + 1,
            lines,
            lo,
            hi,
        );
    } else {
        lemma_empty_path_minimum(nodes_of(lo, hi, lines), 0, lo, hi, x);
    }
}

/// A query reports no value exactly where every inserted line takes
/// `i64::MAX` at the coordinate, which is so where there is none; provided
/// that the inserted lines cross each other at most once over the domain.
pub proof fn lemma_no_value_reported(lo: int, hi: int, lines: Seq<Line>, x: int)
    requires
        lo <= x <= hi,
        pairwise_single_crossing(lines, lo, hi),
    ensures
        reported(stored_minimum(lo, hi, lines, x)) is None
            <==> forall|i: int|
            0 <= i < lines.len() ==> (#[trigger] lines[i]).value_at(x) == i64::MAX,
{
    lemma_stored_minimum_is_lower_envelope(lo, hi, lines, x);
    lemma_lower_envelope_least(lines, x);
}

/// Two trees over one domain answer alike where the same lines were
/// inserted into both, in whatever order and however often each; provided
/// that those lines cross each other at most once over the domain.
pub proof fn lemma_same_lines_same_answers(
    lo: int,
    hi: int,
    first: Seq<Line>,
    second: Seq<Line>,
    x: int,
)
    requires
        lo <= x <= hi,
        forall|f: Line| first.contains(f) <==> second.contains(f),
        pairwise_single_crossing(first, lo, hi),
    ensures
        pairwise_single_crossing(second, lo, hi),
        stored_minimum(lo, hi, first, x) == stored_minimum(lo, hi, second, x),
{
    lemma_pairwise_of_fewer(second, first, lo, hi);
    lemma_stored_minimum_is_lower_envelope(lo, hi, first, x);
    lemma_stored_minimum_is_lower_envelope(lo, hi, second, x);
    lemma_lower_envelope_same_lines(first, second, x);
}

/// The order of insertion does not matter: two trees over one domain answer
/// alike where the lines inserted into one are those inserted into the
/// other in another order; provided that the lines cross each other at most
/// once over the domain.
pub proof fn lemma_insertion_order_irrelevant(
    lo: int,
    hi: int,
    first: Seq<Line>,
    second: Seq<Line>,
    x: int,
)
    requires
        lo <= x <= hi,
        first.to_multiset() == second.to_multiset(),
        pairwise_single_crossing(first, lo, hi),
    ensures
        stored_minimum(lo, hi, first, x) == stored_minimum(lo, hi, second, x),
{
    first.to_multiset_ensures();
    second.to_multiset_ensures();
    assert forall|f: Line| first.contains(f) <==> second.contains(f) by {
        assert(first.contains(f) <==> first.to_multiset().count(f) > 0);
        assert(second.contains(f) <==> second.to_multiset().count(f) > 0);
    }
    lemma_same_lines_same_answers(lo, hi, first, second, x);
}

/// Inserting once more a line that was inserted before changes no answer;
/// provided that the inserted lines cross each other at most once over the
/// domain.
pub proof fn lemma_duplicate_insertion(lo: int, hi: int, lines: Seq<Line>, line: Line, x: int)
    requires
        lo <= x <= hi,
        lines.contains(line),
        pairwise_single_crossing(lines, lo, hi),
    ensures
        stored_minimum(lo, hi, lines.push(line), x) == stored_minimum(lo, hi, lines, x),
{
    let again = lines.push(line);
    assert forall|f: Line| lines.contains(f) <==> again.contains(f) by {
        if lines.contains(f) {
            let i = choose|i: int| 0 <= i < lines.len() && lines[i] == f;
            assert(again[i] == f);
        }
        if again.contains(f) {
            let i = choose|i: int| 0 <= i < again.len() && again[i] == f;
            if i < lines.len() {
                assert(lines[i] == f);
            }
        }
    }
    lemma_same_lines_same_answers(lo, hi, lines, again, x);
}

/// Handing a line to a node a second time, right after the first, changes
/// no node.
pub proof fn lemma_inserted_twice(nodes: Seq<Line>, line: Line, v: int, lo: int, hi: int)
    requires
        0 <= v,
    ensures
        inserted(inserted(nodes, line, v, lo, hi), line, v, lo, hi)
            == inserted(nodes, line, v, lo, hi),
    decreases hi - lo,
{
    let once = inserted(nodes, line, v, lo, hi);
    lemma_inserted_frame(nodes, line, v, lo, hi);
    if 0 <= v < nodes.len() && lo <= hi {
        let mid = midpoint(lo, hi);
        let swap = below(line, nodes[v], mid);
        let kept = kept_line(line, nodes[v], mid);
        let carried = carried_line(line, nodes[v], mid);
        let placed = nodes.update(v, kept);
        lemma_no_line_value(mid);
        if carried == no_line() || lo == hi {
        } else if below(carried, kept, lo) {
            lemma_inserted_frame(placed, carried, 2 * v + 1, lo, mid);
            if !swap {
                lemma_inserted_twice(placed, line, 2 * v + 1, lo, mid);
            }
        } else if below(carried, kept, hi) {
            lemma_inserted_frame(placed, carried, 2 * v + 2, mid + 1, hi);
            if !swap {
                lemma_inserted_twice(placed, line, 2 * v + 2, mid + 1, hi);
            }
        }
        assert(once[v] == kept);
        assert(once.update(v, kept) =~= once);
    }
}

/// Inserting a line twice in a row leaves the tree as inserting it once
/// does, whatever the lines are.
pub proof fn lemma_repeated_insertion(lo: int, hi: int, lines: Seq<Line>, line: Line, x: int)
    ensures
        nodes_of(lo, hi, lines.push(line).push(line)) == nodes_of(lo, hi, lines.push(line)),
        stored_minimum(lo, hi, lines.push(line).push(line), x)
            == stored_minimum(lo, hi, lines.push(line), x),
{
    let once = lines.push(line);
    let twice = once.push(line);
    assert(once.drop_last() =~= lines);
    assert(twice.drop_last() =~= once);
    lemma_inserted_twice(nodes_of(lo, hi, lines), line, 0, lo, hi);
}

/// A tree over a single coordinate holds for it the least value that any
/// inserted line takes there, whatever the lines are.
pub proof fn lemma_single_point_domain(x: int, lines: Seq<Line>)
    ensures
        stored_minimum(x, x, lines, x) == lower_envelope(lines, x),
{
    lemma_single_point_pairwise(lines, x);
    lemma_stored_minimum_is_lower_envelope(x, x, lines, x);
}

/// The least intercept of the lines, and `i64::MAX` where there is no line.
pub open spec fn least_intercept(lines: Seq<Line>) -> int
    decreases lines.len(),
{
    if lines.len() == 0 {
        i64::MAX as int
    } else {
        min(least_intercept(lines.drop_last()), lines.last().c as int)
    }
}

/// Whether every line has the slope 0.
pub open spec fn all_horizontal(lines: Seq<Line>) -> bool {
    forall|i: int| 0 <= i < lines.len() ==> (#[trigger] lines[i]).m == 0
}

proof fn lemma_horizontal_envelope(lines: Seq<Line>, x: int)
    requires
        all_horizontal(lines),
    ensures
        lower_envelope(lines, x) == least_intercept(lines),
    decreases lines.len(),
{
    if lines.len() > 0 {
        let front = lines.drop_last();
        assert forall|i: int| 0 <= i < front.len() implies (#[trigger] front[i]).m == 0 by {
            assert(front[i] == lines[i]);
        }
        lemma_horizontal_envelope(front, x);
        assert(lines[lines.len() - 1] == lines.last());
    }
}

/// Lines of slope 0 are constants: the tree holds the least of their
/// intercepts for every coordinate of the domain.
pub proof fn lemma_horizontal_lines(lo: int, hi: int, lines: Seq<Line>, x: int)
    requires
        lo <= x <= hi,
        all_horizontal(lines),
    ensures
        forall|i: int| 0 <= i < lines.len() ==> (#[trigger] lines[i]).value_at(x) == lines[i].c,
        stored_minimum(lo, hi, lines, x) == least_intercept(lines),
{
    assert(all_exact_on(lines, lo, hi)) by {
        assert forall|i: int| 0 <= i < lines.len() implies exact_on(#[trigger] lines[i], lo, hi) by {
            assert(lines[i].m == 0);
        }
    }
    lemma_all_exact_pairwise(lines, lo, hi);
    lemma_stored_minimum_is_lower_envelope(lo, hi, lines, x);
    lemma_horizontal_envelope(lines, x);
}

/// Lines that do not saturate over the domain: the tree holds for every
/// coordinate the least of their exact values `m * x + c`.
pub proof fn lemma_exact_lines(lo: int, hi: int, lines: Seq<Line>, x: int)
    requires
        lo <= x <= hi,
        all_exact_on(lines, lo, hi),
    ensures
        forall|i: int|
            0 <= i < lines.len()
                ==> (#[trigger] lines[i]).value_at(x) == lines[i].m * x + lines[i].c,
        stored_minimum(lo, hi, lines, x) == lower_envelope(lines, x),
{
    assert forall|i: int| 0 <= i < lines.len()
        implies (#[trigger] lines[i]).value_at(x) == lines[i].m * x + lines[i].c by {
        lemma_exact_value(lines[i], lo, hi, x);
    }
    lemma_all_exact_pairwise(lines, lo, hi);
    lemma_stored_minimum_is_lower_envelope(lo, hi, lines, x);
}

/// Whatever the lines are, a path minimum over nodes drawn from them is
/// `i64::MAX` or the value of one of them.
proof fn lemma_path_minimum_attained(
    nodes: Seq<Line>,
    v: int,
    lo: int,
    hi: int,
    x: int,
    lines: Seq<Line>,
)
    requires
        drawn_from(nodes, lines),
    ensures
        path_minimum(nodes, v, lo, hi, x) == i64::MAX || exists|i: int|
            0 <= i < lines.len()
                && (#[trigger] lines[i]).value_at(x) == path_minimum(nodes, v, lo, hi, x),
    decreases hi - lo,
{
    if 0 <= v < nodes.len() {
        lemma_no_line_value(x);
        assert(known(lines, nodes[v]));
        if nodes[v] != no_line() {
            let i = choose|i: int| 0 <= i < lines.len() && lines[i] == nodes[v];
            assert(lines[i].value_at(x) == nodes[v].value_at(x));
        }
        if lo < hi {
            let mid = midpoint(lo, hi);
            if x <= mid {
                lemma_path_minimum_attained(nodes, 2 * v + 1, lo, mid, x, lines);
            } else {
                lemma_path_minimum_attained(nodes, 2 * v + 2, mid + 1, hi, x, lines);
            }
        }
    }
}

/// Whatever the lines are, the tree holds for a coordinate `i64::MAX` or a
/// value that one of the inserted lines takes there, and so never less than
/// the least of their values.
pub proof fn lemma_stored_minimum_is_attained(lo: int, hi: int, lines: Seq<Line>, x: int)
    requires
        lo <= hi,
    ensures
        stored_minimum(lo, hi, lines, x) == i64::MAX || exists|i: int|
            0 <= i < lines.len()
                && (#[trigger] lines[i]).value_at(x) == stored_minimum(lo, hi, lines, x),
        lower_envelope(lines, x) <= stored_minimum(lo, hi, lines, x) <= i64::MAX,
{
    lemma_nodes_of_shape(lo, hi, lines);
    lemma_path_minimum_attained(nodes_of(lo, hi, lines), 0, lo, hi, x, lines);
    lemma_lower_envelope_least(lines, x);
}

} // verus!
