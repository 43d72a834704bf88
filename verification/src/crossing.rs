//! When two lines cross at most once, and the lower envelope of a set of
//! lines.
//!
//! Two lines in exact arithmetic cross at most once. Saturating evaluation
//! flattens a line where it leaves the range of `i64`, so that two saturating
//! lines may cross twice. The predicates here say of the saturating values
//! themselves what the tree relies on.

use vstd::prelude::*;
use vstd::math::min;
use crate::line::{Line, no_line};

verus! {

/// Whether `f` is strictly below `g` at `x`.
pub open spec fn below(f: Line, g: Line, x: int) -> bool {
    f.value_at(x) < g.value_at(x)
}

/// Over `[lo, hi]`, "`f` is strictly below `g`" changes at most once: between
/// two coordinates at which it holds it holds, and between two at which it
/// fails it fails.
pub open spec fn below_changes_once(f: Line, g: Line, lo: int, hi: int) -> bool {
    forall|a: int, b: int, c: int|
        #![trigger below(f, g, a), below(f, g, b), below(f, g, c)]
        lo <= a <= b <= c <= hi && below(f, g, a) == below(f, g, c)
            ==> below(f, g, b) == below(f, g, a)
}

/// Over `[lo, hi]` the two lines cross at most once.
pub open spec fn single_crossing(f: Line, g: Line, lo: int, hi: int) -> bool {
    below_changes_once(f, g, lo, hi) && below_changes_once(g, f, lo, hi)
}

/// Over `[lo, hi]` any two of the lines cross at most once.
pub open spec fn pairwise_single_crossing(lines: Seq<Line>, lo: int, hi: int) -> bool {
    forall|i: int, j: int|
        0 <= i < lines.len() && 0 <= j < lines.len()
            ==> single_crossing(#[trigger] lines[i], #[trigger] lines[j], lo, hi)
}

/// Whether `v` is a value of `i64`.
pub open spec fn fits_i64(v: int) -> bool {
    i64::MIN <= v <= i64::MAX
}

/// The line does not saturate on `[lo, hi]`: at both ends the product and
/// the sum are values of `i64`.
pub open spec fn exact_on(f: Line, lo: int, hi: int) -> bool {
    &&& fits_i64(f.m * lo)
    &&& fits_i64(f.m * hi)
    &&& fits_i64(f.m * lo + f.c)
    &&& fits_i64(f.m * hi + f.c)
}

/// None of the lines saturates on `[lo, hi]`.
pub open spec fn all_exact_on(lines: Seq<Line>, lo: int, hi: int) -> bool {
    forall|i: int| 0 <= i < lines.len() ==> exact_on(#[trigger] lines[i], lo, hi)
}

/// The least value that any of the lines takes at `x`, and `i64::MAX` where
/// there is no line.
pub open spec fn lower_envelope(lines: Seq<Line>, x: int) -> int
    decreases lines.len(),
{
    if lines.len() == 0 {
        i64::MAX as int
    } else {
        min(lower_envelope(lines.drop_last(), x), lines.last().value_at(x))
    }
}

/// The reserved value takes `i64::MAX` everywhere.
pub proof fn lemma_no_line_value(x: int)
    ensures
        no_line().value_at(x) == i64::MAX,
{
}

/// A line rises with `x` where its slope is not negative and falls where it
/// is not positive, saturation included.
pub proof fn lemma_value_monotone(f: Line, a: int, b: int)
    requires
        a <= b,
    ensures
        f.m >= 0 ==> f.value_at(a) <= f.value_at(b),
        f.m <= 0 ==> f.value_at(a) >= f.value_at(b),
{
    let m = f.m as int;
    assert((m >= 0 ==> m * a <= m * b) && (m <= 0 ==> m * a >= m * b)) by (nonlinear_arith)
        requires
            a <= b,
    ;
}

/// Every line crosses the reserved value at most once.
pub proof fn lemma_single_crossing_no_line(f: Line, lo: int, hi: int)
    ensures
        single_crossing(f, no_line(), lo, hi),
        single_crossing(no_line(), f, lo, hi),
{
    let g = no_line();
    assert forall|a: int, b: int, c: int|
        #![trigger below(f, g, a), below(f, g, b), below(f, g, c)]
        lo <= a <= b <= c <= hi && below(f, g, a) == below(f, g, c)
        implies below(f, g, b) == below(f, g, a) by {
        lemma_value_monotone(f, a, b);
        lemma_value_monotone(f, b, c);
    }
    assert(below_changes_once(g, f, lo, hi));
}

/// On a range on which it does not saturate, a line takes its exact values.
pub proof fn lemma_exact_value(f: Line, lo: int, hi: int, x: int)
    requires
        exact_on(f, lo, hi),
        lo <= x <= hi,
    ensures
        f.value_at(x) == f.m * x + f.c,
{
    let m = f.m as int;
    assert((m >= 0 ==> m * lo <= m * x <= m * hi) && (m <= 0 ==> m * lo >= m * x >= m * hi))
        by (nonlinear_arith)
        requires
            lo <= x <= hi,
    ;
}

proof fn lemma_exact_below_changes_once(f: Line, g: Line, lo: int, hi: int)
    requires
        exact_on(f, lo, hi),
        exact_on(g, lo, hi),
    ensures
        below_changes_once(f, g, lo, hi),
{
    assert forall|a: int, b: int, c: int|
        #![trigger below(f, g, a), below(f, g, b), below(f, g, c)]
        lo <= a <= b <= c <= hi && below(f, g, a) == below(f, g, c)
        implies below(f, g, b) == below(f, g, a) by {
        lemma_exact_value(f, lo, hi, a);
        lemma_exact_value(f, lo, hi, b);
        lemma_exact_value(f, lo, hi, c);
        lemma_exact_value(g, lo, hi, a);
        lemma_exact_value(g, lo, hi, b);
        lemma_exact_value(g, lo, hi, c);
        let fm = f.m as int;
        let gm = g.m as int;
        let k = fm - gm;
        assert(fm * a - gm * a == k * a && fm * b - gm * b == k * b && fm * c - gm * c == k * c)
            by (nonlinear_arith)
            requires
                k == fm - gm,
        ;
        assert((k >= 0 ==> k * a <= k * b <= k * c) && (k <= 0 ==> k * a >= k * b >= k * c))
            by (nonlinear_arith)
            requires
                a <= b <= c,
        ;
    }
}

/// Two lines that do not saturate on `[lo, hi]` cross at most once there.
pub proof fn lemma_exact_single_crossing(f: Line, g: Line, lo: int, hi: int)
    requires
        exact_on(f, lo, hi),
        exact_on(g, lo, hi),
    ensures
        single_crossing(f, g, lo, hi),
{
    lemma_exact_below_changes_once(f, g, lo, hi);
    lemma_exact_below_changes_once(g, f, lo, hi);
}

/// Lines of which none saturates on `[lo, hi]` cross each other at most once
/// there.
pub proof fn lemma_all_exact_pairwise(lines: Seq<Line>, lo: int, hi: int)
    requires
        all_exact_on(lines, lo, hi),
    ensures
        pairwise_single_crossing(lines, lo, hi),
{
    assert forall|i: int, j: int| 0 <= i < lines.len() && 0 <= j < lines.len()
        implies single_crossing(#[trigger] lines[i], #[trigger] lines[j], lo, hi) by {
        lemma_exact_single_crossing(lines[i], lines[j], lo, hi);
    }
}

/// On a single coordinate any lines cross at most once.
pub proof fn lemma_single_point_pairwise(lines: Seq<Line>, x: int)
    ensures
        pairwise_single_crossing(lines, x, x),
{
}

/// The lower envelope is a lower bound of the lines' values, and a value of
/// one of them unless there is none.
pub proof fn lemma_lower_envelope_least(lines: Seq<Line>, x: int)
    ensures
        forall|i: int|
            0 <= i < lines.len() ==> lower_envelope(lines, x) <= (#[trigger] lines[i]).value_at(x),
        lines.len() > 0 ==> exists|i: int|
            0 <= i < lines.len() && (#[trigger] lines[i]).value_at(x) == lower_envelope(lines, x),
        lines.len() == 0 ==> lower_envelope(lines, x) == i64::MAX,
        i64::MIN <= lower_envelope(lines, x) <= i64::MAX,
    decreases lines.len(),
{
    if lines.len() > 0 {
        let front = lines.drop_last();
        lemma_lower_envelope_least(front, x);
        assert forall|i: int| 0 <= i < lines.len()
            implies lower_envelope(lines, x) <= (#[trigger] lines[i]).value_at(x) by {
            if i < front.len() {
                assert(front[i] == lines[i]);
            }
        }
        if front.len() > 0 && lower_envelope(lines, x) == lower_envelope(front, x) {
            let i = choose|i: int|
                0 <= i < front.len()
                    && (#[trigger] front[i]).value_at(x) == lower_envelope(front, x);
            assert(lines[i] == front[i]);
        } else {
            assert(lines[lines.len() - 1].value_at(x) == lower_envelope(lines, x));
        }
    }
}

/// The lower envelope depends only on which lines there are, not on their
/// order or on how often each occurs.
pub proof fn lemma_lower_envelope_same_lines(a: Seq<Line>, b: Seq<Line>, x: int)
    requires
        forall|f: Line| a.contains(f) <==> b.contains(f),
    ensures
        lower_envelope(a, x) == lower_envelope(b, x),
{
    lemma_lower_envelope_least(a, x);
    lemma_lower_envelope_least(b, x);
    if a.len() > 0 {
        let i = choose|i: int|
            0 <= i < a.len() && (#[trigger] a[i]).value_at(x) == lower_envelope(a, x);
        assert(a.contains(a[i]));
        assert(b.contains(a[i]));
    }
    if b.len() > 0 {
        let j = choose|j: int|
            0 <= j < b.len() && (#[trigger] b[j]).value_at(x) == lower_envelope(b, x);
        assert(b.contains(b[j]));
        assert(a.contains(b[j]));
    }
}

} // verus!
