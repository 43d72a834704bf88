use li_chao_tree::{LiChaoTree, Line};

fn least_value(lines: &[Line], x: i64) -> Option<i64> {
    let mut least = i64::MAX;
    for line in lines {
        least = least.min(line.eval(x));
    }
    if least == i64::MAX {
        None
    } else {
        Some(least)
    }
}

fn answers(lo: i64, hi: i64, lines: &[Line]) -> Vec<Option<i64>> {
    let mut tree = LiChaoTree::new(lo, hi);
    for line in lines {
        tree.add_line(*line);
    }
    (lo..=hi).map(|x| tree.query(x)).collect()
}

fn small_lines() -> Vec<Line> {
    let mut lines = Vec::new();
    for m in -2..=2 {
        for c in -2..=2 {
            lines.push(Line::new(m, c));
        }
    }
    lines
}

#[test]
fn empty_tree_has_no_value() {
    let tree = LiChaoTree::new(-3, 3);
    for x in -3..=3 {
        assert_eq!(tree.query(x), None);
    }
}

#[test]
fn single_line_is_its_own_minimum() {
    let mut tree = LiChaoTree::new(-4, 4);
    tree.add_line(Line::new(3, -1));
    assert_eq!(tree.query(-4), Some(-13));
    assert_eq!(tree.query(0), Some(-1));
    assert_eq!(tree.query(4), Some(11));
}

#[test]
fn scenario_two_lines_over_zero_to_ten() {
    let mut tree = LiChaoTree::new(0, 10);
    tree.add_line(Line::new(2, 3));
    tree.add_line(Line::new(-1, 10));
    assert_eq!(tree.query(0), Some(3));
    assert_eq!(tree.query(5), Some(5));
    assert_eq!(tree.query(10), Some(0));
    assert_eq!(tree.query(2), Some(7));
    assert_eq!(tree.query(3), Some(7));
}

#[test]
fn scenario_steep_line_over_zero_to_twenty() {
    let mut tree = LiChaoTree::new(0, 20);
    tree.add_line(Line::new(-10, 100));
    tree.add_line(Line::new(1, 0));
    assert_eq!(tree.query(0), Some(0));
    assert_eq!(tree.query(9), Some(9));
    assert_eq!(tree.query(10), Some(0));
    assert_eq!(tree.query(20), Some(-100));
}

#[test]
fn every_pair_and_triple_of_small_lines_matches_the_least_value() {
    let lines = small_lines();
    let (lo, hi) = (-3, 4);
    for a in &lines {
        for b in &lines {
            let pair = [*a, *b];
            let got = answers(lo, hi, &pair);
            for x in lo..=hi {
                assert_eq!(got[(x - lo) as usize], least_value(&pair, x));
            }
            for c in lines.iter().step_by(3) {
                let triple = [*a, *b, *c];
                let got = answers(lo, hi, &triple);
                for x in lo..=hi {
                    assert_eq!(got[(x - lo) as usize], least_value(&triple, x));
                }
            }
        }
    }
}

#[test]
fn answers_do_not_depend_on_the_order() {
    let a = Line::new(3, -20);
    let b = Line::new(-2, 5);
    let c = Line::new(0, -1);
    let d = Line::new(1, -9);
    let expected = answers(-8, 8, &[a, b, c, d]);
    let orders = [
        [a, b, d, c],
        [a, c, b, d],
        [b, a, c, d],
        [c, d, a, b],
        [d, c, b, a],
        [d, a, c, b],
    ];
    for order in orders {
        assert_eq!(answers(-8, 8, &order), expected);
    }
    for x in -8..=8 {
        assert_eq!(expected[(x + 8) as usize], least_value(&[a, b, c, d], x));
    }
    assert_eq!(expected[0], Some(-44));
    assert_eq!(expected[8], Some(-20));
    assert_eq!(expected[16], Some(-11));
}

#[test]
fn duplicates_change_nothing() {
    let a = Line::new(4, 0);
    let b = Line::new(-3, 2);
    let c = Line::new(1, -6);
    let once = answers(-5, 5, &[a, b, c]);
    assert_eq!(answers(-5, 5, &[a, a, b, c]), once);
    assert_eq!(answers(-5, 5, &[a, b, a, c, b]), once);
    assert_eq!(answers(-5, 5, &[a, b, c, c, c, a]), once);
}

#[test]
fn repeating_the_last_line_changes_nothing_even_where_lines_saturate() {
    let a = Line::new(-(1 << 62), 0);
    let b = Line::new(-i64::MAX, 0);
    let c = Line::new(1, -3);
    assert_eq!(answers(-2, 3, &[a, b, c, c]), answers(-2, 3, &[a, b, c]));
    assert_eq!(answers(-2, 3, &[a, b, b]), answers(-2, 3, &[a, b]));
}

#[test]
fn single_coordinate_domain_takes_any_lines() {
    let mut tree = LiChaoTree::new(-7, -7);
    assert_eq!(tree.query(-7), None);
    tree.add_line(Line::new(i64::MIN, i64::MIN));
    assert_eq!(tree.query(-7), Some(-1));
    tree.add_line(Line::new(i64::MAX, 5));
    assert_eq!(tree.query(-7), Some(i64::MIN + 5));
    tree.add_line(Line::new(2, 4));
    assert_eq!(tree.query(-7), Some(i64::MIN + 5));
    tree.add_line(Line::new(i64::MAX, i64::MIN));
    assert_eq!(tree.query(-7), Some(i64::MIN));
}

#[test]
fn two_coordinate_domain() {
    let mut tree = LiChaoTree::new(0, 1);
    tree.add_line(Line::new(5, 0));
    tree.add_line(Line::new(-5, 3));
    assert_eq!(tree.query(0), Some(0));
    assert_eq!(tree.query(1), Some(-2));
}

#[test]
fn least_constant_wins_everywhere() {
    let mut tree = LiChaoTree::new(-50, 50);
    for c in [9, 4, 7, -3, 12, -3, 0] {
        tree.add_line(Line::new(0, c));
    }
    for x in -50..=50 {
        assert_eq!(tree.query(x), Some(-3));
    }
}

#[test]
fn tie_at_the_midpoint_keeps_both_sides_right() {
    // The two lines meet at x = 5, the midpoint of the domain.
    let up = Line::new(1, 0);
    let down = Line::new(-1, 10);
    for order in [[up, down], [down, up]] {
        let got = answers(0, 10, &order);
        for x in 0..=10 {
            assert_eq!(got[x as usize], Some(x.min(10 - x)));
        }
    }
}

#[test]
fn line_that_reaches_the_largest_value_counts_as_absent_there() {
    let mut tree = LiChaoTree::new(0, 2);
    tree.add_line(Line::new(-1, i64::MAX));
    assert_eq!(tree.query(0), None);
    assert_eq!(tree.query(1), Some(i64::MAX - 1));
    assert_eq!(tree.query(2), Some(i64::MAX - 2));

    let mut flat = LiChaoTree::new(0, 2);
    flat.add_line(Line::new(1, i64::MAX));
    assert_eq!(flat.query(0), None);
    assert_eq!(flat.query(1), None);
    assert_eq!(flat.query(2), None);
}

#[test]
fn domain_at_the_ends_of_the_coordinates() {
    let mut high = LiChaoTree::new(i64::MAX - 3, i64::MAX);
    high.add_line(Line::new(0, 8));
    high.add_line(Line::new(1, 0));
    assert_eq!(high.query(i64::MAX - 3), Some(8));
    assert_eq!(high.query(i64::MAX), Some(8));
    high.add_line(Line::new(-1, 0));
    assert_eq!(high.query(i64::MAX - 3), Some(3 - i64::MAX));
    assert_eq!(high.query(i64::MAX), Some(-i64::MAX));

    let mut low = LiChaoTree::new(i64::MIN, i64::MIN + 2);
    low.add_line(Line::new(1, 0));
    low.add_line(Line::new(0, -5));
    assert_eq!(low.query(i64::MIN), Some(i64::MIN));
    assert_eq!(low.query(i64::MIN + 1), Some(i64::MIN + 1));
    assert_eq!(low.query(i64::MIN + 2), Some(i64::MIN + 2));
}

#[test]
fn saturating_lines_that_cross_twice() {
    // `steep` flattens at 2^62 - 1 from x = 2 on, so that `gentle` is above
    // it at 0, below it at 1 and 2, and above it again at 4.
    let steep = Line::new(1 << 62, -(1 << 62));
    let gentle = Line::new(1 << 61, -(1 << 61) - 1);
    assert_eq!(steep.eval(4), 4611686018427387903);
    assert_eq!(gentle.eval(4), 6917529027641081854);

    let mut tree = LiChaoTree::new(0, 4);
    tree.add_line(steep);
    tree.add_line(gentle);
    assert_eq!(tree.query(0), Some(-4611686018427387904));
    assert_eq!(tree.query(1), Some(-1));
    assert_eq!(tree.query(2), Some(2305843009213693951));
    assert_eq!(tree.query(3), Some(4611686018427387903));
    // The tree holds `gentle` alone for x = 4: a value of an inserted line,
    // not the least one.
    assert_eq!(tree.query(4), Some(6917529027641081854));
}

#[test]
fn order_matters_where_saturating_lines_cross_twice() {
    let a = Line::new(-4611686018427387902, -2305843009213693951);
    let b = Line::new(i64::MIN, -1);
    let c = Line::new(1152921504606846975, -1);
    let forward = answers(-2, 3, &[a, b, c]);
    let backward = answers(-2, 3, &[c, b, a]);
    assert_eq!(forward[3], Some(-6917529027641081853));
    assert_eq!(backward[3], Some(i64::MIN));
    for x in [-2, -1, 0, 2, 3] {
        assert_eq!(forward[(x + 2) as usize], backward[(x + 2) as usize]);
    }
}

#[test]
fn repeating_an_earlier_line_matters_where_saturating_lines_cross_twice() {
    let a = Line::new(-(1 << 62), 0);
    let b = Line::new(-i64::MAX, 0);
    let c = Line::new(1, -3);
    let once = answers(-2, 3, &[a, b, c]);
    let again = answers(-2, 3, &[a, b, c, b]);
    assert_eq!(once[3], Some(-4611686018427387904));
    assert_eq!(again[3], Some(-i64::MAX));
    assert_eq!(least_value(&[a, b, c], 1), Some(-i64::MAX));
}
