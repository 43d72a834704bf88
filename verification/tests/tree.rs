use li_chao_tree::{LiChaoTree, Line};

#[test]
fn test_simple_lines() {
    let mut tree = LiChaoTree::new(0, 10);

    tree.add_line(Line::new(2, 3));
    // 2*0+3 = 3
    assert_eq!(tree.query(0), Some(3));
    // 2*5+3 = 13
    assert_eq!(tree.query(5), Some(13));
    // 2*10+3 = 23
    assert_eq!(tree.query(10), Some(23));

    tree.add_line(Line::new(-1, 10));
    // min(3, 10) = 3
    assert_eq!(tree.query(0), Some(3));
    // min(13, 5) = 5
    assert_eq!(tree.query(5), Some(5));
    // min(23, 0) = 0
    assert_eq!(tree.query(10), Some(0));

    // min(7,8) = 7
    assert_eq!(tree.query(2), Some(7));
    // min(9,7) = 7
    assert_eq!(tree.query(3), Some(7));
}

#[test]
fn test_single_point_range() {
    let mut tree = LiChaoTree::new(5, 5);
    tree.add_line(Line::new(10, -5));
    assert_eq!(tree.query(5), Some(45));

    tree.add_line(Line::new(1, 4));
    assert_eq!(tree.query(5), Some(9));
}

#[test]
fn test_all_same_lines() {
    let mut tree = LiChaoTree::new(0, 100);
    let line = Line::new(1, 1);
    tree.add_line(line);
    tree.add_line(line);
    tree.add_line(line);
    for i in 0..=100 {
        assert_eq!(tree.query(i), Some(line.eval(i)));
    }
}

#[test]
fn test_horizontal_lines() {
    let mut tree = LiChaoTree::new(-10, 10);
    tree.add_line(Line::new(0, 5));
    assert_eq!(tree.query(0), Some(5));
    assert_eq!(tree.query(-10), Some(5));
    assert_eq!(tree.query(10), Some(5));

    tree.add_line(Line::new(0, 2));
    assert_eq!(tree.query(0), Some(2));
    assert_eq!(tree.query(5), Some(2));

    tree.add_line(Line::new(0, 10));
    assert_eq!(tree.query(0), Some(2));
}

#[test]
fn test_steeper_lines_crossing_over() {
    let mut tree = LiChaoTree::new(0, 20);
    // Line 1: y = -10x + 100
    // Line 2: y = x
    // Intersection: -10x + 100 = x => 11x = 100 => x approx 9.09
    let l1 = Line::new(-10, 100);
    let l2 = Line::new(1, 0);
    tree.add_line(l1);
    tree.add_line(l2);

    assert_eq!(tree.query(0), Some(l2.eval(0)));
    assert_eq!(tree.query(5), Some(l2.eval(5)));
    assert_eq!(tree.query(9), Some(l2.eval(9)));

    assert_eq!(tree.query(9), Some(9));

    assert_eq!(tree.query(10), Some(0));
    assert_eq!(tree.query(15), Some(l1.eval(15)));
    assert_eq!(tree.query(20), Some(l1.eval(20)));
}

#[test]
fn test_large_coordinates_and_values() {
    let mut tree = LiChaoTree::new(-1000, 1000);

    // y = 10^6 * x + 5 * 10^11
    let line1 = Line::new(1_000_000, 500_000_000_000);
    tree.add_line(line1);
    assert_eq!(tree.query(0), Some(500_000_000_000));
    assert_eq!(tree.query(1000), Some(line1.eval(1000))); // 501 * 10^9
    assert_eq!(tree.query(-1000), Some(line1.eval(-1000))); // 499 * 10^9

    // y = -2*10^6 * x + 6 * 10^11
    let line2 = Line::new(-2_000_000, 600_000_000_000);
    tree.add_line(line2);

    assert_eq!(tree.query(0), Some(500_000_000_000));
    assert_eq!(tree.query(-1000), Some(line1.eval(-1000)));
    assert_eq!(tree.query(1000), Some(line1.eval(1000)));
    assert_eq!(tree.query(100), Some(line1.eval(100)));
}
