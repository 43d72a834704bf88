use li_chao_tree::{LiChaoTree, Line};
use rand::rngs::StdRng;
use rand::Rng;
use rand::SeedableRng;

#[test]
fn test_stress() {
    let mut tree = LiChaoTree::new(-1_000_000, 1_000_000);
    let mut rng = StdRng::seed_from_u64(69420);

    let mut lines: Vec<Line> = Vec::new();

    for idx in 0..10_000 {
        let m = rng.random_range(-1_000_000..=1_000_000);
        let c = rng.random_range(-1_000_000..=1_000_000);
        let line = Line::new(m, c);
        lines.push(line.clone());
        tree.add_line(line);
        let t = rng.random_range(-1_000_000..=1_000_000);
        let mut oracle = i64::max_value();
        for elem in &lines {
            oracle = oracle.min(elem.eval(t));
        }
        let guess = tree.query(t);
        assert_eq!(guess, Some(oracle), "Stress failed on idx {}", idx);
    }
}
