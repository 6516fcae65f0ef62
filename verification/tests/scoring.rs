use daybook::ideals::get_ideal_proportions;
use daybook::ideals::Ideals;
use daybook::score::get_points;
use daybook::score::weight_total;
use daybook::score::Score;
use daybook::score::ScoreError;
use daybook::tree_node::TreeNode;

fn tree_of(entries: &[(&[u8], u64)]) -> TreeNode {
    let mut tree = TreeNode::new();
    for (major, seconds) in entries {
        tree.insert(major, b"any", b"thing", *seconds);
    }
    tree
}

fn points(score: Score) -> f64 {
    score.numerator as f64 / score.denominator as f64
}

#[test]
fn scorer_never_over_credits() {
    let tree = tree_of(&[(b"work", 9000), (b"chore", 1000)]);
    let ideals = get_ideal_proportions(b"work 50\nchore 50\nslop 5\n", 0).unwrap();
    assert_eq!(weight_total(&ideals), 105_000_000);
    let score = get_points(&tree, &ideals).unwrap();
    // shares: min(9000 * 105e6, 50e6 * 10000) + min(1000 * 105e6, 50e6 * 10000)
    assert_eq!(score.numerator, 100_000_000 * (500_000_000_000 + 105_000_000_000) + 5_000_000 * 1_050_000_000_000);
    assert_eq!(score.denominator, 1_000_000 * 1_050_000_000_000);
    let expected = 100.0 * 50.0 / 105.0 + 10.0 + 5.0;
    assert!((points(score) - expected).abs() < 1e-9);
}

#[test]
fn score_without_slop_is_an_error() {
    let tree = tree_of(&[(b"work", 10)]);
    let ideals = get_ideal_proportions(b"work 50\n", 0).unwrap();
    assert_eq!(get_points(&tree, &ideals), Err(ScoreError::MissingSlop));
}

#[test]
fn score_of_an_empty_tree_is_the_slop() {
    let tree = TreeNode::new();
    let ideals = get_ideal_proportions(b"work 50\nslop 2.5\n", 0).unwrap();
    assert_eq!(get_points(&tree, &ideals), Ok(Score { numerator: 2_500_000, denominator: 1_000_000 }));
}

#[test]
fn unlisted_categories_and_slop_are_not_credited() {
    let tree = tree_of(&[(b"work", 50), (b"slop", 25), (b"play", 25)]);
    let ideals = get_ideal_proportions(b"work 60\nslop 40\n", 0).unwrap();
    let score = get_points(&tree, &ideals).unwrap();
    // work: actual 50 %, ideal 60 % -> 50; slop adds 40 as it stands.
    assert!((points(score) - 90.0).abs() < 1e-9);
}

#[test]
fn score_too_large_is_reported() {
    let mut tree = TreeNode::new();
    tree.insert(b"work", b"a", b"b", u64::MAX);
    tree.insert(b"work", b"a", b"b", u64::MAX);
    let mut ideals = Ideals::new();
    ideals.set(b"work", u64::MAX);
    ideals.set(b"slop", 0);
    assert_eq!(get_points(&tree, &ideals), Err(ScoreError::TooLarge));
}

#[test]
fn more_time_below_ideal_scores_higher() {
    let ideals = get_ideal_proportions(b"work 30\nchore 30\nfun 40\nslop 0\n", 0).unwrap();
    let before = get_points(&tree_of(&[(b"work", 10), (b"chore", 10), (b"fun", 80)]), &ideals).unwrap();
    let after = get_points(&tree_of(&[(b"work", 20), (b"chore", 10), (b"fun", 80)]), &ideals).unwrap();
    assert!(after.numerator * before.denominator > before.numerator * after.denominator);
}

#[test]
fn more_time_above_ideal_scores_no_higher() {
    let ideals = get_ideal_proportions(b"work 30\nchore 30\nfun 40\nslop 0\n", 0).unwrap();
    let before = get_points(&tree_of(&[(b"work", 10), (b"chore", 10), (b"fun", 80)]), &ideals).unwrap();
    let after = get_points(&tree_of(&[(b"work", 10), (b"chore", 10), (b"fun", 90)]), &ideals).unwrap();
    assert!(after.numerator * before.denominator <= before.numerator * after.denominator);
}

#[test]
fn overshooting_the_ideal_can_lower_the_score() {
    let ideals = get_ideal_proportions(b"work 2\nchore 49\nfun 49\nslop 0\n", 0).unwrap();
    let before = get_points(&tree_of(&[(b"work", 0), (b"chore", 50), (b"fun", 50)]), &ideals).unwrap();
    let after = get_points(&tree_of(&[(b"work", 100), (b"chore", 50), (b"fun", 50)]), &ideals).unwrap();
    assert!((points(before) - 98.0).abs() < 1e-9);
    assert!((points(after) - 52.0).abs() < 1e-9);
}
