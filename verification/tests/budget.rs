use daybook::ideals::get_ideal_proportions;
use daybook::ideals::parse_weight;
use daybook::ideals::Ideals;
use daybook::ideals::IdealsError;

const SAMPLE: &[u8] = b"# intro\nwork 40\nchore 10\n1000\nwork 30\nchore 20\n";

#[test]
fn ideals_snapshot_switch() {
    let early = get_ideal_proportions(SAMPLE, 500).unwrap();
    assert_eq!(early.names.len(), 2);
    assert_eq!(early.get(b"work"), Some(40_000_000));
    assert_eq!(early.get(b"chore"), Some(10_000_000));
    let late = get_ideal_proportions(SAMPLE, 1500).unwrap();
    assert_eq!(late.names.len(), 2);
    assert_eq!(late.get(b"work"), Some(30_000_000));
    assert_eq!(late.get(b"chore"), Some(20_000_000));
}

#[test]
fn boundary_equal_to_the_query_is_in_effect() {
    let at = get_ideal_proportions(SAMPLE, 1000).unwrap();
    assert_eq!(at.get(b"work"), Some(30_000_000));
    let before = get_ideal_proportions(SAMPLE, 999).unwrap();
    assert_eq!(before.get(b"work"), Some(40_000_000));
}

#[test]
fn later_boundaries_are_not_read() {
    let text = b"work 1\n10\nwork 2\n20\nthis line has four tokens\n";
    let snapshot = get_ideal_proportions(text, 15).unwrap();
    assert_eq!(snapshot.get(b"work"), Some(2_000_000));
    assert_eq!(get_ideal_proportions(text, 25).unwrap_err(), IdealsError::MalformedLine);
}

#[test]
fn blank_lines_and_comments_are_skipped() {
    let text = b"\n# a comment with many words in it\nwork 12.5\n\nslop 5";
    let snapshot = get_ideal_proportions(text, 0).unwrap();
    assert_eq!(snapshot.names.len(), 2);
    assert_eq!(snapshot.get(b"work"), Some(12_500_000));
    assert_eq!(snapshot.get(b"slop"), Some(5_000_000));
    assert_eq!(snapshot.get(b"play"), None);
}

#[test]
fn a_later_entry_replaces_an_earlier_one() {
    let snapshot = get_ideal_proportions(b"work 1\nplay 2\nwork 3\n", 0).unwrap();
    assert_eq!(snapshot.names, vec![b"play".to_vec(), b"work".to_vec()]);
    assert_eq!(snapshot.weights, vec![2_000_000, 3_000_000]);
}

#[test]
fn malformed_budget_lines() {
    assert_eq!(get_ideal_proportions(b"a b c\n", 0).unwrap_err(), IdealsError::MalformedLine);
    assert_eq!(get_ideal_proportions(b"work  5\n", 0).unwrap_err(), IdealsError::MalformedLine);
    assert_eq!(get_ideal_proportions(b"soon\n", 0).unwrap_err(), IdealsError::MalformedTimestamp);
    assert_eq!(get_ideal_proportions(b"-5\n", 0).unwrap_err(), IdealsError::MalformedTimestamp);
    assert_eq!(get_ideal_proportions(b"work much\n", 0).unwrap_err(), IdealsError::MalformedWeight);
    assert_eq!(get_ideal_proportions(b"work 1.2.3\n", 0).unwrap_err(), IdealsError::MalformedWeight);
}

#[test]
fn weights_are_read_in_millionths() {
    assert_eq!(parse_weight(b"0"), Some(0));
    assert_eq!(parse_weight(b"40"), Some(40_000_000));
    assert_eq!(parse_weight(b"0.5"), Some(500_000));
    assert_eq!(parse_weight(b"12.345678"), Some(12_345_678));
    assert_eq!(parse_weight(b"007.010"), Some(7_010_000));
    assert_eq!(parse_weight(b"18446744073709.551615"), Some(u64::MAX));
    assert_eq!(parse_weight(b"18446744073709.551616"), None);
    assert_eq!(parse_weight(b"18446744073710"), None);
    assert_eq!(parse_weight(b"1.2345678"), None);
    assert_eq!(parse_weight(b""), None);
    assert_eq!(parse_weight(b"."), None);
    assert_eq!(parse_weight(b"5."), None);
    assert_eq!(parse_weight(b".5"), None);
    assert_eq!(parse_weight(b"1e3"), None);
    assert_eq!(parse_weight(b"-1"), None);
}

#[test]
fn set_overwrites_and_keeps_the_names_sorted() {
    let mut ideals = Ideals::new();
    ideals.set(b"work", 1);
    ideals.set(b"play", 2);
    ideals.set(b"work", 3);
    assert_eq!(ideals.get(b"work"), Some(3));
    assert_eq!(ideals.get(b"play"), Some(2));
    ideals.set(b"rest", 4);
    assert_eq!(ideals.names, vec![b"play".to_vec(), b"rest".to_vec(), b"work".to_vec()]);
    assert_eq!(ideals.weights, vec![2, 4, 3]);
    assert_eq!(ideals.position(b"rest"), Some(1));
    assert_eq!(ideals.position(b"idle"), None);
}
