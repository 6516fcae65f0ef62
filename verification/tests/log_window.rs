use daybook::parse::parse_file;
use daybook::parse::ParseError;

#[test]
fn single_interval_within_window() {
    let (tree, current, band) = parse_file(b"100\twork.code.backend\n", 50, 200).unwrap();
    assert_eq!(band.len(), 1);
    assert_eq!(band[0].start, 100);
    assert_eq!(band[0].duration, 100);
    assert_eq!(band[0].tag, b"work.code.backend".to_vec());
    assert_eq!(tree.value, 100);
    assert_eq!(tree.keys, vec![b"work".to_vec()]);
    assert_eq!(tree.children[0].value, 100);
    assert_eq!(tree.children[0].children[0].value, 100);
    assert_eq!(tree.children[0].children[0].keys, vec![b"backend".to_vec()]);
    assert_eq!(tree.children[0].children[0].children[0].value, 100);
    assert_eq!(current.major, b"work".to_vec());
    assert_eq!(current.minor, b"code".to_vec());
    assert_eq!(current.activity, b"backend".to_vec());
}

#[test]
fn clipping_at_begin() {
    let log = b"50\twork.code.backend\n150\thealth.food.lunch\n";
    let (tree, _, band) = parse_file(log, 100, 200).unwrap();
    assert_eq!(band.len(), 2);
    assert_eq!((band[0].start, band[0].duration), (100, 50));
    assert_eq!(band[0].tag, b"work.code.backend".to_vec());
    assert_eq!((band[1].start, band[1].duration), (150, 50));
    assert_eq!(band[1].tag, b"health.food.lunch".to_vec());
    assert_eq!(tree.value, 100);
}

#[test]
fn sleep_dropped() {
    let log = b"0\thealth.rest.sleep\n3600\twork.code.backend\n";
    let (tree, _, band) = parse_file(log, 0, 7200).unwrap();
    assert_eq!(tree.value, 3600);
    assert_eq!(tree.keys, vec![b"work".to_vec()]);
    assert_eq!(band.len(), 1);
}

#[test]
fn malformed_line_is_rejected() {
    assert_eq!(parse_file(b"abc\twork.code.backend\n", 0, 10).unwrap_err(), ParseError::MalformedLine);
    assert_eq!(parse_file(b"12 work.code.backend\n", 0, 10).unwrap_err(), ParseError::MalformedLine);
}

#[test]
fn short_tag_is_rejected() {
    assert_eq!(parse_file(b"1\twork.code\n", 0, 10).unwrap_err(), ParseError::MalformedTag);
}
