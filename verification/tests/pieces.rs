use daybook::ideals::get_ideal_proportions;
use daybook::ideals::Ideals;
use daybook::parse::build_tree;
use daybook::parse::is_now;
use daybook::parse::is_sleep;
use daybook::parse::parse_events;
use daybook::parse::parse_line;
use daybook::parse::read_events;
use daybook::parse::split_tag;
use daybook::parse::window_band;
use daybook::parse::Interval;
use daybook::parse::LogEvent;
use daybook::parse::ParseError;
use daybook::render::band_bar;
use daybook::score::is_slop;
use daybook::score::Score;
use daybook::score::ScoreError;
use daybook::table::make_row;
use daybook::table::table_rows;
use daybook::text::bytes_eq;
use daybook::text::parse_digits;
use daybook::text::parse_u64;
use daybook::text::split_bytes;
use daybook::text::to_vec;
use daybook::timeline::timeline_column;
use daybook::tree::join_dotted;
use daybook::tree::make_node;
use daybook::tree_node::TreeNode;
use daybook::util::push_decimal;
use daybook::util::push_two_digits;

#[test]
fn split_keeps_empty_pieces() {
    let pieces = |s: &[u8], sep: u8| -> Vec<Vec<u8>> { split_bytes(s, sep) };
    assert_eq!(pieces(b"", b'.'), vec![b"".to_vec()]);
    assert_eq!(pieces(b"abc", b'.'), vec![b"abc".to_vec()]);
    assert_eq!(pieces(b"a.b.c", b'.'), vec![b"a".to_vec(), b"b".to_vec(), b"c".to_vec()]);
    assert_eq!(pieces(b".a..b.", b'.'), vec![b"".to_vec(), b"a".to_vec(), b"".to_vec(), b"b".to_vec(), b"".to_vec()]);
    assert_eq!(pieces(b"x\n", b'\n'), vec![b"x".to_vec(), b"".to_vec()]);
}

#[test]
fn numbers_are_read_in_full() {
    assert_eq!(parse_digits(b"0"), Some(0));
    assert_eq!(parse_digits(b"0042"), Some(42));
    assert_eq!(parse_digits(b"18446744073709551615"), Some(u64::MAX));
    assert_eq!(parse_digits(b"18446744073709551616"), None);
    assert_eq!(parse_digits(b"99999999999999999999999"), None);
    assert_eq!(parse_digits(b""), None);
    assert_eq!(parse_digits(b"+1"), None);
    assert_eq!(parse_digits(b"12a"), None);
    assert_eq!(parse_u64(b"+1"), Some(1));
    assert_eq!(parse_u64(b"+"), None);
    assert_eq!(parse_u64(b"++1"), None);
    assert_eq!(parse_u64(b"-1"), None);
    assert_eq!(parse_u64(b" 1"), None);
    assert_eq!(parse_u64(b"1672552800"), Some(1672552800));
}

#[test]
fn bytes_are_compared_and_copied() {
    assert!(bytes_eq(b"", b""));
    assert!(bytes_eq(b"slop", b"slop"));
    assert!(!bytes_eq(b"slop", b"slot"));
    assert!(!bytes_eq(b"slop", b"slo"));
    assert_eq!(to_vec(b"copy"), b"copy".to_vec());
    assert!(is_slop(b"slop") && !is_slop(b"Slop"));
    assert!(is_now(b"now.now.now") && !is_now(b"now.now"));
    assert!(is_sleep(b"health.rest.sleep") && !is_sleep(b"health.rest.sleep.deep"));
}

#[test]
fn lines_of_the_log() {
    let event = parse_line(b"100\twork.code.backend").unwrap();
    assert_eq!((event.timestamp, event.tag), (100, b"work.code.backend".to_vec()));
    let event = parse_line(b"7\ta tag with spaces\tand more").unwrap();
    assert_eq!((event.timestamp, event.tag), (7, b"a tag with spaces".to_vec()));
    let event = parse_line(b"7\t").unwrap();
    assert_eq!((event.timestamp, event.tag), (7, Vec::new()));
    assert_eq!(parse_line(b"").unwrap_err(), ParseError::MalformedLine);
    assert_eq!(parse_line(b"7").unwrap_err(), ParseError::MalformedLine);
    assert_eq!(parse_line(b"\twork.code.backend").unwrap_err(), ParseError::MalformedLine);
    assert_eq!(parse_line(b"7.5\twork.code.backend").unwrap_err(), ParseError::MalformedLine);
    let events = read_events(b"1\ta.b.c\n2\td.e.f\n3\tunfinished").unwrap();
    assert_eq!(events.len(), 2);
    assert_eq!(events[1].timestamp, 2);
    assert_eq!(read_events(b"1\ta.b.c\n\n2\td.e.f\n").unwrap_err(), ParseError::MalformedLine);
    assert!(read_events(b"").unwrap().is_empty());
}

#[test]
fn tags_split_into_their_first_three_components() {
    let tag = split_tag(b"work.code.backend").unwrap();
    assert_eq!((tag.major, tag.minor, tag.activity), (b"work".to_vec(), b"code".to_vec(), b"backend".to_vec()));
    let tag = split_tag(b"a.b.c.d.e").unwrap();
    assert_eq!((tag.major, tag.minor, tag.activity), (b"a".to_vec(), b"b".to_vec(), b"c".to_vec()));
    let tag = split_tag(b"..").unwrap();
    assert!(tag.major.is_empty() && tag.minor.is_empty() && tag.activity.is_empty());
    assert!(split_tag(b"work.code").is_none());
    assert!(split_tag(b"").is_none());
}

fn event(timestamp: u64, tag: &[u8]) -> LogEvent {
    LogEvent { timestamp, tag: tag.to_vec() }
}

#[test]
fn band_of_events() {
    let events = vec![
        event(10, b"work.code.backend"),
        event(20, b"now.now.now"),
        event(30, b"play.game.chess"),
        event(25, b"work.mail.inbox"),
    ];
    let (band, open) = window_band(&events, 0, 100);
    assert_eq!(open, 3);
    let shape: Vec<(u64, u64, &[u8])> =
        band.iter().map(|i| (i.start, i.duration, i.tag.as_slice())).collect();
    // The reserved tag closes an interval without opening one, and an
    // interval that would run backwards is dropped.
    assert_eq!(
        shape,
        vec![
            (10, 10, &b"work.code.backend"[..]),
            (10, 20, b"work.code.backend"),
            (25, 75, b"work.mail.inbox"),
        ]
    );
    let (band, open) = window_band(&Vec::new(), 0, 100);
    assert!(band.is_empty());
    assert_eq!(open, 0);
    let (tree, current, _) = parse_events(&events, 0, 100).unwrap();
    assert_eq!(tree.value, 105);
    assert_eq!(current.major, b"work".to_vec());
    assert_eq!(current.minor, b"mail".to_vec());
}

#[test]
fn window_with_begin_after_end_is_empty() {
    let events = vec![event(10, b"work.code.backend")];
    let (band, _) = window_band(&events, 50, 40);
    assert!(band.is_empty());
}

#[test]
fn tree_of_a_band() {
    let band = vec![
        Interval { start: 0, duration: 5, tag: b"work.code.backend".to_vec() },
        Interval { start: 5, duration: 7, tag: b"work.code.backend.extra".to_vec() },
        Interval { start: 12, duration: u64::MAX, tag: b"play.game.chess".to_vec() },
    ];
    let tree = build_tree(&band).unwrap();
    assert_eq!(tree.value, 12 + u64::MAX as u128);
    assert_eq!(tree.child_seconds(b"work"), 12);
    let bad = vec![Interval { start: 0, duration: 5, tag: b"work.code".to_vec() }];
    assert_eq!(build_tree(&bad).unwrap_err(), ParseError::MalformedTag);
    assert_eq!(build_tree(&Vec::new()).unwrap().value, 0);
}

#[test]
fn rows_are_built_from_their_numbers() {
    let row = make_row(b"work", 3600, 50_000_000, 7200, b"work");
    assert_eq!(row.name, b"work".to_vec());
    assert_eq!(row.label, b"Work".to_vec());
    assert_eq!(row.completed, "1:00:00");
    assert_eq!(row.predicted, "6:00:00");
    assert!(row.on_target);
    assert!(row.highlighted);
    let row = make_row(b"work", 3599, 50_000_000, 7200, b"play");
    assert!(!row.on_target);
    assert!(!row.highlighted);
    let row = make_row(b"odd", u128::MAX, 1, 0, b"");
    assert!(row.on_target);
    assert_eq!(row.completed, "5124095576030431:00:15");
    assert_eq!(row.predicted, "0:00:00");
    let row = make_row(b"tiny", 0, 2_315, 0, b"");
    assert_eq!(row.predicted, "0:00:01");
}

#[test]
fn table_rows_of_a_tree() {
    let mut tree = TreeNode::new();
    tree.insert(b"work", b"a", b"b", 10);
    tree.insert(b"play", b"a", b"b", 30);
    let ideals = get_ideal_proportions(b"work 50\nplay 25\nrest 25\n", 0).unwrap();
    let (rows, time_domain) = table_rows(&tree, &ideals, b"play").unwrap();
    assert_eq!(time_domain, 40);
    let names: Vec<&[u8]> = rows.iter().map(|r| r.name.as_slice()).collect();
    assert_eq!(names, vec![&b"rest"[..], b"work", b"play"]);
    assert!(rows[2].highlighted && rows[2].on_target);
    let mut large = TreeNode::new();
    large.insert(b"work", b"a", b"b", u64::MAX);
    large.insert(b"work", b"a", b"b", u64::MAX);
    let mut heavy = Ideals::new();
    heavy.set(b"work", u64::MAX);
    assert_eq!(table_rows(&large, &heavy, b"").unwrap_err(), ScoreError::TooLarge);
}

#[test]
fn bars_columns_and_nodes_are_built_from_their_parts() {
    let interval = Interval { start: 9, duration: 61, tag: b"health.food.lunch".to_vec() };
    let bar = band_bar(&interval, 1000, Some(String::from("noon")));
    assert_eq!((bar.start, bar.duration, bar.offset, bar.hue), (9, 61, 1000, 55));
    assert_eq!(bar.when.as_deref(), Some("noon"));
    assert_eq!(bar.length, "0:01:01");
    let untagged = band_bar(&Interval { start: 0, duration: 0, tag: Vec::new() }, 0, None);
    assert_eq!(untagged.hue, 77);
    assert_eq!(untagged.when, None);

    let mut tree = TreeNode::new();
    tree.insert(b"work", b"a", b"b", 10);
    tree.insert(b"health", b"a", b"b", 30);
    let column = timeline_column(tree, 5, None, Score { numerator: 1, denominator: 2 });
    assert_eq!(column.total, 40);
    assert_eq!(column.day_start, 5);
    assert_eq!(column.points, Score { numerator: 1, denominator: 2 });
    let segments: Vec<(&[u8], u128, u16)> =
        column.segments.iter().map(|s| (s.name.as_slice(), s.seconds, s.hue)).collect();
    assert_eq!(segments, vec![(&b"health"[..], 30, 55), (b"work", 10, 80)]);

    assert_eq!(join_dotted(b"work", b"code"), b"work.code".to_vec());
    assert_eq!(join_dotted(b"", b""), b".".to_vec());
    let node = make_node(2, b"work.code".to_vec(), &column.tree.children[1], true, 7, 1, 2, 3);
    assert_eq!((node.level, node.value, node.hue, node.offset), (2, 10, 183, 7));
    assert_eq!((node.majors_before, node.minors_before, node.activities_before), (1, 2, 3));
    assert_eq!(node.time, "0:00:10");
    assert!(node.highlighted);
}

#[test]
fn digits_are_appended() {
    let mut text = String::from("x");
    push_decimal(&mut text, 0);
    push_decimal(&mut text, 907);
    push_two_digits(&mut text, 5);
    push_two_digits(&mut text, 42);
    assert_eq!(text, "x09070542");
}
