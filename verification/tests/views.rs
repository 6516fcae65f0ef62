use daybook::band::clip_band;
use daybook::ideals::get_ideal_proportions;
use daybook::parse::parse_file;
use daybook::parse::ParseError;
use daybook::parse::Tag;
use daybook::render::render_band;
use daybook::render::render_sankey;
use daybook::render::ViewError;
use daybook::score::ScoreError;
use daybook::timeline::draw_timeline;
use daybook::timeline::DAY;
use daybook::timeline::FIRST_DAY;
use daybook::tree::render_tree;
use daybook::tree_node::TreeNode;

#[test]
fn band_bars_follow_the_log() {
    let log = b"50\twork.code.backend\n150\thealth.food.lunch\n";
    let view = render_band(log, 100, 200).unwrap();
    assert_eq!(view.switches, 2);
    assert_eq!(view.total, 101);
    assert_eq!(view.bars.len(), 2);
    let first = &view.bars[0];
    assert_eq!(first.tag, b"work.code.backend".to_vec());
    assert_eq!((first.start, first.duration, first.offset), (100, 50, 0));
    assert_eq!(first.hue, 80);
    assert_eq!(first.length, "0:00:50");
    assert_eq!(first.when.as_deref(), Some("1969-12-31 18:01:40 CST"));
    let second = &view.bars[1];
    assert_eq!((second.start, second.duration, second.offset), (150, 50, 50));
    assert_eq!(second.hue, 55);
    assert_eq!(second.when.as_deref(), Some("1969-12-31 18:02:30 CST"));
}

#[test]
fn band_of_an_empty_log() {
    let view = render_band(b"", 0, 100).unwrap();
    assert_eq!(view.switches, 0);
    assert_eq!(view.total, 1);
    assert!(view.bars.is_empty());
    assert_eq!(
        render_band(b"1\n", 0, 100).unwrap_err(),
        ViewError::Log(ParseError::MalformedLine)
    );
}

#[test]
fn clipping_is_idempotent() {
    let log = b"10\twork.code.backend\n40\thealth.rest.sleep\n70\tplay.game.chess\n95\twork.code.review\n";
    for (begin, end) in [(0u64, 100u64), (20, 80), (50, 60), (90, 90), (96, 1000)] {
        let (_, _, band) = parse_file(log, begin, end).unwrap();
        let again = clip_band(&band, begin, end);
        assert_eq!(again.len(), band.len());
        for (a, b) in again.iter().zip(band.iter()) {
            assert_eq!((a.start, a.duration, &a.tag), (b.start, b.duration, &b.tag));
        }
    }
}

#[test]
fn clip_band_cuts_and_drops() {
    let log = b"10\twork.code.backend\n40\tplay.game.chess\n";
    let (_, _, band) = parse_file(log, 0, 100).unwrap();
    let cut = clip_band(&band, 30, 50);
    assert_eq!(cut.len(), 2);
    assert_eq!((cut[0].start, cut[0].duration), (30, 10));
    assert_eq!((cut[1].start, cut[1].duration), (40, 10));
    let none = clip_band(&band, 0, 10);
    assert!(none.is_empty());
    let late = clip_band(&band, 100, 200);
    assert!(late.is_empty());
}

#[test]
fn windows_are_additive() {
    let log = b"10\twork.code.backend\n40\thealth.rest.sleep\n70\tplay.game.chess\n95\twork.code.review\n";
    let total = |a: u64, b: u64| parse_file(log, a, b).unwrap().0.value;
    for (a, b, c) in [(0u64, 50u64, 100u64), (20, 20, 80), (0, 95, 200), (5, 60, 61)] {
        assert_eq!(total(a, b) + total(b, c), total(a, c));
    }
    // Two windows that leave a second between them miss what falls into it.
    assert_eq!(total(0, 4 + 10) + total(15, 100), total(0, 100) - total(14, 15));
    assert_eq!(total(14, 15), 1);
}

#[test]
fn sleep_is_excluded_everywhere() {
    let log = b"0\thealth.rest.sleep\n10\thealth.rest.nap\n20\thealth.rest.sleep\n30\twork.code.backend\n";
    let (tree, current, band) = parse_file(log, 0, 40).unwrap();
    assert_eq!(tree.value, 20);
    assert!(band.iter().all(|i| i.tag != b"health.rest.sleep".to_vec()));
    let rest = &tree.children[0].children[0];
    assert_eq!(rest.keys, vec![b"nap".to_vec()]);
    assert_eq!(current.activity, b"backend".to_vec());
}

#[test]
fn empty_log_has_an_empty_current_tag() {
    let (tree, current, band) = parse_file(b"", 0, 100).unwrap();
    assert_eq!(tree.value, 0);
    assert!(tree.children.is_empty());
    assert!(band.is_empty());
    assert!(current.major.is_empty() && current.minor.is_empty() && current.activity.is_empty());
}

#[test]
fn unfinished_last_line_is_left_out() {
    let (tree, current, _) = parse_file(b"0\twork.code.backend\n50\tplay.ga", 0, 100).unwrap();
    assert_eq!(tree.value, 100);
    assert_eq!(current.major, b"work".to_vec());
}

#[test]
fn window_before_and_after_the_log() {
    let log = b"100\twork.code.backend\n200\tplay.game.chess\n";
    let (tree, _, band) = parse_file(log, 0, 50).unwrap();
    assert_eq!(tree.value, 0);
    assert!(band.is_empty());
    let (tree, current, band) = parse_file(log, 300, 400).unwrap();
    assert_eq!(tree.value, 100);
    assert_eq!(band.len(), 1);
    assert_eq!((band[0].start, band[0].duration), (300, 100));
    assert_eq!(band[0].tag, b"play.game.chess".to_vec());
    assert_eq!(current.major, b"play".to_vec());
}

#[test]
fn timeline_skips_days_without_time() {
    let mut log = Vec::new();
    log.extend_from_slice(format!("{}\twork.code.backend\n", FIRST_DAY).as_bytes());
    log.extend_from_slice(format!("{}\thealth.rest.sleep\n", FIRST_DAY + DAY / 2).as_bytes());
    log.extend_from_slice(format!("{}\tplay.game.chess\n", FIRST_DAY + 2 * DAY).as_bytes());
    log.extend_from_slice(format!("{}\twork.code.review\n", FIRST_DAY + 2 * DAY + 100).as_bytes());
    let ideals = get_ideal_proportions(b"work 50\nplay 50\nslop 0\n", 0).unwrap();
    let columns = draw_timeline(&ideals, &log, FIRST_DAY + 3 * DAY + 5).unwrap();
    assert_eq!(columns.len(), 2);
    let first = &columns[0];
    assert_eq!(first.day_start, FIRST_DAY);
    assert_eq!(first.when.as_deref(), Some("2023-01-01 00:00:00 CST"));
    assert_eq!(first.total, (DAY / 2) as u128);
    assert_eq!(first.segments.len(), 1);
    assert_eq!(first.segments[0].name, b"work".to_vec());
    assert_eq!(first.segments[0].hue, 80);
    assert_eq!(first.points.numerator * 1, 50 * first.points.denominator);
    let third = &columns[1];
    assert_eq!(third.day_start, FIRST_DAY + 2 * DAY);
    assert_eq!(third.when.as_deref(), Some("2023-01-03 00:00:00 CST"));
    assert_eq!(third.total, DAY as u128);
    let names: Vec<&[u8]> = third.segments.iter().map(|s| s.name.as_slice()).collect();
    assert_eq!(names, vec![&b"play"[..], b"work"]);
    assert_eq!(third.segments[0].seconds, 100);
    assert_eq!(third.segments[1].seconds, (DAY - 100) as u128);
}

#[test]
fn timeline_always_looks_at_the_first_day() {
    let log = format!("{}\twork.code.backend\n", FIRST_DAY - 10);
    let ideals = get_ideal_proportions(b"work 50\nslop 0\n", 0).unwrap();
    for now in [0, FIRST_DAY, FIRST_DAY + DAY, FIRST_DAY + 2 * DAY - 1] {
        let columns = draw_timeline(&ideals, log.as_bytes(), now).unwrap();
        assert_eq!(columns.len(), 1);
        assert_eq!(columns[0].total, DAY as u128);
    }
    let columns = draw_timeline(&ideals, log.as_bytes(), FIRST_DAY + 2 * DAY).unwrap();
    assert_eq!(columns.len(), 2);
}

#[test]
fn timeline_errors() {
    let log = format!("{}\twork.code.backend\n", FIRST_DAY);
    let no_slop = get_ideal_proportions(b"work 50\n", 0).unwrap();
    assert_eq!(
        draw_timeline(&no_slop, log.as_bytes(), FIRST_DAY).unwrap_err(),
        ViewError::Score(ScoreError::MissingSlop)
    );
    let ideals = get_ideal_proportions(b"work 50\nslop 1\n", 0).unwrap();
    assert_eq!(
        draw_timeline(&ideals, b"x\ty\n", FIRST_DAY).unwrap_err(),
        ViewError::Log(ParseError::MalformedLine)
    );
    // Without time on any day there is nothing to score.
    let quiet = format!("{}\thealth.rest.sleep\n", FIRST_DAY);
    assert!(draw_timeline(&no_slop, quiet.as_bytes(), FIRST_DAY + 5 * DAY).unwrap().is_empty());
}

#[test]
fn sankey_nodes_are_drawn_in_order() {
    let mut tree = TreeNode::new();
    tree.insert(b"work", b"code", b"review", 30);
    tree.insert(b"work", b"code", b"backend", 100);
    tree.insert(b"work", b"mail", b"inbox", 20);
    tree.insert(b"health", b"food", b"lunch", 50);
    let highlight = Tag { major: b"work".to_vec(), minor: b"code".to_vec(), activity: b"review".to_vec() };
    let ideals = get_ideal_proportions(b"work 60\nhealth 30\nslop 10\n", 0).unwrap();
    let view = render_tree(&tree, &highlight, &ideals);
    assert_eq!(view.total, 200);
    let shape: Vec<(u8, &[u8], u128, u128, usize, usize, usize, bool)> = view
        .nodes
        .iter()
        .map(|n| {
            (
                n.level,
                n.label.as_slice(),
                n.value,
                n.offset,
                n.majors_before,
                n.minors_before,
                n.activities_before,
                n.highlighted,
            )
        })
        .collect();
    assert_eq!(
        shape,
        vec![
            (1, &b"health"[..], 50, 0, 0, 0, 0, false),
            (2, b"health.food", 50, 0, 0, 0, 0, false),
            (3, b"health.food.lunch", 50, 0, 0, 0, 0, false),
            (1, b"work", 150, 50, 1, 1, 1, true),
            (2, b"work.code", 130, 50, 1, 1, 1, true),
            (3, b"work.code.backend", 100, 50, 1, 1, 1, false),
            (3, b"work.code.review", 30, 150, 1, 1, 2, true),
            (2, b"work.mail", 20, 180, 1, 2, 3, false),
            (3, b"work.mail.inbox", 20, 180, 1, 2, 3, false),
        ]
    );
    assert_eq!(view.nodes[3].hue, 80);
    assert_eq!(view.nodes[4].hue, 183);
    assert_eq!(view.nodes[5].hue, 153);
    assert_eq!(view.nodes[3].time, "0:02:30");
    let bars: Vec<(&[u8], u64, u128)> =
        view.budget.iter().map(|b| (b.name.as_slice(), b.weight, b.offset)).collect();
    assert_eq!(
        bars,
        vec![
            (&b"health"[..], 30_000_000, 0),
            (b"slop", 10_000_000, 30_000_000),
            (b"work", 60_000_000, 40_000_000),
        ]
    );
    assert_eq!(view.budget_total, 100_000_000);
    assert_eq!(view.budget[1].hue, 13);
}

#[test]
fn sankey_of_a_window() {
    let log = b"0\twork.code.backend\n60\tplay.game.chess\n";
    let ideals = get_ideal_proportions(b"work 60\n", 0).unwrap();
    let window = render_sankey(log, 0, 100, &ideals).unwrap();
    assert_eq!(window.tree.value, 100);
    assert_eq!(window.current.major, b"play".to_vec());
    assert_eq!(window.view.nodes.len(), 6);
    assert!(window.view.nodes[0].highlighted);
    assert_eq!(window.view.nodes[0].label, b"play".to_vec());
    assert!(!window.view.nodes[3].highlighted);
    assert_eq!(
        render_sankey(b"0\twork\n", 0, 100, &ideals).unwrap_err(),
        ViewError::Log(ParseError::MalformedTag)
    );
}
