use daybook::ideals::get_ideal_proportions;
use daybook::render::render_table;
use daybook::render::ViewError;
use daybook::parse::ParseError;
use daybook::score::ScoreError;
use daybook::table::capitalize;

const LOG: &[u8] = b"0\twork.code.backend\n6000\tchore.home.dishes\n7000\tplay.game.chess\n9000\thealth.rest.sleep\n";

#[test]
fn table_rows_are_ordered_by_ratio() {
    let ideals = get_ideal_proportions(b"work 50\nchore 30\nfun 10\nslop 10\n", 0).unwrap();
    let view = render_table(LOG, 0, 10000, &ideals).unwrap();
    // time of the listed categories: work 6000, chore 1000, fun 0
    assert_eq!(view.time_domain, 7000);
    assert_eq!(view.tree.value, 9000);
    let names: Vec<&[u8]> = view.rows.iter().map(|r| r.name.as_slice()).collect();
    assert_eq!(names, vec![&b"fun"[..], b"chore", b"work"]);
    let work = &view.rows[2];
    assert_eq!(work.label, b"Work".to_vec());
    assert_eq!(work.actual_seconds, 6000);
    assert_eq!(work.weight, 50_000_000);
    assert_eq!(work.completed, "1:40:00");
    assert_eq!(work.predicted, "6:00:00");
    assert!(work.on_target);
    assert!(!work.highlighted);
    let chore = &view.rows[1];
    assert_eq!(chore.completed, "0:16:40");
    assert_eq!(chore.predicted, "3:36:00");
    assert!(!chore.on_target);
    let fun = &view.rows[0];
    assert_eq!(fun.actual_seconds, 0);
    assert_eq!(fun.predicted, "1:12:00");
    assert!(!fun.on_target);
    assert_eq!(view.current.major, b"health".to_vec());
}

#[test]
fn current_category_is_highlighted() {
    let ideals = get_ideal_proportions(b"work 50\nplay 30\nslop 10\n", 0).unwrap();
    let log = b"0\twork.code.backend\n6000\tplay.game.chess\n";
    let view = render_table(log, 0, 8000, &ideals).unwrap();
    let play = view.rows.iter().find(|r| r.name == b"play".to_vec()).unwrap();
    assert!(play.highlighted);
    let work = view.rows.iter().find(|r| r.name == b"work".to_vec()).unwrap();
    assert!(!work.highlighted);
}

#[test]
fn equal_ratios_are_listed_by_name() {
    let ideals = get_ideal_proportions(b"zeta 10\nalpha 10\nmid 0\nslop 1\n", 0).unwrap();
    let view = render_table(LOG, 0, 8000, &ideals).unwrap();
    let names: Vec<&[u8]> = view.rows.iter().map(|r| r.name.as_slice()).collect();
    assert_eq!(names, vec![&b"alpha"[..], b"zeta", b"mid"]);
}

#[test]
fn table_errors() {
    let ideals = get_ideal_proportions(b"work 50\n", 0).unwrap();
    assert_eq!(
        render_table(LOG, 0, 8000, &ideals).unwrap_err(),
        ViewError::Score(ScoreError::MissingSlop)
    );
    let ideals = get_ideal_proportions(b"work 50\nslop 1\n", 0).unwrap();
    assert_eq!(
        render_table(b"zero\twork.code.backend\n", 0, 8000, &ideals).unwrap_err(),
        ViewError::Log(ParseError::MalformedLine)
    );
    assert_eq!(
        render_table(b"0\twork\n", 0, 8000, &ideals).unwrap_err(),
        ViewError::Log(ParseError::MalformedTag)
    );
}

#[test]
fn capitalize_changes_a_leading_ascii_letter_only() {
    assert_eq!(capitalize(b"work"), b"Work".to_vec());
    assert_eq!(capitalize(b"Work"), b"Work".to_vec());
    assert_eq!(capitalize(b"9to5"), b"9to5".to_vec());
    assert_eq!(capitalize(b""), b"".to_vec());
    assert_eq!(capitalize("\u{e9}t\u{e9}".as_bytes()), "\u{e9}t\u{e9}".as_bytes().to_vec());
}
