//! The timeline: one column for each day on which time was tracked, from a
//! fixed first day up to the present.

use crate::clock::local_time;
use crate::clock::local_time_text;
use crate::clock::text_of;
use crate::color::hue;
use crate::color::hue_of;
use crate::ideals::Ideals;
use crate::order::lex_le;
use crate::parse::band_total;
use crate::parse::events_view;
use crate::parse::log_events;
use crate::parse::parse_events;
use crate::parse::path_of;
use crate::parse::read_events;
use crate::parse::tree_of;
use crate::parse::well_tagged;
use crate::parse::window_of;
use crate::parse::ParseError;
use crate::parse::Span;
use crate::render::score_failure;
use crate::render::ViewError;
use crate::score::get_points;
use crate::score::lemma_values_sum;
use crate::score::score_of;
use crate::score::Score;
use crate::score::ScoreError;
use crate::text::to_vec;
use crate::tree_node::TreeNode;
use vstd::prelude::*;

verus! {

/// The second at which the first day of the timeline starts.
pub const FIRST_DAY: u64 = 1_672_552_800;

/// The seconds of a day.
pub const DAY: u64 = 86_400;

/// How many days the timeline looks at when it is drawn at `now`: the first
/// day in any case, and every later day that has ended by then.
pub open spec fn day_count(now: u64) -> nat {
    if now >= FIRST_DAY + 2 * DAY {
        ((now - FIRST_DAY) / (DAY as int)) as nat
    } else {
        1
    }
}

/// The second at which day number `day` starts, the first day being
/// number 0.
pub open spec fn day_start(day: nat) -> nat {
    (FIRST_DAY + day * DAY) as nat
}

/// One segment of a column, in the abstract.
pub ghost struct SegmentModel {
    pub name: Seq<u8>,
    pub seconds: nat,
    pub hue: u16,
}

/// One segment of a column: a category and its time on that day.
#[derive(Debug)]
pub struct Segment {
    /// The category.
    pub name: Vec<u8>,
    /// The seconds spent on the category.
    pub seconds: u128,
    /// The hue of the category, in degrees.
    pub hue: u16,
}

impl View for Segment {
    type V = SegmentModel;

    open spec fn view(&self) -> SegmentModel {
        SegmentModel { name: self.name@, seconds: self.seconds as nat, hue: self.hue }
    }
}

/// One column of the timeline: a day on which time was tracked.
#[derive(Debug)]
pub struct Column {
    /// The second at which the day starts.
    pub day_start: u64,
    /// The start of the day as local time, where the calendar reaches that
    /// far.
    pub when: Option<String>,
    /// The aggregation tree of the day.
    pub tree: TreeNode,
    /// The categories of the day in lexicographic order, stacked from the
    /// top.
    pub segments: Vec<Segment>,
    /// The seconds of the day: what the height of the canvas is divided by.
    pub total: u128,
    /// The score of the day.
    pub points: Score,
}

/// The segment of the child at position `i` of `tree`.
pub open spec fn segment_of(tree: TreeNode, i: int) -> SegmentModel {
    SegmentModel {
        name: tree.names()[i],
        seconds: tree.children@[i].value as nat,
        hue: hue_of(tree.names()[i]),
    }
}

/// Whether `segments` are the segments of `tree`: one for each of its
/// children, in stored order.
pub open spec fn are_segments(segments: Seq<Segment>, tree: TreeNode) -> bool {
    &&& segments.len() == tree.children@.len()
    &&& forall|i: int| 0 <= i < segments.len() ==> (#[trigger] segments[i])@ == segment_of(tree, i)
}

/// Whether `column` is the column of the day that starts at `start`, on
/// which the band `spans` was tracked, scored against `budget`.
pub open spec fn is_column(column: Column, spans: Seq<Span>, budget: Ideals, start: nat) -> bool {
    &&& column.day_start == start
    &&& text_of(column.when) == local_time_text(column.day_start)
    &&& column.tree.wf(3)
    &&& column.tree@ == tree_of(spans)
    &&& column.total == band_total(spans)
    &&& are_segments(column.segments@, column.tree)
    &&& Ok::<Score, ScoreError>(column.points) == score_of(column.tree, budget)
}

/// What the log says about day number `day`.
pub open spec fn day_window(contents: Seq<u8>, day: nat) -> Result<
    (Seq<Span>, Seq<Seq<u8>>),
    ParseError,
> {
    window_of(contents, day_start(day) as u64, (day_start(day) + DAY) as u64)
}

/// Why day number `day` cannot be drawn, if it cannot: its window cannot be
/// interpreted or, time having been tracked, cannot be scored.
pub open spec fn day_failure(contents: Seq<u8>, budget: Ideals, day: nat) -> Option<ViewError> {
    match day_window(contents, day) {
        Err(e) => Some(ViewError::Log(e)),
        Ok((spans, current)) => if spans.len() == 0 {
            None
        } else {
            match score_failure(band_total(spans), budget) {
                Some(e) => Some(ViewError::Score(e)),
                None => None,
            }
        },
    }
}

/// The failure of the earliest of the first `days` days that cannot be
/// drawn, if there is one.
pub open spec fn first_failure(contents: Seq<u8>, budget: Ideals, days: nat) -> Option<ViewError>
    decreases days,
{
    if days == 0 {
        None
    } else {
        match first_failure(contents, budget, (days - 1) as nat) {
            Some(e) => Some(e),
            None => day_failure(contents, budget, (days - 1) as nat),
        }
    }
}

/// Whether `columns` are the columns of the first `days` days: one for each
/// day on which time was tracked, in the order of the days.
pub open spec fn is_timeline(
    columns: Seq<Column>,
    contents: Seq<u8>,
    budget: Ideals,
    days: nat,
) -> bool
    decreases days,
{
    if days == 0 {
        columns.len() == 0
    } else {
        match day_window(contents, (days - 1) as nat) {
            Err(e) => false,
            Ok((spans, current)) => if spans.len() == 0 {
                is_timeline(columns, contents, budget, (days - 1) as nat)
            } else {
                &&& columns.len() > 0
                &&& is_column(columns.last(), spans, budget, day_start((days - 1) as nat))
                &&& is_timeline(columns.drop_last(), contents, budget, (days - 1) as nat)
            },
        }
    }
}

/// Builds the column of a day from its tree, its score and the local time of
/// its start.
pub fn timeline_column(
    tree: TreeNode,
    day_start: u64,
    when: Option<String>,
    points: Score,
) -> (column: Column)
    requires
        tree.wf(3),
    ensures
        column.day_start == day_start,
        column.when == when,
        column.tree == tree,
        column.points == points,
        column.total == tree.value,
        are_segments(column.segments@, tree),
{
    let mut segments: Vec<Segment> = Vec::new();
    let mut i: usize = 0;
    while i < tree.keys.len()
        invariant
            0 <= i <= tree.keys@.len(),
            tree.keys@.len() == tree.children@.len(),
            segments@.len() == i,
            forall|k: int| 0 <= k < i ==> (#[trigger] segments@[k])@ == segment_of(tree, k),
        decreases tree.keys@.len() - i,
    {
        let name = tree.keys[i].as_slice();
        segments.push(
            Segment { name: to_vec(name), seconds: tree.children[i].value, hue: hue(name) },
        );
        i = i + 1;
    }
    let total: u128 = tree.value;
    Column { day_start, when, tree, segments, total, points }
}

/// The earliest failure among some days is the earliest among more days too.
pub(crate) proof fn lemma_failure_stays(contents: Seq<u8>, budget: Ideals, days: nat, later: nat)
    requires
        days <= later,
        first_failure(contents, budget, days).is_some(),
    ensures
        first_failure(contents, budget, later) == first_failure(contents, budget, days),
    decreases later - days,
{
    if days < later {
        lemma_failure_stays(contents, budget, days, (later - 1) as nat);
    }
}

/// Lays out the timeline of a log as it stands at the second `now`, each
/// day scored against `ideal_proportions`.
pub fn draw_timeline(ideal_proportions: &Ideals, contents: &[u8], now: u64) -> (r: Result<
    Vec<Column>,
    ViewError,
>)
    requires
        ideal_proportions.wf(),
    ensures
        match first_failure(contents@, *ideal_proportions, day_count(now)) {
            Some(e) => r.is_err() && r.unwrap_err() == e,
            None => r.is_ok() && is_timeline(
                r.unwrap()@,
                contents@,
                *ideal_proportions,
                day_count(now),
            ),
        },
{
    let days: u64 = if now >= FIRST_DAY + 2 * DAY {
        (now - FIRST_DAY) / DAY
    } else {
        1
    };
    let ghost budget = *ideal_proportions;
    let events = match read_events(contents) {
        Ok(events) => events,
        Err(e) => {
            proof {
                assert(day_failure(contents@, budget, 0) == Some(ViewError::Log(e)));
                assert(first_failure(contents@, budget, 0).is_none());
                assert(first_failure(contents@, budget, 1) == Some(ViewError::Log(e)));
                lemma_failure_stays(contents@, budget, 1, days as nat);
            }
            return Err(ViewError::Log(e));
        },
    };
    let mut columns: Vec<Column> = Vec::new();
    let mut day: u64 = 0;
    while day < days
        invariant
            0 <= day <= days,
            days == day_count(now),
            budget == *ideal_proportions,
            ideal_proportions.wf(),
            log_events(contents@) == Some(events_view(events@)),
            first_failure(contents@, budget, day as nat).is_none(),
            is_timeline(columns@, contents@, budget, day as nat),
        decreases days - day,
    {
        let ghost earlier = columns@;
        let ghost spans = day_window(contents@, day as nat).unwrap().0;
        let start: u64 = FIRST_DAY + day * DAY;
        let (tree, _, _) = match parse_events(&events, start, start + DAY) {
            Ok(parsed) => parsed,
            Err(e) => {
                proof {
                    assert(day_failure(contents@, budget, day as nat) == Some(ViewError::Log(e)));
                    assert(first_failure(contents@, budget, (day + 1) as nat) == Some(
                        ViewError::Log(e),
                    ));
                    lemma_failure_stays(contents@, budget, (day + 1) as nat, days as nat);
                }
                return Err(ViewError::Log(e));
            },
        };
        proof {
            lemma_tree_of_empty(spans);
            lemma_has_children(tree);
        }
        if tree.keys.len() > 0 {
            proof {
                lemma_values_sum(tree.children@);
            }
            let points = match get_points(&tree, ideal_proportions) {
                Ok(points) => points,
                Err(e) => {
                    proof {
                        assert(day_failure(contents@, budget, day as nat) == Some(
                            ViewError::Score(e),
                        ));
                        assert(first_failure(contents@, budget, (day + 1) as nat) == Some(
                            ViewError::Score(e),
                        ));
                        lemma_failure_stays(contents@, budget, (day + 1) as nat, days as nat);
                    }
                    return Err(ViewError::Score(e));
                },
            };
            let when = local_time(start);
            let column = timeline_column(tree, start, when, points);
            columns.push(column);
            proof {
                assert(columns@.drop_last() =~= earlier);
                assert(columns@.last() == column);
            }
        }
        day = day + 1;
    }
    Ok(columns)
}

/// A tree has children exactly where its view holds a path of one name.
pub(crate) proof fn lemma_has_children(tree: TreeNode)
    requires
        tree.keys@.len() == tree.children@.len(),
    ensures
        tree.names().len() == 0 <==> (forall|name: Seq<u8>| !tree@.dom().contains(seq![name])),
{
    reveal_with_fuel(TreeNode::contains, 2);
    if tree.names().len() > 0 {
        let name = tree.names()[0];
        assert(tree.names().contains(name));
        assert(seq![name][0] == name);
        assert(seq![name].drop_first() =~= Seq::<Seq<u8>>::empty());
        assert(tree.contains(seq![name]));
        assert(tree@.dom().contains(seq![name]));
    } else {
        assert forall|name: Seq<u8>| !tree@.dom().contains(seq![name]) by {
            assert(seq![name][0] == name);
            if tree.names().contains(name) {
                let i = tree.names().index_of(name);
            }
        }
    }
}

/// The tree of a band has children exactly where the band has intervals.
pub(crate) proof fn lemma_tree_of_empty(spans: Seq<Span>)
    requires
        well_tagged(spans),
    ensures
        spans.len() == 0 <==> (forall|name: Seq<u8>| !tree_of(spans).dom().contains(seq![name])),
{
    if spans.len() > 0 {
        let path = path_of(spans.last().tag).unwrap();
        let name = path[0];
        assert(seq![name] =~= path.subrange(0, 1));
        assert(seq![name].is_prefix_of(path));
        assert(tree_of(spans).dom().contains(seq![name]));
    } else {
        assert forall|name: Seq<u8>| !tree_of(spans).dom().contains(seq![name]) by {
            assert(seq![name] != Seq::<Seq<u8>>::empty()) by {
                assert(seq![name].len() == 1);
            }
        }
    }
}

/// Sort stability: the segments of a column stand in strictly ascending
/// lexicographic order of their names.
pub proof fn law_segments_in_order(segments: Seq<Segment>, tree: TreeNode)
    requires
        tree.wf(3),
        are_segments(segments, tree),
    ensures
        forall|i: int, j: int|
            0 <= i < j < segments.len() ==> lex_le(
                (#[trigger] segments[i])@.name,
                (#[trigger] segments[j])@.name,
            ) && segments[i]@.name != segments[j]@.name,
{
    assert forall|i: int, j: int| 0 <= i < j < segments.len() implies lex_le(
        (#[trigger] segments[i])@.name,
        (#[trigger] segments[j])@.name,
    ) && segments[i]@.name != segments[j]@.name by {
        assert(segments[i]@ == segment_of(tree, i));
        assert(segments[j]@ == segment_of(tree, j));
        assert(lex_le(tree.names()[i], tree.names()[j]) && tree.names()[i] != tree.names()[j]);
    }
}

} // verus!