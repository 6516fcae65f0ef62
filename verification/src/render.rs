//! The views of a window: what each of them shows, ready to be drawn.

use crate::clock::local_time;
use crate::clock::local_time_text;
use crate::clock::text_of;
use crate::color::hue;
use crate::color::hue_of;
use crate::ideals::Ideals;
use crate::parse::band_view;
use crate::parse::lemma_band_total_bound;
use crate::parse::Interval;
use crate::parse::Span;
use crate::parse::band_total;
use crate::parse::parse_file;
use crate::parse::tree_of;
use crate::parse::window_of;
use crate::parse::ParseError;
use crate::parse::Tag;
use crate::score::get_points;
use crate::score::lemma_values_sum;
use crate::score::score_of;
use crate::score::slop_key;
use crate::score::weights_of;
use crate::score::Score;
use crate::score::ScoreError;
use crate::sums::seq_sum;
use crate::table::is_table;
use crate::table::listed_time;
use crate::table::rows_view;
use crate::table::table_rows;
use crate::table::Row;
use crate::text::split;
use crate::text::split_bytes;
use crate::text::to_vec;
use crate::text::views;
use crate::tree::are_budget_bars;
use crate::tree::nodes_view;
use crate::tree::render_tree;
use crate::tree::sankey_nodes;
use crate::tree::SankeyView;
use crate::tree_node::TreeNode;
use crate::util::format_time;
use crate::util::time_text;
use vstd::prelude::*;

verus! {

/// Why a view could not be laid out.
#[derive(PartialEq, Eq, Structural, Clone, Copy, Debug)]
pub enum ViewError {
    /// The log could not be interpreted.
    Log(ParseError),
    /// The window could not be scored.
    Score(ScoreError),
}

/// Why a window with `total` seconds cannot be scored against a budget, if
/// it cannot.
pub open spec fn score_failure(total: nat, budget: Ideals) -> Option<ScoreError> {
    let ideal_total = seq_sum(weights_of(budget.weights@));
    if !budget@.dom().contains(slop_key()) {
        Some(ScoreError::MissingSlop)
    } else if (100_000_000 + budget@[slop_key()] as nat) * (total * ideal_total) > u128::MAX {
        Some(ScoreError::TooLarge)
    } else {
        None
    }
}

/// The table view of a window.
#[derive(Debug)]
pub struct TableView {
    /// The aggregation tree of the window.
    pub tree: TreeNode,
    /// The tag that is current at the end of the window.
    pub current: Tag,
    /// The rows, in the order in which they are shown.
    pub rows: Vec<Row>,
    /// The seconds that the categories of the budget took together.
    pub time_domain: u128,
    /// The score of the window.
    pub points: Score,
}

/// Lays out the table view of the window `[start_timestamp, end_timestamp]`
/// of a log against a budget.
pub fn render_table(
    contents: &[u8],
    start_timestamp: u64,
    end_timestamp: u64,
    ideal_proportions: &Ideals,
) -> (r: Result<TableView, ViewError>)
    requires
        ideal_proportions.wf(),
    ensures
        match window_of(contents@, start_timestamp, end_timestamp) {
            Err(e) => r.is_err() && r.unwrap_err() == ViewError::Log(e),
            Ok((spans, current)) => match score_failure(band_total(spans), *ideal_proportions) {
                Some(e) => r.is_err() && r.unwrap_err() == ViewError::Score(e),
                None => {
                    &&& r.is_ok()
                    &&& r.unwrap().tree.wf(3)
                    &&& r.unwrap().tree@ == tree_of(spans)
                    &&& r.unwrap().current@ == current
                    &&& Ok::<Score, ScoreError>(r.unwrap().points) == score_of(
                        r.unwrap().tree,
                        *ideal_proportions,
                    )
                    &&& r.unwrap().time_domain == listed_time(
                        ideal_proportions.keys(),
                        r.unwrap().tree,
                    )
                    &&& is_table(
                        rows_view(r.unwrap().rows@),
                        r.unwrap().tree,
                        ideal_proportions@,
                        r.unwrap().time_domain as nat,
                        current[0],
                    )
                },
            },
        },
{
    let (tree, current, _) = match parse_file(contents, start_timestamp, end_timestamp) {
        Ok(parsed) => parsed,
        Err(e) => {
            return Err(ViewError::Log(e));
        },
    };
    proof {
        lemma_values_sum(tree.children@);
    }
    let points = match get_points(&tree, ideal_proportions) {
        Ok(points) => points,
        Err(e) => {
            return Err(ViewError::Score(e));
        },
    };
    proof {
        let ideal_total = seq_sum(weights_of(ideal_proportions.weights@));
        let slop = ideal_proportions@[slop_key()] as nat;
        assert(tree.value * ideal_total <= (100_000_000 + slop) * (tree.value * ideal_total))
            by (nonlinear_arith)
            requires
                0 <= tree.value * ideal_total,
        ;
    }
    let (rows, time_domain) = match table_rows(&tree, ideal_proportions, current.major.as_slice()) {
        Ok(table) => table,
        Err(e) => {
            return Err(ViewError::Score(e));
        },
    };
    Ok(TableView { tree, current, rows, time_domain, points })
}

/// One bar of the band view, in the abstract.
pub ghost struct BarModel {
    pub tag: Seq<u8>,
    pub start: u64,
    pub duration: u64,
    pub offset: nat,
    pub hue: u16,
    pub when: Option<Seq<char>>,
    pub length: Seq<char>,
}

/// One bar of the band view: an attributed interval.
#[derive(Debug)]
pub struct Bar {
    /// The tag of the interval.
    pub tag: Vec<u8>,
    /// The second at which the interval starts.
    pub start: u64,
    /// The seconds that the interval lasts.
    pub duration: u64,
    /// The seconds of the intervals before this one.
    pub offset: u128,
    /// The hue of the first component of the tag, in degrees.
    pub hue: u16,
    /// The start as local time, where the calendar reaches that far.
    pub when: Option<String>,
    /// The duration as text.
    pub length: String,
}

impl View for Bar {
    type V = BarModel;

    open spec fn view(&self) -> BarModel {
        BarModel {
            tag: self.tag@,
            start: self.start,
            duration: self.duration,
            offset: self.offset as nat,
            hue: self.hue,
            when: text_of(self.when),
            length: self.length@,
        }
    }
}

/// The views of a vector of bars.
pub open spec fn bars_view(bars: Seq<Bar>) -> Seq<BarModel> {
    Seq::new(bars.len(), |i: int| bars[i]@)
}

/// The band view of a window.
#[derive(Debug)]
pub struct BandView {
    /// The bars from top to bottom, in the order of the log.
    pub bars: Vec<Bar>,
    /// The seconds of all bars and one more: what the height of the canvas
    /// is divided by.
    pub total: u128,
    /// The number of context switches.
    pub switches: usize,
}

/// The bar of an interval that `offset` seconds of other intervals come
/// before and whose start reads `when` in local time.
pub open spec fn bar_of(span: Span, offset: nat, when: Option<Seq<char>>) -> BarModel {
    BarModel {
        tag: span.tag,
        start: span.start,
        duration: span.duration,
        offset,
        hue: hue_of(split(span.tag, 46u8)[0]),
        when,
        length: time_text(span.duration as nat),
    }
}

/// Whether `bars` are the bars of the band `spans`.
pub open spec fn is_band(bars: Seq<BarModel>, spans: Seq<Span>) -> bool {
    &&& bars.len() == spans.len()
    &&& forall|i: int|
        0 <= i < bars.len() ==> #[trigger] bars[i] == bar_of(
            spans[i],
            band_total(spans.subrange(0, i)),
            local_time_text(spans[i].start),
        )
}

/// Builds the bar of an interval from the seconds before it and the local
/// time of its start.
pub fn band_bar(interval: &Interval, offset: u128, when: Option<String>) -> (bar: Bar)
    ensures
        bar@ == bar_of(interval@, offset as nat, text_of(when)),
{
    let parts = split_bytes(interval.tag.as_slice(), 46u8);
    assert(views(parts@)[0] == parts@[0]@);
    Bar {
        tag: to_vec(interval.tag.as_slice()),
        start: interval.start,
        duration: interval.duration,
        offset,
        hue: hue(parts[0].as_slice()),
        when,
        length: format_time(interval.duration),
    }
}

/// Lays out the band view of the window `[start_timestamp, end_timestamp]`
/// of a log.
pub fn render_band(contents: &[u8], start_timestamp: u64, end_timestamp: u64) -> (r: Result<
    BandView,
    ViewError,
>)
    ensures
        match window_of(contents@, start_timestamp, end_timestamp) {
            Err(e) => r.is_err() && r.unwrap_err() == ViewError::Log(e),
            Ok((spans, current)) => {
                &&& r.is_ok()
                &&& is_band(bars_view(r.unwrap().bars@), spans)
                &&& r.unwrap().total == band_total(spans) + 1
                &&& r.unwrap().switches == spans.len()
            },
        },
{
    let (_, _, band) = match parse_file(contents, start_timestamp, end_timestamp) {
        Ok(parsed) => parsed,
        Err(e) => {
            return Err(ViewError::Log(e));
        },
    };
    let ghost spans = band_view(band@);
    let mut bars: Vec<Bar> = Vec::new();
    let mut offset: u128 = 0;
    let mut i: usize = 0;
    proof {
        assert(spans.subrange(0, 0) =~= Seq::<Span>::empty());
    }
    while i < band.len()
        invariant
            0 <= i <= band@.len(),
            spans == band_view(band@),
            offset == band_total(spans.subrange(0, i as int)),
            bars@.len() == i,
            forall|k: int|
                0 <= k < i ==> #[trigger] bars@[k]@ == bar_of(
                    spans[k],
                    band_total(spans.subrange(0, k)),
                    local_time_text(spans[k].start),
                ),
        decreases band@.len() - i,
    {
        proof {
            assert(spans.subrange(0, i + 1).drop_last() =~= spans.subrange(0, i as int));
            lemma_band_total_bound(spans.subrange(0, i + 1));
            assert((i + 1) * 0xffff_ffff_ffff_ffff < u128::MAX) by (nonlinear_arith)
                requires
                    i < 0xffff_ffff_ffff_ffff,
            ;
        }
        let when = local_time(band[i].start);
        bars.push(band_bar(&band[i], offset, when));
        offset = offset + band[i].duration as u128;
        i = i + 1;
    }
    proof {
        assert(spans.subrange(0, i as int) =~= spans);
        lemma_band_total_bound(spans);
        assert(spans.len() * 0xffff_ffff_ffff_ffff < u128::MAX) by (nonlinear_arith)
            requires
                spans.len() <= 0xffff_ffff_ffff_ffff,
        ;
    }
    Ok(BandView { bars, total: offset + 1, switches: band.len() })
}

/// The sankey view of a window.
#[derive(Debug)]
pub struct SankeyWindow {
    /// The aggregation tree of the window.
    pub tree: TreeNode,
    /// The tag that is current at the end of the window.
    pub current: Tag,
    /// The layout of the tree and of the budget beside it.
    pub view: SankeyView,
}

/// Lays out the sankey view of the window
/// `[start_timestamp, end_timestamp]` of a log, with the current tag
/// highlighted and the budget beside it.
pub fn render_sankey(
    contents: &[u8],
    start_timestamp: u64,
    end_timestamp: u64,
    ideal_proportions: &Ideals,
) -> (r: Result<SankeyWindow, ViewError>)
    requires
        ideal_proportions.wf(),
    ensures
        match window_of(contents@, start_timestamp, end_timestamp) {
            Err(e) => r.is_err() && r.unwrap_err() == ViewError::Log(e),
            Ok((spans, current)) => {
                &&& r.is_ok()
                &&& r.unwrap().tree.wf(3)
                &&& r.unwrap().tree@ == tree_of(spans)
                &&& r.unwrap().current@ == current
                &&& nodes_view(r.unwrap().view.nodes@) == sankey_nodes(r.unwrap().tree, current)
                &&& r.unwrap().view.total == band_total(spans)
                &&& are_budget_bars(r.unwrap().view.budget@, *ideal_proportions)
                &&& r.unwrap().view.budget_total == seq_sum(
                    weights_of(ideal_proportions.weights@),
                )
            },
        },
{
    let (tree, current, _) = match parse_file(contents, start_timestamp, end_timestamp) {
        Ok(parsed) => parsed,
        Err(e) => {
            return Err(ViewError::Log(e));
        },
    };
    let view = render_tree(&tree, &current, ideal_proportions);
    Ok(SankeyWindow { tree, current, view })
}

} // verus!