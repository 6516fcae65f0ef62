//! What holds of the band of every window: it lies inside the window, holds
//! no sleep, is unchanged by clipping again, and its total is additive over
//! adjacent windows.

use crate::parse::band_of;
use crate::parse::band_total;
use crate::parse::band_view;
use crate::parse::clip_span;
use crate::parse::closed_events;
use crate::parse::sleep_tag;
use crate::parse::step_open;
use crate::parse::walk;
use crate::parse::Event;
use crate::parse::Interval;
use crate::parse::Span;
use crate::text::to_vec;
use vstd::prelude::*;

verus! {

/// The seconds attributed to the window `[begin, end]` of a log.
pub open spec fn window_total(events: Seq<Event>, begin: u64, end: u64) -> nat {
    band_total(band_of(events, begin, end))
}

/// Whether an interval is not empty and lies inside the window.
pub open spec fn within(span: Span, begin: u64, end: u64) -> bool {
    begin <= span.start && span.duration > 0 && span.start + span.duration <= end
}

/// The part of an interval that falls into the window, unless it is empty.
pub open spec fn reclip_span(span: Span, begin: u64, end: u64) -> Option<Span> {
    let start: int = if span.start < begin {
        begin as int
    } else {
        span.start as int
    };
    let stop: int = if span.start + span.duration > end {
        end as int
    } else {
        span.start + span.duration
    };
    if stop > start {
        Some(Span { start: start as u64, duration: (stop - start) as u64, tag: span.tag })
    } else {
        None
    }
}

/// A band clipped to a window: each interval is cut to the window, and
/// those of which nothing is left are dropped.
pub open spec fn reclip(band: Seq<Span>, begin: u64, end: u64) -> Seq<Span>
    decreases band.len(),
{
    if band.len() == 0 {
        Seq::empty()
    } else {
        let before = reclip(band.drop_last(), begin, end);
        match reclip_span(band.last(), begin, end) {
            Some(span) => before.push(span),
            None => before,
        }
    }
}

/// Clips a band to the window `[begin, end]`.
pub fn clip_band(band: &Vec<Interval>, begin: u64, end: u64) -> (clipped: Vec<Interval>)
    ensures
        band_view(clipped@) == reclip(band_view(band@), begin, end),
{
    let mut clipped: Vec<Interval> = Vec::new();
    let ghost spans = band_view(band@);
    let mut i: usize = 0;
    assert(spans.subrange(0, 0) =~= Seq::<Span>::empty());
    assert(band_view(clipped@) =~= Seq::<Span>::empty());
    while i < band.len()
        invariant
            0 <= i <= band@.len(),
            spans == band_view(band@),
            band_view(clipped@) == reclip(spans.subrange(0, i as int), begin, end),
        decreases band@.len() - i,
    {
        let ghost next = spans.subrange(0, i + 1);
        let ghost before = band_view(clipped@);
        assert(next.drop_last() =~= spans.subrange(0, i as int));
        assert(next.last() == band@[i as int]@);
        let interval = &band[i];
        if interval.start <= end {
            let start: u64 = if interval.start < begin {
                begin
            } else {
                interval.start
            };
            let stop: u64 = if interval.duration > end - interval.start {
                end
            } else {
                interval.start + interval.duration
            };
            if stop > start {
                let piece = Interval {
                    start,
                    duration: stop - start,
                    tag: to_vec(interval.tag.as_slice()),
                };
                clipped.push(piece);
                assert(band_view(clipped@) =~= before.push(piece@));
            }
        }
        i = i + 1;
    }
    assert(spans.subrange(0, band@.len() as int) =~= spans);
    clipped
}

/// An interval put before a band adds its duration to the total.
pub(crate) proof fn lemma_total_prepend(span: Span, band: Seq<Span>)
    ensures
        band_total(seq![span] + band) == span.duration + band_total(band),
    decreases band.len(),
{
    let whole = seq![span] + band;
    if band.len() == 0 {
        assert(whole.drop_last() =~= Seq::<Span>::empty());
        assert(whole.last() == span);
        assert(band_total(whole.drop_last()) == 0);
    } else {
        lemma_total_prepend(span, band.drop_last());
        assert(whole.drop_last() =~= seq![span] + band.drop_last());
        assert(whole.last() == band.last());
    }
}

/// Clipping leaves a band alone that lies inside the window.
pub(crate) proof fn lemma_reclip_within(band: Seq<Span>, begin: u64, end: u64)
    requires
        forall|i: int| 0 <= i < band.len() ==> within(#[trigger] band[i], begin, end),
    ensures
        reclip(band, begin, end) == band,
    decreases band.len(),
{
    if band.len() > 0 {
        lemma_reclip_within(band.drop_last(), begin, end);
        assert(within(band[band.len() - 1], begin, end));
        assert(band.drop_last().push(band.last()) =~= band);
    }
}

/// Every interval attributed by a walk lies inside the window and is not
/// sleep.
pub(crate) proof fn lemma_walk_within(prev: Event, rest: Seq<Event>, begin: u64, end: u64)
    ensures
        forall|i: int|
            0 <= i < walk(prev, rest, begin, end).len() ==> {
                &&& within(#[trigger] walk(prev, rest, begin, end)[i], begin, end)
                &&& walk(prev, rest, begin, end)[i].tag != sleep_tag()
            },
    decreases rest.len(),
{
    if rest.len() > 0 {
        let tail = walk(step_open(prev, rest[0]), rest.drop_first(), begin, end);
        let whole = walk(prev, rest, begin, end);
        lemma_walk_within(step_open(prev, rest[0]), rest.drop_first(), begin, end);
        assert forall|i: int| 0 <= i < whole.len() implies within(#[trigger] whole[i], begin, end)
            && whole[i].tag != sleep_tag() by {
            match clip_span(prev, rest[0].timestamp, begin, end) {
                Some(span) => {
                    if i > 0 {
                        assert(whole[i] == tail[i - 1]);
                    }
                },
                None => {},
            }
        }
    }
}

/// The seconds that one activity contributes are additive over adjacent
/// windows.
pub open spec fn clip_seconds(prev: Event, next: u64, begin: u64, end: u64) -> nat {
    match clip_span(prev, next, begin, end) {
        Some(span) => span.duration as nat,
        None => 0,
    }
}

/// The total of a walk is what its first step contributes and the total of
/// the rest.
pub(crate) proof fn lemma_walk_total(prev: Event, rest: Seq<Event>, begin: u64, end: u64)
    requires
        rest.len() > 0,
    ensures
        band_total(walk(prev, rest, begin, end)) == clip_seconds(
            prev,
            rest[0].timestamp,
            begin,
            end,
        ) + band_total(walk(step_open(prev, rest[0]), rest.drop_first(), begin, end)),
{
    let tail = walk(step_open(prev, rest[0]), rest.drop_first(), begin, end);
    match clip_span(prev, rest[0].timestamp, begin, end) {
        Some(span) => {
            lemma_total_prepend(span, tail);
        },
        None => {},
    }
}

/// The totals of a walk over two windows that share a boundary add up.
pub(crate) proof fn lemma_walk_additive(prev: Event, rest: Seq<Event>, a: u64, b: u64, c: u64)
    requires
        a <= b <= c,
    ensures
        band_total(walk(prev, rest, a, b)) + band_total(walk(prev, rest, b, c)) == band_total(
            walk(prev, rest, a, c),
        ),
    decreases rest.len(),
{
    if rest.len() > 0 {
        lemma_walk_additive(step_open(prev, rest[0]), rest.drop_first(), a, b, c);
        lemma_walk_total(prev, rest, a, b);
        lemma_walk_total(prev, rest, b, c);
        lemma_walk_total(prev, rest, a, c);
    }
}

/// Where the closing event stands makes no difference to a window that
/// ends no later.
pub(crate) proof fn lemma_walk_late_close(
    prev: Event,
    rest: Seq<Event>,
    close: u64,
    begin: u64,
    end: u64,
)
    requires
        end <= close,
    ensures
        walk(prev, closed_events(rest, close), begin, end) == walk(
            prev,
            closed_events(rest, end),
            begin,
            end,
        ),
    decreases rest.len(),
{
    let late = closed_events(rest, close);
    let tight = closed_events(rest, end);
    if rest.len() == 0 {
        assert(late.drop_first() =~= Seq::<Event>::empty());
        assert(tight.drop_first() =~= Seq::<Event>::empty());
    } else {
        lemma_walk_late_close(step_open(prev, rest[0]), rest.drop_first(), close, begin, end);
        assert(late.drop_first() =~= closed_events(rest.drop_first(), close));
        assert(tight.drop_first() =~= closed_events(rest.drop_first(), end));
    }
}

/// The band of a window over a log that is closed later than the window
/// ends.
pub(crate) proof fn lemma_band_late_close(events: Seq<Event>, close: u64, begin: u64, end: u64)
    requires
        end <= close,
    ensures
        band_of(events, begin, end) == {
            let all = closed_events(events, close);
            walk(all[0], all.drop_first(), begin, end)
        },
{
    let late = closed_events(events, close);
    let tight = closed_events(events, end);
    if events.len() == 0 {
        assert(late.drop_first() =~= Seq::<Event>::empty());
        assert(tight.drop_first() =~= Seq::<Event>::empty());
    } else {
        lemma_walk_late_close(events[0], events.drop_first(), close, begin, end);
        assert(late.drop_first() =~= closed_events(events.drop_first(), close));
        assert(tight.drop_first() =~= closed_events(events.drop_first(), end));
    }
}

/// The band of a window lies inside the window: every interval starts no
/// earlier than `begin`, ends no later than `end`, and is not empty.
pub proof fn law_band_within_window(events: Seq<Event>, begin: u64, end: u64)
    ensures
        forall|i: int|
            0 <= i < band_of(events, begin, end).len() ==> within(
                #[trigger] band_of(events, begin, end)[i],
                begin,
                end,
            ),
{
    let all = closed_events(events, end);
    lemma_walk_within(all[0], all.drop_first(), begin, end);
}

/// No interval of a band is tagged `health.rest.sleep`.
pub proof fn law_sleep_excluded(events: Seq<Event>, begin: u64, end: u64)
    ensures
        forall|i: int|
            0 <= i < band_of(events, begin, end).len() ==> (#[trigger] band_of(
                events,
                begin,
                end,
            )[i]).tag != sleep_tag(),
{
    let all = closed_events(events, end);
    lemma_walk_within(all[0], all.drop_first(), begin, end);
}

/// Clipping is idempotent: the band of a window, clipped to that window
/// again, is the same band.
pub proof fn law_clipping_idempotent(events: Seq<Event>, begin: u64, end: u64)
    ensures
        reclip(band_of(events, begin, end), begin, end) == band_of(events, begin, end),
{
    law_band_within_window(events, begin, end);
    lemma_reclip_within(band_of(events, begin, end), begin, end);
}

/// Window additivity: the seconds of two windows that share a boundary add
/// up to the seconds of the window that spans both.
pub proof fn law_window_additivity(events: Seq<Event>, a: u64, b: u64, c: u64)
    requires
        a <= b <= c,
    ensures
        window_total(events, a, b) + window_total(events, b, c) == window_total(events, a, c),
{
    let all = closed_events(events, c);
    lemma_band_late_close(events, c, a, b);
    lemma_walk_additive(all[0], all.drop_first(), a, b, c);
}

/// Two windows that leave a second between them, `[a, b - 1]` and `[b, c]`,
/// together miss exactly what falls into that second.
pub proof fn law_window_additivity_with_gap(events: Seq<Event>, a: u64, b: u64, c: u64)
    requires
        a < b <= c,
    ensures
        window_total(events, a, (b - 1) as u64) + window_total(events, b, c) == window_total(
            events,
            a,
            c,
        ) - window_total(events, (b - 1) as u64, b),
{
    law_window_additivity(events, a, (b - 1) as u64, b);
    law_window_additivity(events, a, b, c);
}

} // verus!
