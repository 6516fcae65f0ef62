//! The log interpreter: from the bytes of an activity log to the intervals
//! of a window, their aggregation tree and the tag that is current at the
//! window's end.

use crate::text::bytes_eq;
use crate::text::parse_u64;
use crate::text::parse_u64_spec;
use crate::text::split;
use crate::text::split_bytes;
use crate::text::to_vec;
use crate::text::views;
use crate::tree_node::add_path;
use crate::tree_node::TreeNode;
use vstd::prelude::*;

verus! {

/// The tag `now.now.now` of the synthetic event that closes the last
/// interval of a window.
pub open spec fn now_tag() -> Seq<u8> {
    seq![110u8, 111u8, 119u8, 46u8, 110u8, 111u8, 119u8, 46u8, 110u8, 111u8, 119u8]
}

/// The tag `health.rest.sleep`, whose time is left out of every aggregate.
pub open spec fn sleep_tag() -> Seq<u8> {
    seq![
        104u8,
        101u8,
        97u8,
        108u8,
        116u8,
        104u8,
        46u8,
        114u8,
        101u8,
        115u8,
        116u8,
        46u8,
        115u8,
        108u8,
        101u8,
        101u8,
        112u8,
    ]
}

/// One line of the log, in the abstract: the start of the activity `tag`.
pub ghost struct Event {
    pub timestamp: u64,
    pub tag: Seq<u8>,
}

/// One attributed interval, in the abstract.
pub ghost struct Span {
    pub start: u64,
    pub duration: u64,
    pub tag: Seq<u8>,
}

/// One line of the log: the start of the activity `tag`.
#[derive(Debug)]
pub struct LogEvent {
    pub timestamp: u64,
    pub tag: Vec<u8>,
}

impl View for LogEvent {
    type V = Event;

    open spec fn view(&self) -> Event {
        Event { timestamp: self.timestamp, tag: self.tag@ }
    }
}

/// One attributed interval: `duration` seconds of `tag` from `start` on.
#[derive(Debug)]
pub struct Interval {
    pub start: u64,
    pub duration: u64,
    pub tag: Vec<u8>,
}

impl View for Interval {
    type V = Span;

    open spec fn view(&self) -> Span {
        Span { start: self.start, duration: self.duration, tag: self.tag@ }
    }
}

/// The three components of a tag.
#[derive(Debug)]
pub struct Tag {
    pub major: Vec<u8>,
    pub minor: Vec<u8>,
    pub activity: Vec<u8>,
}

impl View for Tag {
    type V = Seq<Seq<u8>>;

    open spec fn view(&self) -> Seq<Seq<u8>> {
        seq![self.major@, self.minor@, self.activity@]
    }
}

/// Why a log could not be interpreted.
#[derive(PartialEq, Eq, Structural, Clone, Copy, Debug)]
pub enum ParseError {
    /// A line is not `<unsigned seconds>`, a tab and a tag.
    MalformedLine,
    /// A tag that had to be split has fewer than three components.
    MalformedTag,
}

/// The views of a vector of events.
pub open spec fn events_view(v: Seq<LogEvent>) -> Seq<Event> {
    Seq::new(v.len(), |i: int| v[i]@)
}

/// The views of a vector of intervals.
pub open spec fn band_view(v: Seq<Interval>) -> Seq<Span> {
    Seq::new(v.len(), |i: int| v[i]@)
}

/// What a line of the log says: the fields are separated by tabs, the first
/// is the timestamp, the second the tag, and further fields are ignored.
pub open spec fn parse_line_spec(line: Seq<u8>) -> Option<Event> {
    let fields = split(line, 9u8);
    if fields.len() >= 2 {
        match parse_u64_spec(fields[0]) {
            Some(timestamp) => Some(Event { timestamp, tag: fields[1] }),
            None => None,
        }
    } else {
        None
    }
}

/// The lines of a log: the pieces that a line feed ends. What follows the
/// last line feed is an unfinished line and is left out.
pub open spec fn log_lines(contents: Seq<u8>) -> Seq<Seq<u8>> {
    split(contents, 10u8).drop_last()
}

/// The events of a log, if every line of it is well formed.
pub open spec fn log_events(contents: Seq<u8>) -> Option<Seq<Event>> {
    let lines = log_lines(contents);
    if forall|i: int| 0 <= i < lines.len() ==> parse_line_spec(#[trigger] lines[i]).is_some() {
        Some(Seq::new(lines.len(), |i: int| parse_line_spec(lines[i]).unwrap()))
    } else {
        None
    }
}

/// The part of the activity that starts with `prev` and ends at `next`
/// which falls into the window, unless it is empty or sleep.
pub open spec fn clip_span(prev: Event, next: u64, begin: u64, end: u64) -> Option<Span> {
    let start = if prev.timestamp < begin {
        begin
    } else {
        prev.timestamp
    };
    let stop = if next > end {
        end
    } else {
        next
    };
    if stop > start && prev.tag != sleep_tag() {
        Some(Span { start, duration: (stop - start) as u64, tag: prev.tag })
    } else {
        None
    }
}

/// The event that is open after `next` has been read while `prev` was open:
/// an event tagged `now.now.now` closes an interval without opening one.
pub open spec fn step_open(prev: Event, next: Event) -> Event {
    if next.tag != now_tag() {
        next
    } else {
        prev
    }
}

/// The intervals attributed while reading `rest` with `prev` open.
pub open spec fn walk(prev: Event, rest: Seq<Event>, begin: u64, end: u64) -> Seq<Span>
    decreases rest.len(),
{
    if rest.len() == 0 {
        Seq::empty()
    } else {
        let tail = walk(step_open(prev, rest[0]), rest.drop_first(), begin, end);
        match clip_span(prev, rest[0].timestamp, begin, end) {
            Some(span) => seq![span] + tail,
            None => tail,
        }
    }
}

/// The event that is open once `rest` has been read with `prev` open.
pub open spec fn last_open(prev: Event, rest: Seq<Event>) -> Event
    decreases rest.len(),
{
    if rest.len() == 0 {
        prev
    } else {
        last_open(step_open(prev, rest[0]), rest.drop_first())
    }
}

/// The events of a log followed by the synthetic event that ends the window.
pub open spec fn closed_events(events: Seq<Event>, end: u64) -> Seq<Event> {
    events.push(Event { timestamp: end, tag: now_tag() })
}

/// The band of a window: the attributed intervals in log order.
pub open spec fn band_of(events: Seq<Event>, begin: u64, end: u64) -> Seq<Span> {
    let all = closed_events(events, end);
    walk(all[0], all.drop_first(), begin, end)
}

/// The tag that is current at the end of a window over a log that is not
/// empty: that of the last event which opened an interval.
pub open spec fn current_tag(events: Seq<Event>) -> Seq<u8> {
    last_open(events[0], events.drop_first()).tag
}

/// The first three components of a dotted tag, if it has that many.
pub open spec fn path_of(tag: Seq<u8>) -> Option<Seq<Seq<u8>>> {
    let parts = split(tag, 46u8);
    if parts.len() >= 3 {
        Some(seq![parts[0], parts[1], parts[2]])
    } else {
        None
    }
}

/// Whether every interval of a band has a tag of three components.
pub open spec fn well_tagged(band: Seq<Span>) -> bool {
    forall|i: int| 0 <= i < band.len() ==> path_of((#[trigger] band[i]).tag).is_some()
}

/// The seconds attributed by a band.
pub open spec fn band_total(band: Seq<Span>) -> nat
    decreases band.len(),
{
    if band.len() == 0 {
        0
    } else {
        band_total(band.drop_last()) + band.last().duration as nat
    }
}

/// The tree that aggregates a band: starting from the bare root, each
/// interval adds its duration along the path of its tag.
pub open spec fn tree_of(band: Seq<Span>) -> Map<Seq<Seq<u8>>, nat>
    decreases band.len(),
{
    if band.len() == 0 {
        Map::<Seq<Seq<u8>>, nat>::empty().insert(Seq::empty(), 0nat)
    } else {
        add_path(
            tree_of(band.drop_last()),
            path_of(band.last().tag).unwrap(),
            band.last().duration as nat,
        )
    }
}

/// The triple that stands for the current tag of an empty log.
pub open spec fn empty_triple() -> Seq<Seq<u8>> {
    seq![Seq::<u8>::empty(), Seq::<u8>::empty(), Seq::<u8>::empty()]
}

/// Reads one line of the log.
pub fn parse_line(line: &[u8]) -> (r: Result<LogEvent, ParseError>)
    ensures
        match parse_line_spec(line@) {
            Some(event) => r.is_ok() && r.unwrap()@ == event,
            None => r == Err::<LogEvent, ParseError>(ParseError::MalformedLine),
        },
{
    let mut fields = split_bytes(line, 9u8);
    assert(views(fields@).len() == fields@.len());
    if fields.len() < 2 {
        return Err(ParseError::MalformedLine);
    }
    assert(views(fields@)[0] == fields@[0]@);
    assert(views(fields@)[1] == fields@[1]@);
    match parse_u64(fields[0].as_slice()) {
        Some(timestamp) => {
            let tag = fields.swap_remove(1);
            Ok(LogEvent { timestamp, tag })
        },
        None => Err(ParseError::MalformedLine),
    }
}

/// Reads every line of the log.
pub fn read_events(contents: &[u8]) -> (r: Result<Vec<LogEvent>, ParseError>)
    ensures
        match log_events(contents@) {
            Some(events) => r.is_ok() && events_view(r.unwrap()@) == events,
            None => r == Err::<Vec<LogEvent>, ParseError>(ParseError::MalformedLine),
        },
{
    let mut lines = split_bytes(contents, 10u8);
    let ghost pieces = views(lines@);
    lines.pop();
    let ghost wanted = log_lines(contents@);
    assert(views(lines@) =~= wanted);
    let mut events: Vec<LogEvent> = Vec::new();
    let mut i: usize = 0;
    while i < lines.len()
        invariant
            0 <= i <= lines@.len(),
            views(lines@) == wanted,
            wanted == log_lines(contents@),
            events@.len() == i,
            forall|j: int|
                0 <= j < i ==> parse_line_spec(#[trigger] wanted[j]) == Some(events@[j]@),
        decreases lines@.len() - i,
    {
        assert(wanted[i as int] == lines@[i as int]@);
        match parse_line(lines[i].as_slice()) {
            Ok(event) => {
                events.push(event);
            },
            Err(_) => {
                assert(parse_line_spec(wanted[i as int]).is_none());
                return Err(ParseError::MalformedLine);
            },
        }
        i = i + 1;
    }
    proof {
        assert(log_events(contents@).is_some());
        assert(events_view(events@) =~= log_events(contents@).unwrap());
    }
    Ok(events)
}

/// Whether `tag` is `now.now.now`.
pub fn is_now(tag: &[u8]) -> (r: bool)
    ensures
        r == (tag@ == now_tag()),
{
    let now: Vec<u8> = vec![
        110u8,
        111u8,
        119u8,
        46u8,
        110u8,
        111u8,
        119u8,
        46u8,
        110u8,
        111u8,
        119u8,
    ];
    assert(now@ =~= now_tag());
    bytes_eq(tag, now.as_slice())
}

/// Whether `tag` is `health.rest.sleep`.
pub fn is_sleep(tag: &[u8]) -> (r: bool)
    ensures
        r == (tag@ == sleep_tag()),
{
    let sleep: Vec<u8> = vec![
        104u8,
        101u8,
        97u8,
        108u8,
        116u8,
        104u8,
        46u8,
        114u8,
        101u8,
        115u8,
        116u8,
        46u8,
        115u8,
        108u8,
        101u8,
        101u8,
        112u8,
    ];
    assert(sleep@ =~= sleep_tag());
    bytes_eq(tag, sleep.as_slice())
}

/// Clips the activity that `prev` starts and that ends at `next` to the
/// window, and appends what is left of it to `band`.
fn attribute(band: &mut Vec<Interval>, prev: &LogEvent, next: u64, begin: u64, end: u64)
    ensures
        band_view(final(band)@) == match clip_span(prev@, next, begin, end) {
            Some(span) => band_view(old(band)@) + seq![span],
            None => band_view(old(band)@),
        },
{
    let start: u64 = if prev.timestamp < begin {
        begin
    } else {
        prev.timestamp
    };
    let stop: u64 = if next > end {
        end
    } else {
        next
    };
    if stop > start && !is_sleep(prev.tag.as_slice()) {
        let ghost before = band_view(band@);
        let interval = Interval {
            start,
            duration: stop - start,
            tag: to_vec(prev.tag.as_slice()),
        };
        band.push(interval);
        assert(band_view(band@) =~= before + seq![interval@]);
    }
}

/// The band of the window `[begin, end]`, and the position of the event
/// whose tag is current at its end (0 for an empty log).
pub fn window_band(events: &Vec<LogEvent>, begin: u64, end: u64) -> (r: (Vec<Interval>, usize))
    ensures
        band_view(r.0@) == band_of(events_view(events@), begin, end),
        events@.len() == 0 ==> r.1 == 0,
        events@.len() > 0 ==> r.1 < events@.len() && events@[r.1 as int]@ == last_open(
            events_view(events@)[0],
            events_view(events@).drop_first(),
        ),
{
    let mut band: Vec<Interval> = Vec::new();
    let n: usize = events.len();
    let ghost evs = events_view(events@);
    let ghost all = closed_events(evs, end);
    if n == 0 {
        assert(all.drop_first() =~= Seq::<Event>::empty());
        assert(band_view(band@) =~= Seq::<Span>::empty());
        return (band, 0);
    }
    let mut open: usize = 0;
    let mut i: usize = 1;
    proof {
        assert(all[0] == evs[0]);
        assert(all.subrange(1, n + 1) =~= all.drop_first());
        assert(evs.subrange(1, n as int) =~= evs.drop_first());
        assert(band_view(band@) + walk(evs[0], all.drop_first(), begin, end) =~= walk(
            evs[0],
            all.drop_first(),
            begin,
            end,
        ));
    }
    while i < n
        invariant
            1 <= i <= n,
            n == events@.len(),
            open < i,
            evs == events_view(events@),
            all == closed_events(evs, end),
            band_view(band@) + walk(evs[open as int], all.subrange(i as int, n + 1), begin, end)
                == band_of(evs, begin, end),
            last_open(evs[open as int], evs.subrange(i as int, n as int)) == last_open(
                evs[0],
                evs.drop_first(),
            ),
        decreases n - i,
    {
        let ghost before = band_view(band@);
        let ghost rest = all.subrange(i as int, n + 1);
        let ghost real_rest = evs.subrange(i as int, n as int);
        proof {
            assert(rest[0] == evs[i as int]);
            assert(real_rest[0] == evs[i as int]);
            assert(rest.drop_first() =~= all.subrange(i + 1, n + 1));
            assert(real_rest.drop_first() =~= evs.subrange(i + 1, n as int));
            assert(evs[i as int] == events@[i as int]@);
            assert(evs[open as int] == events@[open as int]@);
        }
        attribute(&mut band, &events[open], events[i].timestamp, begin, end);
        let ghost step = step_open(evs[open as int], evs[i as int]);
        proof {
            let tail = walk(step, rest.drop_first(), begin, end);
            match clip_span(evs[open as int], evs[i as int].timestamp, begin, end) {
                Some(span) => {
                    assert(band_view(band@) + tail =~= before + (seq![span] + tail));
                },
                None => {},
            }
        }
        if !is_now(events[i].tag.as_slice()) {
            open = i;
        }
        assert(evs[open as int] == step);
        i = i + 1;
    }
    let ghost before = band_view(band@);
    let ghost rest = all.subrange(n as int, n + 1);
    proof {
        assert(rest[0] == Event { timestamp: end, tag: now_tag() });
        assert(rest.drop_first() =~= Seq::<Event>::empty());
        assert(evs[open as int] == events@[open as int]@);
        assert(evs.subrange(n as int, n as int) =~= Seq::<Event>::empty());
    }
    attribute(&mut band, &events[open], end, begin, end);
    proof {
        let tail = walk(step_open(evs[open as int], rest[0]), rest.drop_first(), begin, end);
        assert(tail =~= Seq::<Span>::empty());
        match clip_span(evs[open as int], end, begin, end) {
            Some(span) => {
                assert(band_view(band@) =~= before + (seq![span] + tail));
            },
            None => {
                assert(band_view(band@) =~= before + tail);
            },
        }
    }
    (band, open)
}

/// Splits a tag into its first three components.
pub fn split_tag(tag: &[u8]) -> (r: Option<Tag>)
    ensures
        match path_of(tag@) {
            Some(path) => r.is_some() && r.unwrap()@ == path,
            None => r.is_none(),
        },
{
    let mut parts = split_bytes(tag, 46u8);
    assert(views(parts@).len() == parts@.len());
    if parts.len() < 3 {
        return None;
    }
    assert(views(parts@)[0] == parts@[0]@);
    assert(views(parts@)[1] == parts@[1]@);
    assert(views(parts@)[2] == parts@[2]@);
    parts.truncate(3);
    let activity = parts.pop().unwrap();
    let minor = parts.pop().unwrap();
    let major = parts.pop().unwrap();
    Some(Tag { major, minor, activity })
}

/// A band attributes at most what 64 bits hold for each of its intervals.
pub(crate) proof fn lemma_band_total_bound(band: Seq<Span>)
    ensures
        band_total(band) <= band.len() * 0xffff_ffff_ffff_ffff,
    decreases band.len(),
{
    if band.len() > 0 {
        lemma_band_total_bound(band.drop_last());
    }
}

/// Aggregates a band into its tree.
pub fn build_tree(band: &Vec<Interval>) -> (r: Result<TreeNode, ParseError>)
    ensures
        well_tagged(band_view(band@)) ==> r.is_ok() && r.unwrap().wf(3) && r.unwrap()@ == tree_of(
            band_view(band@),
        ) && r.unwrap().value == band_total(band_view(band@)),
        !well_tagged(band_view(band@)) ==> r.is_err() && r.unwrap_err()
            == ParseError::MalformedTag,
{
    let mut tree = TreeNode::new();
    let ghost spans = band_view(band@);
    let mut i: usize = 0;
    assert(spans.subrange(0, 0) =~= Seq::<Span>::empty());
    while i < band.len()
        invariant
            0 <= i <= band@.len(),
            spans == band_view(band@),
            tree.wf(3),
            tree@ == tree_of(spans.subrange(0, i as int)),
            tree.value == band_total(spans.subrange(0, i as int)),
            well_tagged(spans.subrange(0, i as int)),
        decreases band@.len() - i,
    {
        let ghost done = spans.subrange(0, i as int);
        let ghost next = spans.subrange(0, i + 1);
        proof {
            assert(next.drop_last() =~= done);
            assert(next.last() == band@[i as int]@);
            lemma_band_total_bound(done);
            assert(done.len() * 0xffff_ffff_ffff_ffff + 0xffff_ffff_ffff_ffff <= u128::MAX)
                by (nonlinear_arith)
                requires
                    done.len() <= 0xffff_ffff_ffff_ffff,
            ;
        }
        match split_tag(band[i].tag.as_slice()) {
            Some(tag) => {
                tree.insert(
                    tag.major.as_slice(),
                    tag.minor.as_slice(),
                    tag.activity.as_slice(),
                    band[i].duration,
                );
                proof {
                    assert(seq![tag.major@, tag.minor@, tag.activity@] == path_of(
                        next.last().tag,
                    ).unwrap());
                    assert forall|j: int| 0 <= j < next.len() implies path_of(
                        (#[trigger] next[j]).tag,
                    ).is_some() by {
                        if j < i {
                            assert(done[j] == next[j]);
                        }
                    }
                }
            },
            None => {
                assert(spans[i as int] == band@[i as int]@);
                assert(path_of(spans[i as int].tag).is_none());
                return Err(ParseError::MalformedTag);
            },
        }
        i = i + 1;
    }
    assert(spans.subrange(0, band@.len() as int) =~= spans);
    Ok(tree)
}

/// What the events of a log say about the window `[begin, end]`: the band
/// and the three components of the current tag (three empty ones for an
/// empty log), or that a tag cannot be split. The tags that have to be split
/// are those of the band and the current one.
pub open spec fn window_of_events(events: Seq<Event>, begin: u64, end: u64) -> Result<
    (Seq<Span>, Seq<Seq<u8>>),
    ParseError,
> {
    let spans = band_of(events, begin, end);
    if events.len() == 0 {
        Ok((spans, empty_triple()))
    } else if well_tagged(spans) && path_of(current_tag(events)).is_some() {
        Ok((spans, path_of(current_tag(events)).unwrap()))
    } else {
        Err(ParseError::MalformedTag)
    }
}

/// What a log says about the window `[begin, end]`, or why it cannot be
/// interpreted. A line that is not well formed counts before a tag that
/// cannot be split.
pub open spec fn window_of(contents: Seq<u8>, begin: u64, end: u64) -> Result<
    (Seq<Span>, Seq<Seq<u8>>),
    ParseError,
> {
    match log_events(contents) {
        None => Err(ParseError::MalformedLine),
        Some(events) => window_of_events(events, begin, end),
    }
}

/// Interprets the events of a log over the window `[begin, end]`.
pub fn parse_events(events: &Vec<LogEvent>, begin: u64, end: u64) -> (r: Result<
    (TreeNode, Tag, Vec<Interval>),
    ParseError,
>)
    ensures
        match window_of_events(events_view(events@), begin, end) {
            Ok((spans, current)) => {
                &&& r.is_ok()
                &&& r.unwrap().0.wf(3)
                &&& r.unwrap().0@ == tree_of(spans)
                &&& r.unwrap().0.value == band_total(spans)
                &&& r.unwrap().1@ == current
                &&& band_view(r.unwrap().2@) == spans
            },
            Err(e) => r.is_err() && r.unwrap_err() == e,
        },
{
    let (band, open) = window_band(events, begin, end);
    proof {
        if events@.len() == 0 {
            let all = closed_events(events_view(events@), end);
            assert(all.drop_first() =~= Seq::<Event>::empty());
        }
    }
    let tree = match build_tree(&band) {
        Ok(tree) => tree,
        Err(e) => {
            return Err(e);
        },
    };
    let current = if events.len() == 0 {
        Tag { major: Vec::new(), minor: Vec::new(), activity: Vec::new() }
    } else {
        match split_tag(events[open].tag.as_slice()) {
            Some(tag) => tag,
            None => {
                return Err(ParseError::MalformedTag);
            },
        }
    };
    assert(current@ =~= if events@.len() == 0 {
        empty_triple()
    } else {
        path_of(current_tag(events_view(events@))).unwrap()
    });
    Ok((tree, current, band))
}

/// Interprets a log over the window `[begin_timestamp, end_timestamp]`.
///
/// The result holds the aggregation tree of the window, the tag that is
/// current at its end, and the band of attributed intervals in log order.
pub fn parse_file(contents: &[u8], begin_timestamp: u64, end_timestamp: u64) -> (r: Result<
    (TreeNode, Tag, Vec<Interval>),
    ParseError,
>)
    ensures
        match window_of(contents@, begin_timestamp, end_timestamp) {
            Ok((spans, current)) => {
                &&& r.is_ok()
                &&& r.unwrap().0.wf(3)
                &&& r.unwrap().0@ == tree_of(spans)
                &&& r.unwrap().0.value == band_total(spans)
                &&& r.unwrap().1@ == current
                &&& band_view(r.unwrap().2@) == spans
            },
            Err(e) => r.is_err() && r.unwrap_err() == e,
        },
{
    match read_events(contents) {
        Ok(events) => parse_events(&events, begin_timestamp, end_timestamp),
        Err(e) => Err(e),
    }
}

} // verus!
