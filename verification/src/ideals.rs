//! The budget of ideal proportions: a dated, comment-tolerant text whose
//! snapshots give each category a weight.

use crate::order::lemma_ascending_distinct;
use crate::order::lemma_ascending_insert;
use crate::order::locate;
use crate::order::strictly_ascending;
use crate::sums::lemma_index_of;
use crate::text::all_digits;
use crate::text::bytes_eq;
use crate::text::digits_value;
use crate::text::is_digit;
use crate::text::parse_digits;
use crate::text::parse_u64;
use crate::text::parse_u64_spec;
use crate::text::split;
use crate::text::split_bytes;
use crate::text::to_vec;
use crate::text::views;
use vstd::prelude::*;

verus! {

/// Weights are held in millionths: the weight `12.5` is stored as
/// `12_500_000`.
pub const WEIGHT_SCALE: u64 = 1_000_000;

/// Ten to the power of `k`.
pub open spec fn pow10(k: nat) -> nat
    decreases k,
{
    if k == 0 {
        1
    } else {
        10 * pow10((k - 1) as nat)
    }
}

/// What a token reads as when taken for a weight: digits, optionally
/// followed by a point and one to six further digits. The result is the
/// number in millionths, which has to fit 64 bits.
pub open spec fn weight_spec(token: Seq<u8>) -> Option<u64> {
    let parts = split(token, 46u8);
    if parts.len() > 2 {
        None
    } else {
        let whole = parts[0];
        let fraction = if parts.len() == 2 {
            parts[1]
        } else {
            Seq::<u8>::empty()
        };
        let value = digits_value(whole) * 1_000_000 + digits_value(fraction) * pow10(
            (6 - fraction.len()) as nat,
        );
        if whole.len() > 0 && all_digits(whole) && all_digits(fraction) && fraction.len() <= 6 && (
        parts.len() == 2 ==> fraction.len() > 0) && value <= u64::MAX {
            Some(value as u64)
        } else {
            None
        }
    }
}

/// A number of `n` digits is below ten to the power of `n`.
pub(crate) proof fn lemma_digits_value_bound(d: Seq<u8>)
    requires
        all_digits(d),
    ensures
        digits_value(d) < pow10(d.len()),
    decreases d.len(),
{
    if d.len() > 0 {
        assert(all_digits(d.drop_last())) by {
            assert forall|i: int| 0 <= i < d.drop_last().len() implies is_digit(
                #[trigger] d.drop_last()[i],
            ) by {
                assert(d.drop_last()[i] == d[i]);
            }
        }
        lemma_digits_value_bound(d.drop_last());
        assert(is_digit(d[d.len() - 1]));
    }
}

/// Reads a weight in millionths.
pub fn parse_weight(token: &[u8]) -> (r: Option<u64>)
    ensures
        r == weight_spec(token@),
{
    let parts = split_bytes(token, 46u8);
    assert(views(parts@).len() == parts@.len());
    if parts.len() > 2 {
        return None;
    }
    assert(views(parts@)[0] == parts@[0]@);
    let ghost whole_digits = parts@[0]@;
    let ghost fraction_digits = if parts@.len() == 2 {
        parts@[1]@
    } else {
        Seq::<u8>::empty()
    };
    proof {
        reveal_with_fuel(pow10, 8);
    }
    let mut fraction: u64 = 0;
    if parts.len() == 2 {
        assert(views(parts@)[1] == parts@[1]@);
        let digits = parts[1].as_slice();
        let len: usize = digits.len();
        if len == 0 || len > 6 {
            return None;
        }
        fraction = match parse_digits(digits) {
            Some(f) => f,
            None => {
                proof {
                    if all_digits(fraction_digits) {
                        lemma_digits_value_bound(fraction_digits);
                    }
                }
                return None;
            },
        };
        proof {
            lemma_digits_value_bound(fraction_digits);
            assert(pow10(0) == 1);
            assert(fraction == digits_value(fraction_digits));
            assert(fraction == digits_value(fraction_digits) * pow10((len - len) as nat)) by {
                assert(digits_value(fraction_digits) * 1 == digits_value(fraction_digits));
            }
        }
        let mut k: usize = len;
        while k < 6
            invariant
                len <= k <= 6,
                1 <= len,
                fraction == digits_value(fraction_digits) * pow10((k - len) as nat),
                digits_value(fraction_digits) < pow10(len as nat),
                fraction < pow10(k as nat),
            decreases 6 - k,
        {
            proof {
                reveal_with_fuel(pow10, 8);
                assert(pow10((k + 1 - len) as nat) == 10 * pow10((k - len) as nat));
                assert(digits_value(fraction_digits) * (10 * pow10((k - len) as nat)) == 10 * (
                digits_value(fraction_digits) * pow10((k - len) as nat))) by (nonlinear_arith);
            }
            fraction = fraction * 10;
            k = k + 1;
        }
        assert(fraction == digits_value(fraction_digits) * pow10(
            (6 - fraction_digits.len()) as nat,
        ));
    } else {
        assert(digits_value(fraction_digits) == 0);
        assert(0 * pow10(6) == 0) by (nonlinear_arith);
    }
    assert(fraction == digits_value(fraction_digits) * pow10(
        (6 - fraction_digits.len()) as nat,
    ));
    assert(all_digits(fraction_digits));
    assert(fraction < 1_000_000);
    assert(views(parts@) == split(token@, 46u8));
    let whole = match parse_digits(parts[0].as_slice()) {
        Some(w) => w,
        None => {
            proof {
                if whole_digits.len() > 0 && all_digits(whole_digits) {
                    assert(digits_value(whole_digits) * 1_000_000 > u64::MAX);
                }
            }
            return None;
        },
    };
    match whole.checked_mul(1_000_000) {
        Some(scaled) => scaled.checked_add(fraction),
        None => None,
    }
}

/// Why a budget could not be read.
#[derive(PartialEq, Eq, Structural, Clone, Copy, Debug)]
pub enum IdealsError {
    /// A line has more than two tokens.
    MalformedLine,
    /// A line of one token is not an unsigned timestamp.
    MalformedTimestamp,
    /// The second token of a line is not a weight.
    MalformedWeight,
}

/// What one line of the budget says.
pub ghost enum IdealsLine {
    /// A blank line or a comment.
    Skip,
    /// The timestamp from which the entries that follow are in effect.
    Boundary(u64),
    /// A category and its weight in millionths.
    Entry(Seq<u8>, u64),
    /// A line that cannot be read.
    Bad(IdealsError),
}

/// The weights of the categories of one snapshot, in millionths.
///
/// `names[i]` has the weight `weights[i]`; the names stand in strictly
/// ascending lexicographic order.
#[derive(Debug)]
pub struct Ideals {
    pub names: Vec<Vec<u8>>,
    pub weights: Vec<u64>,
}

impl Ideals {
    /// The names of the categories, in stored order.
    pub open spec fn keys(&self) -> Seq<Seq<u8>> {
        views(self.names@)
    }

    /// Well-formedness: each name has a weight, and the names stand in
    /// strictly ascending order.
    pub open spec fn wf(&self) -> bool {
        &&& self.names@.len() == self.weights@.len()
        &&& strictly_ascending(self.keys())
    }

    /// The snapshot as a map from category to weight.
    pub open spec fn view(&self) -> Map<Seq<u8>, u64> {
        Map::new(
            |k: Seq<u8>| self.keys().contains(k),
            |k: Seq<u8>| self.weights@[self.keys().index_of(k)],
        )
    }

    /// A snapshot without categories.
    pub fn new() -> (ideals: Ideals)
        ensures
            ideals.wf(),
            ideals@ == Map::<Seq<u8>, u64>::empty(),
    {
        let ideals = Ideals { names: Vec::new(), weights: Vec::new() };
        assert(ideals@ =~= Map::<Seq<u8>, u64>::empty());
        ideals
    }

    /// The position of the category `name`, if it is listed: the first at
    /// which it stands.
    pub fn position(&self, name: &[u8]) -> (r: Option<usize>)
        ensures
            match r {
                Some(i) => {
                    &&& i < self.keys().len()
                    &&& self.keys()[i as int] == name@
                    &&& forall|j: int| 0 <= j < i ==> self.keys()[j] != name@
                },
                None => !self.keys().contains(name@),
            },
    {
        let mut i: usize = 0;
        while i < self.names.len()
            invariant
                0 <= i <= self.names@.len(),
                forall|j: int| 0 <= j < i ==> self.keys()[j] != name@,
            decreases self.names@.len() - i,
        {
            if bytes_eq(self.names[i].as_slice(), name) {
                return Some(i);
            }
            i = i + 1;
        }
        None
    }

    /// The weight of the category `name`, if it is listed.
    pub fn get(&self, name: &[u8]) -> (r: Option<u64>)
        requires
            self.wf(),
        ensures
            r == if self@.dom().contains(name@) {
                Some(self@[name@])
            } else {
                None
            },
    {
        match self.position(name) {
            Some(i) => {
                proof {
                    lemma_ascending_distinct(self.keys());
                    lemma_index_of(self.keys(), i as int);
                }
                Some(self.weights[i])
            },
            None => None,
        }
    }

    /// Gives the category `name` the weight `weight`, whether or not it was
    /// listed before.
    pub fn set(&mut self, name: &[u8], weight: u64)
        requires
            old(self).wf(),
        ensures
            final(self).wf(),
            final(self)@ == old(self)@.insert(name@, weight),
    {
        let ghost o = *self;
        proof {
            lemma_ascending_distinct(o.keys());
        }
        let (found, at) = locate(&self.names, name);
        if found {
            self.weights.set(at, weight);
            proof {
                assert(self.keys() =~= o.keys());
                assert forall|k: Seq<u8>| self.keys().contains(k) implies #[trigger] self@[k]
                    == o@.insert(name@, weight)[k] by {
                    lemma_index_of(o.keys(), at as int);
                }
                assert(self@ =~= o@.insert(name@, weight));
            }
        } else {
            self.names.insert(at, to_vec(name));
            self.weights.insert(at, weight);
            proof {
                assert(self.keys() =~= o.keys().insert(at as int, name@));
                lemma_ascending_insert(o.keys(), at as int, name@);
                lemma_ascending_distinct(self.keys());
                assert forall|k: Seq<u8>|
                    self.keys().contains(k) == (o.keys().contains(k) || k == name@) by {
                    if o.keys().contains(k) {
                        let j = o.keys().index_of(k);
                        let j1 = if j < at {
                            j
                        } else {
                            j + 1
                        };
                        assert(self.keys()[j1] == k);
                    }
                    if k == name@ {
                        assert(self.keys()[at as int] == k);
                    }
                    if self.keys().contains(k) && k != name@ {
                        let j1 = self.keys().index_of(k);
                        let j = if j1 < at {
                            j1
                        } else {
                            j1 - 1
                        };
                        assert(o.keys()[j] == k);
                    }
                }
                assert forall|k: Seq<u8>| self.keys().contains(k) implies #[trigger] self@[k]
                    == o@.insert(name@, weight)[k] by {
                    if k == name@ {
                        lemma_index_of(self.keys(), at as int);
                    } else {
                        let j = o.keys().index_of(k);
                        let j1 = if j < at {
                            j
                        } else {
                            j + 1
                        };
                        assert(self.keys()[j1] == k);
                        lemma_index_of(self.keys(), j1);
                    }
                }
                assert(self@ =~= o@.insert(name@, weight));
            }
        }
    }
}

/// What a line of the budget says: blank lines and lines that begin with
/// `#` are skipped; otherwise the tokens are separated by single spaces, one
/// token is a boundary, two are a category and its weight.
pub open spec fn classify(line: Seq<u8>) -> IdealsLine {
    if line.len() == 0 || line[0] == 35u8 {
        IdealsLine::Skip
    } else {
        let tokens = split(line, 32u8);
        if tokens.len() == 1 {
            match parse_u64_spec(tokens[0]) {
                Some(timestamp) => IdealsLine::Boundary(timestamp),
                None => IdealsLine::Bad(IdealsError::MalformedTimestamp),
            }
        } else if tokens.len() == 2 {
            match weight_spec(tokens[1]) {
                Some(weight) => IdealsLine::Entry(tokens[0], weight),
                None => IdealsLine::Bad(IdealsError::MalformedWeight),
            }
        } else {
            IdealsLine::Bad(IdealsError::MalformedLine)
        }
    }
}

/// The lines of a budget, classified. What follows the last line feed counts
/// as a line too.
pub open spec fn ideals_lines(contents: Seq<u8>) -> Seq<IdealsLine> {
    let lines = split(contents, 10u8);
    Seq::new(lines.len(), |i: int| classify(lines[i]))
}

/// The snapshot in effect at `timestamp` when `lines` are read with `acc`
/// collected so far: a boundary that is not later than `timestamp` empties
/// the collection, the first later one ends the reading, and a later entry
/// for a category replaces an earlier one.
pub open spec fn stream(lines: Seq<IdealsLine>, timestamp: u64, acc: Map<Seq<u8>, u64>) -> Result<
    Map<Seq<u8>, u64>,
    IdealsError,
>
    decreases lines.len(),
{
    if lines.len() == 0 {
        Ok(acc)
    } else {
        match lines[0] {
            IdealsLine::Skip => stream(lines.drop_first(), timestamp, acc),
            IdealsLine::Boundary(at) => if at <= timestamp {
                stream(lines.drop_first(), timestamp, Map::empty())
            } else {
                Ok(acc)
            },
            IdealsLine::Entry(name, weight) => stream(
                lines.drop_first(),
                timestamp,
                acc.insert(name, weight),
            ),
            IdealsLine::Bad(e) => Err(e),
        }
    }
}

/// The snapshot of a budget that is in effect at `timestamp`.
pub open spec fn ideals_at(contents: Seq<u8>, timestamp: u64) -> Result<
    Map<Seq<u8>, u64>,
    IdealsError,
> {
    stream(ideals_lines(contents), timestamp, Map::empty())
}

/// Reads the budget and returns the snapshot in effect at `timestamp`.
pub fn get_ideal_proportions(contents: &[u8], timestamp: u64) -> (r: Result<Ideals, IdealsError>)
    ensures
        match ideals_at(contents@, timestamp) {
            Ok(snapshot) => r.is_ok() && r.unwrap().wf() && r.unwrap()@ == snapshot,
            Err(e) => r.is_err() && r.unwrap_err() == e,
        },
{
    let lines = split_bytes(contents, 10u8);
    let ghost all = ideals_lines(contents@);
    let mut ideals = Ideals::new();
    let mut i: usize = 0;
    assert(all.subrange(0, all.len() as int) =~= all);
    while i < lines.len()
        invariant
            0 <= i <= lines@.len(),
            views(lines@) == split(contents@, 10u8),
            all == ideals_lines(contents@),
            ideals.wf(),
            stream(all.subrange(i as int, all.len() as int), timestamp, ideals@) == ideals_at(
                contents@,
                timestamp,
            ),
        decreases lines@.len() - i,
    {
        let line = lines[i].as_slice();
        let ghost rest = all.subrange(i as int, all.len() as int);
        proof {
            assert(views(lines@)[i as int] == line@);
            assert(rest[0] == classify(line@));
            assert(rest.drop_first() =~= all.subrange(i + 1, all.len() as int));
        }
        if line.len() > 0 && line[0] != 35u8 {
            let mut tokens = split_bytes(line, 32u8);
            assert(views(tokens@).len() == tokens@.len());
            if tokens.len() == 1 {
                assert(views(tokens@)[0] == tokens@[0]@);
                match parse_u64(tokens[0].as_slice()) {
                    Some(at) => {
                        if at <= timestamp {
                            ideals = Ideals::new();
                        } else {
                            return Ok(ideals);
                        }
                    },
                    None => {
                        return Err(IdealsError::MalformedTimestamp);
                    },
                }
            } else if tokens.len() == 2 {
                assert(views(tokens@)[0] == tokens@[0]@);
                assert(views(tokens@)[1] == tokens@[1]@);
                match parse_weight(tokens[1].as_slice()) {
                    Some(weight) => {
                        ideals.set(tokens[0].as_slice(), weight);
                    },
                    None => {
                        return Err(IdealsError::MalformedWeight);
                    },
                }
            } else {
                return Err(IdealsError::MalformedLine);
            }
        }
        i = i + 1;
    }
    assert(all.subrange(all.len() as int, all.len() as int) =~= Seq::<IdealsLine>::empty());
    Ok(ideals)
}

/// The entries of `lines` collected on top of `acc`, a later entry for a
/// category replacing an earlier one; other lines are passed over.
pub open spec fn collect(lines: Seq<IdealsLine>, acc: Map<Seq<u8>, u64>) -> Map<Seq<u8>, u64>
    decreases lines.len(),
{
    if lines.len() == 0 {
        acc
    } else {
        match lines[0] {
            IdealsLine::Entry(name, weight) => collect(
                lines.drop_first(),
                acc.insert(name, weight),
            ),
            _ => collect(lines.drop_first(), acc),
        }
    }
}

/// Whether the boundaries of a budget never go back in time.
pub open spec fn boundaries_ascending(lines: Seq<IdealsLine>) -> bool {
    forall|i: int, j: int|
        0 <= i < j < lines.len() && lines[i] is Boundary && lines[j] is Boundary ==> lines[i]
            ->Boundary_0 <= lines[j]->Boundary_0
}

/// Whether `lines[start..end]` is the segment in effect at `timestamp`: it
/// begins at the start of the budget or behind a boundary that is not later
/// than `timestamp`, no boundary from there on is in effect, and it runs up
/// to the next boundary or the end of the budget.
pub open spec fn segment_in_effect(
    lines: Seq<IdealsLine>,
    timestamp: u64,
    start: int,
    end: int,
) -> bool {
    &&& 0 <= start <= end <= lines.len()
    &&& start == 0 || (lines[start - 1] is Boundary && lines[start - 1]->Boundary_0 <= timestamp)
    &&& forall|j: int|
        start <= j < lines.len() && (#[trigger] lines[j]) is Boundary ==> lines[j]->Boundary_0
            > timestamp
    &&& forall|j: int| start <= j < end ==> !((#[trigger] lines[j]) is Boundary)
    &&& end == lines.len() || lines[end] is Boundary
}

/// From inside the segment in effect, reading collects the rest of the
/// segment.
proof fn lemma_stream_segment(
    lines: Seq<IdealsLine>,
    timestamp: u64,
    k: int,
    end: int,
    acc: Map<Seq<u8>, u64>,
)
    requires
        0 <= k <= end <= lines.len(),
        forall|j: int| k <= j < end ==> !((#[trigger] lines[j]) is Boundary),
        forall|j: int| k <= j < end ==> !((#[trigger] lines[j]) is Bad),
        end == lines.len() || (lines[end] is Boundary && lines[end]->Boundary_0 > timestamp),
    ensures
        stream(lines.subrange(k, lines.len() as int), timestamp, acc) == Ok::<
            Map<Seq<u8>, u64>,
            IdealsError,
        >(collect(lines.subrange(k, end), acc)),
    decreases end - k,
{
    let rest = lines.subrange(k, lines.len() as int);
    let segment = lines.subrange(k, end);
    if k == end {
        assert(segment =~= Seq::<IdealsLine>::empty());
        if end < lines.len() {
            assert(rest[0] == lines[end]);
        }
    } else {
        assert(rest[0] == lines[k]);
        assert(segment[0] == lines[k]);
        assert(rest.drop_first() =~= lines.subrange(k + 1, lines.len() as int));
        assert(segment.drop_first() =~= lines.subrange(k + 1, end));
        match lines[k] {
            IdealsLine::Entry(name, weight) => {
                lemma_stream_segment(lines, timestamp, k + 1, end, acc.insert(name, weight));
            },
            _ => {
                lemma_stream_segment(lines, timestamp, k + 1, end, acc);
            },
        }
    }
}

/// From before the segment in effect, reading arrives at its start with
/// nothing collected.
proof fn lemma_stream_prefix(
    lines: Seq<IdealsLine>,
    timestamp: u64,
    k: int,
    start: int,
    acc: Map<Seq<u8>, u64>,
)
    requires
        boundaries_ascending(lines),
        0 <= k < start <= lines.len(),
        lines[start - 1] is Boundary,
        lines[start - 1]->Boundary_0 <= timestamp,
        forall|j: int| k <= j < start ==> !((#[trigger] lines[j]) is Bad),
    ensures
        stream(lines.subrange(k, lines.len() as int), timestamp, acc) == stream(
            lines.subrange(start, lines.len() as int),
            timestamp,
            Map::empty(),
        ),
    decreases start - k,
{
    let rest = lines.subrange(k, lines.len() as int);
    assert(rest[0] == lines[k]);
    assert(rest.drop_first() =~= lines.subrange(k + 1, lines.len() as int));
    if k < start - 1 {
        match lines[k] {
            IdealsLine::Entry(name, weight) => {
                lemma_stream_prefix(lines, timestamp, k + 1, start, acc.insert(name, weight));
            },
            IdealsLine::Boundary(at) => {
                lemma_stream_prefix(lines, timestamp, k + 1, start, Map::empty());
            },
            _ => {
                lemma_stream_prefix(lines, timestamp, k + 1, start, acc);
            },
        }
    }
}

/// Snapshot precedence: in a budget whose boundaries never go back in time,
/// the snapshot in effect at `timestamp` is what the lines collect that
/// stand between the greatest boundary not later than `timestamp` (or the
/// start of the budget) and the next boundary (or the end of the budget).
pub proof fn law_snapshot_precedence(
    lines: Seq<IdealsLine>,
    timestamp: u64,
    start: int,
    end: int,
)
    requires
        boundaries_ascending(lines),
        segment_in_effect(lines, timestamp, start, end),
        forall|j: int| 0 <= j < end ==> !((#[trigger] lines[j]) is Bad),
    ensures
        stream(lines, timestamp, Map::empty()) == Ok::<Map<Seq<u8>, u64>, IdealsError>(
            collect(lines.subrange(start, end), Map::empty()),
        ),
{
    assert(lines.subrange(0, lines.len() as int) =~= lines);
    if start > 0 {
        lemma_stream_prefix(lines, timestamp, 0, start, Map::empty());
    }
    lemma_stream_segment(lines, timestamp, start, end, Map::empty());
}

} // verus!