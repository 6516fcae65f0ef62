//! Wall-clock text for the tooltips: an instant written as local time in
//! the one zone that the views use, America/Chicago.

use chrono::offset::LocalResult;
use chrono::TimeZone;
use chrono_tz::America::Chicago;
use vstd::prelude::*;

verus! {

/// The text that `chrono` writes for the instant `timestamp` seconds after
/// the Unix epoch, taken as local time in America/Chicago: date, time of
/// day and the abbreviation of the zone. `None` where the instant lies
/// outside the years that `chrono` can represent.
pub uninterp spec fn chicago_text(timestamp: i64) -> Option<Seq<char>>;

/// The local time of an instant that is given in unsigned seconds.
pub open spec fn local_time_text(timestamp: u64) -> Option<Seq<char>> {
    if timestamp <= i64::MAX {
        chicago_text(timestamp as i64)
    } else {
        None
    }
}

/// The characters of a text that may be absent.
pub open spec fn text_of(text: Option<String>) -> Option<Seq<char>> {
    match text {
        Some(t) => Some(t@),
        None => None,
    }
}

/// Calls `chrono::TimeZone::timestamp_opt` on `chrono_tz::America::Chicago`
/// with no nanoseconds, and writes the time it gives with its `Display`.
///
/// Not proved: that the result is `chicago_text(timestamp)`, which names
/// what this call returns. The call depends on its argument and on the zone
/// rules compiled into `chrono_tz` alone; it returns no time for an instant
/// out of range and exactly one for any other.
#[verifier::external_body]
fn chicago_time(timestamp: i64) -> (text: Option<String>)
    ensures
        text_of(text) == chicago_text(timestamp),
{
    match Chicago.timestamp_opt(timestamp, 0) {
        LocalResult::Single(time) => Some(time.to_string()),
        LocalResult::Ambiguous(_, _) => None,
        LocalResult::None => None,
    }
}

/// The local time of the instant `timestamp`, as text.
pub fn local_time(timestamp: u64) -> (text: Option<String>)
    ensures
        text_of(text) == local_time_text(timestamp),
{
    if timestamp <= 0x7fff_ffff_ffff_ffff {
        chicago_time(timestamp as i64)
    } else {
        None
    }
}

} // verus!
