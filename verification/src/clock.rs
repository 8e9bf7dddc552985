//! The wall clock and the calendar.

use crate::state::Timestamp;
use vstd::prelude::*;

verus! {

/// The shape of the stamp in the name of a superseded file.
pub open spec fn stamp_format() -> Seq<char> {
    "%Y-%m-%dT%H-%M-%S"@
}

/// Whether `chrono::NaiveDateTime::parse_from_str` reads `text` as a date
/// and time of day written in `format`.
pub uninterp spec fn datetime_parses(text: Seq<char>, format: Seq<char>) -> bool;

/// `chrono::Local::now`, read once and given twice: as seconds and
/// nanoseconds since the Unix epoch (`timestamp`, `timestamp_subsec_nanos`),
/// and as local time written in `format` (`format`). Nothing is claimed of
/// what the clock shows. The format is held to the stamp format, which
/// chrono can always write. chrono gives up on a system clock that stands
/// before 1970, and on a machine whose local time zone it cannot read.
#[verifier::external_body]
pub(crate) fn local_now(format: &str) -> (out: (Timestamp, String))
    requires
        format@ == stamp_format(),
{
    let now = chrono::Local::now();
    let at = Timestamp { secs: now.timestamp(), nanos: now.timestamp_subsec_nanos() };
    (at, now.format(format).to_string())
}

/// `chrono::NaiveDateTime::parse_from_str`: whether `text` is a date and
/// time of day in `format`. The answer depends on the two texts alone. The
/// format is held to the stamp format, the only one this crate reads.
#[verifier::external_body]
pub(crate) fn parses_as_datetime(text: &str, format: &str) -> (ok: bool)
    requires
        format@ == stamp_format(),
    ensures
        ok == datetime_parses(text@, format@),
{
    chrono::NaiveDateTime::parse_from_str(text, format).is_ok()
}

} // verus!
