//! The time of day, as text.

use vstd::prelude::*;

verus! {

/// The formats that stamps are written in: a compact one for file names, one of
/// a day and a minute, and one of a day and a second.
pub open spec fn is_stamp_format(format: Seq<char>) -> bool {
    format == "%Y%m%d-%H%M%S"@ || format == "%Y-%m-%d %H:%M"@ || format
        == "%Y-%m-%d %H:%M:%S UTC"@
}

/// The current time in UTC, written in `format`: `chrono::Utc::now`, then
/// `DateTime::format` and `to_string`.
///
/// Nothing is claimed of the text: it changes from one call to the next. The
/// formats admitted are ones that `format` accepts; with another, writing the
/// text could fail. The clock must not stand before the year 1970.
#[verifier::external_body]
pub(crate) fn utc_now(format: &str) -> (text: String)
    requires
        is_stamp_format(format@),
{
    chrono::Utc::now().format(format).to_string()
}

} // verus!
