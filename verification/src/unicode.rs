//! What the standard library knows of Unicode and this crate takes on trust.

use vstd::prelude::*;

verus! {

/// The lowercase equivalent of `s` that `str::to_lowercase` returns.
pub uninterp spec fn lowercase(s: Seq<char>) -> Seq<char>;

/// `str::to_lowercase` maps a string to its lowercase equivalent under the
/// Unicode case mappings; the result is a function of the characters alone, and
/// is known here only by the name `lowercase`.
pub assume_specification[ str::to_lowercase ](s: &str) -> (lower: String)
    ensures
        lower@ == lowercase(s@),
;

/// Whether `char::is_alphanumeric` holds of `c`.
pub uninterp spec fn alphanumeric(c: char) -> bool;

/// `char::is_alphanumeric` tells whether a character is a letter or a number
/// under the Unicode character properties; the answer is a function of the
/// character alone, and is known here only by the name `alphanumeric`.
pub assume_specification[ char::is_alphanumeric ](c: char) -> (r: bool)
    ensures
        r == alphanumeric(c),
;

} // verus!
