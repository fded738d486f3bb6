//! Line-oriented edits of a stored record, and the slug of a title.
//!
//! A header field is changed by rewriting its one line; every other line is kept
//! as it is, so what a user wrote by hand stays.

use crate::entry::{find_keyed, keyed_line};
use crate::text::{
    chars_of, drop_empty, find, find_from, has_prefix, join, join_chars, leading_run, lines,
    lines_of, nonempty, push_all, slice_of, split_at_marks, split_mask, starts_with, string_of,
    strip_leading, views, CharClass,
};
use crate::unicode::{alphanumeric, lowercase};
use vstd::prelude::*;

verus! {

/// The line that sets `key` to `value`.
pub open spec fn field_line(key: Seq<char>, value: Seq<char>) -> Seq<char> {
    key + ": "@ + value
}

/// `content` with its first line that reads `key: ...` replaced by one that sets
/// `key` to `value`, the lines joined by line feeds and ended by one; `content`
/// itself where no line reads so.
pub open spec fn replace_field(content: Seq<char>, key: Seq<char>, value: Seq<char>) -> Seq<
    char,
> {
    let ls = lines(content);
    match keyed_line(ls, key) {
        Some(i) => join(ls.update(i, field_line(key, value)), "\n"@) + "\n"@,
        None => content,
    }
}

/// `content` with a line that sets `key` to `value` put in before the first
/// delimiter found after the third character; `content` itself where none is.
pub open spec fn add_field(content: Seq<char>, key: Seq<char>, value: Seq<char>) -> Seq<char> {
    if content.len() < 3 {
        content
    } else {
        match find(content.skip(3), "---"@) {
            Some(pos) => content.take(pos + 3) + field_line(key, value) + "\n"@ + content.skip(
                pos + 3,
            ),
            None => content,
        }
    }
}

/// The body of `content`: what follows the closing delimiter of its header, less
/// the white space before it; `content` itself where it has no closed header.
pub open spec fn body_of(content: Seq<char>) -> Seq<char> {
    if !starts_with(content, "---"@) {
        content
    } else {
        match find(content.skip(3), "---"@) {
            Some(end) => strip_leading(content.skip(end + 6), CharClass::Space),
            None => content,
        }
    }
}

/// Replaces the value of a header field, in the line that holds it.
pub fn replace_frontmatter_field(content: &str, key: &str, value: &str) -> (out: String)
    ensures
        out@ == replace_field(content@, key@, value@),
{
    let text = chars_of(content);
    let mut ls = lines_of(&text);
    let key_chars = chars_of(key);
    match find_keyed(&ls, &key_chars) {
        Some(i) => {
            let ghost before = views(ls@);
            let mut line: Vec<char> = Vec::new();
            push_all(&mut line, &key_chars);
            push_all(&mut line, &chars_of(": "));
            push_all(&mut line, &chars_of(value));
            assert(line@ =~= field_line(key@, value@));
            ls.set(i, line);
            assert(views(ls@) =~= before.update(i as int, field_line(key@, value@)));
            let mut out = join_chars(&ls, &chars_of("\n"));
            push_all(&mut out, &chars_of("\n"));
            string_of(&out)
        },
        None => content.to_owned(),
    }
}

/// Adds a field to a header, as a new line before the closing delimiter.
pub fn add_frontmatter_field(content: &str, key: &str, value: &str) -> (out: String)
    ensures
        out@ == add_field(content@, key@, value@),
{
    let text = chars_of(content);
    if text.len() < 3 {
        return content.to_owned();
    }
    match find_from(&text, &chars_of("---"), 3) {
        Some(pos) => {
            proof {
                reveal_strlit("---");
            }
            let mut out = slice_of(&text, 0, pos + 3);
            push_all(&mut out, &chars_of(key));
            push_all(&mut out, &chars_of(": "));
            push_all(&mut out, &chars_of(value));
            push_all(&mut out, &chars_of("\n"));
            push_all(&mut out, &slice_of(&text, pos + 3, text.len()));
            assert(out@ =~= add_field(content@, key@, value@));
            string_of(&out)
        },
        None => content.to_owned(),
    }
}

/// Strips the header from a record.
pub fn strip_frontmatter(content: &str) -> (out: String)
    ensures
        out@ == body_of(content@),
{
    let text = chars_of(content);
    let delimiter = chars_of("---");
    proof {
        reveal_strlit("---");
    }
    if !has_prefix(&text, &delimiter) {
        return content.to_owned();
    }
    match find_from(&text, &delimiter, 3) {
        Some(end) => {
            let from = leading_run(&text, end + 6, text.len(), CharClass::Space);
            assert(text@.subrange(end + 6, text@.len() as int) =~= text@.skip(end + 6));
            string_of(&slice_of(&text, from, text.len()))
        },
        None => content.to_owned(),
    }
}

// ---------------------------------------------------------------------------
// Slugs
// ---------------------------------------------------------------------------

/// Where a slug breaks: at a hyphen and at whatever is neither letter nor number.
pub open spec fn slug_breaks(s: Seq<char>) -> Seq<bool> {
    Seq::new(s.len(), |i: int| s[i] == '-' || !alphanumeric(s[i]))
}

/// The runs of `s` between the positions that `breaks` marks, joined by hyphens.
pub open spec fn hyphenated(s: Seq<char>, breaks: Seq<bool>) -> Seq<char> {
    join(nonempty(split_mask(s, breaks)), "-"@)
}

/// The slug of a title: its lowercase letters and numbers, each run of other
/// characters turned into one hyphen, and no hyphen at either end.
pub open spec fn slug_of(title: Seq<char>) -> Seq<char> {
    hyphenated(lowercase(title), slug_breaks(lowercase(title)))
}

/// Joins by hyphens the runs of `chars` between the positions that `breaks` marks.
pub fn slug_from_marks(chars: &Vec<char>, breaks: &Vec<bool>) -> (out: Vec<char>)
    requires
        chars.len() == breaks.len(),
    ensures
        out@ == hyphenated(chars@, breaks@),
{
    let runs = drop_empty(split_at_marks(chars, breaks));
    join_chars(&runs, &chars_of("-"))
}

/// Turns a title into a slug that can stand in a file name.
pub fn slugify(title: &str) -> (slug: String)
    ensures
        slug@ == slug_of(title@),
{
    let lower = title.to_lowercase();
    let chars = chars_of(lower.as_str());
    let mut breaks: Vec<bool> = Vec::new();
    let mut i: usize = 0;
    while i < chars.len()
        invariant
            i <= chars.len(),
            breaks.len() == i,
            forall|k: int| 0 <= k < i ==> breaks@[k] == (chars@[k] == '-' || !alphanumeric(chars@[k])),
        decreases chars.len() - i,
    {
        let c = chars[i];
        breaks.push(c == '-' || !c.is_alphanumeric());
        i += 1;
    }
    assert(breaks@ =~= slug_breaks(chars@));
    string_of(&slug_from_marks(&chars, &breaks))
}

} // verus!
