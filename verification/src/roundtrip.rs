//! Reading back what was written: decoding an encoded record gives the fields
//! it was encoded from.

use crate::confidence::{
    fraction_digits, fraction_millis, fraction_part, magnitude, parse_magnitude, parse_millis,
    shortest, whole_part, Confidence,
};
use crate::entry::{bracketed, clean_tag, kind_name, kind_of, tags_in, EntryType};
use crate::entry::{
    decode, encode_record, field, header_lines, is_keyed, keyed_line, lemma_keyed_line, tags_of,
    unlines, value_of,
};
use crate::entry::confidence_in;
use crate::number::{all_digits, decimal, digit_char, digit_value, is_digit, lemma_decimal};
use crate::text::{
    contains, find, folded, is_space, join, lemma_find, lines, occurs_at, split, strip, strip_cr,
    strip_leading, strip_trailing, trim, CharClass,
};
use crate::text::starts_with;
use crate::text_lemmas::{
    free_of, lemma_find_char, lemma_find_char_none, lemma_nonempty_all, lemma_split_concat,
    lemma_split_free, lemma_strip_leading_run, lemma_strip_tight, lemma_strip_trailing_run,
    lemma_trim_padded, made_of, tight,
};
use crate::text_lemmas::lemma_find_first;
use crate::text_lemmas::lemma_strip_trailing_prefix;
use crate::text_lemmas::{
    lemma_strip_trailing_behind, lemma_strip_trailing_parts, lemma_trim_around,
    lemma_trim_without_return,
};
use vstd::prelude::*;

verus! {

// ---------------------------------------------------------------------------
// Kinds
// ---------------------------------------------------------------------------

/// The name of a kind names that kind.
pub proof fn lemma_kind_read_back(kind: EntryType)
    ensures
        kind_of(kind_name(kind)) == Some(kind),
{
    reveal_strlit("fact");
    reveal_strlit("decision");
    reveal_strlit("observation");
    reveal_strlit("error");
    reveal_strlit("procedure");
    let name = kind_name(kind);
    assert(folded(name).len() == name.len());
    assert(folded("fact"@).len() == 4);
    assert(folded("decision"@).len() == 8);
    assert(folded("observation"@).len() == 11);
    assert(folded("error"@).len() == 5);
    assert(folded("procedure"@).len() == 9);
}

// ---------------------------------------------------------------------------
// Confidence
// ---------------------------------------------------------------------------

proof fn lemma_digit_read_back(d: nat)
    requires
        d < 10,
    ensures
        is_digit(digit_char(d)),
        digit_value(digit_char(d)) == d,
        digit_char(d) != '.',
        digit_char(d) != '-',
        digit_char(d) != '+',
{
}

proof fn lemma_fraction_read_back(f: nat)
    requires
        f < 1000,
    ensures
        all_digits(fraction_digits(f)),
        fraction_millis(fraction_digits(f)) == f,
        f != 0 ==> fraction_digits(f).len() > 0,
        f == 0 ==> fraction_digits(f).len() == 0,
{
    lemma_digit_read_back(f / 100 % 10);
    lemma_digit_read_back(f / 10 % 10);
    lemma_digit_read_back(f % 10);
}

proof fn lemma_digits_hold_no(s: Seq<char>, c: char)
    requires
        all_digits(s),
        !is_digit(c),
    ensures
        !s.contains(c),
{
    if s.contains(c) {
        let i = choose|i: int| 0 <= i < s.len() && s[i] == c;
        assert(is_digit(s[i]));
    }
}

/// The shortest notation of an unsigned fraction is read back as its value.
proof fn lemma_magnitude_read_back(m: nat)
    ensures
        parse_magnitude(
            if fraction_digits(m % 1000).len() == 0 {
                decimal(m / 1000)
            } else {
                decimal(m / 1000) + seq!['.'] + fraction_digits(m % 1000)
            },
        ) == Some(m),
{
    let whole = decimal(m / 1000);
    let frac = fraction_digits(m % 1000);
    lemma_decimal(m / 1000);
    lemma_fraction_read_back(m % 1000);
    lemma_digits_hold_no(whole, '.');
    if frac.len() == 0 {
        lemma_find_char_none(whole, '.');
        assert(whole_part(whole) == whole);
        assert(fraction_part(whole) == Seq::<char>::empty());
        assert(fraction_millis(Seq::<char>::empty()) == 0);
    } else {
        let body = whole + seq!['.'] + frac;
        lemma_find_char(whole, '.', frac);
        assert(body.take(whole.len() as int) =~= whole);
        assert(body.skip(whole.len() as int + 1) =~= frac);
        assert(whole_part(body) == whole);
        assert(fraction_part(body) == frac);
    }
}

/// The shortest notation of a confidence is read back as that confidence.
pub proof fn lemma_confidence_read_back(millis: i64)
    ensures
        parse_millis(shortest(millis as int)) == Some(millis as int),
{
    let m = magnitude(millis as int);
    let whole = decimal(m / 1000);
    let frac = fraction_digits(m % 1000);
    let body = if frac.len() == 0 {
        whole
    } else {
        whole + seq!['.'] + frac
    };
    lemma_magnitude_read_back(m);
    lemma_decimal(m / 1000);
    assert(is_digit(whole[0]));
    let text = shortest(millis as int);
    if millis < 0 {
        assert(text =~= seq!['-'] + body);
        assert(text[0] == '-');
        assert(text.skip(1) =~= body);
    } else {
        assert(text =~= body);
        assert(text[0] == whole[0]);
    }
}

// ---------------------------------------------------------------------------
// Tags
// ---------------------------------------------------------------------------

/// A tag that is written and read back as it is: not empty, without a comma or
/// a line feed, and with neither white space nor a quote at either end.
pub open spec fn is_plain_tag(t: Seq<char>) -> bool {
    &&& t.len() > 0
    &&& !is_space(t[0]) && !is_space(t.last())
    &&& t[0] != '"' && t[0] != '\'' && t.last() != '"' && t.last() != '\''
    &&& !t.contains(',')
    &&& !t.contains('\n')
    &&& !contains(t, "---"@)
}

/// Tags that are written and read back as they are: plain ones, of which the
/// first starts with no opening bracket and the last ends with no closing one.
pub open spec fn are_plain_tags(tags: Seq<Seq<char>>) -> bool {
    &&& forall|i: int| 0 <= i < tags.len() ==> is_plain_tag(#[trigger] tags[i])
    &&& tags.len() > 0 ==> tags[0][0] != '[' && tags.last().last() != ']'
}

/// The pieces that a written tag list falls into at its commas: the first tag,
/// and each other tag after a space.
pub open spec fn spaced(tags: Seq<Seq<char>>) -> Seq<Seq<char>> {
    Seq::new(
        tags.len(),
        |i: int|
            if i == 0 {
                tags[0]
            } else {
                seq![' '] + tags[i]
            },
    )
}

proof fn lemma_comma_free(t: Seq<char>)
    requires
        !t.contains(','),
    ensures
        free_of(t, CharClass::Exactly(',')),
        free_of(seq![' '] + t, CharClass::Exactly(',')),
{
    assert forall|i: int| 0 <= i < t.len() implies !CharClass::Exactly(',').has(
        #[trigger] t[i],
    ) by {
        if t[i] == ',' {
            assert(t.contains(','));
        }
    }
    let u = seq![' '] + t;
    assert forall|i: int| 0 <= i < u.len() implies !CharClass::Exactly(',').has(
        #[trigger] u[i],
    ) by {
        if i > 0 {
            assert(u[i] == t[i - 1]);
        }
    }
}

/// Tags joined by a comma and a space fall apart at the commas.
proof fn lemma_split_joined(tags: Seq<Seq<char>>)
    requires
        tags.len() > 0,
        forall|i: int| 0 <= i < tags.len() ==> !(#[trigger] tags[i]).contains(','),
    ensures
        split(join(tags, ", "@), CharClass::Exactly(',')) == spaced(tags),
    decreases tags.len(),
{
    reveal_strlit(", ");
    let comma = CharClass::Exactly(',');
    if tags.len() == 1 {
        lemma_comma_free(tags[0]);
        lemma_split_free(tags[0], comma);
        assert(spaced(tags) =~= seq![tags[0]]);
    } else {
        let init = tags.drop_last();
        let last = tags.last();
        assert forall|i: int| 0 <= i < init.len() implies !(#[trigger] init[i]).contains(',') by {
            assert(init[i] == tags[i]);
        }
        lemma_split_joined(init);
        lemma_comma_free(last);
        lemma_split_free(seq![' '] + last, comma);
        assert(join(tags, ", "@) =~= join(init, ", "@) + seq![','] + (seq![' '] + last));
        lemma_split_concat(join(init, ", "@), ',', seq![' '] + last, comma);
        assert(spaced(init) + seq![seq![' '] + last] =~= spaced(tags));
    }
}

/// Joined texts start as the first starts and end as the last ends.
proof fn lemma_join_ends(parts: Seq<Seq<char>>, sep: Seq<char>)
    requires
        parts.len() > 0,
        forall|i: int| 0 <= i < parts.len() ==> (#[trigger] parts[i]).len() > 0,
    ensures
        join(parts, sep).len() > 0,
        join(parts, sep)[0] == parts[0][0],
        join(parts, sep).last() == parts.last().last(),
    decreases parts.len(),
{
    if parts.len() > 1 {
        let init = parts.drop_last();
        assert forall|i: int| 0 <= i < init.len() implies (#[trigger] init[i]).len() > 0 by {
            assert(init[i] == parts[i]);
        }
        lemma_join_ends(init, sep);
        assert(init[0] == parts[0]);
    }
}

proof fn lemma_clean_plain(t: Seq<char>)
    requires
        is_plain_tag(t),
    ensures
        clean_tag(t) == t,
        clean_tag(seq![' '] + t) == t,
{
    lemma_strip_tight(t, CharClass::Space);
    lemma_strip_tight(t, CharClass::Exactly('"'));
    lemma_strip_tight(t, CharClass::Exactly('\''));
    assert(seq![' '] + t + Seq::<char>::empty() =~= seq![' '] + t);
    assert(made_of(seq![' '], CharClass::Space));
    lemma_trim_padded(seq![' '], t, Seq::<char>::empty());
}

/// Plain tags written between brackets are read back as they are.
pub proof fn lemma_tags_read_back(tags: Seq<Seq<char>>)
    requires
        tags.len() > 0,
        are_plain_tags(tags),
    ensures
        tags_in(seq!['['] + join(tags, ", "@) + seq![']']) == tags,
{
    let joined = join(tags, ", "@);
    let v = seq!['['] + joined + seq![']'];
    lemma_join_ends(tags, ", "@);
    assert(v[0] == '[');
    assert(v.last() == ']');
    assert(bracketed(v));
    let open = CharClass::Exactly('[');
    let close = CharClass::Exactly(']');
    assert(v =~= seq!['['] + (joined + seq![']']));
    assert(made_of(seq!['['], open));
    lemma_strip_leading_run(seq!['['], joined + seq![']'], open);
    assert((joined + seq![']'])[0] == joined[0]);
    assert(strip_leading(v, open) == joined + seq![']']);
    assert(made_of(seq![']'], close));
    lemma_strip_trailing_run(joined, seq![']'], close);
    assert(strip_trailing(joined + seq![']'], close) == joined);
    lemma_strip_tight(joined, CharClass::Space);
    assert(trim(joined) == joined);
    lemma_split_joined(tags);
    let parts = split(joined, CharClass::Exactly(','));
    let cleaned = Seq::new(parts.len(), |i: int| clean_tag(parts[i]));
    assert forall|i: int| 0 <= i < tags.len() implies cleaned[i] == tags[i] by {
        lemma_clean_plain(tags[i]);
    }
    assert(cleaned =~= tags);
    lemma_nonempty_all(tags);
}

// ---------------------------------------------------------------------------
// The header between its delimiters
// ---------------------------------------------------------------------------

/// `s` holds no three hyphens in a row.
pub open spec fn dashless(s: Seq<char>) -> bool {
    forall|i: int|
        0 <= i && i + 3 <= s.len() ==> !(#[trigger] s[i] == '-' && s[i + 1] == '-' && s[i + 2]
            == '-')
}

/// A text that does not hold the delimiter holds no three hyphens in a row.
pub proof fn lemma_no_delimiter_dashless(s: Seq<char>)
    requires
        !contains(s, "---"@),
    ensures
        dashless(s),
{
    reveal_strlit("---");
    lemma_find(s, "---"@);
    assert forall|i: int| 0 <= i && i + 3 <= s.len() implies !(#[trigger] s[i] == '-' && s[i + 1]
        == '-' && s[i + 2] == '-') by {
        if s[i] == '-' && s[i + 1] == '-' && s[i + 2] == '-' {
            assert(s.subrange(i, i + 3) =~= "---"@);
            assert(occurs_at(s, "---"@, i));
        }
    }
}

/// Two texts without three hyphens in a row make one, unless a hyphen ends the
/// first and another starts the second.
pub proof fn lemma_dashless_glue(a: Seq<char>, b: Seq<char>)
    requires
        dashless(a),
        dashless(b),
        a.len() == 0 || b.len() == 0 || a.last() != '-' || b[0] != '-',
    ensures
        dashless(a + b),
{
    let s = a + b;
    assert forall|i: int| 0 <= i && i + 3 <= s.len() implies !(#[trigger] s[i] == '-' && s[i + 1]
        == '-' && s[i + 2] == '-') by {
        if i + 3 <= a.len() {
            assert(s[i] == a[i] && s[i + 1] == a[i + 1] && s[i + 2] == a[i + 2]);
        } else if i >= a.len() {
            let j = i - a.len();
            assert(s[i] == b[j] && s[i + 1] == b[j + 1] && s[i + 2] == b[j + 2]);
        } else if i + 2 == a.len() {
            assert(s[i + 1] == a.last());
            assert(s[i + 2] == b[0]);
        } else {
            assert(s[i] == a.last());
            assert(s[i + 1] == b[0]);
        }
    }
}

/// A text without a hyphen holds no three in a row.
pub proof fn lemma_dashless_plain(s: Seq<char>)
    requires
        forall|i: int| 0 <= i < s.len() ==> #[trigger] s[i] != '-',
    ensures
        dashless(s),
{
}

/// The delimiter is first found after a text that holds no three hyphens in a
/// row and does not end with one.
pub proof fn lemma_delimiter_found(head: Seq<char>, rest: Seq<char>)
    requires
        dashless(head),
        head.len() > 0,
        head.last() != '-',
    ensures
        find(head + "---"@ + rest, "---"@) == Some(head.len() as int),
{
    reveal_strlit("---");
    let whole = head + "---"@ + rest;
    assert forall|j: int| 0 <= j < head.len() implies !occurs_at(whole, "---"@, j) by {
        if occurs_at(whole, "---"@, j) {
            let hit = whole.subrange(j, j + 3);
            assert(hit[0] == '-' && hit[1] == '-' && hit[2] == '-');
            assert(whole[j] == '-' && whole[j + 1] == '-' && whole[j + 2] == '-');
            if j + 3 <= head.len() {
                assert(head[j] == '-' && head[j + 1] == '-' && head[j + 2] == '-');
            } else if j + 2 == head.len() {
                assert(whole[j + 1] == head.last());
            } else {
                assert(whole[j] == head.last());
            }
        }
    }
    lemma_find_first(head, "---"@, rest);
}

/// The lines of `ls`, each ended by a line feed, and then `tail`, fall apart at
/// the line feeds into the lines and `tail`.
pub proof fn lemma_split_unlines(ls: Seq<Seq<char>>, tail: Seq<char>)
    requires
        forall|i: int| 0 <= i < ls.len() ==> !(#[trigger] ls[i]).contains('\n'),
        !tail.contains('\n'),
    ensures
        split(unlines(ls) + tail, CharClass::Exactly('\n')) == ls.push(tail),
    decreases ls.len(),
{
    let feed = CharClass::Exactly('\n');
    assert forall|i: int| 0 <= i < tail.len() implies !feed.has(#[trigger] tail[i]) by {
        if tail[i] == '\n' {
            assert(tail.contains('\n'));
        }
    }
    if ls.len() == 0 {
        assert(unlines(ls) + tail =~= tail);
        lemma_split_free(tail, feed);
        assert(ls.push(tail) =~= seq![tail]);
    } else {
        let init = ls.drop_last();
        let last = ls.last();
        assert forall|i: int| 0 <= i < init.len() implies !(#[trigger] init[i]).contains('\n') by {
            assert(init[i] == ls[i]);
        }
        lemma_split_unlines(init, last);
        lemma_split_free(tail, feed);
        assert(unlines(ls) + tail =~= (unlines(init) + last) + seq!['\n'] + tail);
        lemma_split_concat(unlines(init) + last, '\n', tail, feed);
        assert(init.push(last) + seq![tail] =~= ls.push(tail));
    }
}

/// A header made of a line feed and lines, each ended by a line feed, reads as
/// an empty line and those lines, each without a carriage return at its end.
pub proof fn lemma_header_read(ls: Seq<Seq<char>>)
    requires
        forall|i: int| 0 <= i < ls.len() ==> !(#[trigger] ls[i]).contains('\n'),
    ensures
        lines(seq!['\n'] + unlines(ls)).len() == ls.len() + 1,
        lines(seq!['\n'] + unlines(ls))[0] == Seq::<char>::empty(),
        forall|i: int|
            1 <= i <= ls.len() ==> #[trigger] lines(seq!['\n'] + unlines(ls))[i] == strip_cr(
                ls[i - 1],
            ),
{
    let feed = CharClass::Exactly('\n');
    let none = Seq::<char>::empty();
    let header = seq!['\n'] + unlines(ls);
    lemma_split_unlines(ls, none);
    assert(unlines(ls) + none =~= unlines(ls));
    assert(header =~= none + seq!['\n'] + unlines(ls));
    lemma_split_concat(none, '\n', unlines(ls), feed);
    assert(split(none, feed) =~= seq![none]);
    let pieces = split(header, feed);
    assert(pieces =~= seq![none] + ls.push(none));
    assert(pieces.len() == ls.len() + 2);
    assert(pieces.last() == none);
    assert(pieces[0] == none);
    assert forall|i: int| 1 <= i <= ls.len() implies #[trigger] lines(header)[i] == strip_cr(
        ls[i - 1],
    ) by {
        assert(pieces[i] == ls[i - 1]);
    }
}

/// Lines without three hyphens in a row, each ended by a line feed, hold none
/// together.
pub proof fn lemma_unlines_dashless(ls: Seq<Seq<char>>)
    requires
        forall|i: int| 0 <= i < ls.len() ==> dashless(#[trigger] ls[i]),
    ensures
        dashless(unlines(ls)),
        unlines(ls).len() > 0 ==> unlines(ls).last() == '\n',
    decreases ls.len(),
{
    if ls.len() > 0 {
        let init = ls.drop_last();
        assert forall|i: int| 0 <= i < init.len() implies dashless(#[trigger] init[i]) by {
            assert(init[i] == ls[i]);
        }
        lemma_unlines_dashless(init);
        let ended = ls.last().push('\n');
        assert(ended =~= ls.last() + seq!['\n']);
        lemma_dashless_plain(seq!['\n']);
        lemma_dashless_glue(ls.last(), seq!['\n']);
        lemma_dashless_glue(unlines(init), ended);
    }
}

// ---------------------------------------------------------------------------
// Lines and their keys
// ---------------------------------------------------------------------------

/// A line that starts otherwise than a key, within its first two characters, is
/// not keyed by it.
pub proof fn lemma_not_keyed_by_head(line: Seq<char>, key: Seq<char>)
    requires
        line.len() >= 2,
        !is_space(line[0]),
        key.len() >= 2,
        line[0] != key[0] || line[1] != key[1],
    ensures
        !is_keyed(line, key),
{
    let class = CharClass::Space;
    lemma_strip_trailing_prefix(line, class);
    let t = trim(line);
    assert(strip_leading(line, class) == line);
    if starts_with(t, key.push(':')) {
        let p = key.push(':');
        assert(t.subrange(0, p.len() as int)[0] == p[0]);
        assert(t.subrange(0, p.len() as int)[1] == p[1]);
        assert(t[0] == line[0]);
        assert(t[1] == line[1]);
    }
}

/// A line made of a key, a colon, a space and a value, with no white space at
/// either end, is keyed by the key and has the trimmed value as its value.
pub proof fn lemma_keyed_value(line: Seq<char>, key: Seq<char>, v: Seq<char>)
    requires
        line == key + seq![':', ' '] + v,
        key.len() > 0,
        !is_space(line[0]),
        !is_space(line.last()),
    ensures
        is_keyed(line, key),
        value_of(line, key) == trim(seq![' '] + v),
        strip_cr(line) == line,
{
    lemma_strip_tight(line, CharClass::Space);
    assert(line.subrange(0, key.len() as int + 1) =~= key.push(':'));
    assert(line.skip(key.len() as int + 1) =~= seq![' '] + v);
}

/// A line made of a key, a colon and more is keyed by the key, and its value
/// is what the rest is trimmed to.
pub proof fn lemma_keyed_rest(line: Seq<char>, key: Seq<char>, rest: Seq<char>)
    requires
        line == key.push(':') + rest,
        key.len() > 0,
        !is_space(key[0]),
    ensures
        is_keyed(line, key),
        value_of(line, key) == trim(rest),
{
    let class = CharClass::Space;
    let head = key.push(':');
    let none = Seq::<char>::empty();
    assert(line[0] == key[0]);
    assert(strip_leading(line, class) == line);
    assert(head.last() == ':');
    lemma_strip_trailing_behind(head, rest, class);
    let left = strip_trailing(rest, class);
    let t = trim(line);
    assert(t == head + left);
    assert(t.subrange(0, head.len() as int) =~= head);
    assert(t.skip(key.len() as int + 1) =~= left);
    let run = lemma_strip_trailing_parts(rest, class);
    assert(rest =~= none + left + run);
    lemma_trim_around(none, left, run);
}

/// A keyed line before which none is keyed is the first that is.
pub proof fn lemma_keyed_line_is(ls: Seq<Seq<char>>, key: Seq<char>, i: int)
    requires
        0 <= i < ls.len(),
        is_keyed(ls[i], key),
        forall|j: int| 0 <= j < i ==> !is_keyed(#[trigger] ls[j], key),
    ensures
        keyed_line(ls, key) == Some(i),
{
    lemma_keyed_line(ls, key);
}

/// Where no line is keyed, none is the first that is.
pub proof fn lemma_keyed_line_none(ls: Seq<Seq<char>>, key: Seq<char>)
    requires
        forall|j: int| 0 <= j < ls.len() ==> !is_keyed(#[trigger] ls[j], key),
    ensures
        keyed_line(ls, key) is None,
{
    lemma_keyed_line(ls, key);
}

/// A value without white space at either end is read back from behind a
/// space.
pub proof fn lemma_padded_value(v: Seq<char>)
    requires
        tight(v, CharClass::Space),
    ensures
        trim(seq![' '] + v) == v,
{
    assert(seq![' '] + v + Seq::<char>::empty() =~= seq![' '] + v);
    assert(made_of(seq![' '], CharClass::Space));
    lemma_trim_padded(seq![' '], v, Seq::<char>::empty());
}

// ---------------------------------------------------------------------------
// The lines of a written header
// ---------------------------------------------------------------------------

/// A text of which no character is `c` does not hold `c`.
pub proof fn lemma_holds_no(s: Seq<char>, c: char)
    requires
        forall|i: int| 0 <= i < s.len() ==> #[trigger] s[i] != c,
    ensures
        !s.contains(c),
{
    if s.contains(c) {
        let i = choose|i: int| 0 <= i < s.len() && s[i] == c;
        assert(s[i] != c);
    }
}

/// Two texts that do not hold `c` do not hold it together.
pub proof fn lemma_glued_holds_no(a: Seq<char>, b: Seq<char>, c: char)
    requires
        !a.contains(c),
        !b.contains(c),
    ensures
        !(a + b).contains(c),
{
    let s = a + b;
    if s.contains(c) {
        let i = choose|i: int| 0 <= i < s.len() && s[i] == c;
        if i < a.len() {
            assert(a[i] == c);
            assert(a.contains(c));
        } else {
            assert(b[i - a.len()] == c);
            assert(b.contains(c));
        }
    }
}

/// What the name of a kind is made of.
proof fn lemma_kind_name_plain(kind: EntryType)
    ensures
        kind_name(kind).len() >= 4,
        forall|i: int|
            0 <= i < kind_name(kind).len() ==> {
                let c = #[trigger] kind_name(kind)[i];
                c != '-' && c != '\n' && !is_space(c)
            },
{
    reveal_strlit("fact");
    reveal_strlit("decision");
    reveal_strlit("observation");
    reveal_strlit("error");
    reveal_strlit("procedure");
}

/// The line that names the kind.
pub proof fn lemma_type_line(kind: EntryType)
    ensures
        ({
            let l = "type: "@ + kind_name(kind);
            &&& !l.contains('\n')
            &&& dashless(l)
            &&& l == "type"@ + seq![':', ' '] + kind_name(kind)
            &&& l.len() >= 2 && l[0] == 't' && l[1] == 'y'
            &&& !is_space(l[0]) && !is_space(l.last())
            &&& tight(kind_name(kind), CharClass::Space)
        }),
{
    reveal_strlit("type: ");
    reveal_strlit("type");
    lemma_kind_name_plain(kind);
    let name = kind_name(kind);
    let l = "type: "@ + name;
    assert(l =~= "type"@ + seq![':', ' '] + name);
    assert forall|i: int| 0 <= i < l.len() implies #[trigger] l[i] != '\n' && l[i] != '-' by {
        if i >= 6 {
            assert(l[i] == name[i - 6]);
        }
    }
    lemma_holds_no(l, '\n');
    lemma_dashless_plain(l);
    assert(l.last() == name.last());
    assert(name.last() == name[name.len() - 1]);
}

/// The line that gives the title.
pub proof fn lemma_title_line(title: Seq<char>)
    requires
        !title.contains('\n'),
        dashless(title),
    ensures
        ({
            let l = "title: \""@ + title + "\""@;
            &&& !l.contains('\n')
            &&& dashless(l)
            &&& l == "title"@ + seq![':', ' '] + (seq!['"'] + title + seq!['"'])
            &&& l.len() >= 2 && l[0] == 't' && l[1] == 'i'
            &&& !is_space(l[0]) && !is_space(l.last())
        }),
{
    reveal_strlit("title: \"");
    reveal_strlit("title");
    reveal_strlit("\"");
    let head = "title: \""@;
    let l = head + title + "\""@;
    assert(l =~= "title"@ + seq![':', ' '] + (seq!['"'] + title + seq!['"']));
    lemma_holds_no(head, '\n');
    lemma_holds_no("\""@, '\n');
    lemma_glued_holds_no(head, title, '\n');
    lemma_glued_holds_no(head + title, "\""@, '\n');
    lemma_dashless_plain(head);
    lemma_dashless_plain("\""@);
    lemma_dashless_glue(head, title);
    lemma_dashless_glue(head + title, "\""@);
    assert(l.last() == '"');
    assert(l[0] == head[0]);
    assert(l[1] == head[1]);
}

/// The line that gives the creation stamp.
pub proof fn lemma_created_line(created: Seq<char>)
    requires
        !created.contains('\n'),
        dashless(created),
    ensures
        ({
            let l = "created: "@ + created;
            &&& !l.contains('\n')
            &&& dashless(l)
            &&& strip_cr(l).len() >= 2 && strip_cr(l)[0] == 'c' && strip_cr(l)[1] == 'r'
        }),
{
    reveal_strlit("created: ");
    let head = "created: "@;
    let l = head + created;
    lemma_holds_no(head, '\n');
    lemma_glued_holds_no(head, created, '\n');
    lemma_dashless_plain(head);
    lemma_dashless_glue(head, created);
    assert(l[0] == head[0]);
    assert(l[1] == head[1]);
    assert(l.len() >= 9);
}

/// What the shortest notation of a confidence is made of.
proof fn lemma_shortest_plain(millis: i64)
    ensures
        ({
            let s = shortest(millis as int);
            &&& s.len() > 0
            &&& !s.contains('\n')
            &&& dashless(s)
            &&& !is_space(s[0])
            &&& !is_space(s.last())
        }),
{
    let m = magnitude(millis as int);
    let whole = decimal(m / 1000);
    let frac = fraction_digits(m % 1000);
    lemma_decimal(m / 1000);
    lemma_fraction_read_back(m % 1000);
    let s = shortest(millis as int);
    let sign: Seq<char> = if millis < 0 {
        seq!['-']
    } else {
        Seq::<char>::empty()
    };
    let tail: Seq<char> = if frac.len() == 0 {
        whole
    } else {
        whole + seq!['.'] + frac
    };
    assert(s =~= sign + tail);
    assert forall|i: int| 0 <= i < tail.len() implies (is_digit(#[trigger] tail[i]) || tail[i]
        == '.') by {
        if i < whole.len() {
            assert(tail[i] == whole[i]);
        } else if i > whole.len() {
            assert(tail[i] == frac[i - whole.len() - 1]);
        }
    }
    assert forall|i: int| 0 <= i < s.len() implies #[trigger] s[i] != '\n' && !is_space(s[i]) && (i
        > 0 ==> s[i] != '-') by {
        if i >= sign.len() {
            assert(s[i] == tail[i - sign.len()]);
        }
    }
    lemma_holds_no(s, '\n');
    assert(s.last() == s[s.len() - 1]);
}

/// What plain tags joined by a comma and a space are made of.
proof fn lemma_joined_plain(tags: Seq<Seq<char>>)
    requires
        tags.len() > 0,
        forall|i: int| 0 <= i < tags.len() ==> is_plain_tag(#[trigger] tags[i]),
    ensures
        !join(tags, ", "@).contains('\n'),
        dashless(join(tags, ", "@)),
    decreases tags.len(),
{
    reveal_strlit(", ");
    lemma_no_delimiter_dashless(tags.last());
    if tags.len() > 1 {
        let init = tags.drop_last();
        assert forall|i: int| 0 <= i < init.len() implies is_plain_tag(#[trigger] init[i]) by {
            assert(init[i] == tags[i]);
        }
        lemma_joined_plain(init);
        let glue = ", "@;
        lemma_holds_no(glue, '\n');
        lemma_dashless_plain(glue);
        lemma_glued_holds_no(join(init, glue), glue, '\n');
        lemma_glued_holds_no(join(init, glue) + glue, tags.last(), '\n');
        lemma_dashless_glue(join(init, glue), glue);
        assert((join(init, glue) + glue).last() == ' ');
        lemma_dashless_glue(join(init, glue) + glue, tags.last());
    }
}

/// The line that lists the tags.
pub proof fn lemma_tags_line(tags: Seq<Seq<char>>)
    requires
        tags.len() > 0,
        are_plain_tags(tags),
    ensures
        ({
            let l = "tags: ["@ + join(tags, ", "@) + "]"@;
            &&& !l.contains('\n')
            &&& dashless(l)
            &&& l == "tags"@ + seq![':', ' '] + (seq!['['] + join(tags, ", "@) + seq![']'])
            &&& l.len() >= 2 && l[0] == 't' && l[1] == 'a'
            &&& !is_space(l[0]) && !is_space(l.last())
        }),
{
    reveal_strlit("tags: [");
    reveal_strlit("tags");
    reveal_strlit("]");
    lemma_joined_plain(tags);
    let head = "tags: ["@;
    let joined = join(tags, ", "@);
    let l = head + joined + "]"@;
    assert(l =~= "tags"@ + seq![':', ' '] + (seq!['['] + joined + seq![']']));
    lemma_holds_no(head, '\n');
    lemma_holds_no("]"@, '\n');
    lemma_glued_holds_no(head, joined, '\n');
    lemma_glued_holds_no(head + joined, "]"@, '\n');
    lemma_dashless_plain(head);
    lemma_dashless_plain("]"@);
    lemma_dashless_glue(head, joined);
    lemma_dashless_glue(head + joined, "]"@);
    assert(l[0] == head[0]);
    assert(l[1] == head[1]);
    assert(l.last() == ']');
}

// ---------------------------------------------------------------------------
// Headers
// ---------------------------------------------------------------------------

/// What the lines of a header say.
pub ghost struct Header {
    pub kind: EntryType,
    pub title: Seq<char>,
    /// The line that gives the creation stamp.
    pub created_line: Seq<char>,
    /// The confidence, as written.
    pub confidence: Seq<char>,
    pub tags: Seq<Seq<char>>,
    /// The name of the entry that supersedes this one, where one does.
    pub successor: Option<Seq<char>>,
}

/// The lines of a header: kind, title, creation stamp, confidence, then the
/// tags where there are any, then the successor where there is one.
pub open spec fn lines_of_header(h: Header) -> Seq<Seq<char>> {
    let base = seq![
        "type: "@ + kind_name(h.kind),
        "title: \""@ + h.title + "\""@,
        h.created_line,
        "confidence: "@ + h.confidence,
    ];
    let tagged = if h.tags.len() == 0 {
        base
    } else {
        base.push("tags: ["@ + join(h.tags, ", "@) + "]"@)
    };
    match h.successor {
        Some(by) => tagged.push("superseded_by: "@ + by),
        None => tagged,
    }
}

/// The text of a header, between its delimiters.
pub open spec fn header_text(h: Header) -> Seq<char> {
    seq!['\n'] + unlines(lines_of_header(h))
}

/// A text that stands in a line of its own without harm: it holds neither a
/// line feed nor the delimiter.
pub open spec fn is_harmless(s: Seq<char>) -> bool {
    !s.contains('\n') && dashless(s)
}

/// A value that is read back as it was written: harmless, not empty, and
/// without white space at either end.
pub open spec fn is_plain_value(s: Seq<char>) -> bool {
    is_harmless(s) && s.len() > 0 && !is_space(s[0]) && !is_space(s.last())
}

/// A header whose lines are read back for what they say.
pub open spec fn is_sound(h: Header) -> bool {
    &&& is_harmless(h.title)
    &&& is_harmless(h.created_line)
    &&& h.created_line.len() >= 2 && h.created_line[0] == 'c' && h.created_line[1] == 'r'
    &&& is_plain_value(h.confidence)
    &&& are_plain_tags(h.tags)
    &&& h.successor is Some ==> is_plain_value(h.successor->0)
}

/// Where the line of the successor stands among the lines of a header.
pub open spec fn successor_at(h: Header) -> int {
    if h.tags.len() == 0 {
        5
    } else {
        6
    }
}

/// The line that names the successor.
pub proof fn lemma_successor_line(by: Seq<char>)
    requires
        is_plain_value(by),
    ensures
        ({
            let l = "superseded_by: "@ + by;
            &&& is_harmless(l)
            &&& l == "superseded_by"@ + seq![':', ' '] + by
            &&& l.len() >= 2 && l[0] == 's' && l[1] == 'u'
            &&& !is_space(l[0]) && !is_space(l.last())
        }),
{
    reveal_strlit("superseded_by: ");
    reveal_strlit("superseded_by");
    let head = "superseded_by: "@;
    let l = head + by;
    assert(l =~= "superseded_by"@ + seq![':', ' '] + by);
    lemma_holds_no(head, '\n');
    lemma_glued_holds_no(head, by, '\n');
    lemma_dashless_plain(head);
    lemma_dashless_glue(head, by);
    assert(l[0] == head[0]);
    assert(l[1] == head[1]);
    assert(l.last() == by.last());
}

/// The line that gives the confidence.
pub proof fn lemma_plain_confidence_line(text: Seq<char>)
    requires
        is_plain_value(text),
    ensures
        ({
            let l = "confidence: "@ + text;
            &&& is_harmless(l)
            &&& l == "confidence"@ + seq![':', ' '] + text
            &&& l.len() >= 2 && l[0] == 'c' && l[1] == 'o'
            &&& !is_space(l[0]) && !is_space(l.last())
        }),
{
    reveal_strlit("confidence: ");
    reveal_strlit("confidence");
    let head = "confidence: "@;
    let l = head + text;
    assert(l =~= "confidence"@ + seq![':', ' '] + text);
    lemma_holds_no(head, '\n');
    lemma_glued_holds_no(head, text, '\n');
    lemma_dashless_plain(head);
    lemma_dashless_glue(head, text);
    assert(l[0] == head[0]);
    assert(l[1] == head[1]);
    assert(l.last() == text.last());
}

/// What the lines of a sound header are.
pub proof fn lemma_header_lines(h: Header)
    requires
        is_sound(h),
    ensures
        ({
            let header = header_text(h);
            let ls = lines(header);
            &&& dashless(header)
            &&& header.last() == '\n'
            &&& ls.len() == successor_at(h) + if h.successor is Some {
                1int
            } else {
                0int
            }
            &&& ls[0] == Seq::<char>::empty()
            &&& ls[1] == "type"@ + seq![':', ' '] + kind_name(h.kind)
            &&& ls[2] == "title"@ + seq![':', ' '] + (seq!['"'] + h.title + seq!['"'])
            &&& ls[3] == strip_cr(h.created_line)
            &&& ls[4] == "confidence"@ + seq![':', ' '] + h.confidence
            &&& h.tags.len() > 0 ==> ls[5] == "tags"@ + seq![':', ' '] + (seq!['['] + join(
                h.tags,
                ", "@,
            ) + seq![']'])
            &&& h.successor is Some ==> ls[successor_at(h)] == "superseded_by"@ + seq![':', ' ']
                + h.successor->0
            &&& forall|i: int|
                1 <= i < ls.len() ==> (#[trigger] ls[i]).len() >= 2 && !is_space(ls[i][0])
            &&& ls[1][0] == 't' && ls[1][1] == 'y' && !is_space(ls[1].last())
            &&& ls[2][0] == 't' && ls[2][1] == 'i' && !is_space(ls[2].last())
            &&& ls[3][0] == 'c' && ls[3][1] == 'r'
            &&& ls[4][0] == 'c' && ls[4][1] == 'o' && !is_space(ls[4].last())
            &&& h.tags.len() > 0 ==> ls[5][0] == 't' && ls[5][1] == 'a' && !is_space(ls[5].last())
            &&& h.successor is Some ==> ls[successor_at(h)][0] == 's' && ls[successor_at(h)][1]
                == 'u' && !is_space(ls[successor_at(h)].last())
        }),
{
    let hl = lines_of_header(h);
    let header = header_text(h);
    lemma_type_line(h.kind);
    lemma_title_line(h.title);
    lemma_plain_confidence_line(h.confidence);
    if h.tags.len() > 0 {
        lemma_tags_line(h.tags);
    }
    if h.successor is Some {
        lemma_successor_line(h.successor->0);
    }
    assert forall|i: int| 0 <= i < hl.len() implies !(#[trigger] hl[i]).contains('\n')
        && dashless(hl[i]) by {}
    lemma_header_read(hl);
    lemma_unlines_dashless(hl);
    lemma_dashless_plain(seq!['\n']);
    lemma_dashless_glue(seq!['\n'], unlines(hl));
    let ls = lines(header);
    assert(ls[1] == strip_cr(hl[0]));
    assert(ls[2] == strip_cr(hl[1]));
    assert(ls[3] == strip_cr(hl[2]));
    assert(ls[4] == strip_cr(hl[3]));
    if h.tags.len() > 0 {
        assert(ls[5] == strip_cr(hl[4]));
    }
    if h.successor is Some {
        assert(ls[successor_at(h)] == strip_cr(hl[successor_at(h) - 1]));
    }
    assert(unlines(hl).len() > 0) by {
        assert(unlines(hl) == unlines(hl.drop_last()) + hl.last().push('\n'));
    }
    assert(header.last() == unlines(hl).last());
}

/// An empty line is keyed by nothing.
pub proof fn lemma_empty_not_keyed(key: Seq<char>)
    ensures
        !is_keyed(Seq::<char>::empty(), key),
{
    assert(key.push(':').len() > 0);
}

/// The kind of a sound header is read back.
proof fn lemma_field_type(h: Header)
    requires
        is_sound(h),
    ensures
        field(header_text(h), "type"@) == Some(kind_name(h.kind)),
{
    let key = "type"@;
    reveal_strlit("type");
    lemma_header_lines(h);
    lemma_type_line(h.kind);
    let ls = lines(header_text(h));
    lemma_empty_not_keyed(key);
    lemma_keyed_value(ls[1], key, kind_name(h.kind));
    lemma_padded_value(kind_name(h.kind));
    lemma_keyed_line_is(ls, key, 1);
}

/// The title of a sound header is read back, between its quotes.
proof fn lemma_field_title(h: Header)
    requires
        is_sound(h),
    ensures
        field(header_text(h), "title"@) == Some(seq!['"'] + h.title + seq!['"']),
{
    let key = "title"@;
    reveal_strlit("title");
    lemma_header_lines(h);
    let ls = lines(header_text(h));
    let quoted = seq!['"'] + h.title + seq!['"'];
    lemma_empty_not_keyed(key);
    lemma_not_keyed_by_head(ls[1], key);
    lemma_keyed_value(ls[2], key, quoted);
    assert(quoted[0] == '"' && quoted.last() == '"');
    lemma_padded_value(quoted);
    lemma_keyed_line_is(ls, key, 2);
}

/// The creation stamp of a sound header is read back, less the white space at
/// its ends.
proof fn lemma_field_created(h: Header, created: Seq<char>)
    requires
        is_sound(h),
        h.created_line == "created: "@ + created,
    ensures
        field(header_text(h), "created"@) == Some(trim(created)),
{
    let key = "created"@;
    reveal_strlit("created");
    reveal_strlit("created: ");
    lemma_header_lines(h);
    let ls = lines(header_text(h));
    let l = h.created_line;
    let rest = seq![' '] + created;
    assert(l =~= key.push(':') + rest);
    lemma_keyed_rest(l, key, rest);
    lemma_trim_without_return(l);
    assert(rest =~= seq![' '] + created + Seq::<char>::empty());
    lemma_trim_around(seq![' '], created, Seq::<char>::empty());
    lemma_empty_not_keyed(key);
    lemma_not_keyed_by_head(ls[1], key);
    lemma_not_keyed_by_head(ls[2], key);
    lemma_keyed_line_is(ls, key, 3);
}

/// The confidence of a sound header is read back, as written.
proof fn lemma_field_confidence(h: Header)
    requires
        is_sound(h),
    ensures
        field(header_text(h), "confidence"@) == Some(h.confidence),
{
    let key = "confidence"@;
    reveal_strlit("confidence");
    lemma_header_lines(h);
    let ls = lines(header_text(h));
    lemma_empty_not_keyed(key);
    lemma_not_keyed_by_head(ls[1], key);
    lemma_not_keyed_by_head(ls[2], key);
    lemma_not_keyed_by_head(ls[3], key);
    lemma_keyed_value(ls[4], key, h.confidence);
    lemma_padded_value(h.confidence);
    lemma_keyed_line_is(ls, key, 4);
}

/// The tags of a sound header are read back.
proof fn lemma_field_tags(h: Header)
    requires
        is_sound(h),
    ensures
        tags_of(header_text(h)) == h.tags,
{
    let key = "tags"@;
    reveal_strlit("tags");
    lemma_header_lines(h);
    let ls = lines(header_text(h));
    lemma_empty_not_keyed(key);
    lemma_not_keyed_by_head(ls[1], key);
    lemma_not_keyed_by_head(ls[2], key);
    lemma_not_keyed_by_head(ls[3], key);
    lemma_not_keyed_by_head(ls[4], key);
    if h.tags.len() == 0 {
        if h.successor is Some {
            lemma_not_keyed_by_head(ls[5], key);
        }
        lemma_keyed_line_none(ls, key);
        assert(h.tags =~= Seq::<Seq<char>>::empty());
    } else {
        let listed = seq!['['] + join(h.tags, ", "@) + seq![']'];
        lemma_keyed_value(ls[5], key, listed);
        assert(listed[0] == '[' && listed.last() == ']');
        lemma_padded_value(listed);
        lemma_keyed_line_is(ls, key, 5);
        lemma_tags_read_back(h.tags);
    }
}

/// The successor of a sound header is read back; a header without one names
/// none.
proof fn lemma_field_successor(h: Header)
    requires
        is_sound(h),
    ensures
        field(header_text(h), "superseded_by"@) == h.successor,
{
    let key = "superseded_by"@;
    reveal_strlit("superseded_by");
    lemma_header_lines(h);
    let ls = lines(header_text(h));
    let at = successor_at(h);
    lemma_empty_not_keyed(key);
    assert forall|j: int| 0 <= j < ls.len() && j != at implies !is_keyed(
        #[trigger] ls[j],
        key,
    ) by {
        if j >= 1 {
            lemma_not_keyed_by_head(ls[j], key);
        }
    }
    match h.successor {
        Some(by) => {
            lemma_keyed_value(ls[at], key, by);
            lemma_padded_value(by);
            lemma_keyed_line_is(ls, key, at);
        },
        None => {
            lemma_keyed_line_none(ls, key);
        },
    }
}

// ---------------------------------------------------------------------------
// Records
// ---------------------------------------------------------------------------

/// A record: a header between its delimiters, and what follows.
pub open spec fn record_text(h: Header, rest: Seq<char>) -> Seq<char> {
    "---"@ + header_text(h) + "---"@ + rest
}

proof fn lemma_unquoted(title: Seq<char>)
    requires
        title.len() > 0 ==> title[0] != '"' && title.last() != '"',
    ensures
        strip(seq!['"'] + title + seq!['"'], CharClass::Exactly('"')) == title,
{
    let quote = CharClass::Exactly('"');
    let quoted = seq!['"'] + title + seq!['"'];
    assert(quoted =~= seq!['"'] + (title + seq!['"']));
    assert(made_of(seq!['"'], quote));
    lemma_strip_leading_run(seq!['"'], title + seq!['"'], quote);
    if title.len() == 0 {
        assert(title + seq!['"'] =~= seq!['"'] + Seq::<char>::empty());
        lemma_strip_leading_run(seq!['"'], Seq::<char>::empty(), quote);
        assert(strip_leading(Seq::<char>::empty(), quote) =~= Seq::<char>::empty());
        assert(title =~= Seq::<char>::empty());
    } else {
        assert((title + seq!['"'])[0] == title[0]);
        lemma_strip_trailing_run(title, seq!['"'], quote);
    }
}

/// A record with a sound header is decoded for what its header says and what
/// follows it.
pub proof fn lemma_record_decoded(name: Seq<char>, h: Header, rest: Seq<char>)
    requires
        is_sound(h),
        h.title.len() > 0 ==> h.title[0] != '"' && h.title.last() != '"',
    ensures
        decode(name, record_text(h, rest)) is Ok,
        ({
            let e = decode(name, record_text(h, rest))->Ok_0;
            &&& e.filename == name
            &&& e.entry_type == h.kind
            &&& e.title == h.title
            &&& e.confidence == confidence_in(Some(h.confidence))
            &&& e.tags == h.tags
            &&& e.content == trim(rest)
            &&& e.created == match field(header_text(h), "created"@) {
                Some(c) => c,
                None => Seq::<char>::empty(),
            }
            &&& e.superseded_by == h.successor
        }),
{
    reveal_strlit("---");
    let raw = record_text(h, rest);
    let header = header_text(h);
    lemma_header_lines(h);
    assert(raw =~= "---"@ + (header + "---"@ + rest));
    assert(raw.subrange(0, 3) =~= "---"@);
    assert(raw.skip(3) =~= header + "---"@ + rest);
    lemma_delimiter_found(header, rest);
    let end = header.len() as int;
    assert(raw.subrange(3, 3 + end) =~= header);
    assert(raw.skip(end + 6) =~= rest);
    lemma_field_type(h);
    lemma_kind_read_back(h.kind);
    lemma_field_title(h);
    lemma_unquoted(h.title);
    lemma_field_confidence(h);
    lemma_field_tags(h);
    lemma_field_successor(h);
}

// ---------------------------------------------------------------------------
// What is written is read back
// ---------------------------------------------------------------------------

/// Fields that are written and read back as they are.
///
/// The title and the creation stamp hold neither a line feed nor the
/// delimiter, and the title has no quote at either end; the tags are plain;
/// the body has no white space at either end.
pub open spec fn can_be_read_back(
    title: Seq<char>,
    created: Seq<char>,
    tags: Seq<Seq<char>>,
    body: Seq<char>,
) -> bool {
    &&& !title.contains('\n') && !contains(title, "---"@)
    &&& title.len() > 0 ==> title[0] != '"' && title.last() != '"'
    &&& !created.contains('\n') && !contains(created, "---"@)
    &&& are_plain_tags(tags)
    &&& tight(body, CharClass::Space)
}

/// The header that a new record is written with.
pub open spec fn written_header(
    kind: EntryType,
    title: Seq<char>,
    created: Seq<char>,
    confidence: Confidence,
    tags: Seq<Seq<char>>,
) -> Header {
    Header {
        kind,
        title,
        created_line: "created: "@ + created,
        confidence: shortest(confidence.millis as int),
        tags,
        successor: None,
    }
}

/// A new record is a record with the header it is written with, then an empty
/// line and the body.
pub proof fn lemma_written_record(
    kind: EntryType,
    title: Seq<char>,
    created: Seq<char>,
    confidence: Confidence,
    tags: Seq<Seq<char>>,
    body: Seq<char>,
)
    requires
        !title.contains('\n') && !contains(title, "---"@),
        !created.contains('\n') && !contains(created, "---"@),
        are_plain_tags(tags),
    ensures
        is_sound(written_header(kind, title, created, confidence, tags)),
        lines_of_header(written_header(kind, title, created, confidence, tags)) == header_lines(
            kind,
            title,
            created,
            confidence,
            tags,
        ),
        encode_record(kind, title, created, confidence, tags, body) == record_text(
            written_header(kind, title, created, confidence, tags),
            seq!['\n', '\n'] + body + seq!['\n'],
        ),
{
    reveal_strlit("---");
    reveal_strlit("---\n");
    reveal_strlit("---\n\n");
    reveal_strlit("\n");
    let h = written_header(kind, title, created, confidence, tags);
    lemma_no_delimiter_dashless(title);
    lemma_no_delimiter_dashless(created);
    lemma_created_line(created);
    lemma_shortest_plain(confidence.millis);
    assert(h.created_line[0] == 'c' && h.created_line[1] == 'r') by {
        reveal_strlit("created: ");
    }
    assert(lines_of_header(h) =~= header_lines(kind, title, created, confidence, tags));
    assert("---\n"@ =~= "---"@ + seq!['\n']);
    assert("---\n\n"@ =~= "---"@ + seq!['\n', '\n']);
    assert("\n"@ =~= seq!['\n']);
    assert(encode_record(kind, title, created, confidence, tags, body) =~= record_text(
        h,
        seq!['\n', '\n'] + body + seq!['\n'],
    ));
}

/// Decoding inverts encoding: from the record that fields were encoded into, the
/// kind, the title, the confidence, the tags and the body are decoded as they
/// were given, and no successor, provided the fields can be read back. The
/// creation stamp is decoded as it was given, less the white space at its
/// ends: as it was given where it has none there.
pub proof fn law_decode_inverts_encode(
    name: Seq<char>,
    kind: EntryType,
    title: Seq<char>,
    created: Seq<char>,
    confidence: Confidence,
    tags: Seq<Seq<char>>,
    body: Seq<char>,
)
    requires
        can_be_read_back(title, created, tags, body),
    ensures
        decode(name, encode_record(kind, title, created, confidence, tags, body)) is Ok,
        ({
            let e = decode(name, encode_record(kind, title, created, confidence, tags, body))->Ok_0;
            &&& e.filename == name
            &&& e.entry_type == kind
            &&& e.title == title
            &&& e.confidence == confidence
            &&& e.tags == tags
            &&& e.content == body
            &&& e.superseded_by is None
            &&& e.created == trim(created)
            &&& tight(created, CharClass::Space) ==> e.created == created
        }),
{
    let h = written_header(kind, title, created, confidence, tags);
    let rest = seq!['\n', '\n'] + body + seq!['\n'];
    lemma_written_record(kind, title, created, confidence, tags, body);
    lemma_record_decoded(name, h, rest);
    lemma_field_created(h, created);
    if tight(created, CharClass::Space) {
        lemma_strip_tight(created, CharClass::Space);
    }
    lemma_confidence_read_back(confidence.millis);
    assert(made_of(seq!['\n', '\n'], CharClass::Space));
    assert(made_of(seq!['\n'], CharClass::Space));
    lemma_trim_padded(seq!['\n', '\n'], body, seq!['\n']);
    assert(confidence_in(Some(shortest(confidence.millis as int))) == confidence);
}

} // verus!
