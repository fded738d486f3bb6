//! Reading back a superseded record: after an entry is superseded, its record
//! shows the successor and the lowered confidence.

use crate::confidence::{
    shortest, tenths_text, Confidence, SUPERSEDED_MILLIS, SUPERSEDED_TENTHS,
};
use crate::entry::{
    confidence_in, decode, encode_record, field_in, is_keyed, keyed_line, lemma_keyed_line,
    unlines, value_of, EntryType,
};
use crate::frontmatter::{add_field, field_line, replace_field};
use crate::number::decimal;
use crate::roundtrip::{
    can_be_read_back, is_harmless, is_plain_value, law_decode_inverts_encode,
    lemma_confidence_read_back, lemma_dashless_glue, lemma_dashless_plain, lemma_delimiter_found,
    lemma_empty_not_keyed, lemma_holds_no, lemma_keyed_line_is, lemma_keyed_line_none,
    lemma_keyed_rest, lemma_keyed_value, lemma_no_delimiter_dashless, lemma_not_keyed_by_head,
    lemma_plain_confidence_line, lemma_split_unlines, lemma_successor_line, lemma_tags_line,
    lemma_title_line, lemma_type_line, lemma_unlines_dashless, lemma_written_record,
    lines_of_header, record_text, written_header,
};
use crate::store::{lookup, lowered_names, set_field, superseded, with_superseded, StoreView};
use crate::text::{
    contains, find, is_space, join, lemma_first_true, lemma_split_mask_len, lines, mask_of, split,
    starts_with, strip_cr, trim, CharClass,
};
use crate::text_lemmas::{
    lemma_lines_hold_no_feed, lemma_split_concat, lemma_strip_tight, lemma_trim_around,
    lemma_trim_without_return,
};
use crate::unicode::lowercase;
use vstd::prelude::*;

verus! {

/// Each of `ls`, without a carriage return at its end.
pub open spec fn without_returns(ls: Seq<Seq<char>>) -> Seq<Seq<char>> {
    Seq::new(ls.len(), |i: int| strip_cr(ls[i]))
}

/// Lines, each ended by a line feed, and then a text, fall apart at the line
/// feeds into the lines and the pieces of the text.
proof fn lemma_split_after_lines(ls: Seq<Seq<char>>, tail: Seq<char>)
    requires
        forall|i: int| 0 <= i < ls.len() ==> !(#[trigger] ls[i]).contains('\n'),
    ensures
        split(unlines(ls) + tail, CharClass::Exactly('\n')) == ls + split(
            tail,
            CharClass::Exactly('\n'),
        ),
{
    let feed = CharClass::Exactly('\n');
    if ls.len() == 0 {
        assert(unlines(ls) + tail =~= tail);
        assert(ls + split(tail, feed) =~= split(tail, feed));
    } else {
        let init = ls.drop_last();
        let last = ls.last();
        assert forall|i: int| 0 <= i < init.len() implies !(#[trigger] init[i]).contains('\n') by {
            assert(init[i] == ls[i]);
        }
        lemma_split_unlines(init, last);
        assert(unlines(ls) + tail =~= (unlines(init) + last) + seq!['\n'] + tail);
        lemma_split_concat(unlines(init) + last, '\n', tail, feed);
        assert(init.push(last) =~= ls);
    }
}

/// The lines of lines and a text after them are the lines, each without a
/// carriage return at its end, and the lines of the text.
proof fn lemma_lines_after_lines(ls: Seq<Seq<char>>, tail: Seq<char>)
    requires
        forall|i: int| 0 <= i < ls.len() ==> !(#[trigger] ls[i]).contains('\n'),
    ensures
        lines(unlines(ls) + tail) == without_returns(ls) + lines(tail),
{
    let feed = CharClass::Exactly('\n');
    lemma_split_after_lines(ls, tail);
    lemma_split_mask_len(tail, mask_of(tail, feed));
    let pieces = split(unlines(ls) + tail, feed);
    let rest = split(tail, feed);
    assert(pieces.last() == rest.last());
    assert forall|i: int| 0 <= i < pieces.len() implies pieces[i] == if i < ls.len() {
        ls[i]
    } else {
        rest[i - ls.len()]
    } by {}
    assert(lines(unlines(ls) + tail) =~= without_returns(ls) + lines(tail));
}

/// Lines joined by line feeds and ended by one are the lines, each ended by
/// one.
proof fn lemma_join_unlines(ls: Seq<Seq<char>>)
    requires
        ls.len() > 0,
    ensures
        join(ls, "\n"@) + "\n"@ == unlines(ls),
    decreases ls.len(),
{
    reveal_strlit("\n");
    assert("\n"@ =~= seq!['\n']);
    if ls.len() == 1 {
        assert(ls.drop_last() =~= Seq::<Seq<char>>::empty());
        assert(unlines(ls.drop_last()) =~= Seq::<char>::empty());
        assert(join(ls, "\n"@) + "\n"@ =~= unlines(ls));
    } else {
        lemma_join_unlines(ls.drop_last());
        assert(join(ls, "\n"@) + "\n"@ =~= (join(ls.drop_last(), "\n"@) + "\n"@) + ls.last().push(
            '\n',
        ));
    }
}

proof fn lemma_unlines_concat(a: Seq<Seq<char>>, b: Seq<Seq<char>>)
    ensures
        unlines(a + b) == unlines(a) + unlines(b),
    decreases b.len(),
{
    if b.len() == 0 {
        assert(a + b =~= a);
        assert(unlines(a) + unlines(b) =~= unlines(a));
    } else {
        assert((a + b).drop_last() =~= a + b.drop_last());
        assert((a + b).last() == b.last());
        lemma_unlines_concat(a, b.drop_last());
        assert(unlines(a + b) =~= unlines(a) + unlines(b));
    }
}

/// The confidence that a superseded entry is brought down to, as written.
proof fn lemma_lowered_confidence()
    ensures
        tenths_text(SUPERSEDED_TENTHS as int) == seq!['0', '.', '3'],
        is_plain_value(tenths_text(SUPERSEDED_TENTHS as int)),
        confidence_in(Some(tenths_text(SUPERSEDED_TENTHS as int))) == (Confidence {
            millis: SUPERSEDED_MILLIS,
        }),
{
    let v = tenths_text(SUPERSEDED_TENTHS as int);
    assert(decimal(0) =~= seq!['0']);
    assert(v =~= seq!['0', '.', '3']);
    assert(shortest(300) =~= v);
    lemma_confidence_read_back(300);
    lemma_holds_no(v, '\n');
    lemma_dashless_plain(v);
}

// ---------------------------------------------------------------------------
// Records of any header
// ---------------------------------------------------------------------------

/// A record written line by line: a line with the delimiter, the lines of the
/// header, a line with the delimiter again, and the text from the next line
/// on.
pub ghost struct Lined {
    /// The line that opens the header: the delimiter, with or without a
    /// carriage return.
    pub open: Seq<char>,
    /// The lines of the header.
    pub header: Seq<Seq<char>>,
    /// The line that closes the header: the delimiter, with or without a
    /// carriage return.
    pub close: Seq<char>,
    /// What follows the line that closes the header.
    pub tail: Seq<char>,
}

/// A line that holds the delimiter and nothing else, but for a carriage
/// return at its end.
pub open spec fn is_delimiter_line(d: Seq<char>) -> bool {
    d == "---"@ || d == "---"@.push('\r')
}

impl Lined {
    /// The text of the record.
    pub open spec fn text(self) -> Seq<char> {
        unlines(seq![self.open] + self.header + seq![self.close]) + self.tail
    }

    /// The header of the record, between its delimiters.
    pub open spec fn header_text(self) -> Seq<char> {
        self.open.skip(3) + seq!['\n'] + unlines(self.header)
    }

    /// Whether the record is as it is meant to be: its lines of delimiters
    /// are such, and each line of the header is without a line feed and
    /// without the delimiter.
    pub open spec fn is_well_formed(self) -> bool {
        &&& is_delimiter_line(self.open)
        &&& is_delimiter_line(self.close)
        &&& forall|i: int| 0 <= i < self.header.len() ==> is_harmless(#[trigger] self.header[i])
    }

    /// The lines of the header as they are read: each without a carriage
    /// return at its end, after the empty line that the delimiter leaves.
    pub open spec fn read_lines(self) -> Seq<Seq<char>> {
        seq![Seq::<char>::empty()] + without_returns(self.header)
    }

    /// The record once the field `key` is set to `value`: in the line of the
    /// header that held it, the record coming out line by line without
    /// carriage returns, or in a new line at the end of the header where
    /// none did.
    pub open spec fn with_field(self, key: Seq<char>, value: Seq<char>) -> Lined {
        match keyed_line(self.header, key) {
            Some(c) => Lined {
                open: "---"@,
                header: without_returns(self.header).update(c, field_line(key, value)),
                close: "---"@,
                tail: unlines(lines(self.tail)),
            },
            None => Lined {
                open: self.open,
                header: self.header.push(field_line(key, value)),
                close: self.close,
                tail: self.tail,
            },
        }
    }

    /// Where no line of the header holds `key`, none after the header does.
    pub open spec fn holds_in_header_only(self, key: Seq<char>) -> bool {
        keyed_line(self.header, key) is None ==> keyed_line(lines(self.tail), key) is None
    }
}

/// Harmless lines stay harmless without the carriage returns at their ends.
proof fn lemma_without_returns_harmless(hl: Seq<Seq<char>>)
    requires
        forall|i: int| 0 <= i < hl.len() ==> is_harmless(#[trigger] hl[i]),
    ensures
        forall|i: int|
            0 <= i < hl.len() ==> is_harmless(#[trigger] without_returns(hl)[i]),
{
    assert forall|i: int| 0 <= i < hl.len() implies is_harmless(
        #[trigger] without_returns(hl)[i],
    ) by {
        let l = hl[i];
        let c = strip_cr(l);
        assert(is_harmless(l));
        if c.contains('\n') {
            let k = choose|k: int| 0 <= k < c.len() && c[k] == '\n';
            assert(l[k] == '\n');
            assert(l.contains('\n'));
        }
        assert forall|k: int| 0 <= k && k + 3 <= c.len() implies !(#[trigger] c[k] == '-' && c[k
            + 1] == '-' && c[k + 2] == '-') by {
            assert(c[k] == l[k] && c[k + 1] == l[k + 1] && c[k + 2] == l[k + 2]);
        }
    }
}

/// One line, ended by a line feed.
proof fn lemma_unlines_one(line: Seq<char>)
    ensures
        unlines(seq![line]) == line + seq!['\n'],
{
    let one = seq![line];
    assert(one.drop_last() =~= Seq::<Seq<char>>::empty());
    assert(one.last() == line);
    assert(unlines(one.drop_last()) =~= Seq::<char>::empty());
    assert(unlines(one) =~= line + seq!['\n']);
}

/// A line of the delimiter is the delimiter and what follows it, which holds
/// neither a hyphen nor a line feed.
proof fn lemma_delimiter_line(d: Seq<char>)
    requires
        is_delimiter_line(d),
    ensures
        d == "---"@ + d.skip(3),
        d.skip(3).len() <= 1,
        forall|i: int| 0 <= i < d.skip(3).len() ==> #[trigger] d.skip(3)[i] == '\r',
        !d.contains('\n'),
        strip_cr(d) == "---"@,
{
    reveal_strlit("---");
    let plain = "---"@;
    assert(d =~= plain + d.skip(3));
    if d == plain {
        assert(d.skip(3) =~= Seq::<char>::empty());
    } else {
        assert(d.skip(3) =~= seq!['\r']);
        assert(d.drop_last() =~= plain);
    }
    if d.contains('\n') {
        let i = choose|i: int| 0 <= i < d.len() && d[i] == '\n';
        assert(d[i] != '\n');
    }
}

/// A record written line by line is its header between two delimiters; its
/// header is found, and reads as an empty line and the lines it was made of,
/// each without a carriage return at its end.
proof fn lemma_lined_shape(r: Lined)
    requires
        r.is_well_formed(),
    ensures
        r.text() == "---"@ + r.header_text() + "---"@ + (r.close.skip(3) + seq!['\n'] + r.tail),
        starts_with(r.text(), "---"@),
        find(r.text().skip(3), "---"@) == Some(r.header_text().len() as int),
        r.text().subrange(3, 3 + r.header_text().len() as int) == r.header_text(),
        lines(r.header_text()) == r.read_lines(),
        lines(r.text()) == seq!["---"@] + without_returns(r.header) + seq!["---"@] + lines(
            r.tail,
        ),
{
    reveal_strlit("---");
    let d = "---"@;
    let none = Seq::<char>::empty();
    let raw = r.text();
    let header = r.header_text();
    let hl = r.header;
    let pre = r.open.skip(3);
    let rest = r.close.skip(3) + seq!['\n'] + r.tail;
    lemma_delimiter_line(r.open);
    lemma_delimiter_line(r.close);
    lemma_unlines_concat(seq![r.open] + hl, seq![r.close]);
    lemma_unlines_concat(seq![r.open], hl);
    lemma_unlines_one(r.open);
    lemma_unlines_one(r.close);
    assert(raw =~= d + header + d + rest);
    assert(raw.subrange(0, 3) =~= d);
    assert(raw.skip(3) =~= header + d + rest);
    // the delimiter that closes the header is the first that is found
    lemma_unlines_dashless(hl);
    lemma_dashless_plain(pre + seq!['\n']);
    lemma_dashless_glue(pre + seq!['\n'], unlines(hl));
    assert(header =~= (pre + seq!['\n']) + unlines(hl));
    assert(header.last() == '\n') by {
        if hl.len() > 0 {
            assert(header.last() == unlines(hl).last());
        }
    }
    lemma_delimiter_found(header, rest);
    assert(raw.subrange(3, 3 + header.len() as int) =~= header);
    // the lines of the header
    let led = seq![pre] + hl;
    lemma_unlines_concat(seq![pre], hl);
    lemma_unlines_one(pre);
    assert(unlines(led) + none =~= header);
    assert forall|i: int| 0 <= i < led.len() implies !(#[trigger] led[i]).contains('\n') by {
        if i == 0 {
            lemma_holds_no(pre, '\n');
        } else {
            assert(led[i] == hl[i - 1]);
        }
    }
    lemma_lines_after_lines(led, none);
    assert(lines(none) =~= Seq::<Seq<char>>::empty()) by {
        assert(split(none, CharClass::Exactly('\n')) =~= seq![none]);
    }
    assert(strip_cr(pre) =~= none);
    assert(without_returns(led) + lines(none) =~= r.read_lines()) by {
        assert forall|i: int| 0 <= i < led.len() implies #[trigger] without_returns(led)[i]
            == r.read_lines()[i] by {
            if i >= 1 {
                assert(led[i] == hl[i - 1]);
            }
        }
    }
    // the lines of the record
    let fl = seq![r.open] + hl + seq![r.close];
    assert forall|i: int| 0 <= i < fl.len() implies !(#[trigger] fl[i]).contains('\n') by {
        if 1 <= i <= hl.len() {
            assert(fl[i] == hl[i - 1]);
        }
    }
    lemma_lines_after_lines(fl, r.tail);
    assert(without_returns(fl) =~= seq![d] + without_returns(hl) + seq![d]) by {
        assert forall|i: int| 0 <= i < fl.len() implies #[trigger] without_returns(fl)[i] == (
        seq![d] + without_returns(hl) + seq![d])[i] by {
            if 1 <= i <= hl.len() {
                assert(fl[i] == hl[i - 1]);
            }
        }
    }
}

/// A record written line by line is its lines, each ended by a line feed, and
/// its tail.
proof fn lemma_lined_text(r: Lined)
    ensures
        r.text() == (r.open + seq!['\n'] + unlines(r.header)) + (r.close + seq!['\n'] + r.tail),
{
    lemma_unlines_concat(seq![r.open] + r.header, seq![r.close]);
    lemma_unlines_concat(seq![r.open], r.header);
    lemma_unlines_one(r.open);
    lemma_unlines_one(r.close);
    assert(r.text() =~= (r.open + seq!['\n'] + unlines(r.header)) + (r.close + seq!['\n']
        + r.tail));
}

/// A line put into a record written line by line becomes the last line of its
/// header.
proof fn lemma_line_added(r: Lined, key: Seq<char>, value: Seq<char>)
    requires
        r.is_well_formed(),
        keyed_line(r.header, key) is None,
    ensures
        add_field(r.text(), key, value) == r.with_field(key, value).text(),
{
    reveal_strlit("\n");
    reveal_strlit("---");
    let d = "---"@;
    let raw = r.text();
    let line = field_line(key, value);
    let more = Lined { open: r.open, header: r.header.push(line), close: r.close, tail: r.tail };
    assert(r.with_field(key, value) == more);
    lemma_lined_shape(r);
    lemma_lined_text(r);
    lemma_lined_text(more);
    lemma_delimiter_line(r.open);
    lemma_delimiter_line(r.close);
    let pos = r.header_text().len() as int;
    let front = r.open + seq!['\n'] + unlines(r.header);
    let back = r.close + seq!['\n'] + r.tail;
    assert(front =~= d + r.header_text());
    assert(front.len() == pos + 3);
    assert(raw == front + back);
    assert(raw.take(pos + 3) =~= front);
    assert(raw.skip(pos + 3) =~= back);
    assert(more.header.drop_last() =~= r.header);
    assert(unlines(more.header) == unlines(r.header) + line.push('\n'));
    assert("\n"@ =~= seq!['\n']);
    assert(raw.len() >= 3);
    assert(add_field(raw, key, value) == front + line + "\n"@ + back);
    assert(more.text() =~= front + line + seq!['\n'] + back);
}

/// Replacing the line of the header of a record written line by line that is
/// the first of the record to hold the key rewrites that line; the record
/// comes out line by line, without carriage returns at the ends of lines.
proof fn lemma_line_replaced(r: Lined, key: Seq<char>, value: Seq<char>, c: int)
    requires
        r.is_well_formed(),
        keyed_line(r.header, key) == Some(c),
        0 <= c < r.header.len(),
        keyed_line(lines(r.text()), key) == Some(c + 1),
    ensures
        replace_field(r.text(), key, value) == r.with_field(key, value).text(),
{
    let d = "---"@;
    let one = seq![d];
    let raw = r.text();
    let line = field_line(key, value);
    lemma_lined_shape(r);
    let ls = lines(raw);
    let after = ls.update(c + 1, line);
    let changed = without_returns(r.header).update(c, line);
    assert(after =~= (one + changed + one) + lines(r.tail));
    lemma_join_unlines(after);
    lemma_unlines_concat(one + changed + one, lines(r.tail));
}

/// A line that holds one key does not hold another that starts otherwise,
/// within its first two characters.
proof fn lemma_one_key(line: Seq<char>, held: Seq<char>, other: Seq<char>)
    requires
        is_keyed(line, held),
        held.len() >= 2,
        other.len() >= 2,
        held[0] != other[0] || held[1] != other[1],
    ensures
        !is_keyed(line, other),
{
    let t = trim(line);
    let p = held.push(':');
    let q = other.push(':');
    assert(t.subrange(0, p.len() as int)[0] == p[0]);
    assert(t.subrange(0, p.len() as int)[1] == p[1]);
    if starts_with(t, q) {
        assert(t.subrange(0, q.len() as int)[0] == q[0]);
        assert(t.subrange(0, q.len() as int)[1] == q[1]);
    }
}

/// A field is read as before from lines that are trimmed to what they were
/// trimmed to, but for such as did not hold its key and do not hold it now,
/// and for lines behind them that do not hold it.
proof fn lemma_read_kept(a: Seq<Seq<char>>, b: Seq<Seq<char>>, key: Seq<char>)
    requires
        b.len() >= a.len(),
        forall|i: int|
            0 <= i < a.len() ==> trim(#[trigger] b[i]) == trim(a[i]) || (!is_keyed(a[i], key)
                && !is_keyed(b[i], key)),
        forall|i: int| a.len() <= i < b.len() ==> !is_keyed(#[trigger] b[i], key),
    ensures
        keyed_line(b, key) == keyed_line(a, key),
        field_in(b, key) == field_in(a, key),
{
    lemma_keyed_line(a, key);
    assert forall|i: int| 0 <= i < a.len() implies (is_keyed(#[trigger] b[i], key) <==> is_keyed(
        a[i],
        key,
    )) by {}
    match keyed_line(a, key) {
        Some(i) => {
            assert(is_keyed(b[i], key));
            assert(trim(b[i]) == trim(a[i]));
            assert forall|j: int| 0 <= j < i implies !is_keyed(#[trigger] b[j], key) by {
                assert(!is_keyed(a[j], key));
            }
            lemma_keyed_line_is(b, key, i);
        },
        None => {
            assert forall|j: int| 0 <= j < b.len() implies !is_keyed(#[trigger] b[j], key) by {
                if j < a.len() {
                    assert(!is_keyed(a[j], key));
                }
            }
            lemma_keyed_line_none(b, key);
        },
    }
}

/// Carriage returns at the ends of lines make no difference to what is read
/// from them.
proof fn lemma_read_without_returns(ls: Seq<Seq<char>>, key: Seq<char>)
    ensures
        keyed_line(without_returns(ls), key) == keyed_line(ls, key),
        field_in(without_returns(ls), key) == field_in(ls, key),
{
    let w = without_returns(ls);
    assert forall|i: int| 0 <= i < ls.len() implies trim(#[trigger] w[i]) == trim(ls[i]) by {
        lemma_trim_without_return(ls[i]);
    }
    lemma_read_kept(ls, w, key);
}

/// A key that can head a line of a header, and a value that is read back from
/// behind it.
pub open spec fn can_be_set(key: Seq<char>, value: Seq<char>) -> bool {
    &&& key.len() >= 2
    &&& !is_space(key[0])
    &&& key[0] != '-'
    &&& is_harmless(field_line(key, value))
    &&& is_plain_value(value)
}

/// The line that sets a field holds its key, and its value is read back.
proof fn lemma_set_line_read(key: Seq<char>, value: Seq<char>)
    requires
        can_be_set(key, value),
    ensures
        is_keyed(field_line(key, value), key),
        value_of(field_line(key, value), key) == value,
        strip_cr(field_line(key, value)) == field_line(key, value),
        field_line(key, value).len() >= 2,
        field_line(key, value)[0] == key[0],
        field_line(key, value)[1] == key[1],
{
    reveal_strlit(": ");
    let line = field_line(key, value);
    let rest = seq![' '] + value;
    let none = Seq::<char>::empty();
    assert(line =~= key.push(':') + rest);
    lemma_keyed_rest(line, key, rest);
    assert(rest =~= seq![' '] + value + none);
    lemma_trim_around(seq![' '], value, none);
    lemma_strip_tight(value, CharClass::Space);
    assert(line.last() == value.last());
    assert(is_space('\r'));
    assert(line[0] == key[0]);
    assert(line[1] == key[1]);
}

/// Setting a field of a record written line by line sets it in the lines of
/// its header, from which it is then read.
proof fn lemma_field_set(r: Lined, key: Seq<char>, value: Seq<char>)
    requires
        r.is_well_formed(),
        can_be_set(key, value),
        r.holds_in_header_only(key),
    ensures
        set_field(r.text(), key, value) == r.with_field(key, value).text(),
        r.with_field(key, value).is_well_formed(),
        field_in(r.with_field(key, value).read_lines(), key) == Some(value),
{
    reveal_strlit("---");
    let d = "---"@;
    let hl = r.header;
    let raw = r.text();
    let line = field_line(key, value);
    let w = without_returns(hl);
    let done = r.with_field(key, value).header;
    let b = r.with_field(key, value).read_lines();
    lemma_set_line_read(key, value);
    lemma_lined_shape(r);
    lemma_without_returns_harmless(hl);
    lemma_read_without_returns(hl, key);
    lemma_not_keyed_by_head(d, key);
    lemma_empty_not_keyed(key);
    lemma_keyed_line(hl, key);
    lemma_keyed_line(w, key);
    lemma_keyed_line(lines(r.tail), key);
    let ls = lines(raw);
    match keyed_line(hl, key) {
        Some(c) => {
            assert(ls[c + 1] == w[c]);
            assert forall|j: int| 0 <= j < c + 1 implies !is_keyed(#[trigger] ls[j], key) by {
                if j >= 1 {
                    assert(ls[j] == w[j - 1]);
                }
            }
            lemma_keyed_line_is(ls, key, c + 1);
            lemma_line_replaced(r, key, value, c);
            assert forall|i: int| 0 <= i < done.len() implies is_harmless(#[trigger] done[i]) by {
                if i != c {
                    assert(done[i] == w[i]);
                }
            }
            assert(b[c + 1] == line) by {
                assert(b[c + 1] == without_returns(done)[c]);
            }
            assert forall|j: int| 0 <= j < c + 1 implies !is_keyed(#[trigger] b[j], key) by {
                if j >= 1 {
                    assert(b[j] == strip_cr(done[j - 1]));
                    assert(done[j - 1] == w[j - 1]);
                    lemma_trim_without_return(w[j - 1]);
                    assert(!is_keyed(w[j - 1], key));
                }
            }
            lemma_keyed_line_is(b, key, c + 1);
        },
        None => {
            assert forall|j: int| 0 <= j < ls.len() implies !is_keyed(#[trigger] ls[j], key) by {
                if 1 <= j <= hl.len() {
                    assert(ls[j] == w[j - 1]);
                } else if j > hl.len() + 1 {
                    assert(ls[j] == lines(r.tail)[j - hl.len() - 2]);
                }
            }
            lemma_keyed_line_none(ls, key);
            lemma_line_added(r, key, value);
            assert forall|i: int| 0 <= i < done.len() implies is_harmless(#[trigger] done[i]) by {
                if i < hl.len() {
                    assert(done[i] == hl[i]);
                }
            }
            let last = hl.len() as int + 1;
            assert(b[last] == line) by {
                assert(b[last] == without_returns(done)[last - 1]);
            }
            assert forall|j: int| 0 <= j < last implies !is_keyed(#[trigger] b[j], key) by {
                if j >= 1 {
                    assert(b[j] == strip_cr(done[j - 1]));
                    assert(done[j - 1] == hl[j - 1]);
                    assert(b[j] == w[j - 1]);
                }
            }
            lemma_keyed_line_is(b, key, last);
        },
    }
}

/// Setting a field leaves alone what is read for another key that starts
/// otherwise, within its first two characters, and leaves that key in the
/// header only where it was there only.
proof fn lemma_field_untouched(r: Lined, key: Seq<char>, value: Seq<char>, other: Seq<char>)
    requires
        can_be_set(key, value),
        other.len() >= 2,
        key[0] != other[0] || key[1] != other[1],
    ensures
        field_in(r.with_field(key, value).read_lines(), other) == field_in(
            r.read_lines(),
            other,
        ),
        r.holds_in_header_only(other) ==> r.with_field(key, value).holds_in_header_only(other),
{
    let none = Seq::<char>::empty();
    let hl = r.header;
    let line = field_line(key, value);
    let w = without_returns(hl);
    let done = r.with_field(key, value).header;
    let a = r.read_lines();
    let b = r.with_field(key, value).read_lines();
    lemma_set_line_read(key, value);
    lemma_not_keyed_by_head(line, other);
    lemma_keyed_line(hl, key);
    match keyed_line(hl, key) {
        Some(c) => {
            lemma_one_key(hl[c], key, other);
            lemma_trim_without_return(hl[c]);
            assert(!is_keyed(w[c], other));
        },
        None => {},
    }
    assert forall|i: int| 0 <= i < a.len() implies trim(#[trigger] b[i]) == trim(a[i]) || (
    !is_keyed(a[i], other) && !is_keyed(b[i], other)) by {
        if i >= 1 {
            assert(a[i] == w[i - 1]);
            assert(b[i] == strip_cr(done[i - 1]));
            lemma_trim_without_return(done[i - 1]);
            if keyed_line(hl, key) is Some {
                if done[i - 1] != line {
                    assert(done[i - 1] == w[i - 1]);
                }
            } else {
                assert(done[i - 1] == hl[i - 1]);
                lemma_trim_without_return(hl[i - 1]);
            }
        }
    }
    assert forall|i: int| a.len() <= i < b.len() implies !is_keyed(#[trigger] b[i], other) by {
        assert(b[i] == strip_cr(done[i - 1]));
        assert(done[i - 1] == line);
    }
    lemma_read_kept(a, b, other);
    assert forall|i: int| 0 <= i < hl.len() implies trim(#[trigger] done[i]) == trim(hl[i]) || (
    !is_keyed(hl[i], other) && !is_keyed(done[i], other)) by {
        if keyed_line(hl, key) is Some {
            lemma_trim_without_return(hl[i]);
            if done[i] != line {
                assert(done[i] == w[i]);
            }
        } else {
            assert(done[i] == hl[i]);
        }
    }
    assert forall|i: int| hl.len() <= i < done.len() implies !is_keyed(#[trigger] done[i], other) by {
        assert(done[i] == line);
    }
    lemma_read_kept(hl, done, other);
    if keyed_line(hl, key) is Some && keyed_line(lines(r.tail), other) is None {
        let ls = lines(r.tail);
        lemma_lines_hold_no_feed(r.tail);
        lemma_lines_after_lines(ls, none);
        assert(unlines(ls) + none =~= unlines(ls));
        assert(lines(none) =~= Seq::<Seq<char>>::empty()) by {
            assert(split(none, CharClass::Exactly('\n')) =~= seq![none]);
        }
        assert(without_returns(ls) + lines(none) =~= without_returns(ls));
        lemma_read_without_returns(ls, other);
    }
}

/// A record written line by line that can be superseded: where no line of
/// its header names a successor, none after the header does, and likewise for
/// the confidence.
pub open spec fn can_be_superseded(r: Lined) -> bool {
    &&& r.is_well_formed()
    &&& r.holds_in_header_only("superseded_by"@)
    &&& r.holds_in_header_only("confidence"@)
}

/// The record once its entry is superseded by the entry of the file `by`:
/// the successor is set, then the confidence 0.3.
pub open spec fn superseded_record(r: Lined, by: Seq<char>) -> Lined {
    r.with_field("superseded_by"@, by).with_field(
        "confidence"@,
        tenths_text(SUPERSEDED_TENTHS as int),
    )
}

/// The successor and the lowered confidence can be set.
proof fn lemma_can_be_set(by: Seq<char>)
    requires
        is_plain_value(by),
    ensures
        can_be_set("superseded_by"@, by),
        can_be_set("confidence"@, tenths_text(SUPERSEDED_TENTHS as int)),
{
    reveal_strlit("superseded_by");
    reveal_strlit("superseded_by: ");
    reveal_strlit("confidence");
    reveal_strlit("confidence: ");
    reveal_strlit(": ");
    let v = tenths_text(SUPERSEDED_TENTHS as int);
    lemma_lowered_confidence();
    lemma_successor_line(by);
    lemma_plain_confidence_line(v);
    assert(field_line("superseded_by"@, by) =~= "superseded_by: "@ + by);
    assert(field_line("confidence"@, v) =~= "confidence: "@ + v);
}

/// Superseding the entry of a record written line by line gives the
/// superseded record, from which the successor and the lowered confidence
/// are read, and every other field as before.
proof fn lemma_superseded_lines(r: Lined, by: Seq<char>, other: Seq<char>)
    requires
        can_be_superseded(r),
        is_plain_value(by),
        other.len() >= 2,
        other[0] != 's' || other[1] != 'u',
        other[0] != 'c' || other[1] != 'o',
    ensures
        superseded(r.text(), by) == superseded_record(r, by).text(),
        superseded_record(r, by).is_well_formed(),
        field_in(superseded_record(r, by).read_lines(), "superseded_by"@) == Some(by),
        field_in(superseded_record(r, by).read_lines(), "confidence"@) == Some(
            tenths_text(SUPERSEDED_TENTHS as int),
        ),
        field_in(superseded_record(r, by).read_lines(), other) == field_in(r.read_lines(), other),
{
    reveal_strlit("superseded_by");
    reveal_strlit("confidence");
    let skey = "superseded_by"@;
    let ckey = "confidence"@;
    let v = tenths_text(SUPERSEDED_TENTHS as int);
    lemma_can_be_set(by);
    lemma_field_set(r, skey, by);
    let linked = r.with_field(skey, by);
    lemma_field_untouched(r, skey, by, ckey);
    lemma_field_set(linked, ckey, v);
    lemma_field_untouched(linked, ckey, v, skey);
    lemma_field_untouched(r, skey, by, other);
    lemma_field_untouched(linked, ckey, v, other);
}

/// A superseded record shows its successor and the lowered confidence,
/// whatever its header held: from a record written line by line, once its
/// entry is superseded by the entry of the file `by`, the confidence 0.3 and
/// the successor `by` are decoded, whether or not a line of the header gave
/// a confidence or named a successor before, and whether its lines end in
/// line feeds or in carriage returns and line feeds; the record is decoded if
/// and only if it was before, and the kind, the title, the tags and the
/// creation stamp as they were.
///
/// This is stated of a record of which no line after the header names a
/// successor or gives a confidence unless one of the header does, and of a
/// file name without a line feed, the delimiter, or white space at either
/// end.
pub proof fn law_superseded_lines_read_back(name: Seq<char>, r: Lined, by: Seq<char>)
    requires
        can_be_superseded(r),
        is_plain_value(by),
    ensures
        decode(name, superseded(r.text(), by)) is Ok <==> decode(name, r.text()) is Ok,
        decode(name, r.text()) is Ok ==> ({
            let before = decode(name, r.text())->Ok_0;
            let after = decode(name, superseded(r.text(), by))->Ok_0;
            &&& after.confidence.millis == SUPERSEDED_MILLIS
            &&& after.superseded_by == Some(by)
            &&& after.entry_type == before.entry_type
            &&& after.title == before.title
            &&& after.tags == before.tags
            &&& after.created == before.created
            &&& after.filename == before.filename
        }),
{
    reveal_strlit("type");
    reveal_strlit("title");
    reveal_strlit("tags");
    reveal_strlit("created");
    lemma_superseded_lines(r, by, "type"@);
    lemma_superseded_lines(r, by, "title"@);
    lemma_superseded_lines(r, by, "tags"@);
    lemma_superseded_lines(r, by, "created"@);
    lemma_lined_shape(r);
    lemma_lined_shape(superseded_record(r, by));
    lemma_lowered_confidence();
}

/// Superseding shows in the store: once the entry that `old_entry` stands for
/// is superseded by the one that `new_entry` stands for, the record of the
/// first, under its name as before, is decoded with the confidence 0.3 and
/// with the name of the file of the second as its successor, which need not
/// be the text that stood for it; no other record changes.
///
/// This is stated of a first record that can be superseded, written line by
/// line, and that is decoded, and of a name of the second file without a line
/// feed, the delimiter, or white space at either end.
pub proof fn law_supersede_shows_in_the_store(
    store: StoreView,
    old_entry: Seq<char>,
    new_entry: Seq<char>,
    r: Lined,
)
    requires
        lookup(store.knowledge, old_entry) is Some,
        lookup(store.knowledge, new_entry) is Some,
        store.knowledge[lookup(store.knowledge, old_entry)->0].text == r.text(),
        can_be_superseded(r),
        is_plain_value(store.knowledge[lookup(store.knowledge, new_entry)->0].name),
        decode(store.knowledge[lookup(store.knowledge, old_entry)->0].name, r.text()) is Ok,
    ensures
        ({
            let i = lookup(store.knowledge, old_entry)->0;
            let j = lookup(store.knowledge, new_entry)->0;
            let after = with_superseded(store, i, j);
            let read = decode(after.knowledge[i].name, after.knowledge[i].text);
            &&& after.knowledge.len() == store.knowledge.len()
            &&& after.knowledge[i].name == store.knowledge[i].name
            &&& forall|k: int|
                0 <= k < store.knowledge.len() && k != i ==> after.knowledge[k]
                    == store.knowledge[k]
            &&& read is Ok
            &&& read->Ok_0.confidence.millis == SUPERSEDED_MILLIS
            &&& read->Ok_0.superseded_by == Some(store.knowledge[j].name)
        }),
{
    let i = lookup(store.knowledge, old_entry)->0;
    let j = lookup(store.knowledge, new_entry)->0;
    let names = lowered_names(store.knowledge);
    lemma_first_true(Seq::new(names.len(), |k: int| contains(names[k], lowercase(old_entry))));
    lemma_first_true(Seq::new(names.len(), |k: int| contains(names[k], lowercase(new_entry))));
    law_superseded_lines_read_back(store.knowledge[i].name, r, store.knowledge[j].name);
}

/// A record as it is written for a new entry is written line by line, and a
/// line of its header gives a confidence.
proof fn lemma_written_lined(
    kind: EntryType,
    title: Seq<char>,
    created: Seq<char>,
    confidence: Confidence,
    tags: Seq<Seq<char>>,
    body: Seq<char>,
) -> (r: Lined)
    requires
        can_be_read_back(title, created, tags, body),
    ensures
        r.text() == encode_record(kind, title, created, confidence, tags, body),
        r.is_well_formed(),
        r.tail == seq!['\n'] + (body + seq!['\n']),
        keyed_line(r.header, "confidence"@) is Some,
{
    reveal_strlit("confidence");
    let ckey = "confidence"@;
    let none = Seq::<char>::empty();
    let h = written_header(kind, title, created, confidence, tags);
    let hl = lines_of_header(h);
    let r = Lined { open: "---"@, header: hl, close: "---"@, tail: seq!['\n'] + (body + seq!['\n']) };
    lemma_written_record(kind, title, created, confidence, tags, body);
    lemma_type_line(h.kind);
    lemma_title_line(h.title);
    lemma_plain_confidence_line(h.confidence);
    if h.tags.len() > 0 {
        lemma_tags_line(h.tags);
    }
    assert forall|i: int| 0 <= i < hl.len() implies is_harmless(#[trigger] hl[i]) by {}
    lemma_lined_text(r);
    assert(r.text() =~= record_text(h, seq!['\n', '\n'] + body + seq!['\n']));
    lemma_keyed_value(hl[3], ckey, h.confidence);
    lemma_keyed_line(hl, ckey);
    r
}

/// Where no line of a text holds a key, none does behind an empty line.
proof fn lemma_behind_empty_line(rest: Seq<char>, key: Seq<char>)
    requires
        keyed_line(lines(rest), key) is None,
    ensures
        keyed_line(lines(seq!['\n'] + rest), key) is None,
{
    let none = Seq::<char>::empty();
    let all = lines(seq!['\n'] + rest);
    lemma_unlines_one(none);
    assert(unlines(seq![none]) + rest =~= seq!['\n'] + rest);
    lemma_holds_no(none, '\n');
    lemma_lines_after_lines(seq![none], rest);
    lemma_empty_not_keyed(key);
    lemma_keyed_line(lines(rest), key);
    assert forall|j: int| 0 <= j < all.len() implies !is_keyed(#[trigger] all[j], key) by {
        if j >= 1 {
            assert(all[j] == lines(rest)[j - 1]);
        }
    }
    lemma_keyed_line_none(all, key);
}

/// A superseded record shows its successor and the lowered confidence: from
/// the record of an entry, once the entry is superseded by the entry of the
/// file `by`, the confidence 0.3 and the successor `by` are decoded, and the
/// kind, the title and the tags as they were.
///
/// This is stated of a record as it is written for a new entry from fields
/// that can be read back, whose body holds no line that names a successor,
/// and of a file name without a line feed, the delimiter, or white space at
/// either end.
pub proof fn law_superseded_record_reads_back(
    name: Seq<char>,
    kind: EntryType,
    title: Seq<char>,
    created: Seq<char>,
    confidence: Confidence,
    tags: Seq<Seq<char>>,
    body: Seq<char>,
    by: Seq<char>,
)
    requires
        can_be_read_back(title, created, tags, body),
        !by.contains('\n') && !contains(by, "---"@),
        by.len() > 0 && !is_space(by[0]) && !is_space(by.last()),
        keyed_line(lines(body + seq!['\n']), "superseded_by"@) is None,
    ensures
        decode(name, superseded(encode_record(kind, title, created, confidence, tags, body), by)) is Ok,
        ({
            let e = decode(
                name,
                superseded(encode_record(kind, title, created, confidence, tags, body), by),
            )->Ok_0;
            &&& e.confidence.millis == SUPERSEDED_MILLIS
            &&& e.superseded_by == Some(by)
            &&& e.entry_type == kind
            &&& e.title == title
            &&& e.tags == tags
        }),
{
    let r = lemma_written_lined(kind, title, created, confidence, tags, body);
    lemma_no_delimiter_dashless(by);
    lemma_behind_empty_line(body + seq!['\n'], "superseded_by"@);
    law_superseded_lines_read_back(name, r, by);
    law_decode_inverts_encode(name, kind, title, created, confidence, tags, body);
}

} // verus!
