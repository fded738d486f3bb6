//! Entries and the record format they are stored in: a header between two `---`
//! delimiters, made of `key: value` lines, and a free-text body after it.

use crate::confidence::{parse_millis, shortest, Confidence, DEFAULT_MILLIS};
use crate::text::{
    chars_of, chars_of_string_list, equal_ignoring_case, find, find_from, has_prefix, join,
    join_chars, lines, lines_of, nonempty, push_all, same_ignoring_case, slice_of, split,
    split_chars, starts_with, string_of, string_views, strip, strip_chars, strip_leading,
    strip_leading_chars, strip_trailing, strip_trailing_chars, trim, trim_chars, views, CharClass,
};
use vstd::prelude::*;

verus! {

/// What an entry records.
#[derive(Debug, Clone, Copy, PartialEq, Eq, Structural)]
pub enum EntryType {
    Fact,
    Decision,
    Observation,
    Error,
    Procedure,
}

/// Why a record could not be read.
#[derive(Debug, Clone, Copy, PartialEq, Eq, Structural)]
pub enum ParseFailure {
    /// The text does not start with the delimiter.
    MissingHeader,
    /// No delimiter closes the header.
    UnclosedHeader,
    /// The header has no `type` line.
    MissingKind,
    /// The `type` line names no known kind.
    InvalidKind,
}

/// What an operation on the store can fail with.
#[derive(Debug, Clone)]
pub enum BrocaError {
    /// Reading or writing failed; the text says how.
    Io(String),
    /// The record of the named file is malformed.
    Parse(String, ParseFailure),
    /// No entry goes by the given name.
    NotFound(String),
    /// The given text names no kind of entry.
    InvalidArgument(String),
}

/// The name of `kind`, as written in a header.
pub open spec fn kind_name(kind: EntryType) -> Seq<char> {
    match kind {
        EntryType::Fact => "fact"@,
        EntryType::Decision => "decision"@,
        EntryType::Observation => "observation"@,
        EntryType::Error => "error"@,
        EntryType::Procedure => "procedure"@,
    }
}

/// The kind that `s` names, whatever the case of its letters.
pub open spec fn kind_of(s: Seq<char>) -> Option<EntryType> {
    if same_ignoring_case(s, "fact"@) {
        Some(EntryType::Fact)
    } else if same_ignoring_case(s, "decision"@) {
        Some(EntryType::Decision)
    } else if same_ignoring_case(s, "observation"@) {
        Some(EntryType::Observation)
    } else if same_ignoring_case(s, "error"@) {
        Some(EntryType::Error)
    } else if same_ignoring_case(s, "procedure"@) {
        Some(EntryType::Procedure)
    } else {
        None
    }
}

impl EntryType {
    /// The name of the kind.
    pub fn as_str(&self) -> (name: &'static str)
        ensures
            name@ == kind_name(*self),
    {
        match self {
            EntryType::Fact => "fact",
            EntryType::Decision => "decision",
            EntryType::Observation => "observation",
            EntryType::Error => "error",
            EntryType::Procedure => "procedure",
        }
    }

    /// The name of the kind, as an owned string.
    pub fn to_string(&self) -> (name: String)
        ensures
            name@ == kind_name(*self),
    {
        self.as_str().to_owned()
    }

    /// The kind that `s` names, whatever the case of its letters.
    pub fn from_chars(s: &Vec<char>) -> (r: Option<EntryType>)
        ensures
            r == kind_of(s@),
    {
        if equal_ignoring_case(s, &chars_of("fact")) {
            Some(EntryType::Fact)
        } else if equal_ignoring_case(s, &chars_of("decision")) {
            Some(EntryType::Decision)
        } else if equal_ignoring_case(s, &chars_of("observation")) {
            Some(EntryType::Observation)
        } else if equal_ignoring_case(s, &chars_of("error")) {
            Some(EntryType::Error)
        } else if equal_ignoring_case(s, &chars_of("procedure")) {
            Some(EntryType::Procedure)
        } else {
            None
        }
    }

    /// The kind that `s` names, whatever the case of its letters.
    pub fn from_name(s: &str) -> (r: Option<EntryType>)
        ensures
            r == kind_of(s@),
    {
        EntryType::from_chars(&chars_of(s))
    }
}

impl core::str::FromStr for EntryType {
    type Err = String;

    /// The kind that `s` names, whatever the case of its letters, or the
    /// complaint that it names none.
    fn from_str(s: &str) -> (r: Result<EntryType, String>)
        ensures
            match r {
                Ok(kind) => kind_of(s@) == Some(kind),
                Err(msg) => kind_of(s@) is None && msg@ == "Unknown entry type: "@ + s@,
            },
    {
        match EntryType::from_name(s) {
            Some(kind) => Ok(kind),
            None => Err(unknown_kind_message(s)),
        }
    }
}

/// The complaint about `s` naming no kind.
pub fn unknown_kind_message(s: &str) -> (msg: String)
    ensures
        msg@ == "Unknown entry type: "@ + s@,
{
    let mut msg = "Unknown entry type: ".to_owned();
    msg.append(s);
    msg
}

/// One stored record.
#[derive(Debug, Clone)]
pub struct Entry {
    /// The name of the file that holds the record; it identifies the entry.
    pub filename: String,
    pub entry_type: EntryType,
    pub title: String,
    pub confidence: Confidence,
    pub tags: Vec<String>,
    /// The body: the text after the header.
    pub content: String,
    pub created: String,
    /// The name of the entry that replaces this one, if any does.
    pub superseded_by: Option<String>,
}

/// An entry as a value of sequences.
pub ghost struct EntryView {
    pub filename: Seq<char>,
    pub entry_type: EntryType,
    pub title: Seq<char>,
    pub confidence: Confidence,
    pub tags: Seq<Seq<char>>,
    pub content: Seq<char>,
    pub created: Seq<char>,
    pub superseded_by: Option<Seq<char>>,
}

impl View for Entry {
    type V = EntryView;

    open spec fn view(&self) -> EntryView {
        EntryView {
            filename: self.filename@,
            entry_type: self.entry_type,
            title: self.title@,
            confidence: self.confidence,
            tags: string_views(self.tags@),
            content: self.content@,
            created: self.created@,
            superseded_by: match self.superseded_by {
                Some(s) => Some(s@),
                None => None,
            },
        }
    }
}

// ---------------------------------------------------------------------------
// Reading a header
// ---------------------------------------------------------------------------

/// Whether `line`, once trimmed, starts with `key` and a colon.
pub open spec fn is_keyed(line: Seq<char>, key: Seq<char>) -> bool {
    starts_with(trim(line), key.push(':'))
}

/// The value of a line that `is_keyed`: what follows the colon, trimmed.
pub open spec fn value_of(line: Seq<char>, key: Seq<char>) -> Seq<char> {
    trim(trim(line).skip(key.len() as int + 1))
}

/// The index of the first of `ls` that `is_keyed`.
pub open spec fn keyed_line(ls: Seq<Seq<char>>, key: Seq<char>) -> Option<int>
    decreases ls.len(),
{
    if ls.len() == 0 {
        None
    } else if is_keyed(ls[0], key) {
        Some(0)
    } else {
        match keyed_line(ls.skip(1), key) {
            Some(i) => Some(i + 1),
            None => None,
        }
    }
}

/// What `keyed_line` returns is the index of a keyed line, and the least one.
pub proof fn lemma_keyed_line(ls: Seq<Seq<char>>, key: Seq<char>)
    ensures
        match keyed_line(ls, key) {
            Some(i) => 0 <= i < ls.len() && is_keyed(ls[i], key) && forall|j: int|
                0 <= j < i ==> !is_keyed(#[trigger] ls[j], key),
            None => forall|j: int| 0 <= j < ls.len() ==> !is_keyed(#[trigger] ls[j], key),
        },
    decreases ls.len(),
{
    if ls.len() > 0 && !is_keyed(ls[0], key) {
        let t = ls.skip(1);
        lemma_keyed_line(t, key);
        match keyed_line(t, key) {
            Some(i) => {
                assert(ls[i + 1] == t[i]);
                assert forall|j: int| 0 <= j < i + 1 implies !is_keyed(#[trigger] ls[j], key) by {
                    if j > 0 {
                        assert(ls[j] == t[j - 1]);
                    }
                }
            },
            None => {
                assert forall|j: int| 0 <= j < ls.len() implies !is_keyed(
                    #[trigger] ls[j],
                    key,
                ) by {
                    if j > 0 {
                        assert(ls[j] == t[j - 1]);
                    }
                }
            },
        }
    }
}

/// The value of the first of `ls` that reads `key: value` once trimmed.
pub open spec fn field_in(ls: Seq<Seq<char>>, key: Seq<char>) -> Option<Seq<char>> {
    match keyed_line(ls, key) {
        Some(i) => Some(value_of(ls[i], key)),
        None => None,
    }
}

/// The trimmed value of the first line of `header` that starts with `key` and a
/// colon.
pub open spec fn field(header: Seq<char>, key: Seq<char>) -> Option<Seq<char>> {
    field_in(lines(header), key)
}

/// One member of a tag list, without the white space and the quotes around it.
pub open spec fn clean_tag(t: Seq<char>) -> Seq<char> {
    strip(strip(trim(t), CharClass::Exactly('"')), CharClass::Exactly('\''))
}

/// Whether `v` is written between square brackets.
pub open spec fn bracketed(v: Seq<char>) -> bool {
    v.len() >= 2 && v[0] == '[' && v.last() == ']'
}

/// The tags that the value `v` of a `tags` line lists.
pub open spec fn tags_in(v: Seq<char>) -> Seq<Seq<char>> {
    if !bracketed(v) {
        Seq::<Seq<char>>::empty()
    } else {
        let inner = trim(
            strip_trailing(strip_leading(v, CharClass::Exactly('[')), CharClass::Exactly(']')),
        );
        if inner.len() == 0 {
            Seq::<Seq<char>>::empty()
        } else {
            let parts = split(inner, CharClass::Exactly(','));
            nonempty(Seq::new(parts.len(), |i: int| clean_tag(parts[i])))
        }
    }
}

/// The tags of `header`: those of its `tags` line, none without one.
pub open spec fn tags_of(header: Seq<char>) -> Seq<Seq<char>> {
    match field(header, "tags"@) {
        Some(v) => tags_in(v),
        None => Seq::<Seq<char>>::empty(),
    }
}

/// The confidence that the text `v` gives: the fraction it denotes, in
/// thousandths, and the default of 0.8 where it denotes none: where it is no
/// plain decimal fraction, or one too large to hold.
pub open spec fn confidence_in(v: Option<Seq<char>>) -> Confidence {
    match v {
        Some(c) => match parse_millis(c) {
            Some(m) => Confidence { millis: m as i64 },
            None => Confidence { millis: DEFAULT_MILLIS },
        },
        None => Confidence { millis: DEFAULT_MILLIS },
    }
}

/// The entry that the record `raw` of the file `name` holds.
pub open spec fn decode(name: Seq<char>, raw: Seq<char>) -> Result<EntryView, ParseFailure> {
    if !starts_with(raw, "---"@) {
        Err(ParseFailure::MissingHeader)
    } else {
        match find(raw.skip(3), "---"@) {
            None => Err(ParseFailure::UnclosedHeader),
            Some(end) => {
                let header = raw.subrange(3, 3 + end);
                match field(header, "type"@) {
                    None => Err(ParseFailure::MissingKind),
                    Some(k) => match kind_of(k) {
                        None => Err(ParseFailure::InvalidKind),
                        Some(kind) => Ok(
                            EntryView {
                                filename: name,
                                entry_type: kind,
                                title: match field(header, "title"@) {
                                    Some(t) => strip(t, CharClass::Exactly('"')),
                                    None => name,
                                },
                                confidence: confidence_in(field(header, "confidence"@)),
                                tags: tags_of(header),
                                content: trim(raw.skip(end + 6)),
                                created: match field(header, "created"@) {
                                    Some(c) => c,
                                    None => Seq::<char>::empty(),
                                },
                                superseded_by: field(header, "superseded_by"@),
                            },
                        ),
                    },
                }
            },
        }
    }
}

/// The index of the first of `ls` that reads `key: ...` once trimmed.
pub fn find_keyed(ls: &Vec<Vec<char>>, key: &Vec<char>) -> (r: Option<usize>)
    ensures
        r is Some <==> keyed_line(views(ls@), key@) is Some,
        r is Some ==> r->0 == keyed_line(views(ls@), key@)->0 && r->0 < ls.len(),
        r is Some ==> is_keyed(views(ls@)[r->0 as int], key@),
{
    let ghost all = views(ls@);
    let mut prefix: Vec<char> = Vec::new();
    push_all(&mut prefix, key);
    prefix.push(':');
    assert(prefix@ =~= key@.push(':'));
    proof {
        lemma_keyed_line(all, key@);
    }
    let mut i: usize = 0;
    while i < ls.len()
        invariant
            i <= ls.len(),
            all == views(ls@),
            prefix@ == key@.push(':'),
            forall|j: int| 0 <= j < i ==> !is_keyed(#[trigger] all[j], key@),
        decreases ls.len() - i,
    {
        let l = trim_chars(&ls[i]);
        assert(all[i as int] == ls@[i as int]@);
        if has_prefix(&l, &prefix) {
            proof {
                lemma_keyed_line(all, key@);
            }
            return Some(i);
        }
        i += 1;
    }
    proof {
        lemma_keyed_line(all, key@);
    }
    None
}

/// The value of the first line of `header` that starts with `key` and a colon.
pub fn field_chars(header: &Vec<char>, key: &Vec<char>) -> (r: Option<Vec<char>>)
    ensures
        r is Some <==> field(header@, key@) is Some,
        r is Some ==> r->0@ == field(header@, key@)->0,
{
    let ls = lines_of(header);
    match find_keyed(&ls, key) {
        Some(i) => {
            let l = trim_chars(&ls[i]);
            assert(views(ls@)[i as int] == ls@[i as int]@);
            assert(key@.push(':').len() == key@.len() + 1);
            assert(key.len() < l.len());
            let rest = slice_of(&l, key.len() + 1, l.len());
            assert(rest@ =~= l@.skip(key@.len() as int + 1));
            Some(trim_chars(&rest))
        },
        None => None,
    }
}

/// Extracts the value of a `key: value` line from a header.
pub fn extract_field(frontmatter: &str, key: &str) -> (r: Option<String>)
    ensures
        r is Some <==> field(frontmatter@, key@) is Some,
        r is Some ==> r->0@ == field(frontmatter@, key@)->0,
{
    match field_chars(&chars_of(frontmatter), &chars_of(key)) {
        Some(v) => Some(string_of(&v)),
        None => None,
    }
}

/// The strings made of the members of `parts`.
pub fn strings_of(parts: &Vec<Vec<char>>) -> (out: Vec<String>)
    ensures
        string_views(out@) == views(parts@),
{
    let mut out: Vec<String> = Vec::new();
    let mut i: usize = 0;
    while i < parts.len()
        invariant
            i <= parts.len(),
            out.len() == i,
            forall|k: int| 0 <= k < i ==> (#[trigger] out@[k])@ == parts@[k]@,
        decreases parts.len() - i,
    {
        out.push(string_of(&parts[i]));
        i += 1;
    }
    assert(string_views(out@) =~= views(parts@));
    out
}

/// The tags that the value `v` of a `tags` line lists.
pub fn tags_in_chars(v: &Vec<char>) -> (out: Vec<Vec<char>>)
    ensures
        views(out@) == tags_in(v@),
{
    let n = v.len();
    if !(n >= 2 && v[0] == '[' && v[n - 1] == ']') {
        return Vec::new();
    }
    let a = strip_leading_chars(v, CharClass::Exactly('['));
    let b = strip_trailing_chars(&a, CharClass::Exactly(']'));
    let inner = trim_chars(&b);
    if inner.len() == 0 {
        return Vec::new();
    }
    let parts = split_chars(&inner, CharClass::Exactly(','));
    let ghost all = views(parts@);
    let ghost cleaned = Seq::new(all.len(), |i: int| clean_tag(all[i]));
    let mut out: Vec<Vec<char>> = Vec::new();
    let mut i: usize = 0;
    assert(cleaned.take(0) =~= Seq::<Seq<char>>::empty());
    while i < parts.len()
        invariant
            i <= parts.len(),
            all == views(parts@),
            cleaned == Seq::new(all.len(), |i: int| clean_tag(all[i])),
            views(out@) == nonempty(cleaned.take(i as int)),
        decreases parts.len() - i,
    {
        let t = trim_chars(&parts[i]);
        let u = strip_chars(&t, CharClass::Exactly('"'));
        let w = strip_chars(&u, CharClass::Exactly('\''));
        let ghost before = views(out@);
        proof {
            assert(cleaned.take(i + 1).drop_last() =~= cleaned.take(i as int));
            assert(cleaned.take(i + 1).last() == w@);
        }
        if w.len() > 0 {
            out.push(w);
            assert(views(out@) =~= before.push(cleaned[i as int]));
        }
        i += 1;
    }
    assert(cleaned.take(cleaned.len() as int) =~= cleaned);
    out
}

/// Extracts the tags of a header: the members of its `tags: [a, b, c]` line.
pub fn extract_tags(frontmatter: &str) -> (tags: Vec<String>)
    ensures
        string_views(tags@) == tags_of(frontmatter@),
{
    match field_chars(&chars_of(frontmatter), &chars_of("tags")) {
        Some(v) => strings_of(&tags_in_chars(&v)),
        None => Vec::new(),
    }
}

impl BrocaError {
    /// This error reports that the record of `file` is malformed in the way `reason`.
    pub open spec fn is_parse_failure(self, file: Seq<char>, reason: ParseFailure) -> bool {
        self matches BrocaError::Parse(f, r) && f@ == file && r == reason
    }

    /// This error reports that no entry goes by `name`.
    pub open spec fn is_not_found(self, name: Seq<char>) -> bool {
        self matches BrocaError::NotFound(n) && n@ == name
    }

    /// This error reports that `text` names no kind of entry.
    pub open spec fn is_invalid_argument(self, text: Seq<char>) -> bool {
        self matches BrocaError::InvalidArgument(t) && t@ == text
    }

    /// The text that the error reports under: what failed, for which name.
    pub open spec fn message_text(self) -> Seq<char> {
        match self {
            BrocaError::Io(e) => "IO error: "@ + e@,
            BrocaError::Parse(f, r) => "Parse error: "@ + reason_text(r) + " in "@ + f@,
            BrocaError::NotFound(n) => "Entry not found: "@ + n@,
            BrocaError::InvalidArgument(t) => "Unknown entry type: "@ + t@,
        }
    }

    /// A line of text that says what failed.
    pub fn message(&self) -> (msg: String)
        ensures
            msg@ == self.message_text(),
    {
        match self {
            BrocaError::Io(e) => {
                let mut msg = "IO error: ".to_owned();
                msg.append(e.as_str());
                msg
            },
            BrocaError::Parse(f, r) => {
                let mut msg = "Parse error: ".to_owned();
                msg.append(
                    match r {
                        ParseFailure::MissingHeader => "No frontmatter",
                        ParseFailure::UnclosedHeader => "Unclosed frontmatter",
                        ParseFailure::MissingKind => "Missing type",
                        ParseFailure::InvalidKind => "Unknown entry type",
                    },
                );
                msg.append(" in ");
                msg.append(f.as_str());
                msg
            },
            BrocaError::NotFound(n) => {
                let mut msg = "Entry not found: ".to_owned();
                msg.append(n.as_str());
                msg
            },
            BrocaError::InvalidArgument(t) => unknown_kind_message(t.as_str()),
        }
    }
}

/// How a malformed record is described.
pub open spec fn reason_text(reason: ParseFailure) -> Seq<char> {
    match reason {
        ParseFailure::MissingHeader => "No frontmatter"@,
        ParseFailure::UnclosedHeader => "Unclosed frontmatter"@,
        ParseFailure::MissingKind => "Missing type"@,
        ParseFailure::InvalidKind => "Unknown entry type"@,
    }
}

fn confidence_from(v: Option<Vec<char>>) -> (c: Confidence)
    ensures
        c == confidence_in(
            match v {
                Some(t) => Some(t@),
                None => None,
            },
        ),
{
    match v {
        Some(t) => match Confidence::parse_chars(&t) {
            Some(c) => c,
            None => Confidence::from_millis(DEFAULT_MILLIS),
        },
        None => Confidence::from_millis(DEFAULT_MILLIS),
    }
}

impl Entry {
    /// Reads the record `raw` of the file `filename`.
    ///
    /// The text must start with the delimiter `---`; the next `---` closes the
    /// header, which must hold a `type` line that names a kind. The other keys
    /// have defaults: the title is the file name, the confidence 0.8, the tags
    /// none, the creation stamp empty.
    ///
    /// The confidence is read to the thousandth, from a plain decimal fraction:
    /// an optional sign, digits, and optionally a point and digits, of which
    /// those after the third are dropped, so that a confidence under a
    /// thousandth is read as zero. A confidence written otherwise, with an
    /// exponent or as a name, or one above some 9.2 times ten to the
    /// fifteenth, is taken as unreadable, and the entry gets 0.8.
    pub fn parse(filename: &str, raw: &str) -> (r: Result<Entry, BrocaError>)
        ensures
            match r {
                Ok(e) => decode(filename@, raw@) == Ok::<EntryView, ParseFailure>(e@),
                Err(err) => decode(filename@, raw@) is Err && err.is_parse_failure(
                    filename@,
                    decode(filename@, raw@)->Err_0,
                ),
            },
    {
        let text = chars_of(raw);
        let delimiter = chars_of("---");
        proof {
            reveal_strlit("---");
        }
        if !has_prefix(&text, &delimiter) {
            return Err(BrocaError::Parse(filename.to_owned(), ParseFailure::MissingHeader));
        }
        let end = match find_from(&text, &delimiter, 3) {
            Some(end) => end,
            None => {
                return Err(BrocaError::Parse(filename.to_owned(), ParseFailure::UnclosedHeader));
            },
        };
        let header = slice_of(&text, 3, 3 + end);
        let kind_text = match field_chars(&header, &chars_of("type")) {
            Some(k) => k,
            None => {
                return Err(BrocaError::Parse(filename.to_owned(), ParseFailure::MissingKind));
            },
        };
        let entry_type = match EntryType::from_chars(&kind_text) {
            Some(kind) => kind,
            None => {
                return Err(BrocaError::Parse(filename.to_owned(), ParseFailure::InvalidKind));
            },
        };
        let title = match field_chars(&header, &chars_of("title")) {
            Some(t) => string_of(&strip_chars(&t, CharClass::Exactly('"'))),
            None => filename.to_owned(),
        };
        let confidence = confidence_from(field_chars(&header, &chars_of("confidence")));
        let tags = match field_chars(&header, &chars_of("tags")) {
            Some(v) => strings_of(&tags_in_chars(&v)),
            None => Vec::new(),
        };
        let rest = slice_of(&text, end + 6, text.len());
        assert(rest@ =~= raw@.skip(end + 6));
        let content = string_of(&trim_chars(&rest));
        let created = match field_chars(&header, &chars_of("created")) {
            Some(c) => string_of(&c),
            None => String::new(),
        };
        let superseded_by = match field_chars(&header, &chars_of("superseded_by")) {
            Some(s) => Some(string_of(&s)),
            None => None,
        };
        let entry = Entry {
            filename: filename.to_owned(),
            entry_type,
            title,
            confidence,
            tags,
            content,
            created,
            superseded_by,
        };
        proof {
            assert(entry@.tags =~= tags_of(header@));
        }
        Ok(entry)
    }
}

// ---------------------------------------------------------------------------
// Writing a record
// ---------------------------------------------------------------------------

/// The lines of `ls`, each with a line feed after it.
pub open spec fn unlines(ls: Seq<Seq<char>>) -> Seq<char>
    decreases ls.len(),
{
    if ls.len() == 0 {
        Seq::<char>::empty()
    } else {
        unlines(ls.drop_last()) + ls.last().push('\n')
    }
}

/// The header lines of a new record: kind, quoted title, creation stamp and
/// confidence, then the tags where there are any.
pub open spec fn header_lines(
    kind: EntryType,
    title: Seq<char>,
    created: Seq<char>,
    confidence: Confidence,
    tags: Seq<Seq<char>>,
) -> Seq<Seq<char>> {
    let base = seq![
        "type: "@ + kind_name(kind),
        "title: \""@ + title + "\""@,
        "created: "@ + created,
        "confidence: "@ + shortest(confidence.millis as int),
    ];
    if tags.len() == 0 {
        base
    } else {
        base.push("tags: ["@ + join(tags, ", "@) + "]"@)
    }
}

/// The record of a new entry: the header between two delimiters, an empty line,
/// the body and a line feed.
pub open spec fn encode_record(
    kind: EntryType,
    title: Seq<char>,
    created: Seq<char>,
    confidence: Confidence,
    tags: Seq<Seq<char>>,
    body: Seq<char>,
) -> Seq<char> {
    "---\n"@ + unlines(header_lines(kind, title, created, confidence, tags)) + "---\n\n"@ + body
        + "\n"@
}

fn push_line(out: &mut Vec<char>, key: &str, value: &Vec<char>, close: &str)
    ensures
        final(out)@ == old(out)@ + (key@ + value@ + close@).push('\n'),
{
    let ghost start = out@;
    push_all(out, &chars_of(key));
    push_all(out, value);
    push_all(out, &chars_of(close));
    out.push('\n');
    assert(out@ =~= start + (key@ + value@ + close@).push('\n'));
}

/// Writes the record of a new entry.
pub fn encode(
    kind: EntryType,
    title: &str,
    created: &str,
    confidence: Confidence,
    tags: &[String],
    body: &str,
) -> (text: String)
    ensures
        text@ == encode_record(kind, title@, created@, confidence, string_views(tags@), body@),
{
    let ghost ls = header_lines(kind, title@, created@, confidence, string_views(tags@));
    let mut out: Vec<char> = chars_of("---\n");
    let ghost head = out@;
    let empty: Vec<char> = Vec::new();
    push_line(&mut out, "type: ", &chars_of(kind.as_str()), "");
    push_line(&mut out, "title: \"", &chars_of(title), "\"");
    push_line(&mut out, "created: ", &chars_of(created), "");
    push_line(&mut out, "confidence: ", &confidence.to_chars(), "");
    proof {
        reveal_strlit("");
        let base = ls.take(4);
        assert(base.drop_last().drop_last().drop_last().drop_last() =~= Seq::<Seq<char>>::empty());
        assert(unlines(base.drop_last().drop_last().drop_last().drop_last()) =~= Seq::<
            char,
        >::empty());
        assert(base[0] =~= "type: "@ + kind_name(kind) + ""@);
        assert(base[1] =~= "title: \""@ + title@ + "\""@);
        assert(base[2] =~= "created: "@ + created@ + ""@);
        assert(base[3] =~= "confidence: "@ + shortest(confidence.millis as int) + ""@);
        assert(unlines(base.drop_last().drop_last().drop_last()) =~= base[0].push('\n'));
        assert(unlines(base.drop_last().drop_last()) =~= base[0].push('\n') + base[1].push('\n'));
        assert(unlines(base.drop_last()) =~= base[0].push('\n') + base[1].push('\n')
            + base[2].push('\n'));
        assert(out@ =~= head + unlines(base));
    }
    if tags.len() > 0 {
        let joined = join_chars(&chars_of_string_list(tags), &chars_of(", "));
        push_line(&mut out, "tags: [", &joined, "]");
        proof {
            assert(ls.drop_last() =~= ls.take(4));
            assert(out@ =~= head + unlines(ls));
        }
    } else {
        proof {
            assert(ls =~= ls.take(4));
        }
    }
    let ghost upto = out@;
    push_all(&mut out, &chars_of("---\n\n"));
    push_all(&mut out, &chars_of(body));
    push_all(&mut out, &chars_of("\n"));
    proof {
        assert(out@ =~= encode_record(
            kind,
            title@,
            created@,
            confidence,
            string_views(tags@),
            body@,
        ));
    }
    string_of(&out)
}

} // verus!
