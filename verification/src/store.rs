//! The store: the files of a memory directory, held in memory, and the
//! operations on them.
//!
//! The files are the whole of the state. Whoever owns them on disk reads them
//! into a `Store`, calls an operation, and writes back what it changed.

use crate::clock::utc_now;
use crate::confidence::{
    tenths_chars, tenths_text, Confidence, DEFAULT_MILLIS, SUPERSEDED_MILLIS, SUPERSEDED_TENTHS,
};
use crate::entry::{
    decode, encode, encode_record, find_keyed, keyed_line, kind_of, BrocaError, Entry, EntryType,
    EntryView, ParseFailure,
};
use crate::frontmatter::{
    add_field, add_frontmatter_field, body_of, replace_field, replace_frontmatter_field, slug_of,
    slugify, strip_frontmatter,
};
use crate::order::{goes_before, ints, sort_by_keys, sorted_by, values};
use crate::search::{entry_views, is_ranking, recalled, scores_of, tokens_of, ScoredEntry};
use crate::text::{
    chars_of, contains, contains_chars, ends_with, equal_ignoring_case, find, find_in,
    first_true,
    has_suffix, lemma_first_true_is, lemma_first_true_none, lemma_lex_le_total, lex_le, lines,
    lines_of, push_all, same_chars, same_ignoring_case, slice_of, string_of, string_views, views,
};
use crate::unicode::lowercase;
use vstd::prelude::*;

verus! {

/// A file: its name and what it holds.
#[derive(Debug, Clone)]
pub struct Record {
    pub name: String,
    pub text: String,
}

pub ghost struct RecordView {
    pub name: Seq<char>,
    pub text: Seq<char>,
}

impl View for Record {
    type V = RecordView;

    open spec fn view(&self) -> RecordView {
        RecordView { name: self.name@, text: self.text@ }
    }
}

/// The views of a vector of records.
pub open spec fn record_views(v: Seq<Record>) -> Seq<RecordView> {
    Seq::new(v.len(), |i: int| v[i]@)
}

/// The files of a memory directory.
#[derive(Debug, Clone)]
pub struct Store {
    /// The files of the knowledge directory, in the order in which the directory
    /// lists them; no two have the same name.
    pub knowledge: Vec<Record>,
    /// The files of the journal directory, one for each day written on.
    pub journal: Vec<Record>,
    /// The relation log, where there is one.
    pub relations: Option<String>,
    /// The index, where one was built.
    pub index: Option<String>,
}

pub ghost struct StoreView {
    pub knowledge: Seq<RecordView>,
    pub journal: Seq<RecordView>,
    pub relations: Option<Seq<char>>,
    pub index: Option<Seq<char>>,
}

/// The view of an optional string.
pub open spec fn text_view(s: Option<String>) -> Option<Seq<char>> {
    match s {
        Some(t) => Some(t@),
        None => None,
    }
}

impl View for Store {
    type V = StoreView;

    open spec fn view(&self) -> StoreView {
        StoreView {
            knowledge: record_views(self.knowledge@),
            journal: record_views(self.journal@),
            relations: text_view(self.relations),
            index: text_view(self.index),
        }
    }
}

impl Store {
    /// A store without files.
    pub fn new() -> (store: Store)
        ensures
            store@.knowledge.len() == 0,
            store@.journal.len() == 0,
            store@.relations is None,
            store@.index is None,
    {
        Store { knowledge: Vec::new(), journal: Vec::new(), relations: None, index: None }
    }
}

// ---------------------------------------------------------------------------
// Files by name
// ---------------------------------------------------------------------------

/// The index of the record of `records` that is called `name`.
pub open spec fn position_of(records: Seq<RecordView>, name: Seq<char>) -> Option<int> {
    first_true(Seq::new(records.len(), |i: int| records[i].name == name))
}

/// `records` with the file `name` holding `text`: in place where there is such a
/// file, at the end where there is none.
pub open spec fn put(records: Seq<RecordView>, name: Seq<char>, text: Seq<char>) -> Seq<
    RecordView,
> {
    match position_of(records, name) {
        Some(i) => records.update(i, RecordView { name, text }),
        None => records.push(RecordView { name, text }),
    }
}

/// The index of the record that is called `name`.
pub fn find_record(records: &Vec<Record>, name: &str) -> (r: Option<usize>)
    ensures
        r is Some <==> position_of(record_views(records@), name@) is Some,
        r is Some ==> r->0 == position_of(record_views(records@), name@)->0 && r->0
            < records.len(),
{
    let ghost flags = Seq::new(
        records@.len(),
        |i: int| record_views(records@)[i].name == name@,
    );
    let wanted = chars_of(name);
    let mut i: usize = 0;
    while i < records.len()
        invariant
            i <= records.len(),
            wanted@ == name@,
            flags == Seq::new(records@.len(), |i: int| record_views(records@)[i].name == name@),
            forall|j: int| 0 <= j < i ==> !flags[j],
        decreases records.len() - i,
    {
        if same_chars(&chars_of(records[i].name.as_str()), &wanted) {
            proof {
                lemma_first_true_is(flags, i as int);
            }
            return Some(i);
        }
        i += 1;
    }
    proof {
        lemma_first_true_none(flags);
    }
    None
}

/// Writes the file `name`: over the file of that name where there is one, as a
/// new file where there is none.
pub fn put_record(records: &mut Vec<Record>, name: String, text: String)
    ensures
        record_views(final(records)@) == put(record_views(old(records)@), name@, text@),
{
    match find_record(records, name.as_str()) {
        Some(i) => {
            records.set(i, Record { name, text });
            assert(record_views(records@) =~= put(record_views(old(records)@), name@, text@));
        },
        None => {
            records.push(Record { name, text });
            assert(record_views(records@) =~= put(record_views(old(records)@), name@, text@));
        },
    }
}

// ---------------------------------------------------------------------------
// Loading
// ---------------------------------------------------------------------------

/// Whether a file called `name` holds a record: its name ends in `.md`, with
/// something before it.
pub open spec fn has_record_extension(name: Seq<char>) -> bool {
    name.len() > 3 && ends_with(name, ".md"@)
}

/// The entry that `record` holds, where it is a record file that can be read.
pub open spec fn entry_in(record: RecordView) -> Option<EntryView> {
    if has_record_extension(record.name) {
        match decode(record.name, record.text) {
            Ok(e) => Some(e),
            Err(_) => None,
        }
    } else {
        None
    }
}

/// The entries that the files `records` hold, in the order of the files; a file
/// that is no record file, or cannot be read, holds none.
pub open spec fn readable(records: Seq<RecordView>) -> Seq<EntryView>
    decreases records.len(),
{
    if records.len() == 0 {
        Seq::<EntryView>::empty()
    } else {
        match entry_in(records.last()) {
            Some(e) => readable(records.drop_last()).push(e),
            None => readable(records.drop_last()),
        }
    }
}

/// The file names of `entries`.
pub open spec fn names_of(entries: Seq<EntryView>) -> Seq<Seq<char>> {
    Seq::new(entries.len(), |i: int| entries[i].filename)
}

/// The entries of the store: those that its files hold, by file name in the
/// order of a dictionary.
pub open spec fn loaded(records: Seq<RecordView>) -> Seq<EntryView> {
    sorted_by::<Vec<char>, EntryView>(names_of(readable(records)), readable(records))
}

/// The complaints about the record files of `records` that cannot be read, in
/// the order of the files.
pub open spec fn failures(records: Seq<RecordView>) -> Seq<(Seq<char>, ParseFailure)>
    decreases records.len(),
{
    if records.len() == 0 {
        Seq::<(Seq<char>, ParseFailure)>::empty()
    } else {
        let r = records.last();
        if has_record_extension(r.name) && decode(r.name, r.text) is Err {
            failures(records.drop_last()).push((r.name, decode(r.name, r.text)->Err_0))
        } else {
            failures(records.drop_last())
        }
    }
}

/// Whether a file called `name` holds a record.
pub fn is_record_file(name: &str) -> (r: bool)
    ensures
        r == has_record_extension(name@),
{
    let n = chars_of(name);
    n.len() > 3 && has_suffix(&n, &chars_of(".md"))
}

/// Loads the entries of a knowledge directory, by file name in the order of a
/// dictionary. A file that cannot be read is left out.
pub fn load_all(records: &Vec<Record>) -> (entries: Vec<Entry>)
    ensures
        entry_views(entries@) == loaded(record_views(records@)),
        forall|a: int, b: int|
            0 <= a < b < entries@.len() ==> lex_le(
                (#[trigger] entries@[a]).filename@,
                (#[trigger] entries@[b]).filename@,
            ),
{
    let ghost all = record_views(records@);
    let mut entries: Vec<Entry> = Vec::new();
    let mut keys: Vec<Vec<char>> = Vec::new();
    let mut i: usize = 0;
    assert(all.take(0) =~= Seq::<RecordView>::empty());
    while i < records.len()
        invariant
            i <= records.len(),
            all == record_views(records@),
            keys.len() == entries.len(),
            entry_views(entries@) == readable(all.take(i as int)),
            forall|k: int| 0 <= k < keys.len() ==> (#[trigger] keys@[k])@ == entries@[k].filename@,
        decreases records.len() - i,
    {
        let record = &records[i];
        let ghost before = entry_views(entries@);
        proof {
            assert(all.take(i + 1).drop_last() =~= all.take(i as int));
            assert(all.take(i + 1).last() == record@);
        }
        if is_record_file(record.name.as_str()) {
            match Entry::parse(record.name.as_str(), record.text.as_str()) {
                Ok(entry) => {
                    keys.push(chars_of(entry.filename.as_str()));
                    entries.push(entry);
                    proof {
                        assert(entry_views(entries@) =~= before.push(entry@));
                    }
                },
                Err(_) => {},
            }
        }
        i += 1;
    }
    proof {
        assert(all.take(all.len() as int) =~= all);
    }
    let ghost unsorted = entries@;
    let order = sort_by_keys(&keys, &mut entries);
    proof {
        let names = names_of(readable(all));
        assert(values(keys@) =~= names);
        assert(entry_views(entries@) =~= loaded(all));
        let o = ints(order@);
        assert forall|a: int, b: int| 0 <= a < b < entries@.len() implies lex_le(
            (#[trigger] entries@[a]).filename@,
            (#[trigger] entries@[b]).filename@,
        ) by {
            assert(goes_before::<Vec<char>>(names, o[a], o[b]));
            assert(entries@[a] == unsorted[o[a]]);
            assert(entries@[b] == unsorted[o[b]]);
            assert(names[o[a]] == unsorted[o[a]].filename@);
            assert(names[o[b]] == unsorted[o[b]].filename@);
            lemma_lex_le_total(names[o[a]], names[o[b]]);
        }
    }
    entries
}

/// The complaints about the record files that `load_all` leaves out.
pub fn load_failures(records: &Vec<Record>) -> (errors: Vec<BrocaError>)
    ensures
        errors@.len() == failures(record_views(records@)).len(),
        forall|k: int|
            0 <= k < errors@.len() ==> (#[trigger] errors@[k]).is_parse_failure(
                failures(record_views(records@))[k].0,
                failures(record_views(records@))[k].1,
            ),
{
    let ghost all = record_views(records@);
    let mut errors: Vec<BrocaError> = Vec::new();
    let mut i: usize = 0;
    assert(all.take(0) =~= Seq::<RecordView>::empty());
    while i < records.len()
        invariant
            i <= records.len(),
            all == record_views(records@),
            errors@.len() == failures(all.take(i as int)).len(),
            forall|k: int|
                0 <= k < errors@.len() ==> (#[trigger] errors@[k]).is_parse_failure(
                    failures(all.take(i as int))[k].0,
                    failures(all.take(i as int))[k].1,
                ),
        decreases records.len() - i,
    {
        let record = &records[i];
        proof {
            assert(all.take(i + 1).drop_last() =~= all.take(i as int));
            assert(all.take(i + 1).last() == record@);
        }
        if is_record_file(record.name.as_str()) {
            match Entry::parse(record.name.as_str(), record.text.as_str()) {
                Ok(_) => {},
                Err(e) => {
                    errors.push(e);
                },
            }
        }
        i += 1;
    }
    proof {
        assert(all.take(all.len() as int) =~= all);
    }
    errors
}

// ---------------------------------------------------------------------------
// Lookup by part of a name
// ---------------------------------------------------------------------------

/// The index of the first of `names` that holds `needle`.
pub open spec fn first_containing(names: Seq<Seq<char>>, needle: Seq<char>) -> Option<int> {
    first_true(Seq::new(names.len(), |i: int| contains(names[i], needle)))
}

/// The names of `records`, in lowercase.
pub open spec fn lowered_names(records: Seq<RecordView>) -> Seq<Seq<char>> {
    Seq::new(records.len(), |i: int| lowercase(records[i].name))
}

/// The index of the file that `name` stands for: the first, in the order of the
/// files, whose name holds `name`, both taken in lowercase.
pub open spec fn lookup(records: Seq<RecordView>, name: Seq<char>) -> Option<int> {
    first_containing(lowered_names(records), lowercase(name))
}

/// The index of the first of `names` that holds `needle`.
pub fn find_containing(names: &Vec<Vec<char>>, needle: &Vec<char>) -> (r: Option<usize>)
    ensures
        r is Some <==> first_containing(views(names@), needle@) is Some,
        r is Some ==> r->0 == first_containing(views(names@), needle@)->0 && r->0
            < names.len(),
{
    let ghost all = views(names@);
    let ghost flags = Seq::new(all.len(), |i: int| contains(all[i], needle@));
    let mut i: usize = 0;
    while i < names.len()
        invariant
            i <= names.len(),
            all == views(names@),
            flags == Seq::new(all.len(), |i: int| contains(all[i], needle@)),
            forall|j: int| 0 <= j < i ==> !flags[j],
        decreases names.len() - i,
    {
        if contains_chars(&names[i], needle) {
            proof {
                lemma_first_true_is(flags, i as int);
            }
            return Some(i);
        }
        i += 1;
    }
    proof {
        lemma_first_true_none(flags);
    }
    None
}

/// Finds an entry by part of its name, whatever the case of the letters: the
/// index of the first file, in the order of the files, whose name holds `name`.
pub fn find_entry_by_name(records: &Vec<Record>, name: &str) -> (r: Option<usize>)
    ensures
        r is Some <==> lookup(record_views(records@), name@) is Some,
        r is Some ==> r->0 == lookup(record_views(records@), name@)->0 && r->0 < records.len(),
{
    let needle = chars_of(name.to_lowercase().as_str());
    let mut names: Vec<Vec<char>> = Vec::new();
    let mut i: usize = 0;
    while i < records.len()
        invariant
            i <= records.len(),
            names.len() == i,
            forall|k: int| 0 <= k < i ==> (#[trigger] names@[k])@ == lowercase(records@[k].name@),
        decreases records.len() - i,
    {
        names.push(chars_of(records[i].name.to_lowercase().as_str()));
        i += 1;
    }
    assert(views(names@) =~= lowered_names(record_views(records@)));
    find_containing(&names, &needle)
}

// ---------------------------------------------------------------------------
// Remember
// ---------------------------------------------------------------------------

/// The name of the file of an entry made at `stamp` under `title`.
pub open spec fn record_name(stamp: Seq<char>, title: Seq<char>) -> Seq<char> {
    stamp + "-"@ + slug_of(title) + ".md"@
}

/// `after` is `before` with one more entry, made at `stamp` and kept in the file
/// `name`: of the given kind, title, body and tags, at the default confidence.
pub open spec fn remembered(
    before: StoreView,
    after: StoreView,
    name: Seq<char>,
    kind: EntryType,
    title: Seq<char>,
    content: Seq<char>,
    tags: Seq<Seq<char>>,
    stamp: Seq<char>,
) -> bool {
    &&& name == record_name(stamp, title)
    &&& after == StoreView {
        knowledge: put(
            before.knowledge,
            name,
            encode_record(kind, title, stamp, Confidence { millis: DEFAULT_MILLIS }, tags, content),
        ),
        journal: before.journal,
        relations: before.relations,
        index: before.index,
    }
}

/// `after` is `before` with one more entry, made at some time and kept in the
/// file `name`.
pub open spec fn remembered_once(
    before: StoreView,
    after: StoreView,
    name: Seq<char>,
    kind: EntryType,
    title: Seq<char>,
    content: Seq<char>,
    tags: Seq<Seq<char>>,
) -> bool {
    exists|stamp: Seq<char>| remembered(before, after, name, kind, title, content, tags, stamp)
}

/// Stores a new entry made at `stamp`, and returns the name of its file. A file
/// of that name is written over.
pub fn remember_at(
    store: &mut Store,
    kind: EntryType,
    title: &str,
    content: &str,
    tags: &[String],
    stamp: &str,
) -> (name: String)
    ensures
        remembered(
            old(store)@,
            final(store)@,
            name@,
            kind,
            title@,
            content@,
            string_views(tags@),
            stamp@,
        ),
{
    let mut name = stamp.to_owned();
    name.append("-");
    name.append(slugify(title).as_str());
    name.append(".md");
    let text = encode(kind, title, stamp, Confidence::from_millis(DEFAULT_MILLIS), tags, content);
    put_record(&mut store.knowledge, name.clone(), text);
    name
}

/// Stores a new entry, made now, and returns the name of its file.
///
/// `entry_type` must name a kind of entry; if it names none, nothing is stored.
/// The file is named after the second of the clock and the title: an entry
/// remembered under the same title within the same second takes the place of
/// the first.
pub fn remember(
    store: &mut Store,
    entry_type: &str,
    title: &str,
    content: &str,
    tags: &[String],
) -> (r: Result<String, BrocaError>)
    ensures
        r is Ok <==> kind_of(entry_type@) is Some,
        r is Ok ==> remembered_once(
            old(store)@,
            final(store)@,
            r->Ok_0@,
            kind_of(entry_type@)->0,
            title@,
            content@,
            string_views(tags@),
        ),
        r is Err ==> r->Err_0.is_invalid_argument(entry_type@) && final(store)@ == old(store)@,
{
    let kind = match EntryType::from_name(entry_type) {
        Some(kind) => kind,
        None => {
            return Err(BrocaError::InvalidArgument(entry_type.to_owned()));
        },
    };
    let stamp = utc_now("%Y%m%d-%H%M%S");
    let name = remember_at(store, kind, title, content, tags, stamp.as_str());
    assert(remembered(
        old(store)@,
        store@,
        name@,
        kind_of(entry_type@)->0,
        title@,
        content@,
        string_views(tags@),
        stamp@,
    ));
    Ok(name)
}

// ---------------------------------------------------------------------------
// Recall, show, search by tag
// ---------------------------------------------------------------------------

/// Searches the entries of the store for `query` and returns the `limit` best,
/// best first.
pub fn recall(store: &Store, query: &str, limit: usize) -> (results: Vec<ScoredEntry>)
    ensures
        results@.len() == recalled(loaded(store@.knowledge), query@, limit as nat).len(),
        forall|k: int|
            0 <= k < results@.len() ==> (#[trigger] results@[k]).shows(
                loaded(store@.knowledge)[recalled(
                    loaded(store@.knowledge),
                    query@,
                    limit as nat,
                )[k]],
                scores_of(loaded(store@.knowledge), tokens_of(query@))[recalled(
                    loaded(store@.knowledge),
                    query@,
                    limit as nat,
                )[k]],
            ),
        is_ranking(
            scores_of(loaded(store@.knowledge), tokens_of(query@)),
            limit as nat,
            recalled(loaded(store@.knowledge), query@, limit as nat),
        ),
        tokens_of(query@).len() == 0 ==> results@.len() == 0,
        results@.len() <= limit,
{
    let entries = load_all(&store.knowledge);
    let results = crate::search::recall(&entries, query, limit);
    proof {
        let picked = recalled(loaded(store@.knowledge), query@, limit as nat);
        assert forall|k: int| 0 <= k < results@.len() implies 0 <= picked[k] < entries@.len()
            && entries@[picked[k]]@ == loaded(store@.knowledge)[picked[k]] by {
            assert(entry_views(entries@)[picked[k]] == entries@[picked[k]]@);
        }
    }
    results
}

/// The index of the file that `name` stands for when an entry is shown: the file
/// called `name`, or else the first whose name holds `name`.
pub open spec fn shown(records: Seq<RecordView>, name: Seq<char>) -> Option<int> {
    match position_of(records, name) {
        Some(i) => Some(i),
        None => lookup(records, name),
    }
}

/// Shows an entry: the body of its record, without the header.
pub fn show(store: &Store, entry_name: &str) -> (r: Result<String, BrocaError>)
    ensures
        match r {
            Ok(text) => shown(store@.knowledge, entry_name@) is Some && text@ == body_of(
                store@.knowledge[shown(store@.knowledge, entry_name@)->0].text,
            ),
            Err(e) => shown(store@.knowledge, entry_name@) is None && e.is_not_found(entry_name@),
        },
{
    let at = match find_record(&store.knowledge, entry_name) {
        Some(i) => Some(i),
        None => find_entry_by_name(&store.knowledge, entry_name),
    };
    match at {
        Some(i) => {
            assert(store@.knowledge[i as int] == store.knowledge@[i as int]@);
            Ok(strip_frontmatter(store.knowledge[i].text.as_str()))
        },
        None => Err(BrocaError::NotFound(entry_name.to_owned())),
    }
}

/// Whether one of `tags` is `tag`, whatever the case of the letters `A` to `Z`.
pub open spec fn has_tag(tags: Seq<Seq<char>>, tag: Seq<char>) -> bool {
    exists|i: int| 0 <= i < tags.len() && same_ignoring_case(#[trigger] tags[i], tag)
}

/// The members of `entries` that carry `tag`, in their order.
pub open spec fn tagged(entries: Seq<EntryView>, tag: Seq<char>) -> Seq<EntryView>
    decreases entries.len(),
{
    if entries.len() == 0 {
        Seq::<EntryView>::empty()
    } else if has_tag(entries.last().tags, tag) {
        tagged(entries.drop_last(), tag).push(entries.last())
    } else {
        tagged(entries.drop_last(), tag)
    }
}

/// Whether `entry` carries `tag`.
pub fn carries_tag(entry: &Entry, tag: &Vec<char>) -> (r: bool)
    ensures
        r == has_tag(entry@.tags, tag@),
{
    let mut i: usize = 0;
    while i < entry.tags.len()
        invariant
            i <= entry.tags.len(),
            forall|k: int| 0 <= k < i ==> !same_ignoring_case(#[trigger] entry@.tags[k], tag@),
        decreases entry.tags.len() - i,
    {
        assert(entry@.tags[i as int] == entry.tags@[i as int]@);
        if equal_ignoring_case(&chars_of(entry.tags[i].as_str()), tag) {
            return true;
        }
        i += 1;
    }
    false
}

/// Searches the entries of the store by tag.
pub fn search_tag(store: &Store, tag: &str) -> (found: Vec<Entry>)
    ensures
        entry_views(found@) == tagged(loaded(store@.knowledge), tag@),
{
    let entries = load_all(&store.knowledge);
    let wanted = chars_of(tag);
    let ghost all = entry_views(entries@);
    let mut found: Vec<Entry> = Vec::new();
    assert(all.take(0) =~= Seq::<EntryView>::empty());
    for entry in it: entries
        invariant
            all == entry_views(it.seq()),
            wanted@ == tag@,
            entry_views(found@) == tagged(all.take(it.index() as int), tag@),
    {
        let ghost k = it.index() as int;
        let ghost before = entry_views(found@);
        proof {
            assert(all.take(k + 1).drop_last() =~= all.take(k));
            assert(all.take(k + 1).last() == entry@);
        }
        if carries_tag(&entry, &wanted) {
            found.push(entry);
            proof {
                assert(entry_views(found@) =~= before.push(entry@));
            }
        }
    }
    proof {
        assert(all.take(all.len() as int) =~= all);
    }
    found
}

// ---------------------------------------------------------------------------
// Journal
// ---------------------------------------------------------------------------

/// What the file `name` of `records` holds, where there is such a file.
pub open spec fn text_at(records: Seq<RecordView>, name: Seq<char>) -> Option<Seq<char>> {
    match position_of(records, name) {
        Some(i) => Some(records[i].text),
        None => None,
    }
}

/// The journal of a day once `content` is written into it at `time`: a new
/// section after what the day's file held, or the day's title and a first
/// section.
pub open spec fn journal_text(
    existing: Option<Seq<char>>,
    date: Seq<char>,
    time: Seq<char>,
    content: Seq<char>,
) -> Seq<char> {
    match existing {
        Some(text) => text + "\n## "@ + time + "\n\n"@ + content + "\n"@,
        None => "# Journal \u{2014} "@ + date + "\n\n## "@ + time + "\n\n"@ + content + "\n"@,
    }
}

/// `after` is `before` with `content` written into the journal of the day
/// `date` at `time`; `name` is the file of that day.
pub open spec fn journaled(
    before: StoreView,
    after: StoreView,
    name: Seq<char>,
    content: Seq<char>,
    date: Seq<char>,
    time: Seq<char>,
) -> bool {
    &&& name == date + ".md"@
    &&& after == StoreView {
        knowledge: before.knowledge,
        journal: put(
            before.journal,
            name,
            journal_text(text_at(before.journal, name), date, time, content),
        ),
        relations: before.relations,
        index: before.index,
    }
}

/// The day of the stamp `now`: what stands before its first space, or all of
/// it where it holds none.
pub open spec fn day_of(now: Seq<char>) -> Seq<char> {
    match find(now, " "@) {
        Some(i) => now.subrange(0, i),
        None => now,
    }
}

/// The time of day of the stamp `now`: what stands after its first space, or
/// nothing where it holds none.
pub open spec fn time_of(now: Seq<char>) -> Seq<char> {
    match find(now, " "@) {
        Some(i) => now.subrange(i + 1, now.len() as int),
        None => Seq::<char>::empty(),
    }
}

/// `after` is `before` with `content` written into the journal under one
/// stamp: into the file of the stamp's day, in a section headed by its time.
pub open spec fn journaled_once(
    before: StoreView,
    after: StoreView,
    name: Seq<char>,
    content: Seq<char>,
) -> bool {
    exists|now: Seq<char>| journaled(before, after, name, content, day_of(now), time_of(now))
}

/// Writes `content` into the journal of the day `date`, in a section headed by
/// `time`, and returns the name of the day's file.
pub fn journal_at(store: &mut Store, content: &str, date: &str, time: &str) -> (name: String)
    ensures
        journaled(old(store)@, final(store)@, name@, content@, date@, time@),
{
    let mut name = date.to_owned();
    name.append(".md");
    let at = find_record(&store.journal, name.as_str());
    let mut text: Vec<char> = Vec::new();
    match at {
        Some(i) => {
            assert(store@.journal[i as int] == store.journal@[i as int]@);
            push_all(&mut text, &chars_of(store.journal[i].text.as_str()));
        },
        None => {
            push_all(&mut text, &chars_of("# Journal \u{2014} "));
            push_all(&mut text, &chars_of(date));
            push_all(&mut text, &chars_of("\n"));
        },
    }
    push_all(&mut text, &chars_of("\n## "));
    push_all(&mut text, &chars_of(time));
    push_all(&mut text, &chars_of("\n\n"));
    push_all(&mut text, &chars_of(content));
    push_all(&mut text, &chars_of("\n"));
    proof {
        reveal_strlit("\n");
        reveal_strlit("\n## ");
        reveal_strlit("\n\n## ");
        assert("\n"@ + "\n## "@ =~= "\n\n## "@);
        assert(text@ =~= journal_text(
            text_at(old(store)@.journal, name@),
            date@,
            time@,
            content@,
        ));
    }
    put_record(&mut store.journal, name.clone(), string_of(&text));
    name
}

/// Writes `content` into the journal under the stamp `now`, a day and a time
/// of day with a space between them: into the file of that day, in a section
/// headed by that time. Returns the name of the day's file.
pub fn journal_stamped(store: &mut Store, content: &str, now: &str) -> (name: String)
    ensures
        journaled(old(store)@, final(store)@, name@, content@, day_of(now@), time_of(now@)),
{
    let now = chars_of(now);
    proof {
        reveal_strlit(" ");
    }
    let (date, time) = match find_in(&now, &chars_of(" ")) {
        Some(i) => (slice_of(&now, 0, i), slice_of(&now, i + 1, now.len())),
        None => (slice_of(&now, 0, now.len()), Vec::new()),
    };
    assert(date@ =~= day_of(now@));
    assert(time@ =~= time_of(now@));
    let date = string_of(&date);
    let time = string_of(&time);
    journal_at(store, content, date.as_str(), time.as_str())
}

/// Writes `content` into today's journal, in a section headed by the time of
/// day, and returns the name of the day's file: the clock is read once, and
/// its stamp says both the day and the time.
pub fn journal(store: &mut Store, content: &str) -> (name: String)
    ensures
        journaled_once(old(store)@, final(store)@, name@, content@),
{
    let now = utc_now("%Y-%m-%d %H:%M");
    let name = journal_stamped(store, content, now.as_str());
    assert(journaled(old(store)@, store@, name@, content@, day_of(now@), time_of(now@)));
    name
}

// ---------------------------------------------------------------------------
// Changing an entry
// ---------------------------------------------------------------------------

/// `records` with the text of the file at `i` replaced by `text`.
pub open spec fn rewritten(records: Seq<RecordView>, i: int, text: Seq<char>) -> Seq<RecordView> {
    records.update(i, RecordView { name: records[i].name, text })
}

fn rewrite(records: &mut Vec<Record>, i: usize, text: String)
    requires
        i < old(records).len(),
    ensures
        record_views(final(records)@) == rewritten(record_views(old(records)@), i as int, text@),
{
    let name = records[i].name.clone();
    records.set(i, Record { name, text });
    assert(record_views(records@) =~= rewritten(record_views(old(records)@), i as int, text@));
}

/// Sets the confidence of the entry that `entry_name` stands for to `tenths`
/// tenths, written with one digit after the point, and returns the name of
/// its file. Only the line that holds the confidence changes; a record
/// without one stays as it is. Nothing is rounded here: a confidence that is
/// given more finely is brought to tenths by the caller.
pub fn update_confidence(store: &mut Store, entry_name: &str, tenths: i64) -> (r: Result<
    String,
    BrocaError,
>)
    ensures
        r is Ok <==> lookup(old(store)@.knowledge, entry_name@) is Some,
        r is Ok ==> ({
            let i = lookup(old(store)@.knowledge, entry_name@)->0;
            let record = old(store)@.knowledge[i];
            &&& r->Ok_0@ == record.name
            &&& final(store)@ == StoreView {
                knowledge: rewritten(
                    old(store)@.knowledge,
                    i,
                    replace_field(
                        record.text,
                        "confidence"@,
                        tenths_text(tenths as int),
                    ),
                ),
                journal: old(store)@.journal,
                relations: old(store)@.relations,
                index: old(store)@.index,
            }
        }),
        r is Err ==> r->Err_0.is_not_found(entry_name@) && final(store)@ == old(store)@,
{
    let i = match find_entry_by_name(&store.knowledge, entry_name) {
        Some(i) => i,
        None => {
            return Err(BrocaError::NotFound(entry_name.to_owned()));
        },
    };
    assert(store@.knowledge[i as int] == store.knowledge@[i as int]@);
    let value = string_of(&tenths_chars(tenths));
    let updated = replace_frontmatter_field(
        store.knowledge[i].text.as_str(),
        "confidence",
        value.as_str(),
    );
    let name = store.knowledge[i].name.clone();
    rewrite(&mut store.knowledge, i, updated);
    Ok(name)
}

/// `text` with the field `key` set to `value`: in the line that holds it, or in
/// a new line before the closing delimiter where no line does.
pub open spec fn set_field(text: Seq<char>, key: Seq<char>, value: Seq<char>) -> Seq<char> {
    if keyed_line(lines(text), key) is Some {
        replace_field(text, key, value)
    } else {
        add_field(text, key, value)
    }
}

/// The record `text` once its entry is superseded by the entry of the file
/// `by`: with the name of that file as `superseded_by`, and the confidence
/// brought down to 0.3.
pub open spec fn superseded(text: Seq<char>, by: Seq<char>) -> Seq<char> {
    set_field(
        set_field(text, "superseded_by"@, by),
        "confidence"@,
        tenths_text(SUPERSEDED_TENTHS as int),
    )
}

/// The store once the entry of the file at `i` is superseded by the entry of
/// the file at `j`: the record of the first is rewritten, and names the
/// second by the name of its file.
pub open spec fn with_superseded(store: StoreView, i: int, j: int) -> StoreView {
    StoreView {
        knowledge: rewritten(
            store.knowledge,
            i,
            superseded(store.knowledge[i].text, store.knowledge[j].name),
        ),
        journal: store.journal,
        relations: store.relations,
        index: store.index,
    }
}

/// Sets a header field, in its line or in a new one.
pub fn set_frontmatter_field(content: &str, key: &str, value: &str) -> (out: String)
    ensures
        out@ == set_field(content@, key@, value@),
{
    let ls = lines_of(&chars_of(content));
    match find_keyed(&ls, &chars_of(key)) {
        Some(_) => replace_frontmatter_field(content, key, value),
        None => add_frontmatter_field(content, key, value),
    }
}

/// Marks the entry that `old_entry` stands for as superseded by the one that
/// `new_entry` stands for, and returns the name of its file. The record is
/// rewritten once, with both the link and the lowered confidence.
pub fn supersede(store: &mut Store, old_entry: &str, new_entry: &str) -> (r: Result<
    String,
    BrocaError,
>)
    ensures
        r is Ok <==> lookup(old(store)@.knowledge, old_entry@) is Some && lookup(
            old(store)@.knowledge,
            new_entry@,
        ) is Some,
        r is Ok ==> ({
            let i = lookup(old(store)@.knowledge, old_entry@)->0;
            let j = lookup(old(store)@.knowledge, new_entry@)->0;
            &&& r->Ok_0@ == old(store)@.knowledge[i].name
            &&& final(store)@ == with_superseded(old(store)@, i, j)
        }),
        r is Err ==> final(store)@ == old(store)@ && r->Err_0.is_not_found(
            if lookup(old(store)@.knowledge, old_entry@) is None {
                old_entry@
            } else {
                new_entry@
            },
        ),
{
    let i = match find_entry_by_name(&store.knowledge, old_entry) {
        Some(i) => i,
        None => {
            return Err(BrocaError::NotFound(old_entry.to_owned()));
        },
    };
    let j = match find_entry_by_name(&store.knowledge, new_entry) {
        Some(j) => j,
        None => {
            return Err(BrocaError::NotFound(new_entry.to_owned()));
        },
    };
    assert(store@.knowledge[i as int] == store.knowledge@[i as int]@);
    assert(store@.knowledge[j as int] == store.knowledge@[j as int]@);
    let linked = set_frontmatter_field(
        store.knowledge[i].text.as_str(),
        "superseded_by",
        store.knowledge[j].name.as_str(),
    );
    let lowered = string_of(&tenths_chars(SUPERSEDED_TENTHS));
    let updated = set_frontmatter_field(linked.as_str(), "confidence", lowered.as_str());
    let name = store.knowledge[i].name.clone();
    rewrite(&mut store.knowledge, i, updated);
    Ok(name)
}

// ---------------------------------------------------------------------------
// Relations
// ---------------------------------------------------------------------------

/// The line that says that `from` stands in the relation `kind` to `to`.
pub open spec fn relation_line(from: Seq<char>, kind: Seq<char>, to: Seq<char>) -> Seq<char> {
    from + " --["@ + kind + "]--> "@ + to
}

/// The relation log once `line` is recorded: as it was where one of its lines
/// is `line`; with `line` at the end where none is; a heading and `line` where
/// there was no log.
pub open spec fn related_log(existing: Option<Seq<char>>, line: Seq<char>) -> Seq<char> {
    match existing {
        Some(log) => if lines(log).contains(line) {
            log
        } else {
            log + line + "\n"@
        },
        None => "# Broca Relations\n\n"@ + line + "\n"@,
    }
}

/// The store once it is recorded that the file at `i` stands in the relation
/// `kind` to the file at `j`.
pub open spec fn with_relation(store: StoreView, i: int, j: int, kind: Seq<char>) -> StoreView {
    StoreView {
        knowledge: store.knowledge,
        journal: store.journal,
        relations: Some(
            related_log(
                store.relations,
                relation_line(store.knowledge[i].name, kind, store.knowledge[j].name),
            ),
        ),
        index: store.index,
    }
}

/// Whether one of `ls` is `line`.
fn has_line(ls: &Vec<Vec<char>>, line: &Vec<char>) -> (r: bool)
    ensures
        r == views(ls@).contains(line@),
{
    let mut i: usize = 0;
    while i < ls.len()
        invariant
            i <= ls.len(),
            forall|k: int| 0 <= k < i ==> views(ls@)[k] != line@,
        decreases ls.len() - i,
    {
        if same_chars(&ls[i], line) {
            assert(views(ls@)[i as int] == line@);
            return true;
        }
        i += 1;
    }
    false
}

/// Records in the log `existing` that `from` stands in the relation `kind` to
/// `to`, and returns the log.
pub fn relate_in(existing: Option<&str>, from: &str, kind: &str, to: &str) -> (log: String)
    ensures
        log@ == related_log(
            match existing {
                Some(t) => Some(t@),
                None => None,
            },
            relation_line(from@, kind@, to@),
        ),
{
    let mut line = chars_of(from);
    push_all(&mut line, &chars_of(" --["));
    push_all(&mut line, &chars_of(kind));
    push_all(&mut line, &chars_of("]--> "));
    push_all(&mut line, &chars_of(to));
    assert(line@ =~= relation_line(from@, kind@, to@));
    match existing {
        Some(text) => {
            let mut log = chars_of(text);
            if !has_line(&lines_of(&log), &line) {
                push_all(&mut log, &line);
                push_all(&mut log, &chars_of("\n"));
            }
            string_of(&log)
        },
        None => {
            let mut log = chars_of("# Broca Relations\n\n");
            push_all(&mut log, &line);
            push_all(&mut log, &chars_of("\n"));
            string_of(&log)
        },
    }
}

/// Adds a relation between the entries that `entry_a` and `entry_b` stand for:
/// a line of the relation log, under the names of their files. A relation that
/// the log holds is not added again.
pub fn relate(store: &mut Store, entry_a: &str, entry_b: &str, relation_type: &str) -> (r: Result<
    (),
    BrocaError,
>)
    ensures
        r is Ok <==> lookup(old(store)@.knowledge, entry_a@) is Some && lookup(
            old(store)@.knowledge,
            entry_b@,
        ) is Some,
        r is Ok ==> ({
            let i = lookup(old(store)@.knowledge, entry_a@)->0;
            let j = lookup(old(store)@.knowledge, entry_b@)->0;
            final(store)@ == with_relation(old(store)@, i, j, relation_type@)
        }),
        r is Err ==> final(store)@ == old(store)@ && r->Err_0.is_not_found(
            if lookup(old(store)@.knowledge, entry_a@) is None {
                entry_a@
            } else {
                entry_b@
            },
        ),
{
    let i = match find_entry_by_name(&store.knowledge, entry_a) {
        Some(i) => i,
        None => {
            return Err(BrocaError::NotFound(entry_a.to_owned()));
        },
    };
    let j = match find_entry_by_name(&store.knowledge, entry_b) {
        Some(j) => j,
        None => {
            return Err(BrocaError::NotFound(entry_b.to_owned()));
        },
    };
    assert(store@.knowledge[i as int] == store.knowledge@[i as int]@);
    assert(store@.knowledge[j as int] == store.knowledge@[j as int]@);
    let log = relate_in(
        match &store.relations {
            Some(t) => Some(t.as_str()),
            None => None,
        },
        store.knowledge[i].name.as_str(),
        relation_type,
        store.knowledge[j].name.as_str(),
    );
    store.relations = Some(log);
    Ok(())
}

} // verus!
