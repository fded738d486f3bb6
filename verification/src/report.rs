//! Summaries of the store: its statistics and its index.

use crate::clock::utc_now;
use crate::confidence::{magnitude, one_decimal};
use crate::entry::{kind_name, Entry, EntryType, EntryView};
use crate::number::{decimal, digit_char, digit_of_value, digits_of};
use crate::order::ints;
use crate::search::{entry_views, is_ranking, rank, ranking};
use crate::wide::{amounts, Wide};
use crate::store::{
    has_record_extension, is_record_file, load_all, loaded, record_views, Record, RecordView, Store,
    StoreView,
};
use crate::text::{chars_of, chars_of_string_list, join, join_chars, push_all, string_of};
use vstd::prelude::*;

verus! {

// ---------------------------------------------------------------------------
// Statistics
// ---------------------------------------------------------------------------

/// The kinds of entry, in the order in which they are listed.
pub open spec fn kind_at(i: int) -> EntryType {
    if i == 0 {
        EntryType::Fact
    } else if i == 1 {
        EntryType::Decision
    } else if i == 2 {
        EntryType::Observation
    } else if i == 3 {
        EntryType::Error
    } else {
        EntryType::Procedure
    }
}

/// How many of `entries` are of the kind `kind`.
pub open spec fn count_kind(entries: Seq<EntryView>, kind: EntryType) -> nat
    decreases entries.len(),
{
    if entries.len() == 0 {
        0
    } else if entries.last().entry_type == kind {
        count_kind(entries.drop_last(), kind) + 1
    } else {
        count_kind(entries.drop_last(), kind)
    }
}

/// How many of `entries` are of each kind, the kinds in their order.
pub open spec fn kind_counts(entries: Seq<EntryView>) -> Seq<nat> {
    Seq::new(5, |i: int| count_kind(entries, kind_at(i)))
}

/// The sum of the confidences of `entries`, in thousandths.
pub open spec fn sum_millis(entries: Seq<EntryView>) -> int
    decreases entries.len(),
{
    if entries.len() == 0 {
        0
    } else {
        sum_millis(entries.drop_last()) + entries.last().confidence.millis
    }
}

/// How many of `records` are record files.
pub open spec fn record_files(records: Seq<RecordView>) -> nat
    decreases records.len(),
{
    if records.len() == 0 {
        0
    } else if has_record_extension(records.last().name) {
        record_files(records.drop_last()) + 1
    } else {
        record_files(records.drop_last())
    }
}

/// `a` over `b`, rounded to the nearest whole number and, halfway between two,
/// to the even one.
pub open spec fn rounded_div(a: nat, b: nat) -> nat {
    let q = a / b;
    let r = a % b;
    if 2 * r > b || (2 * r == b && q % 2 == 1) {
        q + 1
    } else {
        q
    }
}

/// `h` hundredths with two digits after the point.
pub open spec fn two_decimals(h: nat) -> Seq<char> {
    decimal(h / 100) + seq!['.', digit_char(h / 10 % 10), digit_char(h % 10)]
}

/// The mean confidence of `entries`, rounded to hundredths; zero for none.
pub open spec fn average_text(entries: Seq<EntryView>) -> Seq<char> {
    if entries.len() == 0 {
        two_decimals(0)
    } else {
        let sum = sum_millis(entries);
        let sign = if sum < 0 {
            seq!['-']
        } else {
            Seq::<char>::empty()
        };
        sign + two_decimals(rounded_div(magnitude(sum), 10 * entries.len()))
    }
}

/// The lines that give the number of entries of each of the kinds `picked`.
pub open spec fn type_lines(counts: Seq<nat>, picked: Seq<int>) -> Seq<char>
    decreases picked.len(),
{
    if picked.len() == 0 {
        Seq::<char>::empty()
    } else {
        type_lines(counts, picked.drop_last()) + "- "@ + kind_name(kind_at(picked.last()))
            + ": "@ + decimal(counts[picked.last()]) + "\n"@
    }
}

/// The statistics of a store with the entries `entries` and `days` journal
/// files: the number of entries, the number of journal days, the mean
/// confidence, and the number of entries of each kind that occurs, the most
/// frequent first.
pub open spec fn stats_text(entries: Seq<EntryView>, days: nat) -> Seq<char> {
    "# Broca Memory Stats\n\nTotal entries: "@ + decimal(entries.len()) + "\nJournal days: "@
        + decimal(days) + "\nAverage confidence: "@ + average_text(entries) + "\n\n## By Type\n"@
        + type_lines(kind_counts(entries), ranking(kind_counts(entries), 5))
}

fn kind_index(kind: EntryType) -> (i: usize)
    ensures
        i < 5,
        kind_at(i as int) == kind,
{
    match kind {
        EntryType::Fact => 0,
        EntryType::Decision => 1,
        EntryType::Observation => 2,
        EntryType::Error => 3,
        EntryType::Procedure => 4,
    }
}

fn kind_of_index(i: usize) -> (kind: EntryType)
    ensures
        kind == kind_at(i as int),
{
    if i == 0 {
        EntryType::Fact
    } else if i == 1 {
        EntryType::Decision
    } else if i == 2 {
        EntryType::Observation
    } else if i == 3 {
        EntryType::Error
    } else {
        EntryType::Procedure
    }
}

proof fn lemma_count_kind_bound(entries: Seq<EntryView>, kind: EntryType)
    ensures
        count_kind(entries, kind) <= entries.len(),
    decreases entries.len(),
{
    if entries.len() > 0 {
        lemma_count_kind_bound(entries.drop_last(), kind);
    }
}

/// How many of `entries` are of each kind.
fn count_kinds(entries: &Vec<Entry>) -> (counts: Vec<u64>)
    ensures
        counts.len() == 5,
        forall|j: int| 0 <= j < 5 ==> counts@[j] == kind_counts(entry_views(entries@))[j],
{
    let ghost all = entry_views(entries@);
    let mut counts: Vec<u64> = Vec::new();
    let mut k: usize = 0;
    while k < 5
        invariant
            k <= 5,
            counts.len() == k,
            forall|j: int| 0 <= j < k ==> counts@[j] == 0,
        decreases 5 - k,
    {
        counts.push(0);
        k += 1;
    }
    let mut i: usize = 0;
    assert(all.take(0) =~= Seq::<EntryView>::empty());
    while i < entries.len()
        invariant
            i <= entries.len(),
            all == entry_views(entries@),
            counts.len() == 5,
            forall|j: int| 0 <= j < 5 ==> counts@[j] == count_kind(all.take(i as int), kind_at(j)),
        decreases entries.len() - i,
    {
        let at = kind_index(entries[i].entry_type);
        proof {
            assert(all.take(i + 1).drop_last() =~= all.take(i as int));
            assert(all.take(i + 1).last() == entries@[i as int]@);
            lemma_count_kind_bound(all.take(i as int), kind_at(at as int));
        }
        let n = counts[at];
        counts.set(at, n + 1);
        i += 1;
    }
    proof {
        assert(all.take(all.len() as int) =~= all);
        assert forall|j: int| 0 <= j < 5 implies counts@[j] == kind_counts(all)[j] by {
            lemma_count_kind_bound(all, kind_at(j));
        }
    }
    counts
}

fn total_millis(entries: &Vec<Entry>) -> (sum: i128)
    ensures
        sum == sum_millis(entry_views(entries@)),
        -(entries.len() * 0x8000_0000_0000_0000) <= sum <= entries.len() * 0x8000_0000_0000_0000,
{
    let ghost all = entry_views(entries@);
    let mut sum: i128 = 0;
    let mut i: usize = 0;
    assert(all.take(0) =~= Seq::<EntryView>::empty());
    while i < entries.len()
        invariant
            i <= entries.len(),
            all == entry_views(entries@),
            sum == sum_millis(all.take(i as int)),
            -(i * 0x8000_0000_0000_0000) <= sum <= i * 0x8000_0000_0000_0000,
        decreases entries.len() - i,
    {
        proof {
            assert(all.take(i + 1).drop_last() =~= all.take(i as int));
            assert(all.take(i + 1).last() == entries@[i as int]@);
        }
        sum = sum + entries[i].confidence.millis as i128;
        i += 1;
    }
    assert(all.take(all.len() as int) =~= all);
    sum
}

fn count_record_files(records: &Vec<Record>) -> (n: usize)
    ensures
        n == record_files(record_views(records@)),
{
    let ghost all = record_views(records@);
    let mut n: usize = 0;
    let mut i: usize = 0;
    assert(all.take(0) =~= Seq::<RecordView>::empty());
    while i < records.len()
        invariant
            i <= records.len(),
            n <= i,
            all == record_views(records@),
            n == record_files(all.take(i as int)),
        decreases records.len() - i,
    {
        proof {
            assert(all.take(i + 1).drop_last() =~= all.take(i as int));
            assert(all.take(i + 1).last() == records@[i as int]@);
        }
        if is_record_file(records[i].name.as_str()) {
            n += 1;
        }
        i += 1;
    }
    assert(all.take(all.len() as int) =~= all);
    n
}

fn push_two_decimals(out: &mut Vec<char>, h: u64)
    ensures
        final(out)@ == old(out)@ + two_decimals(h as nat),
{
    push_all(out, &digits_of(h / 100));
    out.push('.');
    out.push(digit_of_value(h / 10 % 10));
    out.push(digit_of_value(h % 10));
    assert(out@ =~= old(out)@ + two_decimals(h as nat));
}

fn push_average(out: &mut Vec<char>, entries: &Vec<Entry>)
    ensures
        final(out)@ == old(out)@ + average_text(entry_views(entries@)),
{
    if entries.len() == 0 {
        push_two_decimals(out, 0);
        return ;
    }
    let sum = total_millis(entries);
    assert(entries.len() * 0x8000_0000_0000_0000 <= 0xffff_ffff_ffff_ffff * 0x8000_0000_0000_0000)
        by (nonlinear_arith)
        requires
            entries.len() <= 0xffff_ffff_ffff_ffff,
    ;
    if sum < 0 {
        out.push('-');
    }
    let m: u128 = if sum < 0 {
        (-sum) as u128
    } else {
        sum as u128
    };
    let b: u128 = 10 * entries.len() as u128;
    let q = m / b;
    let r = m % b;
    let h = if 2 * r > b || (2 * r == b && q % 2 == 1) {
        q + 1
    } else {
        q
    };
    assert(m <= entries.len() * 0x8000_0000_0000_0000);
    assert(q <= 922_337_203_685_477_581int) by (nonlinear_arith)
        requires
            q == m / b,
            b == 10 * entries.len(),
            entries.len() > 0,
            m <= entries.len() * 0x8000_0000_0000_0000,
    ;
    push_two_decimals(out, h as u64);
    assert(out@ =~= old(out)@ + average_text(entry_views(entries@)));
}

/// The statistics of the store, as text.
pub fn stats(store: &Store) -> (text: String)
    ensures
        text@ == stats_text(loaded(store@.knowledge), record_files(store@.journal)),
{
    let entries = load_all(&store.knowledge);
    let days = count_record_files(&store.journal);
    let counts = count_kinds(&entries);
    let ghost all = entry_views(entries@);
    let mut keys: Vec<Wide> = Vec::new();
    let mut j: usize = 0;
    while j < 5
        invariant
            j <= 5,
            counts.len() == 5,
            keys.len() == j,
            forall|i: int| 0 <= i < 5 ==> counts@[i] == kind_counts(all)[i],
            forall|i: int| 0 <= i < j ==> keys@[i].amount() == counts@[i],
        decreases 5 - j,
    {
        keys.push(Wide::from_u64(counts[j]));
        j += 1;
    }
    assert(amounts(keys@) =~= kind_counts(all));
    let picked = rank(&keys, 5);
    let mut out = chars_of("# Broca Memory Stats\n\nTotal entries: ");
    push_all(&mut out, &digits_of(entries.len() as u64));
    push_all(&mut out, &chars_of("\nJournal days: "));
    push_all(&mut out, &digits_of(days as u64));
    push_all(&mut out, &chars_of("\nAverage confidence: "));
    push_average(&mut out, &entries);
    push_all(&mut out, &chars_of("\n\n## By Type\n"));
    let ghost head = out@;
    let ghost order = ints(picked@);
    let mut k: usize = 0;
    assert(order.take(0) =~= Seq::<int>::empty());
    while k < picked.len()
        invariant
            k <= picked.len(),
            forall|j: int| 0 <= j < 5 ==> counts@[j] == kind_counts(all)[j],
            counts.len() == 5,
            order == ints(picked@),
            is_ranking(kind_counts(all), 5, order),
            out@ == head + type_lines(kind_counts(all), order.take(k as int)),
        decreases picked.len() - k,
    {
        let at = picked[k];
        proof {
            assert(order.take(k + 1).drop_last() =~= order.take(k as int));
            assert(order.take(k + 1).last() == at);
            assert(order[k as int] == at);
        }
        let ghost before = out@;
        push_all(&mut out, &chars_of("- "));
        push_all(&mut out, &chars_of(kind_of_index(at).as_str()));
        push_all(&mut out, &chars_of(": "));
        push_all(&mut out, &digits_of(counts[at]));
        push_all(&mut out, &chars_of("\n"));
        proof {
            assert(out@ =~= head + type_lines(kind_counts(all), order.take(k + 1)));
        }
        k += 1;
    }
    proof {
        assert(order.take(order.len() as int) =~= order);
        assert(out@ =~= stats_text(all, record_files(store@.journal)));
    }
    string_of(&out)
}

// ---------------------------------------------------------------------------
// Index
// ---------------------------------------------------------------------------

/// The lines of the index that describe `e`: its title, kind, confidence,
/// creation stamp and file, and its tags where it has any.
pub open spec fn index_lines(e: EntryView) -> Seq<char> {
    let first = "- **"@ + e.title + "** ["@ + kind_name(e.entry_type) + "] (confidence: "@
        + one_decimal(e.confidence.millis as int) + ", created: "@ + e.created
        + ") \u{2014} "@ + e.filename + "\n"@;
    if e.tags.len() == 0 {
        first
    } else {
        first + "  tags: "@ + join(e.tags, ", "@) + "\n"@
    }
}

/// The lines of the index that describe each of `entries`.
pub open spec fn index_body(entries: Seq<EntryView>) -> Seq<char>
    decreases entries.len(),
{
    if entries.len() == 0 {
        Seq::<char>::empty()
    } else {
        index_body(entries.drop_last()) + index_lines(entries.last())
    }
}

/// The index of `entries`, made at `generated`.
pub open spec fn index_text(entries: Seq<EntryView>, generated: Seq<char>) -> Seq<char> {
    "# Broca Memory Index\n\nGenerated: "@ + generated + "\n\n"@ + index_body(entries)
}

/// `after` is `before` with an index of its entries, made at `generated`.
pub open spec fn indexed(before: StoreView, after: StoreView, generated: Seq<char>) -> bool {
    after == StoreView {
        knowledge: before.knowledge,
        journal: before.journal,
        relations: before.relations,
        index: Some(index_text(loaded(before.knowledge), generated)),
    }
}

/// `after` is `before` with an index of its entries, made at some time.
pub open spec fn indexed_once(before: StoreView, after: StoreView) -> bool {
    exists|generated: Seq<char>| indexed(before, after, generated)
}

fn push_index_lines(out: &mut Vec<char>, entry: &Entry)
    ensures
        final(out)@ == old(out)@ + index_lines(entry@),
{
    push_all(out, &chars_of("- **"));
    push_all(out, &chars_of(entry.title.as_str()));
    push_all(out, &chars_of("** ["));
    push_all(out, &chars_of(entry.entry_type.as_str()));
    push_all(out, &chars_of("] (confidence: "));
    push_all(out, &entry.confidence.to_one_decimal());
    push_all(out, &chars_of(", created: "));
    push_all(out, &chars_of(entry.created.as_str()));
    push_all(out, &chars_of(") \u{2014} "));
    push_all(out, &chars_of(entry.filename.as_str()));
    push_all(out, &chars_of("\n"));
    if entry.tags.len() > 0 {
        push_all(out, &chars_of("  tags: "));
        push_all(out, &join_chars(&chars_of_string_list(entry.tags.as_slice()), &chars_of(", ")));
        push_all(out, &chars_of("\n"));
    }
    assert(out@ =~= old(out)@ + index_lines(entry@));
}

/// Builds the index of the store, marked as made at `generated`, and returns
/// the number of entries it lists.
pub fn build_index_at(store: &mut Store, generated: &str) -> (count: usize)
    ensures
        indexed(old(store)@, final(store)@, generated@),
        count == loaded(old(store)@.knowledge).len(),
{
    let entries = load_all(&store.knowledge);
    let ghost all = entry_views(entries@);
    let mut out = chars_of("# Broca Memory Index\n\nGenerated: ");
    push_all(&mut out, &chars_of(generated));
    push_all(&mut out, &chars_of("\n\n"));
    let ghost head = out@;
    let mut i: usize = 0;
    assert(all.take(0) =~= Seq::<EntryView>::empty());
    while i < entries.len()
        invariant
            i <= entries.len(),
            all == entry_views(entries@),
            out@ == head + index_body(all.take(i as int)),
        decreases entries.len() - i,
    {
        proof {
            assert(all.take(i + 1).drop_last() =~= all.take(i as int));
            assert(all.take(i + 1).last() == entries@[i as int]@);
        }
        push_index_lines(&mut out, &entries[i]);
        proof {
            assert(out@ =~= head + index_body(all.take(i + 1)));
        }
        i += 1;
    }
    proof {
        assert(all.take(all.len() as int) =~= all);
    }
    store.index = Some(string_of(&out));
    entries.len()
}

/// Builds the index of the store and returns the number of entries it lists.
pub fn build_index(store: &mut Store) -> (count: usize)
    ensures
        indexed_once(old(store)@, final(store)@),
        count == loaded(old(store)@.knowledge).len(),
{
    let generated = utc_now("%Y-%m-%d %H:%M:%S UTC");
    let count = build_index_at(store, generated.as_str());
    assert(indexed(old(store)@, store@, generated@));
    count
}

} // verus!
