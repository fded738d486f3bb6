//! What holds of scores, for every entry and every query, and of the store,
//! whatever it holds.

use crate::confidence::Confidence;
use crate::entry::EntryView;
use crate::search::{
    body_credit, entry_score, fuzzy_sum, is_ranking, is_superseded, lemma_positive_count_zero,
    lemma_ranking_unique, long_words, lowered, recalled, scores_of, text_credit, token_credit,
    tokens_of, weighted, HIT, Lowered,
};
use crate::order::{arranged, is_stable_order, law_stable_order_exists, stable_order};
use crate::store::{
    loaded, lookup, names_of, position_of, put, readable, related_log, relation_line, rewritten,
    with_relation, RecordView, StoreView,
};
use crate::text::{count_matches, lemma_first_true, lines, split, utf8_len, words, CharClass};
use crate::text_lemmas::{
    free_of, lemma_count_appended, lemma_count_extend, lemma_lines_appended, lemma_words_appended,
};
use crate::unicode::lowercase;
use vstd::prelude::*;

verus! {

/// A greater credit makes a greater score, at a confidence above zero.
pub proof fn lemma_weighted_grows(
    less: nat,
    more: nat,
    confidence: Confidence,
    superseded: bool,
)
    requires
        less < more,
        confidence.millis > 0,
    ensures
        weighted(less, confidence, superseded) < weighted(more, confidence, superseded),
{
    let m = confidence.millis as nat;
    let f: nat = if superseded {
        3
    } else {
        10
    };
    assert(less * m * f < more * m * f) by (nonlinear_arith)
        requires
            less < more,
            m > 0,
            f > 0,
    ;
}

/// Confidence weighs the score: of two entries with the same text and the same
/// standing, of which the text earns credit for the query, the one with the
/// higher confidence scores higher, provided its confidence is above zero.
pub proof fn law_confidence_weighting(a: EntryView, b: EntryView, tokens: Seq<Seq<char>>)
    requires
        a.content == b.content,
        a.title == b.title,
        a.tags == b.tags,
        is_superseded(a) == is_superseded(b),
        a.confidence.millis > b.confidence.millis,
        a.confidence.millis > 0,
        text_credit(lowered(a), tokens) > 0,
    ensures
        entry_score(a, tokens) > entry_score(b, tokens),
{
    let credit = text_credit(lowered(a), tokens);
    assert(lowered(a) == lowered(b));
    let f: nat = if is_superseded(a) {
        3
    } else {
        10
    };
    let ma = a.confidence.millis as nat;
    if b.confidence.millis > 0 {
        let mb = b.confidence.millis as nat;
        assert(credit * ma * f > credit * mb * f) by (nonlinear_arith)
            requires
                credit > 0,
                ma > mb,
                f > 0,
        ;
    } else {
        assert(credit * ma * f > 0) by (nonlinear_arith)
            requires
                credit > 0,
                ma > 0,
                f > 0,
        ;
    }
}

/// Supersession costs score: of two entries with the same text and the same
/// confidence above zero, of which the text earns credit for the query, the one
/// that is superseded scores lower.
pub proof fn law_supersession_penalty(a: EntryView, b: EntryView, tokens: Seq<Seq<char>>)
    requires
        a.content == b.content,
        a.title == b.title,
        a.tags == b.tags,
        a.confidence == b.confidence,
        is_superseded(a),
        !is_superseded(b),
        a.confidence.millis > 0,
        text_credit(lowered(a), tokens) > 0,
    ensures
        entry_score(a, tokens) < entry_score(b, tokens),
{
    let credit = text_credit(lowered(a), tokens);
    assert(lowered(a) == lowered(b));
    let m = a.confidence.millis as nat;
    assert(credit * m * 3 < credit * m * 10) by (nonlinear_arith)
        requires
            credit > 0,
            m > 0,
    ;
}

/// `body` with one more occurrence of `token`: as a word of its own at the end.
pub open spec fn with_occurrence(body: Seq<char>, token: Seq<char>) -> Seq<char> {
    body + seq![' '] + token
}

/// Where the query word `t` does not occur in `body` but does once `token` is
/// added, what it earned by likeness is less than what it earns by occurring.
pub open spec fn likeness_earned_less(body: Seq<char>, token: Seq<char>, t: Seq<char>) -> bool {
    count_matches(body, t) == 0 && count_matches(with_occurrence(body, token), t) > 0
        ==> fuzzy_sum(words(body), t, 1) < count_matches(with_occurrence(body, token), t)
        * HIT as nat
}

proof fn lemma_body_credit_step(body: Seq<char>, token: Seq<char>, t: Seq<char>)
    requires
        token.len() > 0,
        free_of(token, CharClass::Space),
        likeness_earned_less(body, token, t),
    ensures
        body_credit(with_occurrence(body, token), t) >= body_credit(body, t),
        t == token ==> body_credit(with_occurrence(body, token), t) > body_credit(body, t),
{
    let more = with_occurrence(body, token);
    let hits = count_matches(body, t);
    let hits_more = count_matches(more, t);
    assert(more =~= body + (seq![' '] + token));
    lemma_count_extend(body, seq![' '] + token, t);
    if t == token {
        assert(!token.contains(' ')) by {
            if token.contains(' ') {
                let i = choose|i: int| 0 <= i < token.len() && token[i] == ' ';
                assert(CharClass::Space.has(token[i]));
            }
        }
        lemma_count_appended(body, ' ', token);
    }
    if hits == 0 && hits_more == 0 {
        lemma_words_appended(body, ' ', token);
        assert(words(body).push(token).drop_last() =~= words(body));
    }
}

proof fn lemma_text_credit_step(before: Lowered, after: Lowered, tokens: Seq<Seq<char>>)
    requires
        forall|i: int|
            0 <= i < tokens.len() ==> token_credit(after, #[trigger] tokens[i]) >= token_credit(
                before,
                tokens[i],
            ),
    ensures
        text_credit(after, tokens) >= text_credit(before, tokens),
        (exists|i: int|
            0 <= i < tokens.len() && token_credit(after, #[trigger] tokens[i]) > token_credit(
                before,
                tokens[i],
            )) ==> text_credit(after, tokens) > text_credit(before, tokens),
    decreases tokens.len(),
{
    if tokens.len() > 0 {
        let shorter = tokens.drop_last();
        assert forall|i: int| 0 <= i < shorter.len() implies token_credit(
            after,
            #[trigger] shorter[i],
        ) >= token_credit(before, shorter[i]) by {
            assert(shorter[i] == tokens[i]);
        }
        lemma_text_credit_step(before, after, shorter);
        assert(tokens.last() == tokens[tokens.len() - 1]);
        if exists|i: int|
            0 <= i < tokens.len() && token_credit(after, #[trigger] tokens[i]) > token_credit(
                before,
                tokens[i],
            ) {
            let i = choose|i: int|
                0 <= i < tokens.len() && token_credit(after, #[trigger] tokens[i]) > token_credit(
                    before,
                    tokens[i],
                );
            if i < tokens.len() - 1 {
                assert(shorter[i] == tokens[i]);
            }
        }
    }
}

/// An occurrence more raises the score: where the body holds one more
/// occurrence of a word of the query, as a word of its own at its end, the text
/// scores higher at the same confidence above zero. This is stated of the text
/// in lowercase, and for the case that no word of the query loses more in
/// credit for likeness than it gains for occurring.
pub proof fn law_occurrence_raises_score(
    text: Lowered,
    token: Seq<char>,
    tokens: Seq<Seq<char>>,
    confidence: Confidence,
    superseded: bool,
)
    requires
        tokens.contains(token),
        token.len() > 0,
        free_of(token, CharClass::Space),
        confidence.millis > 0,
        forall|i: int|
            0 <= i < tokens.len() ==> likeness_earned_less(text.body, token, #[trigger] tokens[i]),
    ensures
        weighted(
            text_credit(
                Lowered {
                    body: with_occurrence(text.body, token),
                    title: text.title,
                    tags: text.tags,
                },
                tokens,
            ),
            confidence,
            superseded,
        ) > weighted(text_credit(text, tokens), confidence, superseded),
{
    let after = Lowered {
        body: with_occurrence(text.body, token),
        title: text.title,
        tags: text.tags,
    };
    assert forall|i: int| 0 <= i < tokens.len() implies token_credit(after, #[trigger] tokens[i])
        >= token_credit(text, tokens[i]) by {
        lemma_body_credit_step(text.body, token, tokens[i]);
    }
    let at = choose|i: int| 0 <= i < tokens.len() && tokens[i] == token;
    lemma_body_credit_step(text.body, token, tokens[at]);
    assert(token_credit(after, tokens[at]) > token_credit(text, tokens[at]));
    lemma_text_credit_step(text, after, tokens);
    lemma_weighted_grows(
        text_credit(text, tokens),
        text_credit(after, tokens),
        confidence,
        superseded,
    );
}

/// An occurrence more raises the score of an entry: of two entries that differ
/// only in that the body of `more`, in lowercase, is that of `less` with one
/// more occurrence of a word of the query, `more` scores higher.
pub proof fn law_occurrence_raises_entry_score(
    less: EntryView,
    more: EntryView,
    token: Seq<char>,
    tokens: Seq<Seq<char>>,
)
    requires
        lowered(more).body == with_occurrence(lowered(less).body, token),
        more.title == less.title,
        more.tags == less.tags,
        more.confidence == less.confidence,
        is_superseded(more) == is_superseded(less),
        tokens.contains(token),
        token.len() > 0,
        free_of(token, CharClass::Space),
        less.confidence.millis > 0,
        forall|i: int|
            0 <= i < tokens.len() ==> likeness_earned_less(
                lowered(less).body,
                token,
                #[trigger] tokens[i],
            ),
    ensures
        entry_score(more, tokens) > entry_score(less, tokens),
{
    law_occurrence_raises_score(
        lowered(less),
        token,
        tokens,
        less.confidence,
        is_superseded(less),
    );
    assert(lowered(more) == (Lowered {
        body: with_occurrence(lowered(less).body, token),
        title: lowered(less).title,
        tags: lowered(less).tags,
    }));
}

/// Words of two bytes or less make no query words.
proof fn lemma_short_words_dropped(ws: Seq<Seq<char>>)
    requires
        forall|i: int| 0 <= i < ws.len() ==> utf8_len(#[trigger] ws[i]) <= 2,
    ensures
        long_words(ws).len() == 0,
    decreases ws.len(),
{
    if ws.len() > 0 {
        assert forall|i: int| 0 <= i < ws.drop_last().len() implies utf8_len(
            #[trigger] ws.drop_last()[i],
        ) <= 2 by {
            assert(ws.drop_last()[i] == ws[i]);
        }
        lemma_short_words_dropped(ws.drop_last());
    }
}

/// Short words find nothing: a query of which every word, in lowercase, takes
/// two bytes or less has no words that count, and a search for it returns no
/// entry, whatever the entries and the limit.
pub proof fn law_short_words_find_nothing(entries: Seq<EntryView>, query: Seq<char>, limit: nat)
    requires
        forall|i: int|
            0 <= i < words(lowercase(query)).len() ==> utf8_len(
                #[trigger] words(lowercase(query))[i],
            ) <= 2,
    ensures
        tokens_of(query).len() == 0,
        recalled(entries, query, limit).len() == 0,
{
    lemma_short_words_dropped(words(lowercase(query)));
    let tokens = tokens_of(query);
    let scores = scores_of(entries, tokens);
    assert forall|i: int| 0 <= i < scores.len() implies scores[i] == 0 by {
        let e = entries[i];
        assert(text_credit(lowered(e), tokens) == 0);
        if e.confidence.millis > 0 {
            let m = e.confidence.millis as nat;
            let f: nat = if is_superseded(e) {
                3
            } else {
                10
            };
            assert(0 * m * f == 0) by (nonlinear_arith);
        }
    }
    lemma_positive_count_zero(scores);
    assert(is_ranking(scores, limit, Seq::<int>::empty()));
    lemma_ranking_unique(scores, limit, Seq::<int>::empty());
}

// ---------------------------------------------------------------------------
// The store
// ---------------------------------------------------------------------------

/// No two of `records` have the same name.
pub open spec fn names_distinct(records: Seq<RecordView>) -> bool {
    forall|i: int, j: int|
        0 <= i < j < records.len() ==> (#[trigger] records[i]).name != (#[trigger] records[j]).name
}

/// Writing a file keeps the names apart: where no two files have the same
/// name, none have after a file is written.
pub proof fn law_put_keeps_names_distinct(
    records: Seq<RecordView>,
    name: Seq<char>,
    text: Seq<char>,
)
    requires
        names_distinct(records),
    ensures
        names_distinct(put(records, name, text)),
{
    let flags = Seq::new(records.len(), |i: int| records[i].name == name);
    lemma_first_true(flags);
    let after = put(records, name, text);
    assert forall|i: int, j: int| 0 <= i < j < after.len() implies (#[trigger] after[i]).name != (
    #[trigger] after[j]).name by {
        match position_of(records, name) {
            Some(at) => {
                assert(flags[at]);
                assert(after[i].name == records[i].name);
                assert(after[j].name == records[j].name);
            },
            None => {
                if j == records.len() {
                    assert(!flags[i]);
                }
            },
        }
    }
}

/// Rewriting a file keeps the names apart.
pub proof fn law_rewrite_keeps_names_distinct(records: Seq<RecordView>, i: int, text: Seq<char>)
    requires
        names_distinct(records),
        0 <= i < records.len(),
    ensures
        names_distinct(rewritten(records, i, text)),
{
    let after = rewritten(records, i, text);
    assert forall|a: int, b: int| 0 <= a < b < after.len() implies (#[trigger] after[a]).name != (
    #[trigger] after[b]).name by {
        assert(after[a].name == records[a].name);
        assert(after[b].name == records[b].name);
    }
}

/// How many of `ls` are `line`.
pub open spec fn occurrences(ls: Seq<Seq<char>>, line: Seq<char>) -> nat
    decreases ls.len(),
{
    if ls.len() == 0 {
        0
    } else if ls.last() == line {
        occurrences(ls.drop_last(), line) + 1
    } else {
        occurrences(ls.drop_last(), line)
    }
}

proof fn lemma_occurrences(ls: Seq<Seq<char>>, line: Seq<char>)
    ensures
        occurrences(ls, line) > 0 <==> ls.contains(line),
    decreases ls.len(),
{
    if ls.len() > 0 {
        lemma_occurrences(ls.drop_last(), line);
        if ls.drop_last().contains(line) {
            let i = choose|i: int| 0 <= i < ls.drop_last().len() && ls.drop_last()[i] == line;
            assert(ls[i] == line);
        }
        if ls.contains(line) && ls.last() != line {
            let i = choose|i: int| 0 <= i < ls.len() && ls[i] == line;
            assert(ls.drop_last()[i] == line);
        }
        if ls.last() == line {
            assert(ls[ls.len() - 1] == line);
        }
    }
}

/// The heading of a new log holds no line that is not empty and not its title.
proof fn lemma_heading_holds_no(line: Seq<char>)
    requires
        line.len() > 0,
        line != "# Broca Relations"@,
    ensures
        lines("# Broca Relations\n\n"@) == seq!["# Broca Relations"@, Seq::<char>::empty()],
        occurrences(lines("# Broca Relations\n\n"@), line) == 0,
{
    reveal_strlit("# Broca Relations\n\n");
    reveal_strlit("# Broca Relations");
    let title = "# Broca Relations"@;
    let none = Seq::<char>::empty();
    assert(!title.contains('\n')) by {
        if title.contains('\n') {
            let i = choose|i: int| 0 <= i < title.len() && title[i] == '\n';
            assert(title[i] != '\n');
        }
    }
    lemma_lines_appended(none, title);
    assert(none + title + seq!['\n'] =~= title + seq!['\n']);
    assert(lines(none) =~= Seq::<Seq<char>>::empty()) by {
        assert(split(none, CharClass::Exactly('\n')) =~= seq![none]);
    }
    lemma_lines_appended(title + seq!['\n'], none);
    assert("# Broca Relations\n\n"@ =~= title + seq!['\n'] + none + seq!['\n']);
    let ls = lines("# Broca Relations\n\n"@);
    assert(ls =~= seq![title, none]);
    assert(ls.drop_last() =~= seq![title]);
    assert(ls.drop_last().drop_last() =~= Seq::<Seq<char>>::empty());
    assert(ls.last() == none);
    assert(ls.drop_last().last() == title);
    assert(none.len() != line.len());
    assert(occurrences(ls.drop_last().drop_last(), line) == 0);
    assert(occurrences(ls.drop_last(), line) == 0);
}

/// Recording a relation twice records it once: the log after the second time
/// is the log after the first, and a log that did not hold the line of the
/// relation holds it once. This is stated of a relation whose line holds no
/// line feed and ends with no carriage return, and of a log that is empty or
/// ends its last line.
pub proof fn law_relation_recorded_once(
    existing: Option<Seq<char>>,
    from: Seq<char>,
    kind: Seq<char>,
    to: Seq<char>,
)
    requires
        !relation_line(from, kind, to).contains('\n'),
        relation_line(from, kind, to).last() != '\r',
        existing is Some ==> existing->0.len() == 0 || existing->0.last() == '\n',
    ensures
        ({
            let line = relation_line(from, kind, to);
            let once = related_log(existing, line);
            &&& related_log(Some(once), line) == once
            &&& occurrences(lines(once), line) == if existing is Some && lines(
                existing->0,
            ).contains(line) {
                occurrences(lines(existing->0), line)
            } else {
                1
            }
        }),
{
    reveal_strlit("\n");
    reveal_strlit(" --[");
    reveal_strlit("]--> ");
    reveal_strlit("# Broca Relations");
    let line = relation_line(from, kind, to);
    let once = related_log(existing, line);
    assert("\n"@ =~= seq!['\n']);
    assert(line[from.len() as int + 3] == '[');
    match existing {
        Some(log) => {
            if !lines(log).contains(line) {
                assert(once =~= log + line + seq!['\n']);
                lemma_lines_appended(log, line);
                assert(lines(once).last() == line);
                assert(lines(once)[lines(once).len() - 1] == line);
                assert(lines(once).drop_last() =~= lines(log));
                lemma_occurrences(lines(log), line);
            }
        },
        None => {
            let head = "# Broca Relations\n\n"@;
            let title = "# Broca Relations"@;
            if line == title {
                assert(title[from.len() as int + 3] != '[');
            }
            lemma_heading_holds_no(line);
            reveal_strlit("# Broca Relations\n\n");
            assert(once =~= head + line + seq!['\n']);
            lemma_lines_appended(head, line);
            assert(lines(once).last() == line);
            assert(lines(once)[lines(once).len() - 1] == line);
            assert(lines(once).drop_last() =~= lines(head));
        },
    }
}

/// Relating two entries twice relates them once: the second time the store
/// stays as the first left it, the same files being found for the same names,
/// and where there was no log, the log holds the line of the relation once.
/// This is stated of file names and a relation without a line feed, of a name
/// of the second file that does not end with a carriage return, and of a log
/// that is empty or ends its last line.
pub proof fn law_relating_twice_relates_once(
    store: StoreView,
    entry_a: Seq<char>,
    entry_b: Seq<char>,
    kind: Seq<char>,
)
    requires
        lookup(store.knowledge, entry_a) is Some,
        lookup(store.knowledge, entry_b) is Some,
        ({
            let i = lookup(store.knowledge, entry_a)->0;
            let j = lookup(store.knowledge, entry_b)->0;
            let line = relation_line(store.knowledge[i].name, kind, store.knowledge[j].name);
            !line.contains('\n') && line.last() != '\r'
        }),
        store.relations is Some ==> store.relations->0.len() == 0 || store.relations->0.last()
            == '\n',
    ensures
        ({
            let i = lookup(store.knowledge, entry_a)->0;
            let j = lookup(store.knowledge, entry_b)->0;
            let line = relation_line(store.knowledge[i].name, kind, store.knowledge[j].name);
            let once = with_relation(store, i, j, kind);
            &&& lookup(once.knowledge, entry_a) == Some(i)
            &&& lookup(once.knowledge, entry_b) == Some(j)
            &&& with_relation(once, i, j, kind) == once
            &&& store.relations is None ==> occurrences(lines(once.relations->0), line) == 1
        }),
{
    let i = lookup(store.knowledge, entry_a)->0;
    let j = lookup(store.knowledge, entry_b)->0;
    law_relation_recorded_once(
        store.relations,
        store.knowledge[i].name,
        kind,
        store.knowledge[j].name,
    );
}

/// The entries of the store are the readable ones, rearranged: as many as the
/// files hold, each standing once, by ascending file name, entries of the
/// same file name in the order of their files.
pub proof fn law_loaded_are_the_readable(records: Seq<RecordView>)
    ensures
        is_stable_order::<Vec<char>>(
            names_of(readable(records)),
            stable_order::<Vec<char>>(names_of(readable(records))),
        ),
        arranged(
            readable(records),
            loaded(records),
            stable_order::<Vec<char>>(names_of(readable(records))),
        ),
{
    law_stable_order_exists::<Vec<char>>(names_of(readable(records)));
}

} // verus!
