//! What holds of the results of a search, whatever the entries: which entries
//! are returned, and which of two stands first.
//!
//! A search returns the ranking of the scores of the entries: the results of
//! `recall` stand for the positions that `ranking` lists, and each shows the
//! score of the entry at its position. The laws here are stated of that
//! ranking.

use crate::entry::EntryView;
use crate::laws::{law_occurrence_raises_entry_score, likeness_earned_less, with_occurrence};
use crate::search::{
    entry_score, is_ranking, is_superseded, lowered, outranks, positive_count, ranking,
    scores_of, text_credit, token_credit, HIT, Lowered,
};
use crate::text::{count_matches, CharClass};
use crate::text_lemmas::free_of;
use crate::unicode::lowercase;
use vstd::prelude::*;

verus! {

/// In `picked`, the position `i` stands before the position `j`.
pub open spec fn stands_before(picked: Seq<int>, i: int, j: int) -> bool {
    exists|a: int, b: int|
        0 <= a < b < picked.len() && #[trigger] picked[a] == i && #[trigger] picked[b] == j
}

/// No more scores are above zero than there are scores.
proof fn lemma_positive_count_bound(scores: Seq<nat>)
    ensures
        positive_count(scores) <= scores.len(),
    decreases scores.len(),
{
    if scores.len() > 0 {
        lemma_positive_count_bound(scores.drop_last());
    }
}

/// `picked` lists positions of `scores` above zero, none of them twice.
pub open spec fn picks_matches(scores: Seq<nat>, picked: Seq<int>) -> bool {
    &&& forall|k: int|
        0 <= k < picked.len() ==> 0 <= #[trigger] picked[k] < scores.len() && scores[picked[k]] > 0
    &&& forall|a: int, b: int|
        0 <= a < b < picked.len() ==> #[trigger] picked[a] != #[trigger] picked[b]
}

/// The position `j` is one of a score above zero.
pub open spec fn is_match(scores: Seq<nat>, j: int) -> bool {
    0 <= j < scores.len() && scores[j] > 0
}

/// Positions of scores above zero, none twice, are no more than there are
/// such scores; they are as many exactly where they are all of them.
proof fn lemma_count_picked(scores: Seq<nat>, picked: Seq<int>)
    requires
        picks_matches(scores, picked),
    ensures
        picked.len() <= positive_count(scores),
        picked.len() == positive_count(scores) ==> forall|j: int|
            #[trigger] is_match(scores, j) ==> picked.contains(j),
        (forall|j: int| #[trigger] is_match(scores, j) ==> picked.contains(j)) ==> picked.len()
            >= positive_count(scores),
    decreases scores.len(),
{
    if scores.len() == 0 {
        if picked.len() > 0 {
            assert(0 <= picked[0] < scores.len());
        }
    } else {
        let last = scores.len() - 1;
        let shorter = scores.drop_last();
        if picked.contains(last) {
            let k = choose|k: int| 0 <= k < picked.len() && picked[k] == last;
            let rest = Seq::new(
                (picked.len() - 1) as nat,
                |i: int|
                    if i < k {
                        picked[i]
                    } else {
                        picked[i + 1]
                    },
            );
            assert(scores[picked[k]] > 0);
            assert forall|i: int| 0 <= i < rest.len() implies 0 <= #[trigger] rest[i]
                < shorter.len() && shorter[rest[i]] > 0 by {
                let at = if i < k {
                    i
                } else {
                    i + 1
                };
                assert(rest[i] == picked[at]);
                assert(0 <= picked[at] < scores.len() && scores[picked[at]] > 0);
                if at < k {
                    assert(picked[at] != picked[k]);
                } else {
                    assert(picked[k] != picked[at]);
                }
            }
            assert forall|a: int, b: int| 0 <= a < b < rest.len() implies #[trigger] rest[a]
                != #[trigger] rest[b] by {
                let at = if a < k {
                    a
                } else {
                    a + 1
                };
                let bt = if b < k {
                    b
                } else {
                    b + 1
                };
                assert(picked[at] != picked[bt]);
            }
            lemma_count_picked(shorter, rest);
            assert forall|j: int| is_match(shorter, j) && picked.contains(j) implies rest.contains(
                j,
            ) by {
                let at = choose|at: int| 0 <= at < picked.len() && picked[at] == j;
                if at < k {
                    assert(rest[at] == j);
                } else {
                    assert(rest[at - 1] == j);
                }
            }
            assert forall|j: int| is_match(scores, j) && j != last implies is_match(shorter, j) by {
                assert(shorter[j] == scores[j]);
            }
            assert forall|j: int| #[trigger] is_match(shorter, j) implies is_match(scores, j) by {
                assert(shorter[j] == scores[j]);
            }
            if picked.len() == positive_count(scores) {
                assert forall|j: int| #[trigger] is_match(scores, j) implies picked.contains(j) by {
                    if j != last {
                        assert(is_match(shorter, j));
                        assert(rest.contains(j));
                        let at = choose|at: int| 0 <= at < rest.len() && rest[at] == j;
                        let from = if at < k {
                            at
                        } else {
                            at + 1
                        };
                        assert(picked[from] == j);
                    }
                }
            }
            if forall|j: int| #[trigger] is_match(scores, j) ==> picked.contains(j) {
                assert forall|j: int| #[trigger] is_match(shorter, j) implies rest.contains(j) by {
                    assert(is_match(scores, j));
                }
            }
        } else {
            assert forall|i: int| 0 <= i < picked.len() implies 0 <= #[trigger] picked[i]
                < shorter.len() && shorter[picked[i]] > 0 by {
                assert(0 <= picked[i] < scores.len() && scores[picked[i]] > 0);
                if picked[i] == last {
                    assert(picked.contains(last));
                }
            }
            lemma_count_picked(shorter, picked);
            assert forall|j: int| #[trigger] is_match(shorter, j) implies is_match(scores, j) by {
                assert(shorter[j] == scores[j]);
            }
            if picked.len() == positive_count(scores) {
                assert forall|j: int| #[trigger] is_match(scores, j) implies picked.contains(j) by {
                    if j != last {
                        assert(shorter[j] == scores[j]);
                        assert(is_match(shorter, j));
                    }
                }
            }
            if forall|j: int| #[trigger] is_match(scores, j) ==> picked.contains(j) {
                if scores[last] > 0 {
                    assert(is_match(scores, last));
                }
            }
        }
    }
}

/// The position `j` is one of a score above zero that `picked` does not list.
pub open spec fn is_left(scores: Seq<nat>, picked: Seq<int>, j: int) -> bool {
    is_match(scores, j) && !picked.contains(j)
}

/// Among the positions before `n` that are left, one ranks above the others.
proof fn lemma_best_left(scores: Seq<nat>, picked: Seq<int>, n: int) -> (best: int)
    requires
        0 <= n <= scores.len(),
        exists|j: int| #[trigger] is_left(scores, picked, j) && j < n,
    ensures
        is_left(scores, picked, best),
        best < n,
        forall|j: int|
            #[trigger] is_left(scores, picked, j) && j < n && j != best ==> outranks(
                scores,
                best,
                j,
            ),
    decreases n,
{
    let last = n - 1;
    if exists|j: int| #[trigger] is_left(scores, picked, j) && j < n - 1 {
        let b = lemma_best_left(scores, picked, n - 1);
        if is_left(scores, picked, last) && scores[last] > scores[b] {
            assert forall|j: int|
                #[trigger] is_left(scores, picked, j) && j < n && j != last implies outranks(
                scores,
                last,
                j,
            ) by {
                if j != b {
                    assert(outranks(scores, b, j));
                }
            }
            last
        } else {
            b
        }
    } else {
        let j = choose|j: int| #[trigger] is_left(scores, picked, j) && j < n;
        assert(j == last);
        last
    }
}

/// Every list of scores has a ranking within every limit.
proof fn lemma_make_ranking(scores: Seq<nat>, limit: nat) -> (picked: Seq<int>)
    ensures
        is_ranking(scores, limit, picked),
    decreases limit,
{
    let count = positive_count(scores);
    if limit == 0 {
        let none = Seq::<int>::empty();
        lemma_count_picked(scores, none);
        if count == 0 {
            assert forall|j: int| 0 <= j < scores.len() && #[trigger] scores[j] > 0 implies none.contains(
                j,
            ) by {
                assert(is_match(scores, j));
            }
        }
        none
    } else {
        let p = lemma_make_ranking(scores, (limit - 1) as nat);
        if limit - 1 >= count {
            p
        } else {
            assert(picks_matches(scores, p)) by {
                assert forall|a: int, b: int| 0 <= a < b < p.len() implies #[trigger] p[a]
                    != #[trigger] p[b] by {
                    assert(outranks(scores, p[a], p[b]));
                }
            }
            lemma_count_picked(scores, p);
            assert(exists|j: int| #[trigger] is_left(scores, p, j) && j < scores.len()) by {
                if forall|j: int| #[trigger] is_match(scores, j) ==> p.contains(j) {
                    assert(false);
                }
                let j = choose|j: int| #[trigger] is_match(scores, j) && !p.contains(j);
                assert(is_left(scores, p, j));
            }
            let best = lemma_best_left(scores, p, scores.len() as int);
            let more = p.push(best);
            assert forall|k: int| 0 <= k < more.len() implies 0 <= #[trigger] more[k]
                < scores.len() && scores[more[k]] > 0 by {
                if k < p.len() {
                    assert(more[k] == p[k]);
                }
            }
            assert forall|a: int, b: int| 0 <= a < b < more.len() implies outranks(
                scores,
                #[trigger] more[a],
                #[trigger] more[b],
            ) by {
                assert(more[a] == p[a]);
                if b < p.len() {
                    assert(more[b] == p[b]);
                    assert(outranks(scores, p[a], p[b]));
                } else {
                    assert(scores[best] > 0 && !p.contains(best));
                    assert(outranks(scores, p[a], best));
                }
            }
            assert forall|j: int, k: int|
                #![trigger scores[j], more[k]]
                0 <= j < scores.len() && scores[j] > 0 && !more.contains(j) && 0 <= k
                    < more.len() implies outranks(scores, more[k], j) by {
                assert(!p.contains(j)) by {
                    if p.contains(j) {
                        let at = choose|at: int| 0 <= at < p.len() && p[at] == j;
                        assert(more[at] == j);
                    }
                }
                assert(more[p.len() as int] == best);
                assert(j != best);
                if k < p.len() {
                    assert(more[k] == p[k]);
                    assert(outranks(scores, p[k], j));
                } else {
                    assert(is_left(scores, p, j));
                }
            }
            assert(picks_matches(scores, more)) by {
                assert forall|a: int, b: int| 0 <= a < b < more.len() implies #[trigger] more[a]
                    != #[trigger] more[b] by {
                    assert(outranks(scores, more[a], more[b]));
                }
            }
            lemma_count_picked(scores, more);
            if limit >= count {
                assert forall|j: int| 0 <= j < scores.len() && #[trigger] scores[j] > 0 implies more.contains(
                    j,
                ) by {
                    assert(is_match(scores, j));
                }
            }
            more
        }
    }
}

/// Every list of scores has its ranking within every limit: what `ranking`
/// lists is one.
pub proof fn law_ranking_exists(scores: Seq<nat>, limit: nat)
    ensures
        is_ranking(scores, limit, ranking(scores, limit)),
{
    let picked = lemma_make_ranking(scores, limit);
}

/// An entry that scores nothing is not returned.
pub proof fn law_no_score_no_result(scores: Seq<nat>, limit: nat, j: int)
    requires
        0 <= j < scores.len(),
        scores[j] == 0,
    ensures
        !ranking(scores, limit).contains(j),
{
    let picked = ranking(scores, limit);
    law_ranking_exists(scores, limit);
    if picked.contains(j) {
        let k = choose|k: int| 0 <= k < picked.len() && picked[k] == j;
        assert(scores[picked[k]] > 0);
    }
}

/// Within a limit that leaves room for every entry, each entry that scores
/// above zero is returned.
pub proof fn law_every_match_is_returned(scores: Seq<nat>, limit: nat, j: int)
    requires
        limit >= scores.len(),
        0 <= j < scores.len(),
        scores[j] > 0,
    ensures
        ranking(scores, limit).contains(j),
{
    law_ranking_exists(scores, limit);
    lemma_positive_count_bound(scores);
}

/// The higher score stands first: of two entries, the one that scores lower
/// never stands before the other, and where it is returned, the other is
/// returned too, and stands before it.
pub proof fn law_higher_score_stands_first(scores: Seq<nat>, limit: nat, i: int, j: int)
    requires
        0 <= i < scores.len(),
        0 <= j < scores.len(),
        scores[i] > scores[j],
    ensures
        !stands_before(ranking(scores, limit), j, i),
        ranking(scores, limit).contains(j) ==> stands_before(ranking(scores, limit), i, j),
{
    let picked = ranking(scores, limit);
    law_ranking_exists(scores, limit);
    if stands_before(picked, j, i) {
        let (a, b) = choose|a: int, b: int|
            0 <= a < b < picked.len() && #[trigger] picked[a] == j && #[trigger] picked[b] == i;
        assert(outranks(scores, picked[a], picked[b]));
    }
    if picked.contains(j) {
        let kj = choose|k: int| 0 <= k < picked.len() && picked[k] == j;
        if !picked.contains(i) {
            assert(scores[i] > 0);
            assert(outranks(scores, picked[kj], i));
        }
        let ki = choose|k: int| 0 <= k < picked.len() && picked[k] == i;
        if kj < ki {
            assert(outranks(scores, picked[kj], picked[ki]));
        }
        assert(picked[ki] == i && picked[kj] == j);
    }
}

/// Whether the body of `e`, in lowercase, holds one of `tokens`.
pub open spec fn body_holds_one(e: EntryView, tokens: Seq<Seq<char>>) -> bool {
    exists|k: int|
        0 <= k < tokens.len() && count_matches(lowercase(e.content), #[trigger] tokens[k]) > 0
}

/// A text earns for all the query words at least what it earns for one.
proof fn lemma_text_credit_holds(text: Lowered, tokens: Seq<Seq<char>>, k: int)
    requires
        0 <= k < tokens.len(),
    ensures
        text_credit(text, tokens) >= token_credit(text, tokens[k]),
    decreases tokens.len(),
{
    if k < tokens.len() - 1 {
        lemma_text_credit_holds(text, tokens.drop_last(), k);
        assert(tokens.drop_last()[k] == tokens[k]);
    }
}

/// An entry whose body holds a query word earns credit.
pub proof fn lemma_held_word_earns(e: EntryView, tokens: Seq<Seq<char>>)
    requires
        body_holds_one(e, tokens),
    ensures
        text_credit(lowered(e), tokens) > 0,
{
    let k = choose|k: int|
        0 <= k < tokens.len() && count_matches(lowercase(e.content), #[trigger] tokens[k]) > 0;
    lemma_text_credit_holds(lowered(e), tokens, k);
    let hits = count_matches(lowered(e).body, tokens[k]);
    assert(hits * HIT as nat > 0) by (nonlinear_arith)
        requires
            hits > 0,
            HIT as nat == 2_000_000,
    ;
}

/// An entry that has nothing of the query is left out: where its text earns
/// no credit for the words of the query, it is not returned, whatever else is
/// held and whatever the limit, so that it stands before no other entry.
pub proof fn law_unrelated_entry_is_left_out(
    entries: Seq<EntryView>,
    tokens: Seq<Seq<char>>,
    limit: nat,
    j: int,
)
    requires
        0 <= j < entries.len(),
        text_credit(lowered(entries[j]), tokens) == 0,
    ensures
        !ranking(scores_of(entries, tokens), limit).contains(j),
        forall|i: int| !stands_before(ranking(scores_of(entries, tokens), limit), j, i),
{
    let scores = scores_of(entries, tokens);
    let picked = ranking(scores, limit);
    let e = entries[j];
    if e.confidence.millis > 0 {
        let m = e.confidence.millis as nat;
        let f: nat = if is_superseded(e) {
            3
        } else {
            10
        };
        assert(0 * m * f == 0) by (nonlinear_arith);
    }
    assert(scores[j] == 0);
    law_no_score_no_result(scores, limit, j);
    assert forall|i: int| !stands_before(picked, j, i) by {
        if stands_before(picked, j, i) {
            let (a, b) = choose|a: int, b: int|
                0 <= a < b < picked.len() && #[trigger] picked[a] == j && #[trigger] picked[b]
                    == i;
            assert(picked.contains(j));
        }
    }
}

/// Confidence weighs the results: of two entries with the same text and the
/// same standing, whose body holds a word of the query, the one with the
/// higher confidence stands first, both being returned where the limit leaves
/// room for every entry. Their scores are as their confidences: at 1.0 and
/// 0.5, the one scores twice the other.
pub proof fn law_results_weigh_confidence(
    entries: Seq<EntryView>,
    tokens: Seq<Seq<char>>,
    limit: nat,
    a: int,
    b: int,
)
    requires
        limit >= entries.len(),
        0 <= a < entries.len(),
        0 <= b < entries.len(),
        entries[a].content == entries[b].content,
        entries[a].title == entries[b].title,
        entries[a].tags == entries[b].tags,
        entries[a].superseded_by == entries[b].superseded_by,
        entries[a].confidence.millis > entries[b].confidence.millis > 0,
        body_holds_one(entries[a], tokens),
    ensures
        ranking(scores_of(entries, tokens), limit).contains(a),
        ranking(scores_of(entries, tokens), limit).contains(b),
        stands_before(ranking(scores_of(entries, tokens), limit), a, b),
        entry_score(entries[b], tokens) > 0,
        entry_score(entries[a], tokens) * entries[b].confidence.millis == entry_score(
            entries[b],
            tokens,
        ) * entries[a].confidence.millis,
        entries[a].confidence.millis == 2 * entries[b].confidence.millis ==> entry_score(
            entries[a],
            tokens,
        ) == 2 * entry_score(entries[b], tokens),
{
    let scores = scores_of(entries, tokens);
    let credit = text_credit(lowered(entries[a]), tokens);
    lemma_held_word_earns(entries[a], tokens);
    assert(lowered(entries[a]) == lowered(entries[b]));
    let f: nat = if is_superseded(entries[a]) {
        3
    } else {
        10
    };
    let ma = entries[a].confidence.millis as nat;
    let mb = entries[b].confidence.millis as nat;
    let sa = entry_score(entries[a], tokens);
    let sb = entry_score(entries[b], tokens);
    assert(sa == credit * ma * f);
    assert(sb == credit * mb * f);
    assert(credit * mb * f > 0 && credit * ma * f > credit * mb * f) by (nonlinear_arith)
        requires
            credit > 0,
            ma > mb,
            mb > 0,
            f > 0,
    ;
    assert((credit * ma * f) * mb == (credit * mb * f) * ma) by (nonlinear_arith);
    if ma == 2 * mb {
        assert(credit * ma * f == 2 * (credit * mb * f)) by (nonlinear_arith)
            requires
                ma == 2 * mb,
        ;
    }
    assert(scores[a] == sa && scores[b] == sb);
    law_every_match_is_returned(scores, limit, b);
    law_every_match_is_returned(scores, limit, a);
    law_higher_score_stands_first(scores, limit, a, b);
}

/// Supersession costs rank: of two entries with the same text and the same
/// confidence above zero, whose body holds a word of the query, the one that
/// is superseded scores three tenths of what the other scores, and stands
/// after it, both being returned where the limit leaves room for every entry.
pub proof fn law_results_penalize_supersession(
    entries: Seq<EntryView>,
    tokens: Seq<Seq<char>>,
    limit: nat,
    a: int,
    b: int,
)
    requires
        limit >= entries.len(),
        0 <= a < entries.len(),
        0 <= b < entries.len(),
        entries[a].content == entries[b].content,
        entries[a].title == entries[b].title,
        entries[a].tags == entries[b].tags,
        entries[a].confidence == entries[b].confidence,
        entries[a].confidence.millis > 0,
        is_superseded(entries[a]),
        !is_superseded(entries[b]),
        body_holds_one(entries[a], tokens),
    ensures
        ranking(scores_of(entries, tokens), limit).contains(a),
        ranking(scores_of(entries, tokens), limit).contains(b),
        stands_before(ranking(scores_of(entries, tokens), limit), b, a),
        entry_score(entries[a], tokens) > 0,
        10 * entry_score(entries[a], tokens) == 3 * entry_score(entries[b], tokens),
        entry_score(entries[a], tokens) < entry_score(entries[b], tokens),
{
    let scores = scores_of(entries, tokens);
    let credit = text_credit(lowered(entries[a]), tokens);
    lemma_held_word_earns(entries[a], tokens);
    assert(lowered(entries[a]) == lowered(entries[b]));
    let m = entries[a].confidence.millis as nat;
    let sa = entry_score(entries[a], tokens);
    let sb = entry_score(entries[b], tokens);
    assert(sa == credit * m * 3);
    assert(sb == credit * m * 10);
    assert(credit * m * 3 > 0 && credit * m * 3 < credit * m * 10 && 10 * (credit * m * 3) == 3 * (
    credit * m * 10)) by (nonlinear_arith)
        requires
            credit > 0,
            m > 0,
    ;
    assert(scores[a] == sa && scores[b] == sb);
    law_every_match_is_returned(scores, limit, a);
    law_every_match_is_returned(scores, limit, b);
    law_higher_score_stands_first(scores, limit, b, a);
}

/// An occurrence more raises the result: where two lists of entries differ in
/// one entry only, whose body, in lowercase, holds in the second list one more
/// occurrence of a word of the query, as a word of its own at its end, that
/// entry scores higher in the second list, and is returned from it where the
/// limit leaves room for every entry. This is stated for the case that no
/// word of the query loses more in credit for likeness than it gains for
/// occurring.
pub proof fn law_results_grow_with_occurrence(
    before: Seq<EntryView>,
    after: Seq<EntryView>,
    token: Seq<char>,
    tokens: Seq<Seq<char>>,
    limit: nat,
    at: int,
)
    requires
        limit >= after.len(),
        before.len() == after.len(),
        0 <= at < before.len(),
        forall|i: int| 0 <= i < before.len() && i != at ==> before[i] == after[i],
        lowered(after[at]).body == with_occurrence(lowered(before[at]).body, token),
        after[at].title == before[at].title,
        after[at].tags == before[at].tags,
        after[at].confidence == before[at].confidence,
        is_superseded(after[at]) == is_superseded(before[at]),
        tokens.contains(token),
        token.len() > 0,
        free_of(token, CharClass::Space),
        before[at].confidence.millis > 0,
        forall|i: int|
            0 <= i < tokens.len() ==> likeness_earned_less(
                lowered(before[at]).body,
                token,
                #[trigger] tokens[i],
            ),
    ensures
        scores_of(after, tokens)[at] > scores_of(before, tokens)[at],
        forall|i: int|
            0 <= i < before.len() && i != at ==> scores_of(after, tokens)[i] == scores_of(
                before,
                tokens,
            )[i],
        ranking(scores_of(after, tokens), limit).contains(at),
{
    law_occurrence_raises_entry_score(before[at], after[at], token, tokens);
    law_every_match_is_returned(scores_of(after, tokens), limit, at);
}

} // verus!
