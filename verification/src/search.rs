//! Relevance search: how alike two words are, what an entry scores against a
//! query, and the ranking of entries by score.
//!
//! Scores are whole numbers of `POINT`ths of a point, so that every weight of
//! the scoring rules is exact; a score too large to hold is held as the largest
//! that can be.

use crate::confidence::Confidence;
use crate::entry::{Entry, EntryType, EntryView};
use crate::order::{goes_before, ints, sort_by_keys, values};
use crate::text::{
    byte_len, chars_of, contains, contains_chars, count_matches, count_occurrences,
    lemma_utf8_len_bounds, string_views, utf8_len, views, words, words_of,
};
use crate::unicode::lowercase;
use crate::wide::{amounts, capped, two_256, Wide};
use vstd::prelude::*;

verus! {

/// The least of three numbers.
pub open spec fn min3(a: nat, b: nat, c: nat) -> nat {
    if a <= b && a <= c {
        a
    } else if b <= c {
        b
    } else {
        c
    }
}

/// The least number of characters to insert, delete or replace to turn `a` into
/// `b`.
pub open spec fn edit_distance(a: Seq<char>, b: Seq<char>) -> nat
    decreases a.len() + b.len(),
{
    if a.len() == 0 {
        b.len()
    } else if b.len() == 0 {
        a.len()
    } else {
        min3(
            edit_distance(a.drop_last(), b) + 1,
            edit_distance(a, b.drop_last()) + 1,
            edit_distance(a.drop_last(), b.drop_last()) + if a.last() == b.last() {
                0nat
            } else {
                1nat
            },
        )
    }
}

/// No more edits are needed than the longer text has characters.
pub proof fn lemma_edit_distance_bound(a: Seq<char>, b: Seq<char>)
    ensures
        edit_distance(a, b) <= if a.len() >= b.len() {
            a.len()
        } else {
            b.len()
        },
    decreases a.len() + b.len(),
{
    if a.len() > 0 && b.len() > 0 {
        lemma_edit_distance_bound(a.drop_last(), b.drop_last());
    }
}

/// The edit distance of two character vectors.
pub fn distance_chars(a: &Vec<char>, b: &Vec<char>) -> (d: usize)
    ensures
        d == edit_distance(a@, b@),
{
    let n = a.len();
    let m = b.len();
    let mut prev: Vec<usize> = Vec::new();
    prev.push(0);
    let mut j: usize = 0;
    while j < m
        invariant
            j <= m,
            m == b.len(),
            prev.len() == j + 1,
            forall|k: int| 0 <= k <= j ==> prev@[k] == k,
        decreases m - j,
    {
        j += 1;
        prev.push(j);
    }
    assert forall|k: int| 0 <= k <= m implies prev@[k] == edit_distance(a@.take(0), b@.take(k)) by {
        assert(a@.take(0).len() == 0);
    }
    let mut i: usize = 0;
    while i < n
        invariant
            i <= n,
            n == a.len(),
            m == b.len(),
            prev.len() == m + 1,
            forall|k: int| 0 <= k <= m ==> prev@[k] == edit_distance(a@.take(i as int), b@.take(k)),
        decreases n - i,
    {
        let ghost ai = a@.take(i + 1);
        let mut cur: Vec<usize> = Vec::new();
        cur.push(i + 1);
        assert(edit_distance(ai, b@.take(0)) == i + 1) by {
            assert(b@.take(0).len() == 0);
        }
        let mut j: usize = 0;
        while j < m
            invariant
                j <= m,
                i < n,
                n == a.len(),
                m == b.len(),
                ai == a@.take(i + 1),
                prev.len() == m + 1,
                cur.len() == j + 1,
                forall|k: int|
                    0 <= k <= m ==> prev@[k] == edit_distance(a@.take(i as int), b@.take(k)),
                forall|k: int| 0 <= k <= j ==> cur@[k] == edit_distance(ai, b@.take(k)),
            decreases m - j,
        {
            let ghost bj = b@.take(j + 1);
            proof {
                assert(ai.drop_last() =~= a@.take(i as int));
                assert(bj.drop_last() =~= b@.take(j as int));
                assert(ai.last() == a@[i as int]);
                assert(bj.last() == b@[j as int]);
                lemma_edit_distance_bound(a@.take(i as int), b@.take(j as int));
                lemma_edit_distance_bound(ai, bj);
            }
            let cost: usize = if a[i] == b[j] {
                0
            } else {
                1
            };
            let sub = prev[j] + cost;
            let del = prev[j + 1].saturating_add(1);
            let ins = cur[j].saturating_add(1);
            let best = if del <= ins && del <= sub {
                del
            } else if ins <= sub {
                ins
            } else {
                sub
            };
            cur.push(best);
            j += 1;
        }
        prev = cur;
        i += 1;
    }
    assert(a@.take(n as int) =~= a@);
    assert(b@.take(m as int) =~= b@);
    prev[m]
}

/// Calculates the edit distance between two strings: the least number of
/// single-character edits that turn one into the other.
pub fn levenshtein_distance(s1: &str, s2: &str) -> (d: usize)
    ensures
        d == edit_distance(s1@, s2@),
{
    distance_chars(&chars_of(s1), &chars_of(s2))
}

/// One whole, in the millionths that similarity is counted in.
pub const WHOLE: u32 = 1_000_000;

/// The least similarity that counts as a match: four fifths.
pub const THRESHOLD: u32 = 800_000;

/// How alike `a` and `b` are, in millionths: one less the edit distance over the
/// greater length in bytes, rounded down; two empty texts are wholly alike, an
/// empty text and another not at all.
pub open spec fn similarity(a: Seq<char>, b: Seq<char>) -> nat {
    if a.len() == 0 && b.len() == 0 {
        1_000_000
    } else if a.len() == 0 || b.len() == 0 {
        0
    } else {
        let longest = if utf8_len(a) >= utf8_len(b) {
            utf8_len(a)
        } else {
            utf8_len(b)
        };
        (((longest - edit_distance(a, b)) * 1_000_000) / longest as int) as nat
    }
}

/// Similarity never exceeds one whole.
pub proof fn lemma_similarity_bound(a: Seq<char>, b: Seq<char>)
    ensures
        similarity(a, b) <= 1_000_000,
{
    if a.len() > 0 && b.len() > 0 {
        lemma_utf8_len_bounds(a);
        lemma_utf8_len_bounds(b);
        lemma_edit_distance_bound(a, b);
        let longest: int = if utf8_len(a) >= utf8_len(b) {
            utf8_len(a) as int
        } else {
            utf8_len(b) as int
        };
        let d = edit_distance(a, b) as int;
        assert(0 <= d <= longest);
        assert(((longest - d) * 1_000_000) / longest <= 1_000_000) by (nonlinear_arith)
            requires
                0 <= d <= longest,
                longest > 0,
        ;
        assert(((longest - d) * 1_000_000) / longest >= 0) by (nonlinear_arith)
            requires
                0 <= d <= longest,
                longest > 0,
        ;
    }
}

/// How alike two character vectors are, in millionths.
pub fn similarity_chars(a: &Vec<char>, b: &Vec<char>) -> (s: u32)
    ensures
        s == similarity(a@, b@),
        s <= 1_000_000,
{
    proof {
        lemma_similarity_bound(a@, b@);
    }
    if a.len() == 0 && b.len() == 0 {
        return 1_000_000;
    }
    if a.len() == 0 || b.len() == 0 {
        return 0;
    }
    let la = byte_len(a);
    let lb = byte_len(b);
    let longest: u128 = if la >= lb {
        la
    } else {
        lb
    };
    let d = distance_chars(a, b) as u128;
    proof {
        lemma_utf8_len_bounds(a@);
        lemma_utf8_len_bounds(b@);
        lemma_edit_distance_bound(a@, b@);
    }
    let scaled: u128 = (longest - d) * 1_000_000;
    (scaled / longest) as u32
}

/// How alike two strings are, in millionths of a whole.
pub fn fuzzy_similarity(s1: &str, s2: &str) -> (s: u32)
    ensures
        s == similarity(s1@, s2@),
        s <= 1_000_000,
{
    similarity_chars(&chars_of(s1), &chars_of(s2))
}

// ---------------------------------------------------------------------------
// Scores
// ---------------------------------------------------------------------------

/// What one occurrence of a query word in the body is worth, in the units that
/// credit is counted in: two million to the point.
pub const HIT: u64 = 2_000_000;

/// What a query word found in the title is worth: five points.
pub const TITLE_HIT: u64 = 10_000_000;

/// What a query word found in a tag is worth: three points.
pub const TAG_HIT: u64 = 6_000_000;

/// A word of the body that is like a query word is worth half its similarity.
pub const BODY_WEIGHT: u64 = 1;

/// A word of the title that is like a query word is worth two and a half times
/// its similarity.
pub const TITLE_WEIGHT: u64 = 5;

/// A tag that is like a query word is worth one and a half times its similarity.
pub const TAG_WEIGHT: u64 = 3;

/// One point of score, in the units that scores are counted in.
pub const POINT: u64 = 20_000_000_000;

/// What the likeness of `word` to `token` is worth: its similarity times
/// `weight` where that reaches the threshold, else nothing.
pub open spec fn fuzzy_credit(word: Seq<char>, token: Seq<char>, weight: nat) -> nat {
    let s = similarity(token, word);
    if s >= 800_000 {
        s * weight
    } else {
        0
    }
}

/// The sum of what the likeness of each of `ws` to `token` is worth.
pub open spec fn fuzzy_sum(ws: Seq<Seq<char>>, token: Seq<char>, weight: nat) -> nat
    decreases ws.len(),
{
    if ws.len() == 0 {
        0
    } else {
        fuzzy_sum(ws.drop_last(), token, weight) + fuzzy_credit(ws.last(), token, weight)
    }
}

/// What the body earns for `token`: a point for each occurrence; where there is
/// none, what its words earn by likeness.
pub open spec fn body_credit(body: Seq<char>, token: Seq<char>) -> nat {
    let hits = count_matches(body, token);
    if hits > 0 {
        hits * HIT as nat
    } else {
        fuzzy_sum(words(body), token, BODY_WEIGHT as nat)
    }
}

/// What the title earns for `token`: five points where it holds the token; else
/// what its words earn by likeness.
pub open spec fn title_credit(title: Seq<char>, token: Seq<char>) -> nat {
    if contains(title, token) {
        TITLE_HIT as nat
    } else {
        fuzzy_sum(words(title), token, TITLE_WEIGHT as nat)
    }
}

/// What one tag earns for `token`: three points where it holds the token; else
/// what it earns by likeness.
pub open spec fn tag_credit(tag: Seq<char>, token: Seq<char>) -> nat {
    if contains(tag, token) {
        TAG_HIT as nat
    } else {
        fuzzy_credit(tag, token, TAG_WEIGHT as nat)
    }
}

/// What the tags earn for `token`: the sum of what each earns.
pub open spec fn tags_credit(tags: Seq<Seq<char>>, token: Seq<char>) -> nat
    decreases tags.len(),
{
    if tags.len() == 0 {
        0
    } else {
        tags_credit(tags.drop_last(), token) + tag_credit(tags.last(), token)
    }
}

/// The searchable text of an entry, in lowercase.
pub ghost struct Lowered {
    pub body: Seq<char>,
    pub title: Seq<char>,
    pub tags: Seq<Seq<char>>,
}

/// What the text earns for one query word.
pub open spec fn token_credit(text: Lowered, token: Seq<char>) -> nat {
    body_credit(text.body, token) + title_credit(text.title, token) + tags_credit(
        text.tags,
        token,
    )
}

/// What the text earns for all the query words.
pub open spec fn text_credit(text: Lowered, tokens: Seq<Seq<char>>) -> nat
    decreases tokens.len(),
{
    if tokens.len() == 0 {
        0
    } else {
        text_credit(text, tokens.drop_last()) + token_credit(text, tokens.last())
    }
}

/// The score that `credit` makes at the given confidence: the credit times the
/// confidence, and three tenths of that for a superseded entry; nothing at a
/// confidence of zero or less.
pub open spec fn weighted(credit: nat, confidence: Confidence, superseded: bool) -> nat {
    if confidence.millis <= 0 {
        0
    } else {
        credit * (confidence.millis as nat) * (if superseded {
            3nat
        } else {
            10nat
        })
    }
}

/// The most that one field of a text can earn for one query word: ten points
/// for each of as many items as a text can hold.
pub open spec fn field_most() -> nat {
    184_467_440_737_095_516_160_000_000
}

/// The most that a confidence and the factor of supersession come to together.
pub open spec fn weight_most() -> nat {
    92_233_720_368_547_758_070
}

fn fuzzy_credit_chars(word: &Vec<char>, token: &Vec<char>, weight: u64) -> (r: u128)
    requires
        weight <= 5,
    ensures
        r == fuzzy_credit(word@, token@, weight as nat),
        r <= 5_000_000,
{
    let s = similarity_chars(token, word);
    if s >= 800_000 {
        assert(s * weight <= 5_000_000) by (nonlinear_arith)
            requires
                s <= 1_000_000,
                weight <= 5,
        ;
        s as u128 * weight as u128
    } else {
        0
    }
}

fn fuzzy_sum_chars(ws: &Vec<Vec<char>>, token: &Vec<char>, weight: u64) -> (r: u128)
    requires
        weight <= 5,
    ensures
        r == fuzzy_sum(views(ws@), token@, weight as nat),
        r <= field_most(),
{
    let ghost all = views(ws@);
    let mut total: u128 = 0;
    let mut i: usize = 0;
    assert(all.take(0) =~= Seq::<Seq<char>>::empty());
    while i < ws.len()
        invariant
            i <= ws.len(),
            weight <= 5,
            all == views(ws@),
            total == fuzzy_sum(all.take(i as int), token@, weight as nat),
            total <= i * 5_000_000,
        decreases ws.len() - i,
    {
        proof {
            assert(all.take(i + 1).drop_last() =~= all.take(i as int));
            assert(all.take(i + 1).last() == ws@[i as int]@);
        }
        total = total + fuzzy_credit_chars(&ws[i], token, weight);
        i += 1;
    }
    assert(all.take(all.len() as int) =~= all);
    total
}

fn body_credit_chars(body: &Vec<char>, body_words: &Vec<Vec<char>>, token: &Vec<char>) -> (r:
    u128)
    requires
        views(body_words@) == words(body@),
    ensures
        r == body_credit(body@, token@),
        r <= field_most(),
{
    let hits = count_occurrences(body, token);
    if hits > 0 {
        hits * 2_000_000
    } else {
        fuzzy_sum_chars(body_words, token, BODY_WEIGHT)
    }
}

fn title_credit_chars(title: &Vec<char>, title_words: &Vec<Vec<char>>, token: &Vec<char>) -> (r:
    u128)
    requires
        views(title_words@) == words(title@),
    ensures
        r == title_credit(title@, token@),
        r <= field_most(),
{
    if contains_chars(title, token) {
        10_000_000
    } else {
        fuzzy_sum_chars(title_words, token, TITLE_WEIGHT)
    }
}

fn tags_credit_chars(tags: &Vec<Vec<char>>, token: &Vec<char>) -> (r: u128)
    ensures
        r == tags_credit(views(tags@), token@),
        r <= field_most(),
{
    let ghost all = views(tags@);
    let mut total: u128 = 0;
    let mut i: usize = 0;
    assert(all.take(0) =~= Seq::<Seq<char>>::empty());
    while i < tags.len()
        invariant
            i <= tags.len(),
            all == views(tags@),
            total == tags_credit(all.take(i as int), token@),
            total <= i * 6_000_000,
        decreases tags.len() - i,
    {
        proof {
            assert(all.take(i + 1).drop_last() =~= all.take(i as int));
            assert(all.take(i + 1).last() == tags@[i as int]@);
        }
        let one: u128 = if contains_chars(&tags[i], token) {
            6_000_000
        } else {
            fuzzy_credit_chars(&tags[i], token, TAG_WEIGHT)
        };
        total = total + one;
        i += 1;
    }
    assert(all.take(all.len() as int) =~= all);
    total
}

/// The score of a text against query words, at a confidence.
///
/// `body`, `title` and `tags` are the text of an entry in lowercase, `tokens`
/// the words of the query. Each word earns the body a point for each of its
/// occurrences there, the title five points if it occurs there, and each tag
/// three points if it occurs there; where it does not occur, the body's words,
/// the title's words and the tag earn by their likeness to it. The sum is
/// multiplied by the confidence, and by three tenths for a superseded entry.
/// The score is held exactly, whatever the lengths and the confidence.
pub fn score_lowered(
    body: &Vec<char>,
    title: &Vec<char>,
    tags: &Vec<Vec<char>>,
    confidence: Confidence,
    superseded: bool,
    tokens: &Vec<Vec<char>>,
) -> (score: Wide)
    ensures
        score.amount() == weighted(
            text_credit(Lowered { body: body@, title: title@, tags: views(tags@) }, views(tokens@)),
            confidence,
            superseded,
        ),
{
    if confidence.millis <= 0 {
        return Wide::zero();
    }
    let ghost text = Lowered { body: body@, title: title@, tags: views(tags@) };
    let ghost all = views(tokens@);
    let body_words = words_of(body);
    let title_words = words_of(title);
    let factor: u128 = if superseded {
        3
    } else {
        10
    };
    let weight: u128 = confidence.millis as u128 * factor;
    let ghost most = 3 * field_most() * weight_most();
    let mut total = Wide::zero();
    let mut i: usize = 0;
    assert(all.take(0) =~= Seq::<Seq<char>>::empty());
    assert(text_credit(text, all.take(0)) * weight == 0) by (nonlinear_arith)
        requires
            text_credit(text, all.take(0)) == 0,
    ;
    while i < tokens.len()
        invariant
            i <= tokens.len(),
            all == views(tokens@),
            text == (Lowered { body: body@, title: title@, tags: views(tags@) }),
            views(body_words@) == words(body@),
            views(title_words@) == words(title@),
            weight <= weight_most(),
            most == 3 * field_most() * weight_most(),
            total.amount() == text_credit(text, all.take(i as int)) * weight,
            total.amount() <= i * most,
        decreases tokens.len() - i,
    {
        let token = &tokens[i];
        proof {
            assert(all.take(i + 1).drop_last() =~= all.take(i as int));
            assert(all.take(i + 1).last() == token@);
        }
        let b = body_credit_chars(body, &body_words, token);
        let t = title_credit_chars(title, &title_words, token);
        let g = tags_credit_chars(tags, token);
        let one: u128 = b + t + g;
        let worth = Wide::product(one, weight);
        proof {
            let before = text_credit(text, all.take(i as int));
            assert(one == token_credit(text, token@));
            assert((before + one) * weight == before * weight + one * weight)
                by (nonlinear_arith);
            assert(one * weight <= most) by (nonlinear_arith)
                requires
                    one <= 3 * field_most(),
                    weight <= weight_most(),
                    most == 3 * field_most() * weight_most(),
            ;
            assert((i + 1) * most == i * most + most) by (nonlinear_arith);
            assert(i * most <= 0xffff_ffff_ffff_ffff * most) by (nonlinear_arith)
                requires
                    i <= 0xffff_ffff_ffff_ffff,
                    most >= 0,
            ;
            assert(0xffff_ffff_ffff_ffff * most + most < two_256());
        }
        total = total.plus(worth);
        i += 1;
    }
    proof {
        assert(all.take(all.len() as int) =~= all);
        let credit = text_credit(text, all);
        let m = confidence.millis as nat;
        let f = factor as nat;
        assert(credit * (m * f) == credit * m * f) by (nonlinear_arith);
    }
    total
}

// ---------------------------------------------------------------------------
// Ranking
// ---------------------------------------------------------------------------

/// How many of `scores` are above zero.
pub open spec fn positive_count(scores: Seq<nat>) -> nat
    decreases scores.len(),
{
    if scores.len() == 0 {
        0
    } else if scores.last() > 0 {
        positive_count(scores.drop_last()) + 1
    } else {
        positive_count(scores.drop_last())
    }
}

/// The entry at `i` ranks above the entry at `j`: it scores higher, or as high
/// and comes first.
pub open spec fn outranks(scores: Seq<nat>, i: int, j: int) -> bool {
    scores[i] > scores[j] || (scores[i] == scores[j] && i < j)
}

/// `picked` lists, best first, the positions of the `limit` best of `scores`
/// that are above zero, or of all that are where they are fewer.
pub open spec fn is_ranking(scores: Seq<nat>, limit: nat, picked: Seq<int>) -> bool {
    &&& picked.len() == if limit <= positive_count(scores) {
        limit
    } else {
        positive_count(scores)
    }
    &&& forall|k: int|
        0 <= k < picked.len() ==> 0 <= #[trigger] picked[k] < scores.len() && scores[picked[k]] > 0
    &&& forall|a: int, b: int|
        0 <= a < b < picked.len() ==> outranks(scores, #[trigger] picked[a], #[trigger] picked[b])
    &&& forall|j: int, k: int|
        #![trigger scores[j], picked[k]]
        0 <= j < scores.len() && scores[j] > 0 && !picked.contains(j) && 0 <= k < picked.len()
            ==> outranks(scores, picked[k], j)
    &&& limit >= positive_count(scores) ==> forall|j: int|
        0 <= j < scores.len() && #[trigger] scores[j] > 0 ==> picked.contains(j)
}

/// The one ranking of `scores` within `limit`.
pub open spec fn ranking(scores: Seq<nat>, limit: nat) -> Seq<int> {
    choose|picked: Seq<int>| is_ranking(scores, limit, picked)
}

/// Two rankings of the same scores within the same limit agree up to any
/// position.
proof fn lemma_rankings_agree(scores: Seq<nat>, limit: nat, p1: Seq<int>, p2: Seq<int>, n: int)
    requires
        is_ranking(scores, limit, p1),
        is_ranking(scores, limit, p2),
        0 <= n <= p1.len(),
    ensures
        forall|k: int| 0 <= k < n ==> p1[k] == p2[k],
    decreases n,
{
    if n > 0 {
        lemma_rankings_agree(scores, limit, p1, p2, n - 1);
        let k = n - 1;
        let v = p1[k];
        let w = p2[k];
        if v != w {
            assert(outranks(scores, w, v)) by {
                if p2.contains(v) {
                    let kv = choose|i: int| 0 <= i < p2.len() && p2[i] == v;
                    if kv < k {
                        assert(p1[kv] == v);
                        assert(outranks(scores, p1[kv], p1[k]));
                    }
                    assert(outranks(scores, p2[k], p2[kv]));
                } else {
                    assert(scores[v] > 0);
                    assert(outranks(scores, p2[k], v));
                }
            }
            assert(outranks(scores, v, w)) by {
                if p1.contains(w) {
                    let kw = choose|i: int| 0 <= i < p1.len() && p1[i] == w;
                    if kw < k {
                        assert(p2[kw] == w);
                        assert(outranks(scores, p2[kw], p2[k]));
                    }
                    assert(outranks(scores, p1[k], p1[kw]));
                } else {
                    assert(scores[w] > 0);
                    assert(outranks(scores, p1[k], w));
                }
            }
        }
    }
}

/// The scores have one ranking only within a limit.
pub proof fn lemma_ranking_unique(scores: Seq<nat>, limit: nat, picked: Seq<int>)
    requires
        is_ranking(scores, limit, picked),
    ensures
        picked == ranking(scores, limit),
{
    let other = ranking(scores, limit);
    lemma_rankings_agree(scores, limit, picked, other, picked.len() as int);
    assert(picked =~= other);
}

/// The positions of the `limit` best of `scores` that are above zero, best first;
/// of two equal scores the one that stands first ranks higher.
pub fn rank(held: &Vec<Wide>, limit: usize) -> (picked: Vec<usize>)
    ensures
        is_ranking(amounts(held@), limit as nat, ints(picked@)),
        ints(picked@) == ranking(amounts(held@), limit as nat),
        picked.len() <= limit,
{
    let n = held.len();
    let ghost scores = amounts(held@);
    let mut pos: Vec<usize> = Vec::new();
    let mut keys: Vec<Wide> = Vec::new();
    let mut i: usize = 0;
    assert(scores.take(0) =~= Seq::<nat>::empty());
    while i < n
        invariant
            i <= n,
            n == held.len(),
            scores == amounts(held@),
            pos.len() == keys.len(),
            pos.len() == positive_count(scores.take(i as int)),
            pos.len() <= i,
            forall|k: int|
                0 <= k < pos.len() ==> #[trigger] pos@[k] < i && scores[pos@[k] as int] > 0
                    && keys@[k].amount() == scores[pos@[k] as int],
            forall|a: int, b: int| 0 <= a < b < pos.len() ==> pos@[a] < pos@[b],
            forall|j: int| 0 <= j < i && scores[j] > 0 ==> ints(pos@).contains(j),
        decreases n - i,
    {
        proof {
            assert(scores.take(i + 1).drop_last() =~= scores.take(i as int));
            assert(scores.take(i + 1).last() == scores[i as int]);
        }
        let ghost before = pos@;
        assert(scores[i as int] == held@[i as int].amount());
        if !held[i].is_zero() {
            pos.push(i);
            keys.push(held[i]);
            proof {
                assert forall|j: int| 0 <= j < i + 1 && scores[j] > 0 implies ints(
                    pos@,
                ).contains(j) by {
                    if j < i {
                        assert(ints(before).contains(j));
                        let k = choose|k: int| 0 <= k < before.len() && ints(before)[k] == j;
                        assert(ints(pos@)[k] == j);
                    } else {
                        assert(ints(pos@)[pos@.len() - 1] == j);
                    }
                }
            }
        }
        i += 1;
    }
    assert(scores.take(n as int) =~= scores);
    let ghost found = pos@;
    let order = sort_by_keys(&keys, &mut pos);
    let ghost sorted = pos@;
    let ghost o = ints(order@);
    let ghost ks = values(keys@);
    proof {
        assert forall|k: int| 0 <= k < sorted.len() implies sorted[k] == found[#[trigger] o[k]]
            && 0 <= o[k] < found.len() by {}
        assert forall|a: int, b: int| 0 <= a < b < sorted.len() implies outranks(
            scores,
            #[trigger] sorted[a] as int,
            #[trigger] sorted[b] as int,
        ) by {
            assert(goes_before::<Wide>(ks, o[a], o[b]));
            assert(sorted[a] == found[o[a]]);
            assert(sorted[b] == found[o[b]]);
            assert(ks[o[a]] == -(keys@[o[a]].amount() as int));
            assert(keys@[o[a]].amount() == scores[found[o[a]] as int]);
            assert(ks[o[b]] == -(keys@[o[b]].amount() as int));
            assert(keys@[o[b]].amount() == scores[found[o[b]] as int]);
        }
        assert forall|j: int| 0 <= j < n && scores[j] > 0 implies ints(sorted).contains(j) by {
            assert(ints(found).contains(j));
            let q = choose|q: int| 0 <= q < found.len() && ints(found)[q] == j;
            assert(o.contains(q));
            let k = choose|k: int| 0 <= k < o.len() && o[k] == q;
            assert(ints(sorted)[k] == j);
        }
    }
    if limit < pos.len() {
        pos.truncate(limit);
    }
    proof {
        let picked = ints(pos@);
        assert forall|k: int| 0 <= k < picked.len() implies picked[k] == sorted[k] by {}
        assert(sorted.len() == positive_count(scores));
        assert forall|k: int| 0 <= k < picked.len() implies 0 <= #[trigger] picked[k]
            < scores.len() && scores[picked[k]] > 0 by {
            assert(sorted[k] == found[o[k]]);
        }
        assert forall|a: int, b: int| 0 <= a < b < picked.len() implies outranks(
            scores,
            #[trigger] picked[a],
            #[trigger] picked[b],
        ) by {
            assert(outranks(scores, sorted[a] as int, sorted[b] as int));
        }
        assert forall|j: int, k: int|
            #![trigger scores[j], picked[k]]
            0 <= j < scores.len() && scores[j] > 0 && !picked.contains(j) && 0 <= k
                < picked.len() implies outranks(scores, picked[k], j) by {
            assert(ints(sorted).contains(j));
            let q = choose|q: int| 0 <= q < sorted.len() && ints(sorted)[q] == j;
            if q < picked.len() {
                assert(picked[q] == j);
                assert(picked.contains(j));
            }
            assert(outranks(scores, sorted[k] as int, sorted[q] as int));
        }
        if limit >= positive_count(scores) {
            assert(picked =~= ints(sorted));
        }
        lemma_ranking_unique(scores, limit as nat, picked);
    }
    pos
}

// ---------------------------------------------------------------------------
// Recall
// ---------------------------------------------------------------------------

/// The members of `ws` that take more than two bytes.
pub open spec fn long_words(ws: Seq<Seq<char>>) -> Seq<Seq<char>>
    decreases ws.len(),
{
    if ws.len() == 0 {
        Seq::<Seq<char>>::empty()
    } else if utf8_len(ws.last()) > 2 {
        long_words(ws.drop_last()).push(ws.last())
    } else {
        long_words(ws.drop_last())
    }
}

/// The words of a query that count: those of its lowercase form that take more
/// than two bytes.
pub open spec fn tokens_of(query: Seq<char>) -> Seq<Seq<char>> {
    long_words(words(lowercase(query)))
}

/// The searchable text of `e`, in lowercase.
pub open spec fn lowered(e: EntryView) -> Lowered {
    Lowered {
        body: lowercase(e.content),
        title: lowercase(e.title),
        tags: Seq::new(e.tags.len(), |i: int| lowercase(e.tags[i])),
    }
}

/// Whether `e` names an entry that replaces it.
pub open spec fn is_superseded(e: EntryView) -> bool {
    e.superseded_by matches Some(s) && s.len() > 0
}

/// The score of `e` against the query words `tokens`.
pub open spec fn entry_score(e: EntryView, tokens: Seq<Seq<char>>) -> nat {
    weighted(text_credit(lowered(e), tokens), e.confidence, is_superseded(e))
}

/// The scores of `entries` against `tokens`.
pub open spec fn scores_of(entries: Seq<EntryView>, tokens: Seq<Seq<char>>) -> Seq<nat> {
    Seq::new(entries.len(), |i: int| entry_score(entries[i], tokens))
}

/// The views of a vector of entries.
pub open spec fn entry_views(v: Seq<Entry>) -> Seq<EntryView> {
    Seq::new(v.len(), |i: int| v[i]@)
}

/// What a search of `entries` for `query` returns within `limit`: the positions
/// of the entries returned, best first.
pub open spec fn recalled(entries: Seq<EntryView>, query: Seq<char>, limit: nat) -> Seq<int> {
    ranking(scores_of(entries, tokens_of(query)), limit)
}

/// The words of the lowercase text `lowered` that take more than two bytes.
pub fn tokens_in(lowered: &Vec<char>) -> (tokens: Vec<Vec<char>>)
    ensures
        views(tokens@) == long_words(words(lowered@)),
{
    let ws = words_of(lowered);
    let ghost all = views(ws@);
    let mut tokens: Vec<Vec<char>> = Vec::new();
    assert(all.take(0) =~= Seq::<Seq<char>>::empty());
    for w in it: ws
        invariant
            all == views(it.seq()),
            views(tokens@) == long_words(all.take(it.index() as int)),
    {
        let ghost k = it.index() as int;
        let ghost before = views(tokens@);
        proof {
            assert(all.take(k + 1).drop_last() =~= all.take(k));
            assert(all.take(k + 1).last() == w@);
        }
        if byte_len(&w) > 2 {
            tokens.push(w);
            proof {
                assert(views(tokens@) =~= before.push(w@));
            }
        }
    }
    assert(all.take(all.len() as int) =~= all);
    tokens
}

/// The words of `query` that count in a search.
pub fn tokenize(query: &str) -> (tokens: Vec<Vec<char>>)
    ensures
        views(tokens@) == tokens_of(query@),
{
    let lower = query.to_lowercase();
    tokens_in(&chars_of(lower.as_str()))
}

/// The score of `entry` against the query words `tokens`.
pub fn score_entry(entry: &Entry, tokens: &Vec<Vec<char>>) -> (score: Wide)
    ensures
        score.amount() == entry_score(entry@, views(tokens@)),
{
    let body = chars_of(entry.content.to_lowercase().as_str());
    let title = chars_of(entry.title.to_lowercase().as_str());
    let mut tags: Vec<Vec<char>> = Vec::new();
    let mut i: usize = 0;
    while i < entry.tags.len()
        invariant
            i <= entry.tags.len(),
            tags.len() == i,
            forall|k: int| 0 <= k < i ==> (#[trigger] tags@[k])@ == lowercase(entry.tags@[k]@),
        decreases entry.tags.len() - i,
    {
        tags.push(chars_of(entry.tags[i].to_lowercase().as_str()));
        i += 1;
    }
    assert(views(tags@) =~= lowered(entry@).tags);
    let superseded = match &entry.superseded_by {
        Some(s) => s.as_str().unicode_len() > 0,
        None => false,
    };
    score_lowered(&body, &title, &tags, entry.confidence, superseded, tokens)
}

/// An entry together with what it scored in a search.
#[derive(Debug, Clone)]
pub struct ScoredEntry {
    pub filename: String,
    pub entry_type: EntryType,
    pub title: String,
    pub confidence: Confidence,
    pub tags: Vec<String>,
    pub content: String,
    /// The score, in `POINT`ths of a point, for show: a score too large for
    /// 64 bits shows as the largest number of 64 bits.
    pub relevance_score: u64,
    /// The score, in `POINT`ths of a point, as it is: entries are ranked by it.
    pub exact_score: Wide,
    pub superseded_by: Option<String>,
}

/// A copy of `v`.
pub fn copy_strings(v: &Vec<String>) -> (out: Vec<String>)
    ensures
        string_views(out@) == string_views(v@),
{
    let mut out: Vec<String> = Vec::new();
    let mut i: usize = 0;
    while i < v.len()
        invariant
            i <= v.len(),
            out.len() == i,
            forall|k: int| 0 <= k < i ==> (#[trigger] out@[k])@ == v@[k]@,
        decreases v.len() - i,
    {
        out.push(v[i].clone());
        i += 1;
    }
    assert(string_views(out@) =~= string_views(v@));
    out
}

impl ScoredEntry {
    /// This value shows the entry `e` with the score `score`.
    pub open spec fn shows(&self, e: EntryView, score: nat) -> bool {
        &&& self.filename@ == e.filename
        &&& self.entry_type == e.entry_type
        &&& self.title@ == e.title
        &&& self.confidence == e.confidence
        &&& string_views(self.tags@) == e.tags
        &&& self.content@ == e.content
        &&& self.exact_score.amount() == score
        &&& self.relevance_score == capped(score)
        &&& match self.superseded_by {
            Some(s) => e.superseded_by == Some(s@),
            None => e.superseded_by is None,
        }
    }

    /// `entry` with a score of zero.
    pub fn from(entry: &Entry) -> (scored: ScoredEntry)
        ensures
            scored.shows(entry@, 0),
    {
        ScoredEntry {
            filename: entry.filename.clone(),
            entry_type: entry.entry_type,
            title: entry.title.clone(),
            confidence: entry.confidence,
            tags: copy_strings(&entry.tags),
            content: entry.content.clone(),
            relevance_score: 0,
            exact_score: Wide::zero(),
            superseded_by: match &entry.superseded_by {
                Some(s) => Some(s.clone()),
                None => None,
            },
        }
    }
}

/// Nothing is above zero where everything is zero.
pub proof fn lemma_positive_count_zero(scores: Seq<nat>)
    requires
        forall|i: int| 0 <= i < scores.len() ==> scores[i] == 0,
    ensures
        positive_count(scores) == 0,
    decreases scores.len(),
{
    if scores.len() > 0 {
        lemma_positive_count_zero(scores.drop_last());
    }
}

/// Ranks `entries` against `query` and returns the `limit` best.
///
/// The words of the query count in lowercase, and only those of more than two
/// bytes. An entry is returned only if it scores above zero; the results stand
/// by descending score, entries of equal score in the order they were given in.
/// The score that decides is the exact one, whatever its size; each result
/// carries it, beside the score in 64 bits that is there to be shown.
pub fn recall(entries: &Vec<Entry>, query: &str, limit: usize) -> (results: Vec<ScoredEntry>)
    ensures
        results@.len() == recalled(entry_views(entries@), query@, limit as nat).len(),
        forall|k: int|
            0 <= k < results@.len() ==> (#[trigger] results@[k]).shows(
                entries@[recalled(entry_views(entries@), query@, limit as nat)[k]]@,
                scores_of(entry_views(entries@), tokens_of(query@))[recalled(
                    entry_views(entries@),
                    query@,
                    limit as nat,
                )[k]],
            ),
        is_ranking(
            scores_of(entry_views(entries@), tokens_of(query@)),
            limit as nat,
            recalled(entry_views(entries@), query@, limit as nat),
        ),
        tokens_of(query@).len() == 0 ==> results@.len() == 0,
        results@.len() <= limit,
{
    let tokens = tokenize(query);
    let ghost all_scores = scores_of(entry_views(entries@), tokens_of(query@));
    let mut results: Vec<ScoredEntry> = Vec::new();
    if tokens.len() == 0 {
        proof {
            assert forall|i: int| 0 <= i < all_scores.len() implies all_scores[i] == 0 by {
                let e = entries@[i]@;
                assert(entry_views(entries@)[i] == e);
                assert(text_credit(lowered(e), tokens_of(query@)) == 0);
                assert(weighted(0, e.confidence, is_superseded(e)) == 0) by (nonlinear_arith)
                    requires
                        weighted(0, e.confidence, is_superseded(e)) == if e.confidence.millis
                            <= 0 {
                            0
                        } else {
                            0 * (e.confidence.millis as nat) * (if is_superseded(e) {
                                3nat
                            } else {
                                10nat
                            })
                        },
                ;
            }
            lemma_positive_count_zero(all_scores);
            assert(is_ranking(all_scores, limit as nat, Seq::<int>::empty()));
            lemma_ranking_unique(all_scores, limit as nat, Seq::<int>::empty());
        }
        return results;
    }
    let mut scores: Vec<Wide> = Vec::new();
    let mut i: usize = 0;
    while i < entries.len()
        invariant
            i <= entries.len(),
            scores.len() == i,
            all_scores == scores_of(entry_views(entries@), tokens_of(query@)),
            views(tokens@) == tokens_of(query@),
            forall|k: int| 0 <= k < i ==> scores@[k].amount() == all_scores[k],
        decreases entries.len() - i,
    {
        scores.push(score_entry(&entries[i], &tokens));
        i += 1;
    }
    assert(amounts(scores@) =~= all_scores);
    let picked = rank(&scores, limit);
    let mut k: usize = 0;
    while k < picked.len()
        invariant
            k <= picked.len(),
            results.len() == k,
            amounts(scores@) == all_scores,
            scores.len() == entries.len(),
            is_ranking(all_scores, limit as nat, ints(picked@)),
            forall|j: int|
                0 <= j < k ==> (#[trigger] results@[j]).shows(
                    entries@[picked@[j] as int]@,
                    all_scores[picked@[j] as int],
                ),
        decreases picked.len() - k,
    {
        let at = picked[k];
        assert(ints(picked@)[k as int] == at);
        let mut scored = ScoredEntry::from(&entries[at]);
        assert(amounts(scores@)[at as int] == scores@[at as int].amount());
        scored.exact_score = scores[at];
        scored.relevance_score = scores[at].capped();
        results.push(scored);
        k += 1;
    }
    proof {
        let p = ints(picked@);
        assert forall|j: int| 0 <= j < p.len() implies (#[trigger] results@[j]).shows(
            entries@[p[j]]@,
            all_scores[p[j]],
        ) by {
            assert(p[j] == picked@[j]);
        }
        assert(p == recalled(entry_views(entries@), query@, limit as nat));
    }
    results
}

} // verus!
