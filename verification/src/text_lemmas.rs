//! Lemmas on the text primitives: how they behave on texts put together.

use crate::text::{
    count_matches, find, is_space, lemma_find, lemma_split_mask_agree, lemma_split_mask_len, lines,
    mask_of, nonempty, occurs_at, split, split_mask, starts_with, strip, strip_cr, strip_leading,
    strip_trailing, trim, words, CharClass,
};
use vstd::prelude::*;

verus! {

/// No character of `s` belongs to `class`.
pub open spec fn free_of(s: Seq<char>, class: CharClass) -> bool {
    forall|i: int| 0 <= i < s.len() ==> !class.has(#[trigger] s[i])
}

/// Every character of `s` belongs to `class`.
pub open spec fn made_of(s: Seq<char>, class: CharClass) -> bool {
    forall|i: int| 0 <= i < s.len() ==> class.has(#[trigger] s[i])
}

/// `s` neither starts nor ends with a character of `class`.
pub open spec fn tight(s: Seq<char>, class: CharClass) -> bool {
    s.len() == 0 || (!class.has(s[0]) && !class.has(s.last()))
}

// ---------------------------------------------------------------------------
// Counting
// ---------------------------------------------------------------------------

/// Text added at the end takes no occurrence away.
pub proof fn lemma_count_extend(s: Seq<char>, more: Seq<char>, p: Seq<char>)
    ensures
        count_matches(s + more, p) >= count_matches(s, p),
    decreases s.len(),
{
    let whole = s + more;
    if p.len() == 0 {
    } else if s.len() < p.len() {
    } else if starts_with(s, p) {
        assert(whole.subrange(0, p.len() as int) =~= s.subrange(0, p.len() as int));
        assert(whole.skip(p.len() as int) =~= s.skip(p.len() as int) + more);
        lemma_count_extend(s.skip(p.len() as int), more, p);
    } else {
        assert(whole.subrange(0, p.len() as int) =~= s.subrange(0, p.len() as int));
        assert(whole.skip(1) =~= s.skip(1) + more);
        lemma_count_extend(s.skip(1), more, p);
    }
}

/// A word added at the end, after a character that it does not hold, makes one
/// occurrence more of itself.
pub proof fn lemma_count_appended(s: Seq<char>, gap: char, word: Seq<char>)
    requires
        word.len() > 0,
        !word.contains(gap),
    ensures
        count_matches(s + seq![gap] + word, word) == count_matches(s, word) + 1,
    decreases s.len(),
{
    let whole = s + seq![gap] + word;
    let n = word.len() as int;
    if s.len() == 0 {
        assert(whole =~= seq![gap] + word);
        assert(whole[0] == gap);
        if starts_with(whole, word) {
            assert(whole.subrange(0, n)[0] == word[0]);
            assert(word.contains(gap));
        }
        assert(!starts_with(whole, word));
        assert(whole.skip(1) =~= word);
        assert(word.subrange(0, n) =~= word);
        assert(starts_with(word, word));
        assert(word.skip(n).len() == 0);
        assert(count_matches(word.skip(n), word) == 0);
        assert(count_matches(word, word) == 1);
        assert(count_matches(whole, word) == count_matches(whole.skip(1), word));
        assert(count_matches(s, word) == 0);
    } else if s.len() >= n && starts_with(s, word) {
        assert(whole.subrange(0, n) =~= s.subrange(0, n));
        assert(starts_with(whole, word));
        assert(whole.skip(n) =~= s.skip(n) + seq![gap] + word);
        lemma_count_appended(s.skip(n), gap, word);
        assert(count_matches(whole, word) == 1 + count_matches(whole.skip(n), word));
        assert(count_matches(s, word) == 1 + count_matches(s.skip(n), word));
    } else {
        if starts_with(whole, word) {
            if s.len() >= n {
                assert(whole.subrange(0, n) =~= s.subrange(0, n));
            } else {
                assert(whole.subrange(0, n)[s.len() as int] == gap);
                assert(word[s.len() as int] == gap);
                assert(word.contains(gap));
            }
        }
        assert(!starts_with(whole, word));
        assert(whole.skip(1) =~= s.skip(1) + seq![gap] + word);
        lemma_count_appended(s.skip(1), gap, word);
        assert(count_matches(whole, word) == count_matches(whole.skip(1), word));
        if s.len() < n {
            assert(count_matches(s, word) == 0);
            assert(count_matches(s.skip(1), word) == 0);
        } else {
            assert(count_matches(s, word) == count_matches(s.skip(1), word));
        }
    }
}

// ---------------------------------------------------------------------------
// Splitting
// ---------------------------------------------------------------------------

/// A text splits at a marked position into the pieces before it and the pieces
/// after it.
pub proof fn lemma_split_mask_concat(a: Seq<char>, gap: char, b: Seq<char>, mask: Seq<bool>)
    requires
        mask.len() >= a.len() + 1 + b.len(),
        mask[a.len() as int],
    ensures
        split_mask(a + seq![gap] + b, mask) == split_mask(a, mask) + split_mask(
            b,
            mask.skip(a.len() as int + 1),
        ),
    decreases b.len(),
{
    let whole = a + seq![gap] + b;
    let rest = mask.skip(a.len() as int + 1);
    if b.len() == 0 {
        assert(whole.drop_last() =~= a);
        assert(split_mask(whole, mask) =~= split_mask(a, mask).push(Seq::<char>::empty()));
        assert(split_mask(b, rest) =~= seq![Seq::<char>::empty()]);
        assert(split_mask(a, mask).push(Seq::<char>::empty()) =~= split_mask(a, mask)
            + seq![Seq::<char>::empty()]);
    } else {
        let shorter = b.drop_last();
        assert(whole.drop_last() =~= a + seq![gap] + shorter);
        lemma_split_mask_concat(a, gap, shorter, mask);
        lemma_split_mask_len(shorter, rest);
        lemma_split_mask_len(a, mask);
        let left = split_mask(a, mask);
        let right = split_mask(shorter, rest);
        assert(mask[whole.len() - 1] == rest[b.len() - 1]);
        assert(whole.last() == b.last());
        if rest[b.len() - 1] {
            assert((left + right).push(Seq::<char>::empty()) =~= left + right.push(
                Seq::<char>::empty(),
            ));
        } else {
            assert((left + right).drop_last().push((left + right).last().push(b.last())) =~= left
                + right.drop_last().push(right.last().push(b.last())));
        }
    }
}

/// A text splits at a character of the class into the pieces of what comes
/// before it and the pieces of what comes after it.
pub proof fn lemma_split_concat(a: Seq<char>, gap: char, b: Seq<char>, class: CharClass)
    requires
        class.has(gap),
    ensures
        split(a + seq![gap] + b, class) == split(a, class) + split(b, class),
{
    let whole = a + seq![gap] + b;
    let mask = mask_of(whole, class);
    assert(whole[a.len() as int] == gap);
    lemma_split_mask_concat(a, gap, b, mask);
    assert forall|i: int| 0 <= i < a.len() implies mask[i] == mask_of(a, class)[i] by {
        assert(whole[i] == a[i]);
    }
    lemma_split_mask_agree(a, mask, mask_of(a, class));
    assert forall|i: int| 0 <= i < b.len() implies mask.skip(a.len() as int + 1)[i] == mask_of(
        b,
        class,
    )[i] by {
        assert(whole[a.len() + 1 + i] == b[i]);
    }
    lemma_split_mask_agree(b, mask.skip(a.len() as int + 1), mask_of(b, class));
}

/// A text without a character of the class is one piece.
pub proof fn lemma_split_free(s: Seq<char>, class: CharClass)
    requires
        free_of(s, class),
    ensures
        split(s, class) == seq![s],
    decreases s.len(),
{
    let mask = mask_of(s, class);
    if s.len() == 0 {
        assert(s =~= Seq::<char>::empty());
        assert(split(s, class) =~= seq![s]);
    } else {
        let shorter = s.drop_last();
        assert forall|i: int| 0 <= i < shorter.len() implies !class.has(
            #[trigger] shorter[i],
        ) by {
            assert(shorter[i] == s[i]);
        }
        lemma_split_free(shorter, class);
        lemma_split_mask_agree(shorter, mask, mask_of(shorter, class));
        assert(!mask[s.len() - 1]);
        assert(shorter.push(s.last()) =~= s);
        assert(seq![shorter].drop_last().push(seq![shorter].last().push(s.last())) =~= seq![s]);
    }
}

/// The members of two lists that are not empty are those of the one, then those
/// of the other.
pub proof fn lemma_nonempty_concat(x: Seq<Seq<char>>, y: Seq<Seq<char>>)
    ensures
        nonempty(x + y) == nonempty(x) + nonempty(y),
    decreases y.len(),
{
    if y.len() == 0 {
        assert(x + y =~= x);
        assert(nonempty(x) + nonempty(y) =~= nonempty(x));
    } else {
        assert((x + y).drop_last() =~= x + y.drop_last());
        assert((x + y).last() == y.last());
        lemma_nonempty_concat(x, y.drop_last());
        if y.last().len() > 0 {
            assert((nonempty(x) + nonempty(y.drop_last())).push(y.last()) =~= nonempty(x)
                + nonempty(y.drop_last()).push(y.last()));
        }
    }
}

/// A list without empty members has them all as members that are not empty.
pub proof fn lemma_nonempty_all(x: Seq<Seq<char>>)
    requires
        forall|i: int| 0 <= i < x.len() ==> (#[trigger] x[i]).len() > 0,
    ensures
        nonempty(x) == x,
    decreases x.len(),
{
    if x.len() > 0 {
        assert forall|i: int| 0 <= i < x.drop_last().len() implies (#[trigger] x.drop_last()[i]).len()
            > 0 by {
            assert(x.drop_last()[i] == x[i]);
        }
        lemma_nonempty_all(x.drop_last());
        assert(x.drop_last().push(x.last()) =~= x);
    }
}

/// A word added at the end of a text, after a space, is one word more.
pub proof fn lemma_words_appended(s: Seq<char>, gap: char, word: Seq<char>)
    requires
        is_space(gap),
        word.len() > 0,
        free_of(word, CharClass::Space),
    ensures
        words(s + seq![gap] + word) == words(s).push(word),
{
    lemma_split_concat(s, gap, word, CharClass::Space);
    lemma_split_free(word, CharClass::Space);
    lemma_nonempty_concat(split(s, CharClass::Space), seq![word]);
    assert(seq![word].drop_last() =~= Seq::<Seq<char>>::empty());
    assert(seq![word].last() == word);
    assert(nonempty(Seq::<Seq<char>>::empty()) =~= Seq::<Seq<char>>::empty());
    assert(nonempty(seq![word]) =~= Seq::<Seq<char>>::empty().push(word));
    assert(nonempty(seq![word]) =~= seq![word]);
    assert(words(s) + seq![word] =~= words(s).push(word));
}

// ---------------------------------------------------------------------------
// Trimming
// ---------------------------------------------------------------------------

/// Characters of the class before a text are stripped with its own.
pub proof fn lemma_strip_leading_run(run: Seq<char>, s: Seq<char>, class: CharClass)
    requires
        made_of(run, class),
    ensures
        strip_leading(run + s, class) == strip_leading(s, class),
    decreases run.len(),
{
    if run.len() == 0 {
        assert(run + s =~= s);
    } else {
        assert((run + s)[0] == run[0]);
        assert((run + s).skip(1) =~= run.skip(1) + s);
        assert forall|i: int| 0 <= i < run.skip(1).len() implies class.has(
            #[trigger] run.skip(1)[i],
        ) by {
            assert(run.skip(1)[i] == run[i + 1]);
        }
        lemma_strip_leading_run(run.skip(1), s, class);
    }
}

/// Characters of the class after a text are stripped with its own.
pub proof fn lemma_strip_trailing_run(s: Seq<char>, run: Seq<char>, class: CharClass)
    requires
        made_of(run, class),
    ensures
        strip_trailing(s + run, class) == strip_trailing(s, class),
    decreases run.len(),
{
    if run.len() == 0 {
        assert(s + run =~= s);
    } else {
        assert((s + run).last() == run.last());
        assert((s + run).drop_last() =~= s + run.drop_last());
        assert forall|i: int| 0 <= i < run.drop_last().len() implies class.has(
            #[trigger] run.drop_last()[i],
        ) by {
            assert(run.drop_last()[i] == run[i]);
        }
        lemma_strip_trailing_run(s, run.drop_last(), class);
    }
}

/// Stripping leaves a tight text as it is.
pub proof fn lemma_strip_tight(s: Seq<char>, class: CharClass)
    requires
        tight(s, class),
    ensures
        strip_leading(s, class) == s,
        strip_trailing(s, class) == s,
        strip(s, class) == s,
{
}

/// Trimming takes the white space around a tight text away, and nothing else.
pub proof fn lemma_trim_padded(before: Seq<char>, s: Seq<char>, after: Seq<char>)
    requires
        made_of(before, CharClass::Space),
        made_of(after, CharClass::Space),
        tight(s, CharClass::Space),
    ensures
        trim(before + s + after) == s,
{
    let class = CharClass::Space;
    assert(before + s + after =~= before + (s + after));
    lemma_strip_leading_run(before, s + after, class);
    if s.len() == 0 {
        assert(s + after =~= after + Seq::<char>::empty());
        lemma_strip_leading_run(after, Seq::<char>::empty(), class);
        assert(strip_leading(Seq::<char>::empty(), class) =~= Seq::<char>::empty());
        assert(s =~= Seq::<char>::empty());
    } else {
        assert((s + after)[0] == s[0]);
        lemma_strip_trailing_run(s, after, class);
    }
}

/// What is left after stripping at the end is a text's beginning.
pub proof fn lemma_strip_trailing_prefix(s: Seq<char>, class: CharClass)
    ensures
        strip_trailing(s, class).len() <= s.len(),
        strip_trailing(s, class) == s.take(strip_trailing(s, class).len() as int),
    decreases s.len(),
{
    if s.len() > 0 && class.has(s.last()) {
        lemma_strip_trailing_prefix(s.drop_last(), class);
        let k = strip_trailing(s.drop_last(), class).len() as int;
        assert(s.drop_last().take(k) =~= s.take(k));
    } else {
        assert(s.take(s.len() as int) =~= s);
    }
}

// ---------------------------------------------------------------------------
// Finding
// ---------------------------------------------------------------------------

/// A pattern that occurs at the end of `a`'s length in `a + p + b`, and nowhere
/// before, is found there.
pub proof fn lemma_find_first(a: Seq<char>, p: Seq<char>, b: Seq<char>)
    requires
        forall|j: int| 0 <= j < a.len() ==> !occurs_at(a + p + b, p, j),
    ensures
        find(a + p + b, p) == Some(a.len() as int),
{
    let whole = a + p + b;
    assert(whole.subrange(a.len() as int, (a.len() + p.len()) as int) =~= p);
    assert(occurs_at(whole, p, a.len() as int));
    lemma_find(whole, p);
}

/// A character is first found after a text that does not hold it.
pub proof fn lemma_find_char(a: Seq<char>, c: char, b: Seq<char>)
    requires
        !a.contains(c),
    ensures
        find(a + seq![c] + b, seq![c]) == Some(a.len() as int),
{
    let whole = a + seq![c] + b;
    assert forall|j: int| 0 <= j < a.len() implies !occurs_at(whole, seq![c], j) by {
        if occurs_at(whole, seq![c], j) {
            assert(whole.subrange(j, j + 1)[0] == c);
            assert(a[j] == c);
            assert(a.contains(c));
        }
    }
    lemma_find_first(a, seq![c], b);
}

/// A character is not found in a text that does not hold it.
pub proof fn lemma_find_char_none(a: Seq<char>, c: char)
    requires
        !a.contains(c),
    ensures
        find(a, seq![c]) is None,
{
    lemma_find(a, seq![c]);
    if let Some(j) = find(a, seq![c]) {
        assert(a.subrange(j, j + 1)[0] == c);
        assert(a[j] == c);
        assert(a.contains(c));
    }
}

// ---------------------------------------------------------------------------
// Lines
// ---------------------------------------------------------------------------

/// A line added at the end of a text that ends its last line, and ended by a
/// line feed itself, is one line more.
pub proof fn lemma_lines_appended(text: Seq<char>, line: Seq<char>)
    requires
        text.len() == 0 || text.last() == '\n',
        !line.contains('\n'),
        line.len() == 0 || line.last() != '\r',
    ensures
        lines(text + line + seq!['\n']) == lines(text).push(line),
{
    let feed = CharClass::Exactly('\n');
    let none = Seq::<char>::empty();
    assert forall|i: int| 0 <= i < line.len() implies !feed.has(#[trigger] line[i]) by {
        if line[i] == '\n' {
            assert(line.contains('\n'));
        }
    }
    lemma_split_free(line, feed);
    lemma_split_concat(line, '\n', none, feed);
    assert(line + seq!['\n'] + none =~= line + seq!['\n']);
    assert(split(none, feed) =~= seq![none]);
    let tail = split(line + seq!['\n'], feed);
    assert(tail =~= seq![line, none]);
    if text.len() == 0 {
        assert(text + line + seq!['\n'] =~= line + seq!['\n']);
        assert(split(text, feed) =~= seq![none]);
        assert(lines(text) =~= Seq::<Seq<char>>::empty());
        assert(lines(line + seq!['\n']) =~= seq![line]);
        assert(lines(text).push(line) =~= seq![line]);
    } else {
        let init = text.drop_last();
        assert(text =~= init + seq!['\n'] + none);
        lemma_split_concat(init, '\n', none, feed);
        let head = split(init, feed);
        assert(split(text, feed) =~= head + seq![none]);
        assert(text + line + seq!['\n'] =~= init + seq!['\n'] + (line + seq!['\n']));
        lemma_split_concat(init, '\n', line + seq!['\n'], feed);
        let whole = split(text + line + seq!['\n'], feed);
        assert(whole =~= head + seq![line, none]);
        assert(lines(text) =~= Seq::new(head.len(), |i: int| strip_cr(head[i])));
        assert(lines(text + line + seq!['\n']) =~= Seq::new(
            head.len() + 1,
            |i: int| strip_cr((head + seq![line])[i]),
        ));
        assert(lines(text + line + seq!['\n']) =~= lines(text).push(line));
    }
}

// ---------------------------------------------------------------------------
// What trimming leaves
// ---------------------------------------------------------------------------

/// A text is what stripping at its start takes away, all of the class, and
/// what it leaves, which does not start with the class.
pub proof fn lemma_strip_leading_parts(s: Seq<char>, class: CharClass) -> (run: Seq<char>)
    ensures
        s == run + strip_leading(s, class),
        made_of(run, class),
        strip_leading(s, class).len() == 0 || !class.has(strip_leading(s, class)[0]),
    decreases s.len(),
{
    if s.len() > 0 && class.has(s[0]) {
        let rest = lemma_strip_leading_parts(s.skip(1), class);
        let run = seq![s[0]] + rest;
        let left = strip_leading(s.skip(1), class);
        assert(s.skip(1) == rest + left);
        assert(s =~= seq![s[0]] + s.skip(1));
        assert(run + left =~= seq![s[0]] + (rest + left));
        assert forall|i: int| 0 <= i < run.len() implies class.has(#[trigger] run[i]) by {
            if i > 0 {
                assert(run[i] == rest[i - 1]);
            }
        }
        run
    } else {
        let run = Seq::<char>::empty();
        assert(s =~= run + strip_leading(s, class));
        run
    }
}

/// A text is what stripping at its end leaves, which does not end with the
/// class, and what it takes away, all of the class.
pub proof fn lemma_strip_trailing_parts(s: Seq<char>, class: CharClass) -> (run: Seq<char>)
    ensures
        s == strip_trailing(s, class) + run,
        made_of(run, class),
        strip_trailing(s, class).len() == 0 || !class.has(strip_trailing(s, class).last()),
    decreases s.len(),
{
    if s.len() > 0 && class.has(s.last()) {
        let rest = lemma_strip_trailing_parts(s.drop_last(), class);
        let run = rest.push(s.last());
        let left = strip_trailing(s.drop_last(), class);
        assert(s.drop_last() == left + rest);
        assert(s =~= s.drop_last().push(s.last()));
        assert(left + run =~= (left + rest).push(s.last()));
        assert forall|i: int| 0 <= i < run.len() implies class.has(#[trigger] run[i]) by {
            if i < rest.len() {
                assert(run[i] == rest[i]);
            }
        }
        run
    } else {
        let run = Seq::<char>::empty();
        assert(s =~= strip_trailing(s, class) + run);
        run
    }
}

/// A text is white space, what trimming leaves of it, and white space; what
/// trimming leaves has none at either end.
pub proof fn lemma_trim_parts(s: Seq<char>) -> (runs: (Seq<char>, Seq<char>))
    ensures
        s == runs.0 + trim(s) + runs.1,
        made_of(runs.0, CharClass::Space),
        made_of(runs.1, CharClass::Space),
        tight(trim(s), CharClass::Space),
{
    let class = CharClass::Space;
    let lead = lemma_strip_leading_parts(s, class);
    let core = strip_leading(s, class);
    let trail = lemma_strip_trailing_parts(core, class);
    lemma_strip_trailing_prefix(core, class);
    if trim(s).len() > 0 {
        assert(trim(s)[0] == core[0]);
    }
    assert(s =~= lead + trim(s) + trail);
    (lead, trail)
}

/// Trimming sees no white space around a text: a text with white space put
/// before and behind it is trimmed to what the text is trimmed to.
pub proof fn lemma_trim_around(before: Seq<char>, s: Seq<char>, after: Seq<char>)
    requires
        made_of(before, CharClass::Space),
        made_of(after, CharClass::Space),
    ensures
        trim(before + s + after) == trim(s),
{
    let class = CharClass::Space;
    let (lead, trail) = lemma_trim_parts(s);
    let core = trim(s);
    assert(made_of(before + lead, class)) by {
        assert forall|i: int| 0 <= i < (before + lead).len() implies class.has(
            #[trigger] (before + lead)[i],
        ) by {
            if i < before.len() {
                assert((before + lead)[i] == before[i]);
            } else {
                assert((before + lead)[i] == lead[i - before.len()]);
            }
        }
    }
    assert(made_of(trail + after, class)) by {
        assert forall|i: int| 0 <= i < (trail + after).len() implies class.has(
            #[trigger] (trail + after)[i],
        ) by {
            if i < trail.len() {
                assert((trail + after)[i] == trail[i]);
            } else {
                assert((trail + after)[i] == after[i - trail.len()]);
            }
        }
    }
    assert(before + s + after =~= (before + lead) + core + (trail + after));
    lemma_trim_padded(before + lead, core, trail + after);
}

/// Stripping at the end of a text leaves alone what stands before a character
/// that is not of the class.
pub proof fn lemma_strip_trailing_behind(head: Seq<char>, rest: Seq<char>, class: CharClass)
    requires
        head.len() > 0,
        !class.has(head.last()),
    ensures
        strip_trailing(head + rest, class) == head + strip_trailing(rest, class),
    decreases rest.len(),
{
    if rest.len() == 0 {
        assert(head + rest =~= head);
        assert(head + strip_trailing(rest, class) =~= head);
    } else if class.has(rest.last()) {
        assert((head + rest).last() == rest.last());
        assert((head + rest).drop_last() =~= head + rest.drop_last());
        lemma_strip_trailing_behind(head, rest.drop_last(), class);
    } else {
        assert((head + rest).last() == rest.last());
    }
}

/// A carriage return at the end of a line makes no difference to what the
/// line is trimmed to.
pub proof fn lemma_trim_without_return(line: Seq<char>)
    ensures
        trim(strip_cr(line)) == trim(line),
{
    if line.len() > 0 && line.last() == '\r' {
        let none = Seq::<char>::empty();
        let end = seq!['\r'];
        assert(line =~= none + line.drop_last() + end);
        assert(is_space('\r'));
        lemma_trim_around(none, line.drop_last(), end);
    }
}

/// No piece holds a character of the positions that the mask marks as gaps.
pub proof fn lemma_split_mask_free(s: Seq<char>, mask: Seq<bool>, class: CharClass)
    requires
        mask.len() >= s.len(),
        forall|j: int| 0 <= j < s.len() && !mask[j] ==> !class.has(#[trigger] s[j]),
    ensures
        forall|i: int|
            0 <= i < split_mask(s, mask).len() ==> free_of(#[trigger] split_mask(s, mask)[i], class),
    decreases s.len(),
{
    lemma_split_mask_len(s, mask);
    if s.len() > 0 {
        let init = split_mask(s.drop_last(), mask);
        lemma_split_mask_len(s.drop_last(), mask);
        assert forall|j: int| 0 <= j < s.drop_last().len() && !mask[j] implies !class.has(
            #[trigger] s.drop_last()[j],
        ) by {
            assert(s.drop_last()[j] == s[j]);
        }
        lemma_split_mask_free(s.drop_last(), mask, class);
        let pieces = split_mask(s, mask);
        assert forall|i: int| 0 <= i < pieces.len() implies free_of(#[trigger] pieces[i], class) by {
            if i < init.len() - 1 {
                assert(pieces[i] == init[i]);
            } else if mask[s.len() - 1] {
                if i < init.len() {
                    assert(pieces[i] == init[i]);
                }
            } else {
                let grown = init.last().push(s.last());
                assert(pieces[i] == grown);
                assert(free_of(init[init.len() - 1], class));
                assert forall|k: int| 0 <= k < grown.len() implies !class.has(#[trigger] grown[k]) by {
                    if k < init.last().len() {
                        assert(grown[k] == init.last()[k]);
                    } else {
                        assert(grown[k] == s[s.len() - 1]);
                    }
                }
            }
        }
    }
}

/// No line holds a line feed.
pub proof fn lemma_lines_hold_no_feed(s: Seq<char>)
    ensures
        forall|i: int| 0 <= i < lines(s).len() ==> !(#[trigger] lines(s)[i]).contains('\n'),
{
    let feed = CharClass::Exactly('\n');
    let pieces = split(s, feed);
    lemma_split_mask_free(s, mask_of(s, feed), feed);
    lemma_split_mask_len(s, mask_of(s, feed));
    assert forall|i: int| 0 <= i < lines(s).len() implies !(#[trigger] lines(s)[i]).contains(
        '\n',
    ) by {
        let l = lines(s)[i];
        if l.contains('\n') {
            let k = choose|k: int| 0 <= k < l.len() && l[k] == '\n';
            assert(free_of(pieces[i], feed));
            if i < pieces.len() - 1 {
                assert(l == strip_cr(pieces[i]));
                assert(l[k] == pieces[i][k]);
            } else {
                assert(l == pieces[i]);
            }
            assert(feed.has(pieces[i][k]));
        }
    }
}

} // verus!
