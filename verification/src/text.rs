//! Character-sequence primitives shared by the record codec and the search engine.
//!
//! Every operation is specified over `Seq<char>` and implemented over `Vec<char>`;
//! `chars_of` and `string_of` move between that representation and `str`/`String`.

use vstd::prelude::*;

verus! {

/// Characters with the Unicode `White_Space` property.
pub open spec fn is_space(c: char) -> bool {
    let u = c as u32;
    u == 0x20 || (0x09 <= u && u <= 0x0d) || u == 0x85 || u == 0xa0 || u == 0x1680 || (0x2000 <= u
        && u <= 0x200a) || u == 0x2028 || u == 0x2029 || u == 0x202f || u == 0x205f || u == 0x3000
}

/// Whether `c` is white space.
pub fn is_space_char(c: char) -> (r: bool)
    ensures
        r == is_space(c),
{
    let u = c as u32;
    u == 0x20 || (0x09 <= u && u <= 0x0d) || u == 0x85 || u == 0xa0 || u == 0x1680 || (0x2000 <= u
        && u <= 0x200a) || u == 0x2028 || u == 0x2029 || u == 0x202f || u == 0x205f || u == 0x3000
}

/// A set of characters that text is trimmed of or split at.
#[derive(Clone, Copy, Debug)]
pub enum CharClass {
    /// Unicode white space.
    Space,
    /// One given character.
    Exactly(char),
}

impl CharClass {
    /// Whether `c` belongs to the class.
    pub open spec fn has(self, c: char) -> bool {
        match self {
            CharClass::Space => is_space(c),
            CharClass::Exactly(x) => c == x,
        }
    }

    /// Whether `c` belongs to the class.
    pub fn contains(&self, c: char) -> (r: bool)
        ensures
            r == self.has(c),
    {
        match self {
            CharClass::Space => is_space_char(c),
            CharClass::Exactly(x) => c == *x,
        }
    }
}

/// Position by position, whether the character of `s` there belongs to `class`.
pub open spec fn mask_of(s: Seq<char>, class: CharClass) -> Seq<bool> {
    Seq::new(s.len(), |i: int| class.has(s[i]))
}

/// The views of a vector of character vectors.
pub open spec fn views(v: Seq<Vec<char>>) -> Seq<Seq<char>> {
    Seq::new(v.len(), |i: int| v[i]@)
}

/// The views of a vector of strings.
pub open spec fn string_views(v: Seq<String>) -> Seq<Seq<char>> {
    Seq::new(v.len(), |i: int| v[i]@)
}

// ---------------------------------------------------------------------------
// Prefixes, suffixes, occurrences
// ---------------------------------------------------------------------------

/// `s` starts with `p`.
pub open spec fn starts_with(s: Seq<char>, p: Seq<char>) -> bool {
    p.len() <= s.len() && s.subrange(0, p.len() as int) == p
}

/// `s` ends with `p`.
pub open spec fn ends_with(s: Seq<char>, p: Seq<char>) -> bool {
    p.len() <= s.len() && s.subrange(s.len() - p.len(), s.len() as int) == p
}

/// `p` occurs in `s` at offset `i`.
pub open spec fn occurs_at(s: Seq<char>, p: Seq<char>, i: int) -> bool {
    0 <= i && i + p.len() <= s.len() && s.subrange(i, i + p.len()) == p
}

/// Offset of the first occurrence of `p` in `s`.
pub open spec fn find(s: Seq<char>, p: Seq<char>) -> Option<int>
    decreases s.len(),
{
    if starts_with(s, p) {
        Some(0)
    } else if s.len() == 0 {
        None
    } else {
        match find(s.skip(1), p) {
            Some(i) => Some(i + 1),
            None => None,
        }
    }
}

/// `p` occurs in `s`.
pub open spec fn contains(s: Seq<char>, p: Seq<char>) -> bool {
    find(s, p) is Some
}

/// Number of occurrences of `p` met when scanning `s` from the left and resuming
/// after each occurrence; the empty pattern is met before each character and at
/// the end.
pub open spec fn count_matches(s: Seq<char>, p: Seq<char>) -> nat
    decreases s.len(),
{
    if p.len() == 0 {
        s.len() + 1
    } else if s.len() < p.len() {
        0
    } else if starts_with(s, p) {
        1 + count_matches(s.skip(p.len() as int), p)
    } else {
        count_matches(s.skip(1), p)
    }
}

/// What `find` returns is an occurrence, and the leftmost one.
pub proof fn lemma_find(s: Seq<char>, p: Seq<char>)
    ensures
        match find(s, p) {
            Some(i) => occurs_at(s, p, i) && forall|j: int| 0 <= j < i ==> !occurs_at(s, p, j),
            None => forall|j: int| !occurs_at(s, p, j),
        },
    decreases s.len(),
{
    if starts_with(s, p) {
    } else if s.len() == 0 {
        assert forall|j: int| !occurs_at(s, p, j) by {
            if occurs_at(s, p, j) {
                assert(j == 0);
                assert(starts_with(s, p));
            }
        }
    } else {
        let t = s.skip(1);
        lemma_find(t, p);
        assert forall|j: int| occurs_at(s, p, j) && j > 0 implies occurs_at(t, p, j - 1) by {
            assert(t.subrange(j - 1, j - 1 + p.len()) =~= s.subrange(j, j + p.len()));
        }
        assert forall|j: int| occurs_at(t, p, j) implies occurs_at(s, p, j + 1) by {
            assert(t.subrange(j, j + p.len()) =~= s.subrange(j + 1, j + 1 + p.len()));
        }
        assert(!occurs_at(s, p, 0));
        match find(t, p) {
            Some(i) => {
                assert(occurs_at(s, p, i + 1));
                assert forall|j: int| 0 <= j < i + 1 implies !occurs_at(s, p, j) by {
                    if j > 0 && occurs_at(s, p, j) {
                        assert(occurs_at(t, p, j - 1));
                    }
                }
            },
            None => {
                assert forall|j: int| !occurs_at(s, p, j) by {
                    if occurs_at(s, p, j) {
                        assert(j > 0);
                        assert(occurs_at(t, p, j - 1));
                    }
                }
            },
        }
    }
}

/// `a == b`, character by character.
pub fn same_chars(a: &Vec<char>, b: &Vec<char>) -> (r: bool)
    ensures
        r == (a@ == b@),
{
    if a.len() != b.len() {
        return false;
    }
    let mut i: usize = 0;
    while i < a.len()
        invariant
            i <= a.len(),
            a.len() == b.len(),
            forall|k: int| 0 <= k < i ==> a@[k] == b@[k],
        decreases a.len() - i,
    {
        if a[i] != b[i] {
            return false;
        }
        i += 1;
    }
    assert(a@ =~= b@);
    true
}

/// Whether `p` occurs in `s` at offset `at`.
pub fn matches_at(s: &Vec<char>, p: &Vec<char>, at: usize) -> (r: bool)
    ensures
        r == occurs_at(s@, p@, at as int),
{
    if at > s.len() || p.len() > s.len() - at {
        return false;
    }
    let mut k: usize = 0;
    while k < p.len()
        invariant
            k <= p.len(),
            at + p.len() <= s.len(),
            forall|j: int| 0 <= j < k ==> s@[at + j] == p@[j],
        decreases p.len() - k,
    {
        if s[at + k] != p[k] {
            assert(s@.subrange(at as int, at + p.len())[k as int] == s@[at + k]);
            return false;
        }
        k += 1;
    }
    assert(s@.subrange(at as int, at + p.len()) =~= p@);
    true
}

/// Whether `s` starts with `p`.
pub fn has_prefix(s: &Vec<char>, p: &Vec<char>) -> (r: bool)
    ensures
        r == starts_with(s@, p@),
{
    matches_at(s, p, 0)
}

/// Whether `s` ends with `p`.
pub fn has_suffix(s: &Vec<char>, p: &Vec<char>) -> (r: bool)
    ensures
        r == ends_with(s@, p@),
{
    if p.len() > s.len() {
        return false;
    }
    matches_at(s, p, s.len() - p.len())
}

/// Offset of the first occurrence of `p` in `s` at or after `from`, counted from `from`.
pub fn find_from(s: &Vec<char>, p: &Vec<char>, from: usize) -> (r: Option<usize>)
    requires
        from <= s.len(),
    ensures
        r is Some <==> find(s@.skip(from as int), p@) is Some,
        r is Some ==> r->0 as int == find(s@.skip(from as int), p@)->0,
        r is Some ==> from + r->0 + p.len() <= s.len(),
{
    let ghost t = s@.skip(from as int);
    proof {
        lemma_find(t, p@);
    }
    if p.len() > s.len() - from {
        return None;
    }
    let last: usize = s.len() - p.len();
    let mut i: usize = from;
    loop
        invariant
            from <= i <= last,
            last == s.len() - p.len(),
            t == s@.skip(from as int),
            forall|j: int| 0 <= j < i - from ==> !occurs_at(t, p@, j),
        decreases last - i,
    {
        let hit = matches_at(s, p, i);
        proof {
            assert(t.subrange(i - from, i - from + p.len()) =~= s@.subrange(i as int, i + p.len()));
            assert(hit == occurs_at(t, p@, i - from));
            lemma_find(t, p@);
        }
        if hit {
            return Some(i - from);
        }
        if i >= last {
            return None;
        }
        i += 1;
    }
}

/// Offset of the first occurrence of `p` in `s`.
pub fn find_in(s: &Vec<char>, p: &Vec<char>) -> (r: Option<usize>)
    ensures
        r is Some <==> find(s@, p@) is Some,
        r is Some ==> r->0 as int == find(s@, p@)->0,
        r is Some ==> r->0 + p.len() <= s.len(),
{
    assert(s@.skip(0) =~= s@);
    find_from(s, p, 0)
}

/// Whether `p` occurs in `s`.
pub fn contains_chars(s: &Vec<char>, p: &Vec<char>) -> (r: bool)
    ensures
        r == contains(s@, p@),
{
    find_in(s, p).is_some()
}

/// The characters of `s` from `from` up to `to`.
pub fn slice_of(s: &Vec<char>, from: usize, to: usize) -> (out: Vec<char>)
    requires
        from <= to <= s.len(),
    ensures
        out@ == s@.subrange(from as int, to as int),
{
    let mut out: Vec<char> = Vec::new();
    let mut i: usize = from;
    while i < to
        invariant
            from <= i <= to <= s.len(),
            out@ == s@.subrange(from as int, i as int),
        decreases to - i,
    {
        out.push(s[i]);
        proof {
            assert(s@.subrange(from as int, i + 1) =~= s@.subrange(from as int, i as int).push(
                s@[i as int],
            ));
        }
        i += 1;
    }
    out
}

/// Appends the characters of `more` to `out`.
pub fn push_all(out: &mut Vec<char>, more: &Vec<char>)
    ensures
        final(out)@ == old(out)@ + more@,
{
    let mut i: usize = 0;
    while i < more.len()
        invariant
            i <= more.len(),
            out@ == old(out)@ + more@.take(i as int),
        decreases more.len() - i,
    {
        out.push(more[i]);
        proof {
            assert(more@.take(i + 1) =~= more@.take(i as int).push(more@[i as int]));
            assert(old(out)@ + more@.take(i + 1) =~= (old(out)@ + more@.take(i as int)).push(
                more@[i as int],
            ));
        }
        i += 1;
    }
    proof {
        assert(more@.take(more@.len() as int) =~= more@);
    }
}

/// The characters of `s`, in order.
pub fn chars_of(s: &str) -> (out: Vec<char>)
    ensures
        out@ == s@,
{
    let mut out: Vec<char> = Vec::new();
    for c in it: s.chars()
        invariant
            out@ == s@.take(it.index() as int),
            it.seq() == s@,
    {
        out.push(c);
        proof {
            assert(s@.take(it.index() + 1) =~= s@.take(it.index() as int).push(
                s@[it.index() as int],
            ));
        }
    }
    proof {
        assert(s@.take(s@.len() as int) =~= s@);
    }
    out
}

/// Appends `c` to `s`, as `String::push` does.
pub assume_specification[ String::push ](s: &mut String, c: char)
    ensures
        final(s)@ == old(s)@.push(c),
;

/// The string made of the characters of `v`, in order.
pub fn string_of(v: &Vec<char>) -> (out: String)
    ensures
        out@ == v@,
{
    let mut out = String::new();
    let mut i: usize = 0;
    while i < v.len()
        invariant
            i <= v.len(),
            out@ == v@.take(i as int),
        decreases v.len() - i,
    {
        out.push(v[i]);
        proof {
            assert(v@.take(i + 1) =~= v@.take(i as int).push(v@[i as int]));
        }
        i += 1;
    }
    proof {
        assert(v@.take(v@.len() as int) =~= v@);
    }
    out
}

/// Number of left-to-right, non-overlapping occurrences of `p` in `s`.
pub fn count_occurrences(s: &Vec<char>, p: &Vec<char>) -> (n: u128)
    ensures
        n == count_matches(s@, p@),
        n <= s.len() + 1,
{
    if p.len() == 0 {
        return s.len() as u128 + 1;
    }
    let mut n: u128 = 0;
    let mut i: usize = 0;
    assert(s@.skip(0) =~= s@);
    while i < s.len() && p.len() <= s.len() - i
        invariant
            i <= s.len(),
            p.len() > 0,
            n <= i,
            count_matches(s@, p@) == n + count_matches(s@.skip(i as int), p@),
        decreases s.len() - i,
    {
        let ghost t = s@.skip(i as int);
        let hit = matches_at(s, p, i);
        proof {
            assert(t.subrange(0, p.len() as int) =~= s@.subrange(i as int, i + p.len()));
        }
        if hit {
            assert(t.skip(p.len() as int) =~= s@.skip(i + p.len()));
            n += 1;
            i += p.len();
        } else {
            assert(t.skip(1) =~= s@.skip(i + 1));
            i += 1;
        }
    }
    n
}

// ---------------------------------------------------------------------------
// Trimming
// ---------------------------------------------------------------------------

/// `s` without its longest prefix made of characters of `class`.
pub open spec fn strip_leading(s: Seq<char>, class: CharClass) -> Seq<char>
    decreases s.len(),
{
    if s.len() > 0 && class.has(s[0]) {
        strip_leading(s.skip(1), class)
    } else {
        s
    }
}

/// `s` without its longest suffix made of characters of `class`.
pub open spec fn strip_trailing(s: Seq<char>, class: CharClass) -> Seq<char>
    decreases s.len(),
{
    if s.len() > 0 && class.has(s.last()) {
        strip_trailing(s.drop_last(), class)
    } else {
        s
    }
}

/// `s` without the characters of `class` at either end.
pub open spec fn strip(s: Seq<char>, class: CharClass) -> Seq<char> {
    strip_trailing(strip_leading(s, class), class)
}

/// `s` without white space at either end.
pub open spec fn trim(s: Seq<char>) -> Seq<char> {
    strip(s, CharClass::Space)
}

/// Number of characters of `class` at the start of `s`.
pub fn leading_run(s: &Vec<char>, from: usize, to: usize, class: CharClass) -> (n: usize)
    requires
        from <= to <= s.len(),
    ensures
        from <= n <= to,
        strip_leading(s@.subrange(from as int, to as int), class) == s@.subrange(
            n as int,
            to as int,
        ),
{
    let mut i: usize = from;
    while i < to && class.contains(s[i])
        invariant
            from <= i <= to <= s.len(),
            strip_leading(s@.subrange(from as int, to as int), class) == strip_leading(
                s@.subrange(i as int, to as int),
                class,
            ),
        decreases to - i,
    {
        proof {
            assert(s@.subrange(i as int, to as int).skip(1) =~= s@.subrange(i + 1, to as int));
        }
        i += 1;
    }
    i
}

/// End of `s[from..to]` once its trailing characters of `class` are left out.
pub fn trailing_run(s: &Vec<char>, from: usize, to: usize, class: CharClass) -> (n: usize)
    requires
        from <= to <= s.len(),
    ensures
        from <= n <= to,
        strip_trailing(s@.subrange(from as int, to as int), class) == s@.subrange(
            from as int,
            n as int,
        ),
{
    let mut i: usize = to;
    while i > from && class.contains(s[i - 1])
        invariant
            from <= i <= to <= s.len(),
            strip_trailing(s@.subrange(from as int, to as int), class) == strip_trailing(
                s@.subrange(from as int, i as int),
                class,
            ),
        decreases i - from,
    {
        proof {
            assert(s@.subrange(from as int, i as int).drop_last() =~= s@.subrange(
                from as int,
                i - 1,
            ));
        }
        i -= 1;
    }
    i
}

/// `s` without the characters of `class` at its start.
pub fn strip_leading_chars(s: &Vec<char>, class: CharClass) -> (out: Vec<char>)
    ensures
        out@ == strip_leading(s@, class),
{
    assert(s@.subrange(0, s@.len() as int) =~= s@);
    let a = leading_run(s, 0, s.len(), class);
    slice_of(s, a, s.len())
}

/// `s` without the characters of `class` at its end.
pub fn strip_trailing_chars(s: &Vec<char>, class: CharClass) -> (out: Vec<char>)
    ensures
        out@ == strip_trailing(s@, class),
{
    assert(s@.subrange(0, s@.len() as int) =~= s@);
    let b = trailing_run(s, 0, s.len(), class);
    slice_of(s, 0, b)
}

/// `s` without the characters of `class` at either end.
pub fn strip_chars(s: &Vec<char>, class: CharClass) -> (out: Vec<char>)
    ensures
        out@ == strip(s@, class),
{
    assert(s@.subrange(0, s@.len() as int) =~= s@);
    let a = leading_run(s, 0, s.len(), class);
    let b = trailing_run(s, a, s.len(), class);
    slice_of(s, a, b)
}

/// `s` without white space at either end.
pub fn trim_chars(s: &Vec<char>) -> (out: Vec<char>)
    ensures
        out@ == trim(s@),
{
    strip_chars(s, CharClass::Space)
}

// ---------------------------------------------------------------------------
// Splitting and joining
// ---------------------------------------------------------------------------

/// The pieces of `s` between the positions that `mask` marks; a marked character
/// belongs to no piece. There is always one piece more than marks.
pub open spec fn split_mask(s: Seq<char>, mask: Seq<bool>) -> Seq<Seq<char>>
    decreases s.len(),
{
    if s.len() == 0 {
        seq![Seq::<char>::empty()]
    } else {
        let init = split_mask(s.drop_last(), mask);
        if mask[s.len() - 1] {
            init.push(Seq::<char>::empty())
        } else {
            init.drop_last().push(init.last().push(s.last()))
        }
    }
}

/// The pieces of `s` between its characters of `class`.
pub open spec fn split(s: Seq<char>, class: CharClass) -> Seq<Seq<char>> {
    split_mask(s, mask_of(s, class))
}

/// `parts` without its empty members.
pub open spec fn nonempty(parts: Seq<Seq<char>>) -> Seq<Seq<char>>
    decreases parts.len(),
{
    if parts.len() == 0 {
        Seq::<Seq<char>>::empty()
    } else if parts.last().len() > 0 {
        nonempty(parts.drop_last()).push(parts.last())
    } else {
        nonempty(parts.drop_last())
    }
}

/// The maximal runs of characters of `s` that are not white space.
pub open spec fn words(s: Seq<char>) -> Seq<Seq<char>> {
    nonempty(split(s, CharClass::Space))
}

/// `l` without one carriage return at its end.
pub open spec fn strip_cr(l: Seq<char>) -> Seq<char> {
    if l.len() > 0 && l.last() == '\r' {
        l.drop_last()
    } else {
        l
    }
}

/// The lines of `s`: the text before each line feed, less a carriage return that
/// precedes it, and what follows the last line feed if that is not empty.
pub open spec fn lines(s: Seq<char>) -> Seq<Seq<char>> {
    let pieces = split(s, CharClass::Exactly('\n'));
    let ended = Seq::new((pieces.len() - 1) as nat, |i: int| strip_cr(pieces[i]));
    if pieces.last().len() > 0 {
        ended.push(pieces.last())
    } else {
        ended
    }
}

/// The members of `parts` with `sep` between each two.
pub open spec fn join(parts: Seq<Seq<char>>, sep: Seq<char>) -> Seq<char>
    decreases parts.len(),
{
    if parts.len() == 0 {
        Seq::<char>::empty()
    } else if parts.len() == 1 {
        parts[0]
    } else {
        join(parts.drop_last(), sep) + sep + parts.last()
    }
}

/// A text falls into one piece at least.
pub proof fn lemma_split_mask_len(s: Seq<char>, mask: Seq<bool>)
    ensures
        split_mask(s, mask).len() >= 1,
    decreases s.len(),
{
    if s.len() > 0 {
        lemma_split_mask_len(s.drop_last(), mask);
    }
}

/// Only the part of the mask that lies over `s` matters.
pub proof fn lemma_split_mask_agree(s: Seq<char>, m1: Seq<bool>, m2: Seq<bool>)
    requires
        forall|i: int| 0 <= i < s.len() ==> m1[i] == m2[i],
    ensures
        split_mask(s, m1) == split_mask(s, m2),
    decreases s.len(),
{
    if s.len() > 0 {
        lemma_split_mask_agree(s.drop_last(), m1, m2);
    }
}

/// The pieces of `s` between the positions that `mask` marks.
pub fn split_at_marks(s: &Vec<char>, mask: &Vec<bool>) -> (parts: Vec<Vec<char>>)
    requires
        mask.len() == s.len(),
    ensures
        views(parts@) == split_mask(s@, mask@),
{
    let mut parts: Vec<Vec<char>> = Vec::new();
    let mut cur: Vec<char> = Vec::new();
    let mut i: usize = 0;
    proof {
        assert(views(parts@).push(cur@) =~= split_mask(s@.take(0), mask@));
    }
    while i < s.len()
        invariant
            i <= s.len(),
            mask.len() == s.len(),
            views(parts@).push(cur@) == split_mask(s@.take(i as int), mask@),
        decreases s.len() - i,
    {
        let ghost before = views(parts@).push(cur@);
        proof {
            assert(s@.take(i + 1).drop_last() =~= s@.take(i as int));
            assert(s@.take(i + 1).last() == s@[i as int]);
        }
        if mask[i] {
            parts.push(cur);
            cur = Vec::new();
            proof {
                assert(views(parts@).push(cur@) =~= before.push(Seq::<char>::empty()));
            }
        } else {
            cur.push(s[i]);
            proof {
                assert(views(parts@).push(cur@) =~= before.drop_last().push(
                    before.last().push(s@[i as int]),
                ));
            }
        }
        i += 1;
    }
    proof {
        assert(s@.take(s@.len() as int) =~= s@);
    }
    let ghost done = views(parts@).push(cur@);
    parts.push(cur);
    proof {
        assert(views(parts@) =~= done);
    }
    parts
}

/// Whether each character of `s` belongs to `class`.
pub fn marks_of(s: &Vec<char>, class: CharClass) -> (mask: Vec<bool>)
    ensures
        mask@ == mask_of(s@, class),
{
    let mut mask: Vec<bool> = Vec::new();
    let mut i: usize = 0;
    while i < s.len()
        invariant
            i <= s.len(),
            mask.len() == i,
            forall|k: int| 0 <= k < i ==> mask@[k] == class.has(s@[k]),
        decreases s.len() - i,
    {
        mask.push(class.contains(s[i]));
        i += 1;
    }
    proof {
        assert(mask@ =~= mask_of(s@, class));
    }
    mask
}

/// The pieces of `s` between its characters of `class`.
pub fn split_chars(s: &Vec<char>, class: CharClass) -> (parts: Vec<Vec<char>>)
    ensures
        views(parts@) == split(s@, class),
        parts.len() >= 1,
{
    let mask = marks_of(s, class);
    proof {
        lemma_split_mask_len(s@, mask@);
    }
    split_at_marks(s, &mask)
}

/// `parts` without its empty members.
pub fn drop_empty(parts: Vec<Vec<char>>) -> (out: Vec<Vec<char>>)
    ensures
        views(out@) == nonempty(views(parts@)),
{
    let mut out: Vec<Vec<char>> = Vec::new();
    let ghost all = views(parts@);
    let mut i: usize = 0;
    proof {
        assert(views(out@) =~= nonempty(all.take(0)));
    }
    for part in it: parts
        invariant
            all == views(it.seq()),
            views(out@) == nonempty(all.take(it.index() as int)),
    {
        let ghost k = it.index() as int;
        let ghost before = views(out@);
        proof {
            assert(all.take(k + 1).drop_last() =~= all.take(k));
            assert(all.take(k + 1).last() == part@);
        }
        if part.len() > 0 {
            out.push(part);
            proof {
                assert(views(out@) =~= before.push(part@));
            }
        }
    }
    proof {
        assert(all.take(all.len() as int) =~= all);
    }
    out
}

/// The maximal runs of characters of `s` that are not white space.
pub fn words_of(s: &Vec<char>) -> (out: Vec<Vec<char>>)
    ensures
        views(out@) == words(s@),
{
    drop_empty(split_chars(s, CharClass::Space))
}

/// The lines of `s`.
pub fn lines_of(s: &Vec<char>) -> (out: Vec<Vec<char>>)
    ensures
        views(out@) == lines(s@),
{
    let pieces = split_chars(s, CharClass::Exactly('\n'));
    let ghost all = views(pieces@);
    let n = pieces.len();
    let mut out: Vec<Vec<char>> = Vec::new();
    let mut i: usize = 0;
    while i < n
        invariant
            i <= n,
            n == pieces.len(),
            n >= 1,
            all == views(pieces@),
            out.len() == (if i < n { i } else { (n - 1) as usize }),
            forall|k: int| 0 <= k < out.len() ==> (#[trigger] out@[k])@ == strip_cr(all[k]),
        decreases n - i,
    {
        let piece = &pieces[i];
        assert(piece@ == all[i as int]);
        if i + 1 < n {
            let m = piece.len();
            if m > 0 && piece[m - 1] == '\r' {
                let line = slice_of(piece, 0, m - 1);
                assert(piece@.drop_last() =~= piece@.subrange(0, m - 1));
                out.push(line);
            } else {
                out.push(slice_of(piece, 0, m));
                assert(piece@.subrange(0, m as int) =~= piece@);
            }
        }
        i += 1;
    }
    let last = &pieces[n - 1];
    assert(last@ == all.last());
    let ghost ended = Seq::new((all.len() - 1) as nat, |i: int| strip_cr(all[i]));
    assert(views(out@) =~= ended);
    if last.len() > 0 {
        out.push(slice_of(last, 0, last.len()));
        assert(last@.subrange(0, last@.len() as int) =~= last@);
        assert(views(out@) =~= ended.push(all.last()));
    }
    out
}

/// The members of `parts` with `sep` between each two.
pub fn join_chars(parts: &Vec<Vec<char>>, sep: &Vec<char>) -> (out: Vec<char>)
    ensures
        out@ == join(views(parts@), sep@),
{
    let mut out: Vec<char> = Vec::new();
    let ghost all = views(parts@);
    let mut i: usize = 0;
    while i < parts.len()
        invariant
            i <= parts.len(),
            all == views(parts@),
            out@ == join(all.take(i as int), sep@),
        decreases parts.len() - i,
    {
        proof {
            assert(all.take(i + 1).drop_last() =~= all.take(i as int));
            assert(all.take(i + 1).last() == parts@[i as int]@);
        }
        if i > 0 {
            push_all(&mut out, sep);
        }
        push_all(&mut out, &parts[i]);
        proof {
            if i == 0 {
                assert(out@ =~= parts@[0]@);
                assert(all.take(1)[0] == parts@[0]@);
            }
        }
        i += 1;
    }
    proof {
        assert(all.take(all.len() as int) =~= all);
    }
    out
}

// ---------------------------------------------------------------------------
// Letter case
// ---------------------------------------------------------------------------

/// `c`, or its small letter where `c` is one of the capital letters `A` to `Z`.
pub open spec fn fold_case(c: char) -> char {
    if 0x41 <= c as u32 && c as u32 <= 0x5a {
        ((c as u32 + 0x20) as u8) as char
    } else {
        c
    }
}

/// `s` with each capital letter `A` to `Z` turned into its small letter.
pub open spec fn folded(s: Seq<char>) -> Seq<char> {
    Seq::new(s.len(), |i: int| fold_case(s[i]))
}

/// `a` and `b` differ at most in the case of the letters `A` to `Z`.
pub open spec fn same_ignoring_case(a: Seq<char>, b: Seq<char>) -> bool {
    folded(a) == folded(b)
}

/// `c`, or its small letter where `c` is one of the capital letters `A` to `Z`.
pub fn fold_char(c: char) -> (r: char)
    ensures
        r == fold_case(c),
{
    if 0x41 <= c as u32 && c as u32 <= 0x5a {
        ((c as u32 + 0x20) as u8) as char
    } else {
        c
    }
}

/// Whether `a` and `b` differ at most in the case of the letters `A` to `Z`.
pub fn equal_ignoring_case(a: &Vec<char>, b: &Vec<char>) -> (r: bool)
    ensures
        r == same_ignoring_case(a@, b@),
{
    if a.len() != b.len() {
        assert(folded(a@).len() != folded(b@).len());
        return false;
    }
    let mut i: usize = 0;
    while i < a.len()
        invariant
            i <= a.len(),
            a.len() == b.len(),
            forall|k: int| 0 <= k < i ==> fold_case(a@[k]) == fold_case(b@[k]),
        decreases a.len() - i,
    {
        if fold_char(a[i]) != fold_char(b[i]) {
            assert(folded(a@)[i as int] != folded(b@)[i as int]);
            return false;
        }
        i += 1;
    }
    assert(folded(a@) =~= folded(b@));
    true
}

// ---------------------------------------------------------------------------
// Length in bytes
// ---------------------------------------------------------------------------

/// The number of bytes that `c` takes in UTF-8.
pub open spec fn char_width(c: char) -> nat {
    let u = c as u32;
    if u < 0x80 {
        1
    } else if u < 0x800 {
        2
    } else if u < 0x10000 {
        3
    } else {
        4
    }
}

/// The number of bytes that `s` takes in UTF-8.
pub open spec fn utf8_len(s: Seq<char>) -> nat
    decreases s.len(),
{
    if s.len() == 0 {
        0
    } else {
        utf8_len(s.drop_last()) + char_width(s.last())
    }
}

/// A text takes at least one byte for each character, and at most four.
pub proof fn lemma_utf8_len_bounds(s: Seq<char>)
    ensures
        s.len() <= utf8_len(s) <= 4 * s.len(),
    decreases s.len(),
{
    if s.len() > 0 {
        lemma_utf8_len_bounds(s.drop_last());
    }
}

/// The number of bytes that `s` takes in UTF-8.
pub fn byte_len(s: &Vec<char>) -> (n: u128)
    ensures
        n == utf8_len(s@),
{
    let mut n: u128 = 0;
    let mut i: usize = 0;
    assert(s@.take(0) =~= Seq::<char>::empty());
    while i < s.len()
        invariant
            i <= s.len(),
            n == utf8_len(s@.take(i as int)),
            n <= 4 * i,
        decreases s.len() - i,
    {
        let u = s[i] as u32;
        proof {
            assert(s@.take(i + 1).drop_last() =~= s@.take(i as int));
            assert(s@.take(i + 1).last() == s@[i as int]);
        }
        n = n + (if u < 0x80 {
            1
        } else if u < 0x800 {
            2
        } else if u < 0x10000 {
            3
        } else {
            4
        });
        i += 1;
    }
    assert(s@.take(s@.len() as int) =~= s@);
    n
}

// ---------------------------------------------------------------------------
// Alphabetical order
// ---------------------------------------------------------------------------

/// `a` stands at or before `b` in the order of a dictionary, the characters
/// taken by their code points.
pub open spec fn lex_le(a: Seq<char>, b: Seq<char>) -> bool
    decreases a.len(),
{
    if a.len() == 0 {
        true
    } else if b.len() == 0 {
        false
    } else if a[0] as u32 != b[0] as u32 {
        (a[0] as u32) < (b[0] as u32)
    } else {
        lex_le(a.skip(1), b.skip(1))
    }
}

/// Of two texts one stands at or before the other.
pub proof fn lemma_lex_le_total(a: Seq<char>, b: Seq<char>)
    ensures
        lex_le(a, b) || lex_le(b, a),
    decreases a.len(),
{
    if a.len() > 0 && b.len() > 0 && a[0] as u32 == b[0] as u32 {
        lemma_lex_le_total(a.skip(1), b.skip(1));
    }
}

/// What stands at or before a text that stands at or before a third stands at or
/// before the third.
pub proof fn lemma_lex_le_transitive(a: Seq<char>, b: Seq<char>, c: Seq<char>)
    requires
        lex_le(a, b),
        lex_le(b, c),
    ensures
        lex_le(a, c),
    decreases a.len(),
{
    if a.len() > 0 && b.len() > 0 && c.len() > 0 && a[0] as u32 == b[0] as u32 && b[0] as u32
        == c[0] as u32 {
        lemma_lex_le_transitive(a.skip(1), b.skip(1), c.skip(1));
    }
}

/// Whether `a` stands at or before `b` in the order of a dictionary.
pub fn lex_le_chars(a: &Vec<char>, b: &Vec<char>) -> (r: bool)
    ensures
        r == lex_le(a@, b@),
{
    let mut i: usize = 0;
    assert(a@.skip(0) =~= a@ && b@.skip(0) =~= b@);
    while i < a.len() && i < b.len()
        invariant
            i <= a.len(),
            i <= b.len(),
            lex_le(a@, b@) == lex_le(a@.skip(i as int), b@.skip(i as int)),
        decreases a.len() - i,
    {
        proof {
            assert(a@.skip(i as int).skip(1) =~= a@.skip(i + 1));
            assert(b@.skip(i as int).skip(1) =~= b@.skip(i + 1));
        }
        if a[i] as u32 != b[i] as u32 {
            return (a[i] as u32) < (b[i] as u32);
        }
        i += 1;
    }
    i == a.len()
}

// ---------------------------------------------------------------------------
// First of several
// ---------------------------------------------------------------------------

/// The index of the first of `flags` that is set.
pub open spec fn first_true(flags: Seq<bool>) -> Option<int>
    decreases flags.len(),
{
    if flags.len() == 0 {
        None
    } else if flags[0] {
        Some(0)
    } else {
        match first_true(flags.skip(1)) {
            Some(i) => Some(i + 1),
            None => None,
        }
    }
}

/// What `first_true` returns is the index of a flag that is set, and the least.
pub proof fn lemma_first_true(flags: Seq<bool>)
    ensures
        match first_true(flags) {
            Some(i) => 0 <= i < flags.len() && flags[i] && forall|j: int| 0 <= j < i ==> !flags[j],
            None => forall|j: int| 0 <= j < flags.len() ==> !flags[j],
        },
    decreases flags.len(),
{
    if flags.len() > 0 && !flags[0] {
        let t = flags.skip(1);
        lemma_first_true(t);
        match first_true(t) {
            Some(i) => {
                assert(flags[i + 1] == t[i]);
                assert forall|j: int| 0 <= j < i + 1 implies !flags[j] by {
                    if j > 0 {
                        assert(flags[j] == t[j - 1]);
                    }
                }
            },
            None => {
                assert forall|j: int| 0 <= j < flags.len() implies !flags[j] by {
                    if j > 0 {
                        assert(flags[j] == t[j - 1]);
                    }
                }
            },
        }
    }
}

/// An index whose flag is set, and before which none is, is the first.
pub proof fn lemma_first_true_is(flags: Seq<bool>, i: int)
    requires
        0 <= i < flags.len(),
        flags[i],
        forall|j: int| 0 <= j < i ==> !flags[j],
    ensures
        first_true(flags) == Some(i),
{
    lemma_first_true(flags);
}

/// Where no flag is set there is no first.
pub proof fn lemma_first_true_none(flags: Seq<bool>)
    requires
        forall|j: int| 0 <= j < flags.len() ==> !flags[j],
    ensures
        first_true(flags) is None,
{
    lemma_first_true(flags);
}

/// The members of `list` as character vectors.
pub fn chars_of_string_list(list: &[String]) -> (out: Vec<Vec<char>>)
    ensures
        views(out@) == string_views(list@),
{
    let mut out: Vec<Vec<char>> = Vec::new();
    let mut i: usize = 0;
    while i < list.len()
        invariant
            i <= list.len(),
            out.len() == i,
            forall|k: int| 0 <= k < i ==> (#[trigger] out@[k])@ == list@[k]@,
        decreases list.len() - i,
    {
        out.push(chars_of(list[i].as_str()));
        i += 1;
    }
    assert(views(out@) =~= string_views(list@));
    out
}

/// Whether two texts are the same.
pub fn same_text(a: &str, b: &str) -> (r: bool)
    ensures
        r == (a@ == b@),
{
    same_chars(&chars_of(a), &chars_of(b))
}

/// Whether one of `list` is `text`.
pub fn is_listed(list: &Vec<String>, text: &str) -> (r: bool)
    ensures
        r == string_views(list@).contains(text@),
{
    let mut i: usize = 0;
    while i < list.len()
        invariant
            i <= list.len(),
            forall|k: int| 0 <= k < i ==> string_views(list@)[k] != text@,
        decreases list.len() - i,
    {
        if same_text(list[i].as_str(), text) {
            assert(string_views(list@)[i as int] == text@);
            return true;
        }
        i += 1;
    }
    false
}

/// `s` without `p` at its start, as often as `p` stands there.
pub open spec fn strip_prefixes(s: Seq<char>, p: Seq<char>) -> Seq<char>
    decreases s.len(),
{
    if p.len() > 0 && starts_with(s, p) {
        strip_prefixes(s.skip(p.len() as int), p)
    } else {
        s
    }
}

/// `s` without `p` at its start, as often as `p` stands there.
pub fn strip_prefixes_chars(s: &Vec<char>, p: &Vec<char>) -> (out: Vec<char>)
    ensures
        out@ == strip_prefixes(s@, p@),
{
    let mut at: usize = 0;
    assert(s@.skip(0) =~= s@);
    if p.len() > 0 {
        while matches_at(s, p, at)
            invariant
                at <= s.len(),
                p.len() > 0,
                strip_prefixes(s@, p@) == strip_prefixes(s@.skip(at as int), p@),
            decreases s.len() - at,
        {
            proof {
                let t = s@.skip(at as int);
                assert(t.subrange(0, p.len() as int) =~= s@.subrange(at as int, at + p.len()));
                assert(t.skip(p.len() as int) =~= s@.skip(at + p.len()));
            }
            at += p.len();
        }
        proof {
            let t = s@.skip(at as int);
            if p.len() <= t.len() {
                assert(t.subrange(0, p.len() as int) =~= s@.subrange(at as int, at + p.len()));
            }
        }
    }
    let out = slice_of(s, at, s.len());
    assert(out@ =~= s@.skip(at as int));
    out
}

/// The longest beginning of `s` that takes no more than `budget` bytes.
pub open spec fn within(s: Seq<char>, budget: nat) -> Seq<char>
    decreases s.len(),
{
    if s.len() == 0 || char_width(s[0]) > budget {
        Seq::<char>::empty()
    } else {
        seq![s[0]] + within(s.skip(1), (budget - char_width(s[0])) as nat)
    }
}

/// The longest beginning of `content` that takes no more than `limit` bytes.
pub fn cut_chars(content: &Vec<char>, limit: usize) -> (out: Vec<char>)
    ensures
        out@ == within(content@, limit as nat),
{
    let mut out: Vec<char> = Vec::new();
    let mut budget: usize = limit;
    let mut i: usize = 0;
    let mut full = false;
    assert(content@.skip(0) =~= content@);
    while i < content.len() && !full
        invariant
            i <= content.len(),
            within(content@, limit as nat) == out@ + within(content@.skip(i as int), budget as nat),
            full ==> within(content@.skip(i as int), budget as nat) == Seq::<char>::empty(),
        decreases content.len() - i, if full { 0int } else { 1int },
    {
        let c = content[i];
        let u = c as u32;
        let w: usize = if u < 0x80 {
            1
        } else if u < 0x800 {
            2
        } else if u < 0x10000 {
            3
        } else {
            4
        };
        let ghost rest = content@.skip(i as int);
        proof {
            assert(rest[0] == c);
            assert(rest.skip(1) =~= content@.skip(i + 1));
        }
        if w > budget {
            full = true;
        } else {
            let ghost before = out@;
            out.push(c);
            budget = budget - w;
            proof {
                assert(before + (seq![c] + within(content@.skip(i + 1), budget as nat)) =~= out@
                    + within(content@.skip(i + 1), budget as nat));
            }
            i += 1;
        }
    }
    proof {
        assert(within(content@.skip(i as int), budget as nat) =~= Seq::<char>::empty());
        assert(out@ + Seq::<char>::empty() =~= out@);
    }
    out
}

} // verus!
