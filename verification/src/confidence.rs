//! Confidence values: signed decimal fractions kept in thousandths.

use crate::number::{
    all_digits, decimal, digit_char, digit_of_value, digit_value, digits_of, is_digit,
    is_digit_char, number_of, read_digits,
};
use crate::text::{chars_of, find, find_from, lemma_find, push_all};
use vstd::prelude::*;

verus! {

/// How far an entry is trusted, in thousandths: `800` stands for 0.8.
///
/// Any value can be held; by convention it lies between zero and one thousand.
/// Thousandths are all that is held: of a fraction that is read, the digits
/// after the third behind the point are dropped, not rounded.
#[derive(Clone, Copy, Debug, PartialEq, Eq, Structural)]
pub struct Confidence {
    pub millis: i64,
}

/// The confidence of an entry whose header names none, or none that can be read.
pub const DEFAULT_MILLIS: i64 = 800;

/// The confidence that a superseded entry is brought down to.
pub const SUPERSEDED_MILLIS: i64 = 300;

/// The confidence that a superseded entry is brought down to, in tenths.
pub const SUPERSEDED_TENTHS: i64 = 3;

/// The thousandths that the fraction digits `frac` denote; digits after the third
/// are left out.
pub open spec fn fraction_millis(frac: Seq<char>) -> nat {
    let d0 = if frac.len() > 0 {
        digit_value(frac[0])
    } else {
        0
    };
    let d1 = if frac.len() > 1 {
        digit_value(frac[1])
    } else {
        0
    };
    let d2 = if frac.len() > 2 {
        digit_value(frac[2])
    } else {
        0
    };
    d0 * 100 + d1 * 10 + d2
}

/// What stands before the first point of `body`, or all of it.
pub open spec fn whole_part(body: Seq<char>) -> Seq<char> {
    match find(body, seq!['.']) {
        Some(dot) => body.take(dot),
        None => body,
    }
}

/// What stands after the first point of `body`.
pub open spec fn fraction_part(body: Seq<char>) -> Seq<char> {
    match find(body, seq!['.']) {
        Some(dot) => body.skip(dot + 1),
        None => Seq::<char>::empty(),
    }
}

/// The thousandths that the unsigned decimal fraction `body` denotes: digits, then
/// optionally a point and digits, with a digit on at least one side.
pub open spec fn parse_magnitude(body: Seq<char>) -> Option<nat> {
    let whole = whole_part(body);
    let frac = fraction_part(body);
    if all_digits(whole) && all_digits(frac) && whole.len() + frac.len() > 0 {
        Some(number_of(whole) * 1000 + fraction_millis(frac))
    } else {
        None
    }
}

/// The thousandths that the decimal fraction `s` denotes, where it is one and its
/// value can be held: an optional sign, then an unsigned decimal fraction.
///
/// Nothing else is read: a text with an exponent (`1e-3`), a name (`inf`,
/// `nan`) or white space denotes nothing here, nor does a fraction whose
/// thousandths do not fit 64 bits, which is one above some 9.2 times ten to
/// the fifteenth.
pub open spec fn parse_millis(s: Seq<char>) -> Option<int> {
    let negative = s.len() > 0 && s[0] == '-';
    let body = if s.len() > 0 && (s[0] == '-' || s[0] == '+') {
        s.skip(1)
    } else {
        s
    };
    match parse_magnitude(body) {
        Some(m) => if negative {
            if m <= 0x8000_0000_0000_0000 {
                Some(-(m as int))
            } else {
                None
            }
        } else {
            if m <= i64::MAX {
                Some(m as int)
            } else {
                None
            }
        },
        None => None,
    }
}

/// The absolute value of `millis`.
pub open spec fn magnitude(millis: int) -> nat {
    if millis < 0 {
        (-millis) as nat
    } else {
        millis as nat
    }
}

/// The digits after the point in the shortest notation of `frac` thousandths:
/// none for zero, else up to three without a zero at the end.
pub open spec fn fraction_digits(frac: nat) -> Seq<char> {
    if frac % 1000 == 0 {
        Seq::<char>::empty()
    } else if frac % 100 == 0 {
        seq![digit_char(frac / 100 % 10)]
    } else if frac % 10 == 0 {
        seq![digit_char(frac / 100 % 10), digit_char(frac / 10 % 10)]
    } else {
        seq![digit_char(frac / 100 % 10), digit_char(frac / 10 % 10), digit_char(frac % 10)]
    }
}

/// The shortest decimal notation of `millis` thousandths: `0.8`, `1`, `-0.25`.
pub open spec fn shortest(millis: int) -> Seq<char> {
    let m = magnitude(millis);
    let sign = if millis < 0 {
        seq!['-']
    } else {
        Seq::<char>::empty()
    };
    let frac = fraction_digits(m % 1000);
    if frac.len() == 0 {
        sign + decimal(m / 1000)
    } else {
        sign + decimal(m / 1000) + seq!['.'] + frac
    }
}

/// `m` thousandths in tenths, rounded to the nearest tenth and, halfway between
/// two, to the even one.
pub open spec fn nearest_tenth(m: nat) -> nat {
    let t = m / 100;
    let r = m % 100;
    if r > 50 || (r == 50 && t % 2 == 1) {
        t + 1
    } else {
        t
    }
}

/// `millis` thousandths with one digit after the point, as a list of entries
/// shows them: `0.8`, `1.0`, `-0.3`.
///
/// The rounding is that of the decimal value held, halves going to the even
/// tenth: `0.35` is shown as `0.4` and `0.95` as `1.0`. A formatter of
/// binary floating point shows `0.3` and `0.9` there, since the binary
/// numbers nearest to those fractions lie just under the half.
pub open spec fn one_decimal(millis: int) -> Seq<char> {
    let t = nearest_tenth(magnitude(millis));
    let sign = if millis < 0 {
        seq!['-']
    } else {
        Seq::<char>::empty()
    };
    sign + decimal(t / 10) + seq!['.'] + seq![digit_char(t % 10)]
}

/// `tenths` tenths with one digit after the point: `0.8` for 8, `1.0` for 10,
/// `-0.3` for -3. Nothing is rounded.
pub open spec fn tenths_text(tenths: int) -> Seq<char> {
    let t = magnitude(tenths);
    let sign = if tenths < 0 {
        seq!['-']
    } else {
        Seq::<char>::empty()
    };
    sign + decimal(t / 10) + seq!['.'] + seq![digit_char(t % 10)]
}

fn magnitude_of(millis: i64) -> (m: u64)
    ensures
        m == magnitude(millis as int),
{
    if millis < 0 {
        (-(millis as i128)) as u64
    } else {
        millis as u64
    }
}

fn digit_at(s: &Vec<char>, i: usize) -> (d: u64)
    ensures
        d == (if i < s.len() && is_digit(s@[i as int]) {
            digit_value(s@[i as int])
        } else {
            0
        }),
{
    if i < s.len() && is_digit_char(s[i]) {
        (s[i] as u32 - 0x30) as u64
    } else {
        0
    }
}

fn run_is_digits(s: &Vec<char>, from: usize, to: usize) -> (r: bool)
    requires
        from <= to <= s.len(),
    ensures
        r == all_digits(s@.subrange(from as int, to as int)),
{
    let ghost t = s@.subrange(from as int, to as int);
    let mut i: usize = from;
    while i < to
        invariant
            from <= i <= to <= s.len(),
            t == s@.subrange(from as int, to as int),
            forall|k: int| 0 <= k < i - from ==> is_digit(#[trigger] t[k]),
        decreases to - i,
    {
        if !is_digit_char(s[i]) {
            assert(t[i - from] == s@[i as int]);
            return false;
        }
        i += 1;
    }
    true
}

/// The thousandths that the digits `s[from..]` denote after a point.
fn read_fraction(s: &Vec<char>, from: usize) -> (r: Option<u64>)
    requires
        from <= s.len(),
    ensures
        r is Some <==> all_digits(s@.skip(from as int)),
        r is Some ==> r->0 == fraction_millis(s@.skip(from as int)),
        r is Some ==> r->0 < 1000,
{
    let ghost frac = s@.skip(from as int);
    assert(frac =~= s@.subrange(from as int, s@.len() as int));
    if !run_is_digits(s, from, s.len()) {
        return None;
    }
    let d0 = digit_at(s, from);
    let d1 = if from < s.len() {
        digit_at(s, from + 1)
    } else {
        0
    };
    let d2 = if from < s.len() && from + 1 < s.len() {
        digit_at(s, from + 2)
    } else {
        0
    };
    proof {
        if frac.len() > 0 {
            assert(frac[0] == s@[from as int]);
        }
        if frac.len() > 1 {
            assert(frac[1] == s@[from + 1]);
        }
        if frac.len() > 2 {
            assert(frac[2] == s@[from + 2]);
        }
    }
    Some(d0 * 100 + d1 * 10 + d2)
}

/// The thousandths that the unsigned decimal fraction `s[start..]` denotes, where
/// it is one and its value fits.
fn read_magnitude(s: &Vec<char>, start: usize) -> (r: Option<u64>)
    requires
        start <= s.len(),
    ensures
        r is Some <==> parse_magnitude(s@.skip(start as int)) is Some && parse_magnitude(
            s@.skip(start as int),
        )->0 <= u64::MAX,
        r is Some ==> r->0 == parse_magnitude(s@.skip(start as int))->0,
{
    let ghost body = s@.skip(start as int);
    let mut point: Vec<char> = Vec::new();
    point.push('.');
    assert(point@ =~= seq!['.']);
    let (whole_end, frac_start) = match find_from(s, &point, start) {
        Some(dot) => (start + dot, start + dot + 1),
        None => (s.len(), s.len()),
    };
    proof {
        lemma_find(body, seq!['.']);
        assert(s@.subrange(start as int, whole_end as int) =~= whole_part(body));
        assert(s@.skip(frac_start as int) =~= fraction_part(body));
    }
    if (whole_end - start) + (s.len() - frac_start) == 0 {
        return None;
    }
    let part = match read_fraction(s, frac_start) {
        Some(p) => p,
        None => {
            return None;
        },
    };
    let units = match read_digits(s, start, whole_end) {
        Some(u) => u,
        None => {
            return None;
        },
    };
    let m: u128 = units as u128 * 1000 + part as u128;
    if m > u64::MAX as u128 {
        return None;
    }
    Some(m as u64)
}

impl Confidence {
    /// The confidence of `millis` thousandths.
    pub fn from_millis(millis: i64) -> (c: Confidence)
        ensures
            c.millis == millis,
    {
        Confidence { millis }
    }

    /// The value in thousandths.
    pub fn as_millis(&self) -> (m: i64)
        ensures
            m == self.millis,
    {
        self.millis
    }

    /// Reads a decimal fraction such as `0.8`, `1`, `.5` or `-0.25`, to the
    /// thousandth: `0.8567` is read as `0.856`. Gives nothing for a text in
    /// another notation, such as `8e-1`, and for a fraction too large to hold.
    pub fn parse(text: &str) -> (r: Option<Confidence>)
        ensures
            r is Some <==> parse_millis(text@) is Some,
            r is Some ==> r->0.millis == parse_millis(text@)->0,
    {
        let s = chars_of(text);
        Confidence::parse_chars(&s)
    }

    /// Reads a decimal fraction such as `0.8`, `1`, `.5` or `-0.25`, as `parse`
    /// does.
    pub fn parse_chars(s: &Vec<char>) -> (r: Option<Confidence>)
        ensures
            r is Some <==> parse_millis(s@) is Some,
            r is Some ==> r->0.millis == parse_millis(s@)->0,
    {
        let negative = s.len() > 0 && s[0] == '-';
        let start: usize = if s.len() > 0 && (s[0] == '-' || s[0] == '+') {
            1
        } else {
            0
        };
        proof {
            assert(s@.skip(0) =~= s@);
        }
        match read_magnitude(s, start) {
            Some(m) => {
                if negative {
                    if m <= 0x8000_0000_0000_0000 {
                        Some(Confidence { millis: (-(m as i128)) as i64 })
                    } else {
                        None
                    }
                } else {
                    if m <= 0x7fff_ffff_ffff_ffff {
                        Some(Confidence { millis: m as i64 })
                    } else {
                        None
                    }
                }
            },
            None => None,
        }
    }

    /// The shortest decimal notation of the value.
    pub fn to_chars(&self) -> (out: Vec<char>)
        ensures
            out@ == shortest(self.millis as int),
    {
        let m = magnitude_of(self.millis);
        let mut out: Vec<char> = Vec::new();
        if self.millis < 0 {
            out.push('-');
        }
        let ghost sign = out@;
        let whole = digits_of(m / 1000);
        push_all(&mut out, &whole);
        let frac = m % 1000;
        if frac != 0 {
            out.push('.');
            out.push(digit_of_value(frac / 100 % 10));
            if frac % 100 != 0 {
                out.push(digit_of_value(frac / 10 % 10));
                if frac % 10 != 0 {
                    out.push(digit_of_value(frac % 10));
                }
            }
        }
        proof {
            assert(out@ =~= shortest(self.millis as int));
        }
        out
    }

    /// The value with one digit after the point.
    pub fn to_one_decimal(&self) -> (out: Vec<char>)
        ensures
            out@ == one_decimal(self.millis as int),
    {
        let m = magnitude_of(self.millis);
        let mut t = m / 100;
        let r = m % 100;
        if r > 50 || (r == 50 && t % 2 == 1) {
            t = t + 1;
        }
        let mut out: Vec<char> = Vec::new();
        if self.millis < 0 {
            out.push('-');
        }
        let whole = digits_of(t / 10);
        push_all(&mut out, &whole);
        out.push('.');
        out.push(digit_of_value(t % 10));
        proof {
            assert(out@ =~= one_decimal(self.millis as int));
        }
        out
    }
}

/// `tenths` tenths with one digit after the point.
pub fn tenths_chars(tenths: i64) -> (out: Vec<char>)
    ensures
        out@ == tenths_text(tenths as int),
{
    let t = magnitude_of(tenths);
    let mut out: Vec<char> = Vec::new();
    if tenths < 0 {
        out.push('-');
    }
    push_all(&mut out, &digits_of(t / 10));
    out.push('.');
    out.push(digit_of_value(t % 10));
    proof {
        assert(out@ =~= tenths_text(tenths as int));
    }
    out
}

} // verus!
