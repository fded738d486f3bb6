//! Natural numbers of up to 256 bits, for scores that are held exactly.

use crate::order::SortKey;
use vstd::prelude::*;

verus! {

/// Two to the power of 64.
pub open spec fn two_64() -> nat {
    0x1_0000_0000_0000_0000
}

/// Two to the power of 128.
pub open spec fn two_128() -> nat {
    0x1_0000_0000_0000_0000_0000_0000_0000_0000nat
}

/// Two to the power of 256.
pub open spec fn two_256() -> nat {
    0x1_0000_0000_0000_0000_0000_0000_0000_0000_0000_0000_0000_0000_0000_0000_0000_0000nat
}

/// `n`, or the largest number of 64 bits where `n` is larger.
pub open spec fn capped(n: nat) -> nat {
    if n > u64::MAX {
        u64::MAX as nat
    } else {
        n
    }
}

/// A product of two halves and two halves, term by term.
proof fn lemma_product_by_halves(a1: int, a0: int, b1: int, b0: int, big: int)
    ensures
        (a1 * big + a0) * (b1 * big + b0) == (a1 * b1) * (big * big) + (a0 * b1 + a1 * b0) * big
            + a0 * b0,
{
    let x = a1 * big;
    let z = b1 * big + b0;
    assert((x + a0) * z == x * z + a0 * z) by (nonlinear_arith);
    assert(x * z == x * (b1 * big) + x * b0) by (nonlinear_arith)
        requires
            z == b1 * big + b0,
    ;
    assert(a0 * z == a0 * (b1 * big) + a0 * b0) by (nonlinear_arith)
        requires
            z == b1 * big + b0,
    ;
    assert(x * (b1 * big) == (a1 * b1) * (big * big)) by (nonlinear_arith)
        requires
            x == a1 * big,
    ;
    assert(x * b0 == (a1 * b0) * big) by (nonlinear_arith)
        requires
            x == a1 * big,
    ;
    assert(a0 * (b1 * big) == (a0 * b1) * big) by (nonlinear_arith);
    assert((a0 * b1 + a1 * b0) * big == (a0 * b1) * big + (a1 * b0) * big) by (nonlinear_arith);
}

/// The product of two numbers of 128 bits takes 256 bits at most.
proof fn lemma_product_below(a: int, b: int)
    requires
        0 <= a < two_128(),
        0 <= b < two_128(),
    ensures
        a * b < two_256(),
{
    let m = two_128() as int;
    assert(a * b <= (m - 1) * (m - 1)) by (nonlinear_arith)
        requires
            0 <= a <= m - 1,
            0 <= b <= m - 1,
    ;
    assert((m - 1) * (m - 1) < two_256());
}

/// A natural number below two to the power of 256, in two halves.
#[derive(Clone, Copy, Debug, PartialEq, Eq)]
pub struct Wide {
    /// How many times two to the power of 128 the number holds.
    pub high: u128,
    /// What is left.
    pub low: u128,
}

impl Wide {
    /// The number held.
    pub open spec fn amount(self) -> nat {
        (self.high * two_128() + self.low) as nat
    }

    /// The number zero.
    pub fn zero() -> (w: Wide)
        ensures
            w.amount() == 0,
    {
        Wide { high: 0, low: 0 }
    }

    /// The number `n`.
    pub fn from_u64(n: u64) -> (w: Wide)
        ensures
            w.amount() == n,
    {
        Wide { high: 0, low: n as u128 }
    }

    /// The product of `a` and `b`.
    pub fn product(a: u128, b: u128) -> (w: Wide)
        ensures
            w.amount() == a * b,
    {
        let base: u128 = 0x1_0000_0000_0000_0000;
        let a1 = a / base;
        let a0 = a % base;
        let b1 = b / base;
        let b0 = b % base;
        assert(a0 * b0 <= 0xffff_ffff_ffff_ffff * 0xffff_ffff_ffff_ffff && a0 * b1
            <= 0xffff_ffff_ffff_ffff * 0xffff_ffff_ffff_ffff && a1 * b0 <= 0xffff_ffff_ffff_ffff
            * 0xffff_ffff_ffff_ffff && a1 * b1 <= 0xffff_ffff_ffff_ffff * 0xffff_ffff_ffff_ffff)
            by (nonlinear_arith)
            requires
                a0 <= 0xffff_ffff_ffff_ffff,
                a1 <= 0xffff_ffff_ffff_ffff,
                b0 <= 0xffff_ffff_ffff_ffff,
                b1 <= 0xffff_ffff_ffff_ffff,
        ;
        let p00 = a0 * b0;
        let p01 = a0 * b1;
        let p10 = a1 * b0;
        let p11 = a1 * b1;
        let middle = p00 / base + p01 % base + p10 % base;
        let low = (middle % base) * base + p00 % base;
        proof {
            let big = two_64() as int;
            lemma_product_by_halves(a1 as int, a0 as int, b1 as int, b0 as int, big);
            assert(a == a1 * big + a0);
            assert(b == b1 * big + b0);
            assert(big * big == two_128());
            let p01h = (p01 / base) as int;
            let p01l = (p01 % base) as int;
            let p10h = (p10 / base) as int;
            let p10l = (p10 % base) as int;
            let p00h = (p00 / base) as int;
            let p00l = (p00 % base) as int;
            let carry = (middle / base) as int;
            let rest = (middle % base) as int;
            assert(p01 == p01h * big + p01l);
            assert(p10 == p10h * big + p10l);
            assert(p00 == p00h * big + p00l);
            assert(middle == carry * big + rest);
            assert((a0 * b1 + a1 * b0) * big == (p01h + p10h) * two_128() + (p01l + p10l) * big)
                by (nonlinear_arith)
                requires
                    a0 * b1 == p01h * big + p01l,
                    a1 * b0 == p10h * big + p10l,
                    big * big == two_128(),
            ;
            assert(carry * two_128() + rest * big == middle * big) by (nonlinear_arith)
                requires
                    middle == carry * big + rest,
                    big * big == two_128(),
            ;
            let top = p11 + p01h + p10h + carry;
            let whole = two_128() as int;
            let product = a * b;
            let upper = p01h + p10h;
            let lower = p01l + p10l;
            assert(product == (a1 * big + a0) * (b1 * big + b0));
            assert(product == p11 * whole + (a0 * b1 + a1 * b0) * big + p00);
            assert(middle * big == p00h * big + lower * big) by (nonlinear_arith)
                requires
                    middle == p00h + lower,
            ;
            assert(top * whole == p11 * whole + upper * whole + carry * whole)
                by (nonlinear_arith)
                requires
                    top == p11 + upper + carry,
            ;
            assert(low == rest * big + p00l);
            assert(top * whole + low == product);
            lemma_product_below(a as int, b as int);
            assert(top < two_128());
        }
        let high = p11 + p01 / base + p10 / base + middle / base;
        Wide { high, low }
    }

    /// The sum of the two numbers.
    pub fn plus(self, other: Wide) -> (w: Wide)
        requires
            self.amount() + other.amount() < two_256(),
        ensures
            w.amount() == self.amount() + other.amount(),
    {
        if self.low > u128::MAX - other.low {
            let low = self.low - (u128::MAX - other.low) - 1;
            let high = self.high + other.high + 1;
            Wide { high, low }
        } else {
            Wide { high: self.high + other.high, low: self.low + other.low }
        }
    }

    /// Whether the number is at least `other`.
    pub fn at_least(&self, other: &Wide) -> (r: bool)
        ensures
            r == (self.amount() >= other.amount()),
    {
        self.high > other.high || (self.high == other.high && self.low >= other.low)
    }

    /// Whether the number is zero.
    pub fn is_zero(&self) -> (r: bool)
        ensures
            r == (self.amount() == 0),
    {
        self.high == 0 && self.low == 0
    }

    /// The number in 64 bits, or the largest number of 64 bits where it is
    /// larger.
    pub fn capped(&self) -> (n: u64)
        ensures
            n == capped(self.amount()),
    {
        if self.high > 0 || self.low > 0xffff_ffff_ffff_ffff {
            u64::MAX
        } else {
            self.low as u64
        }
    }
}

/// Numbers sort with the greatest first.
impl SortKey for Wide {
    type Value = int;

    open spec fn value(&self) -> int {
        -(self.amount() as int)
    }

    open spec fn le(a: int, b: int) -> bool {
        a <= b
    }

    fn is_le(&self, other: &Self) -> (r: bool) {
        self.at_least(other)
    }

    proof fn le_total(a: int, b: int) {
    }

    proof fn le_transitive(a: int, b: int, c: int) {
    }
}

/// The numbers that `v` holds.
pub open spec fn amounts(v: Seq<Wide>) -> Seq<nat> {
    Seq::new(v.len(), |i: int| v[i].amount())
}

} // verus!
