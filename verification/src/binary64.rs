//! IEEE 754 binary64 numbers, held as their bit patterns.
//!
//! Utilization ratios and overload thresholds are binary64 numbers. The one
//! division and the comparisons that the federation needs are computed on the
//! bit patterns, with the rounding and the order that the standard prescribes.

use vstd::arithmetic::power2::{
    lemma2_to64, lemma2_to64_rest, lemma_pow2_adds, lemma_pow2_pos, lemma_pow2_strictly_increases,
    lemma_pow2_unfold, pow2,
};
use vstd::prelude::*;
use vstd::std_specs::cmp::PartialEqSpec;

verus! {

/// Weight of the implicit leading bit of a normal significand: two to the 52.
pub const IMPLICIT_BIT: u64 = 0x0010_0000_0000_0000;

/// The sign bit.
pub const SIGN_BIT: u64 = 0x8000_0000_0000_0000;

/// The bit pattern of positive infinity; a larger magnitude is a NaN.
pub const INFINITY_BITS: u64 = 0x7FF0_0000_0000_0000;

/// The bit pattern of one.
pub const ONE_BITS: u64 = 0x3FF0_0000_0000_0000;

/// A significand `m` with its implicit bit, scaled down by `s` binary places,
/// has the bit pattern `(SCALE_OFFSET - s) * IMPLICIT_BIT + m`.
pub const SCALE_OFFSET: u64 = 1074;

/// A binary64 number, by its bit pattern.
///
/// `==` compares numbers, not patterns: the two zeros are equal, and a NaN is
/// equal to nothing, not even to itself.
#[derive(Debug, Clone, Copy)]
pub struct Binary64 {
    pub bits: u64,
}

/// `num / den`, scaled up by `s` binary places, lies between the implicit bit
/// and twice the implicit bit: it is a normal significand with a fraction.
pub open spec fn in_binade(num: nat, den: nat, s: nat) -> bool {
    IMPLICIT_BIT * den <= num * pow2(s) < 2 * (IMPLICIT_BIT * den)
}

/// The number of binary places by which `num / den` is scaled to become a
/// significand.
pub open spec fn scale(num: nat, den: nat) -> nat {
    choose|s: nat| #[trigger] in_binade(num, den, s)
}

/// The integer nearest to `num / den`; of two equally near ones, the even one.
pub open spec fn nearest_even(num: nat, den: nat) -> nat {
    let below = num / den;
    let rest = num % den;
    if 2 * rest < den || (2 * rest == den && below % 2 == 0) {
        below
    } else {
        below + 1
    }
}

/// The bit pattern of `num / den`, rounded to nearest, ties to even.
///
/// A significand that rounds up to twice the implicit bit carries into the
/// exponent field by itself.
pub open spec fn quotient_bits(num: nat, den: nat) -> int {
    if num == 0 {
        0
    } else {
        let s = scale(num, den);
        (SCALE_OFFSET - s) * IMPLICIT_BIT + nearest_even(num * pow2(s), den)
    }
}

/// Only one scale turns a positive ratio into a significand.
pub proof fn lemma_scale_unique(num: nat, den: nat, s: nat)
    requires
        in_binade(num, den, s),
    ensures
        scale(num, den) == s,
{
    let t = scale(num, den);
    assert(in_binade(num, den, t));
    if s < t {
        lemma_binade_apart(num, den, s, t);
    } else if t < s {
        lemma_binade_apart(num, den, t, s);
    }
}

proof fn lemma_binade_apart(num: nat, den: nat, s: nat, t: nat)
    requires
        s < t,
        IMPLICIT_BIT * den <= num * pow2(s),
    ensures
        2 * (IMPLICIT_BIT * den) <= num * pow2(t),
{
    lemma_pow2_unfold(s + 1);
    if s + 1 < t {
        lemma_pow2_strictly_increases(s + 1, t);
    }
    let (low, high) = (pow2(s), pow2(t));
    assert(num * high >= num * (2 * low)) by (nonlinear_arith)
        requires
            high >= 2 * low,
    ;
    assert(num * (2 * low) == 2 * (num * low)) by (nonlinear_arith);
}

/// Every positive ratio whose value is not too large to be a significand
/// already has a scale.
proof fn lemma_scale_exists(num: nat, den: nat, from: nat)
    requires
        num > 0,
        num * pow2(from) < 2 * (IMPLICIT_BIT * den),
    ensures
        in_binade(num, den, scale(num, den)),
    decreases 2 * (IMPLICIT_BIT * den) - num * pow2(from),
{
    if IMPLICIT_BIT * den <= num * pow2(from) {
        assert(in_binade(num, den, from));
    } else {
        lemma_pow2_unfold(from + 1);
        lemma_pow2_pos(from);
        let p = pow2(from);
        assert(pow2(from + 1) == 2 * p);
        assert(num * (2 * p) == 2 * (num * p)) by (nonlinear_arith);
        assert(num * pow2(from + 1) == 2 * (num * p));
        assert(num * p > 0) by (nonlinear_arith)
            requires
                num > 0,
                p > 0,
        ;
        lemma_scale_exists(num, den, from + 1);
    }
}

/// A ratio of positive 32-bit integers has a scale of at most 84 places, and
/// its significand rounds to a normal one, or carries to the next power of two.
proof fn lemma_scale_fits(num: nat, den: nat)
    requires
        0 < num <= u32::MAX,
        0 < den <= u32::MAX,
    ensures
        in_binade(num, den, scale(num, den)),
        scale(num, den) <= 84,
        IMPLICIT_BIT <= nearest_even(num * pow2(scale(num, den)), den) <= 2 * IMPLICIT_BIT,
{
    lemma2_to64();
    lemma_scale_exists(num, den, 0);
    let s = scale(num, den);
    let n = num * pow2(s);
    if s > 84 {
        lemma_pow2_adds(64, 21);
        if s > 85 {
            lemma_pow2_strictly_increases(85, s);
        }
        let p = pow2(s);
        assert(IMPLICIT_BIT * den <= IMPLICIT_BIT * u32::MAX) by (nonlinear_arith)
            requires
                den <= u32::MAX,
        ;
        assert(num * p >= p) by (nonlinear_arith)
            requires
                num > 0,
                p >= 0,
        ;
    }
    let (below, unit) = (n / den, IMPLICIT_BIT as nat);
    assert(unit <= below < 2 * unit) by (nonlinear_arith)
        requires
            below == n / den,
            den > 0,
            unit * den <= n < 2 * (unit * den),
    ;
}

/// Rounding an integer ratio to the nearest integer moves it by at most one
/// half, and by one half only to an even integer.
pub proof fn law_nearest_even_is_nearest(num: nat, den: nat)
    requires
        den > 0,
    ensures
        ({
            let m = nearest_even(num, den) as int;
            &&& (2 * m - 1) * den <= 2 * num <= (2 * m + 1) * den
            &&& 2 * num == (2 * m - 1) * den || 2 * num == (2 * m + 1) * den ==> m % 2 == 0
        }),
{
    let m = nearest_even(num, den) as int;
    let below = (num / den) as int;
    let rest = (num % den) as int;
    let d = den as int;
    assert(num == below * d + rest && 0 <= rest < d) by {
        vstd::arithmetic::div_mod::lemma_fundamental_div_mod(num as int, d);
        assert(below * d == d * below) by (nonlinear_arith);
    }
    assert((2 * m - 1) * d == 2 * (m * d) - d) by (nonlinear_arith);
    assert((2 * m + 1) * d == 2 * (m * d) + d) by (nonlinear_arith);
    assert((below + 1) * d == below * d + d) by (nonlinear_arith);
}

/// The quotient is the binary64 number nearest to the ratio, the even one of two
/// that are equally near: with the ratio scaled up by `s` binary places to lie
/// between two to the 52 and two to the 53, it is that number rounded to an
/// integer, under the exponent of `s`.
pub proof fn law_quotient_is_nearest(num: nat, den: nat) -> (s: nat)
    requires
        0 < num <= u32::MAX,
        0 < den <= u32::MAX,
    ensures
        ({
            let m: int = quotient_bits(num, den) - (1074 - s) * 0x10_0000_0000_0000;
            &&& 0x10_0000_0000_0000 * den <= num * pow2(s) < 0x20_0000_0000_0000 * den
            &&& (2 * m - 1) * den <= 2 * (num * pow2(s)) <= (2 * m + 1) * den
            &&& 2 * (num * pow2(s)) == (2 * m - 1) * den || 2 * (num * pow2(s)) == (2 * m + 1) * den
                ==> m % 2 == 0
        }),
{
    lemma_scale_fits(num, den);
    let s = scale(num, den);
    law_nearest_even_is_nearest(num * pow2(s), den);
    s
}

/// Numbers compare as the standard has it: no comparison with a NaN holds, the
/// two zeros are equal, positive patterns rise with the number and negative
/// ones, which start at two to the 63, fall.
pub proof fn law_comparison_follows_the_standard(a: Binary64, b: Binary64)
    ensures
        Binary64::obeys_eq_spec(),
        a.is_nan() <==> 0x7FF0_0000_0000_0000 < a.bits < 0x8000_0000_0000_0000
            || 0xFFF0_0000_0000_0000 < a.bits,
        a.is_nan() || b.is_nan() ==> !a.spec_at_least(b) && !a.eq_spec(&b),
        !a.is_nan() && !b.is_nan() ==> (a.eq_spec(&b) <==> a.bits == b.bits || (a.bits + b.bits
            == 0x8000_0000_0000_0000 && (a.bits == 0 || b.bits == 0))),
        !a.is_nan() && !b.is_nan() ==> (a.spec_at_least(b) <==> {
            ||| a.eq_spec(&b)
            ||| a.bits < 0x8000_0000_0000_0000 && (b.bits >= 0x8000_0000_0000_0000 || a.bits
                >= b.bits)
            ||| a.bits >= 0x8000_0000_0000_0000 && b.bits >= a.bits
        }),
{
}

/// Rounding to the nearest integer keeps the order of ratios.
proof fn lemma_nearest_even_monotone(a: nat, b: nat, c: nat, d: nat)
    requires
        b > 0,
        d > 0,
        a * d <= c * b,
    ensures
        nearest_even(a, b) <= nearest_even(c, d),
{
    let m = nearest_even(a, b) as int;
    let k = nearest_even(c, d) as int;
    law_nearest_even_is_nearest(a, b);
    law_nearest_even_is_nearest(c, d);
    if m > k {
        let (x, y) = (2 * m - 1, 2 * k + 1);
        assert(x * b * d <= 2 * a * d) by (nonlinear_arith)
            requires
                x * b <= 2 * a,
                d > 0,
        ;
        assert(2 * c * b <= y * d * b) by (nonlinear_arith)
            requires
                2 * c <= y * d,
                b > 0,
        ;
        assert(2 * a * d <= 2 * c * b) by (nonlinear_arith)
            requires
                a * d <= c * b,
        ;
        assert(y * d * b == y * b * d) by (nonlinear_arith);
        assert(x == y) by (nonlinear_arith)
            requires
                x * b * d <= y * b * d,
                b > 0,
                d > 0,
                x >= y,
        ;
        assert(2 * a == x * b) by (nonlinear_arith)
            requires
                x * b <= 2 * a,
                2 * a * d <= x * b * d,
                d > 0,
        ;
        assert(2 * c == y * d) by (nonlinear_arith)
            requires
                2 * c <= y * d,
                y * d * b <= 2 * c * b,
                b > 0,
        ;
    }
}

/// Equal or smaller ratios have equal or smaller bit patterns: rounding never
/// turns the order of two utilizations around.
pub proof fn law_quotient_monotone(a: nat, b: nat, c: nat, d: nat)
    requires
        a <= u32::MAX,
        0 < b <= u32::MAX,
        c <= u32::MAX,
        0 < d <= u32::MAX,
        a * d <= c * b,
    ensures
        0 <= quotient_bits(a, b) <= quotient_bits(c, d) < INFINITY_BITS,
{
    if c > 0 {
        lemma_scale_fits(c, d);
    }
    if a == 0 {
    } else {
        assert(c > 0) by (nonlinear_arith)
            requires
                a > 0,
                d > 0,
                a * d <= c * b,
        ;
        lemma_scale_fits(a, b);
        let s = scale(a, b);
        let t = scale(c, d);
        let (p, q) = (pow2(s), pow2(t));
        assert((a * q) * d <= (c * q) * b) by (nonlinear_arith)
            requires
                a * d <= c * b,
                q >= 0,
        ;
        if s < t {
            lemma_binade_apart(a, b, s, t);
            let low = IMPLICIT_BIT as nat;
            assert(2 * low * b * d <= (a * q) * d) by (nonlinear_arith)
                requires
                    2 * (low * b) <= a * q,
                    d > 0,
            ;
            assert((c * q) * b < 2 * low * d * b) by (nonlinear_arith)
                requires
                    c * q < 2 * (low * d),
                    b > 0,
            ;
            assert(2 * low * d * b == 2 * low * b * d) by (nonlinear_arith);
        } else if s == t {
            lemma_nearest_even_monotone(a * q, b, c * q, d);
        } else {
            assert((SCALE_OFFSET - s) * IMPLICIT_BIT + 2 * IMPLICIT_BIT <= (SCALE_OFFSET - t)
                * IMPLICIT_BIT + IMPLICIT_BIT);
        }
    }
}

/// Ratios that are equal as fractions are the same binary64 number.
pub proof fn law_quotient_of_equal_ratios(a: nat, b: nat, c: nat, d: nat)
    requires
        a <= u32::MAX,
        0 < b <= u32::MAX,
        c <= u32::MAX,
        0 < d <= u32::MAX,
        a * d == c * b,
    ensures
        quotient_bits(a, b) == quotient_bits(c, d),
{
    law_quotient_monotone(a, b, c, d);
    law_quotient_monotone(c, d, a, b);
}

/// The ratio of equal numbers is one.
pub proof fn law_quotient_one(num: nat)
    requires
        0 < num <= u32::MAX,
    ensures
        quotient_bits(num, num) == ONE_BITS,
{
    lemma2_to64();
    assert(pow2(52) == IMPLICIT_BIT) by {
        lemma2_to64_rest();
    }
    assert(in_binade(1, 1, 52));
    lemma_scale_unique(1, 1, 52);
    law_quotient_of_equal_ratios(num, num, 1, 1);
}

/// A ratio above one is above one after rounding too.
pub proof fn law_quotient_above_one(num: nat, den: nat)
    requires
        0 < den < num <= u32::MAX,
    ensures
        quotient_bits(num, den) > ONE_BITS,
{
    lemma2_to64();
    lemma2_to64_rest();
    let next = den + 1;
    assert(next * den <= num * den) by (nonlinear_arith)
        requires
            next <= num,
    ;
    law_quotient_monotone(next, den, num, den);
    if den == 1 {
        assert(in_binade(2, 1, 51));
        lemma_scale_unique(2, 1, 51);
    } else {
        assert(in_binade(next, den, 52));
        lemma_scale_unique(next, den, 52);
        let unit = IMPLICIT_BIT as int;
        let below = (next * pow2(52)) as int / den as int;
        assert(below >= unit + 1) by (nonlinear_arith)
            requires
                below == ((den + 1) * unit) / den as int,
                0 < den <= unit,
        ;
    }
}

/// Only zero has the bit pattern of zero.
pub proof fn law_quotient_zero(num: nat, den: nat)
    requires
        num <= u32::MAX,
        0 < den <= u32::MAX,
    ensures
        quotient_bits(num, den) == 0 <==> num == 0,
{
    if num > 0 {
        lemma_scale_fits(num, den);
    }
}

impl PartialEq for Binary64 {
    fn eq(&self, other: &Self) -> (answer: bool) {
        let (a, b): (u64, u64) = (self.bits % SIGN_BIT, other.bits % SIGN_BIT);
        a <= INFINITY_BITS && b <= INFINITY_BITS && (self.bits == other.bits || (a == 0 && b == 0))
    }
}

impl vstd::std_specs::cmp::PartialEqSpecImpl for Binary64 {
    open spec fn obeys_eq_spec() -> bool {
        true
    }

    open spec fn eq_spec(&self, other: &Self) -> bool {
        !self.is_nan() && !other.is_nan() && self.rank() == other.rank()
    }
}

impl Binary64 {
    /// Wraps a bit pattern.
    pub fn from_bits(bits: u64) -> (number: Binary64)
        ensures
            number.bits == bits,
    {
        Binary64 { bits }
    }

    /// The bit pattern.
    pub fn to_bits(self) -> (bits: u64)
        ensures
            bits == self.bits,
    {
        self.bits
    }

    /// Whether the pattern encodes no number.
    pub open spec fn is_nan(self) -> bool {
        self.bits % SIGN_BIT > INFINITY_BITS
    }

    /// The place of a number among the numbers: numbers compare as their ranks
    /// do, and both zeros have rank zero.
    pub open spec fn rank(self) -> int {
        if self.bits < SIGN_BIT {
            self.bits as int
        } else {
            SIGN_BIT - self.bits
        }
    }

    /// `self >= other`; false where either is a NaN.
    pub open spec fn spec_at_least(self, other: Binary64) -> bool {
        !self.is_nan() && !other.is_nan() && self.rank() >= other.rank()
    }

    /// `self >= other`; false where either is a NaN.
    pub fn at_least(self, other: Binary64) -> (answer: bool)
        ensures
            answer == self.spec_at_least(other),
    {
        let (a, b): (u64, u64) = (self.bits % SIGN_BIT, other.bits % SIGN_BIT);
        if a > INFINITY_BITS || b > INFINITY_BITS {
            false
        } else if self.bits < SIGN_BIT {
            other.bits >= SIGN_BIT || a >= b
        } else if other.bits < SIGN_BIT {
            a == 0 && b == 0
        } else {
            a <= b
        }
    }

    /// `num / den` as a binary64 number, rounded to nearest, ties to even.
    pub open spec fn spec_ratio(num: u32, den: u32) -> Binary64 {
        Binary64 { bits: quotient_bits(num as nat, den as nat) as u64 }
    }

    /// `num / den` as a binary64 number, rounded to nearest, ties to even.
    pub fn ratio(num: u32, den: u32) -> (ratio: Binary64)
        requires
            den != 0,
        ensures
            ratio == Self::spec_ratio(num, den),
            ratio.bits == quotient_bits(num as nat, den as nat),
            ratio.bits < INFINITY_BITS,
    {
        if num == 0 {
            return Binary64 { bits: 0 };
        }
        let wide: u128 = den as u128;
        let low: u128 = IMPLICIT_BIT as u128 * wide;
        let mut scaled: u128 = num as u128;
        let mut s: u64 = 0;
        proof {
            lemma2_to64();
        }
        while scaled < low
            invariant
                wide == den,
                0 < wide <= 0xFFFF_FFFF,
                low == IMPLICIT_BIT * wide,
                num > 0,
                scaled == num * pow2(s as nat),
                scaled < 2 * low,
                1 <= pow2(s as nat),
                s <= 84,
                pow2(s as nat) <= scaled,
            decreases 2 * low - scaled,
        {
            proof {
                lemma_pow2_unfold((s + 1) as nat);
                lemma_pow2_pos((s + 1) as nat);
                let p = pow2(s as nat);
                assert(num * (2 * p) == 2 * (num * p)) by (nonlinear_arith);
                if s >= 84 {
                    lemma2_to64_rest();
                    lemma_pow2_adds(64, 20);
                    lemma2_to64();
                }
            }
            scaled = scaled * 2;
            s = s + 1;
        }
        proof {
            assert(in_binade(num as nat, den as nat, s as nat));
            lemma_scale_unique(num as nat, den as nat, s as nat);
        }
        let below: u128 = scaled / wide;
        let rest: u128 = scaled % wide;
        proof {
            assert(0x10_0000_0000_0000 <= below < 0x20_0000_0000_0000) by (nonlinear_arith)
                requires
                    below == scaled as int / wide as int,
                    wide > 0,
                    0x10_0000_0000_0000 * wide <= scaled < 0x20_0000_0000_0000 * wide,
            ;
        }
        let significand: u64 = if 2 * rest < wide || (2 * rest == wide && below % 2 == 0) {
            below as u64
        } else {
            below as u64 + 1
        };
        Binary64 { bits: (SCALE_OFFSET - s) * IMPLICIT_BIT + significand }
    }
}

} // verus!
