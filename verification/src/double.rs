//! IEEE 754 binary64 numbers, held as their 64-bit encodings.
//!
//! An encoding is a sign bit, an exponent field of 11 bits and a
//! fraction field of 52 bits. What it stands for is stated by
//! [`Double::scaled`], and everything here is done by integer arithmetic
//! on the encoding.

use crate::binary::{
    distance, leading, lemma_leading_below, lemma_rounded_is_nearest,
    lemma_rounded_magnitude_bound, lemma_rounded_weight, lemma_weight_increases,
    lemma_weight_of_parts, magnitude_from, magnitude_of, rounded, rounded_int, weight,
};
use crate::single::{Single, SINGLE_HIDDEN, SINGLE_INFINITY};
use vstd::arithmetic::power2::{lemma2_to64, lemma2_to64_rest, lemma_pow2_adds, pow2};
use vstd::prelude::*;

verus! {

/// The sign bit of an encoding.
pub const DOUBLE_SIGN: u64 = 0x8000_0000_0000_0000;

/// The weight of the hidden bit: the fraction field holds the 52 bits below it.
pub const DOUBLE_HIDDEN: u64 = 0x10_0000_0000_0000;

/// The magnitude of infinity; every larger magnitude encodes a NaN.
pub const DOUBLE_INFINITY: u64 = 0x7ff0_0000_0000_0000;

/// A binary64 number. Two values are equal when their encodings are, so
/// `0.0` and `-0.0` differ, and so do NaNs with different payloads.
#[derive(Clone, Copy, Debug, PartialEq, Eq, Structural)]
pub struct Double {
    pub bits: u64,
}

impl Double {
    /// Whether the sign bit is set.
    pub open spec fn negative(self) -> bool {
        self.bits >= DOUBLE_SIGN
    }

    /// The encoding without its sign bit.
    pub open spec fn magnitude(self) -> nat {
        if self.negative() {
            (self.bits - DOUBLE_SIGN) as nat
        } else {
            self.bits as nat
        }
    }

    /// Whether the encoding is not a number.
    pub open spec fn nan(self) -> bool {
        self.magnitude() > DOUBLE_INFINITY
    }

    /// Whether the encoding is a number other than the two infinities.
    pub open spec fn finite(self) -> bool {
        self.magnitude() < DOUBLE_INFINITY
    }

    /// The number that the encoding stands for, in units of `2^-1074`.
    /// Meaningful unless `self.nan()`; both zeros give `0`, and the
    /// infinities lie beyond every finite number.
    pub open spec fn scaled(self) -> int {
        if self.negative() {
            -(weight(self.magnitude(), DOUBLE_HIDDEN as nat) as int)
        } else {
            weight(self.magnitude(), DOUBLE_HIDDEN as nat) as int
        }
    }

    /// The magnitude with the sign applied: an integer that orders the
    /// encodings as `scaled` orders the numbers.
    pub open spec fn key(self) -> int {
        if self.negative() {
            -(self.magnitude() as int)
        } else {
            self.magnitude() as int
        }
    }

    /// The larger of two numbers. A NaN yields to the other operand, and
    /// of two equal numbers the first is kept, sign of zero included.
    pub open spec fn greater(self, other: Double) -> Double {
        if self.nan() {
            other
        } else if other.nan() {
            self
        } else if self.scaled() < other.scaled() {
            other
        } else {
            self
        }
    }

    /// Whether the two encodings differ where [`Double::greater`] sees no
    /// difference: two NaNs, or the two zeros.
    pub open spec fn confused_with(self, other: Double) -> bool {
        &&& self != other
        &&& self.nan() && other.nan() || self.magnitude() == 0 && other.magnitude() == 0
    }

    /// The number nearest to the integer `x`, and of two equally near ones
    /// the one with the even significand. Zero gives `0.0`.
    pub open spec fn of_int(x: int) -> Double {
        let n = (if x < 0 { -x } else { x }) as nat;
        let m = magnitude_of(rounded(n, 53), 52, 1023);
        Double { bits: (if x < 0 { DOUBLE_SIGN + m } else { m as int }) as u64 }
    }

    /// The binary64 number equal to the binary32 number `s`. Infinities
    /// stay infinities of their sign, and a NaN becomes the quiet NaN of
    /// the same sign whose payload starts with that of `s`.
    pub open spec fn of_single(s: Single) -> Double {
        let e = s.magnitude() / (SINGLE_HIDDEN as nat);
        let f = s.magnitude() % (SINGLE_HIDDEN as nat);
        let quiet: nat = if f < 0x40_0000 { 0x8_0000_0000_0000 } else { 0 };
        let m: nat = if s.nan() {
            DOUBLE_INFINITY as nat + f * 0x2000_0000 + quiet
        } else if e == 255 {
            DOUBLE_INFINITY as nat
        } else if e > 0 {
            (e + 896) * (DOUBLE_HIDDEN as nat) + f * 0x2000_0000
        } else {
            magnitude_of(f, 52, 874)
        };
        Double { bits: (if s.negative() { DOUBLE_SIGN + m } else { m as int }) as u64 }
    }

    /// The number with the encoding `bits`.
    pub fn from_bits(bits: u64) -> (r: Double)
        ensures
            r.bits == bits,
    {
        Double { bits }
    }

    /// The encoding of the number.
    pub fn to_bits(self) -> (bits: u64)
        ensures
            bits == self.bits,
    {
        self.bits
    }

    /// Whether the sign bit is set, which it is in `-0.0` too.
    pub fn is_negative(self) -> (r: bool)
        ensures
            r == self.negative(),
    {
        self.bits >= DOUBLE_SIGN
    }

    /// The encoding without its sign bit.
    pub fn abs_bits(self) -> (m: u64)
        ensures
            m == self.magnitude(),
            m < DOUBLE_SIGN,
    {
        if self.bits >= DOUBLE_SIGN {
            self.bits - DOUBLE_SIGN
        } else {
            self.bits
        }
    }

    /// Whether the encoding is not a number.
    pub fn is_nan(self) -> (r: bool)
        ensures
            r == self.nan(),
    {
        self.abs_bits() > DOUBLE_INFINITY
    }

    /// The magnitude with the sign applied; see [`Double::key`].
    pub fn ordering_key(self) -> (k: i64)
        ensures
            k == self.key(),
    {
        if self.is_negative() {
            -(self.abs_bits() as i64)
        } else {
            self.abs_bits() as i64
        }
    }

    /// The larger of `self` and `other`; see [`Double::greater`].
    pub fn max(self, other: Double) -> (r: Double)
        ensures
            r == self.greater(other),
    {
        if self.is_nan() {
            other
        } else if other.is_nan() {
            self
        } else {
            proof {
                self.lemma_key_orders(other);
            }
            if self.ordering_key() < other.ordering_key() {
                other
            } else {
                self
            }
        }
    }

    /// Converts a 32-bit integer; every one of them is a binary64 number.
    pub fn from_i32(x: i32) -> (r: Double)
        ensures
            r == Double::of_int(x as int),
    {
        Double::from_i64(x as i64)
    }

    /// Converts a 64-bit integer, rounding to the nearest number.
    pub fn from_i64(x: i64) -> (r: Double)
        ensures
            r == Double::of_int(x as int),
    {
        let n: u64 = if x == i64::MIN {
            DOUBLE_SIGN
        } else if x < 0 {
            (-x) as u64
        } else {
            x as u64
        };
        let m = magnitude_from(n, 52, 1023);
        proof {
            lemma2_to64();
            lemma2_to64_rest();
        }
        if x < 0 {
            Double { bits: DOUBLE_SIGN + m }
        } else {
            Double { bits: m }
        }
    }

    /// Widens a binary32 number; see [`Double::of_single`].
    pub fn from_single(s: Single) -> (r: Double)
        ensures
            r == Double::of_single(s),
    {
        let a: u64 = s.abs_bits() as u64;
        let e: u64 = a / (SINGLE_HIDDEN as u64);
        let f: u64 = a % (SINGLE_HIDDEN as u64);
        assert(e == a / 0x80_0000 && f == a % 0x80_0000);
        let m: u64 = if a > SINGLE_INFINITY as u64 {
            let quiet: u64 = if f < 0x40_0000 { 0x8_0000_0000_0000 } else { 0 };
            DOUBLE_INFINITY + f * 0x2000_0000 + quiet
        } else if e == 255 {
            DOUBLE_INFINITY
        } else if e > 0 {
            (e + 896) * DOUBLE_HIDDEN + f * 0x2000_0000
        } else {
            proof {
                lemma2_to64();
                lemma2_to64_rest();
                if f > 0 {
                    lemma_leading_below(f as nat, 23);
                }
            }
            magnitude_from(f, 52, 874)
        };
        if s.is_negative() {
            Double { bits: DOUBLE_SIGN + m }
        } else {
            Double { bits: m }
        }
    }

    /// The order of the keys is the order of the numbers.
    pub proof fn lemma_key_orders(self, other: Double)
        ensures
            self.key() < other.key() <==> self.scaled() < other.scaled(),
            self.key() == other.key() <==> self.scaled() == other.scaled(),
    {
        let h = DOUBLE_HIDDEN as nat;
        let a = self.magnitude();
        let b = other.magnitude();
        assert(weight(0, h) == 0);
        if a < b {
            lemma_weight_increases(a, b, h);
        }
        if b < a {
            lemma_weight_increases(b, a, h);
        }
        if 0 < a {
            lemma_weight_increases(0, a, h);
        }
        if 0 < b {
            lemma_weight_increases(0, b, h);
        }
    }

    /// The larger of two numbers is one of the two, and a number
    /// compared with itself is kept.
    pub proof fn lemma_greater_selects(self, other: Double)
        ensures
            self.greater(other) == self || self.greater(other) == other,
            self.greater(self) == self,
    {
    }

    /// The operands of `greater` may change places, unless they are
    /// confused with each other; then each call keeps another one.
    pub proof fn lemma_greater_commutes(self, other: Double)
        ensures
            self.confused_with(other) <==> self.greater(other) != other.greater(self),
    {
        self.lemma_key_orders(other);
    }

    /// Three numbers may be compared in either grouping.
    pub proof fn lemma_greater_associates(self, second: Double, third: Double)
        ensures
            self.greater(second).greater(third) == self.greater(second.greater(third)),
    {
    }

    /// A converted 64-bit integer is a finite number of the integer's
    /// sign: the integer rounded to 53 significant digits.
    pub proof fn lemma_of_int_value(x: int)
        requires
            i64::MIN <= x <= i64::MAX,
        ensures
            Double::of_int(x).finite(),
            Double::of_int(x).negative() == (x < 0),
            Double::of_int(x).scaled() == rounded_int(x, 53) * pow2(1074),
    {
        let n = (if x < 0 { -x } else { x }) as nat;
        let m = magnitude_of(rounded(n, 53), 52, 1023);
        lemma2_to64();
        lemma2_to64_rest();
        if n > 0 {
            lemma_leading_below(n, 64);
            lemma_rounded_magnitude_bound(n, 52, 1023);
            lemma_rounded_weight(n, 52, 1023);
            let p = leading(n);
            assert((p + 1023) * 0x10_0000_0000_0000 >= 0x10_0000_0000_0000 && (p + 1023 + 1) * 0x10_0000_0000_0000 <= (64
                + 1023 + 1) * 0x10_0000_0000_0000) by (nonlinear_arith)
                requires
                    p < 64,
            ;
            let r = rounded(n, 53);
            let unit = pow2(1074);
            assert(Double::of_int(x).magnitude() == m);
            assert(weight(m, DOUBLE_HIDDEN as nat) == r * unit);
            if x < 0 {
                assert(rounded_int(x, 53) == -r);
                assert(-(r * unit) == (-r) * unit) by (nonlinear_arith);
                assert(Double::of_int(x).scaled() == -(r * unit));
            } else {
                assert(rounded_int(x, 53) == r);
                assert(Double::of_int(x).scaled() == r * unit);
            }
        } else {
            assert(rounded(0, 53) == 0);
            assert(m == 0);
            assert(weight(0, DOUBLE_HIDDEN as nat) == 0);
            assert(Double::of_int(x).bits == 0);
            assert(0 * pow2(1074) == 0);
        }
    }

    /// An integer below `2^53` in size is converted without rounding.
    pub proof fn lemma_of_int_exact(x: int)
        requires
            -0x20_0000_0000_0000 < x < 0x20_0000_0000_0000,
        ensures
            Double::of_int(x).scaled() == x * pow2(1074),
    {
        let n = (if x < 0 { -x } else { x }) as nat;
        lemma2_to64();
        lemma2_to64_rest();
        if n > 0 {
            lemma_leading_below(n, 53);
        }
        assert(rounded(n, 53) == n);
        Double::lemma_of_int_value(x);
    }

    /// No number of the format is nearer to the integer `x` than the
    /// converted one, and where another is as near, the converted one has
    /// the even encoding.
    pub proof fn lemma_of_int_nearest(x: int, other: Double)
        requires
            i64::MIN <= x <= i64::MAX,
            !other.nan(),
        ensures
            ({
                let target = x * pow2(1074);
                let near = distance(Double::of_int(x).scaled(), target);
                let far = distance(other.scaled(), target);
                &&& near <= far
                &&& near == far && other.scaled() != Double::of_int(x).scaled() ==> Double::of_int(
                    x,
                ).bits % 2 == 0
            }),
    {
        let n = (if x < 0 { -x } else { x }) as nat;
        let h = DOUBLE_HIDDEN as nat;
        let unit = pow2(1074);
        let chosen = magnitude_of(rounded(n, 53), 52, 1023);
        Double::lemma_of_int_value(x);
        lemma2_to64();
        lemma2_to64_rest();
        assert(weight(0, h) == 0);
        if n > 0 {
            lemma_leading_below(n, 64);
            lemma_rounded_magnitude_bound(n, 52, 1023);
            lemma_rounded_weight(n, 52, 1023);
            lemma_rounded_is_nearest(n, 52, 1023, other.magnitude());
            lemma_rounded_is_nearest(n, 52, 1023, 0);
            let p = leading(n);
            assert((p + 1023) * h >= h && (p + 1023 + 1) * h <= (64 + 1023 + 1) * h)
                by (nonlinear_arith)
                requires
                    p < 64,
                    h > 0,
            ;
            lemma_weight_increases(0, chosen, h);
            assert(Double::of_int(x).magnitude() == chosen);
            assert((-n) * unit == -(n * unit)) by (nonlinear_arith);
            assert(x * unit == if x < 0 { -(n * unit) } else { (n * unit) as int });
        } else {
            assert(0 * unit == 0);
            assert(Double::of_int(x).bits == 0);
        }
    }

    /// Widening keeps the number: a finite number stays the same number,
    /// an infinity stays the infinity of its sign, a NaN stays a NaN.
    pub proof fn lemma_of_single_value(s: Single)
        ensures
            Double::of_single(s).negative() == s.negative(),
            Double::of_single(s).nan() == s.nan(),
            Double::of_single(s).finite() == s.finite(),
            s.finite() ==> Double::of_single(s).scaled() == s.scaled() * pow2(925),
    {
        let a = s.magnitude();
        let e = a / 0x80_0000;
        let f = a % 0x80_0000;
        assert(e == a / (SINGLE_HIDDEN as nat) && f == a % (SINGLE_HIDDEN as nat));
        lemma2_to64();
        lemma2_to64_rest();
        if s.finite() {
            if e > 0 {
                let h: nat = 0x10_0000_0000_0000;
                let below = pow2((e - 1) as nat);
                assert(e < 255);
                lemma_weight_of_parts(e + 896, h + f * 0x2000_0000, h);
                lemma_pow2_adds((e - 1) as nat, 896);
                lemma_pow2_adds(29, 896);
                assert((e + 896) * h + (h + f * 0x2000_0000) - h == (e + 896) * h + f
                    * 0x2000_0000);
                assert((e + 896) * h <= 1150 * h) by (nonlinear_arith)
                    requires
                        e < 255,
                ;
                assert((h + f * 0x2000_0000) * (below * pow2(896)) == ((0x80_0000 + f) * below)
                    * (0x2000_0000 * pow2(896))) by (nonlinear_arith)
                    requires
                        h == 0x80_0000 * 0x2000_0000,
                ;
                let m = ((e + 896) * h + f * 0x2000_0000) as nat;
                let w = weight(a, SINGLE_HIDDEN as nat);
                assert(Double::of_single(s).magnitude() == m);
                assert(w == (0x80_0000 + f) * below);
                assert(weight(m, DOUBLE_HIDDEN as nat) == w * pow2(925));
                assert(-(w * pow2(925)) == (-w) * pow2(925)) by (nonlinear_arith);
            } else if f > 0 {
                lemma_leading_below(f, 23);
                lemma_rounded_magnitude_bound(f, 52, 874);
                lemma_rounded_weight(f, 52, 874);
                let p = leading(f);
                assert((p + 874) * 0x10_0000_0000_0000 >= 0x10_0000_0000_0000 && (p + 875)
                    * 0x10_0000_0000_0000 <= 900 * 0x10_0000_0000_0000) by (nonlinear_arith)
                    requires
                        p < 23,
                ;
                let m = magnitude_of(f, 52, 874);
                assert(rounded(f, 53) == f);
                assert(Double::of_single(s).magnitude() == m);
                assert(weight(a, SINGLE_HIDDEN as nat) == f);
                assert(weight(m, DOUBLE_HIDDEN as nat) == f * pow2(925));
                assert(-(f * pow2(925)) == (-f) * pow2(925)) by (nonlinear_arith);
            } else {
                assert(weight(0, DOUBLE_HIDDEN as nat) == 0);
                assert(weight(0, SINGLE_HIDDEN as nat) == 0);
                assert(0 * pow2(925) == 0);
            }
        }
    }

    /// Widening keeps the order of numbers, the infinities included.
    pub proof fn lemma_of_single_ordered(a: Single, b: Single)
        requires
            !a.nan(),
            !b.nan(),
        ensures
            a.scaled() < b.scaled() <==> Double::of_single(a).scaled() < Double::of_single(
                b,
            ).scaled(),
    {
        let wide_a = Double::of_single(a);
        let wide_b = Double::of_single(b);
        Double::lemma_of_single_value(a);
        Double::lemma_of_single_value(b);
        a.lemma_key_orders(b);
        wide_a.lemma_key_orders(wide_b);
        if a.finite() && b.finite() {
            let x = a.scaled();
            let y = b.scaled();
            let unit = pow2(925);
            vstd::arithmetic::power2::lemma_pow2_pos(925);
            assert(x < y <==> x * unit < y * unit) by (nonlinear_arith)
                requires
                    unit > 0,
            ;
        }
    }
}

} // verus!
