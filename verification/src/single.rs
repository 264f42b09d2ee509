//! IEEE 754 binary32 numbers, held as their 32-bit encodings.
//!
//! An encoding is a sign bit, an exponent field of 8 bits and a
//! fraction field of 23 bits. What it stands for is stated by
//! [`Single::scaled`], and everything here is done by integer arithmetic
//! on the encoding.

use crate::binary::{
    distance, leading, lemma_leading_below, lemma_rounded_is_nearest,
    lemma_rounded_magnitude_bound, lemma_rounded_weight, lemma_weight_increases, magnitude_from,
    magnitude_of, rounded, rounded_int, weight,
};
use vstd::arithmetic::power2::{lemma2_to64, pow2};
use vstd::prelude::*;

verus! {

/// The sign bit of an encoding.
pub const SINGLE_SIGN: u32 = 0x8000_0000;

/// The weight of the hidden bit: the fraction field holds the 23 bits below it.
pub const SINGLE_HIDDEN: u32 = 0x80_0000;

/// The magnitude of infinity; every larger magnitude encodes a NaN.
pub const SINGLE_INFINITY: u32 = 0x7f80_0000;

/// A binary32 number. Two values are equal when their encodings are, so
/// `0.0` and `-0.0` differ, and so do NaNs with different payloads.
#[derive(Clone, Copy, Debug, PartialEq, Eq, Structural)]
pub struct Single {
    pub bits: u32,
}

impl Single {
    /// Whether the sign bit is set.
    pub open spec fn negative(self) -> bool {
        self.bits >= SINGLE_SIGN
    }

    /// The encoding without its sign bit.
    pub open spec fn magnitude(self) -> nat {
        if self.negative() {
            (self.bits - SINGLE_SIGN) as nat
        } else {
            self.bits as nat
        }
    }

    /// Whether the encoding is not a number.
    pub open spec fn nan(self) -> bool {
        self.magnitude() > SINGLE_INFINITY
    }

    /// Whether the encoding is a number other than the two infinities.
    pub open spec fn finite(self) -> bool {
        self.magnitude() < SINGLE_INFINITY
    }

    /// The number that the encoding stands for, in units of `2^-149`.
    /// Meaningful unless `self.nan()`; both zeros give `0`, and the
    /// infinities lie beyond every finite number.
    pub open spec fn scaled(self) -> int {
        if self.negative() {
            -(weight(self.magnitude(), SINGLE_HIDDEN as nat) as int)
        } else {
            weight(self.magnitude(), SINGLE_HIDDEN as nat) as int
        }
    }

    /// The magnitude with the sign applied: an integer that orders the
    /// encodings as `scaled` orders the numbers.
    pub open spec fn key(self) -> int {
        if self.negative() {
            -(self.magnitude() as int)
        } else {
            self.magnitude() as int
        }
    }

    /// The larger of two numbers. A NaN yields to the other operand, and
    /// of two equal numbers the first is kept, sign of zero included.
    pub open spec fn greater(self, other: Single) -> Single {
        if self.nan() {
            other
        } else if other.nan() {
            self
        } else if self.scaled() < other.scaled() {
            other
        } else {
            self
        }
    }

    /// Whether the two encodings differ where [`Single::greater`] sees no
    /// difference: two NaNs, or the two zeros.
    pub open spec fn confused_with(self, other: Single) -> bool {
        &&& self != other
        &&& self.nan() && other.nan() || self.magnitude() == 0 && other.magnitude() == 0
    }

    /// The number nearest to the integer `x`, and of two equally near ones
    /// the one with the even significand. Zero gives `0.0`.
    pub open spec fn of_int(x: int) -> Single {
        let n = (if x < 0 { -x } else { x }) as nat;
        let m = magnitude_of(rounded(n, 24), 23, 127);
        Single { bits: (if x < 0 { SINGLE_SIGN + m } else { m as int }) as u32 }
    }

    /// The number with the encoding `bits`.
    pub fn from_bits(bits: u32) -> (r: Single)
        ensures
            r.bits == bits,
    {
        Single { bits }
    }

    /// The encoding of the number.
    pub fn to_bits(self) -> (bits: u32)
        ensures
            bits == self.bits,
    {
        self.bits
    }

    /// Whether the sign bit is set, which it is in `-0.0` too.
    pub fn is_negative(self) -> (r: bool)
        ensures
            r == self.negative(),
    {
        self.bits >= SINGLE_SIGN
    }

    /// The encoding without its sign bit.
    pub fn abs_bits(self) -> (m: u32)
        ensures
            m == self.magnitude(),
            m < SINGLE_SIGN,
    {
        if self.bits >= SINGLE_SIGN {
            self.bits - SINGLE_SIGN
        } else {
            self.bits
        }
    }

    /// Whether the encoding is not a number.
    pub fn is_nan(self) -> (r: bool)
        ensures
            r == self.nan(),
    {
        self.abs_bits() > SINGLE_INFINITY
    }

    /// The magnitude with the sign applied; see [`Single::key`].
    pub fn ordering_key(self) -> (k: i64)
        ensures
            k == self.key(),
    {
        if self.is_negative() {
            -(self.abs_bits() as i64)
        } else {
            self.abs_bits() as i64
        }
    }

    /// The larger of `self` and `other`; see [`Single::greater`].
    pub fn max(self, other: Single) -> (r: Single)
        ensures
            r == self.greater(other),
    {
        if self.is_nan() {
            other
        } else if other.is_nan() {
            self
        } else {
            proof {
                self.lemma_key_orders(other);
            }
            if self.ordering_key() < other.ordering_key() {
                other
            } else {
                self
            }
        }
    }

    /// Converts a 32-bit integer, rounding to the nearest number.
    pub fn from_i32(x: i32) -> (r: Single)
        ensures
            r == Single::of_int(x as int),
    {
        let n: u64 = if x < 0 { (-(x as i64)) as u64 } else { x as u64 };
        let m = magnitude_from(n, 23, 127);
        proof {
            lemma2_to64();
        }
        if x < 0 {
            Single { bits: SINGLE_SIGN + m as u32 }
        } else {
            Single { bits: m as u32 }
        }
    }

    /// The order of the keys is the order of the numbers.
    pub proof fn lemma_key_orders(self, other: Single)
        ensures
            self.key() < other.key() <==> self.scaled() < other.scaled(),
            self.key() == other.key() <==> self.scaled() == other.scaled(),
    {
        let h = SINGLE_HIDDEN as nat;
        let a = self.magnitude();
        let b = other.magnitude();
        assert(weight(0, h) == 0);
        if a < b {
            lemma_weight_increases(a, b, h);
        }
        if b < a {
            lemma_weight_increases(b, a, h);
        }
        if 0 < a {
            lemma_weight_increases(0, a, h);
        }
        if 0 < b {
            lemma_weight_increases(0, b, h);
        }
    }

    /// The larger of two numbers is one of the two, and a number
    /// compared with itself is kept.
    pub proof fn lemma_greater_selects(self, other: Single)
        ensures
            self.greater(other) == self || self.greater(other) == other,
            self.greater(self) == self,
    {
    }

    /// The operands of `greater` may change places, unless they are
    /// confused with each other; then each call keeps another one.
    pub proof fn lemma_greater_commutes(self, other: Single)
        ensures
            self.confused_with(other) <==> self.greater(other) != other.greater(self),
    {
        self.lemma_key_orders(other);
    }

    /// Three numbers may be compared in either grouping.
    pub proof fn lemma_greater_associates(self, second: Single, third: Single)
        ensures
            self.greater(second).greater(third) == self.greater(second.greater(third)),
    {
    }

    /// A converted 32-bit integer is a finite number of the integer's
    /// sign: the integer rounded to 24 significant digits.
    pub proof fn lemma_of_int_value(x: int)
        requires
            i32::MIN <= x <= i32::MAX,
        ensures
            Single::of_int(x).finite(),
            Single::of_int(x).negative() == (x < 0),
            Single::of_int(x).scaled() == rounded_int(x, 24) * pow2(149),
    {
        let n = (if x < 0 { -x } else { x }) as nat;
        let m = magnitude_of(rounded(n, 24), 23, 127);
        lemma2_to64();
        if n > 0 {
            lemma_leading_below(n, 32);
            lemma_rounded_magnitude_bound(n, 23, 127);
            lemma_rounded_weight(n, 23, 127);
            let p = leading(n);
            assert((p + 127) * 0x80_0000 >= 0x80_0000 && (p + 127 + 1) * 0x80_0000 <= (32
                + 127 + 1) * 0x80_0000) by (nonlinear_arith)
                requires
                    p < 32,
            ;
            let r = rounded(n, 24);
            let unit = pow2(149);
            assert(Single::of_int(x).magnitude() == m);
            assert(weight(m, SINGLE_HIDDEN as nat) == r * unit);
            if x < 0 {
                assert(rounded_int(x, 24) == -r);
                assert(-(r * unit) == (-r) * unit) by (nonlinear_arith);
                assert(Single::of_int(x).scaled() == -(r * unit));
            } else {
                assert(rounded_int(x, 24) == r);
                assert(Single::of_int(x).scaled() == r * unit);
            }
        } else {
            assert(rounded(0, 24) == 0);
            assert(m == 0);
            assert(weight(0, SINGLE_HIDDEN as nat) == 0);
            assert(Single::of_int(x).bits == 0);
            assert(0 * pow2(149) == 0);
        }
    }

    /// An integer below `2^24` in size is converted without rounding.
    pub proof fn lemma_of_int_exact(x: int)
        requires
            -0x100_0000 < x < 0x100_0000,
        ensures
            Single::of_int(x).scaled() == x * pow2(149),
    {
        let n = (if x < 0 { -x } else { x }) as nat;
        lemma2_to64();
        if n > 0 {
            lemma_leading_below(n, 24);
        }
        assert(rounded(n, 24) == n);
        Single::lemma_of_int_value(x);
    }

    /// No number of the format is nearer to the integer `x` than the
    /// converted one, and where another is as near, the converted one has
    /// the even encoding.
    pub proof fn lemma_of_int_nearest(x: int, other: Single)
        requires
            i32::MIN <= x <= i32::MAX,
            !other.nan(),
        ensures
            ({
                let target = x * pow2(149);
                let near = distance(Single::of_int(x).scaled(), target);
                let far = distance(other.scaled(), target);
                &&& near <= far
                &&& near == far && other.scaled() != Single::of_int(x).scaled() ==> Single::of_int(
                    x,
                ).bits % 2 == 0
            }),
    {
        let n = (if x < 0 { -x } else { x }) as nat;
        let h = SINGLE_HIDDEN as nat;
        let unit = pow2(149);
        let chosen = magnitude_of(rounded(n, 24), 23, 127);
        Single::lemma_of_int_value(x);
        lemma2_to64();
        assert(weight(0, h) == 0);
        if n > 0 {
            lemma_leading_below(n, 32);
            lemma_rounded_magnitude_bound(n, 23, 127);
            lemma_rounded_weight(n, 23, 127);
            lemma_rounded_is_nearest(n, 23, 127, other.magnitude());
            lemma_rounded_is_nearest(n, 23, 127, 0);
            let p = leading(n);
            assert((p + 127) * h >= h && (p + 127 + 1) * h <= (32 + 127 + 1) * h)
                by (nonlinear_arith)
                requires
                    p < 32,
                    h > 0,
            ;
            lemma_weight_increases(0, chosen, h);
            assert(Single::of_int(x).magnitude() == chosen);
            assert((-n) * unit == -(n * unit)) by (nonlinear_arith);
            assert(x * unit == if x < 0 { -(n * unit) } else { (n * unit) as int });
        } else {
            assert(0 * unit == 0);
            assert(Single::of_int(x).bits == 0);
        }
    }
}

} // verus!
