//! Arithmetic shared by the two binary floating-point formats.
//!
//! The bits of an encoding below its sign bit are called its magnitude:
//! an exponent field above a fraction field of `t` bits. A format is
//! described here by `t`, or by the weight `2^t` of the hidden bit, and by
//! the bias of its exponent field: 23 and 127 for binary32, 52 and 1023
//! for binary64.

use vstd::arithmetic::div_mod::{
    lemma_div_by_self, lemma_div_is_ordered, lemma_fundamental_div_mod,
    lemma_fundamental_div_mod_converse,
};
use vstd::arithmetic::power2::{
    lemma2_to64, lemma2_to64_rest, lemma_pow2_adds, lemma_pow2_pos,
    lemma_pow2_strictly_increases, lemma_pow2_unfold, pow2,
};
use vstd::bits::{lemma_u64_pow2_no_overflow, lemma_u64_shl_is_mul};
use vstd::prelude::*;

verus! {

/// The number that a magnitude `m` stands for, counted in units of the
/// smallest positive number of the format.
///
/// With exponent field `e = m / hidden` and fraction `f = m % hidden`, a
/// subnormal magnitude (`e == 0`) weighs `f`, and a normal one weighs
/// `(hidden + f) * 2^(e - 1)`. The magnitude of infinity weighs twice the
/// leading bit of the largest finite number, so it lies above all of them.
pub open spec fn weight(m: nat, hidden: nat) -> nat {
    let e = m / hidden;
    let f = m % hidden;
    if e == 0 {
        f
    } else {
        (hidden + f) * pow2((e - 1) as nat)
    }
}

/// The position of the leading one among the binary digits of `n`, counted
/// from zero at the lowest digit; `0` for `n == 0`.
pub open spec fn leading(n: nat) -> nat
    decreases n,
{
    if n <= 1 {
        0
    } else {
        1 + leading(n / 2)
    }
}

/// `n` rounded to `digits` significant binary digits: to the nearest
/// multiple of the unit `2^(leading(n) + 1 - digits)`, and of two equally
/// near ones to the even multiple.
pub open spec fn rounded(n: nat, digits: nat) -> nat {
    let p = leading(n);
    if p < digits {
        n
    } else {
        let unit = pow2((p + 1 - digits) as nat);
        let q = n / unit;
        let r = n % unit;
        if 2 * r > unit || (2 * r == unit && q % 2 == 1) {
            (q + 1) * unit
        } else {
            q * unit
        }
    }
}

/// An integer rounded to `digits` significant binary digits: its size is
/// rounded and its sign is kept.
pub open spec fn rounded_int(x: int, digits: nat) -> int {
    if x < 0 {
        -(rounded((-x) as nat, digits) as int)
    } else {
        rounded(x as nat, digits) as int
    }
}

/// The magnitude that encodes `n` in a format with `t` fraction bits and
/// the exponent field `leading(n) + bias`. `n` has to fit the format: a
/// positive `n` with at most `t + 1` significant digits, and
/// `0 < leading(n) + bias` below the exponent field of infinity.
pub open spec fn magnitude_of(n: nat, t: nat, bias: nat) -> nat {
    if n == 0 {
        0
    } else {
        let p = leading(n);
        let significand = if p <= t {
            n * pow2((t - p) as nat)
        } else {
            n / pow2((p - t) as nat)
        };
        ((p + bias) * pow2(t) + significand - pow2(t)) as nat
    }
}

/// How far two numbers are apart.
pub open spec fn distance(a: int, b: int) -> int {
    if a < b {
        b - a
    } else {
        a - b
    }
}

/// `2^k` as a machine integer.
pub fn power_of_two(k: u32) -> (r: u64)
    requires
        k < 64,
    ensures
        r == pow2(k as nat),
{
    proof {
        lemma_u64_pow2_no_overflow(k as nat);
        lemma_u64_shl_is_mul(1, k as u64);
    }
    1u64 << (k as u64)
}

/// The leading position of a positive `n`.
pub fn leading_position(n: u64) -> (p: u32)
    requires
        n > 0,
    ensures
        p == leading(n as nat),
        p < 64,
{
    let mut p: u32 = 0;
    let mut rest: u64 = n;
    proof {
        lemma2_to64();
    }
    while rest > 1
        invariant
            rest > 0,
            leading(n as nat) == p + leading(rest as nat),
            rest * pow2(p as nat) <= n,
            p < 64,
        decreases rest,
    {
        proof {
            let half = (rest / 2) as nat;
            let pp = pow2(p as nat);
            lemma_pow2_unfold((p + 1) as nat);
            assert(half * (2 * pp) <= rest * pp) by (nonlinear_arith)
                requires
                    2 * half <= rest,
                    pp >= 0,
            ;
            if p == 63 {
                lemma2_to64();
                assert(half * pow2(64) >= pow2(64)) by (nonlinear_arith)
                    requires
                        half >= 1,
                ;
            }
        }
        rest = rest / 2;
        p = p + 1;
    }
    p
}

/// The magnitude of the number nearest to `n` in the format with `t`
/// fraction bits, encoded with the exponent field `leading + bias`.
pub fn magnitude_from(n: u64, t: u32, bias: u32) -> (m: u64)
    requires
        1 <= t <= 52,
        1 <= bias <= 1023,
    ensures
        m == magnitude_of(rounded(n as nat, (t + 1) as nat), t as nat, bias as nat),
        m < (65 + bias) * pow2(t as nat),
{
    let ghost h = pow2(t as nat);
    proof {
        lemma2_to64();
        lemma2_to64_rest();
        if t < 52 {
            lemma_pow2_strictly_increases(t as nat, 52);
        }
        lemma_pow2_pos(t as nat);
    }
    if n == 0 {
        proof {
            assert((65 + bias) * h > 0) by (nonlinear_arith)
                requires
                    h > 0,
                    bias >= 1,
            ;
        }
        return 0;
    }
    let p = leading_position(n);
    let hidden = power_of_two(t);
    proof {
        assert((p + bias) * h <= 1086 * h && (65 + bias) * h >= (p + bias + 2) * h && (p + bias
            + 2) * h == (p + bias) * h + 2 * h) by (nonlinear_arith)
            requires
                p + bias <= 1086,
                p <= 63,
                h > 0,
        ;
    }
    if p <= t {
        proof {
            lemma_magnitude_exact(n as nat, t as nat, bias as nat);
            lemma_u64_shl_is_mul(n, (t - p) as u64);
        }
        let significand = n << ((t - p) as u64);
        (p + bias) as u64 * hidden + (significand - hidden)
    } else {
        proof {
            lemma_magnitude_rounded(n as nat, t as nat, bias as nat);
        }
        let unit = power_of_two(p - t);
        let q = n / unit;
        let r = n % unit;
        let half = unit / 2;
        let up = r > half || (r == half && q % 2 == 1);
        let significand = if up { q + 1 } else { q };
        (p + bias) as u64 * hidden + (significand - hidden)
    }
}

/// Every magnitude with exponent field `e` weighs less than `hidden * 2^e`.
proof fn lemma_weight_upper(m: nat, hidden: nat)
    requires
        hidden > 0,
    ensures
        weight(m, hidden) < hidden * pow2(m / hidden),
{
    let e = m / hidden;
    let f = m % hidden;
    lemma_fundamental_div_mod(m as int, hidden as int);
    assert(0 <= f < hidden);
    if e == 0 {
        assert(pow2(0) == 1) by {
            lemma2_to64();
        }
    } else {
        let p = pow2((e - 1) as nat);
        lemma_pow2_pos((e - 1) as nat);
        lemma_pow2_unfold(e);
        assert((hidden + f) * p < hidden * (2 * p)) by (nonlinear_arith)
            requires
                0 <= f < hidden,
                p > 0,
        ;
    }
}

/// A normal magnitude with exponent field `e` weighs at least
/// `hidden * 2^(e - 1)`.
proof fn lemma_weight_lower(m: nat, hidden: nat)
    requires
        hidden > 0,
        m >= hidden,
    ensures
        m / hidden >= 1,
        weight(m, hidden) >= hidden * pow2((m / hidden - 1) as nat),
{
    let e = m / hidden;
    let f = m % hidden;
    lemma_fundamental_div_mod(m as int, hidden as int);
    lemma_div_is_ordered(hidden as int, m as int, hidden as int);
    lemma_div_by_self(hidden as int);
    let p = pow2((e - 1) as nat);
    assert((hidden + f) * p >= hidden * p) by (nonlinear_arith)
        requires
            f >= 0,
            p >= 0,
            hidden >= 0,
    ;
}

/// Magnitudes are ordered as the numbers that they stand for.
pub proof fn lemma_weight_increases(a: nat, b: nat, hidden: nat)
    requires
        hidden > 0,
        a < b,
    ensures
        weight(a, hidden) < weight(b, hidden),
{
    let ea = a / hidden;
    let fa = a % hidden;
    let eb = b / hidden;
    let fb = b % hidden;
    lemma_fundamental_div_mod(a as int, hidden as int);
    lemma_fundamental_div_mod(b as int, hidden as int);
    lemma_div_is_ordered(a as int, b as int, hidden as int);
    assert(ea <= eb);
    if ea == eb {
        assert(fa < fb);
        if ea > 0 {
            let p = pow2((ea - 1) as nat);
            lemma_pow2_pos((ea - 1) as nat);
            assert((hidden + fa) * p < (hidden + fb) * p) by (nonlinear_arith)
                requires
                    fa < fb,
                    p > 0,
            ;
        }
    } else {
        lemma_weight_upper(a, hidden);
        assert(b >= hidden) by {
            assert(eb >= 1);
            assert(hidden * eb >= hidden) by (nonlinear_arith)
                requires
                    eb >= 1,
                    hidden > 0,
            ;
        }
        lemma_weight_lower(b, hidden);
        if ea < eb - 1 {
            lemma_pow2_strictly_increases(ea, (eb - 1) as nat);
        }
        let pa = pow2(ea);
        let pb = pow2((eb - 1) as nat);
        assert(hidden * pa <= hidden * pb) by (nonlinear_arith)
            requires
                pa <= pb,
                hidden > 0,
        ;
    }
}

/// A magnitude put together from an exponent field `e >= 1` and a
/// significand between `hidden` and `2 * hidden` weighs the significand
/// times `2^(e - 1)`; a significand of `2 * hidden` carries into the
/// exponent field.
pub proof fn lemma_weight_of_parts(e: nat, significand: nat, hidden: nat)
    requires
        e >= 1,
        0 < hidden <= significand <= 2 * hidden,
    ensures
        weight((e * hidden + significand - hidden) as nat, hidden) == significand * pow2(
            (e - 1) as nat,
        ),
{
    let m = (e * hidden + significand - hidden) as nat;
    let below = pow2((e - 1) as nat);
    assert(e * hidden >= hidden) by (nonlinear_arith)
        requires
            e >= 1,
            hidden > 0,
    ;
    if significand < 2 * hidden {
        lemma_fundamental_div_mod_converse(
            m as int,
            hidden as int,
            e as int,
            significand - hidden,
        );
    } else {
        assert(m == (e + 1) * hidden) by (nonlinear_arith)
            requires
                m == e * hidden + significand - hidden,
                significand == 2 * hidden,
        ;
        lemma_fundamental_div_mod_converse(m as int, hidden as int, (e + 1) as int, 0);
        lemma_pow2_unfold(e);
        assert(hidden * (2 * below) == (2 * hidden) * below) by (nonlinear_arith);
    }
}

/// A positive `n` lies between the power of two at its leading position
/// and the next one.
pub proof fn lemma_leading_bounds(n: nat)
    requires
        n > 0,
    ensures
        pow2(leading(n)) <= n < 2 * pow2(leading(n)),
    decreases n,
{
    if n <= 1 {
        lemma2_to64();
    } else {
        lemma_leading_bounds(n / 2);
        lemma_pow2_unfold(leading(n));
    }
}

/// Only the leading position `p` has `2^p <= n < 2^(p + 1)`.
pub proof fn lemma_leading_unique(n: nat, p: nat)
    requires
        pow2(p) <= n < 2 * pow2(p),
    ensures
        leading(n) == p,
{
    lemma_pow2_pos(p);
    lemma_leading_bounds(n);
    let l = leading(n);
    if l < p {
        lemma_pow2_unfold(l + 1);
        if l + 1 < p {
            lemma_pow2_strictly_increases(l + 1, p);
        }
    }
    if p < l {
        lemma_pow2_unfold(p + 1);
        if p + 1 < l {
            lemma_pow2_strictly_increases(p + 1, l);
        }
    }
}

/// A positive number below `2^k` has its leading one below position `k`.
pub proof fn lemma_leading_below(n: nat, k: nat)
    requires
        0 < n < pow2(k),
    ensures
        leading(n) < k,
{
    lemma_leading_bounds(n);
    if leading(n) > k {
        lemma_pow2_strictly_increases(k, leading(n));
    }
}

/// The encoding of a number that needs no rounding: `n`, with leading
/// position `p <= t`, is moved up until its leading one is the hidden bit.
pub proof fn lemma_magnitude_exact(n: nat, t: nat, bias: nat)
    requires
        n > 0,
        leading(n) <= t,
    ensures
        rounded(n, t + 1) == n,
        pow2(t) <= n * pow2((t - leading(n)) as nat) < 2 * pow2(t),
        magnitude_of(n, t, bias) == (leading(n) + bias) * pow2(t) + n * pow2(
            (t - leading(n)) as nat,
        ) - pow2(t),
{
    let p = leading(n);
    let k = (t - p) as nat;
    let pp = pow2(p);
    let pk = pow2(k);
    lemma_leading_bounds(n);
    lemma_pow2_adds(p, k);
    lemma_pow2_pos(k);
    assert(pp * pk <= n * pk < 2 * (pp * pk)) by (nonlinear_arith)
        requires
            pp <= n < 2 * pp,
            pk > 0,
    ;
}

/// The encoding of a number that is rounded: `n`, with leading position
/// `p > t`, is cut to the quotient `q` by the unit `2^(p - t)`, and the
/// remainder decides whether `q` or `q + 1` is the significand. A
/// significand that reaches `2^(t + 1)` carries into the exponent field.
pub proof fn lemma_magnitude_rounded(n: nat, t: nat, bias: nat)
    requires
        n > 0,
        leading(n) > t,
    ensures
        ({
            let p = leading(n);
            let unit = pow2((p - t) as nat);
            let q = n / unit;
            let r = n % unit;
            let up: nat = if 2 * r > unit || (2 * r == unit && q % 2 == 1) {
                1
            } else {
                0
            };
            &&& pow2(t) <= q < 2 * pow2(t)
            &&& unit % 2 == 0
            &&& rounded(n, t + 1) == (q + up) * unit
            &&& magnitude_of(rounded(n, t + 1), t, bias) == (p + bias) * pow2(t) + q + up - pow2(
                t,
            )
        }),
{
    let p = leading(n);
    let s = (p - t) as nat;
    let h = pow2(t);
    let u = pow2(s);
    let q = n / u;
    let r = n % u;
    let up: nat = if 2 * r > u || (2 * r == u && q % 2 == 1) {
        1
    } else {
        0
    };
    let sig = q + up;
    lemma_leading_bounds(n);
    lemma_pow2_pos(t);
    lemma_pow2_pos(s);
    lemma_pow2_unfold(s);
    lemma_pow2_adds(t, s);
    lemma_fundamental_div_mod(n as int, u as int);
    assert(h <= q < 2 * h) by (nonlinear_arith)
        requires
            h * u <= n < 2 * (h * u),
            n == u * q + r,
            0 <= r < u,
            h > 0,
    ;
    assert(rounded(n, t + 1) == sig * u);
    if sig < 2 * h {
        assert(h * u <= sig * u < 2 * (h * u)) by (nonlinear_arith)
            requires
                h <= sig < 2 * h,
                u > 0,
        ;
        lemma_leading_unique(sig * u, p);
        lemma_fundamental_div_mod_converse((sig * u) as int, u as int, sig as int, 0);
    } else {
        assert(sig * u == 2 * (h * u)) by (nonlinear_arith)
            requires
                sig == 2 * h,
        ;
        lemma_pow2_unfold(p + 1);
        lemma_pow2_unfold(s + 1);
        lemma_pow2_pos(p + 1);
        lemma_leading_unique(sig * u, p + 1);
        lemma_pow2_adds(t, s + 1);
        lemma_fundamental_div_mod_converse((sig * u) as int, pow2(s + 1) as int, h as int, 0);
        assert((p + 1 + bias) * h == (p + bias) * h + h) by (nonlinear_arith);
    }
}

/// The encoding of a rounded number has the exponent field
/// `leading(n) + bias`, or the next one where rounding carries.
pub proof fn lemma_rounded_magnitude_bound(n: nat, t: nat, bias: nat)
    requires
        n > 0,
    ensures
        (leading(n) + bias) * pow2(t) <= magnitude_of(rounded(n, t + 1), t, bias) <= (leading(n)
            + bias + 1) * pow2(t),
{
    let p = leading(n);
    let h = pow2(t);
    if p <= t {
        lemma_magnitude_exact(n, t, bias);
    } else {
        lemma_magnitude_rounded(n, t, bias);
    }
    assert((p + bias + 1) * h == (p + bias) * h + h) by (nonlinear_arith);
}

/// What the encoding of a rounded number weighs: the rounded number, in
/// units of `2^-(t + bias - 1)`.
pub proof fn lemma_rounded_weight(n: nat, t: nat, bias: nat)
    requires
        n > 0,
        bias >= 1,
    ensures
        weight(magnitude_of(rounded(n, t + 1), t, bias), pow2(t)) == rounded(n, t + 1) * pow2(
            (t + bias - 1) as nat,
        ),
{
    let p = leading(n);
    let h = pow2(t);
    let scale = pow2((t + bias - 1) as nat);
    let below = pow2((p + bias - 1) as nat);
    lemma_pow2_pos(t);
    if p <= t {
        let up = pow2((t - p) as nat);
        lemma_magnitude_exact(n, t, bias);
        lemma_weight_of_parts(p + bias, n * up, h);
        lemma_pow2_adds((t - p) as nat, (p + bias - 1) as nat);
        assert((n * up) * below == n * (up * below)) by (nonlinear_arith);
    } else {
        let unit = pow2((p - t) as nat);
        let q = n / unit;
        let r = n % unit;
        let up: nat = if 2 * r > unit || (2 * r == unit && q % 2 == 1) {
            1
        } else {
            0
        };
        lemma_magnitude_rounded(n, t, bias);
        lemma_weight_of_parts(p + bias, q + up, h);
        lemma_pow2_adds((p - t) as nat, (t + bias - 1) as nat);
        assert(((q + up) * unit) * scale == (q + up) * (unit * scale)) by (nonlinear_arith);
    }
}

/// Rounding goes to the nearest number of the format: no magnitude
/// `other` weighs nearer to `n` than the encoding of `rounded(n, t + 1)`
/// does, and where another number is as near, the encoding chosen is the
/// even one.
pub proof fn lemma_rounded_is_nearest(n: nat, t: nat, bias: nat, other: nat)
    requires
        n > 0,
        t >= 1,
        bias >= 1,
    ensures
        ({
            let target = n * pow2((t + bias - 1) as nat);
            let chosen = magnitude_of(rounded(n, t + 1), t, bias);
            let near = distance(weight(chosen, pow2(t)) as int, target as int);
            let far = distance(weight(other, pow2(t)) as int, target as int);
            &&& near <= far
            &&& near == far && weight(other, pow2(t)) != weight(chosen, pow2(t)) ==> chosen % 2
                == 0
        }),
{
    let p = leading(n);
    let h = pow2(t);
    let scale = pow2((t + bias - 1) as nat);
    let target = n * scale;
    let chosen = magnitude_of(rounded(n, t + 1), t, bias);
    lemma_pow2_pos(t);
    lemma_pow2_pos((t + bias - 1) as nat);
    lemma_rounded_weight(n, t, bias);
    if p > t {
        let unit = pow2((p - t) as nat);
        let q = n / unit;
        let r = n % unit;
        let up: nat = if 2 * r > unit || (2 * r == unit && q % 2 == 1) {
            1
        } else {
            0
        };
        let below = ((p + bias) * h + q - h) as nat;
        let above = below + 1;
        let step = pow2((p + bias - 1) as nat);
        lemma_magnitude_rounded(n, t, bias);
        lemma_pow2_pos((p - t) as nat);
        lemma_fundamental_div_mod(n as int, unit as int);
        lemma_pow2_adds((p - t) as nat, (t + bias - 1) as nat);
        lemma_weight_of_parts(p + bias, q, h);
        lemma_weight_of_parts(p + bias, q + 1, h);
        assert(weight(below, h) == q * step);
        assert(weight(above, h) == (q + 1) * step);
        assert(q * step == (q * unit) * scale && (q + 1) * step == (q * unit) * scale + unit
            * scale && target == (q * unit) * scale + r * scale) by (nonlinear_arith)
            requires
                step == unit * scale,
                target == n * scale,
                n == unit * q + r,
        ;
        assert(r * scale < unit * scale && (2 * r <= unit ==> r * scale <= (unit - r) * scale)
            && (2 * r >= unit ==> (unit - r) * scale <= r * scale) && (r * scale == (unit - r)
            * scale ==> 2 * r == unit) && (unit - r) * scale == unit * scale - r * scale)
            by (nonlinear_arith)
            requires
                0 <= r < unit,
                scale > 0,
        ;
        if other < below {
            lemma_weight_increases(other, below, h);
        }
        if other > above {
            lemma_weight_increases(above, other, h);
        }
        lemma_pow2_unfold(t);
        let pairs = (p + bias - 1) * pow2((t - 1) as nat);
        assert((p + bias) * h - h == 2 * pairs) by (nonlinear_arith)
            requires
                h == 2 * pow2((t - 1) as nat),
                pairs == (p + bias - 1) * pow2((t - 1) as nat),
        ;
        assert(chosen == 2 * pairs + q + up);
    }
}

} // verus!
