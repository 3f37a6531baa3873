//! What the filters' coefficients are for: which signals pass, which do not,
//! and how the poles lie, up to rounding.
use crate::accuracy;
use crate::accuracy::{gap, size, PARTS};
use crate::arith::Parts;
use crate::constants::{HALF, MINUS_ONE, ONE, TWO, TWO_PI};
use crate::elementary::Elementary;
use crate::filter;
use crate::filter::{
    BiquadBandpass, BiquadCoefs, BiquadHighpass, BiquadKind, BiquadLowpass, BiquadState, MINUS_TWO,
    MIN_CUTOFF_HZ, MIN_Q, NYQUIST_FRACTION,
};
use crate::float::F32;
use crate::limits;
use crate::node::{ContextView, Node, StateView, Step};
use crate::numbers;
use crate::numbers::{scale, value};
use crate::rounding;
use crate::rounding::Width;
use vstd::arithmetic::mul::*;
use vstd::arithmetic::power2::*;
use vstd::prelude::*;

verus! {

/// Bits of `512.0`.
const MOST_DAMPING: u32 = 0x4400_0000;

/// Bits of `-512.0`.
const LEAST_DAMPING: u32 = 0xc400_0000;

/// Bits of `1024.0`.
const FAR: u32 = 0x4480_0000;

/// Bits of `-1024.0`.
const MINUS_FAR: u32 = 0xc480_0000;

/// What coefficients are made of: the cosine and the sine of an angle up to
/// half a turn, and a resonance that is not too small.
pub open spec fn usable(cos_w: F32, sin_w: F32, q: F32) -> bool {
    &&& cos_w.is_finite()
    &&& F32::of(MINUS_ONE).le(cos_w)
    &&& cos_w.le(F32::of(ONE))
    &&& sin_w.is_finite()
    &&& F32::of(0).le(sin_w)
    &&& sin_w.le(F32::of(ONE))
    &&& q.is_finite()
    &&& F32::of(MIN_Q).le(q)
}

/// Two sums of coefficients are the same up to rounding: to one part in two
/// to the 16th of one.
pub open spec fn near(a: int, b: int) -> bool {
    0x1_0000 * gap(a, b) <= scale()
}

/// Half the sine over the resonance.
spec fn damping(sin_w: F32, q: F32) -> F32 {
    sin_w.over(F32::of(TWO).times(q))
}

/// What all coefficients are divided by.
spec fn divisor(sin_w: F32, q: F32) -> F32 {
    F32::of(ONE).plus(damping(sin_w, q))
}

/// The constants' values.
proof fn lemma_constants()
    ensures
        F32::of(MOST_DAMPING).is_finite(),
        value(F32::of(MOST_DAMPING)) == 512 * scale(),
        F32::of(LEAST_DAMPING).is_finite(),
        value(F32::of(LEAST_DAMPING)) == -512 * scale(),
        F32::of(FAR).is_finite(),
        value(F32::of(FAR)) == 1024 * scale(),
        F32::of(MINUS_FAR).is_finite(),
        value(F32::of(MINUS_FAR)) == -1024 * scale(),
        F32::of(MIN_Q).is_finite(),
        1000 * value(F32::of(MIN_Q)) >= scale(),
        F32::of(MINUS_TWO).is_finite(),
        value(F32::of(MINUS_TWO)) == -2 * scale(),
        scale() >= 0x1_0000_0000_0000,
{
    lemma2_to64();
    lemma2_to64_rest();
    numbers::lemma_value_of(MOST_DAMPING, 0x80_0000, 135);
    numbers::lemma_value_of(FAR, 0x80_0000, 136);
    numbers::lemma_value_of(MIN_Q, 0x83_126f, 116);
    numbers::lemma_value_of(TWO, 0x80_0000, 127);
    lemma_pow2_adds(23, 135);
    lemma_pow2_adds(23, 136);
    lemma_pow2_adds(23, 127);
    lemma_pow2_adds(9, 149);
    lemma_pow2_adds(10, 149);
    lemma_pow2_adds(1, 149);
    lemma_pow2_adds(33, 116);
    lemma_pow2_adds(48, 101);
    lemma_pow2_pos(116);
    lemma_pow2_pos(101);
    assert(F32::of(LEAST_DAMPING) == F32::of(MOST_DAMPING).negated()) by {
        reveal(F32::spec_negated);
    }
    assert(F32::of(MINUS_FAR) == F32::of(FAR).negated()) by {
        reveal(F32::spec_negated);
    }
    assert(F32::of(MINUS_TWO) == F32::of(TWO).negated()) by {
        reveal(F32::spec_negated);
    }
    numbers::lemma_negated(F32::of(MOST_DAMPING));
    numbers::lemma_negated(F32::of(FAR));
    numbers::lemma_negated(F32::of(TWO));
    assert(pow2(48) * pow2(101) >= pow2(48)) by (nonlinear_arith)
        requires
            pow2(101) >= 1,
            pow2(48) >= 0,
    ;
}

/// The inputs' values.
proof fn lemma_inputs(cos_w: F32, sin_w: F32, q: F32)
    requires
        usable(cos_w, sin_w, q),
    ensures
        -scale() <= value(cos_w) <= scale(),
        0 <= value(sin_w) <= scale(),
        1000 * value(q) >= scale(),
{
    lemma_constants();
    numbers::lemma_zero_one();
    numbers::lemma_value_order(F32::of(MINUS_ONE), cos_w);
    numbers::lemma_value_order(cos_w, F32::of(ONE));
    numbers::lemma_value_order(F32::of(0), sin_w);
    numbers::lemma_value_order(sin_w, F32::of(ONE));
    numbers::lemma_value_order(F32::of(MIN_Q), q);
}

/// Twice a resonance.
proof fn lemma_twice(q: F32)
    requires
        q.is_finite(),
        1000 * value(q) >= scale(),
        F32::of(TWO).times(q).is_finite(),
    ensures
        PARTS * gap(value(F32::of(TWO).times(q)), 2 * value(q)) <= 2 * value(q),
        512 * value(F32::of(TWO).times(q)) >= scale(),
{
    lemma_constants();
    accuracy::lemma_half_two();
    let two: F32 = F32::of(TWO);
    let t: int = value(two.times(q));
    let s: int = scale();
    let v: int = value(q);
    accuracy::law_products_are_accurate(two, q);
    assert(value(two) * v == (2 * v) * s) by (nonlinear_arith)
        requires
            value(two) == 2 * s,
    ;
    let e: int = gap(t * s, (2 * v) * s);
    assert(e == gap(t, 2 * v) * s) by (nonlinear_arith)
        requires
            e == (if t * s < (2 * v) * s {
                (2 * v) * s - t * s
            } else {
                t * s - (2 * v) * s
            }),
            gap(t, 2 * v) == (if t < 2 * v {
                2 * v - t
            } else {
                t - 2 * v
            }),
            s > 0,
    ;
    let g: int = gap(t, 2 * v);
    assert((2 * v) * s >= 0) by (nonlinear_arith)
        requires
            v >= 0,
            s > 0,
    ;
    if PARTS * e <= (2 * v) * s {
        assert(PARTS * g <= 2 * v) by (nonlinear_arith)
            requires
                PARTS * (g * s) <= (2 * v) * s,
                s > 0,
        ;
    } else {
        assert(g == 0) by (nonlinear_arith)
            requires
                2 * (g * s) <= s,
                s > 0,
                g >= 0,
        ;
    }
}

/// The damping is a number between zero and 512.
proof fn lemma_damping(cos_w: F32, sin_w: F32, q: F32)
    requires
        usable(cos_w, sin_w, q),
    ensures
        damping(sin_w, q).is_finite(),
        0 <= value(damping(sin_w, q)) <= 512 * scale(),
{
    lemma_inputs(cos_w, sin_w, q);
    lemma_constants();
    numbers::lemma_zero_one();
    accuracy::lemma_half_two();
    let zero: F32 = F32::of(0);
    let most: F32 = F32::of(MOST_DAMPING);
    let t: F32 = F32::of(TWO).times(q);
    if t.is_finite() {
        lemma_twice(q);
        let s: int = scale();
        let v: int = value(sin_w);
        let d: int = value(t);
        assert(0 * d == 0) by (nonlinear_arith);
        assert(0 <= v * s <= (512 * s) * d) by (nonlinear_arith)
            requires
                0 <= v <= s,
                512 * d >= s,
                s > 0,
        ;
        numbers::lemma_over_between(sin_w, t, zero, most);
        numbers::lemma_value_order(zero, damping(sin_w, q));
        numbers::lemma_value_order(damping(sin_w, q), most);
    } else {
        let w: Width = Width::Single;
        let a: Parts = sin_w.parts();
        let b: Parts = t.parts();
        rounding::lemma_step(w);
        assert(a.is_finite(w) && q.parts().is_finite(w) && F32::of(TWO).parts().is_finite(w)) by {
            reveal(F32::spec_is_finite);
        }
        assert(b.is_inf(w)) by {
            reveal(F32::spec_is_finite);
            reveal(F32::spec_times);
            let n: int = F32::of(TWO).parts().size(w) * q.parts().size(w);
            rounding::lemma_encode_exact(w, F32::of(TWO).parts().code as int);
            rounding::lemma_encode_exact(w, q.parts().code as int);
            lemma_mul_nonnegative(F32::of(TWO).parts().size(w), q.parts().size(w));
            lemma_pow2_pos(149);
            rounding::lemma_encode_range(w, n, pow2(149) as int);
        }
        assert(damping(sin_w, q).parts().code == 0) by {
            reveal(F32::spec_over);
        }
        reveal(F32::spec_is_finite);
    }
}

/// The divisor is one and the damping, and the other sum of the two is one
/// less the damping.
proof fn lemma_divisor(cos_w: F32, sin_w: F32, q: F32)
    requires
        usable(cos_w, sin_w, q),
    ensures
        ({
            let a: int = value(damping(sin_w, q));
            let d: int = value(divisor(sin_w, q));
            let rest: F32 = F32::of(ONE).minus(damping(sin_w, q));
            &&& divisor(sin_w, q).is_finite()
            &&& scale() <= d <= 1024 * scale()
            &&& PARTS * gap(d, scale() + a) <= scale() + a
            &&& scale() + a <= 2 * d
            &&& rest.is_finite()
            &&& PARTS * gap(value(rest), scale() - a) <= scale() + a
        }),
{
    lemma_damping(cos_w, sin_w, q);
    lemma_constants();
    numbers::lemma_zero_one();
    let one: F32 = F32::of(ONE);
    let alpha: F32 = damping(sin_w, q);
    numbers::lemma_plus_between(one, alpha, one, F32::of(FAR));
    numbers::lemma_value_order(one, divisor(sin_w, q));
    numbers::lemma_value_order(divisor(sin_w, q), F32::of(FAR));
    accuracy::law_sums_are_accurate(one, alpha);
    numbers::lemma_minus_between(one, alpha, F32::of(LEAST_DAMPING), one);
    accuracy::law_differences_are_accurate(one, alpha);
}

/// A coefficient is its numerator over the divisor: twice it, times the
/// divisor, is twice the exact numerator.
proof fn lemma_coefficient(x: F32, a0: F32, twice: int)
    requires
        x.is_finite(),
        a0.is_finite(),
        scale() <= value(a0) <= 1024 * scale(),
        size(value(x)) <= 4 * value(a0),
        PARTS * gap(2 * value(x), twice) <= 16 * value(a0),
    ensures
        x.over(a0).is_finite(),
        PARTS * gap(2 * (value(x.over(a0)) * value(a0)), twice * scale()) <= 32 * (scale() * value(
            a0,
        )),
{
    lemma_constants();
    let s: int = scale();
    let d: int = value(a0);
    let n: int = value(x);
    assert(-1024 * s * d <= n * s <= 1024 * s * d) by (nonlinear_arith)
        requires
            -4 * d <= n <= 4 * d,
            s > 0,
            d > 0,
    ;
    numbers::lemma_over_between(x, a0, F32::of(MINUS_FAR), F32::of(FAR));
    accuracy::law_quotients_are_accurate(x, a0);
    let v: int = value(x.over(a0));
    let sd: int = s * d;
    let e: int = gap(v * d, n * s);
    assert(size(n * s) <= 4 * sd) by (nonlinear_arith)
        requires
            -4 * d <= n <= 4 * d,
            s > 0,
            sd == s * d,
            size(n * s) == (if n * s < 0 {
                -(n * s)
            } else {
                n * s
            }),
    ;
    assert(PARTS * d <= sd) by (nonlinear_arith)
        requires
            PARTS <= s,
            d > 0,
            sd == s * d,
    ;
    assert(PARTS * e <= 5 * sd);
    let g: int = gap(2 * n, twice);
    assert(gap((2 * n) * s, twice * s) == g * s) by (nonlinear_arith)
        requires
            g == (if 2 * n < twice {
                twice - 2 * n
            } else {
                2 * n - twice
            }),
            s > 0,
            gap((2 * n) * s, twice * s) == (if (2 * n) * s < twice * s {
                twice * s - (2 * n) * s
            } else {
                (2 * n) * s - twice * s
            }),
    ;
    assert(PARTS * (g * s) <= 16 * sd) by (nonlinear_arith)
        requires
            PARTS * g <= 16 * d,
            s > 0,
            sd == s * d,
    ;
    assert((2 * n) * s == 2 * (n * s)) by (nonlinear_arith);
}

/// The numerators of a lowpass, for a cosine, or of a highpass, for the
/// cosine with its sign turned.
proof fn lemma_side(side: F32, against: int)
    requires
        side.is_finite(),
        0 <= against <= 2 * scale(),
        0 <= value(side) <= 2 * scale(),
        PARTS * gap(value(side), against) <= 2 * scale(),
    ensures
        side.times(F32::of(HALF)).is_finite(),
        0 <= value(side.times(F32::of(HALF))) <= scale(),
        PARTS * gap(2 * value(side.times(F32::of(HALF))), against) <= 6 * scale(),
{
    lemma_constants();
    numbers::lemma_zero_one();
    accuracy::lemma_half_two();
    let half: F32 = F32::of(HALF);
    let zero: F32 = F32::of(0);
    let one: F32 = F32::of(ONE);
    let s: int = scale();
    let m: int = value(side);
    let h: int = value(half);
    assert(0 <= m * h <= s * s) by (nonlinear_arith)
        requires
            0 <= m <= 2 * s,
            2 * h == s,
            s > 0,
    ;
    assert(0 * s == 0) by (nonlinear_arith);
    numbers::lemma_times_between(side, half, zero, one);
    let x: int = value(side.times(half));
    numbers::lemma_value_order(zero, side.times(half));
    numbers::lemma_value_order(side.times(half), one);
    accuracy::law_products_are_accurate(side, half);
    let e: int = gap(x * s, m * h);
    let g: int = gap(2 * x, m);
    assert(2 * e == g * s) by (nonlinear_arith)
        requires
            e == (if x * s < m * h {
                m * h - x * s
            } else {
                x * s - m * h
            }),
            g == (if 2 * x < m {
                m - 2 * x
            } else {
                2 * x - m
            }),
            2 * h == s,
            s > 0,
    ;
    assert(m * h <= s * s);
    if PARTS * e <= m * h {
        assert(PARTS * g <= 2 * s) by (nonlinear_arith)
            requires
                PARTS * e <= s * s,
                2 * e == g * s,
                s > 0,
        ;
    } else {
        assert(g <= 1) by (nonlinear_arith)
            requires
                g * s <= s,
                s > 0,
        ;
    }
}

/// The numerator of the coefficient of the last sample out.
proof fn lemma_turned(cos_w: F32)
    requires
        cos_w.is_finite(),
        -scale() <= value(cos_w) <= scale(),
    ensures
        F32::of(MINUS_TWO).times(cos_w).is_finite(),
        size(value(F32::of(MINUS_TWO).times(cos_w))) <= 2 * scale(),
        PARTS * gap(value(F32::of(MINUS_TWO).times(cos_w)), -2 * value(cos_w)) <= 2 * scale(),
{
    lemma_constants();
    accuracy::lemma_half_two();
    let two: F32 = F32::of(TWO);
    let m: F32 = F32::of(MINUS_TWO);
    let s: int = scale();
    let c: int = value(cos_w);
    let p: F32 = m.times(cos_w);
    assert(value(m) * c == (-2 * c) * s) by (nonlinear_arith)
        requires
            value(m) == -2 * s,
    ;
    assert((-2 * s) * s <= (-2 * c) * s <= (2 * s) * s) by (nonlinear_arith)
        requires
            -s <= c <= s,
            s > 0,
    ;
    numbers::lemma_times_between(m, cos_w, m, two);
    numbers::lemma_value_order(m, p);
    numbers::lemma_value_order(p, two);
    accuracy::law_products_are_accurate(m, cos_w);
    let v: int = value(p);
    let g: int = gap(v, -2 * c);
    let e: int = gap(v * s, (-2 * c) * s);
    assert(e == g * s) by (nonlinear_arith)
        requires
            e == (if v * s < (-2 * c) * s {
                (-2 * c) * s - v * s
            } else {
                v * s - (-2 * c) * s
            }),
            g == (if v < -2 * c {
                -2 * c - v
            } else {
                v - -2 * c
            }),
            s > 0,
    ;
    assert((-2 * s) * s == -((2 * s) * s)) by (nonlinear_arith);
    if PARTS * e <= (2 * s) * s {
        assert(PARTS * g <= 2 * s) by (nonlinear_arith)
            requires
                PARTS * (g * s) <= (2 * s) * s,
                s > 0,
        ;
    } else {
        assert(g == 0) by (nonlinear_arith)
            requires
                2 * (g * s) <= s,
                s > 0,
                g >= 0,
        ;
    }
}

/// Twice a coefficient, times the divisor, is the given numerator times one,
/// to a few parts of what an operation is off by.
spec fn of_ratio(coefficient: F32, sin_w: F32, q: F32, twice: int) -> bool {
    let d: int = value(divisor(sin_w, q));
    &&& coefficient.is_finite()
    &&& PARTS * gap(2 * (value(coefficient) * d), twice * scale()) <= 32 * (scale() * d)
}

/// The coefficients of the past samples out, which all responses share.
proof fn lemma_poles(kind: BiquadKind, cos_w: F32, sin_w: F32, q: F32)
    requires
        usable(cos_w, sin_w, q),
    ensures
        ({
            let k: BiquadCoefs = filter::coefs_at(kind, cos_w, sin_w, q);
            let a: int = value(damping(sin_w, q));
            &&& of_ratio(k.a1, sin_w, q, -4 * value(cos_w))
            &&& of_ratio(k.a2, sin_w, q, 2 * (scale() - a))
        }),
{
    lemma_inputs(cos_w, sin_w, q);
    lemma_constants();
    lemma_damping(cos_w, sin_w, q);
    lemma_divisor(cos_w, sin_w, q);
    lemma_turned(cos_w);
    let a0: F32 = divisor(sin_w, q);
    lemma_coefficient(F32::of(MINUS_TWO).times(cos_w), a0, -4 * value(cos_w));
    lemma_coefficient(
        F32::of(ONE).minus(damping(sin_w, q)),
        a0,
        2 * (scale() - value(damping(sin_w, q))),
    );
}

/// The coefficients of the samples in of a lowpass and a highpass.
proof fn lemma_sides(cos_w: F32, sin_w: F32, q: F32)
    requires
        usable(cos_w, sin_w, q),
    ensures
        ({
            let l: BiquadCoefs = filter::coefs_at(BiquadKind::Lowpass, cos_w, sin_w, q);
            let h: BiquadCoefs = filter::coefs_at(BiquadKind::Highpass, cos_w, sin_w, q);
            let c: int = value(cos_w);
            &&& of_ratio(l.b0, sin_w, q, scale() - c)
            &&& of_ratio(l.b1, sin_w, q, 2 * (scale() - c))
            &&& l.b2 == l.b0
            &&& of_ratio(h.b0, sin_w, q, scale() + c)
            &&& of_ratio(h.b1, sin_w, q, -2 * (scale() + c))
            &&& h.b2 == h.b0
        }),
{
    lemma_inputs(cos_w, sin_w, q);
    lemma_constants();
    numbers::lemma_zero_one();
    accuracy::lemma_half_two();
    lemma_divisor(cos_w, sin_w, q);
    let a0: F32 = divisor(sin_w, q);
    let one: F32 = F32::of(ONE);
    let zero: F32 = F32::of(0);
    let two: F32 = F32::of(TWO);
    let c: int = value(cos_w);
    let less: F32 = one.minus(cos_w);
    let more: F32 = one.plus(cos_w);
    numbers::lemma_minus_between(one, cos_w, zero, two);
    numbers::lemma_value_order(zero, less);
    numbers::lemma_value_order(less, two);
    accuracy::law_differences_are_accurate(one, cos_w);
    numbers::lemma_plus_between(one, cos_w, zero, two);
    numbers::lemma_value_order(zero, more);
    numbers::lemma_value_order(more, two);
    accuracy::law_sums_are_accurate(one, cos_w);
    lemma_side(less, scale() - c);
    lemma_side(more, scale() + c);
    numbers::lemma_negated(more);
    lemma_coefficient(less.times(F32::of(HALF)), a0, scale() - c);
    lemma_coefficient(less, a0, 2 * (scale() - c));
    lemma_coefficient(more.times(F32::of(HALF)), a0, scale() + c);
    lemma_coefficient(more.negated(), a0, -2 * (scale() + c));
}

/// The coefficients of the samples in of a bandpass.
proof fn lemma_band(cos_w: F32, sin_w: F32, q: F32)
    requires
        usable(cos_w, sin_w, q),
    ensures
        ({
            let k: BiquadCoefs = filter::coefs_at(BiquadKind::Bandpass, cos_w, sin_w, q);
            let a: int = value(damping(sin_w, q));
            &&& of_ratio(k.b0, sin_w, q, 2 * a)
            &&& k.b1.is_finite()
            &&& value(k.b1) == 0
            &&& k.b2.is_finite()
            &&& value(k.b2) == -value(k.b0)
        }),
{
    lemma_constants();
    numbers::lemma_zero_one();
    lemma_damping(cos_w, sin_w, q);
    lemma_divisor(cos_w, sin_w, q);
    let a0: F32 = divisor(sin_w, q);
    let alpha: F32 = damping(sin_w, q);
    let zero: F32 = F32::of(0);
    lemma_coefficient(alpha, a0, 2 * value(alpha));
    lemma_opposite_quotients(alpha, a0);
    assert(0 * value(a0) == 0 && 0 * scale() == 0) by (nonlinear_arith);
    numbers::lemma_over_between(zero, a0, zero, zero);
    numbers::lemma_value_order(zero, zero.over(a0));
    numbers::lemma_value_order(zero.over(a0), zero);
}

/// A quotient turns its sign with what is divided.
proof fn lemma_opposite_quotients(x: F32, y: F32)
    requires
        x.is_finite(),
        y.is_finite(),
        value(y) > 0,
        x.over(y).is_finite(),
    ensures
        x.negated().over(y).is_finite(),
        value(x.negated().over(y)) == -value(x.over(y)),
{
    reveal(F32::spec_over);
    reveal(F32::spec_negated);
    reveal(F32::spec_is_finite);
    let w: Width = Width::Single;
    rounding::lemma_step(w);
    let a: Parts = x.parts();
    let b: Parts = x.negated().parts();
    let c: Parts = y.parts();
    assert(a.code == b.code);
    assert(a.neg != b.neg);
    assert(c.code != 0);
    rounding::lemma_encode_exact(w, a.code as int);
    rounding::lemma_encode_exact(w, c.code as int);
    lemma_pow2_pos(149);
    lemma_mul_nonnegative(a.size(w), pow2(149) as int);
    rounding::lemma_encode_range(w, a.size(w) * pow2(149), c.size(w));
}

/// A sum of coefficients that is small times the divisor is small.
proof fn lemma_small(sum: int, d: int, parts: int)
    requires
        d > 0,
        parts <= 256,
        PARTS * size(sum * d) <= parts * (scale() * d),
    ensures
        near(sum, 0),
{
    let s: int = scale();
    lemma_pow2_pos(149);
    assert(size(sum * d) == size(sum) * d) by (nonlinear_arith)
        requires
            size(sum * d) == (if sum * d < 0 {
                -(sum * d)
            } else {
                sum * d
            }),
            size(sum) == (if sum < 0 {
                -sum
            } else {
                sum
            }),
            d > 0,
    ;
    assert(parts * (s * d) <= 256 * (s * d)) by (nonlinear_arith)
        requires
            parts <= 256,
            s > 0,
            d > 0,
    ;
    let z: int = size(sum);
    assert(PARTS * z <= 256 * s) by (nonlinear_arith)
        requires
            PARTS * (z * d) <= 256 * (s * d),
            d > 0,
    ;
}

/// A lowpass passes what is slow and stops what is fast: at zero hertz its
/// gain is one, `b0 + b1 + b2 == 1 + a1 + a2`, and at half the sample rate it
/// is nothing, `b0 - b1 + b2 == 0`, up to rounding.
pub proof fn law_lowpass_passes_the_slow(cos_w: F32, sin_w: F32, q: F32)
    requires
        usable(cos_w, sin_w, q),
    ensures
        ({
            let k: BiquadCoefs = filter::coefs_at(BiquadKind::Lowpass, cos_w, sin_w, q);
            &&& near(
                value(k.b0) + value(k.b1) + value(k.b2),
                scale() + value(k.a1) + value(k.a2),
            )
            &&& near(value(k.b0) - value(k.b1) + value(k.b2), 0)
            &&& k.b0 == k.b2
        }),
{
    let k: BiquadCoefs = filter::coefs_at(BiquadKind::Lowpass, cos_w, sin_w, q);
    lemma_poles(BiquadKind::Lowpass, cos_w, sin_w, q);
    lemma_sides(cos_w, sin_w, q);
    lemma_divisor(cos_w, sin_w, q);
    let s: int = scale();
    let d: int = value(divisor(sin_w, q));
    let a: int = value(damping(sin_w, q));
    let c: int = value(cos_w);
    lemma_unit(cos_w, sin_w, q);
    let (b0, b1, a1, a2): (int, int, int, int) = (
        value(k.b0),
        value(k.b1),
        value(k.a1),
        value(k.a2),
    );
    assert((b0 + b1 + b0 - s - a1 - a2) * d == b0 * d + b1 * d + b0 * d - s * d - a1 * d - a2 * d)
        by (nonlinear_arith);
    assert((b0 - b1 + b0) * d == b0 * d - b1 * d + b0 * d) by (nonlinear_arith);
    assert(2 * ((s - c) * s) + 2 * (s - c) * s - 2 * ((s + a) * s) - (-4 * c) * s - 2 * (s - a) * s
        == 0) by (nonlinear_arith);
    assert(2 * (s - c) * s == 2 * ((s - c) * s)) by (nonlinear_arith);
    lemma_small(b0 + b1 + b0 - s - a1 - a2, d, 128);
    lemma_small(b0 - b1 + b0, d, 128);
}

/// One, times the divisor, is one and the damping.
proof fn lemma_unit(cos_w: F32, sin_w: F32, q: F32)
    requires
        usable(cos_w, sin_w, q),
    ensures
        ({
            let d: int = value(divisor(sin_w, q));
            let a: int = value(damping(sin_w, q));
            &&& d > 0
            &&& PARTS * gap(scale() * d, (scale() + a) * scale()) <= 2 * (scale() * d)
        }),
{
    lemma_divisor(cos_w, sin_w, q);
    lemma_constants();
    let d: int = value(divisor(sin_w, q));
    let a: int = value(damping(sin_w, q));
    let s: int = scale();
    let g: int = gap(d, s + a);
    assert(gap(s * d, (s + a) * s) == g * s) by (nonlinear_arith)
        requires
            g == (if d < s + a {
                s + a - d
            } else {
                d - (s + a)
            }),
            gap(s * d, (s + a) * s) == (if s * d < (s + a) * s {
                (s + a) * s - s * d
            } else {
                s * d - (s + a) * s
            }),
            s > 0,
    ;
    assert(PARTS * (g * s) <= 2 * (s * d)) by (nonlinear_arith)
        requires
            PARTS * g <= 2 * d,
            s > 0,
    ;
}

/// A highpass passes what is fast and stops what is slow: at half the sample
/// rate its gain is one, `b0 - b1 + b2 == 1 - a1 + a2`, and at zero hertz it
/// is nothing, `b0 + b1 + b2 == 0`, up to rounding.
pub proof fn law_highpass_passes_the_fast(cos_w: F32, sin_w: F32, q: F32)
    requires
        usable(cos_w, sin_w, q),
    ensures
        ({
            let k: BiquadCoefs = filter::coefs_at(BiquadKind::Highpass, cos_w, sin_w, q);
            &&& near(
                value(k.b0) - value(k.b1) + value(k.b2),
                scale() - value(k.a1) + value(k.a2),
            )
            &&& near(value(k.b0) + value(k.b1) + value(k.b2), 0)
            &&& k.b0 == k.b2
        }),
{
    let k: BiquadCoefs = filter::coefs_at(BiquadKind::Highpass, cos_w, sin_w, q);
    lemma_poles(BiquadKind::Highpass, cos_w, sin_w, q);
    lemma_sides(cos_w, sin_w, q);
    lemma_divisor(cos_w, sin_w, q);
    let s: int = scale();
    let d: int = value(divisor(sin_w, q));
    let a: int = value(damping(sin_w, q));
    let c: int = value(cos_w);
    lemma_unit(cos_w, sin_w, q);
    let (b0, b1, a1, a2): (int, int, int, int) = (
        value(k.b0),
        value(k.b1),
        value(k.a1),
        value(k.a2),
    );
    assert((b0 - b1 + b0 - s + a1 - a2) * d == b0 * d - b1 * d + b0 * d - s * d + a1 * d - a2 * d)
        by (nonlinear_arith);
    assert((b0 + b1 + b0) * d == b0 * d + b1 * d + b0 * d) by (nonlinear_arith);
    assert(2 * ((s + c) * s) - -2 * (s + c) * s - 2 * ((s + a) * s) + (-4 * c) * s - 2 * (s - a) * s
        == 0) by (nonlinear_arith);
    assert(-2 * (s + c) * s == -2 * ((s + c) * s)) by (nonlinear_arith);
    lemma_small(b0 - b1 + b0 - s + a1 - a2, d, 128);
    lemma_small(b0 + b1 + b0, d, 128);
}

/// A bandpass stops what is slow and what is fast, `b0 + b1 + b2 == 0` and
/// `b0 - b1 + b2 == 0`, and its gain at the centre is one, `b0 - b2 == 1 - a2`
/// up to rounding.
pub proof fn law_bandpass_passes_the_centre(cos_w: F32, sin_w: F32, q: F32)
    requires
        usable(cos_w, sin_w, q),
    ensures
        ({
            let k: BiquadCoefs = filter::coefs_at(BiquadKind::Bandpass, cos_w, sin_w, q);
            &&& near(value(k.b0) - value(k.b2), scale() - value(k.a2))
            &&& value(k.b1) == 0
            &&& value(k.b0) + value(k.b2) == 0
        }),
{
    let k: BiquadCoefs = filter::coefs_at(BiquadKind::Bandpass, cos_w, sin_w, q);
    lemma_poles(BiquadKind::Bandpass, cos_w, sin_w, q);
    lemma_band(cos_w, sin_w, q);
    lemma_unit(cos_w, sin_w, q);
    let s: int = scale();
    let d: int = value(divisor(sin_w, q));
    let a: int = value(damping(sin_w, q));
    let (b0, a2): (int, int) = (value(k.b0), value(k.a2));
    assert((b0 + b0 - s + a2) * d == b0 * d + b0 * d - s * d + a2 * d) by (nonlinear_arith);
    assert(2 * ((2 * a) * s) - 2 * ((s + a) * s) + 2 * (s - a) * s == 0) by (nonlinear_arith);
    lemma_small(b0 + b0 - s + a2, d, 128);
}

/// At one corner and resonance the three responses add up to the signal
/// itself: their `b` coefficients add up to `1`, `a1` and `a2`, up to
/// rounding.
pub proof fn law_responses_add_up(cos_w: F32, sin_w: F32, q: F32)
    requires
        usable(cos_w, sin_w, q),
    ensures
        ({
            let l: BiquadCoefs = filter::coefs_at(BiquadKind::Lowpass, cos_w, sin_w, q);
            let h: BiquadCoefs = filter::coefs_at(BiquadKind::Highpass, cos_w, sin_w, q);
            let b: BiquadCoefs = filter::coefs_at(BiquadKind::Bandpass, cos_w, sin_w, q);
            &&& l.a1 == h.a1 && h.a1 == b.a1
            &&& l.a2 == h.a2 && h.a2 == b.a2
            &&& near(value(l.b0) + value(h.b0) + value(b.b0), scale())
            &&& near(value(l.b1) + value(h.b1) + value(b.b1), value(l.a1))
            &&& near(value(l.b2) + value(h.b2) + value(b.b2), value(l.a2))
        }),
{
    let l: BiquadCoefs = filter::coefs_at(BiquadKind::Lowpass, cos_w, sin_w, q);
    let h: BiquadCoefs = filter::coefs_at(BiquadKind::Highpass, cos_w, sin_w, q);
    let b: BiquadCoefs = filter::coefs_at(BiquadKind::Bandpass, cos_w, sin_w, q);
    lemma_poles(BiquadKind::Lowpass, cos_w, sin_w, q);
    lemma_sides(cos_w, sin_w, q);
    lemma_band(cos_w, sin_w, q);
    lemma_unit(cos_w, sin_w, q);
    let s: int = scale();
    let c: int = value(cos_w);
    let d: int = value(divisor(sin_w, q));
    let a: int = value(damping(sin_w, q));
    let (x, y, z): (int, int, int) = (value(l.b0), value(h.b0), value(b.b0));
    assert((x + y + z - s) * d == x * d + y * d + z * d - s * d) by (nonlinear_arith);
    assert((s - c) * s + (s + c) * s + (2 * a) * s - 2 * ((s + a) * s) == 0) by (nonlinear_arith);
    lemma_small(x + y + z - s, d, 128);
    let (p, r, a1): (int, int, int) = (value(l.b1), value(h.b1), value(l.a1));
    assert((p + r - a1) * d == p * d + r * d - a1 * d) by (nonlinear_arith);
    assert(2 * (s - c) * s + -2 * (s + c) * s - (-4 * c) * s == 0) by (nonlinear_arith);
    lemma_small(p + r - a1, d, 128);
    let a2: int = value(l.a2);
    assert((x + y - z - a2) * d == x * d + y * d - z * d - a2 * d) by (nonlinear_arith);
    assert((s - c) * s + (s + c) * s - (2 * a) * s - 2 * (s - a) * s == 0) by (nonlinear_arith);
    lemma_small(x + y - z - a2, d, 128);
}

/// The poles have the angle of the cosine: `a1 == -cos * (1 + a2)`, up to
/// rounding.
pub proof fn law_poles_have_the_angle(kind: BiquadKind, cos_w: F32, sin_w: F32, q: F32)
    requires
        usable(cos_w, sin_w, q),
    ensures
        ({
            let k: BiquadCoefs = filter::coefs_at(kind, cos_w, sin_w, q);
            0x1_0000 * gap(
                value(k.a1) * scale(),
                -(value(cos_w) * (scale() + value(k.a2))),
            ) <= scale() * scale()
        }),
{
    let k: BiquadCoefs = filter::coefs_at(kind, cos_w, sin_w, q);
    lemma_poles(kind, cos_w, sin_w, q);
    lemma_inputs(cos_w, sin_w, q);
    lemma_unit(cos_w, sin_w, q);
    lemma_constants();
    let s: int = scale();
    let c: int = value(cos_w);
    let d: int = value(divisor(sin_w, q));
    let a: int = value(damping(sin_w, q));
    let (a1, a2): (int, int) = (value(k.a1), value(k.a2));
    // The three ratios are off by little.
    let e1: int = 2 * (a1 * d) - (-4 * c) * s;
    let e2: int = 2 * (a2 * d) - 2 * (s - a) * s;
    let e3: int = s * d - (s + a) * s;
    let sum: int = a1 * s + c * (s + a2);
    let ss: int = s * s;
    let f: int = 2 * e3 + e2;
    let (u, z): (int, int) = (a1 * d, a2 * d);
    assert((s + a) * s + (s - a) * s == 2 * ss) by (nonlinear_arith)
        requires
            ss == s * s,
    ;
    assert(2 * (s - a) * s == 2 * ((s - a) * s)) by (nonlinear_arith);
    assert(f == 2 * (s * d) + 2 * z - 4 * ss);
    assert(sum * d == u * s + c * (s * d + z)) by (nonlinear_arith)
        requires
            sum == a1 * s + c * (s + a2),
            u == a1 * d,
            z == a2 * d,
    ;
    assert(e1 * s == 2 * (u * s) + 4 * (c * ss)) by (nonlinear_arith)
        requires
            e1 == 2 * u - (-4 * c) * s,
            ss == s * s,
    ;
    assert(c * f == 2 * (c * (s * d + z)) - 4 * (c * ss)) by (nonlinear_arith)
        requires
            f == 2 * (s * d) + 2 * z - 4 * ss,
    ;
    lemma_mul_strictly_positive(s, d);
    let sd: int = s * d;
    assert(-(36 * sd) <= PARTS * f <= 36 * sd);
    assert(-(36 * (sd * s)) <= PARTS * (c * f) <= 36 * (sd * s)) by (nonlinear_arith)
        requires
            -(36 * sd) <= PARTS * f <= 36 * sd,
            -s <= c <= s,
            s > 0,
            sd > 0,
    ;
    assert(-(32 * (sd * s)) <= PARTS * (e1 * s) <= 32 * (sd * s)) by (nonlinear_arith)
        requires
            -(32 * sd) <= PARTS * e1 <= 32 * sd,
            s > 0,
    ;
    assert(-(68 * (sd * s)) <= PARTS * (2 * (sum * d)) <= 68 * (sd * s));
    assert(-(34 * (s * s)) <= PARTS * sum <= 34 * (s * s)) by (nonlinear_arith)
        requires
            -(68 * (sd * s)) <= PARTS * (2 * (sum * d)) <= 68 * (sd * s),
            sd == s * d,
            d > 0,
    ;
}

/// A sharper resonance is a weaker damping: `(1 - a2) * 2 * q` is
/// `sin * (1 + a2)`, up to rounding.
pub proof fn law_poles_have_the_damping(kind: BiquadKind, cos_w: F32, sin_w: F32, q: F32)
    requires
        usable(cos_w, sin_w, q),
        F32::of(TWO).times(q).is_finite(),
    ensures
        ({
            let k: BiquadCoefs = filter::coefs_at(kind, cos_w, sin_w, q);
            0x1_0000 * gap(
                (scale() - value(k.a2)) * (2 * value(q)),
                value(sin_w) * (scale() + value(k.a2)),
            ) <= scale() * (2 * value(q) + scale())
        }),
{
    let k: BiquadCoefs = filter::coefs_at(kind, cos_w, sin_w, q);
    lemma_poles(kind, cos_w, sin_w, q);
    lemma_inputs(cos_w, sin_w, q);
    lemma_unit(cos_w, sin_w, q);
    lemma_damping(cos_w, sin_w, q);
    lemma_divisor(cos_w, sin_w, q);
    lemma_constants();
    lemma_twice(q);
    let twice: F32 = F32::of(TWO).times(q);
    accuracy::law_quotients_are_accurate(sin_w, twice);
    let s: int = scale();
    let v: int = value(sin_w);
    let d: int = value(divisor(sin_w, q));
    let a: int = value(damping(sin_w, q));
    let a2: int = value(k.a2);
    let t: int = value(twice);
    let w: int = 2 * value(q);
    let sd: int = s * d;
    let e2: int = 2 * (a2 * d) - 2 * (s - a) * s;
    let e3: int = s * d - (s + a) * s;
    // The damping times twice the resonance is the sine.
    let e4: int = a * w - v * s;
    assert(PARTS * size(e4) <= 8 * (s * (w + s))) by {
        lemma_damped(a, t, w, v);
    }
    let sum: int = (s - a2) * w - v * (s + a2);
    let ss: int = s * s;
    let z: int = a2 * d;
    let f: int = 2 * e3 - e2;
    let g: int = 2 * e3 + e2;
    assert((s + a) * s + (s - a) * s == 2 * ss) by (nonlinear_arith)
        requires
            ss == s * s,
    ;
    assert((s + a) * s - (s - a) * s == 2 * (a * s)) by (nonlinear_arith);
    assert(2 * (s - a) * s == 2 * ((s - a) * s)) by (nonlinear_arith);
    assert(g == 2 * sd + 2 * z - 4 * ss);
    assert(f == 2 * sd - 2 * z - 4 * (a * s));
    assert(sum * d == (sd - z) * w - v * (sd + z)) by (nonlinear_arith)
        requires
            sum == (s - a2) * w - v * (s + a2),
            sd == s * d,
            z == a2 * d,
    ;
    assert(f * w == 2 * ((sd - z) * w) - 4 * ((a * s) * w)) by (nonlinear_arith)
        requires
            f == 2 * sd - 2 * z - 4 * (a * s),
    ;
    assert(v * g == 2 * (v * (sd + z)) - 4 * (v * ss)) by (nonlinear_arith)
        requires
            g == 2 * sd + 2 * z - 4 * ss,
    ;
    assert(e4 * s == (a * s) * w - v * ss) by (nonlinear_arith)
        requires
            e4 == a * w - v * s,
            ss == s * s,
    ;
    assert(2 * (sum * d) == f * w - v * g + 4 * (e4 * s));
    lemma_mul_strictly_positive(s, d);
    assert(-(36 * sd) <= PARTS * f <= 36 * sd);
    assert(-(36 * sd) <= PARTS * g <= 36 * sd);
    assert(-(36 * (sd * w)) <= PARTS * (f * w) <= 36 * (sd * w)) by (nonlinear_arith)
        requires
            -(36 * sd) <= PARTS * f <= 36 * sd,
            w >= 0,
    ;
    assert(-(36 * (sd * s)) <= PARTS * (v * g) <= 36 * (sd * s)) by (nonlinear_arith)
        requires
            -(36 * sd) <= PARTS * g <= 36 * sd,
            0 <= v <= s,
            sd > 0,
    ;
    let x: int = s * (w + s);
    assert(-(32 * (x * d)) <= PARTS * (4 * (e4 * s)) <= 32 * (x * d)) by (nonlinear_arith)
        requires
            -(8 * x) <= PARTS * e4 <= 8 * x,
            0 < s <= d,
            x >= 0,
    ;
    assert(sd * w + sd * s == x * d) by (nonlinear_arith)
        requires
            sd == s * d,
            x == s * (w + s),
    ;
    assert(sd * w >= 0 && sd * s >= 0) by (nonlinear_arith)
        requires
            sd > 0,
            w >= 0,
            s > 0,
    ;
    assert(-(68 * (x * d)) <= PARTS * (2 * (sum * d)) <= 68 * (x * d));
    assert(-(34 * x) <= PARTS * sum <= 34 * x) by (nonlinear_arith)
        requires
            -(68 * (x * d)) <= PARTS * (2 * (sum * d)) <= 68 * (x * d),
            d > 0,
    ;
}

/// The damping times twice the resonance is the sine, where it is the
/// rounded quotient of the two.
proof fn lemma_damped(a: int, t: int, w: int, v: int)
    requires
        scale() >= 0x1_0000_0000_0000,
        0 <= a <= 512 * scale(),
        0 <= v <= scale(),
        w > 0,
        t > 0,
        512 * t >= scale(),
        PARTS * gap(t, w) <= w,
        PARTS * gap(a * t, v * scale()) <= v * scale() || 2 * gap(a * t, v * scale()) <= t,
    ensures
        PARTS * size(a * w - v * scale()) <= 8 * (scale() * (w + scale())),
{
    let s: int = scale();
    let ss: int = s * s;
    let sw: int = s * w;
    assert(0 <= v * s <= ss) by (nonlinear_arith)
        requires
            0 <= v <= s,
            ss == s * s,
            s > 0,
    ;
    assert(s * (w + s) == sw + ss) by (nonlinear_arith)
        requires
            sw == s * w,
            ss == s * s,
    ;
    assert(t <= 2 * w);
    assert(PARTS * (2 * w) <= sw) by (nonlinear_arith)
        requires
            PARTS * 2 <= s,
            sw == s * w,
            w > 0,
    ;
    let e: int = a * t - v * s;
    assert(-(ss + sw) <= PARTS * e <= ss + sw);
    // The doubled resonance is off by little, and so is its multiple.
    let r: int = t - w;
    assert(a * w == a * t - a * r) by (nonlinear_arith)
        requires
            r == t - w,
    ;
    assert(a * t <= 2 * ss + 2 * sw);
    assert(a * w <= 4 * (ss + sw)) by (nonlinear_arith)
        requires
            a * t <= 2 * ss + 2 * sw,
            a >= 0,
            w <= 2 * t,
    ;
    assert(-(a * w) <= PARTS * (a * r) <= a * w) by (nonlinear_arith)
        requires
            -w <= PARTS * r <= w,
            a >= 0,
    ;
}

/// A finite corner goes to the nearest between one hertz and just under half
/// the sample rate.  A resonance is at least the least one, and the least one
/// where it is not finite.
pub proof fn law_corners_go_to_the_nearest_of_their_range(cutoff_hz: F32, q: F32, rate: F32)
    ensures
        limits::nearest(
            cutoff_hz,
            filter::clamp_cutoff(cutoff_hz, rate),
            F32::of(MIN_CUTOFF_HZ),
            rate.times(F32::of(NYQUIST_FRACTION)).max(F32::of(TWO)),
        ),
        !q.is_finite() ==> filter::clamp_q(q) == F32::of(MIN_Q),
        q.is_finite() && q.lt(F32::of(MIN_Q)) ==> filter::clamp_q(q) == F32::of(MIN_Q),
        q.is_finite() && F32::of(MIN_Q).lt(q) ==> filter::clamp_q(q) == q,
{
    let lo: F32 = F32::of(MIN_CUTOFF_HZ);
    let hi: F32 = rate.times(F32::of(NYQUIST_FRACTION)).max(F32::of(TWO));
    assert(lo.le(hi)) by {
        reveal(F32::spec_is_nan);
        numbers::lemma_max_above(rate.times(F32::of(NYQUIST_FRACTION)), F32::of(TWO));
        assert(lo.le(F32::of(TWO))) by {
            reveal(F32::spec_le);
            reveal(F32::spec_lt);
        }
        numbers::lemma_order(lo, F32::of(TWO), hi);
    }
    reveal(F32::spec_clamp);
    reveal(F32::spec_max);
    reveal(F32::spec_le);
    reveal(F32::spec_lt);
    reveal(F32::spec_same);
    reveal(F32::spec_is_finite);
    reveal(F32::spec_is_nan);
}

/// The coefficients of a filter are those of the angle per sample of its
/// corner, which is a whole turn times the corner over the sample rate: its
/// cosine and its sine count, whatever answers them.
pub proof fn law_coefficients_are_those_of_the_corner(
    kind: BiquadKind,
    cutoff_hz: F32,
    q: F32,
    rate: F32,
    f: spec_fn(Elementary, F32) -> F32,
)
    ensures
        ({
            let angle: F32 = F32::of(TWO_PI).times(filter::clamp_cutoff(cutoff_hz, rate)).over(
                rate,
            );
            filter::coefs(kind, cutoff_hz, q, rate, f) == filter::coefs_at(
                kind,
                f(Elementary::Cos, angle),
                f(Elementary::Sin, angle),
                filter::clamp_q(q),
            )
        }),
{
}

/// A filter with a response, a corner and a resonance has made a sample: the
/// sample and the two before it, in and out, weighed by the coefficients.
/// It keeps the last two of either and leaves everything else alone.
pub open spec fn filtered(
    step: Step,
    kind: BiquadKind,
    corner: F32,
    q: F32,
    c: ContextView,
    f: spec_fn(Elementary, F32) -> F32,
) -> bool {
    let x: F32 = c.input("in"@);
    let k: BiquadCoefs = filter::coefs(kind, corner, q, c.rate(), f);
    match c.state {
        StateView::Biquad(s) => {
            let heard: F32 = k.b0.times(x).plus(k.b1.times(s.x1)).plus(k.b2.times(s.x2));
            &&& step.out == heard.minus(k.a1.times(s.y1)).minus(k.a2.times(s.y2))
            &&& step.after == ContextView {
                state: StateView::Biquad(BiquadState { x1: x, x2: s.x1, y1: step.out, y2: s.y1 }),
                ..c
            }
        },
        _ => step.out == x && step.after == c,
    }
}

/// Every filter node follows the difference equation of its own response, at
/// its corner and resonance with the signals on its ports added, and starts
/// with a silent past.
pub proof fn law_filters_follow_their_difference_equation(
    l: BiquadLowpass,
    h: BiquadHighpass,
    b: BiquadBandpass,
    c: ContextView,
    f: spec_fn(Elementary, F32) -> F32,
)
    ensures
        filtered(
            l.step(c, f),
            BiquadKind::Lowpass,
            l.cutoff_hz.plus(c.input("cutoff_hz"@)),
            l.q.plus(c.input("q"@)),
            c,
            f,
        ),
        filtered(
            h.step(c, f),
            BiquadKind::Highpass,
            h.cutoff_hz.plus(c.input("cutoff_hz"@)),
            h.q.plus(c.input("q"@)),
            c,
            f,
        ),
        filtered(
            b.step(c, f),
            BiquadKind::Bandpass,
            b.center_hz.plus(c.input("center_hz"@)),
            b.q.plus(c.input("q"@)),
            c,
            f,
        ),
        ({
            let rest: StateView = StateView::Biquad(
                BiquadState { x1: F32::of(0), x2: F32::of(0), y1: F32::of(0), y2: F32::of(0) },
            );
            l.initial() == rest && h.initial() == rest && b.initial() == rest
        }),
{
}

} // verus!
