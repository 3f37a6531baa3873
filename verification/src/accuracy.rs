//! How near the rounded results of the arithmetic are to the exact ones.
//!
//! A result is off by no more than half a step of its own precision: by one
//! part in two to the 24th, or by half a unit where it is that small.
use crate::arith::Parts;
use crate::constants::{HALF, TWO};
use crate::float::F32;
use crate::numbers;
use crate::numbers::{scale, value};
use crate::rounding;
use crate::rounding::Width;
use vstd::arithmetic::div_mod::*;
use vstd::arithmetic::mul::*;
use vstd::arithmetic::power2::*;
use vstd::prelude::*;

verus! {

/// How many numbers a binade of the 32-bit format holds, twice over: an error
/// of half a step is one part in this many.
pub const PARTS: u32 = 0x100_0000;

/// The distance of two integers.
pub open spec fn gap(a: int, b: int) -> int {
    if a < b {
        b - a
    } else {
        a - b
    }
}

/// An integer without its sign.
pub open spec fn size(a: int) -> int {
    gap(a, 0)
}

/// The nearest integer is no further than one half away.
proof fn lemma_nearest(num: int, den: int)
    requires
        den > 0,
    ensures
        2 * gap(rounding::nearest(num, den) * den, num) <= den,
{
    lemma_fundamental_div_mod(num, den);
    let q: int = num / den;
    lemma_mul_is_commutative(q, den);
    assert((q + 1) * den == q * den + den) by (nonlinear_arith);
}

/// The nearest integer lies between integers that the ratio lies between.
proof fn lemma_nearest_between(num: int, den: int, lo: int, hi: int)
    requires
        den > 0,
        lo * den <= num <= hi * den,
    ensures
        lo <= rounding::nearest(num, den) <= hi,
{
    lemma_nearest(num, den);
    let n: int = rounding::nearest(num, den);
    assert(2 * (n * den) <= (2 * hi + 1) * den && (2 * lo - 1) * den <= 2 * (n * den))
        by (nonlinear_arith)
        requires
            lo * den <= num <= hi * den,
            2 * (n * den - num) <= den,
            2 * (num - n * den) <= den,
    ;
    assert(2 * n <= 2 * hi + 1 && 2 * lo - 1 <= 2 * n) by (nonlinear_arith)
        requires
            2 * (n * den) <= (2 * hi + 1) * den,
            (2 * lo - 1) * den <= 2 * (n * den),
            den > 0,
    ;
}

/// The units of an encoding that is put together of a binade and an integer.
proof fn lemma_units_of(w: Width, k: nat, n: int)
    requires
        0 <= n <= 2 * w.step(),
        k > 0 ==> n >= w.step(),
    ensures
        rounding::units(w, k * w.step() + n) == n * pow2(k),
{
    let step: int = w.step();
    let code: int = k * step + n;
    rounding::lemma_step(w);
    lemma2_to64();
    if k == 0 && n < step {
        lemma_mul_basics_3(n);
    } else if n < 2 * step {
        assert((k + 1) * step == k * step + step) by (nonlinear_arith);
        lemma_fundamental_div_mod_converse(code, step, k as int + 1, n - step);
        assert(k * step >= 0) by (nonlinear_arith)
            requires
                step > 0,
                k >= 0,
        ;
    } else {
        assert((k + 2) * step == k * step + 2 * step) by (nonlinear_arith);
        lemma_fundamental_div_mod_converse(code, step, k as int + 2, 0);
        assert(k * step >= 0) by (nonlinear_arith)
            requires
                step > 0,
                k >= 0,
        ;
        lemma_pow2_unfold((k + 1) as nat);
        assert(step * (2 * pow2(k)) == (2 * step) * pow2(k)) by (nonlinear_arith);
    }
}

/// A rounded magnitude is off by no more than one part in twice the steps of
/// a binade, or half a unit.
pub proof fn lemma_encode_error(w: Width, num: int, den: int)
    requires
        den > 0,
        num >= 0,
        rounding::encode(w, num, den) < w.infinity(),
    ensures
        ({
            let e: int = gap(rounding::units(w, rounding::encode(w, num, den)) * den, num);
            2 * w.step() * e <= num || 2 * e <= den
        }),
{
    let prec: nat = w.mant() + 1;
    let k: nat = rounding::binade(num, den, prec);
    let p: int = pow2(k) as int;
    let d: int = den * p;
    rounding::lemma_step(w);
    lemma_pow2_pos(k);
    lemma_mul_strictly_positive(den, p);
    rounding::lemma_binade_bracket(num, den, prec);
    lemma_pow2_adds(prec, k);
    lemma_pow2_unfold(prec);
    let n: int = rounding::nearest(num, d);
    assert(den * pow2(prec + k) == (2 * w.step()) * d) by (nonlinear_arith)
        requires
            pow2(prec + k) == (2 * w.step()) * p,
            d == den * p,
    ;
    if k > 0 {
        lemma_pow2_adds((prec - 1) as nat, k);
        assert(den * pow2((prec + k - 1) as nat) == w.step() * d) by (nonlinear_arith)
            requires
                pow2((prec + k - 1) as nat) == w.step() * p,
                d == den * p,
        ;
        lemma_nearest_between(num, d, w.step(), 2 * w.step());
    } else {
        assert(0 * d == 0) by (nonlinear_arith);
        lemma_nearest_between(num, d, 0, 2 * w.step());
    }
    lemma_units_of(w, k, n);
    lemma_nearest(num, d);
    assert(n * d == (n * p) * den) by (nonlinear_arith)
        requires
            d == den * p,
    ;
    let e: int = gap((n * p) * den, num);
    if k > 0 {
        assert(2 * w.step() * e <= num) by (nonlinear_arith)
            requires
                2 * e <= d,
                w.step() * d <= num,
                w.step() > 0,
        ;
    } else {
        lemma2_to64();
        lemma_mul_basics_3(den);
    }
}

/// The value of a rounded number of the 32-bit format.
proof fn lemma_rounded_value(neg: bool, num: int, den: int)
    requires
        den > 0,
        num >= 0,
        F32::of_parts(Parts::rounded(Width::Single, neg, num, den)).is_finite(),
    ensures
        ({
            let exact: int = if neg {
                -num
            } else {
                num
            };
            let r: F32 = F32::of_parts(Parts::rounded(Width::Single, neg, num, den));
            let e: int = gap(value(r) * den, exact);
            PARTS * e <= num || 2 * e <= den
        }),
{
    reveal(F32::spec_is_finite);
    let w: Width = Width::Single;
    rounding::lemma_step(w);
    rounding::lemma_encode_range(w, num, den);
    let code: int = rounding::encode(w, num, den);
    let r: F32 = F32::of_parts(Parts::rounded(w, neg, num, den));
    assert(r.parts().code == code);
    assert(r.parts().neg == neg);
    lemma_encode_error(w, num, den);
    let u: int = rounding::units(w, code);
    assert((-u) * den == -(u * den)) by (nonlinear_arith);
}

/// A finite sum is off by no more than one part in two to the 24th.
pub proof fn law_sums_are_accurate(x: F32, y: F32)
    requires
        x.is_finite(),
        y.is_finite(),
        x.plus(y).is_finite(),
    ensures
        PARTS * gap(value(x.plus(y)), value(x) + value(y)) <= size(value(x) + value(y)),
{
    let total: int = value(x) + value(y);
    assert(x.parts().is_finite(Width::Single) && y.parts().is_finite(Width::Single)) by {
        reveal(F32::spec_is_finite);
    }
    assert(x.plus(y) == F32::of_parts(Parts::sum(Width::Single, x.parts(), y.parts()))) by {
        reveal(F32::spec_plus);
    }
    lemma_mul_basics_3(value(x.plus(y)));
    if total == 0 {
        rounding::lemma_step(Width::Single);
    } else if total < 0 {
        lemma_rounded_value(true, -total, 1);
    } else {
        lemma_rounded_value(false, total, 1);
    }
}

/// A finite difference is off by no more than one part in two to the 24th.
pub proof fn law_differences_are_accurate(x: F32, y: F32)
    requires
        x.is_finite(),
        y.is_finite(),
        x.minus(y).is_finite(),
    ensures
        PARTS * gap(value(x.minus(y)), value(x) - value(y)) <= size(value(x) - value(y)),
{
    reveal(F32::spec_minus);
    numbers::lemma_negated(y);
    law_sums_are_accurate(x, y.negated());
}

/// A finite product is off by no more than one part in two to the 24th, or
/// half a unit.
pub proof fn law_products_are_accurate(x: F32, y: F32)
    requires
        x.is_finite(),
        y.is_finite(),
        x.times(y).is_finite(),
    ensures
        ({
            let e: int = gap(value(x.times(y)) * scale(), value(x) * value(y));
            PARTS * e <= size(value(x) * value(y)) || 2 * e <= scale()
        }),
{
    reveal(F32::spec_times);
    let w: Width = Width::Single;
    let a: Parts = x.parts();
    let b: Parts = y.parts();
    assert(a.is_finite(w) && b.is_finite(w)) by {
        reveal(F32::spec_is_finite);
    }
    lemma_pow2_pos(149);
    rounding::lemma_encode_exact(w, a.code as int);
    rounding::lemma_encode_exact(w, b.code as int);
    let n: int = a.size(w) * b.size(w);
    lemma_mul_nonnegative(a.size(w), b.size(w));
    assert(value(x) * value(y) == (if a.neg != b.neg {
        -n
    } else {
        n
    })) by (nonlinear_arith)
        requires
            n == a.size(w) * b.size(w),
            value(x) == (if a.neg {
                -a.size(w)
            } else {
                a.size(w)
            }),
            value(y) == (if b.neg {
                -b.size(w)
            } else {
                b.size(w)
            }),
    ;
    lemma_rounded_value(a.neg != b.neg, n, scale());
}

/// A finite quotient by a positive number is off by no more than one part in
/// two to the 24th, or half a unit.
pub proof fn law_quotients_are_accurate(x: F32, y: F32)
    requires
        x.is_finite(),
        y.is_finite(),
        value(y) > 0,
        x.over(y).is_finite(),
    ensures
        ({
            let e: int = gap(value(x.over(y)) * value(y), value(x) * scale());
            PARTS * e <= size(value(x) * scale()) || 2 * e <= value(y)
        }),
{
    reveal(F32::spec_over);
    let w: Width = Width::Single;
    let a: Parts = x.parts();
    let b: Parts = y.parts();
    assert(a.is_finite(w) && b.is_finite(w)) by {
        reveal(F32::spec_is_finite);
    }
    lemma_pow2_pos(149);
    rounding::lemma_encode_exact(w, a.code as int);
    rounding::lemma_encode_exact(w, b.code as int);
    let n: int = a.size(w) * scale();
    lemma_mul_nonnegative(a.size(w), scale());
    assert(value(x) * scale() == (if a.neg {
        -n
    } else {
        n
    })) by (nonlinear_arith)
        requires
            n == a.size(w) * scale(),
            value(x) == (if a.neg {
                -a.size(w)
            } else {
                a.size(w)
            }),
    ;
    rounding::lemma_step(w);
    lemma_rounded_value(a.neg != b.neg, n, b.size(w));
}

/// The order of summands does not matter.
pub proof fn law_sums_commute(x: F32, y: F32)
    ensures
        x.plus(y) == y.plus(x),
{
    reveal(F32::spec_plus);
}

/// The values of one half and two.
pub proof fn lemma_half_two()
    ensures
        F32::of(HALF).is_finite(),
        2 * value(F32::of(HALF)) == scale(),
        F32::of(TWO).is_finite(),
        value(F32::of(TWO)) == 2 * scale(),
{
    numbers::lemma_value_of(HALF, 0x80_0000, 125);
    numbers::lemma_value_of(TWO, 0x80_0000, 127);
    lemma_pow2_adds(23, 126);
    lemma_pow2_adds(23, 127);
    lemma_pow2_unfold(126);
    lemma_pow2_unfold(150);
    lemma2_to64();
}

} // verus!
