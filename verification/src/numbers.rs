//! Laws of the arithmetic.
use crate::arith;
use crate::arith::Parts;
use crate::constants::{MINUS_ONE, ONE};
use crate::float::{F32, F64};
use crate::rounding;
use crate::rounding::Width;
use vstd::arithmetic::power2::*;
use vstd::prelude::*;

verus! {

/// The order of the numbers is transitive.
pub proof fn lemma_order(a: F32, b: F32, c: F32)
    ensures
        a.le(b) && b.le(c) ==> a.le(c),
        a.lt(b) && b.le(c) ==> a.lt(c),
        a.le(b) && b.lt(c) ==> a.lt(c),
        a.lt(b) ==> !b.le(a) && a.le(b),
        !a.is_nan() && !b.is_nan() ==> a.lt(b) || b.le(a),
        a.le(b) ==> !a.is_nan() && !b.is_nan(),
{
    reveal(F32::spec_le);
    reveal(F32::spec_lt);
    reveal(F32::spec_same);
    reveal(F32::spec_is_nan);
}

/// The larger of two is at least the second, where that is a number.
pub proof fn lemma_max_above(a: F32, b: F32)
    requires
        !b.is_nan(),
    ensures
        b.le(a.max(b)),
{
    reveal(F32::spec_max);
    reveal(F32::spec_le);
    reveal(F32::spec_lt);
    reveal(F32::spec_same);
    reveal(F32::spec_is_nan);
}

/// An unsigned integer as a number is not negative.
pub proof fn lemma_from_u64_not_negative(n: u64)
    ensures
        F32::of(0).le(F32::from_u64(n)),
{
    reveal(F32::spec_from_u64);
    reveal(F32::spec_le);
    reveal(F32::spec_lt);
    reveal(F32::spec_same);
    rounding::lemma_step(Width::Single);
    lemma_pow2_pos(149);
    vstd::arithmetic::mul::lemma_mul_nonnegative(n as int, pow2(149) as int);
    rounding::lemma_encode_range(Width::Single, n * pow2(149), 1);
}

/// One is as many units as the format's unit goes into it.
pub proof fn lemma_one()
    ensures
        F32::of(ONE).parts() == (Parts { neg: false, code: 0x3f80_0000 }),
        rounding::units(Width::Single, 0x3f80_0000) == pow2(149),
{
    let w: Width = Width::Single;
    rounding::lemma_step(w);
    lemma_pow2_adds(23, 126);
    assert(0x3f80_0000int / w.step() == 127);
    assert(0x3f80_0000int % w.step() == 0);
    assert(rounding::units(w, 0x3f80_0000) == w.step() * pow2(126));
}

/// A pattern is made of its own parts.
pub proof fn lemma_parts_round_trip(x: F32)
    ensures
        F32::of_parts(x.parts()) == x,
{
}

/// Times one, every number but not-a-number is itself.
pub proof fn law_times_one(x: F32)
    requires
        !x.is_nan(),
    ensures
        x.times(F32::of(ONE)) == x,
{
    reveal(F32::spec_times);
    reveal(F32::spec_is_nan);
    lemma_one();
    lemma_parts_round_trip(x);
    let p: Parts = x.parts();
    if p.is_finite(Width::Single) {
        rounding::lemma_encode_exact(Width::Single, p.code as int);
        lemma_pow2_pos(149);
        let u: int = pow2(149) as int;
        let n: int = p.size(Width::Single);
        vstd::arithmetic::mul::lemma_mul_nonnegative(n, u);
        vstd::arithmetic::mul::lemma_mul_basics_3(n * u);
        rounding::lemma_encode_ratio(Width::Single, n * u, u, n, 1);
    }
}

/// A sum with not-a-number is the one quiet pattern.
pub proof fn lemma_nan_plus(x: F32, y: F32)
    requires
        x.is_nan() || y.is_nan(),
    ensures
        x.plus(y) == F32::of(0x7fc0_0000),
        x.plus(y).is_nan(),
{
    reveal(F32::spec_plus);
    reveal(F32::spec_is_nan);
    rounding::lemma_step(Width::Single);
}

/// A product with not-a-number is the one quiet pattern.
pub proof fn lemma_nan_times(x: F32, y: F32)
    requires
        x.is_nan() || y.is_nan(),
    ensures
        x.times(y) == F32::of(0x7fc0_0000),
        x.times(y).is_nan(),
{
    reveal(F32::spec_times);
    reveal(F32::spec_is_nan);
    rounding::lemma_step(Width::Single);
}

/// A number that is not at least an integer holds no more than it.
pub proof fn lemma_below_integer(x: F64, n: u64)
    requires
        !F64::from_u64(n).le(x),
    ensures
        x.to_u64() <= n,
{
    reveal(F64::spec_le);
    reveal(F64::spec_lt);
    reveal(F64::spec_same);
    reveal(F64::spec_from_u64);
    reveal(F64::spec_to_u64);
    let w: Width = Width::Double;
    let p: Parts = x.parts();
    let u: int = pow2(w.unit()) as int;
    rounding::lemma_step(w);
    lemma_pow2_pos(w.unit());
    vstd::arithmetic::mul::lemma_mul_nonnegative(n as int, u);
    rounding::lemma_encode_range(w, n * u, 1);
    let code: int = rounding::encode(w, n * u, 1);
    if !p.is_nan(w) && !p.neg {
        assert(p.code < code);
        if p.is_finite(w) && p.whole(w) > n {
            // Then the number is more than n, and so is its encoding.
            rounding::lemma_encode_exact(w, p.code as int);
            vstd::arithmetic::div_mod::lemma_fundamental_div_mod(p.size(w), u);
            let q: int = p.whole(w);
            let rest: int = p.size(w) % u;
            assert(n * u <= p.size(w)) by (nonlinear_arith)
                requires
                    p.size(w) == u * q + rest,
                    rest >= 0,
                    q > n,
                    u > 0,
            ;
            rounding::lemma_encode_monotone(w, n * u, 1, p.size(w), 1);
        }
    }
}

/// A number that is at least an integer holds no less than it.
pub proof fn lemma_above_integer(x: F64, n: u64)
    requires
        F64::from_u64(n).le(x),
        n < 0x20_0000_0000_0000,
    ensures
        x.to_u64() >= n,
{
    reveal(F64::spec_le);
    reveal(F64::spec_lt);
    reveal(F64::spec_same);
    reveal(F64::spec_from_u64);
    reveal(F64::spec_to_u64);
    let w: Width = Width::Double;
    let p: Parts = x.parts();
    let q: Parts = F64::from_u64(n).parts();
    let u: int = pow2(w.unit()) as int;
    rounding::lemma_step(w);
    lemma_pow2_pos(w.unit());
    lemma_small_integer(w, n as int);
    if n > 0 {
        vstd::arithmetic::mul::lemma_mul_strictly_positive(n as int, u);
        assert(q.code > 0);
        if p.is_finite(w) {
            if q.code < p.code {
                rounding::lemma_units_order(w, q.code as int, p.code as int);
            }
            vstd::arithmetic::div_mod::lemma_div_is_ordered(n * u, p.size(w), u);
            vstd::arithmetic::mul::lemma_mul_is_commutative(n as int, u);
            vstd::arithmetic::div_mod::lemma_div_multiples_vanish(n as int, u);
        }
    }
}

/// Integers as 64-bit numbers are ordered as the integers.
pub proof fn lemma_wide_integer_order(m: u64, n: u64)
    requires
        m <= n,
    ensures
        F64::from_u64(m).le(F64::from_u64(n)),
{
    reveal(F64::spec_le);
    reveal(F64::spec_lt);
    reveal(F64::spec_same);
    reveal(F64::spec_from_u64);
    let w: Width = Width::Double;
    let u: int = pow2(w.unit()) as int;
    rounding::lemma_step(w);
    lemma_pow2_pos(w.unit());
    vstd::arithmetic::mul::lemma_mul_nonnegative(m as int, u);
    vstd::arithmetic::mul::lemma_mul_nonnegative(n as int, u);
    vstd::arithmetic::mul::lemma_mul_inequality(m as int, n as int, u);
    rounding::lemma_encode_range(w, m * u, 1);
    rounding::lemma_encode_range(w, n * u, 1);
    rounding::lemma_encode_monotone(w, m * u, 1, n * u, 1);
}

/// The larger of a number and one that is not larger is the number.
pub proof fn lemma_max_of_larger(a: F32, b: F32)
    requires
        b.le(a),
    ensures
        a.max(b).le(a),
        a.le(a.max(b)),
{
    reveal(F32::spec_max);
    reveal(F32::spec_le);
    reveal(F32::spec_lt);
    reveal(F32::spec_same);
    reveal(F32::spec_is_nan);
}

/// The parts of a sum of a finite number and a number.
pub proof fn lemma_number_plus(x: F32, y: F32)
    requires
        x.is_finite(),
        !y.is_nan(),
    ensures
        !x.plus(y).is_nan(),
{
    reveal(F32::spec_plus);
    reveal(F32::spec_is_nan);
    reveal(F32::spec_is_finite);
    let w: Width = Width::Single;
    rounding::lemma_step(w);
    let a: Parts = x.parts();
    let b: Parts = y.parts();
    rounding::lemma_encode_exact(w, a.code as int);
    if b.is_finite(w) {
        rounding::lemma_encode_exact(w, b.code as int);
        let total: int = a.value(w) + b.value(w);
        if total >= 0 {
            rounding::lemma_encode_range(w, total, 1);
        } else {
            rounding::lemma_encode_range(w, -total, 1);
        }
    }
}

/// A difference of two finite numbers is a number.
pub proof fn lemma_number_minus(x: F32, y: F32)
    requires
        x.is_finite(),
        y.is_finite(),
    ensures
        !x.minus(y).is_nan(),
{
    reveal(F32::spec_minus);
    reveal(F32::spec_negated);
    reveal(F32::spec_is_finite);
    reveal(F32::spec_is_nan);
    lemma_number_plus(x, y.negated());
}

/// A product of a number and a finite one that is not zero is a number.
pub proof fn lemma_number_times(x: F32, bits: u32)
    requires
        !x.is_nan(),
        0 < bits < 0x7f80_0000,
    ensures
        !x.times(F32::of(bits)).is_nan(),
{
    reveal(F32::spec_times);
    reveal(F32::spec_is_nan);
    let w: Width = Width::Single;
    rounding::lemma_step(w);
    lemma_pow2_pos(w.unit());
    let a: Parts = x.parts();
    let b: Parts = F32::of(bits).parts();
    rounding::lemma_encode_exact(w, b.code as int);
    if a.is_finite(w) {
        rounding::lemma_encode_exact(w, a.code as int);
        vstd::arithmetic::mul::lemma_mul_nonnegative(a.size(w), b.size(w));
        rounding::lemma_encode_range(w, a.size(w) * b.size(w), pow2(w.unit()) as int);
    }
}

/// A product of a positive finite number and a number is a number.
pub proof fn lemma_positive_times(x: F32, y: F32, bits: u32)
    requires
        x.is_finite(),
        0 < bits < 0x7f80_0000,
        F32::of(bits).le(x),
        !y.is_nan(),
    ensures
        !x.times(y).is_nan(),
{
    reveal(F32::spec_times);
    reveal(F32::spec_is_nan);
    reveal(F32::spec_is_finite);
    reveal(F32::spec_le);
    reveal(F32::spec_lt);
    reveal(F32::spec_same);
    let w: Width = Width::Single;
    rounding::lemma_step(w);
    lemma_pow2_pos(w.unit());
    let a: Parts = x.parts();
    let b: Parts = y.parts();
    rounding::lemma_encode_exact(w, a.code as int);
    if b.is_finite(w) {
        rounding::lemma_encode_exact(w, b.code as int);
        vstd::arithmetic::mul::lemma_mul_nonnegative(a.size(w), b.size(w));
        rounding::lemma_encode_range(w, a.size(w) * b.size(w), pow2(w.unit()) as int);
    }
}

/// A finite number, counted in units of `2^-149`.
pub open spec fn value(x: F32) -> int {
    x.parts().value(Width::Single)
}

/// The units of one.
pub open spec fn scale() -> int {
    pow2(149) as int
}

/// Finite numbers are ordered as their values, and no value is counted twice
/// but that of the two zeros.
pub proof fn lemma_value_order(x: F32, y: F32)
    requires
        x.is_finite(),
        y.is_finite(),
    ensures
        x.le(y) <==> value(x) <= value(y),
        x.lt(y) <==> value(x) < value(y),
        !x.is_nan(),
{
    reveal(F32::spec_is_finite);
    reveal(F32::spec_is_nan);
    reveal(F32::spec_le);
    reveal(F32::spec_lt);
    reveal(F32::spec_same);
    let w: Width = Width::Single;
    let a: Parts = x.parts();
    let b: Parts = y.parts();
    rounding::lemma_encode_exact(w, a.code as int);
    rounding::lemma_encode_exact(w, b.code as int);
    if a.code > 0 {
        rounding::lemma_units_order(w, 0, a.code as int);
    }
    if b.code > 0 {
        rounding::lemma_units_order(w, 0, b.code as int);
    }
    if a.code < b.code {
        rounding::lemma_units_order(w, a.code as int, b.code as int);
    }
    if b.code < a.code {
        rounding::lemma_units_order(w, b.code as int, a.code as int);
    }
}

/// A number between two finite ones is finite.
pub proof fn lemma_between_finite(lo: F32, x: F32, hi: F32)
    requires
        lo.is_finite(),
        hi.is_finite(),
        lo.le(x),
        x.le(hi),
    ensures
        x.is_finite(),
{
    reveal(F32::spec_is_finite);
    reveal(F32::spec_le);
    reveal(F32::spec_lt);
    reveal(F32::spec_same);
}

/// A rational between two finite numbers is rounded to one between them.
#[verifier::rlimit(30)]
proof fn lemma_rounded_between(neg: bool, num: int, den: int, lo: F32, hi: F32)
    requires
        lo.is_finite(),
        hi.is_finite(),
        den > 0,
        num >= 0,
        value(lo) * den <= (if neg {
            -num
        } else {
            num
        }) <= value(hi) * den,
    ensures
        ({
            let r: F32 = F32::of_parts(Parts::rounded(Width::Single, neg, num, den));
            &&& r.is_finite()
            &&& lo.le(r)
            &&& r.le(hi)
        }),
{
    reveal(F32::spec_is_finite);
    reveal(F32::spec_le);
    reveal(F32::spec_lt);
    reveal(F32::spec_same);
    let w: Width = Width::Single;
    rounding::lemma_step(w);
    rounding::lemma_encode_range(w, num, den);
    let a: Parts = lo.parts();
    let b: Parts = hi.parts();
    let code: int = rounding::encode(w, num, den);
    rounding::lemma_encode_exact(w, a.code as int);
    rounding::lemma_encode_exact(w, b.code as int);
    vstd::arithmetic::mul::lemma_mul_basics_3(num);
    if !neg {
        // hi is not negative, and its encoding is at least that of the rational.
        if b.neg {
            assert(b.size(w) == 0) by (nonlinear_arith)
                requires
                    0 <= num <= -b.size(w) * den,
                    b.size(w) >= 0,
                    den > 0,
            ;
        }
        rounding::lemma_encode_monotone(w, num, den, b.size(w), 1);
        if !a.neg {
            vstd::arithmetic::mul::lemma_mul_basics_3(a.size(w) * den);
            rounding::lemma_encode_monotone(w, a.size(w), 1, num, den);
        }
        if b.code > 0 && b.neg {
            rounding::lemma_units_order(w, 0, b.code as int);
        }
    } else {
        if !a.neg {
            assert(a.size(w) == 0) by (nonlinear_arith)
                requires
                    a.size(w) * den <= -num,
                    num >= 0,
                    a.size(w) >= 0,
                    den > 0,
            ;
        }
        assert(num <= a.size(w) * den) by (nonlinear_arith)
            requires
                value(lo) * den <= -num,
                value(lo) == a.size(w) || value(lo) == -a.size(w),
                a.size(w) >= 0,
                den > 0,
                num >= 0,
                value(lo) == a.size(w) ==> a.size(w) == 0,
        ;
        rounding::lemma_encode_monotone(w, num, den, a.size(w), 1);
        if b.neg {
            assert(b.size(w) * den <= num) by (nonlinear_arith)
                requires
                    -num <= -b.size(w) * den,
            ;
            vstd::arithmetic::mul::lemma_mul_basics_3(b.size(w) * den);
            rounding::lemma_encode_monotone(w, b.size(w), 1, num, den);
        }
        if a.code > 0 && !a.neg {
            rounding::lemma_units_order(w, 0, a.code as int);
        }
    }
}

/// A sum lies between any two numbers that the exact sum lies between.
pub proof fn lemma_plus_between(x: F32, y: F32, lo: F32, hi: F32)
    requires
        x.is_finite(),
        y.is_finite(),
        lo.is_finite(),
        hi.is_finite(),
        value(lo) <= value(x) + value(y) <= value(hi),
    ensures
        x.plus(y).is_finite(),
        lo.le(x.plus(y)),
        x.plus(y).le(hi),
{
    let total: int = value(x) + value(y);
    vstd::arithmetic::mul::lemma_mul_basics_3(value(lo));
    vstd::arithmetic::mul::lemma_mul_basics_3(value(hi));
    assert(x.parts().is_finite(Width::Single) && y.parts().is_finite(Width::Single)) by {
        reveal(F32::spec_is_finite);
    }
    assert(x.plus(y) == F32::of_parts(Parts::sum(Width::Single, x.parts(), y.parts()))) by {
        reveal(F32::spec_plus);
    }
    if total == 0 {
        let zero: F32 = x.plus(y);
        reveal(F32::spec_is_finite);
        rounding::lemma_step(Width::Single);
        assert(value(zero) == 0);
        lemma_value_order(lo, zero);
        lemma_value_order(zero, hi);
    } else if total < 0 {
        lemma_rounded_between(true, -total, 1, lo, hi);
    } else {
        lemma_rounded_between(false, total, 1, lo, hi);
    }
}

/// The value of a number with its sign turned.
pub proof fn lemma_negated(x: F32)
    requires
        x.is_finite(),
    ensures
        x.negated().is_finite(),
        value(x.negated()) == -value(x),
{
    reveal(F32::spec_negated);
    reveal(F32::spec_is_finite);
}

/// A difference lies between any two numbers that the exact difference lies
/// between.
pub proof fn lemma_minus_between(x: F32, y: F32, lo: F32, hi: F32)
    requires
        x.is_finite(),
        y.is_finite(),
        lo.is_finite(),
        hi.is_finite(),
        value(lo) <= value(x) - value(y) <= value(hi),
    ensures
        x.minus(y).is_finite(),
        lo.le(x.minus(y)),
        x.minus(y).le(hi),
{
    reveal(F32::spec_minus);
    lemma_negated(y);
    lemma_plus_between(x, y.negated(), lo, hi);
}

/// A product lies between any two numbers that the exact product lies
/// between.
pub proof fn lemma_times_between(x: F32, y: F32, lo: F32, hi: F32)
    requires
        x.is_finite(),
        y.is_finite(),
        lo.is_finite(),
        hi.is_finite(),
        value(lo) * scale() <= value(x) * value(y) <= value(hi) * scale(),
    ensures
        x.times(y).is_finite(),
        lo.le(x.times(y)),
        x.times(y).le(hi),
{
    reveal(F32::spec_times);
    let w: Width = Width::Single;
    let a: Parts = x.parts();
    let b: Parts = y.parts();
    assert(a.is_finite(w) && b.is_finite(w)) by {
        reveal(F32::spec_is_finite);
    }
    lemma_pow2_pos(149);
    rounding::lemma_encode_exact(w, a.code as int);
    rounding::lemma_encode_exact(w, b.code as int);
    let n: int = a.size(w) * b.size(w);
    vstd::arithmetic::mul::lemma_mul_nonnegative(a.size(w), b.size(w));
    assert(value(x) * value(y) == (if a.neg != b.neg {
        -n
    } else {
        n
    })) by (nonlinear_arith)
        requires
            n == a.size(w) * b.size(w),
            value(x) == (if a.neg {
                -a.size(w)
            } else {
                a.size(w)
            }),
            value(y) == (if b.neg {
                -b.size(w)
            } else {
                b.size(w)
            }),
    ;
    lemma_rounded_between(a.neg != b.neg, n, scale(), lo, hi);
}

/// Rounded products of sizes are ordered as the sizes.
proof fn lemma_product_codes(m: int, n: int, factor: int)
    requires
        0 <= m <= n,
        0 <= factor,
    ensures
        0 <= rounding::encode(Width::Single, m * factor, scale()) <= rounding::encode(
            Width::Single,
            n * factor,
            scale(),
        ) <= Width::Single.infinity(),
{
    let w: Width = Width::Single;
    let u: int = scale();
    lemma_pow2_pos(149);
    vstd::arithmetic::mul::lemma_mul_nonnegative(m, factor);
    vstd::arithmetic::mul::lemma_mul_nonnegative(n, factor);
    vstd::arithmetic::mul::lemma_mul_inequality(m, n, factor);
    vstd::arithmetic::mul::lemma_mul_inequality(m * factor, n * factor, u);
    rounding::lemma_encode_range(w, m * factor, u);
    rounding::lemma_encode_range(w, n * factor, u);
    rounding::lemma_encode_monotone(w, m * factor, u, n * factor, u);
}

/// A rounded product of nothing is nothing.
proof fn lemma_product_of_nothing(factor: int)
    ensures
        rounding::encode(Width::Single, 0 * factor, scale()) == 0,
{
    let w: Width = Width::Single;
    let u: int = scale();
    lemma_pow2_pos(149);
    rounding::lemma_step(w);
    vstd::arithmetic::mul::lemma_mul_basics_1(factor);
    vstd::arithmetic::mul::lemma_mul_basics_1(u);
    rounding::lemma_encode_exact(w, 0);
    rounding::lemma_encode_ratio(w, 0, u, 0, 1);
}

/// The pattern of a product by a positive number.
proof fn lemma_product_parts(x: F32, factor: F32)
    requires
        x.is_finite(),
        factor.is_finite(),
        value(factor) > 0,
    ensures
        ({
            let w: Width = Width::Single;
            let size: int = x.parts().size(w);
            let code: int = rounding::encode(w, size * value(factor), scale());
            &&& size >= 0
            &&& 0 <= code <= w.infinity()
            &&& x.times(factor).parts() == (Parts { neg: x.parts().neg, code: code as u64 })
        }),
{
    let w: Width = Width::Single;
    let a: Parts = x.parts();
    let b: Parts = factor.parts();
    assert(a.is_finite(w) && b.is_finite(w)) by {
        reveal(F32::spec_is_finite);
    }
    rounding::lemma_step(w);
    rounding::lemma_encode_exact(w, a.code as int);
    rounding::lemma_encode_exact(w, b.code as int);
    lemma_product_codes(a.size(w), a.size(w), b.size(w));
    assert(x.times(factor) == F32::of_parts(Parts::product(w, a, b))) by {
        reveal(F32::spec_times);
    }
}

/// Products by a positive number are ordered as what is multiplied.
pub proof fn lemma_times_order(x: F32, y: F32, factor: F32)
    requires
        x.is_finite(),
        y.is_finite(),
        factor.is_finite(),
        value(factor) > 0,
        value(x) <= value(y),
    ensures
        x.times(factor).le(y.times(factor)),
{
    let w: Width = Width::Single;
    let m: int = x.parts().size(w);
    let n: int = y.parts().size(w);
    let k: int = value(factor);
    lemma_product_parts(x, factor);
    lemma_product_parts(y, factor);
    if m <= n {
        lemma_product_codes(m, n, k);
    }
    if n <= m {
        lemma_product_codes(n, m, k);
    }
    lemma_product_of_nothing(k);
    rounding::lemma_step(w);
    reveal(F32::spec_le);
    reveal(F32::spec_lt);
    reveal(F32::spec_same);
}

/// A quotient by a positive number lies between any two numbers that the
/// exact quotient lies between.
pub proof fn lemma_over_between(x: F32, y: F32, lo: F32, hi: F32)
    requires
        x.is_finite(),
        y.is_finite(),
        lo.is_finite(),
        hi.is_finite(),
        value(y) > 0,
        value(lo) * value(y) <= value(x) * scale() <= value(hi) * value(y),
    ensures
        x.over(y).is_finite(),
        lo.le(x.over(y)),
        x.over(y).le(hi),
{
    reveal(F32::spec_over);
    let w: Width = Width::Single;
    let a: Parts = x.parts();
    let b: Parts = y.parts();
    assert(a.is_finite(w) && b.is_finite(w)) by {
        reveal(F32::spec_is_finite);
    }
    lemma_pow2_pos(149);
    rounding::lemma_encode_exact(w, a.code as int);
    rounding::lemma_encode_exact(w, b.code as int);
    let n: int = a.size(w) * scale();
    vstd::arithmetic::mul::lemma_mul_nonnegative(a.size(w), scale());
    assert(value(x) * scale() == (if a.neg {
        -n
    } else {
        n
    })) by (nonlinear_arith)
        requires
            n == a.size(w) * scale(),
            value(x) == (if a.neg {
                -a.size(w)
            } else {
                a.size(w)
            }),
    ;
    lemma_rounded_between(a.neg != b.neg, n, b.size(w), lo, hi);
}

/// The value of bits with an exponent field.
pub proof fn lemma_value_of(bits: u32, sig: int, exp: nat)
    requires
        0x80_0000 <= bits < 0x7f80_0000,
        sig == 0x80_0000 + bits % 0x80_0000,
        exp == bits / 0x80_0000 - 1,
    ensures
        value(F32::of(bits)) == sig * pow2(exp),
        F32::of(bits).is_finite(),
{
    reveal(F32::spec_is_finite);
    rounding::lemma_step(Width::Single);
}

/// The values of zero and one.
pub proof fn lemma_zero_one()
    ensures
        value(F32::of(0)) == 0,
        F32::of(0).is_finite(),
        value(F32::of(ONE)) == scale(),
        F32::of(ONE).is_finite(),
        value(F32::of(MINUS_ONE)) == -scale(),
        F32::of(MINUS_ONE).is_finite(),
        scale() > 0,
{
    reveal(F32::spec_is_finite);
    lemma_one();
    lemma_pow2_pos(149);
    rounding::lemma_step(Width::Single);
}

/// Whatever has at most the format's precision has an encoding.
pub proof fn lemma_representable(w: Width, sig: int, exp: nat) -> (code: int)
    requires
        0 <= sig < 2 * w.step(),
        exp + 1 < w.top_field(),
    ensures
        0 <= code < w.infinity(),
        rounding::units(w, code) == sig * pow2(exp),
    decreases exp,
{
    rounding::lemma_step(w);
    if sig >= w.step() {
        let code: int = (exp + 1) * w.step() + (sig - w.step());
        vstd::arithmetic::div_mod::lemma_fundamental_div_mod_converse(
            code,
            w.step(),
            (exp + 1) as int,
            sig - w.step(),
        );
        rounding::lemma_units_parts(w, code);
        code
    } else if exp == 0 {
        lemma2_to64();
        assert(sig * pow2(0) == sig) by (nonlinear_arith)
            requires
                pow2(0) == 1,
        ;
        sig
    } else {
        lemma_pow2_unfold(exp);
        assert(sig * pow2(exp) == (2 * sig) * pow2((exp - 1) as nat)) by (nonlinear_arith)
            requires
                pow2(exp) == 2 * pow2((exp - 1) as nat),
        ;
        lemma_representable(w, 2 * sig, (exp - 1) as nat)
    }
}

/// Integers of at most the precision are exact.
pub proof fn lemma_small_integer(w: Width, n: int)
    requires
        0 <= n < 2 * w.step(),
    ensures
        ({
            let p: Parts = Parts::integer(w, false, n);
            &&& p.is_finite(w)
            &&& p.value(w) == n * pow2(w.unit())
        }),
{
    let code: int = lemma_representable(w, n, w.unit());
    rounding::lemma_encode_exact(w, code);
    rounding::lemma_step(w);
}

/// Integers up to two to the 24th are exact as 32-bit numbers.
pub proof fn lemma_small_from_u64(n: u64)
    requires
        n < 0x100_0000,
    ensures
        F32::from_u64(n).is_finite(),
        value(F32::from_u64(n)) == n * scale(),
{
    reveal(F32::spec_from_u64);
    reveal(F32::spec_is_finite);
    lemma_small_integer(Width::Single, n as int);
    rounding::lemma_step(Width::Single);
}

/// A sum whose exact value is a number's is that number; where it is zero,
/// one of the zeros.
pub proof fn lemma_plus_exact(x: F32, y: F32, z: F32)
    requires
        x.is_finite(),
        y.is_finite(),
        z.is_finite(),
        value(x) + value(y) == value(z),
    ensures
        x.plus(y).is_finite(),
        value(x.plus(y)) == value(z),
        x.plus(y).same(z),
        value(z) != 0 ==> x.plus(y) == z,
{
    lemma_plus_between(x, y, z, z);
    let r: F32 = x.plus(y);
    lemma_value_order(r, z);
    lemma_value_order(z, r);
    lemma_same_value(r, z);
}

/// Numbers with the same value are equal, and the same pattern unless they
/// are zeros.
pub proof fn lemma_same_value(x: F32, y: F32)
    requires
        x.is_finite(),
        y.is_finite(),
        value(x) == value(y),
    ensures
        x.same(y),
        value(x) != 0 ==> x == y,
{
    reveal(F32::spec_is_finite);
    reveal(F32::spec_same);
    let w: Width = Width::Single;
    let a: Parts = x.parts();
    let b: Parts = y.parts();
    rounding::lemma_encode_exact(w, a.code as int);
    rounding::lemma_encode_exact(w, b.code as int);
    if a.code > 0 {
        rounding::lemma_units_order(w, 0, a.code as int);
    }
    if b.code > 0 {
        rounding::lemma_units_order(w, 0, b.code as int);
    }
    if a.code < b.code {
        rounding::lemma_units_order(w, a.code as int, b.code as int);
    }
    if b.code < a.code {
        rounding::lemma_units_order(w, b.code as int, a.code as int);
    }
    lemma_parts_round_trip(x);
    lemma_parts_round_trip(y);
}

/// Equal finite numbers have the same value.
pub proof fn lemma_same(x: F32, y: F32)
    requires
        x.is_finite(),
        y.is_finite(),
    ensures
        x.same(y) <==> value(x) == value(y),
{
    if value(x) == value(y) {
        lemma_same_value(x, y);
    }
    if x.same(y) {
        lemma_value_order(x, y);
        lemma_value_order(y, x);
        reveal(F32::spec_le);
        reveal(F32::spec_same);
        assert(x.le(y) && y.le(x));
    }
}

/// Times a zero, a finite number is a zero.
pub proof fn lemma_times_zero(x: F32, zero: F32)
    requires
        x.is_finite(),
        zero.is_finite(),
        value(zero) == 0,
    ensures
        x.times(zero).is_finite(),
        value(x.times(zero)) == 0,
        zero.times(x).is_finite(),
        value(zero.times(x)) == 0,
{
    assert(value(x) * value(zero) == 0) by (nonlinear_arith)
        requires
            value(zero) == 0,
    ;
    assert(value(zero) * value(x) == 0) by (nonlinear_arith)
        requires
            value(zero) == 0,
    ;
    assert(value(zero) * scale() == 0) by (nonlinear_arith)
        requires
            value(zero) == 0,
    ;
    lemma_times_between(x, zero, zero, zero);
    lemma_times_between(zero, x, zero, zero);
    lemma_value_order(zero, x.times(zero));
    lemma_value_order(x.times(zero), zero);
    lemma_value_order(zero, zero.times(x));
    lemma_value_order(zero.times(x), zero);
}

/// The largest finite number and one more are rounded to the largest finite
/// number.
proof fn lemma_one_past_the_largest()
    ensures
        rounding::encode(
            Width::Single,
            rounding::units(Width::Single, 0x7f7f_ffff) + scale(),
            1,
        ) == 0x7f7f_ffff,
{
    let w: Width = Width::Single;
    let p: int = pow2(253) as int;
    let num: int = rounding::units(w, 0x7f7f_ffff) + scale();
    rounding::lemma_step(w);
    lemma2_to64();
    lemma_pow2_pos(149);
    lemma_pow2_adds(104, 149);
    lemma_pow2_adds(24, 253);
    lemma_pow2_adds(23, 253);
    rounding::lemma_pow2_increases(2, 104);
    assert(0x7f7f_ffffint / w.step() == 254);
    assert(0x7f7f_ffffint % w.step() == 0x7f_ffff);
    assert(num == 0xff_ffff * p + scale());
    assert(2 * scale() < p) by (nonlinear_arith)
        requires
            p == pow2(104) * scale(),
            pow2(104) >= 4,
            scale() > 0,
    ;
    rounding::lemma_binade(num, 1, 24, 253);
    vstd::arithmetic::div_mod::lemma_fundamental_div_mod_converse(num, p, 0xff_ffff, scale());
}

/// A sum of a finite number and one of at most one is finite.
pub proof fn lemma_plus_small(x: F32, y: F32)
    requires
        x.is_finite(),
        y.is_finite(),
        -scale() <= value(x) <= scale(),
    ensures
        x.plus(y).is_finite(),
{
    let w: Width = Width::Single;
    let b: Parts = y.parts();
    let most: int = rounding::units(w, 0x7f7f_ffff) + scale();
    reveal(F32::spec_plus);
    reveal(F32::spec_is_finite);
    rounding::lemma_step(w);
    lemma_one_past_the_largest();
    rounding::lemma_encode_exact(w, x.parts().code as int);
    rounding::lemma_encode_exact(w, b.code as int);
    if b.code < 0x7f7f_ffff {
        rounding::lemma_units_order(w, b.code as int, 0x7f7f_ffff);
    }
    let total: int = value(x) + value(y);
    if total > 0 {
        rounding::lemma_encode_monotone(w, total, 1, most, 1);
        rounding::lemma_encode_range(w, total, 1);
    } else if total < 0 {
        rounding::lemma_encode_monotone(w, -total, 1, most, 1);
        rounding::lemma_encode_range(w, -total, 1);
    }
}

/// One less a zero is one, and one less one a zero.
pub proof fn lemma_one_minus(x: F32)
    requires
        x.is_finite(),
    ensures
        value(x) == 0 ==> F32::of(ONE).minus(x) == F32::of(ONE),
        value(x) == scale() ==> F32::of(ONE).minus(x).is_finite() && value(
            F32::of(ONE).minus(x),
        ) == 0,
{
    reveal(F32::spec_minus);
    lemma_zero_one();
    lemma_negated(x);
    if value(x) == 0 {
        lemma_plus_exact(F32::of(ONE), x.negated(), F32::of(ONE));
    }
    if value(x) == scale() {
        lemma_plus_exact(F32::of(ONE), x.negated(), F32::of(0));
    }
}

/// A blend `a * (1 - mix) + b * mix` with nothing of the second is the first,
/// with nothing of the first the second.
pub proof fn lemma_blend_ends(a: F32, b: F32, mix: F32)
    requires
        a.is_finite(),
        b.is_finite(),
        mix.is_finite(),
    ensures
        ({
            let r: F32 = a.times(F32::of(ONE).minus(mix)).plus(b.times(mix));
            &&& value(mix) == 0 ==> r.is_finite() && r.same(a) && (value(a) != 0 ==> r == a)
            &&& value(mix) == scale() ==> r.is_finite() && r.same(b) && (value(b) != 0 ==> r == b)
        }),
{
    let one: F32 = F32::of(ONE);
    lemma_zero_one();
    lemma_one_minus(mix);
    lemma_value_order(a, a);
    lemma_value_order(b, b);
    if value(mix) == 0 {
        law_times_one(a);
        lemma_times_zero(b, mix);
        lemma_plus_exact(a, b.times(mix), a);
    }
    if value(mix) == scale() {
        lemma_same_value(mix, one);
        law_times_one(b);
        lemma_times_zero(a, one.minus(mix));
        lemma_plus_exact(a.times(one.minus(mix)), b, b);
    }
}

/// The value of a number clamped to zero and one.
pub proof fn lemma_clamp_unit(x: F32)
    requires
        !x.is_nan(),
    ensures
        ({
            let r: F32 = x.clamp(F32::of(0), F32::of(ONE));
            &&& r.is_finite()
            &&& 0 <= value(r) <= scale()
            &&& x.le(F32::of(0)) ==> value(r) == 0
            &&& F32::of(ONE).le(x) ==> value(r) == scale()
        }),
{
    reveal(F32::spec_clamp);
    let zero: F32 = F32::of(0);
    let one: F32 = F32::of(ONE);
    lemma_zero_one();
    lemma_value_order(zero, one);
    lemma_value_order(one, zero);
    lemma_order(x, zero, one);
    lemma_order(one, x, zero);
    if !x.lt(zero) && !one.lt(x) {
        lemma_between_finite(zero, x, one);
        lemma_value_order(zero, x);
        lemma_value_order(x, one);
        lemma_value_order(x, zero);
        lemma_value_order(one, x);
    }
}

/// The value of a number without its sign.
pub proof fn lemma_magnitude(x: F32)
    requires
        x.is_finite(),
    ensures
        x.magnitude().is_finite(),
        value(x.magnitude()) == (if value(x) < 0 {
            -value(x)
        } else {
            value(x)
        }),
{
    reveal(F32::spec_magnitude);
    reveal(F32::spec_is_finite);
    rounding::lemma_encode_exact(Width::Single, x.parts().code as int);
}

/// A number that is not negative, over one of at least one, is a number, and
/// a zero where it is one.
pub proof fn lemma_over_length(x: F32, y: F32)
    requires
        F32::of(0).le(x),
        F32::of(ONE).le(y),
        x.is_finite(),
    ensures
        !x.over(y).is_nan(),
        value(x) == 0 ==> x.over(y).is_finite() && value(x.over(y)) == 0,
{
    let w: Width = Width::Single;
    lemma_zero_one();
    if y.is_finite() {
        lemma_value_order(F32::of(ONE), y);
        lemma_value_order(F32::of(0), x);
        let u: int = scale();
        assert(0 * value(y) <= value(x) * u <= value(x) * value(y)) by (nonlinear_arith)
            requires
                value(x) >= 0,
                0 < u <= value(y),
        ;
        lemma_over_between(x, y, F32::of(0), x);
        lemma_value_order(x.over(y), x);
        lemma_value_order(F32::of(0), x.over(y));
    } else {
        reveal(F32::spec_over);
        reveal(F32::spec_is_nan);
        reveal(F32::spec_is_finite);
        reveal(F32::spec_le);
        reveal(F32::spec_lt);
        reveal(F32::spec_same);
        rounding::lemma_step(w);
    }
}

/// An unsigned integer as a number is finite.
pub proof fn lemma_from_u64_finite(n: u64)
    ensures
        F32::from_u64(n).is_finite(),
{
    reveal(F32::spec_from_u64);
    reveal(F32::spec_is_finite);
    let w: Width = Width::Single;
    rounding::lemma_step(w);
    lemma_pow2_pos(149);
    // 2^64 units of one stand for a finite number
    let code: int = lemma_representable(w, 1, 213);
    lemma_pow2_adds(64, 149);
    lemma2_to64_rest();
    rounding::lemma_encode_exact(w, code);
    vstd::arithmetic::mul::lemma_mul_nonnegative(n as int, scale());
    assert(n * scale() <= 1 * pow2(213)) by (nonlinear_arith)
        requires
            pow2(213) == 0x1_0000_0000_0000_0000 * scale(),
            n <= 0xffff_ffff_ffff_ffff,
            scale() > 0,
    ;
    rounding::lemma_encode_monotone(w, n * scale(), 1, 1 * pow2(213) as int, 1);
    rounding::lemma_encode_range(w, n * scale(), 1);
}

/// What is left of an encoded number after taking a power of two away as
/// often as it goes has an encoding.
pub proof fn lemma_remainder_encoded(w: Width, code: int, e: nat) -> (left: int)
    requires
        0 <= code < w.infinity(),
    ensures
        0 <= left < w.infinity(),
        rounding::units(w, left) == rounding::units(w, code) % (pow2(e) as int),
{
    rounding::lemma_units_parts(w, code);
    rounding::lemma_step(w);
    lemma_pow2_pos(e);
    let m: int = pow2(e) as int;
    let (sig, exp): (int, nat) = if code < w.step() {
        (code, 0)
    } else {
        (w.step() + code % w.step(), (code / w.step() - 1) as nat)
    };
    lemma2_to64();
    assert(sig * pow2(exp) == rounding::units(w, code)) by (nonlinear_arith)
        requires
            code < w.step() ==> sig == code && pow2(exp) == 1,
            code < w.step() ==> rounding::units(w, code) == code,
            code >= w.step() ==> rounding::units(w, code) == sig * pow2(exp),
    ;
    let p: int = pow2(exp) as int;
    lemma_pow2_pos(exp);
    if exp >= e {
        lemma_pow2_adds((exp - e) as nat, e);
        let q: int = sig * pow2((exp - e) as nat);
        assert(sig * p == q * m) by (nonlinear_arith)
            requires
                q == sig * pow2((exp - e) as nat),
                p == pow2((exp - e) as nat) * m,
        ;
        vstd::arithmetic::div_mod::lemma_fundamental_div_mod_converse(q * m, m, q, 0);
        assert(0 < w.step());
        0
    } else {
        let k: int = pow2((e - exp) as nat) as int;
        lemma_pow2_pos((e - exp) as nat);
        lemma_pow2_adds((e - exp) as nat, exp);
        arith::lemma_mod_scale(sig, k, p);
        vstd::arithmetic::div_mod::lemma_mod_bound(sig, k);
        vstd::arithmetic::div_mod::lemma_mod_decreases(sig as nat, k as nat);
        lemma_representable(w, sig % k, exp)
    }
}

/// A larger integer is no smaller number, and one of at least one is at
/// least one.
pub proof fn lemma_from_u64_order(m: u64, n: u64)
    requires
        m <= n,
    ensures
        F32::from_u64(m).le(F32::from_u64(n)),
        n >= 1 ==> F32::of(ONE).le(F32::from_u64(n)),
{
    let w: Width = Width::Single;
    rounding::lemma_step(w);
    lemma_pow2_pos(149);
    lemma_one();
    rounding::lemma_encode_exact(w, 0x3f80_0000);
    vstd::arithmetic::mul::lemma_mul_nonnegative(m as int, scale());
    vstd::arithmetic::mul::lemma_mul_nonnegative(n as int, scale());
    vstd::arithmetic::mul::lemma_mul_inequality(m as int, n as int, scale());
    rounding::lemma_encode_monotone(w, m * scale(), 1, n * scale(), 1);
    rounding::lemma_encode_range(w, m * scale(), 1);
    rounding::lemma_encode_range(w, n * scale(), 1);
    if n >= 1 {
        vstd::arithmetic::mul::lemma_mul_inequality(1, n as int, scale());
        rounding::lemma_encode_monotone(w, scale(), 1, n * scale(), 1);
    }
    reveal(F32::spec_from_u64);
    reveal(F32::spec_le);
    reveal(F32::spec_lt);
    reveal(F32::spec_same);
}

/// A number between zero and one and what is left of one, rounded, are
/// together no more than half a step beyond one.
pub proof fn lemma_complement(x: F32)
    requires
        x.is_finite(),
        0 <= value(x) <= scale(),
    ensures
        ({
            let rest: F32 = F32::of(ONE).minus(x);
            &&& rest.is_finite()
            &&& 0 <= value(rest)
            &&& value(rest) + value(x) <= scale() + pow2(125)
        }),
{
    let w: Width = Width::Single;
    let one: F32 = F32::of(ONE);
    let zero: F32 = F32::of(0);
    let h: int = pow2(125) as int;
    lemma_zero_one();
    lemma_pow2_pos(125);
    lemma_pow2_adds(24, 125);
    lemma2_to64();
    rounding::lemma_step(w);
    // the next multiple of half a step is a number
    let left: int = scale() - value(x);
    let j: int = (left + h - 1) / h;
    vstd::arithmetic::div_mod::lemma_fundamental_div_mod(left + h - 1, h);
    vstd::arithmetic::div_mod::lemma_mod_bound(left + h - 1, h);
    let rem: int = (left + h - 1) % h;
    assert(left <= j * h < left + h && 0 <= j <= 0x100_0000) by (nonlinear_arith)
        requires
            left + h - 1 == h * j + rem,
            0 <= rem < h,
            0 <= left <= 0x100_0000 * h,
            h > 0,
    ;
    let hi: F32 = if j == 0x100_0000 {
        one
    } else {
        let code: int = lemma_representable(w, j, 125);
        F32::of(code as u32)
    };
    assert(hi.is_finite() && value(hi) == j * h) by {
        reveal(F32::spec_is_finite);
    }
    lemma_minus_between(one, x, zero, hi);
    lemma_value_order(one.minus(x), hi);
    lemma_value_order(zero, one.minus(x));
}

/// A larger summand makes no smaller sum.
#[verifier::rlimit(40)]
pub proof fn lemma_plus_monotone(x: F32, y: F32, z: F32)
    requires
        x.is_finite(),
        y.is_finite(),
        z.is_finite(),
        value(x) <= value(y),
    ensures
        x.plus(z).le(y.plus(z)),
{
    let w: Width = Width::Single;
    let a: int = value(x) + value(z);
    let b: int = value(y) + value(z);
    rounding::lemma_step(w);
    reveal(F32::spec_plus);
    reveal(F32::spec_is_finite);
    reveal(F32::spec_le);
    reveal(F32::spec_lt);
    reveal(F32::spec_same);
    if a > 0 {
        rounding::lemma_encode_range(w, a, 1);
    } else {
        rounding::lemma_encode_range(w, -a, 1);
    }
    if b > 0 {
        rounding::lemma_encode_range(w, b, 1);
    } else {
        rounding::lemma_encode_range(w, -b, 1);
    }
    if a > 0 && b > 0 {
        rounding::lemma_encode_monotone(w, a, 1, b, 1);
    } else if a < 0 && b < 0 {
        rounding::lemma_encode_monotone(w, -b, 1, -a, 1);
    }
}

/// The value of a sum whose exact value is `total` units.
spec fn sum_value(total: int) -> int {
    let w: Width = Width::Single;
    if total == 0 {
        0
    } else if total > 0 {
        rounding::units(w, rounding::encode(w, total, 1))
    } else {
        -rounding::units(w, rounding::encode(w, -total, 1))
    }
}

/// Whether a sum whose exact value is `total` units is finite.
spec fn sum_finite(total: int) -> bool {
    let w: Width = Width::Single;
    if total >= 0 {
        rounding::encode(w, total, 1) < w.infinity()
    } else {
        rounding::encode(w, -total, 1) < w.infinity()
    }
}

/// A sum depends on its exact value alone, but for the sign of a zero.
#[verifier::rlimit(30)]
proof fn lemma_sum_value(x: F32, y: F32)
    requires
        x.is_finite(),
        y.is_finite(),
    ensures
        x.plus(y).is_finite() <==> sum_finite(value(x) + value(y)),
        x.plus(y).is_finite() ==> value(x.plus(y)) == sum_value(value(x) + value(y)),
{
    let w: Width = Width::Single;
    let total: int = value(x) + value(y);
    rounding::lemma_step(w);
    reveal(F32::spec_plus);
    reveal(F32::spec_is_finite);
    if total > 0 {
        rounding::lemma_encode_range(w, total, 1);
    } else if total < 0 {
        rounding::lemma_encode_range(w, -total, 1);
    } else {
        rounding::lemma_encode_exact(w, 0);
    }
}

/// Two differences of opposite exact values are opposite.
pub proof fn lemma_minus_opposed(x: F32, y: F32, a: F32, b: F32)
    requires
        x.is_finite(),
        y.is_finite(),
        a.is_finite(),
        b.is_finite(),
        value(x) - value(y) == -(value(a) - value(b)),
        x.minus(y).is_finite(),
    ensures
        a.minus(b).is_finite(),
        value(x.minus(y)) == -value(a.minus(b)),
{
    reveal(F32::spec_minus);
    lemma_negated(y);
    lemma_negated(b);
    lemma_sum_value(x, y.negated());
    lemma_sum_value(a, b.negated());
}

} // verus!
