//! How times become samples: a beat is a minute over the tempo, and a time
//! is the nearest whole number of samples.
use crate::accuracy;
use crate::accuracy::{gap, size, PARTS};
use crate::arith::Parts;
use crate::bake;
use crate::float::{F32, F64};
use crate::mixdown;
use crate::mixdown::SIXTY;
use crate::numbers;
use crate::numbers::{scale, value};
use crate::rounding;
use crate::rounding::Width;
use crate::wav::MAX_WAV_SAMPLES;
use vstd::arithmetic::div_mod::*;
use vstd::arithmetic::mul::*;
use vstd::arithmetic::power2::*;
use vstd::prelude::*;

verus! {

/// Twice the steps of a binade of the 64-bit format.
pub const WIDE_PARTS: u64 = 0x20_0000_0000_0000;

/// A finite 64-bit number, counted in units of `2^-1074`.
spec fn wide(x: F64) -> int {
    x.parts().value(Width::Double)
}

/// The units of one in the 64-bit format.
spec fn wide_scale() -> int {
    pow2(1074) as int
}

/// A finite 64-bit number that is not negative.
spec fn counts(x: F64) -> bool {
    x.parts().is_finite(Width::Double) && !x.parts().neg
}

/// A number that is not too large is not rounded to infinity.
proof fn lemma_encode_finite(num: int, den: int, e: nat)
    requires
        den > 0,
        num >= 0,
        num <= den * pow2(e),
        e <= 2000,
    ensures
        0 <= rounding::encode(Width::Double, num, den) < Width::Double.infinity(),
{
    let w: Width = Width::Double;
    rounding::lemma_step(w);
    let code: int = numbers::lemma_representable(w, 1, e);
    lemma_mul_basics_3(pow2(e) as int);
    assert(rounding::units(w, code) == pow2(e));
    rounding::lemma_encode_exact(w, code);
    lemma_mul_is_commutative(den, pow2(e) as int);
    lemma_mul_basics_3(num);
    rounding::lemma_encode_monotone(w, num, den, pow2(e) as int, 1);
    rounding::lemma_encode_range(w, num, den);
}

/// A finite number of the 32-bit format is less than `2^128`.
proof fn lemma_value_bounded(x: F32)
    requires
        x.is_finite(),
    ensures
        -pow2(277) <= value(x) <= pow2(277),
{
    reveal(F32::spec_is_finite);
    let w: Width = Width::Single;
    let code: int = x.parts().code as int;
    rounding::lemma_step(w);
    rounding::lemma_units_parts(w, code);
    rounding::lemma_encode_exact(w, code);
    lemma_pow2_adds(24, 253);
    lemma2_to64();
    lemma_pow2_pos(253);
    let p253: int = pow2(253) as int;
    if code < w.step() {
        assert(0x100_0000 * p253 >= 0x100_0000) by (nonlinear_arith)
            requires
                p253 >= 1,
        ;
    } else {
        let field: int = code / w.step();
        let sig: int = w.step() + code % w.step();
        let p: int = pow2((field - 1) as nat) as int;
        rounding::lemma_pow2_increases((field - 1) as nat, 253);
        lemma_pow2_pos((field - 1) as nat);
        assert(sig * p <= 0x100_0000 * p253) by (nonlinear_arith)
            requires
                0 <= sig <= 0x100_0000,
                0 <= p <= p253,
        ;
    }
}

/// Widening is exact.
proof fn lemma_widened(x: F32)
    requires
        x.is_finite(),
        0 <= value(x),
        !x.parts().neg,
    ensures
        counts(x.widen()),
        wide(x.widen()) == value(x) * pow2(925),
{
    reveal(F32::spec_is_finite);
    reveal(F32::spec_widen);
    let s: Width = Width::Single;
    let w: Width = Width::Double;
    let code: int = x.parts().code as int;
    rounding::lemma_step(s);
    rounding::lemma_step(w);
    rounding::lemma_units_parts(s, code);
    let (sig, exp): (int, nat) = if code < s.step() {
        (code, 0nat)
    } else {
        (s.step() + code % s.step(), (code / s.step() - 1) as nat)
    };
    lemma2_to64();
    lemma_mul_basics_3(sig);
    assert(value(x) == sig * pow2(exp));
    lemma_pow2_adds(exp, 925);
    let c: int = numbers::lemma_representable(w, sig, exp + 925);
    assert(sig * pow2(exp + 925) == value(x) * pow2(925)) by (nonlinear_arith)
        requires
            pow2(exp + 925) == pow2(exp) * pow2(925),
            value(x) == sig * pow2(exp),
    ;
    rounding::lemma_encode_exact(w, c);
}

/// A product of two 64-bit numbers that are not negative, nor too large.
proof fn lemma_wide_product(x: F64, y: F64, a: nat, b: nat)
    requires
        counts(x),
        counts(y),
        wide(x) <= pow2(a),
        wide(y) <= pow2(b),
        1074 <= a + b <= 3074,
    ensures
        ({
            let p: F64 = x.times(y);
            let e: int = gap(wide(p) * wide_scale(), wide(x) * wide(y));
            &&& counts(p)
            &&& 0 <= wide(p)
            &&& wide(p) <= pow2((a + b - 1074) as nat)
            &&& WIDE_PARTS * e <= wide(x) * wide(y) || 2 * e <= wide_scale()
        }),
{
    reveal(F64::spec_times);
    let w: Width = Width::Double;
    rounding::lemma_step(w);
    let p: F64 = x.times(y);
    let u: int = wide_scale();
    lemma_pow2_pos(1074);
    rounding::lemma_encode_exact(w, x.parts().code as int);
    rounding::lemma_encode_exact(w, y.parts().code as int);
    let n: int = wide(x) * wide(y);
    lemma_mul_nonnegative(wide(x), wide(y));
    lemma_mul_upper_bound(wide(x), pow2(a) as int, wide(y), pow2(b) as int);
    let e: nat = (a + b - 1074) as nat;
    lemma_pow2_adds(a, b);
    lemma_pow2_adds(1074, e);
    lemma_encode_finite(n, u, e);
    accuracy::lemma_encode_error(w, n, u);
    let code: int = rounding::encode(w, n, u);
    // No more than the power that bounds the exact product.
    let top: int = numbers::lemma_representable(w, 1, e);
    lemma_mul_basics_3(pow2(e) as int);
    rounding::lemma_encode_exact(w, top);
    lemma_mul_is_commutative(u, pow2(e) as int);
    lemma_mul_basics_3(n);
    rounding::lemma_encode_monotone(w, n, u, pow2(e) as int, 1);
    if code < top {
        rounding::lemma_units_order(w, code, top);
    }
    rounding::lemma_encode_exact(w, code);
}

/// The integer that is nearest to a 64-bit number, a half upwards.
spec fn rounded_up(x: F64) -> int {
    let whole: int = wide(x) / wide_scale();
    if 2 * (wide(x) % wide_scale()) >= wide_scale() {
        whole + 1
    } else {
        whole
    }
}

/// What rounding yields, as far as integers are exact.
proof fn lemma_rounds(x: F64)
    requires
        counts(x),
    ensures
        2 * gap(rounded_up(x) * wide_scale(), wide(x)) <= wide_scale(),
        rounded_up(x) >= 0,
        rounded_up(x) < WIDE_PARTS ==> x.round().to_u64() == rounded_up(x),
        forall|m: u64|
            m < WIDE_PARTS && m <= rounded_up(x) ==> (#[trigger] F64::from_u64(m)).le(x.round()),
{
    let w: Width = Width::Double;
    let u: int = wide_scale();
    let v: int = wide(x);
    let n: int = rounded_up(x);
    rounding::lemma_step(w);
    lemma_pow2_pos(1074);
    rounding::lemma_encode_exact(w, x.parts().code as int);
    lemma_fundamental_div_mod(v, u);
    lemma_mul_is_commutative(u, v / u);
    lemma_div_pos_is_pos(v, u);
    assert((v / u + 1) * u == (v / u) * u + u) by (nonlinear_arith);
    reveal(F64::spec_round);
    let r: F64 = x.round();
    lemma_mul_nonnegative(n, u);
    rounding::lemma_encode_range(w, n * u, 1);
    let code: int = rounding::encode(w, n * u, 1);
    assert(r.parts().code == code && !r.parts().neg);
    if n < WIDE_PARTS {
        numbers::lemma_small_integer(w, n);
        assert(r.parts().size(w) == n * u);
        reveal(F64::spec_to_u64);
        lemma_mul_is_commutative(n, u);
        lemma_fundamental_div_mod_converse(n * u, u, n, 0);
    }
    assert forall|m: u64| m < WIDE_PARTS && m <= n implies (#[trigger] F64::from_u64(m)).le(r) by {
        reveal(F64::spec_from_u64);
        reveal(F64::spec_le);
        reveal(F64::spec_lt);
        reveal(F64::spec_same);
        lemma_mul_nonnegative(m as int, u);
        lemma_mul_inequality(m as int, n, u);
        lemma_mul_basics_3(m * u);
        lemma_mul_basics_3(n * u);
        rounding::lemma_encode_range(w, m * u, 1);
        rounding::lemma_encode_monotone(w, m * u, 1, n * u, 1);
    }
}

/// An integer as a 64-bit number.
proof fn lemma_wide_integer(n: u64)
    requires
        n < 0x1_0000_0000,
    ensures
        counts(F64::from_u64(n)),
        wide(F64::from_u64(n)) == n * wide_scale(),
        wide(F64::from_u64(n)) <= pow2(1106),
{
    reveal(F64::spec_from_u64);
    let w: Width = Width::Double;
    rounding::lemma_step(w);
    numbers::lemma_small_integer(w, n as int);
    lemma_pow2_pos(1074);
    lemma_pow2_adds(32, 1074);
    lemma2_to64();
    lemma_mul_inequality(n as int, 0x1_0000_0000, wide_scale());
    lemma_mul_nonnegative(n as int, wide_scale());
    rounding::lemma_encode_range(w, n * wide_scale(), 1);
}

/// A count of samples is the whole number nearest to a time, given as a
/// numerator over a denominator, up to what 64-bit numbers round away.
pub open spec fn nearest_count(count: int, num: int, den: int) -> bool {
    0x2_0000_0000_0000 * (2 * gap(count * den, num) - den) <= num + den
}

/// The distance of two multiples.
proof fn lemma_gap_times(a: int, b: int, k: int)
    requires
        k > 0,
    ensures
        gap(a * k, b * k) == gap(a, b) * k,
{
    assert((a - b) * k == a * k - b * k) by (nonlinear_arith);
    assert((b - a) * k == b * k - a * k) by (nonlinear_arith);
    if a < b {
        lemma_mul_strict_inequality(a, b, k);
    } else {
        lemma_mul_inequality(b, a, k);
    }
}

/// Two rounded products and a rounding to an integer are together off by a
/// half and little more.
proof fn lemma_chain(m: int, r: int, p: int, v: int, n: int, u: int)
    requires
        u > 0,
        m >= 0,
        p >= 0,
        0 <= r,
        4 * WIDE_PARTS * r <= u,
        WIDE_PARTS * gap(p * u, m) <= m || 2 * gap(p * u, m) <= u,
        WIDE_PARTS * gap(v, p * r) <= p * r,
        2 * gap(n * u, v) <= u,
    ensures
        WIDE_PARTS * (2 * gap((n * u) * u, m * r) - u * u) <= 6 * (m * r) + u * u,
{
    let t: int = WIDE_PARTS as int;
    let e1: int = p * u - m;
    let e2: int = v - p * r;
    let e3: int = n * u - v;
    let uu: int = u * u;
    let mr: int = m * r;
    assert((n * u) * u - mr == e3 * u + e2 * u + e1 * r) by (nonlinear_arith)
        requires
            e1 == p * u - m,
            e2 == v - p * r,
            e3 == n * u - v,
            mr == m * r,
    ;
    assert(-uu <= 2 * (e3 * u) <= uu) by (nonlinear_arith)
        requires
            -u <= 2 * e3 <= u,
            u > 0,
            uu == u * u,
    ;
    // The first product is at most twice the exact one and a unit.
    assert(-(m + t * u) <= t * e1 <= m + t * u);
    assert(p * u <= 2 * m + u) by {
        assert(t * e1 <= m + t * u);
    }
    let pr: int = p * r;
    assert(pr * u <= 2 * mr + r * u) by (nonlinear_arith)
        requires
            p * u <= 2 * m + u,
            pr == p * r,
            mr == m * r,
            r >= 0,
    ;
    assert(-(pr * u) <= t * (e2 * u) <= pr * u) by (nonlinear_arith)
        requires
            -pr <= t * e2 <= pr,
            u > 0,
    ;
    assert(-(mr + t * (u * r)) <= t * (e1 * r) <= mr + t * (u * r)) by (nonlinear_arith)
        requires
            -(m + t * u) <= t * e1 <= m + t * u,
            mr == m * r,
            r >= 0,
    ;
    assert(4 * (t * (u * r)) <= uu) by (nonlinear_arith)
        requires
            4 * t * r <= u,
            u > 0,
            uu == u * u,
    ;
    assert(r * u == u * r && u * r >= 0) by (nonlinear_arith)
        requires
            u > 0,
            r >= 0,
    ;
    assert(t * (2 * (e3 * u)) <= t * uu && -(t * uu) <= t * (2 * (e3 * u))) by (nonlinear_arith)
        requires
            -uu <= 2 * (e3 * u) <= uu,
            t > 0,
    ;
    let d: int = (n * u) * u - mr;
    assert(t * (2 * d) == t * (2 * (e3 * u)) + 2 * (t * (e2 * u)) + 2 * (t * (e1 * r)))
        by (nonlinear_arith)
        requires
            d == e3 * u + e2 * u + e1 * r,
    ;
    assert(t * (2 * gap((n * u) * u, mr) - uu) == t * (2 * gap((n * u) * u, mr)) - t * uu)
        by (nonlinear_arith);
    assert(t * (2 * -d) == -(t * (2 * d))) by (nonlinear_arith);
}

/// What a product of two times and a sample rate is rounded to.
proof fn lemma_nearest(x: F64, y: F64, rate: u32, a: int, b: int)
    requires
        counts(x),
        counts(y),
        wide(x) == a * pow2(925),
        wide(y) == b * pow2(925),
        0 <= a <= pow2(277),
        0 <= b <= pow2(277),
    ensures
        ({
            let t: F64 = x.times(y).times(F64::from_u64(rate as u64));
            &&& counts(t)
            &&& nearest_count(rounded_up(t), (a * b) * rate, scale() * scale())
        }),
{
    let k: int = pow2(925) as int;
    let u: int = wide_scale();
    let s: int = scale();
    lemma_pow2_pos(925);
    lemma_pow2_pos(149);
    lemma_pow2_pos(1074);
    lemma_pow2_adds(277, 925);
    lemma_pow2_adds(149, 925);
    lemma_mul_inequality(a, pow2(277) as int, k);
    lemma_mul_inequality(b, pow2(277) as int, k);
    lemma_mul_nonnegative(a, k);
    lemma_mul_nonnegative(b, k);
    lemma_wide_product(x, y, 1202, 1202);
    let p: F64 = x.times(y);
    let f: F64 = F64::from_u64(rate as u64);
    lemma_wide_integer(rate as u64);
    lemma_wide_product(p, f, 1330, 1106);
    let t: F64 = p.times(f);
    lemma_rounds(t);
    let m: int = wide(x) * wide(y);
    let r: int = rate as int;
    let v: int = wide(t);
    let n: int = rounded_up(t);
    let pv: int = wide(p);
    assert(pv * (r * u) == (pv * r) * u) by (nonlinear_arith);
    lemma_gap_times(v, pv * r, u);
    let g: int = gap(v, pv * r);
    lemma_mul_nonnegative(pv, r);
    if WIDE_PARTS * (g * u) <= (pv * r) * u {
        assert(WIDE_PARTS * g <= pv * r) by (nonlinear_arith)
            requires
                WIDE_PARTS * (g * u) <= (pv * r) * u,
                u > 0,
        ;
    } else {
        assert(g == 0) by (nonlinear_arith)
            requires
                2 * (g * u) <= u,
                u > 0,
                g >= 0,
        ;
    }
    lemma_mul_nonnegative(wide(x), wide(y));
    assert(4 * WIDE_PARTS * r <= u) by {
        lemma2_to64();
        lemma2_to64_rest();
        lemma_pow2_adds(55, 32);
        lemma_pow2_adds(64, 1010);
        lemma_pow2_adds(32, 32);
        rounding::lemma_pow2_increases(87, 1074);
        assert(4 * WIDE_PARTS == pow2(55));
        assert(pow2(55) * r <= pow2(55) * pow2(32)) by (nonlinear_arith)
            requires
                r <= pow2(32),
                pow2(55) >= 0,
        ;
    }
    lemma_chain(m, r, pv, v, n, u);
    let kk: int = k * k;
    let num: int = (a * b) * r;
    let den: int = s * s;
    assert(m * r == num * kk) by (nonlinear_arith)
        requires
            m == (a * k) * (b * k),
            num == (a * b) * r,
            kk == k * k,
    ;
    assert(u * u == den * kk) by (nonlinear_arith)
        requires
            u == s * k,
            den == s * s,
            kk == k * k,
    ;
    assert((n * u) * u == (n * den) * kk) by (nonlinear_arith)
        requires
            u * u == den * kk,
    ;
    lemma_mul_strictly_positive(k, k);
    lemma_gap_times(n * den, num, kk);
    let h: int = gap(n * den, num);
    assert(WIDE_PARTS * (2 * h - den) <= 6 * num + den) by (nonlinear_arith)
        requires
            WIDE_PARTS * (2 * (h * kk) - den * kk) <= 6 * (num * kk) + den * kk,
            kk > 0,
    ;
    lemma_mul_nonnegative(a, b);
    lemma_mul_nonnegative(a * b, r);
    lemma_mul_strictly_positive(s, s);
}

/// A positive number of the 32-bit format.
proof fn lemma_positive(x: F32)
    requires
        x.is_finite(),
        F32::of(0).lt(x),
    ensures
        0 < value(x) <= pow2(277),
        !x.parts().neg,
        counts(x.widen()),
        wide(x.widen()) == value(x) * pow2(925),
{
    numbers::lemma_zero_one();
    numbers::lemma_value_order(F32::of(0), x);
    lemma_value_bounded(x);
    assert(!x.parts().neg) by {
        reveal(F32::spec_lt);
    }
    lemma_widened(x);
}

/// A duration in beats is the nearest whole number of samples: beats times
/// the seconds of a beat times the sample rate.  It is cut short only where
/// it is longer than a blob can hold, and there is none where the beats or
/// the seconds are not positive.
pub proof fn law_durations_are_the_nearest_samples(beats: F32, beat_secs: F32, sample_rate: u32)
    requires
        beats.is_finite(),
        beat_secs.is_finite(),
    ensures
        ({
            let n: int = mixdown::duration_to_samples(beats, beat_secs, sample_rate) as int;
            let num: int = (value(beats) * value(beat_secs)) * sample_rate;
            let den: int = scale() * scale();
            &&& beats.le(F32::of(0)) || beat_secs.le(F32::of(0)) ==> n == 0
            &&& F32::of(0).lt(beats) && F32::of(0).lt(beat_secs) && n < MAX_WAV_SAMPLES
                ==> nearest_count(n, num, den)
            &&& F32::of(0).lt(beats) && F32::of(0).lt(beat_secs) && n >= MAX_WAV_SAMPLES ==> exists|
                m: int,
            |
                m >= n && #[trigger] nearest_count(m, num, den)
        }),
{
    let zero: F32 = F32::of(0);
    if zero.lt(beats) && zero.lt(beat_secs) {
        lemma_not_below(zero, beats);
        lemma_not_below(zero, beat_secs);
        lemma_positive(beats);
        lemma_positive(beat_secs);
        lemma_nearest(
            beats.widen(),
            beat_secs.widen(),
            sample_rate,
            value(beats),
            value(beat_secs),
        );
        let t: F64 = beats.widen().times(beat_secs.widen()).times(
            F64::from_u64(sample_rate as u64),
        );
        lemma_capped(t);
        assert(nearest_count(
            rounded_up(t),
            (value(beats) * value(beat_secs)) * sample_rate,
            scale() * scale(),
        ));
    }
}

/// What is below a number is not at least it.
proof fn lemma_not_below(a: F32, b: F32)
    requires
        a.lt(b),
    ensures
        !b.le(a),
{
    reveal(F32::spec_le);
    reveal(F32::spec_lt);
    reveal(F32::spec_same);
}

/// A rounded count, cut at what a blob can hold.
proof fn lemma_capped(t: F64)
    requires
        counts(t),
    ensures
        ({
            let r: F64 = t.round();
            let n: int = rounded_up(t);
            let cap: F64 = F64::from_usize(MAX_WAV_SAMPLES);
            &&& cap.le(r) ==> n >= MAX_WAV_SAMPLES
            &&& !cap.le(r) ==> n < MAX_WAV_SAMPLES && r.to_u64() == n && r.to_usize() == n
        }),
{
    lemma_rounds(t);
    let r: F64 = t.round();
    let n: int = rounded_up(t);
    let most: u64 = MAX_WAV_SAMPLES as u64;
    assert(F64::from_usize(MAX_WAV_SAMPLES) == F64::from_u64(most)) by {
        reveal(F64::spec_from_usize);
    }
    if F64::from_u64(most).le(r) {
        numbers::lemma_above_integer(r, most);
    } else {
        reveal(F64::spec_to_usize);
    }
}

/// A time in beats is the nearest whole number of samples, as long as the
/// number is exact and an index.
pub proof fn law_places_are_the_nearest_samples(beats: F32, beat_secs: F32, sample_rate: u32)
    requires
        beats.is_finite(),
        beat_secs.is_finite(),
        F32::of(0).lt(beats),
        F32::of(0).lt(beat_secs),
    ensures
        ({
            let n: int = mixdown::samples_at(beats, beat_secs, sample_rate).to_usize() as int;
            n < usize::MAX && n < WIDE_PARTS - 1 ==> nearest_count(
                n,
                (value(beats) * value(beat_secs)) * sample_rate,
                scale() * scale(),
            )
        }),
{
    lemma_positive(beats);
    lemma_positive(beat_secs);
    lemma_nearest(beats.widen(), beat_secs.widen(), sample_rate, value(beats), value(beat_secs));
    let t: F64 = beats.widen().times(beat_secs.widen()).times(F64::from_u64(sample_rate as u64));
    lemma_rounds(t);
    let r: F64 = t.round();
    assert(r == mixdown::samples_at(beats, beat_secs, sample_rate));
    reveal(F64::spec_to_usize);
    let last: u64 = (WIDE_PARTS - 1) as u64;
    if rounded_up(t) >= WIDE_PARTS {
        assert(F64::from_u64(last).le(r));
        numbers::lemma_above_integer(r, last);
    }
}

/// A place at or before the start is the start.
pub proof fn law_places_before_the_start_are_the_start(
    beats: F32,
    beat_secs: F32,
    sample_rate: u32,
)
    requires
        beats.is_finite(),
        value(beats) == 0,
        beat_secs.is_finite(),
        F32::of(0).le(beat_secs),
    ensures
        mixdown::samples_at(beats, beat_secs, sample_rate).to_usize() == 0,
{
    reveal(F64::spec_times);
    reveal(F64::spec_round);
    reveal(F64::spec_to_usize);
    reveal(F64::spec_to_u64);
    reveal(F32::spec_widen);
    reveal(F32::spec_is_finite);
    reveal(F64::spec_from_u64);
    let w: Width = Width::Double;
    rounding::lemma_step(w);
    rounding::lemma_step(Width::Single);
    lemma_nothing();
    lemma_value_bounded(beat_secs);
    rounding::lemma_encode_exact(Width::Single, beats.parts().code as int);
    rounding::lemma_encode_exact(Width::Single, 0);
    assert(beats.parts().code == 0);
    let a: Parts = beats.widen().parts();
    let b: Parts = beat_secs.widen().parts();
    let c: Parts = F64::from_u64(sample_rate as u64).parts();
    lemma_wide_integer(sample_rate as u64);
    lemma_mul_basics_1(pow2(925) as int);
    assert(a.code == 0);
    assert(b.is_finite(w)) by {
        let v: int = beat_secs.parts().size(Width::Single);
        let k: int = pow2(925) as int;
        rounding::lemma_encode_exact(Width::Single, beat_secs.parts().code as int);
        lemma_pow2_pos(925);
        lemma_pow2_adds(277, 925);
        lemma_mul_nonnegative(v, k);
        lemma_mul_inequality(v, pow2(277) as int, k);
        lemma_mul_basics_3(pow2(1202) as int);
        lemma_encode_finite(v * k, 1, 1202);
    }
    lemma_mul_basics_1(b.size(w));
    let p: Parts = beats.widen().times(beat_secs.widen()).parts();
    assert(p.code == 0);
    lemma_mul_basics_1(c.size(w));
    let t: F64 = beats.widen().times(beat_secs.widen()).times(F64::from_u64(sample_rate as u64));
    assert(t.parts().code == 0);
    lemma_pow2_pos(1074);
    lemma_small_mod(0, pow2(1074));
    lemma_div_basics_1(pow2(1074) as int);
    lemma_mul_basics_1(pow2(1074) as int);
    assert(t.round().parts().code == 0);
}

/// Nothing is rounded to nothing.
proof fn lemma_nothing()
    ensures
        rounding::encode(Width::Double, 0, 1) == 0,
        rounding::encode(Width::Double, 0, pow2(1074) as int) == 0,
        rounding::units(Width::Double, 0) == 0,
        rounding::units(Width::Single, 0) == 0,
{
    let w: Width = Width::Double;
    rounding::lemma_step(w);
    rounding::lemma_encode_exact(w, 0);
    lemma_pow2_pos(1074);
    lemma_mul_basics_1(1);
    lemma_mul_basics_1(pow2(1074) as int);
    rounding::lemma_encode_ratio(w, 0, pow2(1074) as int, 0, 1);
}

/// A duration in seconds is the nearest whole number of samples.
pub proof fn law_seconds_are_the_nearest_samples(sample_rate: u32, duration_secs: F32)
    requires
        duration_secs.is_finite(),
    ensures
        ({
            let n: int = bake::duration_samples(sample_rate, duration_secs) as int;
            let num: int = value(duration_secs) * sample_rate;
            let den: int = scale();
            &&& duration_secs.le(F32::of(0)) ==> n == 0
            &&& F32::of(0).lt(duration_secs) && n < MAX_WAV_SAMPLES ==> nearest_count(n, num, den)
            &&& F32::of(0).lt(duration_secs) && n >= MAX_WAV_SAMPLES ==> exists|m: int|
                m >= n && #[trigger] nearest_count(m, num, den)
        }),
{
    let zero: F32 = F32::of(0);
    if zero.lt(duration_secs) {
        lemma_not_below(zero, duration_secs);
        lemma_positive(duration_secs);
        let x: F64 = duration_secs.widen();
        let a: int = value(duration_secs);
        let k: int = pow2(925) as int;
        let u: int = wide_scale();
        let s: int = scale();
        let r: int = sample_rate as int;
        lemma_pow2_pos(925);
        lemma_pow2_pos(149);
        lemma_pow2_pos(1074);
        lemma_pow2_adds(277, 925);
        lemma_pow2_adds(149, 925);
        lemma_mul_inequality(a, pow2(277) as int, k);
        let f: F64 = F64::from_u64(sample_rate as u64);
        lemma_wide_integer(sample_rate as u64);
        lemma_wide_product(x, f, 1202, 1106);
        let t: F64 = x.times(f);
        let v: int = wide(t);
        let w: int = wide(x);
        assert(w * (r * u) == (w * r) * u) by (nonlinear_arith);
        lemma_gap_times(v, w * r, u);
        let g: int = gap(v, w * r);
        lemma_mul_nonnegative(a, k);
        lemma_mul_nonnegative(w, r);
        if WIDE_PARTS * (g * u) <= (w * r) * u {
            assert(WIDE_PARTS * g <= w * r) by (nonlinear_arith)
                requires
                    WIDE_PARTS * (g * u) <= (w * r) * u,
                    u > 0,
            ;
        } else {
            assert(g == 0) by (nonlinear_arith)
                requires
                    2 * (g * u) <= u,
                    u > 0,
                    g >= 0,
            ;
        }
        lemma_rounds(t);
        lemma_capped(t);
        let n: int = rounded_up(t);
        let num: int = a * r;
        assert(w * r == num * k) by (nonlinear_arith)
            requires
                w == a * k,
                num == a * r,
        ;
        assert(n * u == (n * s) * k) by (nonlinear_arith)
            requires
                u == s * k,
        ;
        lemma_gap_times(n * s, num, k);
        let h: int = gap(n * s, num);
        assert(2 * (h * k) <= s * k + 2 * g);
        assert(WIDE_PARTS * (2 * h - s) <= 2 * num) by (nonlinear_arith)
            requires
                2 * (h * k) <= s * k + 2 * g,
                WIDE_PARTS * g <= num * k,
                k > 0,
        ;
        assert(nearest_count(n, num, s)) by {
            lemma_mul_nonnegative(a, r);
        }
    }
}

/// The seconds of a beat times the tempo is a minute, up to rounding; there
/// are none where the tempo is not positive.
pub proof fn law_beats_divide_the_minute(bpm: F32)
    requires
        bpm.is_finite(),
    ensures
        bpm.le(F32::of(0)) ==> mixdown::beat_seconds(bpm) == F32::of(0),
        F32::of(0).lt(bpm) && mixdown::beat_seconds(bpm).is_finite() ==> ({
            let e: int = gap(
                value(mixdown::beat_seconds(bpm)) * value(bpm),
                60 * (scale() * scale()),
            );
            PARTS * e <= 60 * (scale() * scale()) || 2 * e <= value(bpm)
        }),
{
    if F32::of(0).lt(bpm) && mixdown::beat_seconds(bpm).is_finite() {
        lemma_not_below(F32::of(0), bpm);
        numbers::lemma_zero_one();
        numbers::lemma_value_order(F32::of(0), bpm);
        numbers::lemma_value_of(SIXTY, 0xf0_0000, 131);
        lemma_pow2_adds(18, 131);
        lemma2_to64();
        let s: int = scale();
        let m: int = value(F32::of(SIXTY));
        assert(m == 60 * s) by (nonlinear_arith)
            requires
                m == 0xf0_0000 * pow2(131),
                s == 0x4_0000 * pow2(131),
        ;
        assert(m * s == 60 * (s * s)) by (nonlinear_arith)
            requires
                m == 60 * s,
        ;
        assert(s * s >= 0) by (nonlinear_arith);
        accuracy::law_quotients_are_accurate(F32::of(SIXTY), bpm);
    }
}

/// A whole number is how often a length holds a step: no step more fits into
/// it, up to what 64-bit numbers round away.
pub open spec fn fits_times(count: int, step: int, length: int) -> bool {
    &&& WIDE_PARTS * (count * step - length) <= length + WIDE_PARTS
    &&& WIDE_PARTS * (length - (count + 1) * step) <= length + WIDE_PARTS
}

/// Resampling makes as many samples of a buffer as its length holds steps of
/// the pitch, or as many as are asked for, where it holds that many.
pub proof fn law_resampling_counts_steps(len: usize, pitch: F32, max_out: usize)
    requires
        len < WIDE_PARTS,
        max_out < WIDE_PARTS,
        pitch.is_finite(),
        F32::of(0).lt(pitch),
    ensures
        ({
            let n: int = mixdown::resampled_len(len, pitch, max_out) as int;
            &&& n <= max_out
            &&& n < max_out ==> fits_times(n, value(pitch), len * scale())
            &&& n == max_out ==> exists|m: int|
                m >= n && #[trigger] fits_times(m, value(pitch), len * scale())
        }),
{
    let w: Width = Width::Double;
    let u: int = wide_scale();
    let k: int = pow2(925) as int;
    let s: int = scale();
    let v: int = value(pitch);
    let x: F64 = F64::from_usize(len);
    let y: F64 = pitch.widen();
    lemma_pow2_pos(1074);
    lemma_pow2_pos(925);
    lemma_pow2_pos(149);
    lemma_pow2_adds(149, 925);
    rounding::lemma_step(w);
    lemma_positive(pitch);
    lemma_wide_count(len as u64);
    reveal(F64::spec_from_usize);
    let a: int = len * u;
    let b: int = v * k;
    lemma_mul_strictly_positive(v, k);
    lemma_mul_nonnegative(len as int, u);
    assert(k <= b) by (nonlinear_arith)
        requires
            b == v * k,
            v >= 1,
            k > 0,
    ;
    let q: F64 = x.over(y);
    lemma_mul_inequality(len as int, WIDE_PARTS as int, u);
    lemma_wide_quotient(x, y);
    let n: int = wide(q) / u;
    lemma_floors(q, max_out as u64);
    lemma_div_pos_is_pos(wide(q), u);
    lemma_fundamental_div_mod(wide(q), u);
    lemma_mul_is_commutative(u, n);
    assert((n + 1) * u == n * u + u) by (nonlinear_arith);
    lemma_value_bounded(pitch);
    lemma_steps(n, wide(q), v, len as int, s, k);
    assert(fits_times(n, v, len * s));
    reveal(F64::spec_to_usize);
}

/// An integer as a 64-bit number, as far as it is exact.
proof fn lemma_wide_count(n: u64)
    requires
        n < WIDE_PARTS,
    ensures
        counts(F64::from_u64(n)),
        wide(F64::from_u64(n)) == n * wide_scale(),
{
    reveal(F64::spec_from_u64);
    let w: Width = Width::Double;
    rounding::lemma_step(w);
    numbers::lemma_small_integer(w, n as int);
    lemma_pow2_pos(1074);
    lemma_mul_nonnegative(n as int, wide_scale());
    rounding::lemma_encode_range(w, n * wide_scale(), 1);
}

/// A quotient of a count by a positive number that the 32-bit format has.
proof fn lemma_wide_quotient(x: F64, y: F64)
    requires
        counts(x),
        counts(y),
        wide(x) <= WIDE_PARTS * wide_scale(),
        wide(y) >= pow2(925),
    ensures
        counts(x.over(y)),
        0 <= wide(x.over(y)),
        ({
            let e: int = gap(wide(x.over(y)) * wide(y), wide(x) * wide_scale());
            WIDE_PARTS * e <= wide(x) * wide_scale() || 2 * e <= wide(y)
        }),
{
    let w: Width = Width::Double;
    let u: int = wide_scale();
    rounding::lemma_step(w);
    lemma_pow2_pos(1074);
    lemma_pow2_pos(925);
    rounding::lemma_encode_exact(w, x.parts().code as int);
    rounding::lemma_encode_exact(w, y.parts().code as int);
    let num: int = wide(x) * u;
    let den: int = wide(y);
    lemma_mul_nonnegative(wide(x), u);
    // The quotient is not too large.
    lemma2_to64();
    lemma2_to64_rest();
    lemma_pow2_adds(53, 1074);
    lemma_pow2_adds(1127, 1074);
    lemma_pow2_adds(1276, 925);
    lemma_mul_inequality(wide(x), WIDE_PARTS * u, u);
    assert(WIDE_PARTS * u == pow2(1127));
    assert(num <= pow2(2201));
    assert(pow2(2201) <= den * pow2(1276)) by (nonlinear_arith)
        requires
            pow2(2201) == pow2(1276) * pow2(925),
            den >= pow2(925),
            pow2(1276) >= 0,
    ;
    lemma_encode_finite(num, den, 1276);
    accuracy::lemma_encode_error(w, num, den);
    let code: int = rounding::encode(w, num, den);
    rounding::lemma_encode_exact(w, code);
    assert(y.parts().code != 0) by {
        if y.parts().code == 0 {
            assert(rounding::units(w, 0) == 0);
        }
    }
    assert(x.over(y).parts() == (Parts { neg: false, code: code as u64 })) by {
        reveal(F64::spec_over);
    }
}

/// What rounding down yields, as far as integers are exact, and when it
/// reaches a count.
proof fn lemma_floors(x: F64, m: u64)
    requires
        counts(x),
        m < WIDE_PARTS,
    ensures
        ({
            let n: int = wide(x) / wide_scale();
            &&& F64::from_u64(m).le(x.floor()) ==> n >= m
            &&& !F64::from_u64(m).le(x.floor()) ==> n < m && x.floor().to_u64() == n
        }),
{
    let w: Width = Width::Double;
    let u: int = wide_scale();
    let v: int = wide(x);
    let n: int = v / u;
    rounding::lemma_step(w);
    lemma_pow2_pos(1074);
    rounding::lemma_encode_exact(w, x.parts().code as int);
    lemma_div_pos_is_pos(v, u);
    lemma_mul_nonnegative(n, u);
    rounding::lemma_encode_range(w, n * u, 1);
    let r: F64 = x.floor();
    let code: int = rounding::encode(w, n * u, 1);
    assert(r.parts() == (Parts { neg: false, code: code as u64 })) by {
        reveal(F64::spec_floor);
    }
    if n < WIDE_PARTS {
        numbers::lemma_small_integer(w, n);
        assert(r.to_u64() == n) by {
            reveal(F64::spec_to_u64);
            lemma_mul_is_commutative(n, u);
            lemma_fundamental_div_mod_converse(n * u, u, n, 0);
        }
    }
    if F64::from_u64(m).le(r) {
        numbers::lemma_above_integer(r, m);
        if n < WIDE_PARTS {
            assert(n >= m);
        }
    } else if n >= m {
        lemma_mul_nonnegative(m as int, u);
        lemma_mul_inequality(m as int, n, u);
        lemma_mul_basics_3(m * u);
        lemma_mul_basics_3(n * u);
        rounding::lemma_encode_range(w, m * u, 1);
        rounding::lemma_encode_monotone(w, m * u, 1, n * u, 1);
        reveal(F64::spec_from_u64);
        reveal(F64::spec_le);
        reveal(F64::spec_lt);
        reveal(F64::spec_same);
        assert(false);
    }
}

/// The steps that a rounded quotient counts.
proof fn lemma_steps(n: int, q: int, v: int, len: int, s: int, k: int)
    requires
        s > 0,
        k > 0,
        n >= 0,
        len >= 0,
        0 < v <= pow2(277),
        k == pow2(925),
        n * (s * k) <= q < n * (s * k) + s * k,
        ({
            let e: int = gap(q * (v * k), (len * (s * k)) * (s * k));
            WIDE_PARTS * e <= (len * (s * k)) * (s * k) || 2 * e <= v * k
        }),
    ensures
        fits_times(n, v, len * s),
{
    let t: int = WIDE_PARTS as int;
    let u: int = s * k;
    let l: int = len * s;
    let e: int = q * (v * k) - (len * u) * u;
    lemma_mul_strictly_positive(s, k);
    lemma_mul_nonnegative(len, s);
    // Everything is a multiple of the square of the larger unit.
    assert((len * u) * u == (l * k) * u) by (nonlinear_arith)
        requires
            l == len * s,
            u == s * k,
    ;
    assert((l * k) * u == l * (k * u)) by (nonlinear_arith);
    let ku: int = k * u;
    lemma_mul_strictly_positive(k, u);
    let d: int = n * v - l;
    let c: int = l - (n + 1) * v;
    assert((n * v) * ku <= q * (v * k)) by (nonlinear_arith)
        requires
            n * u <= q,
            ku == k * u,
            v > 0,
            k > 0,
    ;
    assert(q * (v * k) <= ((n + 1) * v) * ku) by (nonlinear_arith)
        requires
            q <= n * u + u,
            ku == k * u,
            v > 0,
            k > 0,
    ;
    assert(d * ku <= e) by (nonlinear_arith)
        requires
            (n * v) * ku <= q * (v * k),
            e == q * (v * k) - l * ku,
            d == n * v - l,
    ;
    assert(c * ku <= -e) by (nonlinear_arith)
        requires
            q * (v * k) <= ((n + 1) * v) * ku,
            e == q * (v * k) - l * ku,
            c == l - (n + 1) * v,
    ;
    // The step is small beside the unit.
    assert(v * k <= ku) by {
        lemma_pow2_pos(925);
        rounding::lemma_pow2_increases(277, 925);
        assert(v <= k);
        assert(k <= u) by (nonlinear_arith)
            requires
                u == s * k,
                s > 0,
                k > 0,
        ;
        assert(v * k <= k * u) by (nonlinear_arith)
            requires
                v <= u,
                k > 0,
        ;
    }
    lemma_mul_nonnegative(l, ku);
    assert(-(l * ku + t * ku) <= t * e <= l * ku + t * ku);
    assert(t * d <= l + t) by (nonlinear_arith)
        requires
            t * e <= l * ku + t * ku,
            d * ku <= e,
            ku > 0,
            t > 0,
    ;
    assert(t * c <= l + t) by (nonlinear_arith)
        requires
            -(l * ku + t * ku) <= t * e,
            c * ku <= -e,
            ku > 0,
            t > 0,
    ;
}

} // verus!
