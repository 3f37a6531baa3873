//! Blends of two signals: the crossfade of a loop and the dry and wet mix of
//! the effects lead evenly from the one signal to the other, up to rounding.
use crate::accuracy;
use crate::accuracy::{gap, size, PARTS};
use crate::chorus::Chorus;
use crate::constants::ONE;
use crate::float::F32;
use crate::mixdown;
use crate::numbers;
use crate::numbers::{scale, value};
use crate::reverb::Reverb;
use crate::stability;
use vstd::arithmetic::mul::*;
use vstd::arithmetic::power2::*;
use vstd::prelude::*;

verus! {

/// Bits of `1024.0`.
pub const LOUD: u32 = 0x4480_0000;

/// A signal that is not out of all proportion: no larger than 1024.
pub open spec fn is_signal(x: F32) -> bool {
    x.is_finite() && size(value(x)) <= 1024 * scale()
}

/// A signal that is so far of the way from one signal to another, the way
/// counted in parts of one: their sum, the first weighed by what is left of
/// the way and the second by the way, up to rounding.
pub open spec fn blends(out: F32, from: F32, to: F32, way: int) -> bool {
    let exact: int = value(from) * (scale() - way) + value(to) * way;
    &&& out.is_finite()
    &&& PARTS * gap(value(out) * scale(), exact) <= 4 * ((size(value(from)) + size(value(to)))
        * scale()) + 4 * (PARTS * scale())
}

/// The loudest signal's value.
proof fn lemma_loud()
    ensures
        F32::of(LOUD).is_finite(),
        value(F32::of(LOUD)) == 1024 * scale(),
        F32::of(LOUD).negated().is_finite(),
        value(F32::of(LOUD).negated()) == -1024 * scale(),
        scale() >= 0x1_0000_0000,
{
    lemma2_to64();
    numbers::lemma_value_of(LOUD, 0x80_0000, 136);
    lemma_pow2_adds(23, 136);
    lemma_pow2_adds(10, 149);
    lemma_pow2_adds(32, 117);
    lemma_pow2_pos(117);
    numbers::lemma_negated(F32::of(LOUD));
    assert(0x1_0000_0000 * pow2(117) >= 0x1_0000_0000) by (nonlinear_arith)
        requires
            pow2(117) >= 1,
    ;
}

/// A signal weighed by a part of one.
proof fn lemma_weighed(x: F32, part: F32)
    requires
        is_signal(x),
        part.is_finite(),
        0 <= value(part) <= scale(),
    ensures
        is_signal(x.times(part)),
        PARTS * gap(value(x.times(part)) * scale(), value(x) * value(part)) <= size(value(x))
            * scale() + PARTS * scale(),
        size(value(x.times(part))) <= 2 * size(value(x)) + 1,
{
    lemma_loud();
    let s: int = scale();
    let a: int = value(x);
    let m: int = value(part);
    let loud: F32 = F32::of(LOUD);
    let z: int = size(a);
    assert(-(z * s) <= a * m <= z * s) by (nonlinear_arith)
        requires
            -z <= a <= z,
            0 <= m <= s,
            z >= 0,
    ;
    assert(z * s <= (1024 * s) * s && -((1024 * s) * s) == (-1024 * s) * s) by (nonlinear_arith)
        requires
            z <= 1024 * s,
            s > 0,
    ;
    numbers::lemma_times_between(x, part, loud.negated(), loud);
    let p: F32 = x.times(part);
    numbers::lemma_value_order(loud.negated(), p);
    numbers::lemma_value_order(p, loud);
    accuracy::law_products_are_accurate(x, part);
    let t: int = value(p);
    let e: int = gap(t * s, a * m);
    assert(PARTS * e <= z * s + PARTS * s) by {
        lemma_mul_nonnegative(z, s);
    }
    assert(size(t) * s == size(t * s)) by (nonlinear_arith)
        requires
            size(t) == (if t < 0 {
                -t
            } else {
                t
            }),
            size(t * s) == (if t * s < 0 {
                -(t * s)
            } else {
                t * s
            }),
            s > 0,
    ;
    assert(PARTS * (size(t) * s) <= PARTS * (z * s) + z * s + PARTS * s);
    assert(size(t) <= 2 * z + 1) by (nonlinear_arith)
        requires
            PARTS * (size(t) * s) <= PARTS * (z * s) + z * s + PARTS * s,
            s > 0,
            z >= 0,
    ;
}

/// Two signals weighed by what is left of one and by a part of it.
pub proof fn lemma_blends(from: F32, to: F32, way: F32)
    requires
        is_signal(from),
        is_signal(to),
        way.is_finite(),
        0 <= value(way) <= scale(),
    ensures
        blends(
            from.times(F32::of(ONE).minus(way)).plus(to.times(way)),
            from,
            to,
            value(way),
        ),
{
    lemma_loud();
    numbers::lemma_zero_one();
    let s: int = scale();
    let one: F32 = F32::of(ONE);
    let zero: F32 = F32::of(0);
    let rest: F32 = one.minus(way);
    let m: int = value(way);
    numbers::lemma_minus_between(one, way, zero, one);
    numbers::lemma_value_order(zero, rest);
    numbers::lemma_value_order(rest, one);
    accuracy::law_differences_are_accurate(one, way);
    lemma_weighed(from, rest);
    lemma_weighed(to, way);
    let x: F32 = from.times(rest);
    let y: F32 = to.times(way);
    let o: F32 = x.plus(y);
    assert(o.is_finite()) by {
        lemma_sum_of_signals(x, y);
    }
    accuracy::law_sums_are_accurate(x, y);
    let (a, b): (int, int) = (value(from), value(to));
    let (za, zb): (int, int) = (size(a), size(b));
    let r: int = value(rest);
    let (t1, t2): (int, int) = (value(x), value(y));
    let v: int = value(o);
    // What is left of one is off by little, and so is its multiple.
    let d: int = r - (s - m);
    assert(-(za * s) <= PARTS * (a * d) <= za * s) by (nonlinear_arith)
        requires
            -s <= PARTS * d <= s,
            -za <= a <= za,
            za >= 0,
            s > 0,
    ;
    assert(a * r == a * (s - m) + a * d) by (nonlinear_arith)
        requires
            d == r - (s - m),
    ;
    let g: int = v - (t1 + t2);
    let bound: int = 2 * za + 2 * zb + 2;
    assert(-bound <= PARTS * g <= bound);
    assert(v * s == t1 * s + t2 * s + g * s) by (nonlinear_arith)
        requires
            g == v - (t1 + t2),
    ;
    assert(-(bound * s) <= PARTS * (g * s) <= bound * s) by (nonlinear_arith)
        requires
            -bound <= PARTS * g <= bound,
            s > 0,
    ;
    assert(bound * s == 2 * (za * s) + 2 * (zb * s) + 2 * s) by (nonlinear_arith)
        requires
            bound == 2 * za + 2 * zb + 2,
    ;
    assert((za + zb) * s == za * s + zb * s) by (nonlinear_arith);
    lemma_mul_nonnegative(za, s);
    lemma_mul_nonnegative(zb, s);
}

/// A sum of two signals is finite.
proof fn lemma_sum_of_signals(x: F32, y: F32)
    requires
        is_signal(x),
        is_signal(y),
    ensures
        x.plus(y).is_finite(),
{
    lemma2_to64();
    numbers::lemma_value_of(0x4500_0000, 0x80_0000, 137);
    lemma_pow2_adds(23, 137);
    lemma_pow2_adds(11, 149);
    let top: F32 = F32::of(0x4500_0000);
    numbers::lemma_negated(top);
    numbers::lemma_plus_between(x, y, top.negated(), top);
}

/// A crossfade goes evenly from the tail to the loop's own samples: its `i`th
/// sample of `n` is `i` parts in `n` of the way.
pub proof fn law_crossfades_go_evenly(i: usize, n: usize, tail: F32, own: F32)
    requires
        i <= n < 0x100_0000,
        n > 0,
        is_signal(tail),
        is_signal(own),
    ensures
        exists|way: int|
            #![trigger blends(mixdown::faded(i, n, tail, own), tail, own, way)]
            PARTS * gap(way * n, i * scale()) <= i * scale() + PARTS * n && blends(
                mixdown::faded(i, n, tail, own),
                tail,
                own,
                way,
            ),
{
    let s: int = scale();
    let alpha: F32 = F32::from_usize(i).over(F32::from_usize(n));
    numbers::lemma_zero_one();
    numbers::lemma_small_from_u64(i as u64);
    numbers::lemma_small_from_u64(n as u64);
    let x: F32 = F32::from_usize(i);
    let y: F32 = F32::from_usize(n);
    let zero: F32 = F32::of(0);
    let one: F32 = F32::of(ONE);
    lemma_mul_nonnegative(i as int, s);
    lemma_mul_strictly_positive(n as int, s);
    assert(0 * (n * s) == 0) by (nonlinear_arith);
    assert(0 <= (i * s) * s <= s * (n * s)) by (nonlinear_arith)
        requires
            0 <= i <= n,
            s > 0,
    ;
    numbers::lemma_over_between(x, y, zero, one);
    numbers::lemma_value_order(zero, alpha);
    numbers::lemma_value_order(alpha, one);
    accuracy::law_quotients_are_accurate(x, y);
    let w: int = value(alpha);
    let e: int = gap(w * (n * s), (i * s) * s);
    let g: int = gap(w * n, i * s);
    assert(e == g * s) by (nonlinear_arith)
        requires
            e == (if w * (n * s) < (i * s) * s {
                (i * s) * s - w * (n * s)
            } else {
                w * (n * s) - (i * s) * s
            }),
            g == (if w * n < i * s {
                i * s - w * n
            } else {
                w * n - i * s
            }),
            s > 0,
    ;
    if PARTS * e <= (i * s) * s {
        assert(PARTS * g <= i * s) by (nonlinear_arith)
            requires
                PARTS * (g * s) <= (i * s) * s,
                s > 0,
        ;
    } else {
        assert(2 * g <= n) by (nonlinear_arith)
            requires
                2 * (g * s) <= n * s,
                s > 0,
        ;
    }
    lemma_blends(tail, own, alpha);
    stability::lemma_times_commutes(one.minus(alpha), tail);
    stability::lemma_times_commutes(alpha, own);
    assert(blends(mixdown::faded(i, n, tail, own), tail, own, w));
}

/// The effects' mix goes evenly from the dry signal to the wet one.
pub proof fn law_mixes_go_evenly(chorus: Chorus, reverb: Reverb, dry: F32, wet: F32)
    requires
        is_signal(dry),
        is_signal(wet),
    ensures
        chorus.mix.is_finite() && F32::of(0).le(chorus.mix) && chorus.mix.le(F32::of(ONE))
            ==> blends(chorus.blend(dry, wet), dry, wet, value(chorus.mix)),
        reverb.mix.is_finite() && F32::of(0).le(reverb.mix) && reverb.mix.le(F32::of(ONE))
            ==> blends(reverb.blend(dry, wet), dry, wet, value(reverb.mix)),
{
    if chorus.mix.is_finite() && F32::of(0).le(chorus.mix) && chorus.mix.le(F32::of(ONE)) {
        lemma_unit(chorus.mix);
        lemma_blends(dry, wet, chorus.mix);
    }
    if reverb.mix.is_finite() && F32::of(0).le(reverb.mix) && reverb.mix.le(F32::of(ONE)) {
        lemma_unit(reverb.mix);
        lemma_blends(dry, wet, reverb.mix);
    }
}

/// A number between zero and one is left there.
proof fn lemma_unit(x: F32)
    requires
        x.is_finite(),
        F32::of(0).le(x),
        x.le(F32::of(ONE)),
    ensures
        x.clamp(F32::of(0), F32::of(ONE)) == x,
        0 <= value(x) <= scale(),
{
    numbers::lemma_zero_one();
    numbers::lemma_value_order(F32::of(0), x);
    numbers::lemma_value_order(x, F32::of(ONE));
    numbers::lemma_value_order(x, F32::of(0));
    numbers::lemma_value_order(F32::of(ONE), x);
    reveal(F32::spec_clamp);
}

} // verus!
