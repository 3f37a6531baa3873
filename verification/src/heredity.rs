//! What mutation and crossover do, number by number: which draw decides,
//! which one says how far, and where the next number's draws begin.
use crate::accuracy;
use crate::adsr::{AdsrCurve, AdsrEnvelope};
use crate::breeding;
use crate::breeding::{
    FIFTH, FORTY, HUNDREDTH, MINUS_TEN_THOUSAND, MIN_TOTAL, NINETEEN_TWENTIETHS, TEN, TENTH,
    TEN_THOUSAND, THIRTY, TWELVE, TWENTIETH, TWENTY, TWENTY_THOUSAND,
};
use crate::chorus::Chorus;
use crate::constants::{FOUR, HALF, MINUS_ONE, ONE, THOUSANDTH, TWO};
use crate::elementary::Elementary;
use crate::envelope;
use crate::filter::{BiquadBandpass, BiquadHighpass, BiquadLowpass};
use crate::float::{F32, F64};
use crate::gate::Gate;
use crate::genetics;
use crate::genetics::{Draw, Evolvable, WIDE_HALF, WIDE_TWO};
use crate::lfo::{Lfo, LfoShape};
use crate::lineage;
use crate::lineage::{BPM_HALF_OCTAVES, BPM_MAX, BPM_MIN, VOLUME_HALF_RANGE};
use crate::mix::{Gain, Mix};
use crate::noise::{BrownNoise, PinkNoise, WhiteNoise};
use crate::numbers;
use crate::oscillator::{SawtoothOsc, SineOsc, SquareOsc, TriangleOsc};
use crate::reverb::Reverb;
use crate::sequence::{EventView, RecipeView, TrackView};
use vstd::prelude::*;

verus! {

/// The number of the draw `k` draws on.
pub open spec fn later(at: u64, k: int) -> u64 {
    ((at + k) % 0x1_0000_0000_0000_0000) as u64
}

/// The number that a draw answers.
pub open spec fn drawn(d: spec_fn(u64, Draw) -> u64, at: u64) -> F32 {
    F32::of((d(at, Draw::Unit) % 0x1_0000_0000) as u32)
}

/// The side that a coin shows.
pub open spec fn heads(d: spec_fn(u64, Draw) -> u64, at: u64) -> bool {
    d(at, Draw::Coin) != 0
}

/// A draw decides for a change: it is below the rate.
pub open spec fn decides(d: spec_fn(u64, Draw) -> u64, at: u64, rate: F32) -> bool {
    drawn(d, at).lt(rate)
}

/// Where the draws of the next number begin: one draw decides, and where it
/// decides for a change one more says how far.
pub open spec fn past(d: spec_fn(u64, Draw) -> u64, at: u64, rate: F32) -> u64 {
    if decides(d, at, rate) {
        later(at, 2)
    } else {
        later(at, 1)
    }
}

/// How far a draw goes either way: from `-half` for zero over nothing for one
/// half to `half` for one.
pub open spec fn stride(u: F32, half: F32) -> F32 {
    u.minus(F32::of(HALF)).times(F32::of(TWO)).times(half)
}

/// A target is reached as far as two bounds allow.
pub open spec fn reached(target: F32, after: F32, lo: F32, hi: F32) -> bool {
    &&& target.lt(lo) ==> after == lo
    &&& hi.lt(target) ==> after == hi
    &&& !target.lt(lo) && !hi.lt(target) ==> after == target
}

/// Where the draw decides for a change, a number has moved by the stride of
/// the next draw, as far as its bounds allow; else it has not moved.
pub open spec fn strode(
    before: F32,
    after: F32,
    d: spec_fn(u64, Draw) -> u64,
    at: u64,
    rate: F32,
    half: F32,
    lo: F32,
    hi: F32,
) -> bool {
    if decides(d, at, rate) {
        reached(before.plus(stride(drawn(d, later(at, 1)), half)), after, lo, hi)
    } else {
        after == before
    }
}

/// The same of bounds given by their bits.
pub open spec fn shifted(
    before: F32,
    after: F32,
    d: spec_fn(u64, Draw) -> u64,
    at: u64,
    rate: F32,
    half: u32,
    lo: u32,
    hi: u32,
) -> bool {
    strode(before, after, d, at, rate, F32::of(half), F32::of(lo), F32::of(hi))
}

/// Where the draw decides for a change, a number has moved by as many octaves
/// as the stride of the next draw, as far as its bounds allow; else it has
/// not moved.
pub open spec fn leapt(
    before: F32,
    after: F32,
    d: spec_fn(u64, Draw) -> u64,
    f: spec_fn(Elementary, F32) -> F32,
    at: u64,
    rate: F32,
    half: F32,
    lo: F32,
    hi: F32,
) -> bool {
    if decides(d, at, rate) {
        reached(
            before.times(f(Elementary::Exp2, stride(drawn(d, later(at, 1)), half))),
            after,
            lo,
            hi,
        )
    } else {
        after == before
    }
}

/// The same of bounds given by their bits.
pub open spec fn scaled(
    before: F32,
    after: F32,
    d: spec_fn(u64, Draw) -> u64,
    f: spec_fn(Elementary, F32) -> F32,
    at: u64,
    rate: F32,
    half: u32,
    lo: u32,
    hi: u32,
) -> bool {
    leapt(before, after, d, f, at, rate, F32::of(half), F32::of(lo), F32::of(hi))
}

/// The place of a shape in the cycle that mutation follows.
pub open spec fn turn(shape: LfoShape) -> int {
    match shape {
        LfoShape::Sine => 0,
        LfoShape::Triangle => 1,
        LfoShape::Square => 2,
        LfoShape::Saw => 3,
        LfoShape::Random => 4,
    }
}

/// An envelope whose times add up to less than the shortest sum has them all
/// lengthened by the same factor, which takes the sum there; any other one is
/// as it was, and so are its level and its curve.
pub open spec fn lengthened(before: AdsrEnvelope, after: AdsrEnvelope) -> bool {
    let total: F32 = before.attack_s.plus(before.decay_s).plus(before.release_s);
    &&& after.sustain_level == before.sustain_level
    &&& after.curve == before.curve
    &&& if F32::of(0).lt(total) && total.lt(F32::of(MIN_TOTAL)) {
        let factor: F32 = F32::of(MIN_TOTAL).over(total);
        &&& after.attack_s == before.attack_s.times(factor)
        &&& after.decay_s == before.decay_s.times(factor)
        &&& after.release_s == before.release_s.times(factor)
    } else {
        &&& after.attack_s == before.attack_s
        &&& after.decay_s == before.decay_s
        &&& after.release_s == before.release_s
    }
}

/// The draws are counted one by one.
proof fn lemma_counted(at: u64, k: nat)
    requires
        k <= 7,
    ensures
        genetics::nth(at, k) == later(at, k as int),
    decreases k,
{
    if k > 0 {
        lemma_counted(at, (k - 1) as nat);
        let before: u64 = later(at, k - 1);
        assert(genetics::nth(at, k) == genetics::after(before));
        let n: int = at + k;
        if n < 0x1_0000_0000_0000_0000 {
            assert(later(at, k as int) == n);
            assert(before == n - 1);
        } else {
            assert(later(at, k as int) == n - 0x1_0000_0000_0000_0000);
            if n == 0x1_0000_0000_0000_0000 {
                assert(before == 0xffff_ffff_ffff_ffff);
            } else {
                assert(before == n - 1 - 0x1_0000_0000_0000_0000);
            }
        }
    }
}

/// The first few draws.
proof fn lemma_counts(at: u64)
    ensures
        genetics::after(at) == later(at, 1),
        later(at, 0) == at,
        genetics::nth(at, 1) == later(at, 1),
        genetics::nth(at, 2) == later(at, 2),
        genetics::nth(at, 3) == later(at, 3),
        genetics::nth(at, 4) == later(at, 4),
        genetics::nth(at, 5) == later(at, 5),
        genetics::nth(at, 6) == later(at, 6),
        genetics::nth(at, 7) == later(at, 7),
{
    lemma_counted(at, 0);
    lemma_counted(at, 1);
    lemma_counted(at, 2);
    lemma_counted(at, 3);
    lemma_counted(at, 4);
    lemma_counted(at, 5);
    lemma_counted(at, 6);
    lemma_counted(at, 7);
    assert(genetics::nth(at, 1) == genetics::after(genetics::nth(at, 0)));
}

/// A number mutates by a stride, with one draw to decide and one to say how
/// far.
pub proof fn law_numbers_mutate_by_a_stride(
    val: F32,
    d: spec_fn(u64, Draw) -> u64,
    at: u64,
    rate: F32,
    half: F32,
    lo: F32,
    hi: F32,
)
    requires
        lo.le(hi),
    ensures
        ({
            let (m, end): (F32, u64) = genetics::mutated_f32(val, d, at, rate, half, lo, hi);
            &&& strode(val, m, d, at, rate, half, lo, hi)
            &&& end == past(d, at, rate)
        }),
{
    lemma_counts(at);
    lemma_reached(val.plus(stride(drawn(d, later(at, 1)), half)), lo, hi);
}

/// A number mutates by octaves, with one draw to decide and one to say how
/// many.
pub proof fn law_numbers_mutate_by_octaves(
    val: F32,
    d: spec_fn(u64, Draw) -> u64,
    f: spec_fn(Elementary, F32) -> F32,
    at: u64,
    rate: F32,
    half: F32,
    lo: F32,
    hi: F32,
)
    requires
        lo.le(hi),
    ensures
        ({
            let (m, end): (F32, u64) = genetics::mutated_log(val, d, f, at, rate, half, lo, hi);
            &&& leapt(val, m, d, f, at, rate, half, lo, hi)
            &&& end == past(d, at, rate)
        }),
{
    lemma_counts(at);
    lemma_reached(val.times(f(Elementary::Exp2, stride(drawn(d, later(at, 1)), half))), lo, hi);
}

/// A 64-bit number mutates by a stride too: the next draw is read as a
/// 64-bit number.
pub proof fn law_wide_numbers_mutate_by_a_stride(
    val: F64,
    d: spec_fn(u64, Draw) -> u64,
    at: u64,
    rate: F32,
    half: F64,
    lo: F64,
    hi: F64,
)
    requires
        lo.le(hi),
    ensures
        ({
            let (m, end): (F64, u64) = genetics::mutated_f64(val, d, at, rate, half, lo, hi);
            let u: F64 = F64::of(d(later(at, 1), Draw::WideUnit));
            let target: F64 = val.plus(
                u.minus(F64::of(WIDE_HALF)).times(F64::of(WIDE_TWO)).times(half),
            );
            &&& end == past(d, at, rate)
            &&& !decides(d, at, rate) ==> m == val
            &&& decides(d, at, rate) && target.lt(lo) ==> m == lo
            &&& decides(d, at, rate) && hi.lt(target) ==> m == hi
            &&& decides(d, at, rate) && !target.lt(lo) && !hi.lt(target) ==> m == target
        }),
{
    lemma_counts(at);
    reveal(F64::spec_clamp);
    reveal(F64::spec_le);
    reveal(F64::spec_lt);
    reveal(F64::spec_same);
}

/// Where the draw decides for a change, an integer moves one up where the
/// next draw's coin shows heads and else one down, as far as its bounds
/// allow; else it does not move.
pub proof fn law_integers_move_as_the_coin_says(
    val: usize,
    d: spec_fn(u64, Draw) -> u64,
    at: u64,
    rate: F32,
    min: usize,
    max: usize,
)
    requires
        min <= max,
    ensures
        ({
            let (m, end): (usize, u64) = genetics::mutated_usize(val, d, at, rate, min, max);
            let target: int = if heads(d, later(at, 1)) {
                val + 1
            } else {
                val - 1
            };
            &&& end == past(d, at, rate)
            &&& !decides(d, at, rate) ==> m == val
            &&& decides(d, at, rate) && target < min ==> m == min
            &&& decides(d, at, rate) && target > max ==> m == max
            &&& decides(d, at, rate) && min <= target <= max ==> m == target
        }),
{
    lemma_counts(at);
}

/// A seed mutates into the word of the next draw; a choice mutates into the
/// one after it, the last into the first, and takes no second draw.
pub proof fn law_seeds_are_drawn_and_choices_turn(
    seed: u32,
    choice: usize,
    count: usize,
    d: spec_fn(u64, Draw) -> u64,
    at: u64,
    rate: F32,
)
    requires
        choice < count,
    ensures
        ({
            let (m, end): (u32, u64) = genetics::mutated_seed(seed, d, at, rate);
            let (c, stop): (usize, u64) = genetics::mutated_choice(choice, d, at, rate, count);
            &&& end == past(d, at, rate)
            &&& m as int == if decides(d, at, rate) {
                d(later(at, 1), Draw::Word) as int % 0x1_0000_0000
            } else {
                seed as int
            }
            &&& stop == later(at, 1)
            &&& c as int == if decides(d, at, rate) {
                (choice + 1) % (count as int)
            } else {
                choice as int
            }
        }),
{
    lemma_counts(at);
    if choice + 1 < count {
        vstd::arithmetic::div_mod::lemma_small_mod((choice + 1) as nat, count as nat);
    } else {
        vstd::arithmetic::div_mod::lemma_mod_self_0(count as int);
    }
}

/// A number between its bounds goes up where the second draw is above one
/// half and down where it is below, as far as the numbers' precision lets it
/// move at all; it never goes the other way.
pub proof fn law_draws_say_which_way(
    before: F32,
    after: F32,
    d: spec_fn(u64, Draw) -> u64,
    at: u64,
    rate: F32,
    half: F32,
    lo: F32,
    hi: F32,
)
    requires
        strode(before, after, d, at, rate, half, lo, hi),
        decides(d, at, rate),
        envelope::within(drawn(d, later(at, 1)), F32::of(0), F32::of(ONE)),
        envelope::within(before, lo, hi),
        half.is_finite(),
        F32::of(0).le(half),
        lo.is_finite(),
        hi.is_finite(),
    ensures
        F32::of(HALF).le(drawn(d, later(at, 1))) ==> before.le(after),
        drawn(d, later(at, 1)).le(F32::of(HALF)) ==> after.le(before),
{
    let u: F32 = drawn(d, later(at, 1));
    let zero: F32 = F32::of(0);
    let step: F32 = stride(u, half);
    lemma_stride(u, half);
    numbers::lemma_zero_one();
    accuracy::lemma_half_two();
    numbers::lemma_value_order(u, F32::of(HALF));
    numbers::lemma_value_order(F32::of(HALF), u);
    let target: F32 = before.plus(step);
    accuracy::law_sums_commute(before, step);
    accuracy::law_sums_commute(before, zero);
    numbers::lemma_plus_exact(before, zero, before);
    let kept: F32 = before.plus(zero);
    numbers::lemma_value_order(before, kept);
    numbers::lemma_value_order(kept, before);
    numbers::lemma_value_order(lo, before);
    numbers::lemma_value_order(before, hi);
    if numbers::value(step) >= 0 {
        numbers::lemma_plus_monotone(zero, step, before);
        assert(kept.le(target));
        numbers::lemma_order(before, kept, target);
        numbers::lemma_order(before, hi, hi);
        numbers::lemma_order(lo, before, target);
        lemma_not_below(lo, target);
    }
    if numbers::value(step) <= 0 {
        numbers::lemma_plus_monotone(step, zero, before);
        assert(target.le(kept));
        numbers::lemma_order(target, kept, before);
        numbers::lemma_order(target, before, hi);
        lemma_not_below(target, hi);
    }
}

/// What is at most a number is not above it.
proof fn lemma_not_below(a: F32, b: F32)
    requires
        a.le(b),
    ensures
        !b.lt(a),
{
    reveal(F32::spec_le);
    reveal(F32::spec_lt);
    reveal(F32::spec_same);
}

/// A stride has the sign of its draw's distance from one half.
proof fn lemma_stride(u: F32, half: F32)
    requires
        envelope::within(u, F32::of(0), F32::of(ONE)),
        half.is_finite(),
        F32::of(0).le(half),
    ensures
        stride(u, half).is_finite(),
        numbers::value(u) >= numbers::value(F32::of(HALF)) ==> numbers::value(stride(u, half))
            >= 0,
        numbers::value(u) <= numbers::value(F32::of(HALF)) ==> numbers::value(stride(u, half))
            <= 0,
{
    let zero: F32 = F32::of(0);
    let one: F32 = F32::of(ONE);
    let mid: F32 = F32::of(HALF);
    let minus: F32 = half.negated();
    numbers::lemma_zero_one();
    accuracy::lemma_half_two();
    numbers::lemma_negated(half);
    numbers::lemma_negated(mid);
    numbers::lemma_value_order(zero, u);
    numbers::lemma_value_order(u, one);
    numbers::lemma_value_order(zero, half);
    let k: int = numbers::scale();
    let (low, high): (F32, F32) = if numbers::value(u) >= numbers::value(mid) {
        (zero, mid)
    } else {
        (mid.negated(), zero)
    };
    let a: F32 = u.minus(mid);
    numbers::lemma_minus_between(u, mid, low, high);
    numbers::lemma_value_order(low, a);
    numbers::lemma_value_order(a, high);
    if numbers::value(u) == numbers::value(mid) {
        numbers::lemma_minus_between(u, mid, zero, zero);
        numbers::lemma_value_order(a, zero);
    }
    let va: int = numbers::value(a);
    let two: F32 = F32::of(TWO);
    let (low2, high2): (F32, F32) = if va > 0 {
        (zero, one)
    } else if va < 0 {
        (F32::of(MINUS_ONE), zero)
    } else {
        (zero, zero)
    };
    assert(va * numbers::value(two) == (2 * va) * k) by (nonlinear_arith)
        requires
            numbers::value(two) == 2 * k,
    ;
    assert(0 * k == 0 && k * k >= 0) by (nonlinear_arith);
    assert((2 * va) * k <= numbers::value(high2) * k) by (nonlinear_arith)
        requires
            2 * va <= numbers::value(high2),
            k > 0,
    ;
    assert(numbers::value(low2) * k <= (2 * va) * k) by (nonlinear_arith)
        requires
            numbers::value(low2) <= 2 * va,
            k > 0,
    ;
    let b: F32 = a.times(two);
    numbers::lemma_times_between(a, two, low2, high2);
    numbers::lemma_value_order(low2, b);
    numbers::lemma_value_order(b, high2);
    let vb: int = numbers::value(b);
    let vh: int = numbers::value(half);
    let (low3, high3): (F32, F32) = if va > 0 {
        (zero, half)
    } else if va < 0 {
        (minus, zero)
    } else {
        (zero, zero)
    };
    assert(numbers::value(low3) * k <= vb * vh <= numbers::value(high3) * k) by (nonlinear_arith)
        requires
            va > 0 ==> 0 <= vb <= k && numbers::value(low3) == 0 && numbers::value(high3) == vh,
            va < 0 ==> -k <= vb <= 0 && numbers::value(low3) == -vh && numbers::value(high3) == 0,
            va == 0 ==> vb == 0 && numbers::value(low3) == 0 && numbers::value(high3) == 0,
            vh >= 0,
            k > 0,
    ;
    numbers::lemma_times_between(b, half, low3, high3);
    numbers::lemma_value_order(low3, b.times(half));
    numbers::lemma_value_order(b.times(half), high3);
}

/// A number mutated by a stride between bounds given by their bits.
proof fn lemma_shifted(
    val: F32,
    d: spec_fn(u64, Draw) -> u64,
    at: u64,
    rate: F32,
    half: u32,
    lo: u32,
    hi: u32,
)
    requires
        -0x7f80_0000 < envelope::rank_of(lo) <= envelope::rank_of(hi) < 0x7f80_0000,
    ensures
        ({
            let (m, end): (F32, u64) = genetics::mutated_f32(
                val,
                d,
                at,
                rate,
                F32::of(half),
                F32::of(lo),
                F32::of(hi),
            );
            &&& shifted(val, m, d, at, rate, half, lo, hi)
            &&& end == past(d, at, rate)
        }),
{
    envelope::lemma_rank(lo, hi);
    law_numbers_mutate_by_a_stride(val, d, at, rate, F32::of(half), F32::of(lo), F32::of(hi));
}

/// A number mutated by octaves between bounds given by their bits.
proof fn lemma_scaled(
    val: F32,
    d: spec_fn(u64, Draw) -> u64,
    f: spec_fn(Elementary, F32) -> F32,
    at: u64,
    rate: F32,
    half: u32,
    lo: u32,
    hi: u32,
)
    requires
        -0x7f80_0000 < envelope::rank_of(lo) <= envelope::rank_of(hi) < 0x7f80_0000,
    ensures
        ({
            let (m, end): (F32, u64) = genetics::mutated_log(
                val,
                d,
                f,
                at,
                rate,
                F32::of(half),
                F32::of(lo),
                F32::of(hi),
            );
            &&& scaled(val, m, d, f, at, rate, half, lo, hi)
            &&& end == past(d, at, rate)
        }),
{
    envelope::lemma_rank(lo, hi);
    law_numbers_mutate_by_octaves(val, d, f, at, rate, F32::of(half), F32::of(lo), F32::of(hi));
}

/// Clamping reaches a target as far as the bounds allow.
proof fn lemma_reached(target: F32, lo: F32, hi: F32)
    requires
        lo.le(hi),
    ensures
        reached(target, target.clamp(lo, hi), lo, hi),
{
    reveal(F32::spec_clamp);
    reveal(F32::spec_le);
    reveal(F32::spec_lt);
    reveal(F32::spec_same);
}

/// A sine oscillator mutates number by number, each by draws of its own.
pub proof fn law_sine_mutates_number_by_number(
    n: SineOsc,
    d: spec_fn(u64, Draw) -> u64,
    f: spec_fn(Elementary, F32) -> F32,
    at: u64,
    rate: F32,
)
    ensures
        ({
            let (m, end): (SineOsc, u64) = n.mutated(d, f, at, rate);
            let at1: u64 = past(d, at, rate);
            let at2: u64 = past(d, at1, rate);
            let at3: u64 = past(d, at2, rate);
            &&& scaled(n.freq_hz, m.freq_hz, d, f, at, rate, HALF, TWENTY, TWENTY_THOUSAND)
            &&& shifted(n.phase_offset, m.phase_offset, d, at1, rate, TWENTIETH, 0, ONE)
            &&& shifted(n.amplitude, m.amplitude, d, at2, rate, TENTH, 0, ONE)
            &&& end == at3
        }),
{
    lemma_scaled(n.freq_hz, d, f, at, rate, HALF, TWENTY, TWENTY_THOUSAND);
    let at1: u64 = past(d, at, rate);
    lemma_shifted(n.phase_offset, d, at1, rate, TWENTIETH, 0, ONE);
    let at2: u64 = past(d, at1, rate);
    lemma_shifted(n.amplitude, d, at2, rate, TENTH, 0, ONE);
}

/// A square oscillator mutates number by number, each by draws of its own.
pub proof fn law_square_mutates_number_by_number(
    n: SquareOsc,
    d: spec_fn(u64, Draw) -> u64,
    f: spec_fn(Elementary, F32) -> F32,
    at: u64,
    rate: F32,
)
    ensures
        ({
            let (m, end): (SquareOsc, u64) = n.mutated(d, f, at, rate);
            let at1: u64 = past(d, at, rate);
            let at2: u64 = past(d, at1, rate);
            let at3: u64 = past(d, at2, rate);
            let at4: u64 = later(at3, 1);
            &&& scaled(n.freq_hz, m.freq_hz, d, f, at, rate, HALF, TWENTY, TWENTY_THOUSAND)
            &&& shifted(n.duty, m.duty, d, at1, rate, TWENTIETH, TWENTIETH, NINETEEN_TWENTIETHS)
            &&& shifted(n.amplitude, m.amplitude, d, at2, rate, TENTH, 0, ONE)
            &&& decides(d, at3, rate) <==> m.anti_alias != n.anti_alias
            &&& end == at4
        }),
{
    lemma_scaled(n.freq_hz, d, f, at, rate, HALF, TWENTY, TWENTY_THOUSAND);
    let at1: u64 = past(d, at, rate);
    lemma_shifted(n.duty, d, at1, rate, TWENTIETH, TWENTIETH, NINETEEN_TWENTIETHS);
    let at2: u64 = past(d, at1, rate);
    lemma_shifted(n.amplitude, d, at2, rate, TENTH, 0, ONE);
    let at3: u64 = past(d, at2, rate);
    lemma_counts(at3);
}

/// A sawtooth oscillator mutates number by number, each by draws of its own.
pub proof fn law_sawtooth_mutates_number_by_number(
    n: SawtoothOsc,
    d: spec_fn(u64, Draw) -> u64,
    f: spec_fn(Elementary, F32) -> F32,
    at: u64,
    rate: F32,
)
    ensures
        ({
            let (m, end): (SawtoothOsc, u64) = n.mutated(d, f, at, rate);
            let at1: u64 = past(d, at, rate);
            let at2: u64 = later(at1, 1);
            let at3: u64 = past(d, at2, rate);
            let at4: u64 = later(at3, 1);
            &&& scaled(n.freq_hz, m.freq_hz, d, f, at, rate, HALF, TWENTY, TWENTY_THOUSAND)
            &&& decides(d, at1, rate) <==> m.polarity != n.polarity
            &&& shifted(n.amplitude, m.amplitude, d, at2, rate, TENTH, 0, ONE)
            &&& decides(d, at3, rate) <==> m.anti_alias != n.anti_alias
            &&& end == at4
        }),
{
    lemma_scaled(n.freq_hz, d, f, at, rate, HALF, TWENTY, TWENTY_THOUSAND);
    let at1: u64 = past(d, at, rate);
    lemma_counts(at1);
    let at2: u64 = later(at1, 1);
    lemma_shifted(n.amplitude, d, at2, rate, TENTH, 0, ONE);
    let at3: u64 = past(d, at2, rate);
    lemma_counts(at3);
}

/// A triangle oscillator mutates number by number, each by draws of its own.
pub proof fn law_triangle_mutates_number_by_number(
    n: TriangleOsc,
    d: spec_fn(u64, Draw) -> u64,
    f: spec_fn(Elementary, F32) -> F32,
    at: u64,
    rate: F32,
)
    ensures
        ({
            let (m, end): (TriangleOsc, u64) = n.mutated(d, f, at, rate);
            let at1: u64 = past(d, at, rate);
            let at2: u64 = past(d, at1, rate);
            let at3: u64 = later(at2, 1);
            &&& scaled(n.freq_hz, m.freq_hz, d, f, at, rate, HALF, TWENTY, TWENTY_THOUSAND)
            &&& shifted(n.amplitude, m.amplitude, d, at1, rate, TENTH, 0, ONE)
            &&& decides(d, at2, rate) <==> m.anti_alias != n.anti_alias
            &&& end == at3
        }),
{
    lemma_scaled(n.freq_hz, d, f, at, rate, HALF, TWENTY, TWENTY_THOUSAND);
    let at1: u64 = past(d, at, rate);
    lemma_shifted(n.amplitude, d, at1, rate, TENTH, 0, ONE);
    let at2: u64 = past(d, at1, rate);
    lemma_counts(at2);
}

/// White noise mutates number by number, each by draws of its own.
pub proof fn law_white_noise_mutates_number_by_number(
    n: WhiteNoise,
    d: spec_fn(u64, Draw) -> u64,
    f: spec_fn(Elementary, F32) -> F32,
    at: u64,
    rate: F32,
)
    ensures
        ({
            let (m, end): (WhiteNoise, u64) = n.mutated(d, f, at, rate);
            let at1: u64 = past(d, at, rate);
            &&& shifted(n.amplitude, m.amplitude, d, at, rate, TENTH, 0, ONE)
            &&& end == at1
        }),
{
    lemma_shifted(n.amplitude, d, at, rate, TENTH, 0, ONE);
}

/// Pink noise mutates number by number, each by draws of its own.
pub proof fn law_pink_noise_mutates_number_by_number(
    n: PinkNoise,
    d: spec_fn(u64, Draw) -> u64,
    f: spec_fn(Elementary, F32) -> F32,
    at: u64,
    rate: F32,
)
    ensures
        ({
            let (m, end): (PinkNoise, u64) = n.mutated(d, f, at, rate);
            let at1: u64 = past(d, at, rate);
            &&& shifted(n.amplitude, m.amplitude, d, at, rate, TENTH, 0, ONE)
            &&& end == at1
        }),
{
    lemma_shifted(n.amplitude, d, at, rate, TENTH, 0, ONE);
}

/// Brown noise mutates number by number, each by draws of its own.
pub proof fn law_brown_noise_mutates_number_by_number(
    n: BrownNoise,
    d: spec_fn(u64, Draw) -> u64,
    f: spec_fn(Elementary, F32) -> F32,
    at: u64,
    rate: F32,
)
    ensures
        ({
            let (m, end): (BrownNoise, u64) = n.mutated(d, f, at, rate);
            let at1: u64 = past(d, at, rate);
            &&& shifted(n.amplitude, m.amplitude, d, at, rate, TENTH, 0, ONE)
            &&& end == at1
        }),
{
    lemma_shifted(n.amplitude, d, at, rate, TENTH, 0, ONE);
}

/// The numbers of an envelope are drawn as a mutation draws them.
pub open spec fn envelope_drawn(
    n: AdsrEnvelope,
    m: AdsrEnvelope,
    d: spec_fn(u64, Draw) -> u64,
    f: spec_fn(Elementary, F32) -> F32,
    at: u64,
    end: u64,
    rate: F32,
) -> bool {
    let at1: u64 = past(d, at, rate);
    let at2: u64 = past(d, at1, rate);
    let at3: u64 = past(d, at2, rate);
    let at4: u64 = past(d, at3, rate);
    let at5: u64 = later(at4, 1);
    &&& scaled(n.attack_s, m.attack_s, d, f, at, rate, HALF, THOUSANDTH, TEN)
    &&& scaled(n.decay_s, m.decay_s, d, f, at1, rate, HALF, THOUSANDTH, TEN)
    &&& shifted(n.sustain_level, m.sustain_level, d, at2, rate, TENTH, 0, ONE)
    &&& scaled(n.release_s, m.release_s, d, f, at3, rate, HALF, THOUSANDTH, TEN)
    &&& decides(d, at4, rate) <==> m.curve != n.curve
    &&& end == at5
}

/// An envelope mutates time by time, level and curve, and is lengthened where
/// it has become too short.
pub proof fn law_envelope_mutates_number_by_number(
    n: AdsrEnvelope,
    d: spec_fn(u64, Draw) -> u64,
    f: spec_fn(Elementary, F32) -> F32,
    at: u64,
    rate: F32,
)
    ensures
        ({
            let (r, end): (AdsrEnvelope, u64) = n.mutated(d, f, at, rate);
            exists|m: AdsrEnvelope| #[trigger]
                envelope_drawn(n, m, d, f, at, end, rate) && lengthened(m, r)
        }),
{
    let (attack_s, at1): (F32, u64) = genetics::mutated_log(
        n.attack_s, d, f, at, rate, F32::of(HALF), F32::of(THOUSANDTH), F32::of(TEN),
    );
    let (decay_s, at2): (F32, u64) = genetics::mutated_log(
        n.decay_s, d, f, at1, rate, F32::of(HALF), F32::of(THOUSANDTH), F32::of(TEN),
    );
    let (sustain_level, at3): (F32, u64) = genetics::mutated_f32(
        n.sustain_level, d, at2, rate, F32::of(TENTH), F32::of(0), F32::of(ONE),
    );
    let (release_s, at4): (F32, u64) = genetics::mutated_log(
        n.release_s, d, f, at3, rate, F32::of(HALF), F32::of(THOUSANDTH), F32::of(TEN),
    );
    let curve: AdsrCurve = if genetics::hit(d, at4, rate) {
        breeding::next_curve(n.curve)
    } else {
        n.curve
    };
    let m: AdsrEnvelope = AdsrEnvelope { attack_s, decay_s, sustain_level, release_s, curve };
    lemma_scaled(n.attack_s, d, f, at, rate, HALF, THOUSANDTH, TEN);
    lemma_scaled(n.decay_s, d, f, at1, rate, HALF, THOUSANDTH, TEN);
    lemma_shifted(n.sustain_level, d, at2, rate, TENTH, 0, ONE);
    lemma_scaled(n.release_s, d, f, at3, rate, HALF, THOUSANDTH, TEN);
    lemma_counts(at4);
    let (r, end): (AdsrEnvelope, u64) = n.mutated(d, f, at, rate);
    assert(envelope_drawn(n, m, d, f, at, end, rate));
    assert(lengthened(m, r));
}

/// A lowpass mutates number by number, each by draws of its own.
pub proof fn law_lowpass_mutates_number_by_number(
    n: BiquadLowpass,
    d: spec_fn(u64, Draw) -> u64,
    f: spec_fn(Elementary, F32) -> F32,
    at: u64,
    rate: F32,
)
    ensures
        ({
            let (m, end): (BiquadLowpass, u64) = n.mutated(d, f, at, rate);
            let at1: u64 = past(d, at, rate);
            let at2: u64 = past(d, at1, rate);
            &&& scaled(n.cutoff_hz, m.cutoff_hz, d, f, at, rate, HALF, TWENTY, TWENTY_THOUSAND)
            &&& shifted(n.q, m.q, d, at1, rate, HALF, TENTH, TWENTY)
            &&& end == at2
        }),
{
    lemma_scaled(n.cutoff_hz, d, f, at, rate, HALF, TWENTY, TWENTY_THOUSAND);
    let at1: u64 = past(d, at, rate);
    lemma_shifted(n.q, d, at1, rate, HALF, TENTH, TWENTY);
}

/// A highpass mutates number by number, each by draws of its own.
pub proof fn law_highpass_mutates_number_by_number(
    n: BiquadHighpass,
    d: spec_fn(u64, Draw) -> u64,
    f: spec_fn(Elementary, F32) -> F32,
    at: u64,
    rate: F32,
)
    ensures
        ({
            let (m, end): (BiquadHighpass, u64) = n.mutated(d, f, at, rate);
            let at1: u64 = past(d, at, rate);
            let at2: u64 = past(d, at1, rate);
            &&& scaled(n.cutoff_hz, m.cutoff_hz, d, f, at, rate, HALF, TWENTY, TWENTY_THOUSAND)
            &&& shifted(n.q, m.q, d, at1, rate, HALF, TENTH, TWENTY)
            &&& end == at2
        }),
{
    lemma_scaled(n.cutoff_hz, d, f, at, rate, HALF, TWENTY, TWENTY_THOUSAND);
    let at1: u64 = past(d, at, rate);
    lemma_shifted(n.q, d, at1, rate, HALF, TENTH, TWENTY);
}

/// A bandpass mutates number by number, each by draws of its own.
pub proof fn law_bandpass_mutates_number_by_number(
    n: BiquadBandpass,
    d: spec_fn(u64, Draw) -> u64,
    f: spec_fn(Elementary, F32) -> F32,
    at: u64,
    rate: F32,
)
    ensures
        ({
            let (m, end): (BiquadBandpass, u64) = n.mutated(d, f, at, rate);
            let at1: u64 = past(d, at, rate);
            let at2: u64 = past(d, at1, rate);
            &&& scaled(n.center_hz, m.center_hz, d, f, at, rate, HALF, TWENTY, TWENTY_THOUSAND)
            &&& shifted(n.q, m.q, d, at1, rate, HALF, TENTH, TWENTY)
            &&& end == at2
        }),
{
    lemma_scaled(n.center_hz, d, f, at, rate, HALF, TWENTY, TWENTY_THOUSAND);
    let at1: u64 = past(d, at, rate);
    lemma_shifted(n.q, d, at1, rate, HALF, TENTH, TWENTY);
}

/// A low-frequency oscillator mutates number by number, each by draws of its own.
pub proof fn law_lfo_mutates_number_by_number(
    n: Lfo,
    d: spec_fn(u64, Draw) -> u64,
    f: spec_fn(Elementary, F32) -> F32,
    at: u64,
    rate: F32,
)
    ensures
        ({
            let (m, end): (Lfo, u64) = n.mutated(d, f, at, rate);
            let at1: u64 = past(d, at, rate);
            let at2: u64 = later(at1, 1);
            let at3: u64 = past(d, at2, rate);
            let at4: u64 = past(d, at3, rate);
            &&& scaled(n.rate_hz, m.rate_hz, d, f, at, rate, HALF, HUNDREDTH, THIRTY)
            &&& if decides(d, at1, rate) {
                turn(m.shape) == (turn(n.shape) + 1) % 5
            } else {
                m.shape == n.shape
            }
            &&& shifted(n.depth, m.depth, d, at2, rate, FIFTH, 0, TEN_THOUSAND)
            &&& shifted(n.offset, m.offset, d, at3, rate, FIFTH, MINUS_TEN_THOUSAND, TEN_THOUSAND)
            &&& end == at4
        }),
{
    lemma_scaled(n.rate_hz, d, f, at, rate, HALF, HUNDREDTH, THIRTY);
    let at1: u64 = past(d, at, rate);
    lemma_counts(at1);
    let at2: u64 = later(at1, 1);
    lemma_shifted(n.depth, d, at2, rate, FIFTH, 0, TEN_THOUSAND);
    let at3: u64 = past(d, at2, rate);
    lemma_shifted(n.offset, d, at3, rate, FIFTH, MINUS_TEN_THOUSAND, TEN_THOUSAND);
}

/// A mixer mutates number by number, each by draws of its own.
pub proof fn law_mix_mutates_number_by_number(
    n: Mix,
    d: spec_fn(u64, Draw) -> u64,
    f: spec_fn(Elementary, F32) -> F32,
    at: u64,
    rate: F32,
)
    ensures
        ({
            let (m, end): (Mix, u64) = n.mutated(d, f, at, rate);
            let at1: u64 = past(d, at, rate);
            &&& shifted(n.gain, m.gain, d, at, rate, TENTH, 0, FOUR)
            &&& end == at1
        }),
{
    lemma_shifted(n.gain, d, at, rate, TENTH, 0, FOUR);
}

/// An amplifier mutates number by number, each by draws of its own.
pub proof fn law_gain_mutates_number_by_number(
    n: Gain,
    d: spec_fn(u64, Draw) -> u64,
    f: spec_fn(Elementary, F32) -> F32,
    at: u64,
    rate: F32,
)
    ensures
        ({
            let (m, end): (Gain, u64) = n.mutated(d, f, at, rate);
            let at1: u64 = past(d, at, rate);
            &&& shifted(n.gain, m.gain, d, at, rate, TENTH, 0, FOUR)
            &&& end == at1
        }),
{
    lemma_shifted(n.gain, d, at, rate, TENTH, 0, FOUR);
}

/// A note gate mutates number by number, each by draws of its own.
pub proof fn law_gate_mutates_number_by_number(
    n: Gate,
    d: spec_fn(u64, Draw) -> u64,
    f: spec_fn(Elementary, F32) -> F32,
    at: u64,
    rate: F32,
)
    ensures
        ({
            let (m, end): (Gate, u64) = n.mutated(d, f, at, rate);
            let at1: u64 = later(at, 1);
            &&& decides(d, at, rate) <==> m.invert != n.invert
            &&& end == at1
        }),
{
    lemma_counts(at);
}

/// A chorus mutates number by number, each by draws of its own.
pub proof fn law_chorus_mutates_number_by_number(
    n: Chorus,
    d: spec_fn(u64, Draw) -> u64,
    f: spec_fn(Elementary, F32) -> F32,
    at: u64,
    rate: F32,
)
    ensures
        ({
            let (m, end): (Chorus, u64) = n.mutated(d, f, at, rate);
            let at1: u64 = past(d, at, rate);
            let at2: u64 = past(d, at1, rate);
            let at3: u64 = past(d, at2, rate);
            let at4: u64 = past(d, at3, rate);
            let at5: u64 = past(d, at4, rate);
            &&& scaled(n.rate_hz, m.rate_hz, d, f, at, rate, HALF, TWENTIETH, TWELVE)
            &&& shifted(n.depth_ms, m.depth_ms, d, at1, rate, TWO, 0, TWENTY)
            &&& shifted(n.base_delay_ms, m.base_delay_ms, d, at2, rate, TWO, ONE, FORTY)
            &&& shifted(n.feedback, m.feedback, d, at3, rate, TENTH, 0, NINETEEN_TWENTIETHS)
            &&& shifted(n.mix, m.mix, d, at4, rate, TENTH, 0, ONE)
            &&& end == at5
        }),
{
    lemma_scaled(n.rate_hz, d, f, at, rate, HALF, TWENTIETH, TWELVE);
    let at1: u64 = past(d, at, rate);
    lemma_shifted(n.depth_ms, d, at1, rate, TWO, 0, TWENTY);
    let at2: u64 = past(d, at1, rate);
    lemma_shifted(n.base_delay_ms, d, at2, rate, TWO, ONE, FORTY);
    let at3: u64 = past(d, at2, rate);
    lemma_shifted(n.feedback, d, at3, rate, TENTH, 0, NINETEEN_TWENTIETHS);
    let at4: u64 = past(d, at3, rate);
    lemma_shifted(n.mix, d, at4, rate, TENTH, 0, ONE);
}

/// A reverb mutates number by number, each by draws of its own.
pub proof fn law_reverb_mutates_number_by_number(
    n: Reverb,
    d: spec_fn(u64, Draw) -> u64,
    f: spec_fn(Elementary, F32) -> F32,
    at: u64,
    rate: F32,
)
    ensures
        ({
            let (m, end): (Reverb, u64) = n.mutated(d, f, at, rate);
            let at1: u64 = past(d, at, rate);
            let at2: u64 = past(d, at1, rate);
            let at3: u64 = past(d, at2, rate);
            &&& shifted(n.room_size, m.room_size, d, at, rate, TENTH, 0, ONE)
            &&& shifted(n.damping, m.damping, d, at1, rate, TENTH, 0, ONE)
            &&& shifted(n.mix, m.mix, d, at2, rate, TENTH, 0, ONE)
            &&& end == at3
        }),
{
    lemma_shifted(n.room_size, d, at, rate, TENTH, 0, ONE);
    let at1: u64 = past(d, at, rate);
    lemma_shifted(n.damping, d, at1, rate, TENTH, 0, ONE);
    let at2: u64 = past(d, at1, rate);
    lemma_shifted(n.mix, d, at2, rate, TENTH, 0, ONE);
}

/// A sine oscillator's child takes every field by a coin of its own.
pub proof fn law_sine_children_take_field_by_field(
    a: SineOsc,
    b: SineOsc,
    d: spec_fn(u64, Draw) -> u64,
    at: u64,
)
    ensures
        ({
            let (c, end): (SineOsc, u64) = a.crossed(b, d, at);
            &&& c.freq_hz == if heads(d, later(at, 0)) {
                a.freq_hz
            } else {
                b.freq_hz
            }
            &&& c.phase_offset == if heads(d, later(at, 1)) {
                a.phase_offset
            } else {
                b.phase_offset
            }
            &&& c.amplitude == if heads(d, later(at, 2)) {
                a.amplitude
            } else {
                b.amplitude
            }
            &&& end == later(at, 3)
        }),
{
    lemma_counts(at);
}

/// A square oscillator's child takes every field by a coin of its own.
pub proof fn law_square_children_take_field_by_field(
    a: SquareOsc,
    b: SquareOsc,
    d: spec_fn(u64, Draw) -> u64,
    at: u64,
)
    ensures
        ({
            let (c, end): (SquareOsc, u64) = a.crossed(b, d, at);
            &&& c.freq_hz == if heads(d, later(at, 0)) {
                a.freq_hz
            } else {
                b.freq_hz
            }
            &&& c.duty == if heads(d, later(at, 1)) {
                a.duty
            } else {
                b.duty
            }
            &&& c.amplitude == if heads(d, later(at, 2)) {
                a.amplitude
            } else {
                b.amplitude
            }
            &&& c.anti_alias == if heads(d, later(at, 3)) {
                a.anti_alias
            } else {
                b.anti_alias
            }
            &&& end == later(at, 4)
        }),
{
    lemma_counts(at);
}

/// A sawtooth oscillator's child takes every field by a coin of its own.
pub proof fn law_sawtooth_children_take_field_by_field(
    a: SawtoothOsc,
    b: SawtoothOsc,
    d: spec_fn(u64, Draw) -> u64,
    at: u64,
)
    ensures
        ({
            let (c, end): (SawtoothOsc, u64) = a.crossed(b, d, at);
            &&& c.freq_hz == if heads(d, later(at, 0)) {
                a.freq_hz
            } else {
                b.freq_hz
            }
            &&& c.polarity == if heads(d, later(at, 1)) {
                a.polarity
            } else {
                b.polarity
            }
            &&& c.amplitude == if heads(d, later(at, 2)) {
                a.amplitude
            } else {
                b.amplitude
            }
            &&& c.anti_alias == if heads(d, later(at, 3)) {
                a.anti_alias
            } else {
                b.anti_alias
            }
            &&& end == later(at, 4)
        }),
{
    lemma_counts(at);
}

/// A triangle oscillator's child takes every field by a coin of its own.
pub proof fn law_triangle_children_take_field_by_field(
    a: TriangleOsc,
    b: TriangleOsc,
    d: spec_fn(u64, Draw) -> u64,
    at: u64,
)
    ensures
        ({
            let (c, end): (TriangleOsc, u64) = a.crossed(b, d, at);
            &&& c.freq_hz == if heads(d, later(at, 0)) {
                a.freq_hz
            } else {
                b.freq_hz
            }
            &&& c.amplitude == if heads(d, later(at, 1)) {
                a.amplitude
            } else {
                b.amplitude
            }
            &&& c.anti_alias == if heads(d, later(at, 2)) {
                a.anti_alias
            } else {
                b.anti_alias
            }
            &&& end == later(at, 3)
        }),
{
    lemma_counts(at);
}

/// White noise's child takes every field by a coin of its own.
pub proof fn law_white_noise_children_take_field_by_field(
    a: WhiteNoise,
    b: WhiteNoise,
    d: spec_fn(u64, Draw) -> u64,
    at: u64,
)
    ensures
        ({
            let (c, end): (WhiteNoise, u64) = a.crossed(b, d, at);
            &&& c.amplitude == if heads(d, later(at, 0)) {
                a.amplitude
            } else {
                b.amplitude
            }
            &&& end == later(at, 1)
        }),
{
    lemma_counts(at);
}

/// Pink noise's child takes every field by a coin of its own.
pub proof fn law_pink_noise_children_take_field_by_field(
    a: PinkNoise,
    b: PinkNoise,
    d: spec_fn(u64, Draw) -> u64,
    at: u64,
)
    ensures
        ({
            let (c, end): (PinkNoise, u64) = a.crossed(b, d, at);
            &&& c.amplitude == if heads(d, later(at, 0)) {
                a.amplitude
            } else {
                b.amplitude
            }
            &&& end == later(at, 1)
        }),
{
    lemma_counts(at);
}

/// Brown noise's child takes every field by a coin of its own.
pub proof fn law_brown_noise_children_take_field_by_field(
    a: BrownNoise,
    b: BrownNoise,
    d: spec_fn(u64, Draw) -> u64,
    at: u64,
)
    ensures
        ({
            let (c, end): (BrownNoise, u64) = a.crossed(b, d, at);
            &&& c.amplitude == if heads(d, later(at, 0)) {
                a.amplitude
            } else {
                b.amplitude
            }
            &&& end == later(at, 1)
        }),
{
    lemma_counts(at);
}

/// A child's numbers are those that the coins have picked.
pub open spec fn envelope_picked(
    a: AdsrEnvelope,
    b: AdsrEnvelope,
    c: AdsrEnvelope,
    d: spec_fn(u64, Draw) -> u64,
    at: u64,
) -> bool {
    &&& c.attack_s == if heads(d, later(at, 0)) {
        a.attack_s
    } else {
        b.attack_s
    }
    &&& c.decay_s == if heads(d, later(at, 1)) {
        a.decay_s
    } else {
        b.decay_s
    }
    &&& c.sustain_level == if heads(d, later(at, 2)) {
        a.sustain_level
    } else {
        b.sustain_level
    }
    &&& c.release_s == if heads(d, later(at, 3)) {
        a.release_s
    } else {
        b.release_s
    }
    &&& c.curve == if heads(d, later(at, 4)) {
        a.curve
    } else {
        b.curve
    }
}

/// An envelope's child takes every field by a coin of its own, and is
/// lengthened where it has become too short.
pub proof fn law_envelope_children_take_field_by_field(
    a: AdsrEnvelope,
    b: AdsrEnvelope,
    d: spec_fn(u64, Draw) -> u64,
    at: u64,
)
    ensures
        ({
            let (r, end): (AdsrEnvelope, u64) = a.crossed(b, d, at);
            &&& end == later(at, 5)
            &&& exists|c: AdsrEnvelope| #[trigger] envelope_picked(a, b, c, d, at) && lengthened(c, r)
        }),
{
    lemma_counts(at);
    let c: AdsrEnvelope = AdsrEnvelope {
        attack_s: genetics::picked(a.attack_s, b.attack_s, d, at),
        decay_s: genetics::picked(a.decay_s, b.decay_s, d, genetics::nth(at, 1)),
        sustain_level: genetics::picked(a.sustain_level, b.sustain_level, d, genetics::nth(at, 2)),
        release_s: genetics::picked(a.release_s, b.release_s, d, genetics::nth(at, 3)),
        curve: genetics::picked(a.curve, b.curve, d, genetics::nth(at, 4)),
    };
    assert(envelope_picked(a, b, c, d, at));
    assert(lengthened(c, a.crossed(b, d, at).0));
}

/// A lowpass's child takes every field by a coin of its own.
pub proof fn law_lowpass_children_take_field_by_field(
    a: BiquadLowpass,
    b: BiquadLowpass,
    d: spec_fn(u64, Draw) -> u64,
    at: u64,
)
    ensures
        ({
            let (c, end): (BiquadLowpass, u64) = a.crossed(b, d, at);
            &&& c.cutoff_hz == if heads(d, later(at, 0)) {
                a.cutoff_hz
            } else {
                b.cutoff_hz
            }
            &&& c.q == if heads(d, later(at, 1)) {
                a.q
            } else {
                b.q
            }
            &&& end == later(at, 2)
        }),
{
    lemma_counts(at);
}

/// A highpass's child takes every field by a coin of its own.
pub proof fn law_highpass_children_take_field_by_field(
    a: BiquadHighpass,
    b: BiquadHighpass,
    d: spec_fn(u64, Draw) -> u64,
    at: u64,
)
    ensures
        ({
            let (c, end): (BiquadHighpass, u64) = a.crossed(b, d, at);
            &&& c.cutoff_hz == if heads(d, later(at, 0)) {
                a.cutoff_hz
            } else {
                b.cutoff_hz
            }
            &&& c.q == if heads(d, later(at, 1)) {
                a.q
            } else {
                b.q
            }
            &&& end == later(at, 2)
        }),
{
    lemma_counts(at);
}

/// A bandpass's child takes every field by a coin of its own.
pub proof fn law_bandpass_children_take_field_by_field(
    a: BiquadBandpass,
    b: BiquadBandpass,
    d: spec_fn(u64, Draw) -> u64,
    at: u64,
)
    ensures
        ({
            let (c, end): (BiquadBandpass, u64) = a.crossed(b, d, at);
            &&& c.center_hz == if heads(d, later(at, 0)) {
                a.center_hz
            } else {
                b.center_hz
            }
            &&& c.q == if heads(d, later(at, 1)) {
                a.q
            } else {
                b.q
            }
            &&& end == later(at, 2)
        }),
{
    lemma_counts(at);
}

/// A low-frequency oscillator's child takes every field by a coin of its own.
pub proof fn law_lfo_children_take_field_by_field(
    a: Lfo,
    b: Lfo,
    d: spec_fn(u64, Draw) -> u64,
    at: u64,
)
    ensures
        ({
            let (c, end): (Lfo, u64) = a.crossed(b, d, at);
            &&& c.rate_hz == if heads(d, later(at, 0)) {
                a.rate_hz
            } else {
                b.rate_hz
            }
            &&& c.shape == if heads(d, later(at, 1)) {
                a.shape
            } else {
                b.shape
            }
            &&& c.depth == if heads(d, later(at, 2)) {
                a.depth
            } else {
                b.depth
            }
            &&& c.offset == if heads(d, later(at, 3)) {
                a.offset
            } else {
                b.offset
            }
            &&& end == later(at, 4)
        }),
{
    lemma_counts(at);
}

/// A mixer's child takes every field by a coin of its own.
pub proof fn law_mix_children_take_field_by_field(
    a: Mix,
    b: Mix,
    d: spec_fn(u64, Draw) -> u64,
    at: u64,
)
    ensures
        ({
            let (c, end): (Mix, u64) = a.crossed(b, d, at);
            &&& c.gain == if heads(d, later(at, 0)) {
                a.gain
            } else {
                b.gain
            }
            &&& end == later(at, 1)
        }),
{
    lemma_counts(at);
}

/// An amplifier's child takes every field by a coin of its own.
pub proof fn law_gain_children_take_field_by_field(
    a: Gain,
    b: Gain,
    d: spec_fn(u64, Draw) -> u64,
    at: u64,
)
    ensures
        ({
            let (c, end): (Gain, u64) = a.crossed(b, d, at);
            &&& c.gain == if heads(d, later(at, 0)) {
                a.gain
            } else {
                b.gain
            }
            &&& end == later(at, 1)
        }),
{
    lemma_counts(at);
}

/// A note gate's child takes every field by a coin of its own.
pub proof fn law_gate_children_take_field_by_field(
    a: Gate,
    b: Gate,
    d: spec_fn(u64, Draw) -> u64,
    at: u64,
)
    ensures
        ({
            let (c, end): (Gate, u64) = a.crossed(b, d, at);
            &&& c.invert == if heads(d, later(at, 0)) {
                a.invert
            } else {
                b.invert
            }
            &&& end == later(at, 1)
        }),
{
    lemma_counts(at);
}

/// A chorus's child takes every field by a coin of its own.
pub proof fn law_chorus_children_take_field_by_field(
    a: Chorus,
    b: Chorus,
    d: spec_fn(u64, Draw) -> u64,
    at: u64,
)
    ensures
        ({
            let (c, end): (Chorus, u64) = a.crossed(b, d, at);
            &&& c.rate_hz == if heads(d, later(at, 0)) {
                a.rate_hz
            } else {
                b.rate_hz
            }
            &&& c.depth_ms == if heads(d, later(at, 1)) {
                a.depth_ms
            } else {
                b.depth_ms
            }
            &&& c.base_delay_ms == if heads(d, later(at, 2)) {
                a.base_delay_ms
            } else {
                b.base_delay_ms
            }
            &&& c.feedback == if heads(d, later(at, 3)) {
                a.feedback
            } else {
                b.feedback
            }
            &&& c.mix == if heads(d, later(at, 4)) {
                a.mix
            } else {
                b.mix
            }
            &&& end == later(at, 5)
        }),
{
    lemma_counts(at);
}

/// A reverb's child takes every field by a coin of its own.
pub proof fn law_reverb_children_take_field_by_field(
    a: Reverb,
    b: Reverb,
    d: spec_fn(u64, Draw) -> u64,
    at: u64,
)
    ensures
        ({
            let (c, end): (Reverb, u64) = a.crossed(b, d, at);
            &&& c.room_size == if heads(d, later(at, 0)) {
                a.room_size
            } else {
                b.room_size
            }
            &&& c.damping == if heads(d, later(at, 1)) {
                a.damping
            } else {
                b.damping
            }
            &&& c.mix == if heads(d, later(at, 2)) {
                a.mix
            } else {
                b.mix
            }
            &&& end == later(at, 3)
        }),
{
    lemma_counts(at);
}

/// Where the draws begin once `k` numbers have had theirs.
pub open spec fn past_all(d: spec_fn(u64, Draw) -> u64, at: u64, rate: F32, k: int) -> u64
    decreases k,
{
    if k <= 0 {
        at
    } else {
        past(d, past_all(d, at, rate, k - 1), rate)
    }
}

/// How many events the first `t` tracks hold.
pub open spec fn events_before(tracks: Seq<TrackView>, t: int) -> int
    decreases t,
{
    if t <= 0 {
        0
    } else {
        events_before(tracks, t - 1) + tracks[t - 1].events.len()
    }
}

/// A recipe mutates its tempo first and then the volume of every event, track
/// by track and event by event, each by draws of its own.
pub proof fn law_recipes_mutate_number_by_number(
    r: RecipeView,
    d: spec_fn(u64, Draw) -> u64,
    f: spec_fn(Elementary, F32) -> F32,
    at: u64,
    rate: F32,
)
    ensures
        ({
            let (m, end): (RecipeView, u64) = lineage::recipe_mutated(r, d, f, at, rate);
            let at1: u64 = past(d, at, rate);
            let all: int = events_before(r.tracks, r.tracks.len() as int);
            &&& scaled(r.bpm, m.bpm, d, f, at, rate, BPM_HALF_OCTAVES, BPM_MIN, BPM_MAX)
            &&& m.tracks.len() == r.tracks.len()
            &&& forall|t: int|
                0 <= t < r.tracks.len() ==> (#[trigger] m.tracks[t]).events.len()
                    == r.tracks[t].events.len()
            &&& forall|t: int, e: int|
                0 <= t < r.tracks.len() && 0 <= e < r.tracks[t].events.len() ==> shifted(
                    r.tracks[t].events[e].volume,
                    (#[trigger] m.tracks[t].events[e]).volume,
                    d,
                    past_all(d, at1, rate, events_before(r.tracks, t) + e),
                    rate,
                    VOLUME_HALF_RANGE,
                    0,
                    ONE,
                )
            &&& end == past_all(d, at1, rate, all)
        }),
{
    lemma_scaled(r.bpm, d, f, at, rate, BPM_HALF_OCTAVES, BPM_MIN, BPM_MAX);
    lemma_tracks_shifted(r.tracks, d, past(d, at, rate), rate);
}

/// Draws begin where the draws of so many numbers end, however these are
/// divided.
proof fn lemma_past_all(d: spec_fn(u64, Draw) -> u64, at: u64, rate: F32, j: int, k: int)
    requires
        0 <= j,
        0 <= k,
    ensures
        past_all(d, past_all(d, at, rate, j), rate, k) == past_all(d, at, rate, j + k),
    decreases k,
{
    if k > 0 {
        lemma_past_all(d, at, rate, j, k - 1);
    }
}

/// The volumes of a track, one after the other.
proof fn lemma_events_shifted(
    events: Seq<EventView>,
    d: spec_fn(u64, Draw) -> u64,
    at: u64,
    rate: F32,
)
    ensures
        ({
            let (m, end): (Seq<EventView>, u64) = lineage::events_mutated(events, d, at, rate);
            &&& m.len() == events.len()
            &&& end == past_all(d, at, rate, events.len() as int)
            &&& forall|e: int|
                0 <= e < events.len() ==> shifted(
                    events[e].volume,
                    (#[trigger] m[e]).volume,
                    d,
                    past_all(d, at, rate, e),
                    rate,
                    VOLUME_HALF_RANGE,
                    0,
                    ONE,
                )
        }),
    decreases events.len(),
{
    if events.len() > 0 {
        let front: Seq<EventView> = events.drop_last();
        lemma_events_shifted(front, d, at, rate);
        let n: int = front.len() as int;
        lemma_shifted(
            events.last().volume,
            d,
            past_all(d, at, rate, n),
            rate,
            VOLUME_HALF_RANGE,
            0,
            ONE,
        );
        let m: Seq<EventView> = lineage::events_mutated(events, d, at, rate).0;
        let before: Seq<EventView> = lineage::events_mutated(front, d, at, rate).0;
        assert forall|e: int| 0 <= e < events.len() implies shifted(
            events[e].volume,
            (#[trigger] m[e]).volume,
            d,
            past_all(d, at, rate, e),
            rate,
            VOLUME_HALF_RANGE,
            0,
            ONE,
        ) by {
            if e < n {
                assert(m[e] == before[e]);
                assert(events[e] == front[e]);
            }
        }
    }
}

/// The volumes of all tracks, one track after the other.
proof fn lemma_tracks_shifted(
    tracks: Seq<TrackView>,
    d: spec_fn(u64, Draw) -> u64,
    at: u64,
    rate: F32,
)
    ensures
        ({
            let (m, end): (Seq<TrackView>, u64) = lineage::tracks_mutated(tracks, d, at, rate);
            &&& m.len() == tracks.len()
            &&& end == past_all(d, at, rate, events_before(tracks, tracks.len() as int))
            &&& forall|t: int|
                0 <= t < tracks.len() ==> (#[trigger] m[t]).events.len() == tracks[t].events.len()
            &&& forall|t: int, e: int|
                0 <= t < tracks.len() && 0 <= e < tracks[t].events.len() ==> shifted(
                    tracks[t].events[e].volume,
                    (#[trigger] m[t].events[e]).volume,
                    d,
                    past_all(d, at, rate, events_before(tracks, t) + e),
                    rate,
                    VOLUME_HALF_RANGE,
                    0,
                    ONE,
                )
        }),
    decreases tracks.len(),
{
    if tracks.len() > 0 {
        let front: Seq<TrackView> = tracks.drop_last();
        let n: int = front.len() as int;
        lemma_tracks_shifted(front, d, at, rate);
        assert forall|t: int| 0 <= t <= n implies #[trigger] events_before(front, t)
            == events_before(tracks, t) by {
            lemma_events_before(tracks, t);
        }
        let so_far: int = events_before(tracks, n);
        lemma_count_is_not_negative(tracks, n);
        let next: u64 = past_all(d, at, rate, so_far);
        lemma_events_shifted(tracks.last().events, d, next, rate);
        let m: Seq<TrackView> = lineage::tracks_mutated(tracks, d, at, rate).0;
        let before: Seq<TrackView> = lineage::tracks_mutated(front, d, at, rate).0;
        lemma_past_all(d, at, rate, so_far, tracks.last().events.len() as int);
        assert forall|t: int| 0 <= t < tracks.len() implies (#[trigger] m[t]).events.len()
            == tracks[t].events.len() by {
            if t < n {
                assert(m[t] == before[t]);
            }
        }
        assert forall|t: int, e: int|
            0 <= t < tracks.len() && 0 <= e < tracks[t].events.len() implies shifted(
            tracks[t].events[e].volume,
            (#[trigger] m[t].events[e]).volume,
            d,
            past_all(d, at, rate, events_before(tracks, t) + e),
            rate,
            VOLUME_HALF_RANGE,
            0,
            ONE,
        ) by {
            if t < n {
                assert(m[t] == before[t]);
                assert(tracks[t] == front[t]);
                assert(before[t].events[e] == m[t].events[e]);
                assert(events_before(front, t) == events_before(tracks, t));
            } else {
                lemma_past_all(d, at, rate, so_far, e);
            }
        }
    }
}

/// The last track does not count for those before it.
proof fn lemma_events_before(tracks: Seq<TrackView>, t: int)
    requires
        0 <= t < tracks.len(),
    ensures
        events_before(tracks.drop_last(), t) == events_before(tracks, t),
    decreases t,
{
    if t > 0 {
        lemma_events_before(tracks, t - 1);
    }
}

/// No track holds fewer than no events.
proof fn lemma_count_is_not_negative(tracks: Seq<TrackView>, t: int)
    ensures
        events_before(tracks, t) >= 0,
    decreases t,
{
    if t > 0 {
        lemma_count_is_not_negative(tracks, t - 1);
    }
}

/// A recipe's child takes every field whole, by a coin of its own.
pub proof fn law_recipe_children_take_field_by_field(
    a: RecipeView,
    b: RecipeView,
    d: spec_fn(u64, Draw) -> u64,
    at: u64,
)
    ensures
        ({
            let c: RecipeView = lineage::recipe_crossed(a, b, d, at);
            let from: spec_fn(int) -> RecipeView = |k: int|
                if heads(d, later(at, k)) {
                    a
                } else {
                    b
                };
            &&& c.bpm == from(0).bpm
            &&& c.sample_rate == from(1).sample_rate
            &&& c.duration_beats == from(2).duration_beats
            &&& c.loop_start_beats == from(3).loop_start_beats
            &&& c.loop_crossfade_beats == from(4).loop_crossfade_beats
            &&& c.instruments == from(5).instruments
            &&& c.tracks == from(6).tracks
        }),
{
    lemma_counts(at);
}

} // verus!
