//! What the generators sound: how a phase turns, which wave it makes, how an
//! edge is rounded off, and what the noises make of their draws.
use crate::accuracy;
use crate::accuracy::{gap, size, PARTS};
use crate::adsr::AdsrEnvelope;
use crate::arith::Parts;
use crate::chorus::Chorus;
use crate::constants::{FOUR, HALF, MINUS_ONE, ONE, TWO, TWO_PI};
use crate::elementary::Elementary;
use crate::float::{F32, F64};
use crate::lfo;
use crate::lfo::{Lfo, LfoShape, LfoState};
use crate::limits;
use crate::mix::{Gain, Mix};
use crate::node;
use crate::node::{ContextView, Node, StateView, Step};
use crate::noise::{
    BrownNoise, BrownState, PinkNoise, PinkState, WhiteNoise, BROWN_LEAK_DIVISOR, BROWN_NORMALISE,
    BROWN_STEP, MINUS_TWO, PINK_DECAY_0, PINK_DECAY_1, PINK_DECAY_2, PINK_DIRECT, PINK_FEED_0,
    PINK_FEED_1, PINK_FEED_2, PINK_NORMALISE,
};
use crate::numbers;
use crate::numbers::{scale, value};
use crate::oscillator;
use crate::oscillator::{
    AntiAlias, OscPhase, SawPolarity, SawtoothOsc, SineOsc, SquareOsc, TriangleOsc, EPSILON,
    MAX_BLEP_DT, ONE_LESS_EPSILON, THIRD,
};
use crate::reverb::Reverb;
use crate::rounding;
use crate::rounding::Width;
use crate::stream;
use crate::stream::Stream;
use vstd::arithmetic::div_mod::*;
use vstd::arithmetic::mul::*;
use vstd::arithmetic::power2::*;
use vstd::prelude::*;

verus! {

/// A phase moves on by the cycles of a sample, the frequency over the sample
/// rate, and what is left of whole cycles stays.
pub proof fn law_phases_move_on_by_the_frequency(phase: F32, freq: F32, rate: F32)
    requires
        phase.plus(freq.over(rate)).is_finite(),
        F32::of(0).le(phase.plus(freq.over(rate))),
    ensures
        value(oscillator::advance(phase, freq, rate)) == value(phase.plus(freq.over(rate)))
            % scale(),
{
    oscillator::law_wrapped_is_a_phase(phase.plus(freq.over(rate)));
}

/// Whole cycles do not count, in either direction: a number of cycles wraps
/// to what is left of it above the whole cycles below, up to rounding; what
/// is rounded up to a whole cycle starts over.
pub proof fn law_cycles_wrap_to_their_fraction(cycles: F32)
    requires
        cycles.is_finite(),
    ensures
        ({
            let left: int = value(cycles) % scale();
            let phase: int = value(oscillator::wrapped(cycles));
            ||| PARTS * gap(phase, left) <= scale()
            ||| phase == 0 && PARTS * (scale() - left) <= scale()
        }),
{
    let zero: F32 = F32::of(0);
    let one: F32 = F32::of(ONE);
    let s: int = scale();
    numbers::lemma_zero_one();
    numbers::lemma_value_order(zero, cycles);
    if zero.le(cycles) {
        oscillator::law_wrapped_is_a_phase(cycles);
    } else {
        let r: F32 = cycles.modulo(one);
        lemma_left(cycles);
        let m: int = -value(r);
        lemma_mod_bound(-value(cycles), s);
        lemma_fundamental_div_mod(-value(cycles), s);
        let q: int = (-value(cycles)) / s;
        assert(value(cycles) == -q * s - m) by (nonlinear_arith)
            requires
                -value(cycles) == s * q + m,
        ;
        numbers::lemma_value_order(r, zero);
        numbers::lemma_magnitude(one);
        let out: F32 = cycles.rem_euclid(one);
        assert(out == if r.lt(zero) {
            r.plus(one.magnitude())
        } else {
            r
        }) by {
            reveal(F32::spec_rem_euclid);
        }
        if m > 0 {
            numbers::lemma_plus_between(r, one.magnitude(), zero, one);
            accuracy::law_sums_are_accurate(r, one.magnitude());
            assert((-q - 1) * s + (s - m) == value(cycles)) by (nonlinear_arith)
                requires
                    value(cycles) == -q * s - m,
            ;
            lemma_fundamental_div_mod_converse(value(cycles), s, -q - 1, s - m);
        } else {
            assert(-q * s + 0 == value(cycles));
            lemma_fundamental_div_mod_converse(value(cycles), s, -q, 0);
        }
        numbers::lemma_value_order(one, out);
    }
}

/// What is left of a negative number once whole cycles are taken away.
proof fn lemma_left(cycles: F32)
    requires
        cycles.is_finite(),
        value(cycles) < 0,
    ensures
        cycles.modulo(F32::of(ONE)).is_finite(),
        value(cycles.modulo(F32::of(ONE))) == -((-value(cycles)) % scale()),
{
    let w: Width = Width::Single;
    let a: Parts = cycles.parts();
    let b: Parts = F32::of(ONE).parts();
    numbers::lemma_zero_one();
    rounding::lemma_step(w);
    assert(a.is_finite(w) && b.is_finite(w)) by {
        reveal(F32::spec_is_finite);
    }
    rounding::lemma_encode_exact(w, a.code as int);
    let code: int = numbers::lemma_remainder_encoded(w, a.code as int, 149);
    rounding::lemma_encode_exact(w, code);
    let p: Parts = Parts::remainder(w, a, b);
    assert(p == (Parts { neg: true, code: code as u64 }));
    assert(cycles.modulo(F32::of(ONE)).parts() == p) by {
        reveal(F32::spec_modulo);
    }
    reveal(F32::spec_is_finite);
}

/// What an oscillator reads as its phase, its frequency, and how its context
/// goes on: with a phase of its own it reads and turns that one; without one
/// it reads the time, and keeps nothing.
pub open spec fn turns(step: Step, c: ContextView, freq: F32, phase: F32) -> bool {
    match c.state {
        StateView::Osc(s) => {
            &&& phase == s.phase
            &&& step.after == ContextView {
                state: StateView::Osc(
                    OscPhase {
                        phase: oscillator::advance(
                            s.phase,
                            freq,
                            F32::from_u64(c.sample_rate as u64),
                        ),
                    },
                ),
                ..c
            }
        },
        _ => {
            &&& phase == oscillator::stateless_phase(c.time_secs(), freq)
            &&& step.after == c
        },
    }
}

/// Every oscillator puts out its own wave at its phase, times its amplitude
/// with the `"amplitude"` port added, and turns by its frequency with the
/// `"freq"` port added; it starts at phase zero.
pub proof fn law_oscillators_sound_their_waves(
    sine: SineOsc,
    square: SquareOsc,
    saw: SawtoothOsc,
    triangle: TriangleOsc,
    c: ContextView,
    f: spec_fn(Elementary, F32) -> F32,
    phase: F32,
)
    requires
        c.state matches StateView::Osc(s) && phase == s.phase,
    ensures
        ({
            let freq: F32 = sine.freq_hz.plus(c.input("freq"@));
            let angle: F32 = phase.plus(sine.phase_offset).rem_euclid(F32::of(ONE));
            let amp: F32 = sine.amplitude.plus(c.input("amplitude"@));
            &&& turns(sine.step(c, f), c, freq, phase)
            &&& sine.step(c, f).out == f(Elementary::Sin, F32::of(TWO_PI).times(angle)).times(amp)
        }),
        ({
            let freq: F32 = square.freq_hz.plus(c.input("freq"@));
            let amp: F32 = square.amplitude.plus(c.input("amplitude"@));
            &&& turns(square.step(c, f), c, freq, phase)
            &&& square.step(c, f).out == square.wave(
                phase,
                freq.over(F32::from_u64(c.sample_rate as u64)),
            ).times(amp)
        }),
        ({
            let freq: F32 = saw.freq_hz.plus(c.input("freq"@));
            let amp: F32 = saw.amplitude.plus(c.input("amplitude"@));
            &&& turns(saw.step(c, f), c, freq, phase)
            &&& saw.step(c, f).out == saw.wave(
                phase,
                freq.over(F32::from_u64(c.sample_rate as u64)),
            ).times(amp)
        }),
        ({
            let freq: F32 = triangle.freq_hz.plus(c.input("freq"@));
            let amp: F32 = triangle.amplitude.plus(c.input("amplitude"@));
            &&& turns(triangle.step(c, f), c, freq, phase)
            &&& triangle.step(c, f).out == triangle.wave(
                phase,
                freq.over(F32::from_u64(c.sample_rate as u64)),
            ).times(amp)
        }),
        ({
            let start: StateView = StateView::Osc(OscPhase { phase: F32::of(0) });
            &&& sine.initial() == start && square.initial() == start
            &&& saw.initial() == start && triangle.initial() == start
        }),
{
}

/// An oscillator that keeps no phase reads it off the time: the cycles since
/// the first sample without the whole ones.  It sounds the same wave there.
pub proof fn law_oscillators_without_a_phase_read_the_time(
    sine: SineOsc,
    square: SquareOsc,
    saw: SawtoothOsc,
    triangle: TriangleOsc,
    c: ContextView,
    f: spec_fn(Elementary, F32) -> F32,
    freq: F32,
    phase: F32,
)
    requires
        !(c.state is Osc),
        ({
            let seconds: F64 = F64::from_u64(c.sample_index).over(
                F64::from_u64(c.sample_rate as u64),
            );
            phase == oscillator::wrapped(seconds.narrow().times(freq))
        }),
    ensures
        freq == sine.freq_hz.plus(c.input("freq"@)) ==> sine.step(c, f) == (Step {
            out: f(
                Elementary::Sin,
                F32::of(TWO_PI).times(phase.plus(sine.phase_offset).rem_euclid(F32::of(ONE))),
            ).times(sine.amplitude.plus(c.input("amplitude"@))),
            after: c,
        }),
        freq == square.freq_hz.plus(c.input("freq"@)) ==> square.step(c, f) == (Step {
            out: square.wave(phase, freq.over(F32::from_u64(c.sample_rate as u64))).times(
                square.amplitude.plus(c.input("amplitude"@)),
            ),
            after: c,
        }),
        freq == saw.freq_hz.plus(c.input("freq"@)) ==> saw.step(c, f) == (Step {
            out: saw.wave(phase, freq.over(F32::from_u64(c.sample_rate as u64))).times(
                saw.amplitude.plus(c.input("amplitude"@)),
            ),
            after: c,
        }),
        freq == triangle.freq_hz.plus(c.input("freq"@)) ==> triangle.step(c, f) == (Step {
            out: triangle.wave(phase, freq.over(F32::from_u64(c.sample_rate as u64))).times(
                triangle.amplitude.plus(c.input("amplitude"@)),
            ),
            after: c,
        }),
{
}

/// A node that finds none of what it keeps does the least that makes sense
/// and keeps nothing: a noise is white, an envelope is its sustain level while
/// its `"gate"` port is up, a low-frequency oscillator is its offset, and an
/// effect passes its input on.
pub proof fn law_nodes_without_their_state_do_the_least(
    pink: PinkNoise,
    brown: BrownNoise,
    envelope: AdsrEnvelope,
    slow: Lfo,
    chorus: Chorus,
    reverb: Reverb,
    c: ContextView,
    f: spec_fn(Elementary, F32) -> F32,
)
    requires
        c.state is Stateless,
    ensures
        ({
            let drawn: ContextView = ContextView { rng: c.rng.next(), ..c };
            let x: F32 = c.rng.noise();
            &&& pink.step(c, f) == (Step { out: x.times(pink.amplitude), after: drawn })
            &&& brown.step(c, f) == (Step { out: x.times(brown.amplitude), after: drawn })
        }),
        envelope.step(c, f) == (Step {
            out: if F32::of(HALF).lt(c.input("gate"@)) {
                envelope.sustain_level
            } else {
                F32::of(0)
            },
            after: c,
        }),
        slow.step(c, f) == (Step { out: slow.offset, after: c }),
        chorus.step(c, f) == (Step { out: c.input("in"@), after: c }),
        reverb.step(c, f) == (Step { out: c.input("in"@), after: c }),
{
}

/// A wave is as far up or down as it should be, to one part in two to the
/// 20th.
pub open spec fn traces(wave: F32, exact: int) -> bool {
    wave.is_finite() && 0x10_0000 * gap(value(wave), exact) <= scale()
}

/// Twice a number between zero and one.
proof fn lemma_doubled(x: F32)
    requires
        x.is_finite(),
        -scale() <= value(x) <= scale(),
    ensures
        F32::of(TWO).times(x).is_finite(),
        value(F32::of(TWO).times(x)) == 2 * value(x),
{
    numbers::lemma_zero_one();
    accuracy::lemma_half_two();
    lemma_minus_two();
    let s: int = scale();
    let two: F32 = F32::of(TWO);
    let v: int = value(x);
    assert((2 * s) * v == (2 * v) * s) by (nonlinear_arith);
    assert((-2 * s) * s <= (2 * v) * s <= (2 * s) * s) by (nonlinear_arith)
        requires
            -s <= v <= s,
            s > 0,
    ;
    numbers::lemma_times_between(two, x, F32::of(MINUS_TWO), two);
    lemma_scaled_exactly(two, x, 2);
}

/// The value of minus two.
proof fn lemma_minus_two()
    ensures
        F32::of(MINUS_TWO).is_finite(),
        value(F32::of(MINUS_TWO)) == -2 * scale(),
        scale() > 0x1_0000_0000,
{
    accuracy::lemma_half_two();
    assert(F32::of(MINUS_TWO) == F32::of(TWO).negated()) by {
        reveal(F32::spec_negated);
    }
    numbers::lemma_negated(F32::of(TWO));
    lemma2_to64();
    lemma_pow2_adds(32, 117);
    lemma_pow2_strictly_increases(32, 149);
}

/// A product by two or by four loses nothing.
proof fn lemma_scaled_exactly(factor: F32, x: F32, k: int)
    requires
        factor.is_finite(),
        x.is_finite(),
        k == 2 || k == 4,
        value(factor) == k * scale(),
        factor.times(x).is_finite(),
        -4 * scale() <= value(x) <= 4 * scale(),
    ensures
        value(factor.times(x)) == k * value(x),
{
    let w: Width = Width::Single;
    let a: Parts = factor.parts();
    let b: Parts = x.parts();
    let s: int = scale();
    lemma_pow2_pos(149);
    rounding::lemma_step(w);
    assert(a.is_finite(w) && b.is_finite(w)) by {
        reveal(F32::spec_is_finite);
    }
    rounding::lemma_encode_exact(w, a.code as int);
    rounding::lemma_encode_exact(w, b.code as int);
    assert(!a.neg && a.size(w) == k * s) by {
        lemma_mul_strictly_positive(k, s);
    }
    let code: int = b.code as int;
    rounding::lemma_units_parts(w, code);
    lemma2_to64();
    let (sig, exp): (int, nat) = if code < w.step() {
        (code, 0nat)
    } else {
        (w.step() + code % w.step(), (code / w.step() - 1) as nat)
    };
    lemma_mul_basics_3(sig);
    assert(b.size(w) == sig * pow2(exp));
    let more: nat = if k == 2 {
        1
    } else {
        2
    };
    assert(pow2(more) == k);
    lemma_pow2_adds(more, exp);
    if exp + more + 1 >= w.top_field() {
        assert(b.size(w) > 4 * s) by {
            lemma_pow2_strictly_increases(149, exp);
            lemma_pow2_pos(exp);
            assert(sig * pow2(exp) >= 0x80_0000 * pow2(exp)) by (nonlinear_arith)
                requires
                    sig >= 0x80_0000,
                    pow2(exp) >= 0,
            ;
        }
    }
    let c: int = numbers::lemma_representable(w, sig, more + exp);
    assert(sig * pow2(more + exp) == k * b.size(w)) by (nonlinear_arith)
        requires
            pow2(more + exp) == k * pow2(exp),
            b.size(w) == sig * pow2(exp),
    ;
    rounding::lemma_encode_exact(w, c);
    let n: int = a.size(w) * b.size(w);
    assert(n == (k * b.size(w)) * s) by (nonlinear_arith)
        requires
            n == (k * s) * b.size(w),
    ;
    lemma_mul_nonnegative(a.size(w), b.size(w));
    lemma_mul_nonnegative(k, b.size(w));
    lemma_mul_basics_3(n);
    rounding::lemma_encode_ratio(w, n, s, k * b.size(w), 1);
    reveal(F32::spec_times);
    assert(factor.times(x).parts().code == c);
    assert(k * -b.size(w) == -(k * b.size(w))) by (nonlinear_arith);
}

/// The raw waves: a square is up while the phase is below the duty and down
/// from there on; a sawtooth climbs evenly from minus one to one, or falls
/// evenly back; a triangle climbs from minus one at phase zero to one at one
/// half and falls back.
pub proof fn law_raw_waves_follow_their_shapes(
    square: SquareOsc,
    saw: SawtoothOsc,
    triangle: TriangleOsc,
    phase: F32,
    dt: F32,
    duty: F32,
)
    requires
        phase.is_finite(),
        F32::of(0).le(phase),
        phase.le(F32::of(ONE)),
        square.anti_alias == AntiAlias::Naive,
        saw.anti_alias == AntiAlias::Naive,
        triangle.anti_alias == AntiAlias::Naive,
        square.duty.is_finite(),
        limits::nearest(square.duty, duty, F32::of(EPSILON), F32::of(ONE_LESS_EPSILON)),
    ensures
        square.wave(phase, dt) == (if phase.lt(duty) {
            F32::of(ONE)
        } else {
            F32::of(MINUS_ONE)
        }),
        traces(
            saw.wave(phase, dt),
            match saw.polarity {
                SawPolarity::Up => 2 * value(phase) - scale(),
                SawPolarity::Down => scale() - 2 * value(phase),
            },
        ),
        traces(triangle.wave(phase, dt), scale() - 2 * size(2 * value(phase) - scale())),
{
    numbers::lemma_zero_one();
    numbers::lemma_value_order(F32::of(0), phase);
    numbers::lemma_value_order(phase, F32::of(ONE));
    assert(duty == square.duty.clamp(F32::of(EPSILON), F32::of(ONE_LESS_EPSILON))) by {
        reveal(F32::spec_clamp);
        reveal(F32::spec_lt);
    }
    lemma_ramp(phase);
    lemma_tent(phase);
}

/// A ramp from minus one to one and back.
proof fn lemma_ramp(phase: F32)
    requires
        phase.is_finite(),
        0 <= value(phase) <= scale(),
    ensures
        traces(F32::of(TWO).times(phase).minus(F32::of(ONE)), 2 * value(phase) - scale()),
        traces(F32::of(ONE).minus(F32::of(TWO).times(phase)), scale() - 2 * value(phase)),
{
    numbers::lemma_zero_one();
    lemma_doubled(phase);
    let one: F32 = F32::of(ONE);
    let low: F32 = F32::of(MINUS_ONE);
    let ramp: F32 = F32::of(TWO).times(phase);
    numbers::lemma_minus_between(ramp, one, low, one);
    numbers::lemma_minus_between(one, ramp, low, one);
    accuracy::law_differences_are_accurate(ramp, one);
    accuracy::law_differences_are_accurate(one, ramp);
}

/// A tent that is one at one half.
proof fn lemma_tent(phase: F32)
    requires
        phase.is_finite(),
        0 <= value(phase) <= scale(),
    ensures
        traces(
            F32::of(ONE).minus(F32::of(FOUR).times(phase.minus(F32::of(HALF)).magnitude())),
            scale() - 2 * size(2 * value(phase) - scale()),
        ),
{
    numbers::lemma_zero_one();
    accuracy::lemma_half_two();
    lemma_minus_two();
    let one: F32 = F32::of(ONE);
    let zero: F32 = F32::of(0);
    let half: F32 = F32::of(HALF);
    let two: F32 = F32::of(TWO);
    let four: F32 = F32::of(FOUR);
    let s: int = scale();
    let v: int = value(phase);
    numbers::lemma_value_of(FOUR, 0x80_0000, 128);
    lemma_pow2_adds(23, 128);
    lemma_pow2_adds(2, 149);
    lemma2_to64();
    numbers::lemma_negated(half);
    numbers::lemma_minus_between(phase, half, half.negated(), half);
    let d: F32 = phase.minus(half);
    numbers::lemma_value_order(half.negated(), d);
    numbers::lemma_value_order(d, half);
    accuracy::law_differences_are_accurate(phase, half);
    numbers::lemma_magnitude(d);
    let m: F32 = d.magnitude();
    let x: int = value(m);
    assert(0 <= (4 * s) * x <= (2 * s) * s) by (nonlinear_arith)
        requires
            0 <= x,
            2 * x <= s,
            s > 0,
    ;
    assert(0 * s == 0) by (nonlinear_arith);
    numbers::lemma_times_between(four, m, zero, two);
    lemma_scaled_exactly(four, m, 4);
    let q: F32 = four.times(m);
    numbers::lemma_minus_between(one, q, F32::of(MINUS_ONE), one);
    accuracy::law_differences_are_accurate(one, q);
}

/// The step at phase zero is rounded off by a parabola on either side: behind
/// the edge by minus the square of what is left of a sample, before it by the
/// square of what has passed of it.
pub proof fn law_steps_are_rounded_by_parabolas(t: F32, dt: F32)
    requires
        t.is_finite(),
        dt.is_finite(),
        F32::of(0).lt(dt),
        dt.lt(F32::of(MAX_BLEP_DT)),
    ensures
        F32::of(0).le(t) && t.lt(dt) ==> ({
            let left: int = scale() - value(t.over(dt));
            let out: F32 = oscillator::poly_blep(t, dt);
            out.is_finite() && 0x10_0000 * gap(value(out) * scale(), -(left * left)) <= scale()
                * scale()
        }),
        !t.lt(dt) && F32::of(ONE).minus(dt).lt(t) && ({
            let y: F32 = t.minus(F32::of(ONE)).over(dt);
            y.is_finite() && -scale() <= value(y) <= 0
        }) ==> ({
            let passed: int = scale() + value(t.minus(F32::of(ONE)).over(dt));
            let out: F32 = oscillator::poly_blep(t, dt);
            out.is_finite() && 0x10_0000 * gap(value(out) * scale(), passed * passed) <= scale()
                * scale()
        }),
{
    numbers::lemma_zero_one();
    numbers::lemma_value_order(F32::of(0), dt);
    if F32::of(0).le(t) && t.lt(dt) {
        numbers::lemma_value_order(F32::of(0), t);
        numbers::lemma_value_order(t, dt);
        lemma_fraction_of(t, dt);
        lemma_parabola(t.over(dt));
    }
    let y: F32 = t.minus(F32::of(ONE)).over(dt);
    if !t.lt(dt) && F32::of(ONE).minus(dt).lt(t) && y.is_finite() && -scale() <= value(y) <= 0 {
        lemma_parabola_before(y);
    }
}

/// A quotient of a number by a larger one lies between zero and one.
proof fn lemma_fraction_of(t: F32, dt: F32)
    requires
        t.is_finite(),
        dt.is_finite(),
        0 <= value(t) < value(dt),
    ensures
        t.over(dt).is_finite(),
        0 <= value(t.over(dt)) <= scale(),
{
    numbers::lemma_zero_one();
    let s: int = scale();
    let (a, b): (int, int) = (value(t), value(dt));
    assert(0 * b == 0) by (nonlinear_arith);
    assert(0 <= a * s <= s * b) by (nonlinear_arith)
        requires
            0 <= a <= b,
            s > 0,
    ;
    numbers::lemma_over_between(t, dt, F32::of(0), F32::of(ONE));
    numbers::lemma_value_order(F32::of(0), t.over(dt));
    numbers::lemma_value_order(t.over(dt), F32::of(ONE));
}

/// The square of a number between minus one and one.
proof fn lemma_square(x: F32)
    requires
        x.is_finite(),
        -scale() <= value(x) <= scale(),
    ensures
        x.times(x).is_finite(),
        0 <= value(x.times(x)) <= scale(),
        PARTS * gap(value(x.times(x)) * scale(), value(x) * value(x)) <= 2 * (scale() * scale()),
{
    numbers::lemma_zero_one();
    lemma_minus_two();
    let s: int = scale();
    let v: int = value(x);
    assert(0 <= v * v <= s * s) by (nonlinear_arith)
        requires
            -s <= v <= s,
            s > 0,
    ;
    assert(0 * s == 0) by (nonlinear_arith);
    numbers::lemma_times_between(x, x, F32::of(0), F32::of(ONE));
    numbers::lemma_value_order(F32::of(0), x.times(x));
    numbers::lemma_value_order(x.times(x), F32::of(ONE));
    accuracy::law_products_are_accurate(x, x);
    assert(PARTS * s <= s * s) by (nonlinear_arith)
        requires
            PARTS <= s,
            s > 0,
    ;
}

/// Minus the square of what is left of one.
proof fn lemma_parabola(x: F32)
    requires
        x.is_finite(),
        0 <= value(x) <= scale(),
    ensures
        ({
            let out: F32 = F32::of(TWO).times(x).minus(x.times(x)).minus(F32::of(ONE));
            let left: int = scale() - value(x);
            &&& out.is_finite()
            &&& PARTS * gap(value(out) * scale(), -(left * left)) <= 8 * (scale() * scale())
        }),
{
    numbers::lemma_zero_one();
    accuracy::lemma_half_two();
    lemma_minus_two();
    lemma_doubled(x);
    lemma_square(x);
    let one: F32 = F32::of(ONE);
    let two: F32 = F32::of(TWO);
    let s: int = scale();
    let ss: int = s * s;
    let v: int = value(x);
    let a: F32 = two.times(x);
    let q: F32 = x.times(x);
    numbers::lemma_minus_between(a, q, F32::of(MINUS_ONE), two);
    let d: F32 = a.minus(q);
    numbers::lemma_value_order(F32::of(MINUS_ONE), d);
    numbers::lemma_value_order(d, two);
    accuracy::law_differences_are_accurate(a, q);
    numbers::lemma_minus_between(d, one, F32::of(MINUS_TWO), one);
    accuracy::law_differences_are_accurate(d, one);
    let o: int = value(d.minus(one));
    let e: int = o - (2 * v - value(q) - s);
    assert(-(4 * s) <= PARTS * e <= 4 * s);
    assert(-(4 * ss) <= PARTS * (e * s) <= 4 * ss) by (nonlinear_arith)
        requires
            -(4 * s) <= PARTS * e <= 4 * s,
            s > 0,
            ss == s * s,
    ;
    let vq: int = value(q);
    assert(o * s == 2 * (v * s) - vq * s - ss + e * s) by (nonlinear_arith)
        requires
            e == o - (2 * v - vq - s),
            ss == s * s,
    ;
    assert((s - v) * (s - v) == ss - 2 * (v * s) + v * v) by (nonlinear_arith)
        requires
            ss == s * s,
    ;
}

/// The square of what has passed of one.
proof fn lemma_parabola_before(y: F32)
    requires
        y.is_finite(),
        -scale() <= value(y) <= 0,
    ensures
        ({
            let out: F32 = y.times(y).plus(F32::of(TWO).times(y)).plus(F32::of(ONE));
            let passed: int = scale() + value(y);
            &&& out.is_finite()
            &&& PARTS * gap(value(out) * scale(), passed * passed) <= 8 * (scale() * scale())
        }),
{
    numbers::lemma_zero_one();
    accuracy::lemma_half_two();
    lemma_minus_two();
    lemma_doubled(y);
    lemma_square(y);
    let one: F32 = F32::of(ONE);
    let two: F32 = F32::of(TWO);
    let s: int = scale();
    let ss: int = s * s;
    let v: int = value(y);
    let a: F32 = two.times(y);
    let q: F32 = y.times(y);
    numbers::lemma_plus_between(q, a, F32::of(MINUS_TWO), one);
    let d: F32 = q.plus(a);
    numbers::lemma_value_order(F32::of(MINUS_TWO), d);
    numbers::lemma_value_order(d, one);
    accuracy::law_sums_are_accurate(q, a);
    numbers::lemma_plus_between(d, one, F32::of(MINUS_ONE), two);
    accuracy::law_sums_are_accurate(d, one);
    let o: int = value(d.plus(one));
    let vq: int = value(q);
    let e: int = o - (vq + 2 * v + s);
    assert(-(4 * s) <= PARTS * e <= 4 * s);
    assert(-(4 * ss) <= PARTS * (e * s) <= 4 * ss) by (nonlinear_arith)
        requires
            -(4 * s) <= PARTS * e <= 4 * s,
            s > 0,
            ss == s * s,
    ;
    assert(o * s == vq * s + 2 * (v * s) + ss + e * s) by (nonlinear_arith)
        requires
            e == o - (vq + 2 * v + s),
            ss == s * s,
    ;
    assert((s + v) * (s + v) == ss + 2 * (v * s) + v * v) by (nonlinear_arith)
        requires
            ss == s * s,
    ;
}

/// The product of a number between minus one and one and another one.
proof fn lemma_part(a: F32, z: F32)
    requires
        a.is_finite(),
        z.is_finite(),
        -scale() <= value(a) <= scale(),
        -scale() <= value(z) <= scale(),
    ensures
        a.times(z).is_finite(),
        -scale() <= value(a.times(z)) <= scale(),
        PARTS * gap(value(a.times(z)) * scale(), value(a) * value(z)) <= scale() * scale(),
{
    numbers::lemma_zero_one();
    lemma_minus_two();
    let s: int = scale();
    let (x, y): (int, int) = (value(a), value(z));
    assert(-(s * s) <= x * y <= s * s) by (nonlinear_arith)
        requires
            -s <= x <= s,
            -s <= y <= s,
            s > 0,
    ;
    assert((-s) * s == -(s * s)) by (nonlinear_arith);
    let low: F32 = F32::of(MINUS_ONE);
    let one: F32 = F32::of(ONE);
    numbers::lemma_times_between(a, z, low, one);
    numbers::lemma_value_order(low, a.times(z));
    numbers::lemma_value_order(a.times(z), one);
    accuracy::law_products_are_accurate(a, z);
    assert(PARTS * s <= s * s) by (nonlinear_arith)
        requires
            PARTS <= s,
            s > 0,
    ;
}

/// A third of the cube of a number between minus one and one.
proof fn lemma_cube(third: F32, z: F32, sign: int)
    requires
        third.is_finite(),
        sign == 1 || sign == -1,
        PARTS * gap(3 * value(third), sign * scale()) <= scale(),
        z.is_finite(),
        -scale() <= value(z) <= scale(),
    ensures
        ({
            let out: F32 = third.times(z).times(z).times(z);
            let v: int = value(z);
            let s: int = scale();
            &&& out.is_finite()
            &&& PARTS * gap(3 * (value(out) * (s * s)), sign * (v * (v * v))) <= 16 * (s * (s * s))
        }),
{
    lemma_minus_two();
    let s: int = scale();
    let v: int = value(z);
    let t: int = value(third);
    let a: F32 = third.times(z);
    let b: F32 = a.times(z);
    let c: F32 = b.times(z);
    assert(sign * s == if sign == 1 {
        s
    } else {
        -s
    }) by (nonlinear_arith)
        requires
            sign == 1 || sign == -1,
    ;
    lemma_part(third, z);
    lemma_part(a, z);
    lemma_part(b, z);
    let ss: int = s * s;
    let sss: int = s * ss;
    let vv: int = v * v;
    let vvv: int = v * vv;
    let e1: int = value(a) * s - t * v;
    let e2: int = value(b) * s - value(a) * v;
    let e3: int = value(c) * s - value(b) * v;
    let e4: int = 3 * t - sign * s;
    lemma_mul_strictly_positive(s, s);
    lemma_mul_strictly_positive(s, ss);
    assert(0 <= vv <= ss) by (nonlinear_arith)
        requires
            -s <= v <= s,
            vv == v * v,
            ss == s * s,
            s > 0,
    ;
    assert(-sss <= vvv <= sss) by (nonlinear_arith)
        requires
            -s <= v <= s,
            0 <= vv <= ss,
            vvv == v * vv,
            sss == s * ss,
    ;
    // The three products, put one into the other.
    let c1: int = value(c);
    let b1: int = value(b);
    let a1: int = value(a);
    assert((c1 * ss) * s == (b1 * v) * ss + e3 * ss) by (nonlinear_arith)
        requires
            e3 == c1 * s - b1 * v,
    ;
    assert((b1 * v) * ss == ((a1 * v + e2) * v) * s) by (nonlinear_arith)
        requires
            e2 == b1 * s - a1 * v,
            ss == s * s,
    ;
    assert(((a1 * v + e2) * v) * s == (a1 * s) * vv + (e2 * v) * s) by (nonlinear_arith)
        requires
            vv == v * v,
    ;
    assert((a1 * s) * vv == t * vvv + e1 * vv) by (nonlinear_arith)
        requires
            e1 == a1 * s - t * v,
            vvv == v * vv,
    ;
    let err: int = e1 * vv + (e2 * v) * s + e3 * ss;
    assert((c1 * ss) * s == t * vvv + err);
    let q: int = ss * ss;
    assert(-q <= PARTS * (e1 * vv) <= q) by (nonlinear_arith)
        requires
            -ss <= PARTS * e1 <= ss,
            0 <= vv <= ss,
            q == ss * ss,
    ;
    assert(-q <= PARTS * (e3 * ss) <= q) by (nonlinear_arith)
        requires
            -ss <= PARTS * e3 <= ss,
            ss > 0,
            q == ss * ss,
    ;
    assert(-ss <= v * s <= ss) by (nonlinear_arith)
        requires
            -s <= v <= s,
            ss == s * s,
            s > 0,
    ;
    let vs: int = v * s;
    assert((e2 * v) * s == e2 * vs) by (nonlinear_arith)
        requires
            vs == v * s,
    ;
    assert(-q <= PARTS * (e2 * vs) <= q) by (nonlinear_arith)
        requires
            -ss <= PARTS * e2 <= ss,
            -ss <= vs <= ss,
            q == ss * ss,
    ;
    assert(3 * (t * vvv) == (sign * s) * vvv + e4 * vvv) by (nonlinear_arith)
        requires
            e4 == 3 * t - sign * s,
    ;
    assert(q == s * sss) by (nonlinear_arith)
        requires
            q == ss * ss,
            ss == s * s,
            sss == s * ss,
    ;
    assert(-q <= PARTS * (e4 * vvv) <= q) by (nonlinear_arith)
        requires
            -s <= PARTS * e4 <= s,
            -sss <= vvv <= sss,
            q == s * sss,
            s > 0,
    ;
    let total: int = 3 * (c1 * ss) - sign * vvv;
    assert(total * s == 3 * ((c1 * ss) * s) - (sign * s) * vvv) by (nonlinear_arith)
        requires
            total == 3 * (c1 * ss) - sign * vvv,
    ;
    assert(-(10 * (sss * s)) <= PARTS * (total * s) <= 10 * (sss * s)) by {
        assert(sss * s == q) by (nonlinear_arith)
            requires
                q == s * sss,
        ;
    }
    assert(-(10 * sss) <= PARTS * total <= 10 * sss) by (nonlinear_arith)
        requires
            -(10 * (sss * s)) <= PARTS * (total * s) <= 10 * (sss * s),
            s > 0,
    ;
}

/// The bend at phase zero is rounded off by a third of a cube on either side:
/// behind it of what is left of a sample, before it of what has passed.
pub proof fn law_bends_are_rounded_by_cubes(t: F32, dt: F32)
    requires
        t.is_finite(),
        dt.is_finite(),
        F32::of(0).lt(dt),
        dt.lt(F32::of(MAX_BLEP_DT)),
    ensures
        F32::of(0).le(t) && t.lt(dt) ==> ({
            let left: int = -value(t.over(dt).minus(F32::of(ONE)));
            let out: F32 = oscillator::poly_blamp(t, dt);
            let s: int = scale();
            &&& out.is_finite()
            &&& 0x10_0000 * gap(3 * (value(out) * (s * s)), left * (left * left)) <= s * (s * s)
        }),
        !t.lt(dt) && F32::of(ONE).minus(dt).lt(t) && ({
            let y: F32 = t.minus(F32::of(ONE)).over(dt).plus(F32::of(ONE));
            y.is_finite() && -scale() <= value(y) <= scale()
        }) ==> ({
            let passed: int = value(t.minus(F32::of(ONE)).over(dt).plus(F32::of(ONE)));
            let out: F32 = oscillator::poly_blamp(t, dt);
            let s: int = scale();
            &&& out.is_finite()
            &&& 0x10_0000 * gap(3 * (value(out) * (s * s)), passed * (passed * passed)) <= s * (s
                * s)
        }),
{
    numbers::lemma_zero_one();
    numbers::lemma_value_order(F32::of(0), dt);
    lemma_third();
    let one: F32 = F32::of(ONE);
    if F32::of(0).le(t) && t.lt(dt) {
        numbers::lemma_value_order(F32::of(0), t);
        numbers::lemma_value_order(t, dt);
        lemma_fraction_of(t, dt);
        let z: F32 = t.over(dt).minus(one);
        numbers::lemma_minus_between(t.over(dt), one, F32::of(MINUS_ONE), F32::of(0));
        numbers::lemma_value_order(F32::of(MINUS_ONE), z);
        numbers::lemma_value_order(z, F32::of(0));
        lemma_cube(F32::of(THIRD).negated(), z, -1);
        let v: int = value(z);
        assert((-v) * ((-v) * (-v)) == -(v * (v * v))) by (nonlinear_arith);
    }
    let y: F32 = t.minus(one).over(dt).plus(one);
    if !t.lt(dt) && one.minus(dt).lt(t) && y.is_finite() && -scale() <= value(y) <= scale() {
        lemma_cube(F32::of(THIRD), y, 1);
    }
}

/// The value of a third.
proof fn lemma_third()
    ensures
        F32::of(THIRD).is_finite(),
        PARTS * gap(3 * value(F32::of(THIRD)), scale()) <= scale(),
        F32::of(THIRD).negated().is_finite(),
        PARTS * gap(3 * value(F32::of(THIRD).negated()), -scale()) <= scale(),
{
    numbers::lemma_value_of(THIRD, 0xaa_aaab, 124);
    lemma_pow2_adds(25, 124);
    lemma2_to64();
    lemma_pow2_pos(124);
    let p: int = pow2(124) as int;
    assert(scale() == 0x200_0000 * p);
    numbers::lemma_negated(F32::of(THIRD));
}

/// Rounding off adds to the raw wave: to a square the correction of a step up
/// at phase zero and less that of one at the duty, to a sawtooth that of its
/// start over, and to a triangle those of its two bends, as steep as it is.
pub proof fn law_rounded_waves_are_raw_waves_and_corrections(
    square: SquareOsc,
    saw: SawtoothOsc,
    triangle: TriangleOsc,
    phase: F32,
    dt: F32,
)
    requires
        square.anti_alias == AntiAlias::PolyBlep,
        saw.anti_alias == AntiAlias::PolyBlep,
        triangle.anti_alias == AntiAlias::PolyBlep,
    ensures
        ({
            let raw: F32 = SquareOsc { anti_alias: AntiAlias::Naive, ..square }.wave(phase, dt);
            let duty: F32 = square.duty.clamp(F32::of(EPSILON), F32::of(ONE_LESS_EPSILON));
            let behind: F32 = phase.minus(duty).rem_euclid(F32::of(ONE));
            square.wave(phase, dt) == raw.plus(oscillator::poly_blep(phase, dt)).minus(
                oscillator::poly_blep(behind, dt),
            )
        }),
        ({
            let raw: F32 = SawtoothOsc { anti_alias: AntiAlias::Naive, ..saw }.wave(phase, dt);
            let step: F32 = oscillator::poly_blep(phase, dt);
            saw.wave(phase, dt) == raw.plus(
                match saw.polarity {
                    SawPolarity::Up => step.negated(),
                    SawPolarity::Down => step,
                },
            )
        }),
        ({
            let raw: F32 = TriangleOsc { anti_alias: AntiAlias::Naive, ..triangle }.wave(
                phase,
                dt,
            );
            let steep: F32 = F32::of(FOUR).times(dt);
            let peak: F32 = phase.minus(F32::of(HALF)).rem_euclid(F32::of(ONE));
            triangle.wave(phase, dt) == raw.plus(
                steep.times(oscillator::poly_blamp(phase, dt)),
            ).minus(steep.times(oscillator::poly_blamp(peak, dt)))
        }),
{
}

/// The shapes of a low-frequency oscillator: a sine of a whole turn, a
/// triangle and a ramp that start at minus one, a square that is up for the
/// first half, and a level that is held.
pub proof fn law_slow_shapes_follow_their_phase(
    phase: F32,
    held: F32,
    f: spec_fn(Elementary, F32) -> F32,
)
    requires
        phase.is_finite(),
        F32::of(0).le(phase),
        phase.le(F32::of(ONE)),
    ensures
        lfo::wave(LfoShape::Sine, phase, held, f) == f(
            Elementary::Sin,
            F32::of(TWO_PI).times(phase),
        ),
        traces(
            lfo::wave(LfoShape::Triangle, phase, held, f),
            scale() - 2 * size(2 * value(phase) - scale()),
        ),
        2 * value(phase) < scale() ==> lfo::wave(LfoShape::Square, phase, held, f) == F32::of(ONE),
        2 * value(phase) >= scale() ==> lfo::wave(LfoShape::Square, phase, held, f) == F32::of(
            MINUS_ONE,
        ),
        traces(lfo::wave(LfoShape::Saw, phase, held, f), 2 * value(phase) - scale()),
        lfo::wave(LfoShape::Random, phase, held, f) == held,
{
    numbers::lemma_zero_one();
    accuracy::lemma_half_two();
    numbers::lemma_value_order(F32::of(0), phase);
    numbers::lemma_value_order(phase, F32::of(ONE));
    numbers::lemma_value_order(phase, F32::of(HALF));
    lemma_ramp(phase);
    lemma_tent(phase);
}

/// A low-frequency oscillator puts out its shape at its phase, times its
/// depth, about its offset, and turns by its rate, which is never negative.
/// Only the random one draws: a level at its first sample, and another one
/// where its phase starts over, for the samples behind.
pub proof fn law_slow_oscillators_swing_about_their_offset(
    n: Lfo,
    c: ContextView,
    f: spec_fn(Elementary, F32) -> F32,
)
    requires
        c.state is Lfo,
    ensures
        ({
            let s: LfoState = c.state->Lfo_0;
            let random: bool = n.shape == LfoShape::Random;
            let first: bool = random && !s.cycle_started;
            let now: Stream = if first {
                c.rng.next()
            } else {
                c.rng
            };
            let level: F32 = if first {
                c.rng.noise()
            } else {
                s.held_value
            };
            let next: F32 = oscillator::advance(
                s.phase,
                n.rate_hz.max(F32::of(0)),
                F32::from_u64(c.sample_rate as u64),
            );
            let over: bool = random && next.lt(s.phase);
            let step: Step = n.step(c, f);
            &&& step.out == lfo::wave(n.shape, s.phase, level, f).times(n.depth).plus(n.offset)
            &&& step.after.state == StateView::Lfo(
                LfoState {
                    phase: next,
                    held_value: if over {
                        now.noise()
                    } else {
                        level
                    },
                    cycle_started: true,
                },
            )
            &&& step.after.rng == if over {
                now.next()
            } else {
                now
            }
            &&& step.after == ContextView { state: step.after.state, rng: step.after.rng, ..c }
        }),
        n.initial() == StateView::Lfo(
            LfoState { phase: F32::of(0), held_value: F32::of(0), cycle_started: false },
        ),
{
}

/// A draw is spread evenly from minus one up: the upper 23 bits of the word
/// count steps of `2^-22`.  The stream moves on by one word and keeps its
/// seed.
pub proof fn law_draws_count_steps_from_minus_one(word: u32, s: Stream)
    ensures
        stream::signed_unit(word).is_finite(),
        0x40_0000 * value(stream::signed_unit(word)) == ((word / 512) - 0x40_0000) * scale(),
        s.noise() == stream::signed_unit(stream::chacha8_word(s.seed, s.position)),
        s.next().seed == s.seed,
        s.position < u64::MAX ==> s.next().position == s.position + 1,
{
    let n: u64 = (word / 512) as u64;
    let s: int = scale();
    numbers::lemma_zero_one();
    numbers::lemma_small_from_u64(n);
    numbers::lemma_value_of(stream::STEP, 0x80_0000, 104);
    lemma_pow2_adds(23, 104);
    lemma_pow2_adds(22, 127);
    lemma2_to64();
    let x: F32 = F32::from_u64(n);
    let step: F32 = F32::of(stream::STEP);
    let p: int = pow2(127) as int;
    lemma_pow2_pos(127);
    assert(value(step) == p);
    assert(s == 0x40_0000 * p);
    // The product is a number, and so is the difference.
    let code: int = numbers::lemma_representable(Width::Single, n as int, 127);
    let product: F32 = F32::of(code as u32);
    lemma_coded(code);
    assert((n * s) * p == (n * p) * s) by (nonlinear_arith);
    assert(value(product) == n * p);
    numbers::lemma_times_between(x, step, product, product);
    numbers::lemma_value_order(product, x.times(step));
    numbers::lemma_value_order(x.times(step), product);
    let k: int = if n >= 0x40_0000 {
        n - 0x40_0000
    } else {
        0x40_0000 - n
    };
    let other: int = numbers::lemma_representable(Width::Single, k, 127);
    lemma_coded(other);
    let z: F32 = F32::of(other as u32);
    numbers::lemma_negated(z);
    let exact: F32 = if n >= 0x40_0000 {
        z
    } else {
        z.negated()
    };
    assert(n * p - s == if n >= 0x40_0000 {
        k * p
    } else {
        -(k * p)
    }) by (nonlinear_arith)
        requires
            s == 0x40_0000 * p,
            n >= 0x40_0000 ==> k == n - 0x40_0000,
            n < 0x40_0000 ==> k == 0x40_0000 - n,
    ;
    numbers::lemma_minus_between(x.times(step), F32::of(ONE), exact, exact);
    let out: F32 = x.times(step).minus(F32::of(ONE));
    numbers::lemma_value_order(exact, out);
    numbers::lemma_value_order(out, exact);
    assert(0x40_0000 * (n * p - s) == (n - 0x40_0000) * s) by (nonlinear_arith)
        requires
            s == 0x40_0000 * p,
    ;
}

/// The number of an encoding that is not negative.
proof fn lemma_coded(code: int)
    requires
        0 <= code < Width::Single.infinity(),
    ensures
        0 <= code <= u32::MAX,
        F32::of(code as u32).is_finite(),
        value(F32::of(code as u32)) == rounding::units(Width::Single, code),
{
    rounding::lemma_step(Width::Single);
    reveal(F32::spec_is_finite);
}

/// White noise is a draw at its amplitude.  Pink noise is the sum of the draw
/// and three slower and slower averages of the draws; brown noise is a leaky
/// sum of them, kept between minus one and one.  Each takes one draw for every
/// sample and starts from nothing.
pub proof fn law_noises_filter_their_draws(
    white: WhiteNoise,
    pink: PinkNoise,
    brown: BrownNoise,
    c: ContextView,
    p: PinkState,
    b: BrownState,
    f: spec_fn(Elementary, F32) -> F32,
)
    ensures
        ({
            let x: F32 = c.rng.noise();
            let step: Step = white.step(c, f);
            &&& step.out == x.times(white.amplitude)
            &&& step.after == ContextView { rng: c.rng.next(), ..c }
        }),
        c.state == StateView::Pink(p) ==> ({
            let x: F32 = c.rng.noise();
            let step: Step = pink.step(c, f);
            let q: PinkState = PinkState {
                b0: F32::of(PINK_DECAY_0).times(p.b0).plus(x.times(F32::of(PINK_FEED_0))),
                b1: F32::of(PINK_DECAY_1).times(p.b1).plus(x.times(F32::of(PINK_FEED_1))),
                b2: F32::of(PINK_DECAY_2).times(p.b2).plus(x.times(F32::of(PINK_FEED_2))),
            };
            let sum: F32 = q.b0.plus(q.b1).plus(q.b2).plus(x.times(F32::of(PINK_DIRECT)));
            &&& step.out == sum.times(F32::of(PINK_NORMALISE)).times(pink.amplitude)
            &&& step.after == ContextView { rng: c.rng.next(), state: StateView::Pink(q), ..c }
        }),
        c.state == StateView::Brown(b) ==> ({
            let x: F32 = c.rng.noise();
            let step: Step = brown.step(c, f);
            let last: F32 = b.last.plus(x.times(F32::of(BROWN_STEP))).over(
                F32::of(BROWN_LEAK_DIVISOR),
            );
            let level: F32 = last.times(F32::of(BROWN_NORMALISE));
            let kept: F32 = level.clamp(F32::of(MINUS_ONE), F32::of(ONE));
            &&& limits::nearest(level, kept, F32::of(MINUS_ONE), F32::of(ONE))
            &&& step.out == kept.times(brown.amplitude)
            &&& step.after == ContextView {
                rng: c.rng.next(),
                state: StateView::Brown(BrownState { last }),
                ..c
            }
        }),
        pink.initial() == StateView::Pink(
            PinkState { b0: F32::of(0), b1: F32::of(0), b2: F32::of(0) },
        ),
        brown.initial() == StateView::Brown(BrownState { last: F32::of(0) }),
{
    reveal(F32::spec_clamp);
    reveal(F32::spec_lt);
}

/// A mixer puts out the sum of all its ports times its gain; an amplifier its
/// `"in"` port times its gain with the `"gain"` port added.  Neither keeps
/// anything.
pub proof fn law_mixers_sum_and_amplifiers_scale(
    mix: Mix,
    gain: Gain,
    c: ContextView,
    f: spec_fn(Elementary, F32) -> F32,
)
    ensures
        mix.step(c, f).out == node::input_total(c.inputs).times(mix.gain),
        mix.step(c, f).after == c,
        gain.step(c, f).out == c.input("in"@).times(gain.gain.plus(c.input("gain"@))),
        gain.step(c, f).after == c,
{
}

} // verus!
