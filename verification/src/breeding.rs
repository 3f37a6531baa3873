//! How each configuration is mutated and crossed.
use crate::adsr::{AdsrCurve, AdsrEnvelope};
use crate::chorus::Chorus;
use crate::constants::{FOUR, HALF, ONE, THOUSANDTH, TWO};
use crate::elementary::Elementary;
use crate::envelope;
use crate::filter::{BiquadBandpass, BiquadHighpass, BiquadLowpass};
use crate::float::F32;
use crate::gate::Gate;
use crate::genetics;
use crate::genetics::{Draw, Evolvable, Tape};
use crate::lfo::{Lfo, LfoShape};
use crate::mix::{Gain, Mix};
use crate::noise::{BrownNoise, PinkNoise, WhiteNoise};
use crate::numbers;
use crate::oscillator::{AntiAlias, SawPolarity, SawtoothOsc, SineOsc, SquareOsc, TriangleOsc};
use crate::reverb::Reverb;
use vstd::arithmetic::power2::*;
use vstd::prelude::*;

verus! {

/// Bits of `-10000.0`.
pub const MINUS_TEN_THOUSAND: u32 = 0xc61c_4000;

/// Bits of `0.01`.
pub const HUNDREDTH: u32 = 0x3c23_d70a;

/// Bits of `0.05`.
pub const TWENTIETH: u32 = 0x3d4c_cccd;

/// Bits of `0.1`.
pub const TENTH: u32 = 0x3dcc_cccd;

/// Bits of `0.2`.
pub const FIFTH: u32 = 0x3e4c_cccd;

/// Bits of `0.95`.
pub const NINETEEN_TWENTIETHS: u32 = 0x3f73_3333;

/// Bits of `10.0`.
pub const TEN: u32 = 0x4120_0000;

/// Bits of `12.0`.
pub const TWELVE: u32 = 0x4140_0000;

/// Bits of `20.0`.
pub const TWENTY: u32 = 0x41a0_0000;

/// Bits of `30.0`.
pub const THIRTY: u32 = 0x41f0_0000;

/// Bits of `40.0`.
pub const FORTY: u32 = 0x4220_0000;

/// Bits of `10000.0`.
pub const TEN_THOUSAND: u32 = 0x461c_4000;

/// Bits of `20000.0`.
pub const TWENTY_THOUSAND: u32 = 0x469c_4000;

/// Bits of the shortest sum of an envelope's times: `0.05`.
pub const MIN_TOTAL: u32 = 0x3d4c_cccd;

impl AdsrEnvelope {
    /// The envelope with its times scaled up where their sum is too short, so
    /// that repeated mutation does not shrink it to a click.
    pub open spec fn floored(self) -> AdsrEnvelope {
        let total: F32 = self.attack_s.plus(self.decay_s).plus(self.release_s);
        if F32::of(0).lt(total) && total.lt(F32::of(MIN_TOTAL)) {
            let scale: F32 = F32::of(MIN_TOTAL).over(total);
            AdsrEnvelope {
                attack_s: self.attack_s.times(scale),
                decay_s: self.decay_s.times(scale),
                sustain_level: self.sustain_level,
                release_s: self.release_s.times(scale),
                curve: self.curve,
            }
        } else {
            self
        }
    }

    /// Scales the times up where their sum is too short.
    fn raise_floor(&mut self)
        ensures
            *final(self) == old(self).floored(),
    {
        let total: F32 = self.attack_s.plus(self.decay_s).plus(self.release_s);
        if F32::of(0).lt(total) && total.lt(F32::of(MIN_TOTAL)) {
            let scale: F32 = F32::of(MIN_TOTAL).over(total);
            self.attack_s = self.attack_s.times(scale);
            self.decay_s = self.decay_s.times(scale);
            self.release_s = self.release_s.times(scale);
        }
    }
}

/// Scaling an envelope up to its floor keeps its times in their range.
proof fn lemma_floor_stays(e: AdsrEnvelope)
    requires
        e.in_range(),
    ensures
        e.floored().in_range(),
{
    let total: F32 = e.attack_s.plus(e.decay_s).plus(e.release_s);
    let min: F32 = F32::of(MIN_TOTAL);
    if F32::of(0).lt(total) && total.lt(min) {
        lemma_total(e);
        let scale: F32 = min.over(total);
        let least: F32 = F32::of(THOUSANDTH);
        let most: F32 = F32::of(SIXTY_FOUR);
        lemma_floor_constants();
        numbers::lemma_zero_one();
        numbers::lemma_order(F32::of(0), total, min);
        numbers::lemma_order(total, min, min);
        numbers::lemma_between_finite(F32::of(0), total, min);
        numbers::lemma_value_order(total, min);
        numbers::lemma_value_order(F32::of(0), total);
        numbers::lemma_order(least, e.attack_s, total);
        numbers::lemma_value_order(least, total);
        let u: int = numbers::scale();
        let t: int = numbers::value(total);
        assert(u * t <= numbers::value(min) * u) by (nonlinear_arith)
            requires
                t <= numbers::value(min),
                u > 0,
        ;
        assert(numbers::value(min) * u <= numbers::value(most) * t) by (nonlinear_arith)
            requires
                numbers::value(min) <= 64 * numbers::value(least),
                numbers::value(least) <= t,
                numbers::value(most) == 64 * u,
                u > 0,
        ;
        numbers::lemma_over_between(min, total, F32::of(ONE), most);
        numbers::lemma_value_order(F32::of(ONE), scale);
        numbers::lemma_value_order(scale, most);
        lemma_scaled_time(e.attack_s, total, scale);
        lemma_scaled_time(e.decay_s, total, scale);
        lemma_scaled_time(e.release_s, total, scale);
    }
}

/// Bits of `64.0`.
pub const SIXTY_FOUR: u32 = 0x4280_0000;

/// How the constants of the floor compare.
proof fn lemma_floor_constants()
    ensures
        numbers::value(F32::of(MIN_TOTAL)) <= 64 * numbers::value(F32::of(THOUSANDTH)),
        64 * numbers::value(F32::of(MIN_TOTAL)) <= numbers::value(F32::of(TEN)),
        numbers::value(F32::of(SIXTY_FOUR)) == 64 * numbers::scale(),
        numbers::value(F32::of(THOUSANDTH)) > 0,
        F32::of(MIN_TOTAL).is_finite(),
        F32::of(THOUSANDTH).is_finite(),
        F32::of(TEN).is_finite(),
        F32::of(SIXTY_FOUR).is_finite(),
{
    numbers::lemma_value_of(MIN_TOTAL, 0xcc_cccd, 121);
    numbers::lemma_value_of(THOUSANDTH, 0x83_126f, 116);
    numbers::lemma_value_of(TEN, 0xa0_0000, 129);
    numbers::lemma_value_of(SIXTY_FOUR, 0x80_0000, 132);
    lemma_pow2_adds(116, 5);
    lemma_pow2_adds(121, 8);
    lemma_pow2_adds(23, 126);
    lemma_pow2_adds(126, 6);
    lemma2_to64();
    lemma_pow2_pos(116);
    lemma_pow2_pos(126);
}

/// Each time is at most the sum of the times.
proof fn lemma_total(e: AdsrEnvelope)
    requires
        e.in_range(),
    ensures
        ({
            let total: F32 = e.attack_s.plus(e.decay_s).plus(e.release_s);
            &&& e.attack_s.le(total)
            &&& e.decay_s.le(total)
            &&& e.release_s.le(total)
        }),
{
    let a: F32 = e.attack_s;
    let b: F32 = e.decay_s;
    let c: F32 = e.release_s;
    let top: F32 = F32::of(SIXTY_FOUR);
    let ten: F32 = F32::of(TEN);
    let least: F32 = F32::of(THOUSANDTH);
    lemma_floor_constants();
    numbers::lemma_value_of(TEN, 0xa0_0000, 129);
    numbers::lemma_value_of(SIXTY_FOUR, 0x80_0000, 132);
    lemma_pow2_adds(129, 3);
    lemma2_to64();
    lemma_pow2_pos(129);
    numbers::lemma_value_order(a, ten);
    numbers::lemma_value_order(b, ten);
    numbers::lemma_value_order(c, ten);
    numbers::lemma_value_order(least, a);
    numbers::lemma_value_order(least, b);
    numbers::lemma_value_order(least, c);
    let twenty: F32 = F32::of(TWENTY);
    numbers::lemma_value_of(TWENTY, 0xa0_0000, 130);
    lemma_pow2_adds(129, 1);
    numbers::lemma_plus_between(a, b, a, twenty);
    numbers::lemma_plus_between(a, b, b, twenty);
    let ab: F32 = a.plus(b);
    numbers::lemma_value_order(ab, twenty);
    numbers::lemma_value_order(a, ab);
    numbers::lemma_value_order(b, ab);
    numbers::lemma_plus_between(ab, c, ab, top);
    numbers::lemma_plus_between(ab, c, c, top);
    numbers::lemma_order(a, ab, ab.plus(c));
    numbers::lemma_order(b, ab, ab.plus(c));
}

/// A time scaled up by one to sixty-four stays in its range, where it is at
/// most the floor.
proof fn lemma_scaled_time(x: F32, total: F32, scale: F32)
    requires
        envelope::within(x, F32::of(THOUSANDTH), F32::of(TEN)),
        x.le(total),
        total.lt(F32::of(MIN_TOTAL)),
        scale.is_finite(),
        numbers::scale() <= numbers::value(scale) <= 64 * numbers::scale(),
    ensures
        envelope::within(x.times(scale), F32::of(THOUSANDTH), F32::of(TEN)),
{
    let least: F32 = F32::of(THOUSANDTH);
    let ten: F32 = F32::of(TEN);
    let min: F32 = F32::of(MIN_TOTAL);
    lemma_floor_constants();
    numbers::lemma_zero_one();
    numbers::lemma_order(x, total, min);
    numbers::lemma_value_order(x, min);
    numbers::lemma_value_order(least, x);
    let u: int = numbers::scale();
    let v: int = numbers::value(x);
    let s: int = numbers::value(scale);
    assert(numbers::value(least) * u <= v * s) by (nonlinear_arith)
        requires
            0 < numbers::value(least) <= v,
            0 < u <= s,
    ;
    assert(v * s <= numbers::value(ten) * u) by (nonlinear_arith)
        requires
            0 < v <= numbers::value(min),
            64 * numbers::value(min) <= numbers::value(ten),
            0 < s <= 64 * u,
            u > 0,
    ;
    numbers::lemma_times_between(x, scale, least, ten);
}

/// The variant after this one, the first after the last.
pub open spec fn next_anti_alias(v: AntiAlias) -> AntiAlias {
    match v {
        AntiAlias::Naive => AntiAlias::PolyBlep,
        AntiAlias::PolyBlep => AntiAlias::Naive,
    }
}

/// The variant after this one, the first after the last.
pub open spec fn next_polarity(v: SawPolarity) -> SawPolarity {
    match v {
        SawPolarity::Up => SawPolarity::Down,
        SawPolarity::Down => SawPolarity::Up,
    }
}

/// The variant after this one, the first after the last.
pub open spec fn next_curve(v: AdsrCurve) -> AdsrCurve {
    match v {
        AdsrCurve::Linear => AdsrCurve::Exponential,
        AdsrCurve::Exponential => AdsrCurve::Linear,
    }
}

/// The variant after this one, the first after the last.
pub open spec fn next_shape(v: LfoShape) -> LfoShape {
    match v {
        LfoShape::Sine => LfoShape::Triangle,
        LfoShape::Triangle => LfoShape::Square,
        LfoShape::Square => LfoShape::Saw,
        LfoShape::Saw => LfoShape::Random,
        LfoShape::Random => LfoShape::Sine,
    }
}

impl Evolvable for SineOsc {
    open spec fn mutated(
        self,
        d: spec_fn(u64, Draw) -> u64,
        f: spec_fn(Elementary, F32) -> F32,
        at: u64,
        rate: F32,
    ) -> (SineOsc, u64) {
        let (freq_hz, at1): (F32, u64) = genetics::mutated_log(
            self.freq_hz, d, f, at, rate, F32::of(HALF), F32::of(TWENTY),
            F32::of(TWENTY_THOUSAND),
        );
        let (phase_offset, at2): (F32, u64) = genetics::mutated_f32(
            self.phase_offset, d, at1, rate, F32::of(TWENTIETH), F32::of(0), F32::of(ONE),
        );
        let (amplitude, at3): (F32, u64) = genetics::mutated_f32(
            self.amplitude, d, at2, rate, F32::of(TENTH), F32::of(0), F32::of(ONE),
        );
        (SineOsc { freq_hz, phase_offset, amplitude }, at3)
    }

    open spec fn crossed(self, other: SineOsc, d: spec_fn(u64, Draw) -> u64, at: u64) -> (SineOsc, u64) {
        let child: SineOsc = SineOsc {
            freq_hz: genetics::picked(self.freq_hz, other.freq_hz, d, at),
            phase_offset: genetics::picked(self.phase_offset, other.phase_offset, d, genetics::nth(at, 1)),
            amplitude: genetics::picked(self.amplitude, other.amplitude, d, genetics::nth(at, 2)),
        };
        (child, genetics::nth(at, 3))
    }

    open spec fn in_range(self) -> bool {
        &&& envelope::within(self.freq_hz, F32::of(TWENTY), F32::of(TWENTY_THOUSAND))
        &&& envelope::within(self.phase_offset, F32::of(0), F32::of(ONE))
        &&& envelope::within(self.amplitude, F32::of(0), F32::of(ONE))
    }

    open spec fn settled(self) -> bool {
        true
    }

    open spec fn child_of(self, a: SineOsc, b: SineOsc) -> bool {
        &&& self.freq_hz == a.freq_hz || self.freq_hz == b.freq_hz
        &&& self.phase_offset == a.phase_offset || self.phase_offset == b.phase_offset
        &&& self.amplitude == a.amplitude || self.amplitude == b.amplitude
    }

    proof fn lemma_misses(
        self,
        d: spec_fn(u64, Draw) -> u64,
        f: spec_fn(Elementary, F32) -> F32,
        at: u64,
        rate: F32,
    ) {
    }

    proof fn lemma_stays_in_range(
        self,
        d: spec_fn(u64, Draw) -> u64,
        f: spec_fn(Elementary, F32) -> F32,
        at: u64,
        rate: F32,
    ) {
        genetics::lemma_log_stays(self.freq_hz, d, f, at, rate, HALF, TWENTY, TWENTY_THOUSAND);
        let at1: u64 = genetics::mutated_log(
            self.freq_hz, d, f, at, rate, F32::of(HALF), F32::of(TWENTY),
            F32::of(TWENTY_THOUSAND),
        ).1;
        genetics::lemma_f32_stays(self.phase_offset, d, at1, rate, TWENTIETH, 0, ONE);
        let at2: u64 = genetics::mutated_f32(
            self.phase_offset, d, at1, rate, F32::of(TWENTIETH), F32::of(0), F32::of(ONE),
        ).1;
        genetics::lemma_f32_stays(self.amplitude, d, at2, rate, TENTH, 0, ONE);
        let at3: u64 = genetics::mutated_f32(
            self.amplitude, d, at2, rate, F32::of(TENTH), F32::of(0), F32::of(ONE),
        ).1;
    }

    proof fn lemma_child(self, other: SineOsc, d: spec_fn(u64, Draw) -> u64, at: u64) {
    }

    fn mutate<D: Fn(u64, Draw) -> u64, M: Fn(Elementary, F32) -> F32>(
        &mut self,
        tape: &mut Tape<'_, D>,
        rate: F32,
        math: &M,
    ) {
        proof {
            envelope::lemma_rank(0, ONE);
            envelope::lemma_rank(TWENTY, TWENTY_THOUSAND);
        }
        self.freq_hz = genetics::mutate_f32_log(
            self.freq_hz, tape, rate, F32::of(HALF), F32::of(TWENTY), F32::of(TWENTY_THOUSAND),
            math,
        );
        self.phase_offset = genetics::mutate_f32(
            self.phase_offset, tape, rate, F32::of(TWENTIETH), F32::of(0), F32::of(ONE),
        );
        self.amplitude = genetics::mutate_f32(
            self.amplitude, tape, rate, F32::of(TENTH), F32::of(0), F32::of(ONE),
        );
    }

    fn crossover<D: Fn(u64, Draw) -> u64>(&self, other: &SineOsc, tape: &mut Tape<'_, D>) -> (r: SineOsc) {
        proof {
            reveal_with_fuel(genetics::nth, 4);
        }
        let child: SineOsc = SineOsc {
            freq_hz: if tape.coin() {
                self.freq_hz
            } else {
                other.freq_hz
            },
            phase_offset: if tape.coin() {
                self.phase_offset
            } else {
                other.phase_offset
            },
            amplitude: if tape.coin() {
                self.amplitude
            } else {
                other.amplitude
            },
        };
        child
    }
}

impl Evolvable for SquareOsc {
    open spec fn mutated(
        self,
        d: spec_fn(u64, Draw) -> u64,
        f: spec_fn(Elementary, F32) -> F32,
        at: u64,
        rate: F32,
    ) -> (SquareOsc, u64) {
        let (freq_hz, at1): (F32, u64) = genetics::mutated_log(
            self.freq_hz, d, f, at, rate, F32::of(HALF), F32::of(TWENTY),
            F32::of(TWENTY_THOUSAND),
        );
        let (duty, at2): (F32, u64) = genetics::mutated_f32(
            self.duty, d, at1, rate, F32::of(TWENTIETH), F32::of(TWENTIETH),
            F32::of(NINETEEN_TWENTIETHS),
        );
        let (amplitude, at3): (F32, u64) = genetics::mutated_f32(
            self.amplitude, d, at2, rate, F32::of(TENTH), F32::of(0), F32::of(ONE),
        );
        let (anti_alias, at4): (AntiAlias, u64) = (
            if genetics::hit(d, at3, rate) {
                next_anti_alias(self.anti_alias)
            } else {
                self.anti_alias
            },
            genetics::after(at3),
        );
        (SquareOsc { freq_hz, duty, amplitude, anti_alias }, at4)
    }

    open spec fn crossed(self, other: SquareOsc, d: spec_fn(u64, Draw) -> u64, at: u64) -> (SquareOsc, u64) {
        let child: SquareOsc = SquareOsc {
            freq_hz: genetics::picked(self.freq_hz, other.freq_hz, d, at),
            duty: genetics::picked(self.duty, other.duty, d, genetics::nth(at, 1)),
            amplitude: genetics::picked(self.amplitude, other.amplitude, d, genetics::nth(at, 2)),
            anti_alias: genetics::picked(self.anti_alias, other.anti_alias, d, genetics::nth(at, 3)),
        };
        (child, genetics::nth(at, 4))
    }

    open spec fn in_range(self) -> bool {
        &&& envelope::within(self.freq_hz, F32::of(TWENTY), F32::of(TWENTY_THOUSAND))
        &&& envelope::within(self.duty, F32::of(TWENTIETH), F32::of(NINETEEN_TWENTIETHS))
        &&& envelope::within(self.amplitude, F32::of(0), F32::of(ONE))
    }

    open spec fn settled(self) -> bool {
        true
    }

    open spec fn child_of(self, a: SquareOsc, b: SquareOsc) -> bool {
        &&& self.freq_hz == a.freq_hz || self.freq_hz == b.freq_hz
        &&& self.duty == a.duty || self.duty == b.duty
        &&& self.amplitude == a.amplitude || self.amplitude == b.amplitude
        &&& self.anti_alias == a.anti_alias || self.anti_alias == b.anti_alias
    }

    proof fn lemma_misses(
        self,
        d: spec_fn(u64, Draw) -> u64,
        f: spec_fn(Elementary, F32) -> F32,
        at: u64,
        rate: F32,
    ) {
    }

    proof fn lemma_stays_in_range(
        self,
        d: spec_fn(u64, Draw) -> u64,
        f: spec_fn(Elementary, F32) -> F32,
        at: u64,
        rate: F32,
    ) {
        genetics::lemma_log_stays(self.freq_hz, d, f, at, rate, HALF, TWENTY, TWENTY_THOUSAND);
        let at1: u64 = genetics::mutated_log(
            self.freq_hz, d, f, at, rate, F32::of(HALF), F32::of(TWENTY),
            F32::of(TWENTY_THOUSAND),
        ).1;
        genetics::lemma_f32_stays(
            self.duty, d, at1, rate, TWENTIETH, TWENTIETH, NINETEEN_TWENTIETHS,
        );
        let at2: u64 = genetics::mutated_f32(
            self.duty, d, at1, rate, F32::of(TWENTIETH), F32::of(TWENTIETH),
            F32::of(NINETEEN_TWENTIETHS),
        ).1;
        genetics::lemma_f32_stays(self.amplitude, d, at2, rate, TENTH, 0, ONE);
        let at3: u64 = genetics::mutated_f32(
            self.amplitude, d, at2, rate, F32::of(TENTH), F32::of(0), F32::of(ONE),
        ).1;
        let at4: u64 = genetics::after(at3);
    }

    proof fn lemma_child(self, other: SquareOsc, d: spec_fn(u64, Draw) -> u64, at: u64) {
    }

    fn mutate<D: Fn(u64, Draw) -> u64, M: Fn(Elementary, F32) -> F32>(
        &mut self,
        tape: &mut Tape<'_, D>,
        rate: F32,
        math: &M,
    ) {
        proof {
            envelope::lemma_rank(0, ONE);
            envelope::lemma_rank(TWENTIETH, NINETEEN_TWENTIETHS);
            envelope::lemma_rank(TWENTY, TWENTY_THOUSAND);
        }
        self.freq_hz = genetics::mutate_f32_log(
            self.freq_hz, tape, rate, F32::of(HALF), F32::of(TWENTY), F32::of(TWENTY_THOUSAND),
            math,
        );
        self.duty = genetics::mutate_f32(
            self.duty, tape, rate, F32::of(TWENTIETH), F32::of(TWENTIETH),
            F32::of(NINETEEN_TWENTIETHS),
        );
        self.amplitude = genetics::mutate_f32(
            self.amplitude, tape, rate, F32::of(TENTH), F32::of(0), F32::of(ONE),
        );
        if tape.hit(rate) {
            self.anti_alias = match self.anti_alias {
                AntiAlias::Naive => AntiAlias::PolyBlep,
                AntiAlias::PolyBlep => AntiAlias::Naive,
            };
        }
    }

    fn crossover<D: Fn(u64, Draw) -> u64>(&self, other: &SquareOsc, tape: &mut Tape<'_, D>) -> (r: SquareOsc) {
        proof {
            reveal_with_fuel(genetics::nth, 5);
        }
        let child: SquareOsc = SquareOsc {
            freq_hz: if tape.coin() {
                self.freq_hz
            } else {
                other.freq_hz
            },
            duty: if tape.coin() {
                self.duty
            } else {
                other.duty
            },
            amplitude: if tape.coin() {
                self.amplitude
            } else {
                other.amplitude
            },
            anti_alias: if tape.coin() {
                self.anti_alias
            } else {
                other.anti_alias
            },
        };
        child
    }
}

impl Evolvable for SawtoothOsc {
    open spec fn mutated(
        self,
        d: spec_fn(u64, Draw) -> u64,
        f: spec_fn(Elementary, F32) -> F32,
        at: u64,
        rate: F32,
    ) -> (SawtoothOsc, u64) {
        let (freq_hz, at1): (F32, u64) = genetics::mutated_log(
            self.freq_hz, d, f, at, rate, F32::of(HALF), F32::of(TWENTY),
            F32::of(TWENTY_THOUSAND),
        );
        let (polarity, at2): (SawPolarity, u64) = (
            if genetics::hit(d, at1, rate) {
                next_polarity(self.polarity)
            } else {
                self.polarity
            },
            genetics::after(at1),
        );
        let (amplitude, at3): (F32, u64) = genetics::mutated_f32(
            self.amplitude, d, at2, rate, F32::of(TENTH), F32::of(0), F32::of(ONE),
        );
        let (anti_alias, at4): (AntiAlias, u64) = (
            if genetics::hit(d, at3, rate) {
                next_anti_alias(self.anti_alias)
            } else {
                self.anti_alias
            },
            genetics::after(at3),
        );
        (SawtoothOsc { freq_hz, polarity, amplitude, anti_alias }, at4)
    }

    open spec fn crossed(self, other: SawtoothOsc, d: spec_fn(u64, Draw) -> u64, at: u64) -> (SawtoothOsc, u64) {
        let child: SawtoothOsc = SawtoothOsc {
            freq_hz: genetics::picked(self.freq_hz, other.freq_hz, d, at),
            polarity: genetics::picked(self.polarity, other.polarity, d, genetics::nth(at, 1)),
            amplitude: genetics::picked(self.amplitude, other.amplitude, d, genetics::nth(at, 2)),
            anti_alias: genetics::picked(self.anti_alias, other.anti_alias, d, genetics::nth(at, 3)),
        };
        (child, genetics::nth(at, 4))
    }

    open spec fn in_range(self) -> bool {
        &&& envelope::within(self.freq_hz, F32::of(TWENTY), F32::of(TWENTY_THOUSAND))
        &&& envelope::within(self.amplitude, F32::of(0), F32::of(ONE))
    }

    open spec fn settled(self) -> bool {
        true
    }

    open spec fn child_of(self, a: SawtoothOsc, b: SawtoothOsc) -> bool {
        &&& self.freq_hz == a.freq_hz || self.freq_hz == b.freq_hz
        &&& self.polarity == a.polarity || self.polarity == b.polarity
        &&& self.amplitude == a.amplitude || self.amplitude == b.amplitude
        &&& self.anti_alias == a.anti_alias || self.anti_alias == b.anti_alias
    }

    proof fn lemma_misses(
        self,
        d: spec_fn(u64, Draw) -> u64,
        f: spec_fn(Elementary, F32) -> F32,
        at: u64,
        rate: F32,
    ) {
    }

    proof fn lemma_stays_in_range(
        self,
        d: spec_fn(u64, Draw) -> u64,
        f: spec_fn(Elementary, F32) -> F32,
        at: u64,
        rate: F32,
    ) {
        genetics::lemma_log_stays(self.freq_hz, d, f, at, rate, HALF, TWENTY, TWENTY_THOUSAND);
        let at1: u64 = genetics::mutated_log(
            self.freq_hz, d, f, at, rate, F32::of(HALF), F32::of(TWENTY),
            F32::of(TWENTY_THOUSAND),
        ).1;
        let at2: u64 = genetics::after(at1);
        genetics::lemma_f32_stays(self.amplitude, d, at2, rate, TENTH, 0, ONE);
        let at3: u64 = genetics::mutated_f32(
            self.amplitude, d, at2, rate, F32::of(TENTH), F32::of(0), F32::of(ONE),
        ).1;
        let at4: u64 = genetics::after(at3);
    }

    proof fn lemma_child(self, other: SawtoothOsc, d: spec_fn(u64, Draw) -> u64, at: u64) {
    }

    fn mutate<D: Fn(u64, Draw) -> u64, M: Fn(Elementary, F32) -> F32>(
        &mut self,
        tape: &mut Tape<'_, D>,
        rate: F32,
        math: &M,
    ) {
        proof {
            envelope::lemma_rank(0, ONE);
            envelope::lemma_rank(TWENTY, TWENTY_THOUSAND);
        }
        self.freq_hz = genetics::mutate_f32_log(
            self.freq_hz, tape, rate, F32::of(HALF), F32::of(TWENTY), F32::of(TWENTY_THOUSAND),
            math,
        );
        if tape.hit(rate) {
            self.polarity = match self.polarity {
                SawPolarity::Up => SawPolarity::Down,
                SawPolarity::Down => SawPolarity::Up,
            };
        }
        self.amplitude = genetics::mutate_f32(
            self.amplitude, tape, rate, F32::of(TENTH), F32::of(0), F32::of(ONE),
        );
        if tape.hit(rate) {
            self.anti_alias = match self.anti_alias {
                AntiAlias::Naive => AntiAlias::PolyBlep,
                AntiAlias::PolyBlep => AntiAlias::Naive,
            };
        }
    }

    fn crossover<D: Fn(u64, Draw) -> u64>(&self, other: &SawtoothOsc, tape: &mut Tape<'_, D>) -> (r: SawtoothOsc) {
        proof {
            reveal_with_fuel(genetics::nth, 5);
        }
        let child: SawtoothOsc = SawtoothOsc {
            freq_hz: if tape.coin() {
                self.freq_hz
            } else {
                other.freq_hz
            },
            polarity: if tape.coin() {
                self.polarity
            } else {
                other.polarity
            },
            amplitude: if tape.coin() {
                self.amplitude
            } else {
                other.amplitude
            },
            anti_alias: if tape.coin() {
                self.anti_alias
            } else {
                other.anti_alias
            },
        };
        child
    }
}

impl Evolvable for TriangleOsc {
    open spec fn mutated(
        self,
        d: spec_fn(u64, Draw) -> u64,
        f: spec_fn(Elementary, F32) -> F32,
        at: u64,
        rate: F32,
    ) -> (TriangleOsc, u64) {
        let (freq_hz, at1): (F32, u64) = genetics::mutated_log(
            self.freq_hz, d, f, at, rate, F32::of(HALF), F32::of(TWENTY),
            F32::of(TWENTY_THOUSAND),
        );
        let (amplitude, at2): (F32, u64) = genetics::mutated_f32(
            self.amplitude, d, at1, rate, F32::of(TENTH), F32::of(0), F32::of(ONE),
        );
        let (anti_alias, at3): (AntiAlias, u64) = (
            if genetics::hit(d, at2, rate) {
                next_anti_alias(self.anti_alias)
            } else {
                self.anti_alias
            },
            genetics::after(at2),
        );
        (TriangleOsc { freq_hz, amplitude, anti_alias }, at3)
    }

    open spec fn crossed(self, other: TriangleOsc, d: spec_fn(u64, Draw) -> u64, at: u64) -> (TriangleOsc, u64) {
        let child: TriangleOsc = TriangleOsc {
            freq_hz: genetics::picked(self.freq_hz, other.freq_hz, d, at),
            amplitude: genetics::picked(self.amplitude, other.amplitude, d, genetics::nth(at, 1)),
            anti_alias: genetics::picked(self.anti_alias, other.anti_alias, d, genetics::nth(at, 2)),
        };
        (child, genetics::nth(at, 3))
    }

    open spec fn in_range(self) -> bool {
        &&& envelope::within(self.freq_hz, F32::of(TWENTY), F32::of(TWENTY_THOUSAND))
        &&& envelope::within(self.amplitude, F32::of(0), F32::of(ONE))
    }

    open spec fn settled(self) -> bool {
        true
    }

    open spec fn child_of(self, a: TriangleOsc, b: TriangleOsc) -> bool {
        &&& self.freq_hz == a.freq_hz || self.freq_hz == b.freq_hz
        &&& self.amplitude == a.amplitude || self.amplitude == b.amplitude
        &&& self.anti_alias == a.anti_alias || self.anti_alias == b.anti_alias
    }

    proof fn lemma_misses(
        self,
        d: spec_fn(u64, Draw) -> u64,
        f: spec_fn(Elementary, F32) -> F32,
        at: u64,
        rate: F32,
    ) {
    }

    proof fn lemma_stays_in_range(
        self,
        d: spec_fn(u64, Draw) -> u64,
        f: spec_fn(Elementary, F32) -> F32,
        at: u64,
        rate: F32,
    ) {
        genetics::lemma_log_stays(self.freq_hz, d, f, at, rate, HALF, TWENTY, TWENTY_THOUSAND);
        let at1: u64 = genetics::mutated_log(
            self.freq_hz, d, f, at, rate, F32::of(HALF), F32::of(TWENTY),
            F32::of(TWENTY_THOUSAND),
        ).1;
        genetics::lemma_f32_stays(self.amplitude, d, at1, rate, TENTH, 0, ONE);
        let at2: u64 = genetics::mutated_f32(
            self.amplitude, d, at1, rate, F32::of(TENTH), F32::of(0), F32::of(ONE),
        ).1;
        let at3: u64 = genetics::after(at2);
    }

    proof fn lemma_child(self, other: TriangleOsc, d: spec_fn(u64, Draw) -> u64, at: u64) {
    }

    fn mutate<D: Fn(u64, Draw) -> u64, M: Fn(Elementary, F32) -> F32>(
        &mut self,
        tape: &mut Tape<'_, D>,
        rate: F32,
        math: &M,
    ) {
        proof {
            envelope::lemma_rank(0, ONE);
            envelope::lemma_rank(TWENTY, TWENTY_THOUSAND);
        }
        self.freq_hz = genetics::mutate_f32_log(
            self.freq_hz, tape, rate, F32::of(HALF), F32::of(TWENTY), F32::of(TWENTY_THOUSAND),
            math,
        );
        self.amplitude = genetics::mutate_f32(
            self.amplitude, tape, rate, F32::of(TENTH), F32::of(0), F32::of(ONE),
        );
        if tape.hit(rate) {
            self.anti_alias = match self.anti_alias {
                AntiAlias::Naive => AntiAlias::PolyBlep,
                AntiAlias::PolyBlep => AntiAlias::Naive,
            };
        }
    }

    fn crossover<D: Fn(u64, Draw) -> u64>(&self, other: &TriangleOsc, tape: &mut Tape<'_, D>) -> (r: TriangleOsc) {
        proof {
            reveal_with_fuel(genetics::nth, 4);
        }
        let child: TriangleOsc = TriangleOsc {
            freq_hz: if tape.coin() {
                self.freq_hz
            } else {
                other.freq_hz
            },
            amplitude: if tape.coin() {
                self.amplitude
            } else {
                other.amplitude
            },
            anti_alias: if tape.coin() {
                self.anti_alias
            } else {
                other.anti_alias
            },
        };
        child
    }
}

impl Evolvable for WhiteNoise {
    open spec fn mutated(
        self,
        d: spec_fn(u64, Draw) -> u64,
        f: spec_fn(Elementary, F32) -> F32,
        at: u64,
        rate: F32,
    ) -> (WhiteNoise, u64) {
        let (amplitude, at1): (F32, u64) = genetics::mutated_f32(
            self.amplitude, d, at, rate, F32::of(TENTH), F32::of(0), F32::of(ONE),
        );
        (WhiteNoise { amplitude }, at1)
    }

    open spec fn crossed(self, other: WhiteNoise, d: spec_fn(u64, Draw) -> u64, at: u64) -> (WhiteNoise, u64) {
        let child: WhiteNoise = WhiteNoise {
            amplitude: genetics::picked(self.amplitude, other.amplitude, d, at),
        };
        (child, genetics::nth(at, 1))
    }

    open spec fn in_range(self) -> bool {
        &&& envelope::within(self.amplitude, F32::of(0), F32::of(ONE))
    }

    open spec fn settled(self) -> bool {
        true
    }

    open spec fn child_of(self, a: WhiteNoise, b: WhiteNoise) -> bool {
        &&& self.amplitude == a.amplitude || self.amplitude == b.amplitude
    }

    proof fn lemma_misses(
        self,
        d: spec_fn(u64, Draw) -> u64,
        f: spec_fn(Elementary, F32) -> F32,
        at: u64,
        rate: F32,
    ) {
    }

    proof fn lemma_stays_in_range(
        self,
        d: spec_fn(u64, Draw) -> u64,
        f: spec_fn(Elementary, F32) -> F32,
        at: u64,
        rate: F32,
    ) {
        genetics::lemma_f32_stays(self.amplitude, d, at, rate, TENTH, 0, ONE);
        let at1: u64 = genetics::mutated_f32(
            self.amplitude, d, at, rate, F32::of(TENTH), F32::of(0), F32::of(ONE),
        ).1;
    }

    proof fn lemma_child(self, other: WhiteNoise, d: spec_fn(u64, Draw) -> u64, at: u64) {
    }

    fn mutate<D: Fn(u64, Draw) -> u64, M: Fn(Elementary, F32) -> F32>(
        &mut self,
        tape: &mut Tape<'_, D>,
        rate: F32,
        math: &M,
    ) {
        proof {
            envelope::lemma_rank(0, ONE);
        }
        self.amplitude = genetics::mutate_f32(
            self.amplitude, tape, rate, F32::of(TENTH), F32::of(0), F32::of(ONE),
        );
    }

    fn crossover<D: Fn(u64, Draw) -> u64>(&self, other: &WhiteNoise, tape: &mut Tape<'_, D>) -> (r: WhiteNoise) {
        proof {
            reveal_with_fuel(genetics::nth, 2);
        }
        let child: WhiteNoise = WhiteNoise {
            amplitude: if tape.coin() {
                self.amplitude
            } else {
                other.amplitude
            },
        };
        child
    }
}

impl Evolvable for PinkNoise {
    open spec fn mutated(
        self,
        d: spec_fn(u64, Draw) -> u64,
        f: spec_fn(Elementary, F32) -> F32,
        at: u64,
        rate: F32,
    ) -> (PinkNoise, u64) {
        let (amplitude, at1): (F32, u64) = genetics::mutated_f32(
            self.amplitude, d, at, rate, F32::of(TENTH), F32::of(0), F32::of(ONE),
        );
        (PinkNoise { amplitude }, at1)
    }

    open spec fn crossed(self, other: PinkNoise, d: spec_fn(u64, Draw) -> u64, at: u64) -> (PinkNoise, u64) {
        let child: PinkNoise = PinkNoise {
            amplitude: genetics::picked(self.amplitude, other.amplitude, d, at),
        };
        (child, genetics::nth(at, 1))
    }

    open spec fn in_range(self) -> bool {
        &&& envelope::within(self.amplitude, F32::of(0), F32::of(ONE))
    }

    open spec fn settled(self) -> bool {
        true
    }

    open spec fn child_of(self, a: PinkNoise, b: PinkNoise) -> bool {
        &&& self.amplitude == a.amplitude || self.amplitude == b.amplitude
    }

    proof fn lemma_misses(
        self,
        d: spec_fn(u64, Draw) -> u64,
        f: spec_fn(Elementary, F32) -> F32,
        at: u64,
        rate: F32,
    ) {
    }

    proof fn lemma_stays_in_range(
        self,
        d: spec_fn(u64, Draw) -> u64,
        f: spec_fn(Elementary, F32) -> F32,
        at: u64,
        rate: F32,
    ) {
        genetics::lemma_f32_stays(self.amplitude, d, at, rate, TENTH, 0, ONE);
        let at1: u64 = genetics::mutated_f32(
            self.amplitude, d, at, rate, F32::of(TENTH), F32::of(0), F32::of(ONE),
        ).1;
    }

    proof fn lemma_child(self, other: PinkNoise, d: spec_fn(u64, Draw) -> u64, at: u64) {
    }

    fn mutate<D: Fn(u64, Draw) -> u64, M: Fn(Elementary, F32) -> F32>(
        &mut self,
        tape: &mut Tape<'_, D>,
        rate: F32,
        math: &M,
    ) {
        proof {
            envelope::lemma_rank(0, ONE);
        }
        self.amplitude = genetics::mutate_f32(
            self.amplitude, tape, rate, F32::of(TENTH), F32::of(0), F32::of(ONE),
        );
    }

    fn crossover<D: Fn(u64, Draw) -> u64>(&self, other: &PinkNoise, tape: &mut Tape<'_, D>) -> (r: PinkNoise) {
        proof {
            reveal_with_fuel(genetics::nth, 2);
        }
        let child: PinkNoise = PinkNoise {
            amplitude: if tape.coin() {
                self.amplitude
            } else {
                other.amplitude
            },
        };
        child
    }
}

impl Evolvable for BrownNoise {
    open spec fn mutated(
        self,
        d: spec_fn(u64, Draw) -> u64,
        f: spec_fn(Elementary, F32) -> F32,
        at: u64,
        rate: F32,
    ) -> (BrownNoise, u64) {
        let (amplitude, at1): (F32, u64) = genetics::mutated_f32(
            self.amplitude, d, at, rate, F32::of(TENTH), F32::of(0), F32::of(ONE),
        );
        (BrownNoise { amplitude }, at1)
    }

    open spec fn crossed(self, other: BrownNoise, d: spec_fn(u64, Draw) -> u64, at: u64) -> (BrownNoise, u64) {
        let child: BrownNoise = BrownNoise {
            amplitude: genetics::picked(self.amplitude, other.amplitude, d, at),
        };
        (child, genetics::nth(at, 1))
    }

    open spec fn in_range(self) -> bool {
        &&& envelope::within(self.amplitude, F32::of(0), F32::of(ONE))
    }

    open spec fn settled(self) -> bool {
        true
    }

    open spec fn child_of(self, a: BrownNoise, b: BrownNoise) -> bool {
        &&& self.amplitude == a.amplitude || self.amplitude == b.amplitude
    }

    proof fn lemma_misses(
        self,
        d: spec_fn(u64, Draw) -> u64,
        f: spec_fn(Elementary, F32) -> F32,
        at: u64,
        rate: F32,
    ) {
    }

    proof fn lemma_stays_in_range(
        self,
        d: spec_fn(u64, Draw) -> u64,
        f: spec_fn(Elementary, F32) -> F32,
        at: u64,
        rate: F32,
    ) {
        genetics::lemma_f32_stays(self.amplitude, d, at, rate, TENTH, 0, ONE);
        let at1: u64 = genetics::mutated_f32(
            self.amplitude, d, at, rate, F32::of(TENTH), F32::of(0), F32::of(ONE),
        ).1;
    }

    proof fn lemma_child(self, other: BrownNoise, d: spec_fn(u64, Draw) -> u64, at: u64) {
    }

    fn mutate<D: Fn(u64, Draw) -> u64, M: Fn(Elementary, F32) -> F32>(
        &mut self,
        tape: &mut Tape<'_, D>,
        rate: F32,
        math: &M,
    ) {
        proof {
            envelope::lemma_rank(0, ONE);
        }
        self.amplitude = genetics::mutate_f32(
            self.amplitude, tape, rate, F32::of(TENTH), F32::of(0), F32::of(ONE),
        );
    }

    fn crossover<D: Fn(u64, Draw) -> u64>(&self, other: &BrownNoise, tape: &mut Tape<'_, D>) -> (r: BrownNoise) {
        proof {
            reveal_with_fuel(genetics::nth, 2);
        }
        let child: BrownNoise = BrownNoise {
            amplitude: if tape.coin() {
                self.amplitude
            } else {
                other.amplitude
            },
        };
        child
    }
}

impl AdsrEnvelope {
    /// The envelope after mutation, before its floor is raised.
    pub open spec fn unfloored(
        self,
        d: spec_fn(u64, Draw) -> u64,
        f: spec_fn(Elementary, F32) -> F32,
        at: u64,
        rate: F32,
    ) -> AdsrEnvelope {
        let (attack_s, at1): (F32, u64) = genetics::mutated_log(
            self.attack_s, d, f, at, rate, F32::of(HALF), F32::of(THOUSANDTH), F32::of(TEN),
        );
        let (decay_s, at2): (F32, u64) = genetics::mutated_log(
            self.decay_s, d, f, at1, rate, F32::of(HALF), F32::of(THOUSANDTH), F32::of(TEN),
        );
        let (sustain_level, at3): (F32, u64) = genetics::mutated_f32(
            self.sustain_level, d, at2, rate, F32::of(TENTH), F32::of(0), F32::of(ONE),
        );
        let (release_s, at4): (F32, u64) = genetics::mutated_log(
            self.release_s, d, f, at3, rate, F32::of(HALF), F32::of(THOUSANDTH), F32::of(TEN),
        );
        let (curve, at5): (AdsrCurve, u64) = (
            if genetics::hit(d, at4, rate) {
                next_curve(self.curve)
            } else {
                self.curve
            },
            genetics::after(at4),
        );
        AdsrEnvelope { attack_s, decay_s, sustain_level, release_s, curve }
    }
}

impl Evolvable for AdsrEnvelope {
    open spec fn mutated(
        self,
        d: spec_fn(u64, Draw) -> u64,
        f: spec_fn(Elementary, F32) -> F32,
        at: u64,
        rate: F32,
    ) -> (AdsrEnvelope, u64) {
        let (attack_s, at1): (F32, u64) = genetics::mutated_log(
            self.attack_s, d, f, at, rate, F32::of(HALF), F32::of(THOUSANDTH), F32::of(TEN),
        );
        let (decay_s, at2): (F32, u64) = genetics::mutated_log(
            self.decay_s, d, f, at1, rate, F32::of(HALF), F32::of(THOUSANDTH), F32::of(TEN),
        );
        let (sustain_level, at3): (F32, u64) = genetics::mutated_f32(
            self.sustain_level, d, at2, rate, F32::of(TENTH), F32::of(0), F32::of(ONE),
        );
        let (release_s, at4): (F32, u64) = genetics::mutated_log(
            self.release_s, d, f, at3, rate, F32::of(HALF), F32::of(THOUSANDTH), F32::of(TEN),
        );
        let (curve, at5): (AdsrCurve, u64) = (
            if genetics::hit(d, at4, rate) {
                next_curve(self.curve)
            } else {
                self.curve
            },
            genetics::after(at4),
        );
        (AdsrEnvelope { attack_s, decay_s, sustain_level, release_s, curve }.floored(), at5)
    }

    open spec fn crossed(self, other: AdsrEnvelope, d: spec_fn(u64, Draw) -> u64, at: u64) -> (AdsrEnvelope, u64) {
        let child: AdsrEnvelope = AdsrEnvelope {
            attack_s: genetics::picked(self.attack_s, other.attack_s, d, at),
            decay_s: genetics::picked(self.decay_s, other.decay_s, d, genetics::nth(at, 1)),
            sustain_level: genetics::picked(self.sustain_level, other.sustain_level, d, genetics::nth(at, 2)),
            release_s: genetics::picked(self.release_s, other.release_s, d, genetics::nth(at, 3)),
            curve: genetics::picked(self.curve, other.curve, d, genetics::nth(at, 4)),
        };
        (child.floored(), genetics::nth(at, 5))
    }

    open spec fn in_range(self) -> bool {
        &&& envelope::within(self.attack_s, F32::of(THOUSANDTH), F32::of(TEN))
        &&& envelope::within(self.decay_s, F32::of(THOUSANDTH), F32::of(TEN))
        &&& envelope::within(self.sustain_level, F32::of(0), F32::of(ONE))
        &&& envelope::within(self.release_s, F32::of(THOUSANDTH), F32::of(TEN))
    }

    open spec fn settled(self) -> bool {
        self.floored() == self
    }

    open spec fn child_of(self, a: AdsrEnvelope, b: AdsrEnvelope) -> bool {
        exists|raw: AdsrEnvelope|
            {
                &&& raw.attack_s == a.attack_s || raw.attack_s == b.attack_s
                &&& raw.decay_s == a.decay_s || raw.decay_s == b.decay_s
                &&& raw.sustain_level == a.sustain_level || raw.sustain_level == b.sustain_level
                &&& raw.release_s == a.release_s || raw.release_s == b.release_s
                &&& raw.curve == a.curve || raw.curve == b.curve
                &&& self == #[trigger] raw.floored()
            }
    }

    proof fn lemma_misses(
        self,
        d: spec_fn(u64, Draw) -> u64,
        f: spec_fn(Elementary, F32) -> F32,
        at: u64,
        rate: F32,
    ) {
    }

    proof fn lemma_stays_in_range(
        self,
        d: spec_fn(u64, Draw) -> u64,
        f: spec_fn(Elementary, F32) -> F32,
        at: u64,
        rate: F32,
    ) {
        genetics::lemma_log_stays(self.attack_s, d, f, at, rate, HALF, THOUSANDTH, TEN);
        let at1: u64 = genetics::mutated_log(
            self.attack_s, d, f, at, rate, F32::of(HALF), F32::of(THOUSANDTH), F32::of(TEN),
        ).1;
        genetics::lemma_log_stays(self.decay_s, d, f, at1, rate, HALF, THOUSANDTH, TEN);
        let at2: u64 = genetics::mutated_log(
            self.decay_s, d, f, at1, rate, F32::of(HALF), F32::of(THOUSANDTH), F32::of(TEN),
        ).1;
        genetics::lemma_f32_stays(self.sustain_level, d, at2, rate, TENTH, 0, ONE);
        let at3: u64 = genetics::mutated_f32(
            self.sustain_level, d, at2, rate, F32::of(TENTH), F32::of(0), F32::of(ONE),
        ).1;
        genetics::lemma_log_stays(self.release_s, d, f, at3, rate, HALF, THOUSANDTH, TEN);
        let at4: u64 = genetics::mutated_log(
            self.release_s, d, f, at3, rate, F32::of(HALF), F32::of(THOUSANDTH), F32::of(TEN),
        ).1;
        let at5: u64 = genetics::after(at4);
        lemma_floor_stays(self.unfloored(d, f, at, rate));
    }

    proof fn lemma_child(self, other: AdsrEnvelope, d: spec_fn(u64, Draw) -> u64, at: u64) {
        let raw: AdsrEnvelope = AdsrEnvelope {
            attack_s: genetics::picked(self.attack_s, other.attack_s, d, at),
            decay_s: genetics::picked(self.decay_s, other.decay_s, d, genetics::nth(at, 1)),
            sustain_level: genetics::picked(self.sustain_level, other.sustain_level, d, genetics::nth(at, 2)),
            release_s: genetics::picked(self.release_s, other.release_s, d, genetics::nth(at, 3)),
            curve: genetics::picked(self.curve, other.curve, d, genetics::nth(at, 4)),
        };
        assert(raw.floored() == self.crossed(other, d, at).0);
    }

    fn mutate<D: Fn(u64, Draw) -> u64, M: Fn(Elementary, F32) -> F32>(
        &mut self,
        tape: &mut Tape<'_, D>,
        rate: F32,
        math: &M,
    ) {
        proof {
            envelope::lemma_rank(0, ONE);
            envelope::lemma_rank(THOUSANDTH, TEN);
        }
        self.attack_s = genetics::mutate_f32_log(
            self.attack_s, tape, rate, F32::of(HALF), F32::of(THOUSANDTH), F32::of(TEN), math,
        );
        self.decay_s = genetics::mutate_f32_log(
            self.decay_s, tape, rate, F32::of(HALF), F32::of(THOUSANDTH), F32::of(TEN), math,
        );
        self.sustain_level = genetics::mutate_f32(
            self.sustain_level, tape, rate, F32::of(TENTH), F32::of(0), F32::of(ONE),
        );
        self.release_s = genetics::mutate_f32_log(
            self.release_s, tape, rate, F32::of(HALF), F32::of(THOUSANDTH), F32::of(TEN), math,
        );
        if tape.hit(rate) {
            self.curve = match self.curve {
                AdsrCurve::Linear => AdsrCurve::Exponential,
                AdsrCurve::Exponential => AdsrCurve::Linear,
            };
        }
        self.raise_floor();
    }

    fn crossover<D: Fn(u64, Draw) -> u64>(&self, other: &AdsrEnvelope, tape: &mut Tape<'_, D>) -> (r: AdsrEnvelope) {
        proof {
            reveal_with_fuel(genetics::nth, 6);
        }
        let mut child: AdsrEnvelope = AdsrEnvelope {
            attack_s: if tape.coin() {
                self.attack_s
            } else {
                other.attack_s
            },
            decay_s: if tape.coin() {
                self.decay_s
            } else {
                other.decay_s
            },
            sustain_level: if tape.coin() {
                self.sustain_level
            } else {
                other.sustain_level
            },
            release_s: if tape.coin() {
                self.release_s
            } else {
                other.release_s
            },
            curve: if tape.coin() {
                self.curve
            } else {
                other.curve
            },
        };
        child.raise_floor();
        child
    }
}

impl Evolvable for BiquadLowpass {
    open spec fn mutated(
        self,
        d: spec_fn(u64, Draw) -> u64,
        f: spec_fn(Elementary, F32) -> F32,
        at: u64,
        rate: F32,
    ) -> (BiquadLowpass, u64) {
        let (cutoff_hz, at1): (F32, u64) = genetics::mutated_log(
            self.cutoff_hz, d, f, at, rate, F32::of(HALF), F32::of(TWENTY),
            F32::of(TWENTY_THOUSAND),
        );
        let (q, at2): (F32, u64) = genetics::mutated_f32(
            self.q, d, at1, rate, F32::of(HALF), F32::of(TENTH), F32::of(TWENTY),
        );
        (BiquadLowpass { cutoff_hz, q }, at2)
    }

    open spec fn crossed(self, other: BiquadLowpass, d: spec_fn(u64, Draw) -> u64, at: u64) -> (BiquadLowpass, u64) {
        let child: BiquadLowpass = BiquadLowpass {
            cutoff_hz: genetics::picked(self.cutoff_hz, other.cutoff_hz, d, at),
            q: genetics::picked(self.q, other.q, d, genetics::nth(at, 1)),
        };
        (child, genetics::nth(at, 2))
    }

    open spec fn in_range(self) -> bool {
        &&& envelope::within(self.cutoff_hz, F32::of(TWENTY), F32::of(TWENTY_THOUSAND))
        &&& envelope::within(self.q, F32::of(TENTH), F32::of(TWENTY))
    }

    open spec fn settled(self) -> bool {
        true
    }

    open spec fn child_of(self, a: BiquadLowpass, b: BiquadLowpass) -> bool {
        &&& self.cutoff_hz == a.cutoff_hz || self.cutoff_hz == b.cutoff_hz
        &&& self.q == a.q || self.q == b.q
    }

    proof fn lemma_misses(
        self,
        d: spec_fn(u64, Draw) -> u64,
        f: spec_fn(Elementary, F32) -> F32,
        at: u64,
        rate: F32,
    ) {
    }

    proof fn lemma_stays_in_range(
        self,
        d: spec_fn(u64, Draw) -> u64,
        f: spec_fn(Elementary, F32) -> F32,
        at: u64,
        rate: F32,
    ) {
        genetics::lemma_log_stays(self.cutoff_hz, d, f, at, rate, HALF, TWENTY, TWENTY_THOUSAND);
        let at1: u64 = genetics::mutated_log(
            self.cutoff_hz, d, f, at, rate, F32::of(HALF), F32::of(TWENTY),
            F32::of(TWENTY_THOUSAND),
        ).1;
        genetics::lemma_f32_stays(self.q, d, at1, rate, HALF, TENTH, TWENTY);
        let at2: u64 = genetics::mutated_f32(
            self.q, d, at1, rate, F32::of(HALF), F32::of(TENTH), F32::of(TWENTY),
        ).1;
    }

    proof fn lemma_child(self, other: BiquadLowpass, d: spec_fn(u64, Draw) -> u64, at: u64) {
    }

    fn mutate<D: Fn(u64, Draw) -> u64, M: Fn(Elementary, F32) -> F32>(
        &mut self,
        tape: &mut Tape<'_, D>,
        rate: F32,
        math: &M,
    ) {
        proof {
            envelope::lemma_rank(TENTH, TWENTY);
            envelope::lemma_rank(TWENTY, TWENTY_THOUSAND);
        }
        self.cutoff_hz = genetics::mutate_f32_log(
            self.cutoff_hz, tape, rate, F32::of(HALF), F32::of(TWENTY), F32::of(TWENTY_THOUSAND),
            math,
        );
        self.q = genetics::mutate_f32(
            self.q, tape, rate, F32::of(HALF), F32::of(TENTH), F32::of(TWENTY),
        );
    }

    fn crossover<D: Fn(u64, Draw) -> u64>(&self, other: &BiquadLowpass, tape: &mut Tape<'_, D>) -> (r: BiquadLowpass) {
        proof {
            reveal_with_fuel(genetics::nth, 3);
        }
        let child: BiquadLowpass = BiquadLowpass {
            cutoff_hz: if tape.coin() {
                self.cutoff_hz
            } else {
                other.cutoff_hz
            },
            q: if tape.coin() {
                self.q
            } else {
                other.q
            },
        };
        child
    }
}

impl Evolvable for BiquadHighpass {
    open spec fn mutated(
        self,
        d: spec_fn(u64, Draw) -> u64,
        f: spec_fn(Elementary, F32) -> F32,
        at: u64,
        rate: F32,
    ) -> (BiquadHighpass, u64) {
        let (cutoff_hz, at1): (F32, u64) = genetics::mutated_log(
            self.cutoff_hz, d, f, at, rate, F32::of(HALF), F32::of(TWENTY),
            F32::of(TWENTY_THOUSAND),
        );
        let (q, at2): (F32, u64) = genetics::mutated_f32(
            self.q, d, at1, rate, F32::of(HALF), F32::of(TENTH), F32::of(TWENTY),
        );
        (BiquadHighpass { cutoff_hz, q }, at2)
    }

    open spec fn crossed(self, other: BiquadHighpass, d: spec_fn(u64, Draw) -> u64, at: u64) -> (BiquadHighpass, u64) {
        let child: BiquadHighpass = BiquadHighpass {
            cutoff_hz: genetics::picked(self.cutoff_hz, other.cutoff_hz, d, at),
            q: genetics::picked(self.q, other.q, d, genetics::nth(at, 1)),
        };
        (child, genetics::nth(at, 2))
    }

    open spec fn in_range(self) -> bool {
        &&& envelope::within(self.cutoff_hz, F32::of(TWENTY), F32::of(TWENTY_THOUSAND))
        &&& envelope::within(self.q, F32::of(TENTH), F32::of(TWENTY))
    }

    open spec fn settled(self) -> bool {
        true
    }

    open spec fn child_of(self, a: BiquadHighpass, b: BiquadHighpass) -> bool {
        &&& self.cutoff_hz == a.cutoff_hz || self.cutoff_hz == b.cutoff_hz
        &&& self.q == a.q || self.q == b.q
    }

    proof fn lemma_misses(
        self,
        d: spec_fn(u64, Draw) -> u64,
        f: spec_fn(Elementary, F32) -> F32,
        at: u64,
        rate: F32,
    ) {
    }

    proof fn lemma_stays_in_range(
        self,
        d: spec_fn(u64, Draw) -> u64,
        f: spec_fn(Elementary, F32) -> F32,
        at: u64,
        rate: F32,
    ) {
        genetics::lemma_log_stays(self.cutoff_hz, d, f, at, rate, HALF, TWENTY, TWENTY_THOUSAND);
        let at1: u64 = genetics::mutated_log(
            self.cutoff_hz, d, f, at, rate, F32::of(HALF), F32::of(TWENTY),
            F32::of(TWENTY_THOUSAND),
        ).1;
        genetics::lemma_f32_stays(self.q, d, at1, rate, HALF, TENTH, TWENTY);
        let at2: u64 = genetics::mutated_f32(
            self.q, d, at1, rate, F32::of(HALF), F32::of(TENTH), F32::of(TWENTY),
        ).1;
    }

    proof fn lemma_child(self, other: BiquadHighpass, d: spec_fn(u64, Draw) -> u64, at: u64) {
    }

    fn mutate<D: Fn(u64, Draw) -> u64, M: Fn(Elementary, F32) -> F32>(
        &mut self,
        tape: &mut Tape<'_, D>,
        rate: F32,
        math: &M,
    ) {
        proof {
            envelope::lemma_rank(TENTH, TWENTY);
            envelope::lemma_rank(TWENTY, TWENTY_THOUSAND);
        }
        self.cutoff_hz = genetics::mutate_f32_log(
            self.cutoff_hz, tape, rate, F32::of(HALF), F32::of(TWENTY), F32::of(TWENTY_THOUSAND),
            math,
        );
        self.q = genetics::mutate_f32(
            self.q, tape, rate, F32::of(HALF), F32::of(TENTH), F32::of(TWENTY),
        );
    }

    fn crossover<D: Fn(u64, Draw) -> u64>(&self, other: &BiquadHighpass, tape: &mut Tape<'_, D>) -> (r: BiquadHighpass) {
        proof {
            reveal_with_fuel(genetics::nth, 3);
        }
        let child: BiquadHighpass = BiquadHighpass {
            cutoff_hz: if tape.coin() {
                self.cutoff_hz
            } else {
                other.cutoff_hz
            },
            q: if tape.coin() {
                self.q
            } else {
                other.q
            },
        };
        child
    }
}

impl Evolvable for BiquadBandpass {
    open spec fn mutated(
        self,
        d: spec_fn(u64, Draw) -> u64,
        f: spec_fn(Elementary, F32) -> F32,
        at: u64,
        rate: F32,
    ) -> (BiquadBandpass, u64) {
        let (center_hz, at1): (F32, u64) = genetics::mutated_log(
            self.center_hz, d, f, at, rate, F32::of(HALF), F32::of(TWENTY),
            F32::of(TWENTY_THOUSAND),
        );
        let (q, at2): (F32, u64) = genetics::mutated_f32(
            self.q, d, at1, rate, F32::of(HALF), F32::of(TENTH), F32::of(TWENTY),
        );
        (BiquadBandpass { center_hz, q }, at2)
    }

    open spec fn crossed(self, other: BiquadBandpass, d: spec_fn(u64, Draw) -> u64, at: u64) -> (BiquadBandpass, u64) {
        let child: BiquadBandpass = BiquadBandpass {
            center_hz: genetics::picked(self.center_hz, other.center_hz, d, at),
            q: genetics::picked(self.q, other.q, d, genetics::nth(at, 1)),
        };
        (child, genetics::nth(at, 2))
    }

    open spec fn in_range(self) -> bool {
        &&& envelope::within(self.center_hz, F32::of(TWENTY), F32::of(TWENTY_THOUSAND))
        &&& envelope::within(self.q, F32::of(TENTH), F32::of(TWENTY))
    }

    open spec fn settled(self) -> bool {
        true
    }

    open spec fn child_of(self, a: BiquadBandpass, b: BiquadBandpass) -> bool {
        &&& self.center_hz == a.center_hz || self.center_hz == b.center_hz
        &&& self.q == a.q || self.q == b.q
    }

    proof fn lemma_misses(
        self,
        d: spec_fn(u64, Draw) -> u64,
        f: spec_fn(Elementary, F32) -> F32,
        at: u64,
        rate: F32,
    ) {
    }

    proof fn lemma_stays_in_range(
        self,
        d: spec_fn(u64, Draw) -> u64,
        f: spec_fn(Elementary, F32) -> F32,
        at: u64,
        rate: F32,
    ) {
        genetics::lemma_log_stays(self.center_hz, d, f, at, rate, HALF, TWENTY, TWENTY_THOUSAND);
        let at1: u64 = genetics::mutated_log(
            self.center_hz, d, f, at, rate, F32::of(HALF), F32::of(TWENTY),
            F32::of(TWENTY_THOUSAND),
        ).1;
        genetics::lemma_f32_stays(self.q, d, at1, rate, HALF, TENTH, TWENTY);
        let at2: u64 = genetics::mutated_f32(
            self.q, d, at1, rate, F32::of(HALF), F32::of(TENTH), F32::of(TWENTY),
        ).1;
    }

    proof fn lemma_child(self, other: BiquadBandpass, d: spec_fn(u64, Draw) -> u64, at: u64) {
    }

    fn mutate<D: Fn(u64, Draw) -> u64, M: Fn(Elementary, F32) -> F32>(
        &mut self,
        tape: &mut Tape<'_, D>,
        rate: F32,
        math: &M,
    ) {
        proof {
            envelope::lemma_rank(TENTH, TWENTY);
            envelope::lemma_rank(TWENTY, TWENTY_THOUSAND);
        }
        self.center_hz = genetics::mutate_f32_log(
            self.center_hz, tape, rate, F32::of(HALF), F32::of(TWENTY), F32::of(TWENTY_THOUSAND),
            math,
        );
        self.q = genetics::mutate_f32(
            self.q, tape, rate, F32::of(HALF), F32::of(TENTH), F32::of(TWENTY),
        );
    }

    fn crossover<D: Fn(u64, Draw) -> u64>(&self, other: &BiquadBandpass, tape: &mut Tape<'_, D>) -> (r: BiquadBandpass) {
        proof {
            reveal_with_fuel(genetics::nth, 3);
        }
        let child: BiquadBandpass = BiquadBandpass {
            center_hz: if tape.coin() {
                self.center_hz
            } else {
                other.center_hz
            },
            q: if tape.coin() {
                self.q
            } else {
                other.q
            },
        };
        child
    }
}

impl Evolvable for Lfo {
    open spec fn mutated(
        self,
        d: spec_fn(u64, Draw) -> u64,
        f: spec_fn(Elementary, F32) -> F32,
        at: u64,
        rate: F32,
    ) -> (Lfo, u64) {
        let (rate_hz, at1): (F32, u64) = genetics::mutated_log(
            self.rate_hz, d, f, at, rate, F32::of(HALF), F32::of(HUNDREDTH), F32::of(THIRTY),
        );
        let (shape, at2): (LfoShape, u64) = (
            if genetics::hit(d, at1, rate) {
                next_shape(self.shape)
            } else {
                self.shape
            },
            genetics::after(at1),
        );
        let (depth, at3): (F32, u64) = genetics::mutated_f32(
            self.depth, d, at2, rate, F32::of(FIFTH), F32::of(0), F32::of(TEN_THOUSAND),
        );
        let (offset, at4): (F32, u64) = genetics::mutated_f32(
            self.offset, d, at3, rate, F32::of(FIFTH), F32::of(MINUS_TEN_THOUSAND),
            F32::of(TEN_THOUSAND),
        );
        (Lfo { rate_hz, shape, depth, offset }, at4)
    }

    open spec fn crossed(self, other: Lfo, d: spec_fn(u64, Draw) -> u64, at: u64) -> (Lfo, u64) {
        let child: Lfo = Lfo {
            rate_hz: genetics::picked(self.rate_hz, other.rate_hz, d, at),
            shape: genetics::picked(self.shape, other.shape, d, genetics::nth(at, 1)),
            depth: genetics::picked(self.depth, other.depth, d, genetics::nth(at, 2)),
            offset: genetics::picked(self.offset, other.offset, d, genetics::nth(at, 3)),
        };
        (child, genetics::nth(at, 4))
    }

    open spec fn in_range(self) -> bool {
        &&& envelope::within(self.rate_hz, F32::of(HUNDREDTH), F32::of(THIRTY))
        &&& envelope::within(self.depth, F32::of(0), F32::of(TEN_THOUSAND))
        &&& envelope::within(self.offset, F32::of(MINUS_TEN_THOUSAND), F32::of(TEN_THOUSAND))
    }

    open spec fn settled(self) -> bool {
        true
    }

    open spec fn child_of(self, a: Lfo, b: Lfo) -> bool {
        &&& self.rate_hz == a.rate_hz || self.rate_hz == b.rate_hz
        &&& self.shape == a.shape || self.shape == b.shape
        &&& self.depth == a.depth || self.depth == b.depth
        &&& self.offset == a.offset || self.offset == b.offset
    }

    proof fn lemma_misses(
        self,
        d: spec_fn(u64, Draw) -> u64,
        f: spec_fn(Elementary, F32) -> F32,
        at: u64,
        rate: F32,
    ) {
    }

    proof fn lemma_stays_in_range(
        self,
        d: spec_fn(u64, Draw) -> u64,
        f: spec_fn(Elementary, F32) -> F32,
        at: u64,
        rate: F32,
    ) {
        genetics::lemma_log_stays(self.rate_hz, d, f, at, rate, HALF, HUNDREDTH, THIRTY);
        let at1: u64 = genetics::mutated_log(
            self.rate_hz, d, f, at, rate, F32::of(HALF), F32::of(HUNDREDTH), F32::of(THIRTY),
        ).1;
        let at2: u64 = genetics::after(at1);
        genetics::lemma_f32_stays(self.depth, d, at2, rate, FIFTH, 0, TEN_THOUSAND);
        let at3: u64 = genetics::mutated_f32(
            self.depth, d, at2, rate, F32::of(FIFTH), F32::of(0), F32::of(TEN_THOUSAND),
        ).1;
        genetics::lemma_f32_stays(
            self.offset, d, at3, rate, FIFTH, MINUS_TEN_THOUSAND, TEN_THOUSAND,
        );
        let at4: u64 = genetics::mutated_f32(
            self.offset, d, at3, rate, F32::of(FIFTH), F32::of(MINUS_TEN_THOUSAND),
            F32::of(TEN_THOUSAND),
        ).1;
    }

    proof fn lemma_child(self, other: Lfo, d: spec_fn(u64, Draw) -> u64, at: u64) {
    }

    fn mutate<D: Fn(u64, Draw) -> u64, M: Fn(Elementary, F32) -> F32>(
        &mut self,
        tape: &mut Tape<'_, D>,
        rate: F32,
        math: &M,
    ) {
        proof {
            envelope::lemma_rank(0, TEN_THOUSAND);
            envelope::lemma_rank(HUNDREDTH, THIRTY);
            envelope::lemma_rank(MINUS_TEN_THOUSAND, TEN_THOUSAND);
        }
        self.rate_hz = genetics::mutate_f32_log(
            self.rate_hz, tape, rate, F32::of(HALF), F32::of(HUNDREDTH), F32::of(THIRTY), math,
        );
        if tape.hit(rate) {
            self.shape = match self.shape {
                LfoShape::Sine => LfoShape::Triangle,
                LfoShape::Triangle => LfoShape::Square,
                LfoShape::Square => LfoShape::Saw,
                LfoShape::Saw => LfoShape::Random,
                LfoShape::Random => LfoShape::Sine,
            };
        }
        self.depth = genetics::mutate_f32(
            self.depth, tape, rate, F32::of(FIFTH), F32::of(0), F32::of(TEN_THOUSAND),
        );
        self.offset = genetics::mutate_f32(
            self.offset, tape, rate, F32::of(FIFTH), F32::of(MINUS_TEN_THOUSAND),
            F32::of(TEN_THOUSAND),
        );
    }

    fn crossover<D: Fn(u64, Draw) -> u64>(&self, other: &Lfo, tape: &mut Tape<'_, D>) -> (r: Lfo) {
        proof {
            reveal_with_fuel(genetics::nth, 5);
        }
        let child: Lfo = Lfo {
            rate_hz: if tape.coin() {
                self.rate_hz
            } else {
                other.rate_hz
            },
            shape: if tape.coin() {
                self.shape
            } else {
                other.shape
            },
            depth: if tape.coin() {
                self.depth
            } else {
                other.depth
            },
            offset: if tape.coin() {
                self.offset
            } else {
                other.offset
            },
        };
        child
    }
}

impl Evolvable for Mix {
    open spec fn mutated(
        self,
        d: spec_fn(u64, Draw) -> u64,
        f: spec_fn(Elementary, F32) -> F32,
        at: u64,
        rate: F32,
    ) -> (Mix, u64) {
        let (gain, at1): (F32, u64) = genetics::mutated_f32(
            self.gain, d, at, rate, F32::of(TENTH), F32::of(0), F32::of(FOUR),
        );
        (Mix { gain }, at1)
    }

    open spec fn crossed(self, other: Mix, d: spec_fn(u64, Draw) -> u64, at: u64) -> (Mix, u64) {
        let child: Mix = Mix {
            gain: genetics::picked(self.gain, other.gain, d, at),
        };
        (child, genetics::nth(at, 1))
    }

    open spec fn in_range(self) -> bool {
        &&& envelope::within(self.gain, F32::of(0), F32::of(FOUR))
    }

    open spec fn settled(self) -> bool {
        true
    }

    open spec fn child_of(self, a: Mix, b: Mix) -> bool {
        &&& self.gain == a.gain || self.gain == b.gain
    }

    proof fn lemma_misses(
        self,
        d: spec_fn(u64, Draw) -> u64,
        f: spec_fn(Elementary, F32) -> F32,
        at: u64,
        rate: F32,
    ) {
    }

    proof fn lemma_stays_in_range(
        self,
        d: spec_fn(u64, Draw) -> u64,
        f: spec_fn(Elementary, F32) -> F32,
        at: u64,
        rate: F32,
    ) {
        genetics::lemma_f32_stays(self.gain, d, at, rate, TENTH, 0, FOUR);
        let at1: u64 = genetics::mutated_f32(
            self.gain, d, at, rate, F32::of(TENTH), F32::of(0), F32::of(FOUR),
        ).1;
    }

    proof fn lemma_child(self, other: Mix, d: spec_fn(u64, Draw) -> u64, at: u64) {
    }

    fn mutate<D: Fn(u64, Draw) -> u64, M: Fn(Elementary, F32) -> F32>(
        &mut self,
        tape: &mut Tape<'_, D>,
        rate: F32,
        math: &M,
    ) {
        proof {
            envelope::lemma_rank(0, FOUR);
        }
        self.gain = genetics::mutate_f32(
            self.gain, tape, rate, F32::of(TENTH), F32::of(0), F32::of(FOUR),
        );
    }

    fn crossover<D: Fn(u64, Draw) -> u64>(&self, other: &Mix, tape: &mut Tape<'_, D>) -> (r: Mix) {
        proof {
            reveal_with_fuel(genetics::nth, 2);
        }
        let child: Mix = Mix {
            gain: if tape.coin() {
                self.gain
            } else {
                other.gain
            },
        };
        child
    }
}

impl Evolvable for Gain {
    open spec fn mutated(
        self,
        d: spec_fn(u64, Draw) -> u64,
        f: spec_fn(Elementary, F32) -> F32,
        at: u64,
        rate: F32,
    ) -> (Gain, u64) {
        let (gain, at1): (F32, u64) = genetics::mutated_f32(
            self.gain, d, at, rate, F32::of(TENTH), F32::of(0), F32::of(FOUR),
        );
        (Gain { gain }, at1)
    }

    open spec fn crossed(self, other: Gain, d: spec_fn(u64, Draw) -> u64, at: u64) -> (Gain, u64) {
        let child: Gain = Gain {
            gain: genetics::picked(self.gain, other.gain, d, at),
        };
        (child, genetics::nth(at, 1))
    }

    open spec fn in_range(self) -> bool {
        &&& envelope::within(self.gain, F32::of(0), F32::of(FOUR))
    }

    open spec fn settled(self) -> bool {
        true
    }

    open spec fn child_of(self, a: Gain, b: Gain) -> bool {
        &&& self.gain == a.gain || self.gain == b.gain
    }

    proof fn lemma_misses(
        self,
        d: spec_fn(u64, Draw) -> u64,
        f: spec_fn(Elementary, F32) -> F32,
        at: u64,
        rate: F32,
    ) {
    }

    proof fn lemma_stays_in_range(
        self,
        d: spec_fn(u64, Draw) -> u64,
        f: spec_fn(Elementary, F32) -> F32,
        at: u64,
        rate: F32,
    ) {
        genetics::lemma_f32_stays(self.gain, d, at, rate, TENTH, 0, FOUR);
        let at1: u64 = genetics::mutated_f32(
            self.gain, d, at, rate, F32::of(TENTH), F32::of(0), F32::of(FOUR),
        ).1;
    }

    proof fn lemma_child(self, other: Gain, d: spec_fn(u64, Draw) -> u64, at: u64) {
    }

    fn mutate<D: Fn(u64, Draw) -> u64, M: Fn(Elementary, F32) -> F32>(
        &mut self,
        tape: &mut Tape<'_, D>,
        rate: F32,
        math: &M,
    ) {
        proof {
            envelope::lemma_rank(0, FOUR);
        }
        self.gain = genetics::mutate_f32(
            self.gain, tape, rate, F32::of(TENTH), F32::of(0), F32::of(FOUR),
        );
    }

    fn crossover<D: Fn(u64, Draw) -> u64>(&self, other: &Gain, tape: &mut Tape<'_, D>) -> (r: Gain) {
        proof {
            reveal_with_fuel(genetics::nth, 2);
        }
        let child: Gain = Gain {
            gain: if tape.coin() {
                self.gain
            } else {
                other.gain
            },
        };
        child
    }
}

impl Evolvable for Gate {
    open spec fn mutated(
        self,
        d: spec_fn(u64, Draw) -> u64,
        f: spec_fn(Elementary, F32) -> F32,
        at: u64,
        rate: F32,
    ) -> (Gate, u64) {
        let (invert, at1): (bool, u64) = (
            if genetics::hit(d, at, rate) {
                !self.invert
            } else {
                self.invert
            },
            genetics::after(at),
        );
        (Gate { invert }, at1)
    }

    open spec fn crossed(self, other: Gate, d: spec_fn(u64, Draw) -> u64, at: u64) -> (Gate, u64) {
        let child: Gate = Gate {
            invert: genetics::picked(self.invert, other.invert, d, at),
        };
        (child, genetics::nth(at, 1))
    }

    open spec fn in_range(self) -> bool {
        true
    }

    open spec fn settled(self) -> bool {
        true
    }

    open spec fn child_of(self, a: Gate, b: Gate) -> bool {
        &&& self.invert == a.invert || self.invert == b.invert
    }

    proof fn lemma_misses(
        self,
        d: spec_fn(u64, Draw) -> u64,
        f: spec_fn(Elementary, F32) -> F32,
        at: u64,
        rate: F32,
    ) {
    }

    proof fn lemma_stays_in_range(
        self,
        d: spec_fn(u64, Draw) -> u64,
        f: spec_fn(Elementary, F32) -> F32,
        at: u64,
        rate: F32,
    ) {
        let at1: u64 = genetics::after(at);
    }

    proof fn lemma_child(self, other: Gate, d: spec_fn(u64, Draw) -> u64, at: u64) {
    }

    fn mutate<D: Fn(u64, Draw) -> u64, M: Fn(Elementary, F32) -> F32>(
        &mut self,
        tape: &mut Tape<'_, D>,
        rate: F32,
        math: &M,
    ) {
        if tape.hit(rate) {
            self.invert = !self.invert;
        }
    }

    fn crossover<D: Fn(u64, Draw) -> u64>(&self, other: &Gate, tape: &mut Tape<'_, D>) -> (r: Gate) {
        proof {
            reveal_with_fuel(genetics::nth, 2);
        }
        let child: Gate = Gate {
            invert: if tape.coin() {
                self.invert
            } else {
                other.invert
            },
        };
        child
    }
}

impl Evolvable for Chorus {
    open spec fn mutated(
        self,
        d: spec_fn(u64, Draw) -> u64,
        f: spec_fn(Elementary, F32) -> F32,
        at: u64,
        rate: F32,
    ) -> (Chorus, u64) {
        let (rate_hz, at1): (F32, u64) = genetics::mutated_log(
            self.rate_hz, d, f, at, rate, F32::of(HALF), F32::of(TWENTIETH), F32::of(TWELVE),
        );
        let (depth_ms, at2): (F32, u64) = genetics::mutated_f32(
            self.depth_ms, d, at1, rate, F32::of(TWO), F32::of(0), F32::of(TWENTY),
        );
        let (base_delay_ms, at3): (F32, u64) = genetics::mutated_f32(
            self.base_delay_ms, d, at2, rate, F32::of(TWO), F32::of(ONE), F32::of(FORTY),
        );
        let (feedback, at4): (F32, u64) = genetics::mutated_f32(
            self.feedback, d, at3, rate, F32::of(TENTH), F32::of(0), F32::of(NINETEEN_TWENTIETHS),
        );
        let (mix, at5): (F32, u64) = genetics::mutated_f32(
            self.mix, d, at4, rate, F32::of(TENTH), F32::of(0), F32::of(ONE),
        );
        (Chorus { rate_hz, depth_ms, base_delay_ms, feedback, mix }, at5)
    }

    open spec fn crossed(self, other: Chorus, d: spec_fn(u64, Draw) -> u64, at: u64) -> (Chorus, u64) {
        let child: Chorus = Chorus {
            rate_hz: genetics::picked(self.rate_hz, other.rate_hz, d, at),
            depth_ms: genetics::picked(self.depth_ms, other.depth_ms, d, genetics::nth(at, 1)),
            base_delay_ms: genetics::picked(self.base_delay_ms, other.base_delay_ms, d, genetics::nth(at, 2)),
            feedback: genetics::picked(self.feedback, other.feedback, d, genetics::nth(at, 3)),
            mix: genetics::picked(self.mix, other.mix, d, genetics::nth(at, 4)),
        };
        (child, genetics::nth(at, 5))
    }

    open spec fn in_range(self) -> bool {
        &&& envelope::within(self.rate_hz, F32::of(TWENTIETH), F32::of(TWELVE))
        &&& envelope::within(self.depth_ms, F32::of(0), F32::of(TWENTY))
        &&& envelope::within(self.base_delay_ms, F32::of(ONE), F32::of(FORTY))
        &&& envelope::within(self.feedback, F32::of(0), F32::of(NINETEEN_TWENTIETHS))
        &&& envelope::within(self.mix, F32::of(0), F32::of(ONE))
    }

    open spec fn settled(self) -> bool {
        true
    }

    open spec fn child_of(self, a: Chorus, b: Chorus) -> bool {
        &&& self.rate_hz == a.rate_hz || self.rate_hz == b.rate_hz
        &&& self.depth_ms == a.depth_ms || self.depth_ms == b.depth_ms
        &&& self.base_delay_ms == a.base_delay_ms || self.base_delay_ms == b.base_delay_ms
        &&& self.feedback == a.feedback || self.feedback == b.feedback
        &&& self.mix == a.mix || self.mix == b.mix
    }

    proof fn lemma_misses(
        self,
        d: spec_fn(u64, Draw) -> u64,
        f: spec_fn(Elementary, F32) -> F32,
        at: u64,
        rate: F32,
    ) {
    }

    proof fn lemma_stays_in_range(
        self,
        d: spec_fn(u64, Draw) -> u64,
        f: spec_fn(Elementary, F32) -> F32,
        at: u64,
        rate: F32,
    ) {
        genetics::lemma_log_stays(self.rate_hz, d, f, at, rate, HALF, TWENTIETH, TWELVE);
        let at1: u64 = genetics::mutated_log(
            self.rate_hz, d, f, at, rate, F32::of(HALF), F32::of(TWENTIETH), F32::of(TWELVE),
        ).1;
        genetics::lemma_f32_stays(self.depth_ms, d, at1, rate, TWO, 0, TWENTY);
        let at2: u64 = genetics::mutated_f32(
            self.depth_ms, d, at1, rate, F32::of(TWO), F32::of(0), F32::of(TWENTY),
        ).1;
        genetics::lemma_f32_stays(self.base_delay_ms, d, at2, rate, TWO, ONE, FORTY);
        let at3: u64 = genetics::mutated_f32(
            self.base_delay_ms, d, at2, rate, F32::of(TWO), F32::of(ONE), F32::of(FORTY),
        ).1;
        genetics::lemma_f32_stays(self.feedback, d, at3, rate, TENTH, 0, NINETEEN_TWENTIETHS);
        let at4: u64 = genetics::mutated_f32(
            self.feedback, d, at3, rate, F32::of(TENTH), F32::of(0), F32::of(NINETEEN_TWENTIETHS),
        ).1;
        genetics::lemma_f32_stays(self.mix, d, at4, rate, TENTH, 0, ONE);
        let at5: u64 = genetics::mutated_f32(
            self.mix, d, at4, rate, F32::of(TENTH), F32::of(0), F32::of(ONE),
        ).1;
    }

    proof fn lemma_child(self, other: Chorus, d: spec_fn(u64, Draw) -> u64, at: u64) {
    }

    fn mutate<D: Fn(u64, Draw) -> u64, M: Fn(Elementary, F32) -> F32>(
        &mut self,
        tape: &mut Tape<'_, D>,
        rate: F32,
        math: &M,
    ) {
        proof {
            envelope::lemma_rank(0, NINETEEN_TWENTIETHS);
            envelope::lemma_rank(0, ONE);
            envelope::lemma_rank(0, TWENTY);
            envelope::lemma_rank(ONE, FORTY);
            envelope::lemma_rank(TWENTIETH, TWELVE);
        }
        self.rate_hz = genetics::mutate_f32_log(
            self.rate_hz, tape, rate, F32::of(HALF), F32::of(TWENTIETH), F32::of(TWELVE), math,
        );
        self.depth_ms = genetics::mutate_f32(
            self.depth_ms, tape, rate, F32::of(TWO), F32::of(0), F32::of(TWENTY),
        );
        self.base_delay_ms = genetics::mutate_f32(
            self.base_delay_ms, tape, rate, F32::of(TWO), F32::of(ONE), F32::of(FORTY),
        );
        self.feedback = genetics::mutate_f32(
            self.feedback, tape, rate, F32::of(TENTH), F32::of(0), F32::of(NINETEEN_TWENTIETHS),
        );
        self.mix = genetics::mutate_f32(
            self.mix, tape, rate, F32::of(TENTH), F32::of(0), F32::of(ONE),
        );
    }

    fn crossover<D: Fn(u64, Draw) -> u64>(&self, other: &Chorus, tape: &mut Tape<'_, D>) -> (r: Chorus) {
        proof {
            reveal_with_fuel(genetics::nth, 6);
        }
        let child: Chorus = Chorus {
            rate_hz: if tape.coin() {
                self.rate_hz
            } else {
                other.rate_hz
            },
            depth_ms: if tape.coin() {
                self.depth_ms
            } else {
                other.depth_ms
            },
            base_delay_ms: if tape.coin() {
                self.base_delay_ms
            } else {
                other.base_delay_ms
            },
            feedback: if tape.coin() {
                self.feedback
            } else {
                other.feedback
            },
            mix: if tape.coin() {
                self.mix
            } else {
                other.mix
            },
        };
        child
    }
}

impl Evolvable for Reverb {
    open spec fn mutated(
        self,
        d: spec_fn(u64, Draw) -> u64,
        f: spec_fn(Elementary, F32) -> F32,
        at: u64,
        rate: F32,
    ) -> (Reverb, u64) {
        let (room_size, at1): (F32, u64) = genetics::mutated_f32(
            self.room_size, d, at, rate, F32::of(TENTH), F32::of(0), F32::of(ONE),
        );
        let (damping, at2): (F32, u64) = genetics::mutated_f32(
            self.damping, d, at1, rate, F32::of(TENTH), F32::of(0), F32::of(ONE),
        );
        let (mix, at3): (F32, u64) = genetics::mutated_f32(
            self.mix, d, at2, rate, F32::of(TENTH), F32::of(0), F32::of(ONE),
        );
        (Reverb { room_size, damping, mix }, at3)
    }

    open spec fn crossed(self, other: Reverb, d: spec_fn(u64, Draw) -> u64, at: u64) -> (Reverb, u64) {
        let child: Reverb = Reverb {
            room_size: genetics::picked(self.room_size, other.room_size, d, at),
            damping: genetics::picked(self.damping, other.damping, d, genetics::nth(at, 1)),
            mix: genetics::picked(self.mix, other.mix, d, genetics::nth(at, 2)),
        };
        (child, genetics::nth(at, 3))
    }

    open spec fn in_range(self) -> bool {
        &&& envelope::within(self.room_size, F32::of(0), F32::of(ONE))
        &&& envelope::within(self.damping, F32::of(0), F32::of(ONE))
        &&& envelope::within(self.mix, F32::of(0), F32::of(ONE))
    }

    open spec fn settled(self) -> bool {
        true
    }

    open spec fn child_of(self, a: Reverb, b: Reverb) -> bool {
        &&& self.room_size == a.room_size || self.room_size == b.room_size
        &&& self.damping == a.damping || self.damping == b.damping
        &&& self.mix == a.mix || self.mix == b.mix
    }

    proof fn lemma_misses(
        self,
        d: spec_fn(u64, Draw) -> u64,
        f: spec_fn(Elementary, F32) -> F32,
        at: u64,
        rate: F32,
    ) {
    }

    proof fn lemma_stays_in_range(
        self,
        d: spec_fn(u64, Draw) -> u64,
        f: spec_fn(Elementary, F32) -> F32,
        at: u64,
        rate: F32,
    ) {
        genetics::lemma_f32_stays(self.room_size, d, at, rate, TENTH, 0, ONE);
        let at1: u64 = genetics::mutated_f32(
            self.room_size, d, at, rate, F32::of(TENTH), F32::of(0), F32::of(ONE),
        ).1;
        genetics::lemma_f32_stays(self.damping, d, at1, rate, TENTH, 0, ONE);
        let at2: u64 = genetics::mutated_f32(
            self.damping, d, at1, rate, F32::of(TENTH), F32::of(0), F32::of(ONE),
        ).1;
        genetics::lemma_f32_stays(self.mix, d, at2, rate, TENTH, 0, ONE);
        let at3: u64 = genetics::mutated_f32(
            self.mix, d, at2, rate, F32::of(TENTH), F32::of(0), F32::of(ONE),
        ).1;
    }

    proof fn lemma_child(self, other: Reverb, d: spec_fn(u64, Draw) -> u64, at: u64) {
    }

    fn mutate<D: Fn(u64, Draw) -> u64, M: Fn(Elementary, F32) -> F32>(
        &mut self,
        tape: &mut Tape<'_, D>,
        rate: F32,
        math: &M,
    ) {
        proof {
            envelope::lemma_rank(0, ONE);
        }
        self.room_size = genetics::mutate_f32(
            self.room_size, tape, rate, F32::of(TENTH), F32::of(0), F32::of(ONE),
        );
        self.damping = genetics::mutate_f32(
            self.damping, tape, rate, F32::of(TENTH), F32::of(0), F32::of(ONE),
        );
        self.mix = genetics::mutate_f32(
            self.mix, tape, rate, F32::of(TENTH), F32::of(0), F32::of(ONE),
        );
    }

    fn crossover<D: Fn(u64, Draw) -> u64>(&self, other: &Reverb, tape: &mut Tape<'_, D>) -> (r: Reverb) {
        proof {
            reveal_with_fuel(genetics::nth, 4);
        }
        let child: Reverb = Reverb {
            room_size: if tape.coin() {
                self.room_size
            } else {
                other.room_size
            },
            damping: if tape.coin() {
                self.damping
            } else {
                other.damping
            },
            mix: if tape.coin() {
                self.mix
            } else {
                other.mix
            },
        };
        child
    }
}

} // verus!
