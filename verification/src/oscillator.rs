//! Four classic waveform generators: sine, square, sawtooth, triangle.
//!
//! All four integrate the instantaneous frequency sample by sample, so
//! wiring another node into the `"freq"` port gives per-sample frequency
//! modulation.  The value on the `"amplitude"` port is added to the
//! configured amplitude.  Unwired ports read zero.
use crate::arith::Parts;
use crate::constants::{FOUR, HALF, MINUS_ONE, ONE, TWO, TWO_PI};
use crate::elementary;
use crate::elementary::Elementary;
use crate::envelope;
use crate::float::{F32, F64};
use crate::node::{BakeContext, ContextView, Node, NodeState, StateView, Step};
use crate::numbers;
use crate::rounding;
use crate::rounding::Width;
use vstd::arithmetic::power2::*;
use vstd::prelude::*;

verus! {

/// Bits of `1.0 / 3.0`.
pub const THIRD: u32 = 0x3eaa_aaab;

/// Bits of `2^-23`, the gap between one and the next number.
pub const EPSILON: u32 = 0x3400_0000;

/// Bits of one less `2^-23`.
pub const ONE_LESS_EPSILON: u32 = 0x3f7f_fffe;

/// Bits of `440.0`, the default pitch.
pub const CONCERT_PITCH: u32 = 0x43dc_0000;

/// Bits of the phase increment from which on the correction windows around
/// two neighbouring edges overlap: `0.5`.
pub const MAX_BLEP_DT: u32 = 0x3f00_0000;

/// A running phase of a cycle, from zero up to one.
#[derive(Clone, Copy, Debug, PartialEq, Eq, Structural)]
pub struct OscPhase {
    /// The phase of the next sample.
    pub phase: F32,
}

impl Default for OscPhase {
    fn default() -> (r: OscPhase)
        ensures
            r == (OscPhase { phase: F32::of(0) }),
    {
        OscPhase { phase: F32::of(0) }
    }
}

/// Direction of a sawtooth ramp.
#[derive(Clone, Copy, Debug, PartialEq, Eq, Structural)]
pub enum SawPolarity {
    /// From minus one up to one.
    Up,
    /// From one down to minus one.
    Down,
}

impl Default for SawPolarity {
    fn default() -> (r: SawPolarity)
        ensures
            r == SawPolarity::Up,
    {
        SawPolarity::Up
    }
}

/// Band-limiting of the generators with edges and corners.
#[derive(Clone, Copy, Debug, PartialEq, Eq, Structural)]
pub enum AntiAlias {
    /// The raw generator.
    Naive,
    /// A polynomial correction around each edge and corner.
    PolyBlep,
}

impl Default for AntiAlias {
    fn default() -> (r: AntiAlias)
        ensures
            r == AntiAlias::Naive,
    {
        AntiAlias::Naive
    }
}

/// The phase after a number of cycles: what is left of it, and the start of
/// the cycle where what is left rounds up to a whole one.
pub open spec fn spec_wrapped(cycles: F32) -> F32 {
    let left: F32 = cycles.rem_euclid(F32::of(ONE));
    if F32::of(ONE).le(left) {
        F32::of(0)
    } else {
        left
    }
}

/// The phase after a number of cycles: what is left of it, and the start of
/// the cycle where what is left rounds up to a whole one.
#[verifier::when_used_as_spec(spec_wrapped)]
pub fn wrapped(cycles: F32) -> (r: F32)
    ensures
        r == wrapped(cycles),
{
    let left: F32 = cycles.rem_euclid(F32::of(ONE));
    if F32::of(ONE).le(left) {
        F32::of(0)
    } else {
        left
    }
}

/// The phase of the sample after the one at phase `p`.
pub open spec fn spec_advance(p: F32, freq: F32, rate: F32) -> F32 {
    wrapped(p.plus(freq.over(rate)))
}

/// The phase of the sample after the one at phase `p`.
#[verifier::when_used_as_spec(spec_advance)]
pub fn advance(p: F32, freq: F32, rate: F32) -> (r: F32)
    ensures
        r == advance(p, freq, rate),
{
    wrapped(p.plus(freq.over(rate)))
}

/// The phase at a time, for an oscillator that keeps none: right as long as
/// the frequency does not change.
pub open spec fn spec_stateless_phase(time_secs: F64, freq: F32) -> F32 {
    wrapped(time_secs.narrow().times(freq))
}

/// The phase at a time, for an oscillator that keeps none: right as long as
/// the frequency does not change.
#[verifier::when_used_as_spec(spec_stateless_phase)]
pub fn stateless_phase(time_secs: F64, freq: F32) -> (r: F32)
    ensures
        r == stateless_phase(time_secs, freq),
{
    wrapped(time_secs.narrow().times(freq))
}

/// The correction of a value step at the phase wrap, matched to a unit step
/// up: zero but within one increment of the wrap.
pub open spec fn spec_poly_blep(t: F32, dt: F32) -> F32 {
    let one: F32 = F32::of(ONE);
    if !(F32::of(0).lt(dt) && dt.lt(F32::of(MAX_BLEP_DT))) {
        F32::of(0)
    } else if t.lt(dt) {
        let x: F32 = t.over(dt);
        F32::of(TWO).times(x).minus(x.times(x)).minus(one)
    } else if one.minus(dt).lt(t) {
        let x: F32 = t.minus(one).over(dt);
        x.times(x).plus(F32::of(TWO).times(x)).plus(one)
    } else {
        F32::of(0)
    }
}

/// The correction of a value step at the phase wrap, matched to a unit step
/// up: zero but within one increment of the wrap.
#[verifier::when_used_as_spec(spec_poly_blep)]
pub fn poly_blep(t: F32, dt: F32) -> (r: F32)
    ensures
        r == poly_blep(t, dt),
{
    let one: F32 = F32::of(ONE);
    if !(F32::of(0).lt(dt) && dt.lt(F32::of(MAX_BLEP_DT))) {
        return F32::of(0);
    }
    if t.lt(dt) {
        let x: F32 = t.over(dt);
        F32::of(TWO).times(x).minus(x.times(x)).minus(one)
    } else if one.minus(dt).lt(t) {
        let x: F32 = t.minus(one).over(dt);
        x.times(x).plus(F32::of(TWO).times(x)).plus(one)
    } else {
        F32::of(0)
    }
}

/// The correction of a slope corner at the phase wrap, the integral of
/// [`poly_blep`]: zero but within one increment of the wrap.
pub open spec fn spec_poly_blamp(t: F32, dt: F32) -> F32 {
    let one: F32 = F32::of(ONE);
    let third: F32 = F32::of(THIRD);
    if !(F32::of(0).lt(dt) && dt.lt(F32::of(MAX_BLEP_DT))) {
        F32::of(0)
    } else if t.lt(dt) {
        let x: F32 = t.over(dt).minus(one);
        third.negated().times(x).times(x).times(x)
    } else if one.minus(dt).lt(t) {
        let x: F32 = t.minus(one).over(dt).plus(one);
        third.times(x).times(x).times(x)
    } else {
        F32::of(0)
    }
}

/// The correction of a slope corner at the phase wrap, the integral of
/// [`poly_blep`]: zero but within one increment of the wrap.
#[verifier::when_used_as_spec(spec_poly_blamp)]
pub fn poly_blamp(t: F32, dt: F32) -> (r: F32)
    ensures
        r == poly_blamp(t, dt),
{
    let one: F32 = F32::of(ONE);
    let third: F32 = F32::of(THIRD);
    if !(F32::of(0).lt(dt) && dt.lt(F32::of(MAX_BLEP_DT))) {
        return F32::of(0);
    }
    if t.lt(dt) {
        let x: F32 = t.over(dt).minus(one);
        third.negated().times(x).times(x).times(x)
    } else if one.minus(dt).lt(t) {
        let x: F32 = t.minus(one).over(dt).plus(one);
        third.times(x).times(x).times(x)
    } else {
        F32::of(0)
    }
}

/// The phase of the sample that a context asks for.
pub open spec fn phase_of(c: ContextView, freq: F32) -> F32 {
    match c.state {
        StateView::Osc(s) => s.phase,
        _ => stateless_phase(c.time_secs(), freq),
    }
}

/// The context once its oscillator has moved on.
pub open spec fn turned(c: ContextView, freq: F32) -> ContextView {
    match c.state {
        StateView::Osc(s) => c.keep(
            StateView::Osc(OscPhase { phase: advance(s.phase, freq, c.rate()) }),
        ),
        _ => c,
    }
}

/// Takes the phase of this sample and moves the oscillator on.
fn step_phase(ctx: &mut BakeContext, freq: F32) -> (r: F32)
    ensures
        r == phase_of(old(ctx)@, freq),
        final(ctx)@ == turned(old(ctx)@, freq),
        final(ctx).state@.sound() == old(ctx).state@.sound(),
        final(ctx).state@.age() == old(ctx).state@.age(),
{
    let rate: F32 = ctx.rate();
    match ctx.state {
        NodeState::Osc(s) => {
            ctx.state = NodeState::Osc(OscPhase { phase: advance(s.phase, freq, rate) });
            s.phase
        },
        _ => stateless_phase(ctx.time_secs(), freq),
    }
}

/// A pure tone.
#[derive(Clone, Copy, Debug, PartialEq, Eq, Structural)]
pub struct SineOsc {
    /// Cycles per second.
    pub freq_hz: F32,
    /// Constant phase offset in cycles.
    pub phase_offset: F32,
    /// Output gain.
    pub amplitude: F32,
}

impl SineOsc {
    /// The default configuration.
    pub open spec fn preset() -> SineOsc {
        SineOsc {
            freq_hz: F32::of(CONCERT_PITCH),
            phase_offset: F32::of(0),
            amplitude: F32::of(ONE),
        }
    }
}

impl Default for SineOsc {
    fn default() -> (r: SineOsc)
        ensures
            r == SineOsc::preset(),
    {
        SineOsc {
            freq_hz: F32::of(CONCERT_PITCH),
            phase_offset: F32::of(0),
            amplitude: F32::of(ONE),
        }
    }
}

impl Node for SineOsc {
    open spec fn step(&self, c: ContextView, f: spec_fn(Elementary, F32) -> F32) -> Step {
        let freq: F32 = self.freq_hz.plus(c.input("freq"@));
        let amp: F32 = self.amplitude.plus(c.input("amplitude"@));
        let angle: F32 = phase_of(c, freq).plus(self.phase_offset).rem_euclid(F32::of(ONE));
        Step {
            out: f(Elementary::Sin, F32::of(TWO_PI).times(angle)).times(amp),
            after: turned(c, freq),
        }
    }

    open spec fn fits(&self, sample_rate: u32) -> bool {
        true
    }

    open spec fn initial(&self) -> StateView {
        StateView::Osc(OscPhase { phase: F32::of(0) })
    }

    fn sample<M: Fn(Elementary, F32) -> F32>(&self, ctx: &mut BakeContext, math: &M) -> (r: F32) {
        let freq: F32 = self.freq_hz.plus(ctx.input("freq"));
        let amp: F32 = self.amplitude.plus(ctx.input("amplitude"));
        let phase: F32 = step_phase(ctx, freq);
        let total: F32 = phase.plus(self.phase_offset).rem_euclid(F32::of(ONE));
        elementary::ask(math, Elementary::Sin, F32::of(TWO_PI).times(total)).times(amp)
    }

    fn init_state(&self) -> (r: NodeState) {
        NodeState::Osc(OscPhase::default())
    }
}

/// A pulse that spends the fraction `duty` of its cycle at one and the rest at
/// minus one.
#[derive(Clone, Copy, Debug, PartialEq, Eq, Structural)]
pub struct SquareOsc {
    /// Cycles per second.
    pub freq_hz: F32,
    /// Fraction of the cycle spent at one; kept just inside zero and one.
    pub duty: F32,
    /// Output gain.
    pub amplitude: F32,
    /// Band-limiting mode.
    pub anti_alias: AntiAlias,
}

impl SquareOsc {
    /// The default configuration.
    pub open spec fn preset() -> SquareOsc {
        SquareOsc {
            freq_hz: F32::of(CONCERT_PITCH),
            duty: F32::of(HALF),
            amplitude: F32::of(ONE),
            anti_alias: AntiAlias::Naive,
        }
    }
}

impl Default for SquareOsc {
    fn default() -> (r: SquareOsc)
        ensures
            r == SquareOsc::preset(),
    {
        SquareOsc {
            freq_hz: F32::of(CONCERT_PITCH),
            duty: F32::of(HALF),
            amplitude: F32::of(ONE),
            anti_alias: AntiAlias::Naive,
        }
    }
}

impl SquareOsc {
    /// The waveform at a phase, for a phase increment `dt` per sample.
    pub open spec fn wave(self, phase: F32, dt: F32) -> F32 {
        let duty: F32 = self.duty.clamp(F32::of(EPSILON), F32::of(ONE_LESS_EPSILON));
        let raw: F32 = if phase.lt(duty) {
            F32::of(ONE)
        } else {
            F32::of(MINUS_ONE)
        };
        match self.anti_alias {
            AntiAlias::Naive => raw,
            // A step up at phase zero, a step down at phase `duty`.
            AntiAlias::PolyBlep => raw.plus(poly_blep(phase, dt)).minus(
                poly_blep(phase.minus(duty).rem_euclid(F32::of(ONE)), dt),
            ),
        }
    }
}

impl Node for SquareOsc {
    open spec fn step(&self, c: ContextView, f: spec_fn(Elementary, F32) -> F32) -> Step {
        let freq: F32 = self.freq_hz.plus(c.input("freq"@));
        let amp: F32 = self.amplitude.plus(c.input("amplitude"@));
        Step {
            out: self.wave(phase_of(c, freq), freq.over(c.rate())).times(amp),
            after: turned(c, freq),
        }
    }

    open spec fn fits(&self, sample_rate: u32) -> bool {
        true
    }

    open spec fn initial(&self) -> StateView {
        StateView::Osc(OscPhase { phase: F32::of(0) })
    }

    fn sample<M: Fn(Elementary, F32) -> F32>(&self, ctx: &mut BakeContext, math: &M) -> (r: F32) {
        let rate: F32 = ctx.rate();
        let freq: F32 = self.freq_hz.plus(ctx.input("freq"));
        let amp: F32 = self.amplitude.plus(ctx.input("amplitude"));
        let phase: F32 = step_phase(ctx, freq);
        proof {
            reveal(F32::spec_le);
            reveal(F32::spec_lt);
        }
        let duty: F32 = self.duty.clamp(F32::of(EPSILON), F32::of(ONE_LESS_EPSILON));
        let mut raw: F32 = if phase.lt(duty) {
            F32::of(ONE)
        } else {
            F32::of(MINUS_ONE)
        };
        if self.anti_alias == AntiAlias::PolyBlep {
            let dt: F32 = freq.over(rate);
            raw = raw.plus(poly_blep(phase, dt));
            raw = raw.minus(poly_blep(phase.minus(duty).rem_euclid(F32::of(ONE)), dt));
        }
        raw.times(amp)
    }

    fn init_state(&self) -> (r: NodeState) {
        NodeState::Osc(OscPhase::default())
    }
}

/// A ramp that starts over every cycle.
#[derive(Clone, Copy, Debug, PartialEq, Eq, Structural)]
pub struct SawtoothOsc {
    /// Cycles per second.
    pub freq_hz: F32,
    /// Direction of the ramp.
    pub polarity: SawPolarity,
    /// Output gain.
    pub amplitude: F32,
    /// Band-limiting mode.
    pub anti_alias: AntiAlias,
}

impl SawtoothOsc {
    /// The default configuration.
    pub open spec fn preset() -> SawtoothOsc {
        SawtoothOsc {
            freq_hz: F32::of(CONCERT_PITCH),
            polarity: SawPolarity::Up,
            amplitude: F32::of(ONE),
            anti_alias: AntiAlias::Naive,
        }
    }
}

impl Default for SawtoothOsc {
    fn default() -> (r: SawtoothOsc)
        ensures
            r == SawtoothOsc::preset(),
    {
        SawtoothOsc {
            freq_hz: F32::of(CONCERT_PITCH),
            polarity: SawPolarity::Up,
            amplitude: F32::of(ONE),
            anti_alias: AntiAlias::Naive,
        }
    }
}

impl SawtoothOsc {
    /// The waveform at a phase, for a phase increment `dt` per sample.
    pub open spec fn wave(self, phase: F32, dt: F32) -> F32 {
        let one: F32 = F32::of(ONE);
        let ramp: F32 = F32::of(TWO).times(phase);
        let (raw, sign): (F32, bool) = match self.polarity {
            SawPolarity::Up => (ramp.minus(one), true),
            SawPolarity::Down => (one.minus(ramp), false),
        };
        let blep: F32 = poly_blep(phase, dt);
        match self.anti_alias {
            AntiAlias::Naive => raw,
            // The start over is a step down of a rising ramp.
            AntiAlias::PolyBlep => raw.plus(
                if sign {
                    blep.negated()
                } else {
                    blep
                },
            ),
        }
    }
}

impl Node for SawtoothOsc {
    open spec fn step(&self, c: ContextView, f: spec_fn(Elementary, F32) -> F32) -> Step {
        let freq: F32 = self.freq_hz.plus(c.input("freq"@));
        let amp: F32 = self.amplitude.plus(c.input("amplitude"@));
        Step {
            out: self.wave(phase_of(c, freq), freq.over(c.rate())).times(amp),
            after: turned(c, freq),
        }
    }

    open spec fn fits(&self, sample_rate: u32) -> bool {
        true
    }

    open spec fn initial(&self) -> StateView {
        StateView::Osc(OscPhase { phase: F32::of(0) })
    }

    fn sample<M: Fn(Elementary, F32) -> F32>(&self, ctx: &mut BakeContext, math: &M) -> (r: F32) {
        let rate: F32 = ctx.rate();
        let freq: F32 = self.freq_hz.plus(ctx.input("freq"));
        let amp: F32 = self.amplitude.plus(ctx.input("amplitude"));
        let phase: F32 = step_phase(ctx, freq);
        let one: F32 = F32::of(ONE);
        let mut raw: F32 = match self.polarity {
            SawPolarity::Up => F32::of(TWO).times(phase).minus(one),
            SawPolarity::Down => one.minus(F32::of(TWO).times(phase)),
        };
        if self.anti_alias == AntiAlias::PolyBlep {
            let blep: F32 = poly_blep(phase, freq.over(rate));
            raw = raw.plus(
                match self.polarity {
                    SawPolarity::Up => blep.negated(),
                    SawPolarity::Down => blep,
                },
            );
        }
        raw.times(amp)
    }

    fn init_state(&self) -> (r: NodeState) {
        NodeState::Osc(OscPhase::default())
    }
}

/// A symmetric triangle: minus one at phase zero, one at half a cycle.
#[derive(Clone, Copy, Debug, PartialEq, Eq, Structural)]
pub struct TriangleOsc {
    /// Cycles per second.
    pub freq_hz: F32,
    /// Output gain.
    pub amplitude: F32,
    /// Band-limiting mode.
    pub anti_alias: AntiAlias,
}

impl TriangleOsc {
    /// The default configuration.
    pub open spec fn preset() -> TriangleOsc {
        TriangleOsc {
            freq_hz: F32::of(CONCERT_PITCH),
            amplitude: F32::of(ONE),
            anti_alias: AntiAlias::Naive,
        }
    }
}

impl Default for TriangleOsc {
    fn default() -> (r: TriangleOsc)
        ensures
            r == TriangleOsc::preset(),
    {
        TriangleOsc {
            freq_hz: F32::of(CONCERT_PITCH),
            amplitude: F32::of(ONE),
            anti_alias: AntiAlias::Naive,
        }
    }
}

impl TriangleOsc {
    /// The waveform at a phase, for a phase increment `dt` per sample.
    pub open spec fn wave(self, phase: F32, dt: F32) -> F32 {
        let half: F32 = F32::of(HALF);
        let raw: F32 = F32::of(ONE).minus(F32::of(FOUR).times(phase.minus(half).magnitude()));
        let slope: F32 = F32::of(FOUR).times(dt);
        match self.anti_alias {
            AntiAlias::Naive => raw,
            // The trough at phase zero is rounded up, the peak down.
            AntiAlias::PolyBlep => raw.plus(slope.times(poly_blamp(phase, dt))).minus(
                slope.times(poly_blamp(phase.minus(half).rem_euclid(F32::of(ONE)), dt)),
            ),
        }
    }
}

impl Node for TriangleOsc {
    open spec fn step(&self, c: ContextView, f: spec_fn(Elementary, F32) -> F32) -> Step {
        let freq: F32 = self.freq_hz.plus(c.input("freq"@));
        let amp: F32 = self.amplitude.plus(c.input("amplitude"@));
        Step {
            out: self.wave(phase_of(c, freq), freq.over(c.rate())).times(amp),
            after: turned(c, freq),
        }
    }

    open spec fn fits(&self, sample_rate: u32) -> bool {
        true
    }

    open spec fn initial(&self) -> StateView {
        StateView::Osc(OscPhase { phase: F32::of(0) })
    }

    fn sample<M: Fn(Elementary, F32) -> F32>(&self, ctx: &mut BakeContext, math: &M) -> (r: F32) {
        let rate: F32 = ctx.rate();
        let freq: F32 = self.freq_hz.plus(ctx.input("freq"));
        let amp: F32 = self.amplitude.plus(ctx.input("amplitude"));
        let phase: F32 = step_phase(ctx, freq);
        let half: F32 = F32::of(HALF);
        let mut raw: F32 = F32::of(ONE).minus(
            F32::of(FOUR).times(phase.minus(half).magnitude()),
        );
        if self.anti_alias == AntiAlias::PolyBlep {
            let dt: F32 = freq.over(rate);
            let slope: F32 = F32::of(FOUR).times(dt);
            raw = raw.plus(slope.times(poly_blamp(phase, dt)));
            raw = raw.minus(
                slope.times(poly_blamp(phase.minus(half).rem_euclid(F32::of(ONE)), dt)),
            );
        }
        raw.times(amp)
    }

    fn init_state(&self) -> (r: NodeState) {
        NodeState::Osc(OscPhase::default())
    }
}

/// A phase: at least zero and less than one.
pub open spec fn is_phase(p: F32) -> bool {
    F32::of(0).le(p) && p.lt(F32::of(ONE))
}

/// What is left of a number after taking whole cycles away is exact.
proof fn lemma_cycle(x: F32)
    requires
        x.is_finite(),
    ensures
        ({
            let r: F32 = x.modulo(F32::of(ONE));
            let u: int = numbers::scale();
            let v: int = numbers::value(x);
            &&& r.is_finite()
            &&& v >= 0 ==> numbers::value(r) == v % u
            &&& v < 0 ==> numbers::value(r) == -((-v) % u)
        }),
{
    reveal(F32::spec_modulo);
    let w: Width = Width::Single;
    let a: Parts = x.parts();
    assert(a.is_finite(w)) by {
        reveal(F32::spec_is_finite);
    }
    numbers::lemma_one();
    numbers::lemma_zero_one();
    let u: int = numbers::scale();
    rounding::lemma_encode_exact(w, a.code as int);
    let code: int = numbers::lemma_remainder_encoded(w, a.code as int, 149);
    rounding::lemma_encode_exact(w, code);
    rounding::lemma_step(w);
    vstd::arithmetic::div_mod::lemma_mod_bound(a.size(w), u);
    let r: F32 = x.modulo(F32::of(ONE));
    assert(r.parts() == (Parts { neg: a.neg, code: code as u64 }));
    assert(r.is_finite()) by {
        reveal(F32::spec_is_finite);
    }
    if a.neg && a.size(w) == 0 {
        vstd::arithmetic::div_mod::lemma_small_mod(0, u as nat);
    }
}

/// A phase lies in the cycle.
pub proof fn lemma_phase(p: F32)
    requires
        is_phase(p),
    ensures
        p.is_finite(),
        0 <= numbers::value(p) < numbers::scale(),
        envelope::within(p, F32::of(0), F32::of(ONE)),
{
    let zero: F32 = F32::of(0);
    let one: F32 = F32::of(ONE);
    numbers::lemma_zero_one();
    numbers::lemma_order(p, one, one);
    numbers::lemma_between_finite(zero, p, one);
    numbers::lemma_value_order(zero, p);
    numbers::lemma_value_order(p, one);
}

/// What is left of a finite number of cycles, forward or backward, is a
/// phase: at least zero and less than one.  Forward it is exact.
pub proof fn law_wrapped_is_a_phase(cycles: F32)
    requires
        cycles.is_finite(),
    ensures
        is_phase(wrapped(cycles)),
        F32::of(0).le(cycles) ==> numbers::value(wrapped(cycles)) == numbers::value(cycles)
            % numbers::scale(),
{
    let zero: F32 = F32::of(0);
    let one: F32 = F32::of(ONE);
    let u: int = numbers::scale();
    reveal(F32::spec_rem_euclid);
    lemma_cycle(cycles);
    numbers::lemma_zero_one();
    numbers::lemma_value_order(zero, cycles);
    numbers::lemma_value_order(zero, zero);
    numbers::lemma_value_order(zero, one);
    let r: F32 = cycles.modulo(one);
    vstd::arithmetic::div_mod::lemma_mod_bound(numbers::value(cycles), u);
    vstd::arithmetic::div_mod::lemma_mod_bound(-numbers::value(cycles), u);
    numbers::lemma_value_order(r, zero);
    numbers::lemma_value_order(zero, r);
    numbers::lemma_value_order(r, one);
    numbers::lemma_value_order(one, r);
    if r.lt(zero) {
        numbers::lemma_magnitude(one);
        assert(one.magnitude() == one) by {
            reveal(F32::spec_magnitude);
        }
        numbers::lemma_plus_between(r, one, zero, one);
        numbers::lemma_value_order(r.plus(one), one);
        numbers::lemma_value_order(one, r.plus(one));
    }
}

/// The phase of an oscillator stays at least zero and less than one, whatever
/// its frequency, forward or backward.
pub proof fn law_phase_stays_a_phase(p: F32, freq: F32, rate: F32)
    requires
        is_phase(p),
        freq.is_finite(),
        rate.is_finite(),
        F32::of(ONE).le(rate),
    ensures
        is_phase(advance(p, freq, rate)),
{
    let one: F32 = F32::of(ONE);
    let u: int = numbers::scale();
    let size: F32 = freq.magnitude();
    let most: int = numbers::value(size);
    let v: int = numbers::value(rate);
    lemma_phase(p);
    numbers::lemma_zero_one();
    numbers::lemma_value_order(one, rate);
    numbers::lemma_magnitude(freq);
    numbers::lemma_negated(size);
    assert((-most) * v <= numbers::value(freq) * u <= most * v) by (nonlinear_arith)
        requires
            -most <= numbers::value(freq) <= most,
            0 < u <= v,
    ;
    numbers::lemma_over_between(freq, rate, size.negated(), size);
    numbers::lemma_plus_small(p, freq.over(rate));
    law_wrapped_is_a_phase(p.plus(freq.over(rate)));
}

/// The phase of a slow sweep stays a phase.
pub proof fn lemma_sweep(p: F32, rate_hz: F32, sample_rate: u32)
    requires
        is_phase(p),
        rate_hz.is_finite(),
        sample_rate >= 1,
    ensures
        is_phase(
            advance(p, rate_hz.max(F32::of(0)), F32::from_u64(sample_rate as u64)),
        ),
{
    let n: u64 = sample_rate as u64;
    numbers::lemma_zero_one();
    numbers::lemma_from_u64_finite(n);
    numbers::lemma_from_u64_order(1, n);
    assert(rate_hz.max(F32::of(0)).is_finite()) by {
        reveal(F32::spec_max);
    }
    law_phase_stays_a_phase(p, rate_hz.max(F32::of(0)), F32::from_u64(n));
}

/// The raw square, sawtooth and triangle lie between minus one and one at
/// every phase.
pub proof fn law_raw_waves_are_bounded(
    square: SquareOsc,
    saw: SawtoothOsc,
    triangle: TriangleOsc,
    phase: F32,
    dt: F32,
)
    requires
        envelope::within(phase, F32::of(0), F32::of(ONE)),
    ensures
        square.anti_alias == AntiAlias::Naive ==> envelope::within(
            square.wave(phase, dt),
            F32::of(MINUS_ONE),
            F32::of(ONE),
        ),
        saw.anti_alias == AntiAlias::Naive ==> envelope::within(
            saw.wave(phase, dt),
            F32::of(MINUS_ONE),
            F32::of(ONE),
        ),
        triangle.anti_alias == AntiAlias::Naive ==> envelope::within(
            triangle.wave(phase, dt),
            F32::of(MINUS_ONE),
            F32::of(ONE),
        ),
{
    let zero: F32 = F32::of(0);
    let one: F32 = F32::of(ONE);
    let low: F32 = F32::of(MINUS_ONE);
    let two: F32 = F32::of(TWO);
    let four: F32 = F32::of(FOUR);
    let half: F32 = F32::of(HALF);
    let u: int = numbers::scale();
    numbers::lemma_zero_one();
    numbers::lemma_value_of(TWO, 0x80_0000, 127);
    numbers::lemma_value_of(FOUR, 0x80_0000, 128);
    numbers::lemma_value_of(HALF, 0x80_0000, 125);
    lemma_pow2_adds(23, 126);
    lemma_pow2_unfold(126);
    lemma_pow2_unfold(127);
    lemma_pow2_unfold(128);
    lemma2_to64();
    lemma_pow2_pos(125);
    assert(numbers::value(two) == 2 * u);
    assert(numbers::value(four) == 4 * u);
    assert(2 * numbers::value(half) == u);
    let v: int = numbers::value(phase);
    numbers::lemma_value_order(zero, phase);
    numbers::lemma_value_order(phase, one);
    numbers::lemma_value_order(low, one);
    numbers::lemma_value_order(one, one);
    numbers::lemma_value_order(low, low);
    // the ramp
    assert(0 <= (2 * u) * v <= (2 * u) * u && 0 * u == 0) by (nonlinear_arith)
        requires
            0 <= v <= u,
    ;
    numbers::lemma_times_between(two, phase, zero, two);
    let ramp: F32 = two.times(phase);
    numbers::lemma_value_order(zero, ramp);
    numbers::lemma_value_order(ramp, two);
    numbers::lemma_minus_between(ramp, one, low, one);
    numbers::lemma_minus_between(one, ramp, low, one);
    // the triangle
    numbers::lemma_negated(half);
    numbers::lemma_minus_between(phase, half, half.negated(), half);
    let d: F32 = phase.minus(half);
    numbers::lemma_value_order(half.negated(), d);
    numbers::lemma_value_order(d, half);
    numbers::lemma_magnitude(d);
    let m: F32 = d.magnitude();
    let k: int = numbers::value(m);
    assert(0 <= (4 * u) * k <= (2 * u) * u && 0 * u == 0) by (nonlinear_arith)
        requires
            0 <= 2 * k <= u,
            u > 0,
    ;
    numbers::lemma_times_between(four, m, zero, two);
    let t: F32 = four.times(m);
    numbers::lemma_value_order(zero, t);
    numbers::lemma_value_order(t, two);
    numbers::lemma_minus_between(one, t, low, one);
}

/// Away from its edge a correction is nothing: outside one increment of the
/// wrap, and wherever the increment is not between zero and the half.
pub proof fn law_corrections_vanish_away_from_the_edge(t: F32, dt: F32)
    requires
        (dt.le(t) && t.le(F32::of(ONE).minus(dt))) || !F32::of(0).lt(dt) || !dt.lt(
            F32::of(MAX_BLEP_DT),
        ),
    ensures
        poly_blep(t, dt) == F32::of(0),
        poly_blamp(t, dt) == F32::of(0),
{
    numbers::lemma_order(t, dt, t);
    numbers::lemma_order(F32::of(ONE).minus(dt), t, dt);
    numbers::lemma_order(t, F32::of(ONE).minus(dt), t);
}

/// Away from the wrap a band-limited sawtooth is the raw one.
pub proof fn law_sawtooth_is_raw_away_from_the_wrap(saw: SawtoothOsc, phase: F32, dt: F32)
    requires
        envelope::within(phase, F32::of(0), F32::of(ONE)),
        dt.le(phase),
        phase.le(F32::of(ONE).minus(dt)),
    ensures
        saw.wave(phase, dt).same(
            SawtoothOsc { anti_alias: AntiAlias::Naive, ..saw }.wave(phase, dt),
        ),
{
    let raw_saw: SawtoothOsc = SawtoothOsc { anti_alias: AntiAlias::Naive, ..saw };
    let raw: F32 = raw_saw.wave(phase, dt);
    let zero: F32 = F32::of(0);
    law_corrections_vanish_away_from_the_edge(phase, dt);
    law_raw_waves_are_bounded(SquareOsc::preset(), raw_saw, TriangleOsc::preset(), phase, dt);
    numbers::lemma_zero_one();
    numbers::lemma_negated(zero);
    numbers::lemma_plus_exact(raw, zero, raw);
    numbers::lemma_plus_exact(raw, zero.negated(), raw);
    numbers::lemma_same(raw, raw);
}

/// A falling sawtooth is the rising one with its sign turned.
pub proof fn law_sawtooth_polarities_are_opposed(saw: SawtoothOsc, phase: F32, dt: F32)
    requires
        envelope::within(phase, F32::of(0), F32::of(ONE)),
        saw.anti_alias == AntiAlias::Naive,
    ensures
        ({
            let up: SawtoothOsc = SawtoothOsc { polarity: SawPolarity::Up, ..saw };
            let down: SawtoothOsc = SawtoothOsc { polarity: SawPolarity::Down, ..saw };
            down.wave(phase, dt).same(up.wave(phase, dt).negated())
        }),
{
    let up: SawtoothOsc = SawtoothOsc { polarity: SawPolarity::Up, ..saw };
    let down: SawtoothOsc = SawtoothOsc { polarity: SawPolarity::Down, ..saw };
    let one: F32 = F32::of(ONE);
    let two: F32 = F32::of(TWO);
    let zero: F32 = F32::of(0);
    law_raw_waves_are_bounded(SquareOsc::preset(), up, TriangleOsc::preset(), phase, dt);
    law_raw_waves_are_bounded(SquareOsc::preset(), down, TriangleOsc::preset(), phase, dt);
    let ramp: F32 = two.times(phase);
    numbers::lemma_zero_one();
    lemma_ramp_is_finite(phase);
    numbers::lemma_minus_opposed(one, ramp, ramp, one);
    numbers::lemma_negated(ramp.minus(one));
    numbers::lemma_same(one.minus(ramp), ramp.minus(one).negated());
}

/// Twice a phase is a finite number.
proof fn lemma_ramp_is_finite(phase: F32)
    requires
        envelope::within(phase, F32::of(0), F32::of(ONE)),
    ensures
        F32::of(TWO).times(phase).is_finite(),
{
    let two: F32 = F32::of(TWO);
    let zero: F32 = F32::of(0);
    let u: int = numbers::scale();
    let v: int = numbers::value(phase);
    let t: int = numbers::value(two);
    numbers::lemma_zero_one();
    numbers::lemma_value_of(TWO, 0x80_0000, 127);
    lemma_pow2_pos(127);
    numbers::lemma_value_order(zero, phase);
    numbers::lemma_value_order(phase, F32::of(ONE));
    assert(0 * u <= t * v <= t * u) by (nonlinear_arith)
        requires
            0 <= v <= u,
            t >= 0,
    ;
    numbers::lemma_times_between(two, phase, zero, two);
}

/// Numbers as large as each other are the same pattern without their signs.
proof fn lemma_equal_magnitudes(x: F32, y: F32)
    requires
        x.is_finite(),
        y.is_finite(),
        numbers::value(x) == -numbers::value(y),
    ensures
        x.magnitude() == y.magnitude(),
{
    let a: F32 = x.magnitude();
    let b: F32 = y.magnitude();
    numbers::lemma_magnitude(x);
    numbers::lemma_magnitude(y);
    numbers::lemma_same_value(a, b);
    if numbers::value(a) == 0 {
        reveal(F32::spec_magnitude);
        reveal(F32::spec_is_finite);
        reveal(F32::spec_same);
    }
}

/// Twice a half is one.
proof fn lemma_half()
    ensures
        F32::of(HALF).is_finite(),
        2 * numbers::value(F32::of(HALF)) == numbers::scale(),
{
    numbers::lemma_value_of(HALF, 0x80_0000, 125);
    lemma_pow2_adds(23, 126);
    lemma_pow2_unfold(126);
    lemma2_to64();
}

/// The raw triangle is the same at phases as far from its peak on either
/// side.
pub proof fn law_triangle_is_symmetric(triangle: TriangleOsc, p: F32, q: F32, dt: F32)
    requires
        triangle.anti_alias == AntiAlias::Naive,
        envelope::within(p, F32::of(0), F32::of(ONE)),
        envelope::within(q, F32::of(0), F32::of(ONE)),
        numbers::value(p) + numbers::value(q) == numbers::scale(),
    ensures
        triangle.wave(p, dt) == triangle.wave(q, dt),
{
    let half: F32 = F32::of(HALF);
    let a: F32 = p.minus(half);
    let b: F32 = q.minus(half);
    assert(a.magnitude() == b.magnitude()) by {
        numbers::lemma_zero_one();
        lemma_half();
        numbers::lemma_value_order(F32::of(0), p);
        numbers::lemma_value_order(p, F32::of(ONE));
        numbers::lemma_negated(half);
        numbers::lemma_minus_between(p, half, half.negated(), half);
        numbers::lemma_minus_opposed(p, half, q, half);
        lemma_equal_magnitudes(a, b);
    }
}

} // verus!
