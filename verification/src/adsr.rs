//! Attack, decay, sustain, release.
//!
//! Turns a gate signal, on above one half, into a control signal between
//! zero and one.  The envelope is triggered by edges: a rising edge starts
//! the attack over from zero, a falling edge captures the present value and
//! lets it fall to zero over the release time.
use crate::constants::{MINUS_ONE, ONE};
use crate::elementary::Elementary;
use crate::envelope;
use crate::float::F32;
use crate::node::{BakeContext, ContextView, Node, NodeState, StateView, Step};
use crate::numbers;
use vstd::prelude::*;

verus! {

/// Bits of `0.01`.
pub const DEFAULT_ATTACK: u32 = 0x3c23_d70a;

/// Bits of `0.1`.
pub const DEFAULT_DECAY: u32 = 0x3dcc_cccd;

/// Bits of `0.7`.
pub const DEFAULT_SUSTAIN: u32 = 0x3f33_3333;

/// Bits of `0.2`.
pub const DEFAULT_RELEASE: u32 = 0x3e4c_cccd;

/// Bits of the level above which a gate is on: `0.5`.
pub const GATE_THRESHOLD: u32 = 0x3f00_0000;

/// Bits of the shortest stage in samples: `1.0`.
pub const MIN_PHASE_SAMPLES: u32 = 0x3f80_0000;

/// Shape of the three ramps of an envelope.
#[derive(Clone, Copy, Debug, PartialEq, Eq, Structural)]
pub enum AdsrCurve {
    /// Straight ramps.
    Linear,
    /// Fast at first, slow towards the end: `1 - (1 - a)^2`.
    Exponential,
}

impl Default for AdsrCurve {
    fn default() -> (r: AdsrCurve)
        ensures
            r == AdsrCurve::Linear,
    {
        AdsrCurve::Linear
    }
}

/// An envelope's times in seconds, its sustain level and its curve.
#[derive(Clone, Copy, Debug, PartialEq, Eq, Structural)]
pub struct AdsrEnvelope {
    /// Time from zero to one.
    pub attack_s: F32,
    /// Time from one to the sustain level.
    pub decay_s: F32,
    /// Level held while the note gate stays on.
    pub sustain_level: F32,
    /// Time from the level at the note gate's end to zero.
    pub release_s: F32,
    /// Shape of the ramps.
    pub curve: AdsrCurve,
}

impl AdsrEnvelope {
    /// The default configuration.
    pub open spec fn preset() -> AdsrEnvelope {
        AdsrEnvelope {
            attack_s: F32::of(DEFAULT_ATTACK),
            decay_s: F32::of(DEFAULT_DECAY),
            sustain_level: F32::of(DEFAULT_SUSTAIN),
            release_s: F32::of(DEFAULT_RELEASE),
            curve: AdsrCurve::Linear,
        }
    }
}

impl Default for AdsrEnvelope {
    fn default() -> (r: AdsrEnvelope)
        ensures
            r == AdsrEnvelope::preset(),
    {
        AdsrEnvelope {
            attack_s: F32::of(DEFAULT_ATTACK),
            decay_s: F32::of(DEFAULT_DECAY),
            sustain_level: F32::of(DEFAULT_SUSTAIN),
            release_s: F32::of(DEFAULT_RELEASE),
            curve: AdsrCurve::Linear,
        }
    }
}

/// The stages of an envelope.
#[derive(Clone, Copy, Debug, PartialEq, Eq, Structural)]
pub enum AdsrPhase {
    /// At zero, until the note gate turns on.
    Idle,
    /// Rising to one.
    Attack,
    /// Falling to the sustain level.
    Decay,
    /// Holding the sustain level.
    Sustain,
    /// Falling to zero.
    Release,
}

/// What an envelope keeps.
#[derive(Clone, Copy, Debug, PartialEq, Eq, Structural)]
pub struct AdsrState {
    /// The present stage.
    pub phase: AdsrPhase,
    /// How many samples the stage has lasted.
    pub elapsed_samples: u64,
    /// The note gate was on at the last sample.
    pub last_gate_high: bool,
    /// The level from which the release started.
    pub release_start_level: F32,
}

impl AdsrState {
    /// An envelope that has not started.
    pub open spec fn idle() -> AdsrState {
        AdsrState {
            phase: AdsrPhase::Idle,
            elapsed_samples: 0,
            last_gate_high: false,
            release_start_level: F32::of(0),
        }
    }
}

impl Default for AdsrState {
    fn default() -> (r: AdsrState)
        ensures
            r == AdsrState::idle(),
    {
        AdsrState {
            phase: AdsrPhase::Idle,
            elapsed_samples: 0,
            last_gate_high: false,
            release_start_level: F32::of(0),
        }
    }
}

/// How far a ramp has come after the fraction `alpha` of its time.
pub open spec fn spec_curve_eval(curve: AdsrCurve, alpha: F32) -> F32 {
    let one: F32 = F32::of(ONE);
    let a: F32 = alpha.clamp(F32::of(0), one);
    match curve {
        AdsrCurve::Linear => a,
        AdsrCurve::Exponential => one.minus(one.minus(a).times(one.minus(a))),
    }
}

/// How far a ramp has come after the fraction `alpha` of its time.
#[verifier::when_used_as_spec(spec_curve_eval)]
pub fn curve_eval(curve: AdsrCurve, alpha: F32) -> (r: F32)
    ensures
        r == curve_eval(curve, alpha),
{
    proof {
        reveal(F32::spec_le);
        reveal(F32::spec_lt);
    }
    let one: F32 = F32::of(ONE);
    let a: F32 = alpha.clamp(F32::of(0), one);
    match curve {
        AdsrCurve::Linear => a,
        AdsrCurve::Exponential => one.minus(one.minus(a).times(one.minus(a))),
    }
}

/// A stage's length in samples, as a number of one or more.
pub open spec fn spec_stage_length(seconds: F32, rate: F32) -> F32 {
    seconds.times(rate).max(F32::of(MIN_PHASE_SAMPLES))
}

/// A stage's length in samples, as a number of one or more.
#[verifier::when_used_as_spec(spec_stage_length)]
pub fn stage_length(seconds: F32, rate: F32) -> (r: F32)
    ensures
        r == stage_length(seconds, rate),
{
    seconds.times(rate).max(F32::of(MIN_PHASE_SAMPLES))
}

impl AdsrEnvelope {
    /// The way from `start` to `end` after the fraction `alpha` of the time.
    pub open spec fn spec_ramp(self, start: F32, end: F32, alpha: F32) -> F32 {
        start.plus(end.minus(start).times(curve_eval(self.curve, alpha)))
    }

    /// The way from `start` to `end` after the fraction `alpha` of the time.
    #[verifier::when_used_as_spec(spec_ramp)]
    pub fn ramp(self, start: F32, end: F32, alpha: F32) -> (r: F32)
        ensures
            r == self.ramp(start, end, alpha),
    {
        start.plus(end.minus(start).times(curve_eval(self.curve, alpha)))
    }

    /// The level at a place in a stage.
    pub open spec fn spec_value(self, state: AdsrState, rate: F32) -> F32 {
        let t: F32 = F32::from_u64(state.elapsed_samples);
        let zero: F32 = F32::of(0);
        let one: F32 = F32::of(ONE);
        match state.phase {
            AdsrPhase::Idle => zero,
            AdsrPhase::Attack => self.ramp(zero, one, t.over(stage_length(self.attack_s, rate))),
            AdsrPhase::Decay => self.ramp(
                one,
                self.sustain_level,
                t.over(stage_length(self.decay_s, rate)),
            ),
            AdsrPhase::Sustain => self.sustain_level,
            AdsrPhase::Release => self.ramp(
                state.release_start_level,
                zero,
                t.over(stage_length(self.release_s, rate)),
            ),
        }
    }

    /// The level at a place in a stage.
    #[verifier::when_used_as_spec(spec_value)]
    pub fn value(self, state: AdsrState, rate: F32) -> (r: F32)
        ensures
            r == self.value(state, rate),
    {
        let t: F32 = F32::from_u64(state.elapsed_samples);
        let zero: F32 = F32::of(0);
        let one: F32 = F32::of(ONE);
        match state.phase {
            AdsrPhase::Idle => zero,
            AdsrPhase::Attack => self.ramp(zero, one, t.over(stage_length(self.attack_s, rate))),
            AdsrPhase::Decay => self.ramp(
                one,
                self.sustain_level,
                t.over(stage_length(self.decay_s, rate)),
            ),
            AdsrPhase::Sustain => self.sustain_level,
            AdsrPhase::Release => self.ramp(
                state.release_start_level,
                zero,
                t.over(stage_length(self.release_s, rate)),
            ),
        }
    }

    /// After how many samples a stage ends of itself; never where this is
    /// the largest integer.
    pub open spec fn spec_phase_duration_samples(self, phase: AdsrPhase, rate: F32) -> u64 {
        match phase {
            AdsrPhase::Idle => u64::MAX,
            AdsrPhase::Sustain => u64::MAX,
            AdsrPhase::Attack => stage_length(self.attack_s, rate).to_u64(),
            AdsrPhase::Decay => stage_length(self.decay_s, rate).to_u64(),
            AdsrPhase::Release => stage_length(self.release_s, rate).to_u64(),
        }
    }

    /// After how many samples a stage ends of itself; never where this is
    /// the largest integer.
    #[verifier::when_used_as_spec(spec_phase_duration_samples)]
    pub fn phase_duration_samples(self, phase: AdsrPhase, rate: F32) -> (r: u64)
        ensures
            r == self.phase_duration_samples(phase, rate),
    {
        match phase {
            AdsrPhase::Idle => u64::MAX,
            AdsrPhase::Sustain => u64::MAX,
            AdsrPhase::Attack => stage_length(self.attack_s, rate).to_u64(),
            AdsrPhase::Decay => stage_length(self.decay_s, rate).to_u64(),
            AdsrPhase::Release => stage_length(self.release_s, rate).to_u64(),
        }
    }

    /// The envelope once it has seen the note gate: a rising edge starts the
    /// attack, a falling edge in mid-note starts the release from the
    /// present level.
    pub open spec fn gated(self, s: AdsrState, gate_high: bool, rate: F32) -> AdsrState {
        if gate_high && !s.last_gate_high {
            AdsrState {
                phase: AdsrPhase::Attack,
                elapsed_samples: 0,
                last_gate_high: true,
                release_start_level: s.release_start_level,
            }
        } else if !gate_high && s.last_gate_high && s.phase != AdsrPhase::Idle && s.phase
            != AdsrPhase::Release {
            AdsrState {
                phase: AdsrPhase::Release,
                elapsed_samples: 0,
                last_gate_high: false,
                release_start_level: self.value(s, rate),
            }
        } else {
            AdsrState { last_gate_high: gate_high, ..s }
        }
    }

    /// The stage after one that has run its time.
    pub open spec fn followed(s: AdsrState) -> AdsrState {
        match s.phase {
            AdsrPhase::Attack => AdsrState { phase: AdsrPhase::Decay, elapsed_samples: 0, ..s },
            AdsrPhase::Decay => AdsrState { phase: AdsrPhase::Sustain, elapsed_samples: 0, ..s },
            AdsrPhase::Release => AdsrState {
                phase: AdsrPhase::Idle,
                elapsed_samples: 0,
                release_start_level: F32::of(0),
                ..s
            },
            _ => s,
        }
    }

    /// The envelope one sample on.
    pub open spec fn aged(self, s: AdsrState, rate: F32) -> AdsrState {
        let t: AdsrState = AdsrState { elapsed_samples: (s.elapsed_samples + 1) as u64, ..s };
        if t.elapsed_samples >= self.phase_duration_samples(t.phase, rate) {
            AdsrEnvelope::followed(t)
        } else {
            t
        }
    }
}

impl Node for AdsrEnvelope {
    open spec fn step(&self, c: ContextView, f: spec_fn(Elementary, F32) -> F32) -> Step {
        let gate_high: bool = F32::of(GATE_THRESHOLD).lt(c.input("gate"@));
        match c.state {
            StateView::Adsr(s) => {
                let g: AdsrState = self.gated(s, gate_high, c.rate());
                Step {
                    out: self.value(g, c.rate()),
                    after: c.keep(StateView::Adsr(self.aged(g, c.rate()))),
                }
            },
            _ => Step {
                out: if gate_high {
                    self.sustain_level
                } else {
                    F32::of(0)
                },
                after: c,
            },
        }
    }

    open spec fn fits(&self, sample_rate: u32) -> bool {
        true
    }

    open spec fn initial(&self) -> StateView {
        StateView::Adsr(AdsrState::idle())
    }

    fn sample<M: Fn(Elementary, F32) -> F32>(&self, ctx: &mut BakeContext, math: &M) -> (r: F32) {
        let rate: F32 = ctx.rate();
        let gate_high: bool = F32::of(GATE_THRESHOLD).lt(ctx.input("gate"));
        let mut state: AdsrState = match ctx.state {
            NodeState::Adsr(s) => s,
            _ => {
                return if gate_high {
                    self.sustain_level
                } else {
                    F32::of(0)
                };
            },
        };
        if gate_high && !state.last_gate_high {
            state.phase = AdsrPhase::Attack;
            state.elapsed_samples = 0;
        } else if !gate_high && state.last_gate_high && state.phase != AdsrPhase::Idle
            && state.phase != AdsrPhase::Release {
            state.release_start_level = self.value(state, rate);
            state.phase = AdsrPhase::Release;
            state.elapsed_samples = 0;
        }
        state.last_gate_high = gate_high;
        let out: F32 = self.value(state, rate);
        state.elapsed_samples = state.elapsed_samples + 1;
        if state.elapsed_samples >= self.phase_duration_samples(state.phase, rate) {
            match state.phase {
                AdsrPhase::Attack => {
                    state.phase = AdsrPhase::Decay;
                    state.elapsed_samples = 0;
                },
                AdsrPhase::Decay => {
                    state.phase = AdsrPhase::Sustain;
                    state.elapsed_samples = 0;
                },
                AdsrPhase::Release => {
                    state.phase = AdsrPhase::Idle;
                    state.elapsed_samples = 0;
                    state.release_start_level = F32::of(0);
                },
                _ => {},
            }
        }
        ctx.state = NodeState::Adsr(state);
        out
    }

    fn init_state(&self) -> (r: NodeState) {
        NodeState::Adsr(AdsrState::default())
    }
}

/// A level between zero and one.
pub open spec fn is_level(x: F32) -> bool {
    envelope::within(x, F32::of(0), F32::of(ONE))
}

/// The value of a level.
proof fn lemma_level(x: F32)
    ensures
        is_level(x) <==> x.is_finite() && 0 <= numbers::value(x) <= numbers::scale(),
{
    numbers::lemma_zero_one();
    if x.is_finite() {
        numbers::lemma_value_order(F32::of(0), x);
        numbers::lemma_value_order(x, F32::of(ONE));
    }
}

/// Every ramp is between its start and its end.
proof fn lemma_curve_is_level(curve: AdsrCurve, alpha: F32)
    requires
        !alpha.is_nan(),
    ensures
        is_level(curve_eval(curve, alpha)),
{
    let one: F32 = F32::of(ONE);
    let zero: F32 = F32::of(0);
    let a: F32 = alpha.clamp(zero, one);
    numbers::lemma_clamp_unit(alpha);
    numbers::lemma_zero_one();
    lemma_level(a);
    if curve == AdsrCurve::Exponential {
        numbers::lemma_minus_between(one, a, zero, one);
        let b: F32 = one.minus(a);
        lemma_level(b);
        let v: int = numbers::value(b);
        let u: int = numbers::scale();
        assert(0 <= v * v <= u * u && 0 * u == 0) by (nonlinear_arith)
            requires
                0 <= v <= u,
        ;
        numbers::lemma_times_between(b, b, zero, one);
        lemma_level(b.times(b));
        numbers::lemma_minus_between(one, b.times(b), zero, one);
    }
}

/// A ramp between two levels is a level; one that falls to zero is at most
/// its start.
proof fn lemma_ramp(e: AdsrEnvelope, start: F32, end: F32, alpha: F32)
    requires
        is_level(start),
        is_level(end),
        !alpha.is_nan(),
        start == F32::of(ONE) || end == F32::of(0) || start == F32::of(0),
    ensures
        is_level(e.ramp(start, end, alpha)),
{
    let one: F32 = F32::of(ONE);
    let zero: F32 = F32::of(0);
    let c: F32 = curve_eval(e.curve, alpha);
    lemma_curve_is_level(e.curve, alpha);
    numbers::lemma_zero_one();
    lemma_level(start);
    lemma_level(end);
    lemma_level(c);
    let u: int = numbers::scale();
    let k: int = numbers::value(c);
    if start == zero {
        numbers::lemma_minus_between(end, start, zero, one);
        let d: F32 = end.minus(start);
        lemma_level(d);
        let v: int = numbers::value(d);
        assert(0 <= v * k <= u * u && 0 * u == 0) by (nonlinear_arith)
            requires
                0 <= v <= u,
                0 <= k <= u,
        ;
        numbers::lemma_times_between(d, c, zero, one);
        lemma_level(d.times(c));
        numbers::lemma_plus_between(start, d.times(c), zero, one);
    } else if start == one {
        let low: F32 = F32::of(MINUS_ONE);
        numbers::lemma_minus_between(end, start, low, zero);
        let d: F32 = end.minus(start);
        numbers::lemma_value_order(low, d);
        numbers::lemma_value_order(d, zero);
        let v: int = numbers::value(d);
        assert((-u) * u <= v * k <= 0 && 0 * u == 0) by (nonlinear_arith)
            requires
                -u <= v <= 0,
                0 <= k <= u,
        ;
        numbers::lemma_times_between(d, c, low, zero);
        let p: F32 = d.times(c);
        numbers::lemma_value_order(low, p);
        numbers::lemma_value_order(p, zero);
        numbers::lemma_plus_between(start, p, zero, one);
    } else {
        numbers::lemma_negated(start);
        let low: F32 = start.negated();
        numbers::lemma_minus_between(end, start, low, low);
        let d: F32 = end.minus(start);
        numbers::lemma_value_order(low, d);
        numbers::lemma_value_order(d, low);
        let v: int = numbers::value(start);
        let dv: int = numbers::value(d);
        assert((-v) * u <= dv * k <= 0 && 0 * u == 0) by (nonlinear_arith)
            requires
                dv == -v,
                0 <= v <= u,
                0 <= k <= u,
        ;
        numbers::lemma_times_between(d, c, low, zero);
        let p: F32 = d.times(c);
        numbers::lemma_value_order(low, p);
        numbers::lemma_value_order(p, zero);
        numbers::lemma_plus_between(start, p, zero, one);
    }
}

/// A place in a stage is a number.
proof fn lemma_alpha(elapsed: u64, seconds: F32, rate: F32)
    ensures
        !F32::from_u64(elapsed).over(stage_length(seconds, rate)).is_nan(),
        elapsed == 0 ==> {
            let alpha: F32 = F32::from_u64(elapsed).over(stage_length(seconds, rate));
            &&& alpha.is_finite()
            &&& numbers::value(alpha) == 0
        },
{
    let one: F32 = F32::of(MIN_PHASE_SAMPLES);
    let len: F32 = stage_length(seconds, rate);
    envelope::lemma_rank(MIN_PHASE_SAMPLES, MIN_PHASE_SAMPLES);
    numbers::lemma_value_order(one, one);
    numbers::lemma_max_above(seconds.times(rate), one);
    numbers::lemma_from_u64_not_negative(elapsed);
    numbers::lemma_from_u64_finite(elapsed);
    numbers::lemma_over_length(F32::from_u64(elapsed), len);
    if elapsed == 0 {
        numbers::lemma_small_from_u64(0);
    }
}

/// The level at every place of every stage lies between zero and one, where
/// the sustain level and the level at which the release started do.
pub proof fn law_level_is_bounded(e: AdsrEnvelope, s: AdsrState, rate: F32)
    requires
        is_level(e.sustain_level),
        is_level(s.release_start_level),
    ensures
        is_level(e.value(s, rate)),
{
    let t: F32 = F32::from_u64(s.elapsed_samples);
    let zero: F32 = F32::of(0);
    let one: F32 = F32::of(ONE);
    numbers::lemma_zero_one();
    lemma_level(zero);
    lemma_level(one);
    lemma_alpha(s.elapsed_samples, e.attack_s, rate);
    lemma_alpha(s.elapsed_samples, e.decay_s, rate);
    lemma_alpha(s.elapsed_samples, e.release_s, rate);
    match s.phase {
        AdsrPhase::Attack => {
            lemma_ramp(e, zero, one, t.over(stage_length(e.attack_s, rate)));
        },
        AdsrPhase::Decay => {
            lemma_ramp(e, one, e.sustain_level, t.over(stage_length(e.decay_s, rate)));
        },
        AdsrPhase::Release => {
            lemma_ramp(
                e,
                s.release_start_level,
                zero,
                t.over(stage_length(e.release_s, rate)),
            );
        },
        _ => {},
    }
}

/// Every sample of an envelope lies between zero and one, and it leaves a
/// state of which the same holds.
pub proof fn law_envelope_is_bounded(
    e: AdsrEnvelope,
    c: ContextView,
    f: spec_fn(Elementary, F32) -> F32,
)
    requires
        is_level(e.sustain_level),
        c.state matches StateView::Adsr(s) ==> is_level(s.release_start_level),
    ensures
        is_level(e.step(c, f).out),
        e.step(c, f).after.state matches StateView::Adsr(s) ==> is_level(s.release_start_level),
        e.initial() matches StateView::Adsr(s) ==> is_level(s.release_start_level),
{
    numbers::lemma_zero_one();
    lemma_level(F32::of(0));
    match c.state {
        StateView::Adsr(s) => {
            let high: bool = F32::of(GATE_THRESHOLD).lt(c.input("gate"@));
            law_level_is_bounded(e, s, c.rate());
            law_level_is_bounded(e, e.gated(s, high, c.rate()), c.rate());
        },
        _ => {},
    }
}

/// The start of a ramp is its start.
proof fn lemma_ramp_starts(e: AdsrEnvelope, start: F32, end: F32, alpha: F32)
    requires
        start.is_finite(),
        is_level(start),
        is_level(end),
        alpha.is_finite(),
        numbers::value(alpha) == 0,
    ensures
        e.ramp(start, end, alpha).same(start),
{
    let one: F32 = F32::of(ONE);
    let zero: F32 = F32::of(0);
    numbers::lemma_zero_one();
    numbers::lemma_value_order(alpha, alpha);
    numbers::lemma_value_order(alpha, zero);
    numbers::lemma_clamp_unit(alpha);
    let a: F32 = alpha.clamp(zero, one);
    let c: F32 = curve_eval(e.curve, alpha);
    if e.curve == AdsrCurve::Exponential {
        numbers::lemma_one_minus(a);
        numbers::lemma_value_order(one, one);
        numbers::law_times_one(one);
        numbers::lemma_one_minus(one);
    }
    lemma_level(start);
    lemma_level(end);
    let low: F32 = F32::of(MINUS_ONE);
    numbers::lemma_minus_between(end, start, low, one);
    let d: F32 = end.minus(start);
    numbers::lemma_times_zero(d, c);
    numbers::lemma_plus_exact(start, d.times(c), start);
}

/// A rising edge starts the attack over: whatever the envelope did before,
/// the sample at the edge is zero.
pub proof fn law_rising_edge_restarts_from_zero(
    e: AdsrEnvelope,
    c: ContextView,
    f: spec_fn(Elementary, F32) -> F32,
)
    requires
        c.state matches StateView::Adsr(s) && !s.last_gate_high,
        F32::of(GATE_THRESHOLD).lt(c.input("gate"@)),
    ensures
        e.step(c, f).out.same(F32::of(0)),
{
    numbers::lemma_zero_one();
    lemma_level(F32::of(0));
    lemma_level(F32::of(ONE));
    lemma_alpha(0, e.attack_s, c.rate());
    let alpha: F32 = F32::from_u64(0).over(stage_length(e.attack_s, c.rate()));
    lemma_ramp_starts(e, F32::of(0), F32::of(ONE), alpha);
}

/// A falling edge in mid-note starts the release from the level that the
/// envelope has at that moment.
pub proof fn law_falling_edge_releases_from_the_present_level(
    e: AdsrEnvelope,
    c: ContextView,
    f: spec_fn(Elementary, F32) -> F32,
)
    requires
        is_level(e.sustain_level),
        c.state matches StateView::Adsr(s) && s.last_gate_high && is_level(s.release_start_level)
            && s.phase != AdsrPhase::Idle && s.phase != AdsrPhase::Release,
        !F32::of(GATE_THRESHOLD).lt(c.input("gate"@)),
    ensures
        e.step(c, f).out.same(e.value(c.state->Adsr_0, c.rate())),
{
    let s: AdsrState = c.state->Adsr_0;
    law_level_is_bounded(e, s, c.rate());
    numbers::lemma_zero_one();
    lemma_level(F32::of(0));
    lemma_alpha(0, e.release_s, c.rate());
    let alpha: F32 = F32::from_u64(0).over(stage_length(e.release_s, c.rate()));
    lemma_ramp_starts(e, e.value(s, c.rate()), F32::of(0), alpha);
}

/// Both curves start at zero and end at one.
pub proof fn law_curves_meet_their_ends(curve: AdsrCurve, alpha: F32)
    requires
        !alpha.is_nan(),
    ensures
        alpha.le(F32::of(0)) ==> curve_eval(curve, alpha).same(F32::of(0)),
        F32::of(ONE).le(alpha) ==> curve_eval(curve, alpha).same(F32::of(ONE)),
{
    let one: F32 = F32::of(ONE);
    let zero: F32 = F32::of(0);
    let a: F32 = alpha.clamp(zero, one);
    numbers::lemma_zero_one();
    numbers::lemma_clamp_unit(alpha);
    numbers::lemma_same(a, zero);
    numbers::lemma_same(a, one);
    numbers::lemma_same(one, one);
    if curve == AdsrCurve::Exponential {
        numbers::lemma_one_minus(a);
        numbers::lemma_value_order(one, one);
        if alpha.le(zero) {
            numbers::law_times_one(one);
            numbers::lemma_one_minus(one);
            numbers::lemma_same(one.minus(one), zero);
        }
        if one.le(alpha) {
            let rest: F32 = one.minus(a);
            numbers::lemma_times_zero(rest, rest);
            numbers::lemma_one_minus(rest.times(rest));
        }
    }
}

/// While nothing rises, an idle envelope is zero and stays idle; while
/// nothing falls, a sustained one holds its level and stays sustained.
pub proof fn law_rest_and_sustain_hold(
    e: AdsrEnvelope,
    c: ContextView,
    f: spec_fn(Elementary, F32) -> F32,
)
    requires
        c.state matches StateView::Adsr(s) && (s.phase == AdsrPhase::Idle || s.phase
            == AdsrPhase::Sustain),
        c.state->Adsr_0.phase == AdsrPhase::Sustain ==> c.state->Adsr_0.last_gate_high,
        F32::of(GATE_THRESHOLD).lt(c.input("gate"@)) <==> c.state->Adsr_0.phase
            == AdsrPhase::Sustain,
    ensures
        e.step(c, f).out == (if c.state->Adsr_0.phase == AdsrPhase::Sustain {
            e.sustain_level
        } else {
            F32::of(0)
        }),
        e.step(c, f).after.state matches StateView::Adsr(t) && t.phase == c.state->Adsr_0.phase,
{
}

/// The attack ends at the peak: the decay that follows it starts from one.
pub proof fn law_decay_starts_at_the_peak(e: AdsrEnvelope, s: AdsrState, rate: F32)
    requires
        is_level(e.sustain_level),
        s.phase == AdsrPhase::Decay,
        s.elapsed_samples == 0,
    ensures
        e.value(s, rate).same(F32::of(ONE)),
{
    numbers::lemma_zero_one();
    lemma_level(F32::of(ONE));
    lemma_alpha(0, e.decay_s, rate);
    let alpha: F32 = F32::from_u64(0).over(stage_length(e.decay_s, rate));
    lemma_ramp_starts(e, F32::of(ONE), e.sustain_level, alpha);
}

} // verus!
