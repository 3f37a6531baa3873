//! Low-frequency oscillator.
//!
//! A slow control signal: the waveform at the running phase, scaled by
//! `depth` and shifted by `offset`.
use crate::constants::{FOUR, HALF, MINUS_ONE, ONE, TWO, TWO_PI};
use crate::elementary;
use crate::elementary::Elementary;
use crate::envelope;
use crate::float::F32;
use crate::node::{BakeContext, ContextView, Node, NodeState, StateView, Step};
use crate::noise;
use crate::numbers;
use crate::oscillator;
use crate::oscillator::{AntiAlias, SawPolarity, SawtoothOsc, SquareOsc, TriangleOsc};
use vstd::prelude::*;

verus! {

/// Waveform of a low-frequency oscillator.
#[derive(Clone, Copy, Debug, PartialEq, Eq, Structural)]
pub enum LfoShape {
    /// A sine.
    Sine,
    /// A triangle that starts at minus one.
    Triangle,
    /// One for half a cycle, then minus one.
    Square,
    /// A ramp from minus one up to one.
    Saw,
    /// A random level, drawn anew for every cycle.
    Random,
}

impl Default for LfoShape {
    fn default() -> (r: LfoShape)
        ensures
            r == LfoShape::Sine,
    {
        LfoShape::Sine
    }
}

/// A low-frequency oscillator.
#[derive(Clone, Copy, Debug, PartialEq, Eq, Structural)]
pub struct Lfo {
    /// Cycles per second.
    pub rate_hz: F32,
    /// Waveform.
    pub shape: LfoShape,
    /// Scale of the waveform.
    pub depth: F32,
    /// Shift of the result.
    pub offset: F32,
}

impl Lfo {
    /// The default configuration.
    pub open spec fn preset() -> Lfo {
        Lfo {
            rate_hz: F32::of(ONE),
            shape: LfoShape::Sine,
            depth: F32::of(ONE),
            offset: F32::of(0),
        }
    }
}

impl Default for Lfo {
    fn default() -> (r: Lfo)
        ensures
            r == Lfo::preset(),
    {
        Lfo {
            rate_hz: F32::of(ONE),
            shape: LfoShape::Sine,
            depth: F32::of(ONE),
            offset: F32::of(0),
        }
    }
}

/// What a low-frequency oscillator keeps.
#[derive(Clone, Copy, Debug, PartialEq, Eq, Structural)]
pub struct LfoState {
    /// The phase of the next sample.
    pub phase: F32,
    /// The level drawn for this cycle.
    pub held_value: F32,
    /// A sample was made already.
    pub cycle_started: bool,
}

impl LfoState {
    /// An oscillator that has not started.
    pub open spec fn rest() -> LfoState {
        LfoState { phase: F32::of(0), held_value: F32::of(0), cycle_started: false }
    }
}

impl Default for LfoState {
    fn default() -> (r: LfoState)
        ensures
            r == LfoState::rest(),
    {
        LfoState { phase: F32::of(0), held_value: F32::of(0), cycle_started: false }
    }
}

/// The waveform at a phase.
pub open spec fn wave(
    shape: LfoShape,
    phase: F32,
    held: F32,
    f: spec_fn(Elementary, F32) -> F32,
) -> F32 {
    match shape {
        LfoShape::Sine => f(Elementary::Sin, F32::of(TWO_PI).times(phase)),
        LfoShape::Triangle => F32::of(ONE).minus(
            F32::of(FOUR).times(phase.minus(F32::of(HALF)).magnitude()),
        ),
        LfoShape::Square => if phase.lt(F32::of(HALF)) {
            F32::of(ONE)
        } else {
            F32::of(MINUS_ONE)
        },
        LfoShape::Saw => F32::of(TWO).times(phase).minus(F32::of(ONE)),
        LfoShape::Random => held,
    }
}

impl Lfo {
    /// The context once the level of the first cycle is drawn.
    pub open spec fn opened(self, c: ContextView, s: LfoState) -> ContextView {
        if self.shape == LfoShape::Random && !s.cycle_started {
            c.drawn()
        } else {
            c
        }
    }

    /// The level held through this sample.
    pub open spec fn held(self, c: ContextView, s: LfoState) -> F32 {
        if self.shape == LfoShape::Random && !s.cycle_started {
            c.rng.noise()
        } else {
            s.held_value
        }
    }

    /// The phase of the next sample.
    pub open spec fn next_phase(self, c: ContextView, s: LfoState) -> F32 {
        oscillator::advance(s.phase, self.rate_hz.max(F32::of(0)), c.rate())
    }
}

impl Node for Lfo {
    open spec fn step(&self, c: ContextView, f: spec_fn(Elementary, F32) -> F32) -> Step {
        match c.state {
            StateView::Lfo(s) => {
                let held: F32 = self.held(c, s);
                let c1: ContextView = self.opened(c, s);
                let next: F32 = self.next_phase(c, s);
                let out: F32 = wave(self.shape, s.phase, held, f).times(self.depth).plus(
                    self.offset,
                );
                if self.shape == LfoShape::Random && next.lt(s.phase) {
                    Step {
                        out,
                        after: c1.drawn().keep(
                            StateView::Lfo(
                                LfoState {
                                    phase: next,
                                    held_value: c1.rng.noise(),
                                    cycle_started: true,
                                },
                            ),
                        ),
                    }
                } else {
                    Step {
                        out,
                        after: c1.keep(
                            StateView::Lfo(
                                LfoState { phase: next, held_value: held, cycle_started: true },
                            ),
                        ),
                    }
                }
            },
            _ => Step { out: self.offset, after: c },
        }
    }

    open spec fn fits(&self, sample_rate: u32) -> bool {
        true
    }

    open spec fn initial(&self) -> StateView {
        StateView::Lfo(LfoState::rest())
    }

    fn sample<M: Fn(Elementary, F32) -> F32>(&self, ctx: &mut BakeContext, math: &M) -> (r: F32) {
        let rate: F32 = ctx.rate();
        let is_random: bool = self.shape == LfoShape::Random;
        let mut st: LfoState = match ctx.state {
            NodeState::Lfo(s) => s,
            _ => {
                return self.offset;
            },
        };
        if is_random && !st.cycle_started {
            st.held_value = ctx.draw();
        }
        st.cycle_started = true;
        let phase: F32 = st.phase;
        let raw: F32 = match self.shape {
            LfoShape::Sine => elementary::ask(
                math,
                Elementary::Sin,
                F32::of(TWO_PI).times(phase),
            ),
            LfoShape::Triangle => F32::of(ONE).minus(
                F32::of(FOUR).times(phase.minus(F32::of(HALF)).magnitude()),
            ),
            LfoShape::Square => if phase.lt(F32::of(HALF)) {
                F32::of(ONE)
            } else {
                F32::of(MINUS_ONE)
            },
            LfoShape::Saw => F32::of(TWO).times(phase).minus(F32::of(ONE)),
            LfoShape::Random => st.held_value,
        };
        let next: F32 = oscillator::advance(phase, self.rate_hz.max(F32::of(0)), rate);
        let wrapped: bool = next.lt(phase);
        st.phase = next;
        if is_random && wrapped {
            st.held_value = ctx.draw();
        }
        ctx.state = NodeState::Lfo(st);
        raw.times(self.depth).plus(self.offset)
    }

    fn init_state(&self) -> (r: NodeState) {
        NodeState::Lfo(LfoState::default())
    }
}

/// The sine of every finite number lies between minus one and one.
pub open spec fn swings(f: spec_fn(Elementary, F32) -> F32) -> bool {
    forall|x: F32|
        x.is_finite() ==> envelope::within(
            #[trigger] f(Elementary::Sin, x),
            F32::of(MINUS_ONE),
            F32::of(ONE),
        )
}

/// What a running oscillator keeps: a phase of the cycle and a level between
/// minus one and one.
pub open spec fn runs(s: LfoState) -> bool {
    &&& oscillator::is_phase(s.phase)
    &&& envelope::within(s.held_value, F32::of(MINUS_ONE), F32::of(ONE))
}

/// The angle of a phase is finite.
proof fn lemma_angle(phase: F32)
    requires
        envelope::within(phase, F32::of(0), F32::of(ONE)),
    ensures
        F32::of(TWO_PI).times(phase).is_finite(),
{
    let turn: F32 = F32::of(TWO_PI);
    let zero: F32 = F32::of(0);
    let u: int = numbers::scale();
    let v: int = numbers::value(phase);
    let t: int = numbers::value(turn);
    numbers::lemma_zero_one();
    envelope::lemma_rank(0, TWO_PI);
    numbers::lemma_value_order(zero, turn);
    numbers::lemma_value_order(zero, phase);
    numbers::lemma_value_order(phase, F32::of(ONE));
    assert(0 * u <= t * v <= t * u) by (nonlinear_arith)
        requires
            0 <= v <= u,
            t >= 0,
    ;
    numbers::lemma_times_between(turn, phase, zero, turn);
}

/// Every shape lies between minus one and one.
pub proof fn law_shapes_are_bounded(
    shape: LfoShape,
    phase: F32,
    held: F32,
    f: spec_fn(Elementary, F32) -> F32,
)
    requires
        swings(f),
        envelope::within(phase, F32::of(0), F32::of(ONE)),
        envelope::within(held, F32::of(MINUS_ONE), F32::of(ONE)),
    ensures
        envelope::within(wave(shape, phase, held, f), F32::of(MINUS_ONE), F32::of(ONE)),
{
    let saw: SawtoothOsc = SawtoothOsc {
        polarity: SawPolarity::Up,
        anti_alias: AntiAlias::Naive,
        ..SawtoothOsc::preset()
    };
    let triangle: TriangleOsc = TriangleOsc {
        anti_alias: AntiAlias::Naive,
        ..TriangleOsc::preset()
    };
    oscillator::law_raw_waves_are_bounded(
        SquareOsc::preset(),
        saw,
        triangle,
        phase,
        F32::of(0),
    );
    numbers::lemma_zero_one();
    lemma_angle(phase);
    numbers::lemma_value_order(F32::of(MINUS_ONE), F32::of(ONE));
    numbers::lemma_value_order(F32::of(ONE), F32::of(ONE));
    numbers::lemma_value_order(F32::of(MINUS_ONE), F32::of(MINUS_ONE));
}

/// Every sample of a running oscillator lies no more than its depth away
/// from its offset, and the oscillator goes on running: its phase stays at
/// least zero and less than one.
pub proof fn law_samples_obey_depth_and_offset(
    lfo: Lfo,
    c: ContextView,
    f: spec_fn(Elementary, F32) -> F32,
)
    requires
        swings(f),
        lfo.offset.is_finite(),
        lfo.depth.is_finite(),
        lfo.rate_hz.is_finite(),
        c.sample_rate >= 1,
        c.state matches StateView::Lfo(s) && runs(s),
    ensures
        lfo.depth.magnitude().negated().plus(lfo.offset).le(lfo.step(c, f).out),
        lfo.step(c, f).out.le(lfo.depth.magnitude().plus(lfo.offset)),
        lfo.step(c, f).after.state matches StateView::Lfo(s) && runs(s),
        lfo.initial() matches StateView::Lfo(s) && runs(s),
{
    let s: LfoState = c.state->Lfo_0;
    let one: F32 = F32::of(ONE);
    let low: F32 = F32::of(MINUS_ONE);
    let held: F32 = lfo.held(c, s);
    let c1: ContextView = lfo.opened(c, s);
    noise::law_draws_are_bounded(c.rng);
    noise::law_draws_are_bounded(c1.rng);
    oscillator::lemma_phase(s.phase);
    law_shapes_are_bounded(lfo.shape, s.phase, held, f);
    oscillator::lemma_sweep(s.phase, lfo.rate_hz, c.sample_rate);
    let x: F32 = wave(lfo.shape, s.phase, held, f);
    let d: F32 = lfo.depth.magnitude();
    numbers::lemma_zero_one();
    numbers::lemma_value_order(F32::of(0), F32::of(0));
    numbers::lemma_value_order(F32::of(0), one);
    numbers::lemma_value_order(low, F32::of(0));
    numbers::lemma_magnitude(lfo.depth);
    numbers::lemma_negated(d);
    numbers::lemma_value_order(low, x);
    numbers::lemma_value_order(x, one);
    let v: int = numbers::value(x);
    let k: int = numbers::value(lfo.depth);
    let m: int = numbers::value(d);
    let u: int = numbers::scale();
    assert(-m * u <= v * k <= m * u) by (nonlinear_arith)
        requires
            -u <= v <= u,
            m == k || m == -k,
            m >= 0,
    ;
    numbers::lemma_times_between(x, lfo.depth, d.negated(), d);
    let p: F32 = x.times(lfo.depth);
    numbers::lemma_value_order(d.negated(), p);
    numbers::lemma_value_order(p, d);
    numbers::lemma_plus_monotone(d.negated(), p, lfo.offset);
    numbers::lemma_plus_monotone(p, d, lfo.offset);
}

} // verus!
