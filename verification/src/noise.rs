//! White, pink and brown noise.
//!
//! All three draw from the random stream of the bake, so the same seed
//! always gives the same noise.  Pink noise is white noise through three
//! parallel first-order filters; brown noise is a leaky integral of white
//! noise.
use crate::constants::{HALF, MINUS_ONE, ONE, TWO};
use crate::elementary::Elementary;
use crate::envelope;
use crate::float::F32;
use crate::node::{BakeContext, ContextView, Node, NodeState, StateView, Step};
use crate::numbers;
use crate::stream;
use crate::stream::Stream;
use vstd::arithmetic::power2::*;
use vstd::prelude::*;

verus! {

/// Bits of `0.99765`.
pub const PINK_DECAY_0: u32 = 0x3f7f_65fe;

/// Bits of `0.0990460`.
pub const PINK_FEED_0: u32 = 0x3dca_d8a1;

/// Bits of `0.96300`.
pub const PINK_DECAY_1: u32 = 0x3f76_872b;

/// Bits of `0.2965164`.
pub const PINK_FEED_1: u32 = 0x3e97_d0ff;

/// Bits of `0.57000`.
pub const PINK_DECAY_2: u32 = 0x3f11_eb85;

/// Bits of `1.0526913`.
pub const PINK_FEED_2: u32 = 0x3f86_be97;

/// Bits of `0.1848`.
pub const PINK_DIRECT: u32 = 0x3e3d_3c36;

/// Bits of `0.18`, which brings the sum of the filters to about one.
pub const PINK_NORMALISE: u32 = 0x3e38_51ec;

/// Bits of `3.5`, which brings the integral back to about one.
pub const BROWN_NORMALISE: u32 = 0x4060_0000;

/// Bits of `0.02`.
pub const BROWN_STEP: u32 = 0x3ca3_d70a;

/// Bits of `1.02`.
pub const BROWN_LEAK_DIVISOR: u32 = 0x3f82_8f5c;

/// Uniform noise, drawn fresh for every sample.
#[derive(Clone, Copy, Debug, PartialEq, Eq, Structural)]
pub struct WhiteNoise {
    /// Output scale.
    pub amplitude: F32,
}

impl WhiteNoise {
    /// The default configuration.
    pub open spec fn preset() -> WhiteNoise {
        WhiteNoise { amplitude: F32::of(HALF) }
    }
}

impl Default for WhiteNoise {
    fn default() -> (r: WhiteNoise)
        ensures
            r == WhiteNoise::preset(),
    {
        WhiteNoise { amplitude: F32::of(HALF) }
    }
}

impl Node for WhiteNoise {
    open spec fn step(&self, c: ContextView, f: spec_fn(Elementary, F32) -> F32) -> Step {
        Step { out: c.rng.noise().times(self.amplitude), after: c.drawn() }
    }

    open spec fn fits(&self, sample_rate: u32) -> bool {
        true
    }

    open spec fn initial(&self) -> StateView {
        StateView::Stateless
    }

    fn sample<M: Fn(Elementary, F32) -> F32>(&self, ctx: &mut BakeContext, math: &M) -> (r: F32) {
        ctx.draw().times(self.amplitude)
    }

    fn init_state(&self) -> (r: NodeState) {
        NodeState::Stateless
    }
}

/// Noise that falls by about three decibels per octave.
#[derive(Clone, Copy, Debug, PartialEq, Eq, Structural)]
pub struct PinkNoise {
    /// Output scale.
    pub amplitude: F32,
}

impl PinkNoise {
    /// The default configuration.
    pub open spec fn preset() -> PinkNoise {
        PinkNoise { amplitude: F32::of(HALF) }
    }
}

impl Default for PinkNoise {
    fn default() -> (r: PinkNoise)
        ensures
            r == PinkNoise::preset(),
    {
        PinkNoise { amplitude: F32::of(HALF) }
    }
}

/// The three filters of a [`PinkNoise`].
#[derive(Clone, Copy, Debug, PartialEq, Eq, Structural)]
pub struct PinkState {
    /// The slowest filter.
    pub b0: F32,
    /// The middle filter.
    pub b1: F32,
    /// The fastest filter.
    pub b2: F32,
}

impl Default for PinkState {
    fn default() -> (r: PinkState)
        ensures
            r == (PinkState { b0: F32::of(0), b1: F32::of(0), b2: F32::of(0) }),
    {
        PinkState { b0: F32::of(0), b1: F32::of(0), b2: F32::of(0) }
    }
}

impl PinkState {
    /// The filters after one sample of white noise.
    pub open spec fn spec_fed(self, white: F32) -> PinkState {
        PinkState {
            b0: F32::of(PINK_DECAY_0).times(self.b0).plus(white.times(F32::of(PINK_FEED_0))),
            b1: F32::of(PINK_DECAY_1).times(self.b1).plus(white.times(F32::of(PINK_FEED_1))),
            b2: F32::of(PINK_DECAY_2).times(self.b2).plus(white.times(F32::of(PINK_FEED_2))),
        }
    }

    /// The filters after one sample of white noise.
    #[verifier::when_used_as_spec(spec_fed)]
    pub fn fed(self, white: F32) -> (r: PinkState)
        ensures
            r == self.fed(white),
    {
        PinkState {
            b0: F32::of(PINK_DECAY_0).times(self.b0).plus(white.times(F32::of(PINK_FEED_0))),
            b1: F32::of(PINK_DECAY_1).times(self.b1).plus(white.times(F32::of(PINK_FEED_1))),
            b2: F32::of(PINK_DECAY_2).times(self.b2).plus(white.times(F32::of(PINK_FEED_2))),
        }
    }

    /// The scaled sum of the filters and the white noise itself.
    pub open spec fn spec_sum(self, white: F32) -> F32 {
        self.b0.plus(self.b1).plus(self.b2).plus(white.times(F32::of(PINK_DIRECT))).times(
            F32::of(PINK_NORMALISE),
        )
    }

    /// The scaled sum of the filters and the white noise itself.
    #[verifier::when_used_as_spec(spec_sum)]
    pub fn sum(self, white: F32) -> (r: F32)
        ensures
            r == self.sum(white),
    {
        self.b0.plus(self.b1).plus(self.b2).plus(white.times(F32::of(PINK_DIRECT))).times(
            F32::of(PINK_NORMALISE),
        )
    }
}

impl Node for PinkNoise {
    open spec fn step(&self, c: ContextView, f: spec_fn(Elementary, F32) -> F32) -> Step {
        let white: F32 = c.rng.noise();
        match c.state {
            StateView::Pink(s) => Step {
                out: s.fed(white).sum(white).times(self.amplitude),
                after: c.drawn().keep(StateView::Pink(s.fed(white))),
            },
            _ => Step { out: white.times(self.amplitude), after: c.drawn() },
        }
    }

    open spec fn fits(&self, sample_rate: u32) -> bool {
        true
    }

    open spec fn initial(&self) -> StateView {
        StateView::Pink(PinkState { b0: F32::of(0), b1: F32::of(0), b2: F32::of(0) })
    }

    fn sample<M: Fn(Elementary, F32) -> F32>(&self, ctx: &mut BakeContext, math: &M) -> (r: F32) {
        let white: F32 = ctx.draw();
        match ctx.state {
            NodeState::Pink(s) => {
                let next: PinkState = s.fed(white);
                ctx.state = NodeState::Pink(next);
                next.sum(white).times(self.amplitude)
            },
            _ => white.times(self.amplitude),
        }
    }

    fn init_state(&self) -> (r: NodeState) {
        NodeState::Pink(PinkState::default())
    }
}

/// Noise that falls by about six decibels per octave.
#[derive(Clone, Copy, Debug, PartialEq, Eq, Structural)]
pub struct BrownNoise {
    /// Output scale.
    pub amplitude: F32,
}

impl BrownNoise {
    /// The default configuration.
    pub open spec fn preset() -> BrownNoise {
        BrownNoise { amplitude: F32::of(HALF) }
    }
}

impl Default for BrownNoise {
    fn default() -> (r: BrownNoise)
        ensures
            r == BrownNoise::preset(),
    {
        BrownNoise { amplitude: F32::of(HALF) }
    }
}

/// The integrator of a [`BrownNoise`].
#[derive(Clone, Copy, Debug, PartialEq, Eq, Structural)]
pub struct BrownState {
    /// The leaky integral so far.
    pub last: F32,
}

impl Default for BrownState {
    fn default() -> (r: BrownState)
        ensures
            r == (BrownState { last: F32::of(0) }),
    {
        BrownState { last: F32::of(0) }
    }
}

impl BrownState {
    /// The integrator after one sample of white noise.
    pub open spec fn spec_fed(self, white: F32) -> BrownState {
        BrownState {
            last: self.last.plus(white.times(F32::of(BROWN_STEP))).over(
                F32::of(BROWN_LEAK_DIVISOR),
            ),
        }
    }

    /// The integrator after one sample of white noise.
    #[verifier::when_used_as_spec(spec_fed)]
    pub fn fed(self, white: F32) -> (r: BrownState)
        ensures
            r == self.fed(white),
    {
        BrownState {
            last: self.last.plus(white.times(F32::of(BROWN_STEP))).over(
                F32::of(BROWN_LEAK_DIVISOR),
            ),
        }
    }

    /// The integral scaled and kept between minus one and one.
    pub open spec fn spec_level(self) -> F32 {
        self.last.times(F32::of(BROWN_NORMALISE)).clamp(F32::of(MINUS_ONE), F32::of(ONE))
    }

    /// The integral scaled and kept between minus one and one.
    #[verifier::when_used_as_spec(spec_level)]
    pub fn level(self) -> (r: F32)
        ensures
            r == self.level(),
    {
        proof {
            reveal(F32::spec_le);
            reveal(F32::spec_lt);
        }
        self.last.times(F32::of(BROWN_NORMALISE)).clamp(F32::of(MINUS_ONE), F32::of(ONE))
    }
}

impl Node for BrownNoise {
    open spec fn step(&self, c: ContextView, f: spec_fn(Elementary, F32) -> F32) -> Step {
        let white: F32 = c.rng.noise();
        match c.state {
            StateView::Brown(s) => Step {
                out: s.fed(white).level().times(self.amplitude),
                after: c.drawn().keep(StateView::Brown(s.fed(white))),
            },
            _ => Step { out: white.times(self.amplitude), after: c.drawn() },
        }
    }

    open spec fn fits(&self, sample_rate: u32) -> bool {
        true
    }

    open spec fn initial(&self) -> StateView {
        StateView::Brown(BrownState { last: F32::of(0) })
    }

    fn sample<M: Fn(Elementary, F32) -> F32>(&self, ctx: &mut BakeContext, math: &M) -> (r: F32) {
        let white: F32 = ctx.draw();
        match ctx.state {
            NodeState::Brown(s) => {
                let next: BrownState = s.fed(white);
                ctx.state = NodeState::Brown(next);
                next.level().times(self.amplitude)
            },
            _ => white.times(self.amplitude),
        }
    }

    fn init_state(&self) -> (r: NodeState) {
        NodeState::Brown(BrownState::default())
    }
}

/// Every draw lies between minus one and one.
pub proof fn law_draws_are_bounded(s: Stream)
    ensures
        envelope::within(s.noise(), F32::of(MINUS_ONE), F32::of(ONE)),
{
    stream::lemma_signed_unit(s.word());
}

/// A number between minus one and one, times an amplitude, is no larger than
/// the amplitude.
proof fn lemma_scaled(x: F32, amplitude: F32)
    requires
        envelope::within(x, F32::of(MINUS_ONE), F32::of(ONE)),
        amplitude.is_finite(),
    ensures
        x.times(amplitude).is_finite(),
        x.times(amplitude).magnitude().le(amplitude.magnitude()),
{
    numbers::lemma_zero_one();
    numbers::lemma_value_order(F32::of(MINUS_ONE), x);
    numbers::lemma_value_order(x, F32::of(ONE));
    numbers::lemma_magnitude(amplitude);
    let m: F32 = amplitude.magnitude();
    numbers::lemma_negated(m);
    let v: int = numbers::value(x);
    let a: int = numbers::value(amplitude);
    let u: int = numbers::scale();
    assert(-numbers::value(m) * u <= v * a <= numbers::value(m) * u) by (nonlinear_arith)
        requires
            -u <= v <= u,
            numbers::value(m) == (if a < 0 {
                -a
            } else {
                a
            }),
    ;
    numbers::lemma_times_between(x, amplitude, m.negated(), m);
    let r: F32 = x.times(amplitude);
    numbers::lemma_magnitude(r);
    numbers::lemma_value_order(m.negated(), r);
    numbers::lemma_value_order(r, m);
    numbers::lemma_value_order(r.magnitude(), m);
}

/// White noise is no larger than its amplitude.
pub proof fn law_white_noise_is_bounded(
    n: WhiteNoise,
    c: ContextView,
    f: spec_fn(Elementary, F32) -> F32,
)
    requires
        n.amplitude.is_finite(),
    ensures
        n.step(c, f).out.magnitude().le(n.amplitude.magnitude()),
{
    law_draws_are_bounded(c.rng);
    lemma_scaled(c.rng.noise(), n.amplitude);
}

/// Brown noise is no larger than its amplitude: its integrator starts between
/// minus two and two and stays there.
pub proof fn law_brown_noise_is_bounded(
    n: BrownNoise,
    c: ContextView,
    f: spec_fn(Elementary, F32) -> F32,
)
    requires
        n.amplitude.is_finite(),
        c.state matches StateView::Brown(s) ==> envelope::within(
            s.last,
            F32::of(MINUS_TWO),
            F32::of(TWO),
        ),
    ensures
        n.step(c, f).out.magnitude().le(n.amplitude.magnitude()),
        n.step(c, f).after.state matches StateView::Brown(s) ==> envelope::within(
            s.last,
            F32::of(MINUS_TWO),
            F32::of(TWO),
        ),
{
    law_draws_are_bounded(c.rng);
    match c.state {
        StateView::Brown(s) => {
            let white: F32 = c.rng.noise();
            lemma_integrator(s, white);
            let next: BrownState = s.fed(white);
            envelope::lemma_rank(BROWN_NORMALISE, BROWN_NORMALISE);
            numbers::lemma_value_order(next.last, next.last);
            numbers::lemma_number_times(next.last, BROWN_NORMALISE);
            envelope::lemma_rank(MINUS_ONE, ONE);
            envelope::lemma_clamp_within(
                next.last.times(F32::of(BROWN_NORMALISE)),
                F32::of(MINUS_ONE),
                F32::of(ONE),
            );
            lemma_scaled(next.level(), n.amplitude);
        },
        _ => {
            lemma_scaled(c.rng.noise(), n.amplitude);
        },
    }
}

/// The leaky integrator stays between minus two and two.
proof fn lemma_integrator(s: BrownState, white: F32)
    requires
        envelope::within(s.last, F32::of(MINUS_TWO), F32::of(TWO)),
        envelope::within(white, F32::of(MINUS_ONE), F32::of(ONE)),
    ensures
        envelope::within(s.fed(white).last, F32::of(MINUS_TWO), F32::of(TWO)),
{
    let two: F32 = F32::of(TWO);
    let low: F32 = F32::of(MINUS_TWO);
    let step: F32 = F32::of(BROWN_STEP);
    let leak: F32 = F32::of(BROWN_LEAK_DIVISOR);
    let u: int = numbers::scale();
    numbers::lemma_zero_one();
    numbers::lemma_value_of(TWO, 0x80_0000, 127);
    numbers::lemma_value_of(BROWN_STEP, 0xa3_d70a, 120);
    numbers::lemma_value_of(BROWN_LEAK_DIVISOR, 0x82_8f5c, 126);
    lemma_pow2_adds(23, 126);
    lemma_pow2_adds(120, 6);
    lemma_pow2_unfold(127);
    lemma_pow2_pos(120);
    lemma2_to64();
    numbers::lemma_negated(two);
    numbers::lemma_negated(step);
    assert(two.negated() == low) by {
        reveal(F32::spec_negated);
    }
    let t: int = numbers::value(step);
    let k: int = numbers::value(leak);
    let w: int = numbers::value(white);
    let v: int = numbers::value(s.last);
    numbers::lemma_value_order(F32::of(MINUS_ONE), white);
    numbers::lemma_value_order(white, F32::of(ONE));
    numbers::lemma_value_order(low, s.last);
    numbers::lemma_value_order(s.last, two);
    // white * step lies between minus a step and a step
    assert(-t * u <= w * t <= t * u) by (nonlinear_arith)
        requires
            -u <= w <= u,
            t > 0,
    ;
    numbers::lemma_times_between(white, step, step.negated(), step);
    let p: F32 = white.times(step);
    numbers::lemma_value_order(step.negated(), p);
    numbers::lemma_value_order(p, step);
    // the sum lies between minus and plus twice the divisor
    let top: F32 = F32::of(TWICE_LEAK);
    numbers::lemma_value_of(TWICE_LEAK, 0x82_8f5c, 127);
    numbers::lemma_negated(top);
    assert(2 * u + t <= numbers::value(top));
    numbers::lemma_plus_between(s.last, p, top.negated(), top);
    let q: F32 = s.last.plus(p);
    numbers::lemma_value_order(top.negated(), q);
    numbers::lemma_value_order(q, top);
    let x: int = numbers::value(q);
    assert(numbers::value(top) == 2 * k);
    assert((-2 * u) * k <= x * u <= (2 * u) * k) by (nonlinear_arith)
        requires
            -2 * k <= x <= 2 * k,
            u > 0,
    ;
    numbers::lemma_over_between(q, leak, low, two);
}

/// Bits of `2.04`, twice the divisor of the integrator.
pub const TWICE_LEAK: u32 = 0x4002_8f5c;

/// Bits of `-2.0`.
pub const MINUS_TWO: u32 = 0xc000_0000;

} // verus!
