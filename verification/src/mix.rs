//! Nodes that combine and scale signals.
use crate::constants::ONE;
use crate::elementary::Elementary;
use crate::float::F32;
use crate::node;
use crate::node::{BakeContext, ContextView, Node, NodeState, StateView, Step};
use crate::numbers;
use vstd::prelude::*;

verus! {

/// The sum of all wired ports, scaled.
#[derive(Clone, Copy, Debug, PartialEq, Eq, Structural)]
pub struct Mix {
    /// Multiplier of the sum.
    pub gain: F32,
}

impl Mix {
    /// The default configuration.
    pub open spec fn preset() -> Mix {
        Mix { gain: F32::of(ONE) }
    }
}

impl Default for Mix {
    fn default() -> (r: Mix)
        ensures
            r == Mix::preset(),
    {
        Mix { gain: F32::of(ONE) }
    }
}

impl Node for Mix {
    open spec fn step(&self, c: ContextView, f: spec_fn(Elementary, F32) -> F32) -> Step {
        Step { out: node::input_total(c.inputs).times(self.gain), after: c }
    }

    open spec fn fits(&self, sample_rate: u32) -> bool {
        true
    }

    open spec fn initial(&self) -> StateView {
        StateView::Stateless
    }

    fn sample<M: Fn(Elementary, F32) -> F32>(&self, ctx: &mut BakeContext, math: &M) -> (r: F32) {
        ctx.input_sum().times(self.gain)
    }

    fn init_state(&self) -> (r: NodeState) {
        NodeState::Stateless
    }
}

/// A voltage-controlled amplifier: `"in"` times the gain and what is wired to
/// `"gain"`.
#[derive(Clone, Copy, Debug, PartialEq, Eq, Structural)]
pub struct Gain {
    /// Base multiplier.
    pub gain: F32,
}

impl Gain {
    /// The default configuration.
    pub open spec fn preset() -> Gain {
        Gain { gain: F32::of(ONE) }
    }
}

impl Default for Gain {
    fn default() -> (r: Gain)
        ensures
            r == Gain::preset(),
    {
        Gain { gain: F32::of(ONE) }
    }
}

impl Node for Gain {
    open spec fn step(&self, c: ContextView, f: spec_fn(Elementary, F32) -> F32) -> Step {
        Step { out: c.input("in"@).times(self.gain.plus(c.input("gain"@))), after: c }
    }

    open spec fn fits(&self, sample_rate: u32) -> bool {
        true
    }

    open spec fn initial(&self) -> StateView {
        StateView::Stateless
    }

    fn sample<M: Fn(Elementary, F32) -> F32>(&self, ctx: &mut BakeContext, math: &M) -> (r: F32) {
        let input: F32 = ctx.input("in");
        let gain: F32 = self.gain.plus(ctx.input("gain"));
        input.times(gain)
    }

    fn init_state(&self) -> (r: NodeState) {
        NodeState::Stateless
    }
}

/// An amplifier in its default configuration with nothing wired to its gain
/// passes its input through.
pub proof fn law_default_gain_passes_through(c: ContextView, f: spec_fn(Elementary, F32) -> F32)
    requires
        c.input("gain"@) == F32::of(0),
        !c.input("in"@).is_nan(),
    ensures
        Gain::preset().step(c, f).out == c.input("in"@),
{
    numbers::lemma_zero_one();
    numbers::lemma_plus_exact(F32::of(ONE), F32::of(0), F32::of(ONE));
    numbers::law_times_one(c.input("in"@));
}

/// A mixer with nothing wired to it is silent, whatever its finite gain.
pub proof fn law_mix_of_nothing_is_silent(
    m: Mix,
    c: ContextView,
    f: spec_fn(Elementary, F32) -> F32,
)
    requires
        c.inputs.len() == 0,
        m.gain.is_finite(),
    ensures
        m.step(c, f).out.same(F32::of(0)),
{
    numbers::lemma_zero_one();
    numbers::lemma_times_zero(m.gain, F32::of(0));
    numbers::lemma_same_value(F32::of(0).times(m.gain), F32::of(0));
}

} // verus!
