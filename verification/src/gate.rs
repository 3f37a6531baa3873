//! The note's gate window as a control signal.
//!
//! An envelope is triggered by edges of its `"gate"` input.  A gate node
//! reads the window that the bake carries and is one while the window is
//! open and zero once it has closed; a bake without a window holds it open.
use crate::constants::ONE;
use crate::elementary::Elementary;
use crate::float::F32;
use crate::node::{BakeContext, ContextView, Node, NodeState, StateView, Step};
use vstd::prelude::*;

verus! {

/// One while the note gate is open and zero afterwards.
#[derive(Clone, Copy, Debug, PartialEq, Eq, Structural)]
pub struct Gate {
    /// Zero while the note gate is open and one afterwards instead.
    pub invert: bool,
}

impl Gate {
    /// The default configuration.
    pub open spec fn preset() -> Gate {
        Gate { invert: false }
    }
}

impl Default for Gate {
    fn default() -> (r: Gate)
        ensures
            r == Gate::preset(),
    {
        Gate { invert: false }
    }
}

impl Node for Gate {
    open spec fn step(&self, c: ContextView, f: spec_fn(Elementary, F32) -> F32) -> Step {
        Step {
            out: if c.gate_open() != self.invert {
                F32::of(ONE)
            } else {
                F32::of(0)
            },
            after: c,
        }
    }

    open spec fn fits(&self, sample_rate: u32) -> bool {
        true
    }

    open spec fn initial(&self) -> StateView {
        StateView::Stateless
    }

    fn sample<M: Fn(Elementary, F32) -> F32>(&self, ctx: &mut BakeContext, math: &M) -> (r: F32) {
        if ctx.gate_open() != self.invert {
            F32::of(ONE)
        } else {
            F32::of(0)
        }
    }

    fn init_state(&self) -> (r: NodeState) {
        NodeState::Stateless
    }
}

/// The note gate is one for as long as the window is open and zero afterwards, or
/// the other way round; without a window it is open for ever.
pub proof fn law_gate_follows_the_window(
    g: Gate,
    c: ContextView,
    f: spec_fn(Elementary, F32) -> F32,
)
    ensures
        ({
            let open: bool = c.gate_samples matches Some(n) ==> c.sample_index < n;
            let out: F32 = g.step(c, f).out;
            &&& !g.invert && open ==> out == F32::of(ONE)
            &&& !g.invert && !open ==> out == F32::of(0)
            &&& g.invert && open ==> out == F32::of(0)
            &&& g.invert && !open ==> out == F32::of(ONE)
        }),
{
}

} // verus!
