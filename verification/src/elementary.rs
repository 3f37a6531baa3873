//! The transcendental functions that the synthesizer takes from its host.
//!
//! Their results are not fixed to the last bit by any standard, so the
//! library takes them as a function argument and states its own results
//! over whatever that function answers.
use crate::constants::{MINUS_ONE, ONE};
use crate::envelope;
use crate::float::F32;
use vstd::prelude::*;

verus! {

/// A transcendental function of one argument.
#[derive(Clone, Copy, Debug, PartialEq, Eq, Structural)]
pub enum Elementary {
    /// The sine of an angle in radians.
    Sin,
    /// The cosine of an angle in radians.
    Cos,
    /// The hyperbolic tangent.
    Tanh,
    /// Two to the power of the argument.
    Exp2,
}

/// `math` answers every question, always with the same number.
pub open spec fn answers<M: Fn(Elementary, F32) -> F32>(math: M) -> bool {
    &&& forall|k: Elementary, x: F32| #[trigger] math.requires((k, x))
    &&& forall|k: Elementary, x: F32, p: F32, q: F32|
        #[trigger] math.ensures((k, x), p) && #[trigger] math.ensures((k, x), q) ==> p == q
}

/// What `math` answers, as a mathematical function.
pub open spec fn table<M: Fn(Elementary, F32) -> F32>(math: M) -> spec_fn(Elementary, F32) -> F32 {
    |k: Elementary, x: F32| choose|r: F32| math.ensures((k, x), r)
}

/// Between minus one and one, or not a number.
pub open spec fn in_unit_range(r: F32) -> bool {
    r.is_nan() || envelope::within(r, F32::of(MINUS_ONE), F32::of(ONE))
}

/// What `math` gives as a hyperbolic tangent is never beyond one.
pub open spec fn saturates<M: Fn(Elementary, F32) -> F32>(math: M) -> bool {
    forall|x: F32, r: F32| #[trigger]
        math.ensures((Elementary::Tanh, x), r) ==> in_unit_range(r)
}

/// Asks `math` one question.
pub fn ask<M: Fn(Elementary, F32) -> F32>(math: &M, k: Elementary, x: F32) -> (r: F32)
    requires
        answers(*math),
    ensures
        r == table(*math)(k, x),
        math.ensures((k, x), r),
{
    math(k, x)
}

} // verus!
