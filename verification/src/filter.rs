//! Second-order filters: lowpass, highpass, bandpass.
//!
//! The coefficients are those of the audio equalizer cookbook, computed anew
//! for every sample so that the corner can be swept by a wired signal.  The
//! signal comes in on the `"in"` port; `"cutoff_hz"` (`"center_hz"` of a
//! bandpass) and `"q"` are added to the configured values.  Both are kept in
//! a stable range.
use crate::constants::{HALF, ONE, TWO, TWO_PI};
use crate::elementary;
use crate::elementary::Elementary;
use crate::envelope;
use crate::float::F32;
use crate::node::{BakeContext, ContextView, Node, NodeState, StateView, Step};
use crate::numbers;
use crate::rounding;
use crate::rounding::Width;
use vstd::arithmetic::power2::*;
use vstd::prelude::*;

verus! {

/// Bits of `1000.0`.
pub const KILOHERTZ: u32 = 0x447a_0000;

/// Bits of the square root of one half, the resonance of a flat passband.
pub const BUTTERWORTH: u32 = 0x3f35_04f3;

/// Bits of the least resonance: `0.001`.
pub const MIN_Q: u32 = 0x3a83_126f;

/// Bits of the least corner in hertz: `1.0`.
pub const MIN_CUTOFF_HZ: u32 = 0x3f80_0000;

/// Bits of `0.499`, the greatest corner as a fraction of the sample rate.
pub const NYQUIST_FRACTION: u32 = 0x3eff_7cee;

/// Bits of `-2.0`.
pub const MINUS_TWO: u32 = 0xc000_0000;

/// The last two samples in and the last two out.
#[derive(Clone, Copy, Debug, PartialEq, Eq, Structural)]
pub struct BiquadState {
    /// The last sample in.
    pub x1: F32,
    /// The one before.
    pub x2: F32,
    /// The last sample out.
    pub y1: F32,
    /// The one before.
    pub y2: F32,
}

impl BiquadState {
    /// The history of a filter that has heard nothing.
    pub open spec fn rest() -> BiquadState {
        BiquadState { x1: F32::of(0), x2: F32::of(0), y1: F32::of(0), y2: F32::of(0) }
    }
}

impl Default for BiquadState {
    fn default() -> (r: BiquadState)
        ensures
            r == BiquadState::rest(),
    {
        BiquadState { x1: F32::of(0), x2: F32::of(0), y1: F32::of(0), y2: F32::of(0) }
    }
}

/// Coefficients of the difference equation, the leading one divided out.
#[derive(Clone, Copy, Debug, PartialEq, Eq, Structural)]
pub struct BiquadCoefs {
    /// Of the sample in.
    pub b0: F32,
    /// Of the last sample in.
    pub b1: F32,
    /// Of the one before.
    pub b2: F32,
    /// Of the last sample out.
    pub a1: F32,
    /// Of the one before.
    pub a2: F32,
}

/// The three responses.
#[derive(Clone, Copy, Debug, PartialEq, Eq, Structural)]
pub enum BiquadKind {
    /// Passes what is below the corner.
    Lowpass,
    /// Passes what is above the corner.
    Highpass,
    /// Passes what is near the centre.
    Bandpass,
}

/// A corner between one hertz and just under half the sample rate.
pub open spec fn spec_clamp_cutoff(cutoff_hz: F32, rate: F32) -> F32 {
    cutoff_hz.clamp(
        F32::of(MIN_CUTOFF_HZ),
        rate.times(F32::of(NYQUIST_FRACTION)).max(F32::of(TWO)),
    )
}

/// A corner between one hertz and just under half the sample rate.
#[verifier::when_used_as_spec(spec_clamp_cutoff)]
pub fn clamp_cutoff(cutoff_hz: F32, rate: F32) -> (r: F32)
    ensures
        r == clamp_cutoff(cutoff_hz, rate),
{
    let top: F32 = rate.times(F32::of(NYQUIST_FRACTION)).max(F32::of(TWO));
    proof {
        reveal(F32::spec_is_nan);
        numbers::lemma_max_above(rate.times(F32::of(NYQUIST_FRACTION)), F32::of(TWO));
        numbers::lemma_order(F32::of(MIN_CUTOFF_HZ), F32::of(TWO), top);
        reveal(F32::spec_lt);
        reveal(F32::spec_le);
    }
    cutoff_hz.clamp(F32::of(MIN_CUTOFF_HZ), top)
}

/// A finite resonance that is not too small.
pub open spec fn spec_clamp_q(q: F32) -> F32 {
    if q.is_finite() {
        q.max(F32::of(MIN_Q))
    } else {
        F32::of(MIN_Q)
    }
}

/// A finite resonance that is not too small.
#[verifier::when_used_as_spec(spec_clamp_q)]
pub fn clamp_q(q: F32) -> (r: F32)
    ensures
        r == clamp_q(q),
{
    if q.is_finite() {
        q.max(F32::of(MIN_Q))
    } else {
        F32::of(MIN_Q)
    }
}

/// The coefficients for a response, from the cosine and the sine of the
/// corner's angle.
pub open spec fn spec_coefs_at(kind: BiquadKind, cos_w: F32, sin_w: F32, q: F32) -> BiquadCoefs {
    let one: F32 = F32::of(ONE);
    let half: F32 = F32::of(HALF);
    let alpha: F32 = sin_w.over(F32::of(TWO).times(q));
    let a0: F32 = one.plus(alpha);
    let (b0, b1, b2): (F32, F32, F32) = match kind {
        BiquadKind::Lowpass => (
            one.minus(cos_w).times(half),
            one.minus(cos_w),
            one.minus(cos_w).times(half),
        ),
        BiquadKind::Highpass => (
            one.plus(cos_w).times(half),
            one.plus(cos_w).negated(),
            one.plus(cos_w).times(half),
        ),
        BiquadKind::Bandpass => (alpha, F32::of(0), alpha.negated()),
    };
    BiquadCoefs {
        b0: b0.over(a0),
        b1: b1.over(a0),
        b2: b2.over(a0),
        a1: F32::of(MINUS_TWO).times(cos_w).over(a0),
        a2: one.minus(alpha).over(a0),
    }
}

/// The coefficients for a response, from the cosine and the sine of the
/// corner's angle.
#[verifier::when_used_as_spec(spec_coefs_at)]
pub fn coefs_at(kind: BiquadKind, cos_w: F32, sin_w: F32, q: F32) -> (r: BiquadCoefs)
    ensures
        r == coefs_at(kind, cos_w, sin_w, q),
{
    let one: F32 = F32::of(ONE);
    let half: F32 = F32::of(HALF);
    let alpha: F32 = sin_w.over(F32::of(TWO).times(q));
    let a0: F32 = one.plus(alpha);
    let (b0, b1, b2): (F32, F32, F32) = match kind {
        BiquadKind::Lowpass => (
            one.minus(cos_w).times(half),
            one.minus(cos_w),
            one.minus(cos_w).times(half),
        ),
        BiquadKind::Highpass => (
            one.plus(cos_w).times(half),
            one.plus(cos_w).negated(),
            one.plus(cos_w).times(half),
        ),
        BiquadKind::Bandpass => (alpha, F32::of(0), alpha.negated()),
    };
    BiquadCoefs {
        b0: b0.over(a0),
        b1: b1.over(a0),
        b2: b2.over(a0),
        a1: F32::of(MINUS_TWO).times(cos_w).over(a0),
        a2: one.minus(alpha).over(a0),
    }
}

/// The angle per sample of a corner.
pub open spec fn corner_angle(cutoff_hz: F32, rate: F32) -> F32 {
    F32::of(TWO_PI).times(clamp_cutoff(cutoff_hz, rate)).over(rate)
}

/// The coefficients for a response at a corner and a resonance.
pub open spec fn coefs(
    kind: BiquadKind,
    cutoff_hz: F32,
    q: F32,
    rate: F32,
    f: spec_fn(Elementary, F32) -> F32,
) -> BiquadCoefs {
    let omega: F32 = corner_angle(cutoff_hz, rate);
    coefs_at(kind, f(Elementary::Cos, omega), f(Elementary::Sin, omega), clamp_q(q))
}

/// The coefficients for a response at a corner and a resonance.
pub fn compute_coefs<M: Fn(Elementary, F32) -> F32>(
    kind: BiquadKind,
    cutoff_hz: F32,
    q: F32,
    rate: F32,
    math: &M,
) -> (r: BiquadCoefs)
    requires
        elementary::answers(*math),
    ensures
        r == coefs(kind, cutoff_hz, q, rate, elementary::table(*math)),
{
    let omega: F32 = F32::of(TWO_PI).times(clamp_cutoff(cutoff_hz, rate)).over(rate);
    let cos_w: F32 = elementary::ask(math, Elementary::Cos, omega);
    let sin_w: F32 = elementary::ask(math, Elementary::Sin, omega);
    coefs_at(kind, cos_w, sin_w, clamp_q(q))
}

impl BiquadState {
    /// The sample out for a sample in.
    pub open spec fn spec_response(self, input: F32, c: BiquadCoefs) -> F32 {
        c.b0.times(input).plus(c.b1.times(self.x1)).plus(c.b2.times(self.x2)).minus(
            c.a1.times(self.y1),
        ).minus(c.a2.times(self.y2))
    }

    /// The sample out for a sample in.
    #[verifier::when_used_as_spec(spec_response)]
    pub fn response(self, input: F32, c: BiquadCoefs) -> (r: F32)
        ensures
            r == self.response(input, c),
    {
        c.b0.times(input).plus(c.b1.times(self.x1)).plus(c.b2.times(self.x2)).minus(
            c.a1.times(self.y1),
        ).minus(c.a2.times(self.y2))
    }

    /// The history after a sample.
    pub open spec fn heard(self, input: F32, output: F32) -> BiquadState {
        BiquadState { x1: input, x2: self.x1, y1: output, y2: self.y1 }
    }

    /// Filters one sample.
    pub fn process(&mut self, input: F32, c: BiquadCoefs) -> (r: F32)
        ensures
            r == old(self).response(input, c),
            *final(self) == old(self).heard(input, r),
    {
        let y: F32 = self.response(input, c);
        self.x2 = self.x1;
        self.x1 = input;
        self.y2 = self.y1;
        self.y1 = y;
        y
    }
}

/// What a filter with the given response, corner and resonance makes of a
/// context.
pub open spec fn filter_step(
    kind: BiquadKind,
    cutoff: F32,
    q: F32,
    c: ContextView,
    f: spec_fn(Elementary, F32) -> F32,
) -> Step {
    let input: F32 = c.input("in"@);
    match c.state {
        StateView::Biquad(s) => {
            let out: F32 = s.response(input, coefs(kind, cutoff, q, c.rate(), f));
            Step { out, after: c.keep(StateView::Biquad(s.heard(input, out))) }
        },
        _ => Step { out: input, after: c },
    }
}

/// Makes one sample of a filter.
fn filter_sample<M: Fn(Elementary, F32) -> F32>(
    kind: BiquadKind,
    cutoff: F32,
    q: F32,
    ctx: &mut BakeContext,
    math: &M,
) -> (r: F32)
    requires
        elementary::answers(*math),
        old(ctx).state@.sound(),
    ensures
        r == filter_step(kind, cutoff, q, old(ctx)@, elementary::table(*math)).out,
        final(ctx)@ == filter_step(kind, cutoff, q, old(ctx)@, elementary::table(*math)).after,
        final(ctx).state@.sound(),
        final(ctx).state@.age() == old(ctx).state@.age(),
{
    let input: F32 = ctx.input("in");
    let c: BiquadCoefs = compute_coefs(kind, cutoff, q, ctx.rate(), math);
    match ctx.state {
        NodeState::Biquad(s) => {
            let mut next: BiquadState = s;
            let out: F32 = next.process(input, c);
            ctx.state = NodeState::Biquad(next);
            out
        },
        _ => input,
    }
}

/// Passes what is below the cutoff.
#[derive(Clone, Copy, Debug, PartialEq, Eq, Structural)]
pub struct BiquadLowpass {
    /// Corner in hertz.
    pub cutoff_hz: F32,
    /// Resonance.
    pub q: F32,
}

impl BiquadLowpass {
    /// The default configuration.
    pub open spec fn preset() -> BiquadLowpass {
        BiquadLowpass { cutoff_hz: F32::of(KILOHERTZ), q: F32::of(BUTTERWORTH) }
    }
}

impl Default for BiquadLowpass {
    fn default() -> (r: BiquadLowpass)
        ensures
            r == BiquadLowpass::preset(),
    {
        BiquadLowpass { cutoff_hz: F32::of(KILOHERTZ), q: F32::of(BUTTERWORTH) }
    }
}

impl Node for BiquadLowpass {
    open spec fn step(&self, c: ContextView, f: spec_fn(Elementary, F32) -> F32) -> Step {
        filter_step(
            BiquadKind::Lowpass,
            self.cutoff_hz.plus(c.input("cutoff_hz"@)),
            self.q.plus(c.input("q"@)),
            c,
            f,
        )
    }

    open spec fn fits(&self, sample_rate: u32) -> bool {
        true
    }

    open spec fn initial(&self) -> StateView {
        StateView::Biquad(BiquadState::rest())
    }

    fn sample<M: Fn(Elementary, F32) -> F32>(&self, ctx: &mut BakeContext, math: &M) -> (r: F32) {
        let cutoff: F32 = self.cutoff_hz.plus(ctx.input("cutoff_hz"));
        let q: F32 = self.q.plus(ctx.input("q"));
        filter_sample(BiquadKind::Lowpass, cutoff, q, ctx, math)
    }

    fn init_state(&self) -> (r: NodeState) {
        NodeState::Biquad(BiquadState::default())
    }
}

/// Passes what is above the cutoff.
#[derive(Clone, Copy, Debug, PartialEq, Eq, Structural)]
pub struct BiquadHighpass {
    /// Corner in hertz.
    pub cutoff_hz: F32,
    /// Resonance.
    pub q: F32,
}

impl BiquadHighpass {
    /// The default configuration.
    pub open spec fn preset() -> BiquadHighpass {
        BiquadHighpass { cutoff_hz: F32::of(KILOHERTZ), q: F32::of(BUTTERWORTH) }
    }
}

impl Default for BiquadHighpass {
    fn default() -> (r: BiquadHighpass)
        ensures
            r == BiquadHighpass::preset(),
    {
        BiquadHighpass { cutoff_hz: F32::of(KILOHERTZ), q: F32::of(BUTTERWORTH) }
    }
}

impl Node for BiquadHighpass {
    open spec fn step(&self, c: ContextView, f: spec_fn(Elementary, F32) -> F32) -> Step {
        filter_step(
            BiquadKind::Highpass,
            self.cutoff_hz.plus(c.input("cutoff_hz"@)),
            self.q.plus(c.input("q"@)),
            c,
            f,
        )
    }

    open spec fn fits(&self, sample_rate: u32) -> bool {
        true
    }

    open spec fn initial(&self) -> StateView {
        StateView::Biquad(BiquadState::rest())
    }

    fn sample<M: Fn(Elementary, F32) -> F32>(&self, ctx: &mut BakeContext, math: &M) -> (r: F32) {
        let cutoff: F32 = self.cutoff_hz.plus(ctx.input("cutoff_hz"));
        let q: F32 = self.q.plus(ctx.input("q"));
        filter_sample(BiquadKind::Highpass, cutoff, q, ctx, math)
    }

    fn init_state(&self) -> (r: NodeState) {
        NodeState::Biquad(BiquadState::default())
    }
}

/// Passes what is near the centre, at about its own level.
#[derive(Clone, Copy, Debug, PartialEq, Eq, Structural)]
pub struct BiquadBandpass {
    /// Centre in hertz.
    pub center_hz: F32,
    /// Resonance.
    pub q: F32,
}

impl BiquadBandpass {
    /// The default configuration.
    pub open spec fn preset() -> BiquadBandpass {
        BiquadBandpass { center_hz: F32::of(KILOHERTZ), q: F32::of(ONE) }
    }
}

impl Default for BiquadBandpass {
    fn default() -> (r: BiquadBandpass)
        ensures
            r == BiquadBandpass::preset(),
    {
        BiquadBandpass { center_hz: F32::of(KILOHERTZ), q: F32::of(ONE) }
    }
}

impl Node for BiquadBandpass {
    open spec fn step(&self, c: ContextView, f: spec_fn(Elementary, F32) -> F32) -> Step {
        filter_step(
            BiquadKind::Bandpass,
            self.center_hz.plus(c.input("center_hz"@)),
            self.q.plus(c.input("q"@)),
            c,
            f,
        )
    }

    open spec fn fits(&self, sample_rate: u32) -> bool {
        true
    }

    open spec fn initial(&self) -> StateView {
        StateView::Biquad(BiquadState::rest())
    }

    fn sample<M: Fn(Elementary, F32) -> F32>(&self, ctx: &mut BakeContext, math: &M) -> (r: F32) {
        let cutoff: F32 = self.center_hz.plus(ctx.input("center_hz"));
        let q: F32 = self.q.plus(ctx.input("q"));
        filter_sample(BiquadKind::Bandpass, cutoff, q, ctx, math)
    }

    fn init_state(&self) -> (r: NodeState) {
        NodeState::Biquad(BiquadState::default())
    }
}

/// Bits of `5.0`.
pub const FIVE: u32 = 0x40a0_0000;

/// Half of a number of at least one is a number.
proof fn lemma_half(x: F32) -> (h: F32)
    requires
        x.is_finite(),
        numbers::value(x) >= numbers::scale(),
    ensures
        h.is_finite(),
        2 * numbers::value(h) == numbers::value(x),
{
    let w: Width = Width::Single;
    let code: int = x.parts().code as int;
    reveal(F32::spec_is_finite);
    rounding::lemma_step(w);
    numbers::lemma_one();
    numbers::lemma_zero_one();
    rounding::lemma_units_parts(w, code);
    rounding::lemma_encode_exact(w, code);
    assert(code >= 2 * w.step()) by {
        if code < 2 * w.step() {
            rounding::lemma_units_order(w, code, 0x3f80_0000);
        }
    }
    let exp: nat = (code / w.step() - 1) as nat;
    lemma_pow2_unfold(exp);
    let sig: int = w.step() + code % w.step();
    let less: int = numbers::lemma_representable(w, sig, (exp - 1) as nat);
    assert(2 * (sig * pow2((exp - 1) as nat)) == sig * pow2(exp)) by (nonlinear_arith)
        requires
            pow2(exp) == 2 * pow2((exp - 1) as nat),
    ;
    F32::of(less as u32)
}

/// Whatever is wired into a filter, its corner lies between one hertz and
/// half the sample rate, and its resonance is finite and not too small.
pub proof fn law_corner_and_resonance_stay_in_range(cutoff_hz: F32, q: F32, rate: F32)
    requires
        !cutoff_hz.is_nan(),
        rate.is_finite(),
        F32::of(FIVE).le(rate),
    ensures
        F32::of(MIN_CUTOFF_HZ).le(clamp_cutoff(cutoff_hz, rate)),
        clamp_cutoff(cutoff_hz, rate).is_finite(),
        2 * numbers::value(clamp_cutoff(cutoff_hz, rate)) <= numbers::value(rate),
        clamp_q(q).is_finite(),
        F32::of(MIN_Q).le(clamp_q(q)),
{
    let low: F32 = F32::of(MIN_CUTOFF_HZ);
    let two: F32 = F32::of(TWO);
    let fraction: F32 = F32::of(NYQUIST_FRACTION);
    let u: int = numbers::scale();
    numbers::lemma_zero_one();
    numbers::lemma_value_of(FIVE, 0xa0_0000, 128);
    numbers::lemma_value_of(TWO, 0x80_0000, 127);
    numbers::lemma_value_of(NYQUIST_FRACTION, 0xff_7cee, 124);
    lemma_pow2_adds(25, 124);
    lemma_pow2_adds(3, 124);
    lemma_pow2_adds(4, 124);
    lemma_pow2_pos(124);
    lemma2_to64();
    let h: int = pow2(124) as int;
    numbers::lemma_value_order(F32::of(FIVE), rate);
    let half: F32 = lemma_half(rate);
    let v: int = numbers::value(rate);
    let k: int = numbers::value(fraction);
    let t: int = numbers::value(two);
    let m: int = numbers::value(half);
    assert(t * u <= v * k <= m * u) by (nonlinear_arith)
        requires
            u == 0x200_0000 * h,
            k == 0xff_7cee * h,
            t == 2 * u,
            v >= 5 * u,
            v == 2 * m,
            h > 0,
    ;
    numbers::lemma_times_between(rate, fraction, two, half);
    let top: F32 = rate.times(fraction);
    numbers::lemma_value_order(top, half);
    numbers::lemma_value_order(two, top);
    numbers::lemma_max_of_larger(top, two);
    let high: F32 = top.max(two);
    numbers::lemma_between_finite(top, high, top);
    numbers::lemma_value_order(high, top);
    numbers::lemma_value_order(top, high);
    numbers::lemma_value_order(low, high);
    envelope::lemma_clamp_within(cutoff_hz, low, high);
    let r: F32 = clamp_cutoff(cutoff_hz, rate);
    numbers::lemma_value_order(r, high);
    envelope::lemma_rank(MIN_Q, MIN_Q);
    numbers::lemma_value_order(F32::of(MIN_Q), F32::of(MIN_Q));
    if q.is_finite() {
        numbers::lemma_max_above(q, F32::of(MIN_Q));
        reveal(F32::spec_max);
    }
}

} // verus!
