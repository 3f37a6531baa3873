//! Chorus: a fractional delay line swept by its own sine oscillator.
//!
//! The signal on the `"in"` port is mixed with a copy read back from a short
//! delay whose length moves up and down.  The line is allocated on the first
//! sample, when the sample rate is known.
use crate::constants::{HALF, ONE, THOUSANDTH, TWO, TWO_PI};
use crate::elementary;
use crate::elementary::Elementary;
use crate::envelope;
use crate::float::F32;
use crate::node::{BakeContext, ContextView, Node, NodeState, StateView, Step};
use crate::numbers;
use crate::oscillator;
use vstd::prelude::*;

verus! {

/// Bits of the greatest feedback: `0.95`.
pub const MAX_FEEDBACK: u32 = 0x3f73_3333;

/// Bits of `0.8`.
pub const DEFAULT_RATE: u32 = 0x3f4c_cccd;

/// Bits of `8.0`.
pub const DEFAULT_DELAY: u32 = 0x4100_0000;

/// A chorus.
#[derive(Clone, Copy, Debug, PartialEq, Eq, Structural)]
pub struct Chorus {
    /// Sweeps per second.
    pub rate_hz: F32,
    /// Greatest deviation of the delay in milliseconds.
    pub depth_ms: F32,
    /// Centre of the delay in milliseconds.
    pub base_delay_ms: F32,
    /// Fraction of the delayed signal fed back; kept below one.
    pub feedback: F32,
    /// Blend: zero is the input, one the delayed signal.
    pub mix: F32,
}

impl Chorus {
    /// The default configuration.
    pub open spec fn preset() -> Chorus {
        Chorus {
            rate_hz: F32::of(DEFAULT_RATE),
            depth_ms: F32::of(TWO),
            base_delay_ms: F32::of(DEFAULT_DELAY),
            feedback: F32::of(0),
            mix: F32::of(HALF),
        }
    }
}

impl Default for Chorus {
    fn default() -> (r: Chorus)
        ensures
            r == Chorus::preset(),
    {
        Chorus {
            rate_hz: F32::of(DEFAULT_RATE),
            depth_ms: F32::of(TWO),
            base_delay_ms: F32::of(DEFAULT_DELAY),
            feedback: F32::of(0),
            mix: F32::of(HALF),
        }
    }
}

/// What a chorus keeps.
pub struct ChorusState {
    /// The delay line, a ring.
    pub buf: Vec<F32>,
    /// Where the next sample is written.
    pub write: usize,
    /// The phase of the sweep.
    pub phase: F32,
}

/// The contents of a [`ChorusState`].
pub struct ChorusView {
    /// The delay line, a ring.
    pub buf: Seq<F32>,
    /// Where the next sample is written.
    pub write: int,
    /// The phase of the sweep.
    pub phase: F32,
}

impl View for ChorusState {
    type V = ChorusView;

    open spec fn view(&self) -> ChorusView {
        ChorusView { buf: self.buf@, write: self.write as int, phase: self.phase }
    }
}

impl ChorusView {
    /// A chorus that has not started.
    pub open spec fn rest() -> ChorusView {
        ChorusView { buf: Seq::empty(), write: 0, phase: F32::of(0) }
    }

    /// The line is short enough for memory and the cursor lies inside it.
    pub open spec fn sound(self) -> bool {
        &&& self.buf.len() <= usize::MAX
        &&& self.buf.len() > 0 ==> 0 <= self.write < self.buf.len()
    }

    /// The line, allocated where it is shorter than `needed`.
    pub open spec fn sized(self, needed: int) -> ChorusView {
        if self.buf.len() < needed {
            ChorusView {
                buf: Seq::new(needed as nat, |i: int| F32::of(0)),
                write: 0,
                phase: self.phase,
            }
        } else {
            self
        }
    }
}

impl Default for ChorusState {
    fn default() -> (r: ChorusState)
        ensures
            r@ == ChorusView::rest(),
    {
        ChorusState { buf: Vec::new(), write: 0, phase: F32::of(0) }
    }
}

impl Chorus {
    /// The longest delay in samples, rounded up.
    pub open spec fn spec_longest(self, rate: F32) -> usize {
        self.base_delay_ms.plus(self.depth_ms).max(F32::of(0)).times(F32::of(THOUSANDTH)).times(
            rate,
        ).ceil().to_usize()
    }

    /// The longest delay in samples, rounded up.
    #[verifier::when_used_as_spec(spec_longest)]
    pub fn longest(self, rate: F32) -> (r: usize)
        ensures
            r == self.longest(rate),
    {
        self.base_delay_ms.plus(self.depth_ms).max(F32::of(0)).times(F32::of(THOUSANDTH)).times(
            rate,
        ).ceil().to_usize()
    }

    /// The length of the line: the longest delay, at least one, and four
    /// samples to spare.
    pub open spec fn line_length(self, rate: F32) -> int {
        if self.longest(rate) > 1 {
            self.longest(rate) + 4
        } else {
            5
        }
    }

    /// The length of the line: the longest delay, at least one, and four
    /// samples to spare.
    pub fn buffer_len(self, rate: F32) -> (r: usize)
        requires
            self.line_length(rate) <= usize::MAX,
        ensures
            r == self.line_length(rate),
    {
        let samples: usize = self.longest(rate);
        if samples > 1 {
            samples + 4
        } else {
            5
        }
    }

    /// How far behind the cursor the line is read, in samples, where the
    /// sweep stands at `lfo`.
    pub open spec fn spec_delay(self, lfo: F32, rate: F32, len: usize) -> F32 {
        self.base_delay_ms.plus(self.depth_ms.times(lfo)).max(F32::of(0)).times(
            F32::of(THOUSANDTH),
        ).times(rate).clamp(F32::of(0), F32::from_usize((len - 1) as usize))
    }

    /// How far behind the cursor the line is read, in samples, where the
    /// sweep stands at `lfo`.
    #[verifier::when_used_as_spec(spec_delay)]
    pub fn delay(self, lfo: F32, rate: F32, len: usize) -> (r: F32)
        requires
            len > 0,
        ensures
            r == self.delay(lfo, rate, len),
    {
        proof {
            numbers::lemma_from_u64_not_negative((len - 1) as u64);
        }
        self.base_delay_ms.plus(self.depth_ms.times(lfo)).max(F32::of(0)).times(
            F32::of(THOUSANDTH),
        ).times(rate).clamp(F32::of(0), F32::from_usize(len - 1))
    }

    /// Where the line is read.
    pub open spec fn spec_read_position(self, write: usize, delay: F32, len: usize) -> F32 {
        F32::from_usize(write).minus(delay).rem_euclid(F32::from_usize(len))
    }

    /// Where the line is read.
    #[verifier::when_used_as_spec(spec_read_position)]
    pub fn read_position(self, write: usize, delay: F32, len: usize) -> (r: F32)
        ensures
            r == self.read_position(write, delay, len),
    {
        F32::from_usize(write).minus(delay).rem_euclid(F32::from_usize(len))
    }

    /// The line between the two samples around a position.
    pub open spec fn tap(buf: Seq<F32>, position: F32) -> F32 {
        let low: int = position.floor().to_usize() as int % buf.len() as int;
        let high: int = (low + 1) % buf.len() as int;
        let frac: F32 = position.minus(position.floor());
        buf[low].times(F32::of(ONE).minus(frac)).plus(buf[high].times(frac))
    }

    /// The delayed signal of a line, where the sweep stands at `lfo`.
    pub open spec fn delayed(self, line: ChorusView, lfo: F32, rate: F32) -> F32 {
        let len: usize = line.buf.len() as usize;
        Chorus::tap(
            line.buf,
            self.read_position(line.write as usize, self.delay(lfo, rate, len), len),
        )
    }

    /// The line once the input and its echo are written.
    pub open spec fn written(self, line: ChorusView, x: F32, delayed: F32, rate: F32) -> ChorusView {
        ChorusView {
            buf: line.buf.update(
                line.write,
                x.plus(delayed.times(self.feedback.clamp(F32::of(0), F32::of(MAX_FEEDBACK)))),
            ),
            write: (line.write + 1) % (line.buf.len() as int),
            phase: oscillator::advance(line.phase, self.rate_hz.max(F32::of(0)), rate),
        }
    }

    /// The blend of the input and the delayed signal.
    pub open spec fn spec_blend(self, x: F32, delayed: F32) -> F32 {
        let mix: F32 = self.mix.clamp(F32::of(0), F32::of(ONE));
        x.times(F32::of(ONE).minus(mix)).plus(delayed.times(mix))
    }

    /// The blend of the input and the delayed signal.
    #[verifier::when_used_as_spec(spec_blend)]
    pub fn blend(self, x: F32, delayed: F32) -> (r: F32)
        ensures
            r == self.blend(x, delayed),
    {
        proof {
            reveal(F32::spec_le);
            reveal(F32::spec_lt);
        }
        let mix: F32 = self.mix.clamp(F32::of(0), F32::of(ONE));
        x.times(F32::of(ONE).minus(mix)).plus(delayed.times(mix))
    }

    /// Takes one sample through a line, the sweep standing at `lfo`.
    fn pass(&self, st: &mut ChorusState, x: F32, lfo: F32, rate: F32) -> (delayed: F32)
        requires
            old(st).buf.len() > 0,
            old(st)@.sound(),
        ensures
            delayed == self.delayed(old(st)@, lfo, rate),
            final(st)@ == self.written(old(st)@, x, delayed, rate),
            final(st)@.sound(),
    {
        let len: usize = st.buf.len();
        let position: F32 = self.read_position(st.write, self.delay(lfo, rate, len), len);
        let low: usize = position.floor().to_usize() % len;
        let high: usize = if low + 1 < len {
            low + 1
        } else {
            0
        };
        assert(high == (low + 1) % (len as int)) by {
            if low + 1 < len {
                vstd::arithmetic::div_mod::lemma_small_mod((low + 1) as nat, len as nat);
            } else {
                vstd::arithmetic::div_mod::lemma_mod_self_0(len as int);
            }
        }
        let frac: F32 = position.minus(position.floor());
        let delayed: F32 = st.buf[low].times(F32::of(ONE).minus(frac)).plus(
            st.buf[high].times(frac),
        );
        proof {
            reveal(F32::spec_le);
            reveal(F32::spec_lt);
        }
        let fb: F32 = self.feedback.clamp(F32::of(0), F32::of(MAX_FEEDBACK));
        let write: usize = st.write;
        st.buf.set(write, x.plus(delayed.times(fb)));
        st.write = if write + 1 < len {
            write + 1
        } else {
            0
        };
        assert(st.write == (write + 1) % (len as int)) by {
            if write + 1 < len {
                vstd::arithmetic::div_mod::lemma_small_mod((write + 1) as nat, len as nat);
            } else {
                vstd::arithmetic::div_mod::lemma_mod_self_0(len as int);
            }
        }
        st.phase = oscillator::advance(st.phase, self.rate_hz.max(F32::of(0)), rate);
        delayed
    }
}

impl Node for Chorus {
    open spec fn step(&self, c: ContextView, f: spec_fn(Elementary, F32) -> F32) -> Step {
        let x: F32 = c.input("in"@);
        match c.state {
            StateView::Chorus(s) => {
                let line: ChorusView = s.sized(self.line_length(c.rate()));
                let lfo: F32 = f(Elementary::Sin, F32::of(TWO_PI).times(line.phase));
                let delayed: F32 = self.delayed(line, lfo, c.rate());
                Step {
                    out: self.blend(x, delayed),
                    after: c.keep(StateView::Chorus(self.written(line, x, delayed, c.rate()))),
                }
            },
            _ => Step { out: x, after: c },
        }
    }

    open spec fn fits(&self, sample_rate: u32) -> bool {
        4 * self.line_length(F32::from_u64(sample_rate as u64)) <= isize::MAX
    }

    open spec fn initial(&self) -> StateView {
        StateView::Chorus(ChorusView::rest())
    }

    fn sample<M: Fn(Elementary, F32) -> F32>(&self, ctx: &mut BakeContext, math: &M) -> (r: F32) {
        let x: F32 = ctx.input("in");
        let rate: F32 = ctx.rate();
        let mut taken: NodeState = NodeState::Stateless;
        core::mem::swap(&mut taken, &mut ctx.state);
        match taken {
            NodeState::Chorus(s) => {
                let mut st: ChorusState = s;
                let needed: usize = self.buffer_len(rate);
                if st.buf.len() < needed {
                    st.buf = vec![F32::of(0); needed];
                    st.write = 0;
                }
                assert(st@.buf =~= s@.sized(needed as int).buf);
                let lfo: F32 = elementary::ask(
                    math,
                    Elementary::Sin,
                    F32::of(TWO_PI).times(st.phase),
                );
                let delayed: F32 = self.pass(&mut st, x, lfo, rate);
                ctx.state = NodeState::Chorus(st);
                self.blend(x, delayed)
            },
            other => {
                ctx.state = other;
                x
            },
        }
    }

    fn init_state(&self) -> (r: NodeState) {
        NodeState::Chorus(ChorusState::default())
    }
}

/// With nothing of the delayed signal mixed in, the input passes through unchanged;
/// with nothing of the input, the delayed signal does.
pub proof fn law_mix_ends_pass_through(e: Chorus, x: F32, wet: F32)
    requires
        x.is_finite(),
        wet.is_finite(),
        !e.mix.is_nan(),
    ensures
        e.mix.le(F32::of(0)) ==> e.blend(x, wet).same(x),
        e.mix.le(F32::of(0)) && numbers::value(x) != 0 ==> e.blend(x, wet) == x,
        F32::of(ONE).le(e.mix) ==> e.blend(x, wet).same(wet),
        F32::of(ONE).le(e.mix) && numbers::value(wet) != 0 ==> e.blend(x, wet) == wet,
{
    numbers::lemma_clamp_unit(e.mix);
    numbers::lemma_blend_ends(x, wet, e.mix.clamp(F32::of(0), F32::of(ONE)));
}

/// The feedback stays below one, so that the line cannot run away.
pub proof fn law_feedback_is_contractive(e: Chorus)
    requires
        !e.feedback.is_nan(),
    ensures
        envelope::within(
            e.feedback.clamp(F32::of(0), F32::of(MAX_FEEDBACK)),
            F32::of(0),
            F32::of(MAX_FEEDBACK),
        ),
        F32::of(MAX_FEEDBACK).lt(F32::of(ONE)),
{
    envelope::lemma_rank(0, MAX_FEEDBACK);
    envelope::lemma_clamp_within(e.feedback, F32::of(0), F32::of(MAX_FEEDBACK));
    reveal(F32::spec_lt);
}

/// The phase of the sweep is zero before the first sample and stays at least
/// zero and less than one.
pub proof fn law_sweep_stays_a_phase(
    e: Chorus,
    c: ContextView,
    f: spec_fn(Elementary, F32) -> F32,
)
    requires
        e.rate_hz.is_finite(),
        c.sample_rate >= 1,
        c.state matches StateView::Chorus(s) && oscillator::is_phase(s.phase),
    ensures
        e.step(c, f).after.state matches StateView::Chorus(s) && oscillator::is_phase(s.phase),
        e.initial() matches StateView::Chorus(s) && oscillator::is_phase(s.phase),
{
    numbers::lemma_zero_one();
    numbers::lemma_value_order(F32::of(0), F32::of(0));
    numbers::lemma_value_order(F32::of(0), F32::of(ONE));
    oscillator::lemma_sweep(c.state->Chorus_0.phase, e.rate_hz, c.sample_rate);
}

} // verus!
