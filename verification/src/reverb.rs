//! Reverb: a bank of damped combs smeared by a chain of allpasses.
//!
//! The combs run side by side and build the decaying tail; their sum goes
//! through the allpasses one after the other, which blur it.  The lengths of
//! the lines are given for 44.1 kHz and scaled to the sample rate when the
//! first sample is made.
use crate::constants::{HALF, ONE};
use crate::elementary::Elementary;
use crate::envelope;
use crate::float::F32;
use crate::node::{BakeContext, ContextView, Node, NodeState, StateView, Step};
use crate::numbers;
use vstd::arithmetic::power2::*;
use vstd::prelude::*;

verus! {

/// Bits of the sample rate for which the lengths are given: `44100.0`.
pub const TUNING_SAMPLE_RATE: u32 = 0x472c_4400;

/// Bits of the feedback of an allpass: `0.5`.
pub const ALLPASS_FEEDBACK: u32 = 0x3f00_0000;

/// Bits of the gain of the input: `0.015`.
pub const FIXED_GAIN: u32 = 0x3c75_c28f;

/// Bits of `0.28`, by which the room size scales the feedback.
pub const ROOM_SCALE: u32 = 0x3e8f_5c29;

/// Bits of `0.7`, the feedback of the smallest room.
pub const ROOM_OFFSET: u32 = 0x3f33_3333;

/// Bits of `0.4`, by which the damping is scaled.
pub const DAMP_SCALE: u32 = 0x3ecc_cccd;

/// Bits of `0.3`.
pub const DEFAULT_MIX: u32 = 0x3e99_999a;

/// Lengths of the combs at 44.1 kHz.
pub open spec fn comb_tunings() -> Seq<usize> {
    seq![1116, 1188, 1277, 1356, 1422, 1491, 1557, 1617]
}

/// Lengths of the allpasses at 44.1 kHz.
pub open spec fn allpass_tunings() -> Seq<usize> {
    seq![556, 441, 341, 225]
}

/// A length scaled to a sample rate, at least one.
pub open spec fn spec_scaled_len(tuning: usize, rate: F32) -> usize {
    let n: usize = F32::from_usize(tuning).times(rate).over(
        F32::of(TUNING_SAMPLE_RATE),
    ).round().to_usize();
    if n > 1 {
        n
    } else {
        1
    }
}

/// A length scaled to a sample rate, at least one.
#[verifier::when_used_as_spec(spec_scaled_len)]
pub fn scaled_len(tuning: usize, rate: F32) -> (r: usize)
    ensures
        r == scaled_len(tuning, rate),
{
    let n: usize = F32::from_usize(tuning).times(rate).over(
        F32::of(TUNING_SAMPLE_RATE),
    ).round().to_usize();
    if n > 1 {
        n
    } else {
        1
    }
}

/// The place after `idx` on a ring.
fn after(idx: usize, len: usize) -> (r: usize)
    requires
        idx < len,
    ensures
        r == (idx + 1) % (len as int),
        r < len,
{
    if idx + 1 < len {
        proof {
            vstd::arithmetic::div_mod::lemma_small_mod((idx + 1) as nat, len as nat);
        }
        idx + 1
    } else {
        proof {
            vstd::arithmetic::div_mod::lemma_mod_self_0(len as int);
        }
        0
    }
}

/// A feedback comb with a lowpass in its loop.
pub struct Comb {
    /// The line, a ring.
    pub buf: Vec<F32>,
    /// Where the line is read and written next.
    pub idx: usize,
    /// The lowpass in the loop.
    pub filter_store: F32,
}

/// The contents of a [`Comb`].
pub struct CombView {
    /// The line, a ring.
    pub buf: Seq<F32>,
    /// Where the line is read and written next.
    pub idx: int,
    /// The lowpass in the loop.
    pub filter_store: F32,
}

impl View for Comb {
    type V = CombView;

    open spec fn view(&self) -> CombView {
        CombView { buf: self.buf@, idx: self.idx as int, filter_store: self.filter_store }
    }
}

impl CombView {
    /// An empty line of a length.
    pub open spec fn silent(len: int) -> CombView {
        CombView {
            buf: Seq::new(len as nat, |i: int| F32::of(0)),
            idx: 0,
            filter_store: F32::of(0),
        }
    }

    /// The cursor lies inside the line.
    pub open spec fn sound(self) -> bool {
        0 <= self.idx < self.buf.len()
    }

    /// The sample that comes out.
    pub open spec fn out(self) -> F32 {
        self.buf[self.idx]
    }

    /// The comb after a sample.
    pub open spec fn fed(self, input: F32, feedback: F32, damp: F32) -> CombView {
        let store: F32 = self.out().times(F32::of(ONE).minus(damp)).plus(
            self.filter_store.times(damp),
        );
        CombView {
            buf: self.buf.update(self.idx, input.plus(store.times(feedback))),
            idx: (self.idx + 1) % (self.buf.len() as int),
            filter_store: store,
        }
    }
}

impl Comb {
    /// An empty line of a length, at least one.
    pub fn with_len(len: usize) -> (r: Comb)
        ensures
            r@ == CombView::silent(
                if len > 1 {
                    len as int
                } else {
                    1
                },
            ),
    {
        let n: usize = if len > 1 {
            len
        } else {
            1
        };
        let r: Comb = Comb { buf: vec![F32::of(0); n], idx: 0, filter_store: F32::of(0) };
        assert(r.buf@ =~= CombView::silent(n as int).buf);
        r
    }

    /// Takes one sample through the comb.
    pub fn process(&mut self, input: F32, feedback: F32, damp: F32) -> (r: F32)
        requires
            old(self)@.sound(),
        ensures
            r == old(self)@.out(),
            final(self)@ == old(self)@.fed(input, feedback, damp),
            final(self)@.sound(),
    {
        let idx: usize = self.idx;
        let output: F32 = self.buf[idx];
        self.filter_store = output.times(F32::of(ONE).minus(damp)).plus(
            self.filter_store.times(damp),
        );
        self.buf.set(idx, input.plus(self.filter_store.times(feedback)));
        self.idx = after(idx, self.buf.len());
        output
    }
}

/// A diffuser.
pub struct Allpass {
    /// The line, a ring.
    pub buf: Vec<F32>,
    /// Where the line is read and written next.
    pub idx: usize,
}

/// The contents of an [`Allpass`].
pub struct AllpassView {
    /// The line, a ring.
    pub buf: Seq<F32>,
    /// Where the line is read and written next.
    pub idx: int,
}

impl View for Allpass {
    type V = AllpassView;

    open spec fn view(&self) -> AllpassView {
        AllpassView { buf: self.buf@, idx: self.idx as int }
    }
}

impl AllpassView {
    /// An empty line of a length.
    pub open spec fn silent(len: int) -> AllpassView {
        AllpassView { buf: Seq::new(len as nat, |i: int| F32::of(0)), idx: 0 }
    }

    /// The cursor lies inside the line.
    pub open spec fn sound(self) -> bool {
        0 <= self.idx < self.buf.len()
    }

    /// The sample that comes out.
    pub open spec fn out(self, input: F32) -> F32 {
        input.negated().plus(self.buf[self.idx])
    }

    /// The diffuser after a sample.
    pub open spec fn fed(self, input: F32) -> AllpassView {
        AllpassView {
            buf: self.buf.update(
                self.idx,
                input.plus(self.buf[self.idx].times(F32::of(ALLPASS_FEEDBACK))),
            ),
            idx: (self.idx + 1) % (self.buf.len() as int),
        }
    }
}

impl Allpass {
    /// An empty line of a length, at least one.
    pub fn with_len(len: usize) -> (r: Allpass)
        ensures
            r@ == AllpassView::silent(
                if len > 1 {
                    len as int
                } else {
                    1
                },
            ),
    {
        let n: usize = if len > 1 {
            len
        } else {
            1
        };
        let r: Allpass = Allpass { buf: vec![F32::of(0); n], idx: 0 };
        assert(r.buf@ =~= AllpassView::silent(n as int).buf);
        r
    }

    /// Takes one sample through the diffuser.
    pub fn process(&mut self, input: F32) -> (r: F32)
        requires
            old(self)@.sound(),
        ensures
            r == old(self)@.out(input),
            final(self)@ == old(self)@.fed(input),
            final(self)@.sound(),
    {
        let idx: usize = self.idx;
        let buffered: F32 = self.buf[idx];
        let output: F32 = input.negated().plus(buffered);
        self.buf.set(idx, input.plus(buffered.times(F32::of(ALLPASS_FEEDBACK))));
        self.idx = after(idx, self.buf.len());
        output
    }
}

/// A reverb.
#[derive(Clone, Copy, Debug, PartialEq, Eq, Structural)]
pub struct Reverb {
    /// Room size from zero to one: how long the tail rings.
    pub room_size: F32,
    /// Damping from zero to one: how fast the highs fade.
    pub damping: F32,
    /// Blend: zero is the input, one the tail.
    pub mix: F32,
}

impl Reverb {
    /// The default configuration.
    pub open spec fn preset() -> Reverb {
        Reverb {
            room_size: F32::of(HALF),
            damping: F32::of(HALF),
            mix: F32::of(DEFAULT_MIX),
        }
    }
}

impl Default for Reverb {
    fn default() -> (r: Reverb)
        ensures
            r == Reverb::preset(),
    {
        Reverb { room_size: F32::of(HALF), damping: F32::of(HALF), mix: F32::of(DEFAULT_MIX) }
    }
}

/// What a reverb keeps.
pub struct ReverbState {
    /// The bank, empty before the first sample.
    pub combs: Vec<Comb>,
    /// The chain.
    pub allpasses: Vec<Allpass>,
}

/// The contents of a [`ReverbState`].
pub struct ReverbView {
    /// The bank, empty before the first sample.
    pub combs: Seq<CombView>,
    /// The chain.
    pub allpasses: Seq<AllpassView>,
}

impl View for ReverbState {
    type V = ReverbView;

    open spec fn view(&self) -> ReverbView {
        ReverbView {
            combs: self.combs@.map_values(|c: Comb| c@),
            allpasses: self.allpasses@.map_values(|a: Allpass| a@),
        }
    }
}

impl ReverbView {
    /// A reverb that has not started.
    pub open spec fn rest() -> ReverbView {
        ReverbView { combs: Seq::empty(), allpasses: Seq::empty() }
    }

    /// Every cursor lies inside its line.
    pub open spec fn sound(self) -> bool {
        &&& forall|i: int| 0 <= i < self.combs.len() ==> (#[trigger] self.combs[i]).sound()
        &&& forall|i: int| 0 <= i < self.allpasses.len() ==> (#[trigger] self.allpasses[i]).sound()
    }

    /// The lines, built where there are none.
    pub open spec fn built(self, rate: F32) -> ReverbView {
        if self.combs.len() == 0 {
            ReverbView {
                combs: comb_tunings().map_values(
                    |t: usize| CombView::silent(scaled_len(t, rate) as int),
                ),
                allpasses: allpass_tunings().map_values(
                    |t: usize| AllpassView::silent(scaled_len(t, rate) as int),
                ),
            }
        } else {
            self
        }
    }

    /// The combs after a sample.
    pub open spec fn combed(self, input: F32, feedback: F32, damp: F32) -> Seq<CombView> {
        self.combs.map_values(|c: CombView| c.fed(input, feedback, damp))
    }
}

/// The sum of what the combs yield, from zero up in their order.
pub open spec fn comb_total(combs: Seq<CombView>) -> F32
    decreases combs.len(),
{
    if combs.len() == 0 {
        F32::of(0)
    } else {
        comb_total(combs.drop_last()).plus(combs.last().out())
    }
}

/// A sample taken through the chain of allpasses.
pub open spec fn diffused(chain: Seq<AllpassView>, x: F32) -> F32
    decreases chain.len(),
{
    if chain.len() == 0 {
        x
    } else {
        chain.last().out(diffused(chain.drop_last(), x))
    }
}

/// The chain after a sample: each allpass is fed what the ones before it
/// make of the sample.
pub open spec fn chain_fed(chain: Seq<AllpassView>, x: F32) -> Seq<AllpassView> {
    Seq::new(chain.len(), |i: int| chain[i].fed(diffused(chain.take(i), x)))
}

impl Default for ReverbState {
    fn default() -> (r: ReverbState)
        ensures
            r@ == ReverbView::rest(),
    {
        let r: ReverbState = ReverbState { combs: Vec::new(), allpasses: Vec::new() };
        assert(r@.combs =~= Seq::empty());
        assert(r@.allpasses =~= Seq::empty());
        r
    }
}

impl ReverbState {
    /// Builds the lines where there are none.
    fn build(&mut self, rate: F32)
        requires
            old(self)@.sound(),
        ensures
            final(self)@ == old(self)@.built(rate),
            final(self)@.sound(),
    {
        if self.combs.len() == 0 {
            let combs: Vec<usize> = vec![1116, 1188, 1277, 1356, 1422, 1491, 1557, 1617];
            let allpasses: Vec<usize> = vec![556, 441, 341, 225];
            self.combs = Vec::new();
            self.allpasses = Vec::new();
            let mut i: usize = 0;
            while i < combs.len()
                invariant
                    i <= combs.len(),
                    self.combs.len() == i,
                    self.allpasses.len() == 0,
                    forall|j: int|
                        0 <= j < i ==> (#[trigger] self.combs[j])@ == CombView::silent(
                            scaled_len(combs[j], rate) as int,
                        ),
                decreases combs.len() - i,
            {
                self.combs.push(Comb::with_len(scaled_len(combs[i], rate)));
                i = i + 1;
            }
            let mut k: usize = 0;
            while k < allpasses.len()
                invariant
                    k <= allpasses.len(),
                    i == combs.len(),
                    self.combs.len() == i,
                    self.allpasses.len() == k,
                    forall|j: int|
                        0 <= j < i ==> (#[trigger] self.combs[j])@ == CombView::silent(
                            scaled_len(combs[j], rate) as int,
                        ),
                    forall|j: int|
                        0 <= j < k ==> (#[trigger] self.allpasses[j])@ == AllpassView::silent(
                            scaled_len(allpasses[j], rate) as int,
                        ),
                decreases allpasses.len() - k,
            {
                self.allpasses.push(Allpass::with_len(scaled_len(allpasses[k], rate)));
                k = k + 1;
            }
            assert(combs@ =~= comb_tunings());
            assert(allpasses@ =~= allpass_tunings());
            assert(self@.combs =~= old(self)@.built(rate).combs);
            assert(self@.allpasses =~= old(self)@.built(rate).allpasses);
            assert forall|j: int| 0 <= j < self@.combs.len() implies (
            #[trigger] self@.combs[j]).sound() by {
                assert(self@.combs[j] == self.combs[j]@);
            }
            assert forall|j: int| 0 <= j < self@.allpasses.len() implies (
            #[trigger] self@.allpasses[j]).sound() by {
                assert(self@.allpasses[j] == self.allpasses[j]@);
            }
        }
    }

    /// Takes one sample through all the combs.
    fn comb(&mut self, input: F32, feedback: F32, damp: F32) -> (total: F32)
        requires
            old(self)@.sound(),
        ensures
            total == comb_total(old(self)@.combs),
            final(self)@ == (ReverbView {
                combs: old(self)@.combed(input, feedback, damp),
                allpasses: old(self)@.allpasses,
            }),
            final(self)@.sound(),
    {
        let ghost before: Seq<CombView> = self@.combs;
        let ghost chain: Seq<AllpassView> = self@.allpasses;
        let mut total: F32 = F32::of(0);
        let mut i: usize = 0;
        while i < self.combs.len()
            invariant
                i <= self.combs.len(),
                self.combs.len() == before.len(),
                self@.allpasses == chain,
                forall|j: int| 0 <= j < before.len() ==> (#[trigger] before[j]).sound(),
                forall|j: int|
                    0 <= j < i ==> (#[trigger] self.combs[j])@ == before[j].fed(
                        input,
                        feedback,
                        damp,
                    ) && self.combs[j]@.sound(),
                forall|j: int| i <= j < before.len() ==> (#[trigger] self.combs[j])@ == before[j],
                total == comb_total(before.take(i as int)),
            decreases self.combs.len() - i,
        {
            assert(self.combs[i as int]@ == before[i as int]);
            assert(before[i as int].sound());
            let out: F32 = self.combs[i].process(input, feedback, damp);
            assert(before.take(i + 1).drop_last() =~= before.take(i as int));
            assert(before.take(i + 1).last() == before[i as int]);
            total = total.plus(out);
            i = i + 1;
        }
        assert(before.take(i as int) =~= before);
        assert(self@.combs =~= old(self)@.combed(input, feedback, damp));
        assert forall|j: int| 0 <= j < self@.combs.len() implies (
        #[trigger] self@.combs[j]).sound() by {
            assert(self@.combs[j] == self.combs[j]@);
        }
        total
    }

    /// Takes one sample through the chain of allpasses.
    fn diffuse(&mut self, input: F32) -> (r: F32)
        requires
            old(self)@.sound(),
        ensures
            r == diffused(old(self)@.allpasses, input),
            final(self)@ == (ReverbView {
                combs: old(self)@.combs,
                allpasses: chain_fed(old(self)@.allpasses, input),
            }),
            final(self)@.sound(),
    {
        let ghost before: Seq<AllpassView> = self@.allpasses;
        let ghost bank: Seq<CombView> = self@.combs;
        let mut x: F32 = input;
        let mut i: usize = 0;
        while i < self.allpasses.len()
            invariant
                i <= self.allpasses.len(),
                self.allpasses.len() == before.len(),
                self@.combs == bank,
                forall|j: int| 0 <= j < before.len() ==> (#[trigger] before[j]).sound(),
                forall|j: int|
                    0 <= j < i ==> (#[trigger] self.allpasses[j])@ == before[j].fed(
                        diffused(before.take(j), input),
                    ) && self.allpasses[j]@.sound(),
                forall|j: int|
                    i <= j < before.len() ==> (#[trigger] self.allpasses[j])@ == before[j],
                x == diffused(before.take(i as int), input),
            decreases self.allpasses.len() - i,
        {
            assert(self.allpasses[i as int]@ == before[i as int]);
            assert(before[i as int].sound());
            assert(before.take(i + 1).drop_last() =~= before.take(i as int));
            assert(before.take(i + 1).last() == before[i as int]);
            x = self.allpasses[i].process(x);
            i = i + 1;
        }
        assert(before.take(i as int) =~= before);
        assert(self@.allpasses =~= chain_fed(before, input));
        assert forall|j: int| 0 <= j < self@.allpasses.len() implies (
        #[trigger] self@.allpasses[j]).sound() by {
            assert(self@.allpasses[j] == self.allpasses[j]@);
        }
        x
    }
}

impl Reverb {
    /// The feedback of the combs.
    pub open spec fn spec_feedback(self) -> F32 {
        self.room_size.clamp(F32::of(0), F32::of(ONE)).times(F32::of(ROOM_SCALE)).plus(
            F32::of(ROOM_OFFSET),
        )
    }

    /// The feedback of the combs.
    #[verifier::when_used_as_spec(spec_feedback)]
    pub fn feedback(self) -> (r: F32)
        ensures
            r == self.feedback(),
    {
        proof {
            reveal(F32::spec_le);
            reveal(F32::spec_lt);
        }
        self.room_size.clamp(F32::of(0), F32::of(ONE)).times(F32::of(ROOM_SCALE)).plus(
            F32::of(ROOM_OFFSET),
        )
    }

    /// The damping of the combs.
    pub open spec fn spec_damp(self) -> F32 {
        self.damping.clamp(F32::of(0), F32::of(ONE)).times(F32::of(DAMP_SCALE))
    }

    /// The damping of the combs.
    #[verifier::when_used_as_spec(spec_damp)]
    pub fn damp(self) -> (r: F32)
        ensures
            r == self.damp(),
    {
        proof {
            reveal(F32::spec_le);
            reveal(F32::spec_lt);
        }
        self.damping.clamp(F32::of(0), F32::of(ONE)).times(F32::of(DAMP_SCALE))
    }

    /// The blend of the input and the tail.
    pub open spec fn spec_blend(self, x: F32, wet: F32) -> F32 {
        let mix: F32 = self.mix.clamp(F32::of(0), F32::of(ONE));
        x.times(F32::of(ONE).minus(mix)).plus(wet.times(mix))
    }

    /// The blend of the input and the tail.
    #[verifier::when_used_as_spec(spec_blend)]
    pub fn blend(self, x: F32, wet: F32) -> (r: F32)
        ensures
            r == self.blend(x, wet),
    {
        proof {
            reveal(F32::spec_le);
            reveal(F32::spec_lt);
        }
        let mix: F32 = self.mix.clamp(F32::of(0), F32::of(ONE));
        x.times(F32::of(ONE).minus(mix)).plus(wet.times(mix))
    }
}

impl Node for Reverb {
    open spec fn step(&self, c: ContextView, f: spec_fn(Elementary, F32) -> F32) -> Step {
        let x: F32 = c.input("in"@);
        match c.state {
            StateView::Reverb(s) => {
                let lines: ReverbView = s.built(c.rate());
                let input: F32 = x.times(F32::of(FIXED_GAIN));
                let tail: F32 = comb_total(lines.combs);
                Step {
                    out: self.blend(x, diffused(lines.allpasses, tail)),
                    after: c.keep(
                        StateView::Reverb(
                            ReverbView {
                                combs: lines.combed(input, self.feedback(), self.damp()),
                                allpasses: chain_fed(lines.allpasses, tail),
                            },
                        ),
                    ),
                }
            },
            _ => Step { out: x, after: c },
        }
    }

    open spec fn fits(&self, sample_rate: u32) -> bool {
        true
    }

    open spec fn initial(&self) -> StateView {
        StateView::Reverb(ReverbView::rest())
    }

    fn sample<M: Fn(Elementary, F32) -> F32>(&self, ctx: &mut BakeContext, math: &M) -> (r: F32) {
        let x: F32 = ctx.input("in");
        let rate: F32 = ctx.rate();
        let mut taken: NodeState = NodeState::Stateless;
        core::mem::swap(&mut taken, &mut ctx.state);
        match taken {
            NodeState::Reverb(s) => {
                let mut st: ReverbState = s;
                st.build(rate);
                let input: F32 = x.times(F32::of(FIXED_GAIN));
                let tail: F32 = st.comb(input, self.feedback(), self.damp());
                let wet: F32 = st.diffuse(tail);
                ctx.state = NodeState::Reverb(st);
                self.blend(x, wet)
            },
            other => {
                ctx.state = other;
                x
            },
        }
    }

    fn init_state(&self) -> (r: NodeState) {
        NodeState::Reverb(ReverbState::default())
    }
}

/// With nothing of the tail mixed in, the input passes through unchanged;
/// with nothing of the input, the tail does.
pub proof fn law_mix_ends_pass_through(e: Reverb, x: F32, wet: F32)
    requires
        x.is_finite(),
        wet.is_finite(),
        !e.mix.is_nan(),
    ensures
        e.mix.le(F32::of(0)) ==> e.blend(x, wet).same(x),
        e.mix.le(F32::of(0)) && numbers::value(x) != 0 ==> e.blend(x, wet) == x,
        F32::of(ONE).le(e.mix) ==> e.blend(x, wet).same(wet),
        F32::of(ONE).le(e.mix) && numbers::value(wet) != 0 ==> e.blend(x, wet) == wet,
{
    numbers::lemma_clamp_unit(e.mix);
    numbers::lemma_blend_ends(x, wet, e.mix.clamp(F32::of(0), F32::of(ONE)));
}

/// Bits of `0.98`, the feedback of the largest room.
pub const MAX_ROOM: u32 = 0x3f7a_e148;

/// The feedback of every room lies between that of the smallest and that of
/// the largest, and so below one.
pub proof fn law_room_feedback_is_bounded(e: Reverb)
    requires
        !e.room_size.is_nan(),
    ensures
        envelope::within(e.feedback(), F32::of(ROOM_OFFSET), F32::of(MAX_ROOM)),
        F32::of(MAX_ROOM).lt(F32::of(ONE)),
{
    let size: F32 = e.room_size.clamp(F32::of(0), F32::of(ONE));
    let room: F32 = F32::of(ROOM_SCALE);
    let low: F32 = F32::of(ROOM_OFFSET);
    let high: F32 = F32::of(MAX_ROOM);
    numbers::lemma_clamp_unit(e.room_size);
    numbers::lemma_zero_one();
    numbers::lemma_value_of(ROOM_SCALE, 0x8f_5c29, 124);
    numbers::lemma_value_of(ROOM_OFFSET, 0xb3_3333, 125);
    numbers::lemma_value_of(MAX_ROOM, 0xfa_e148, 125);
    lemma_pow2_unfold(125);
    lemma_pow2_pos(124);
    let r: int = numbers::value(room);
    let s: int = numbers::value(size);
    let u: int = numbers::scale();
    assert(0 <= s * r <= r * u && 0 * u == 0) by (nonlinear_arith)
        requires
            0 <= s <= u,
            r > 0,
    ;
    numbers::lemma_times_between(size, room, F32::of(0), room);
    let scaled: F32 = size.times(room);
    numbers::lemma_value_order(F32::of(0), scaled);
    numbers::lemma_value_order(scaled, room);
    numbers::lemma_plus_between(scaled, low, low, high);
    reveal(F32::spec_lt);
}

} // verus!
