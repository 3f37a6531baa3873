//! What every node sees while it is evaluated, and the closed set of kinds.
use crate::adsr::{AdsrEnvelope, AdsrState};
use crate::chorus::{Chorus, ChorusState, ChorusView};
use crate::elementary;
use crate::elementary::Elementary;
use crate::filter::{BiquadBandpass, BiquadHighpass, BiquadLowpass, BiquadState};
use crate::float::{F32, F64};
use crate::gate::Gate;
use crate::lfo::{Lfo, LfoState};
use crate::mix::{Gain, Mix};
use crate::noise::{BrownNoise, BrownState, PinkNoise, PinkState, WhiteNoise};
use crate::oscillator::{OscPhase, SawtoothOsc, SineOsc, SquareOsc, TriangleOsc};
use crate::reverb::{Reverb, ReverbState, ReverbView};
use crate::stream::Stream;
use vstd::prelude::*;

verus! {

/// What a node keeps from one sample to the next.
pub enum NodeState {
    /// Nothing.
    Stateless,
    /// An oscillator's phase.
    Osc(OscPhase),
    /// A pink-noise filter.
    Pink(PinkState),
    /// A brown-noise integrator.
    Brown(BrownState),
    /// An envelope's stage.
    Adsr(AdsrState),
    /// A filter's history.
    Biquad(BiquadState),
    /// A low-frequency oscillator's phase and held value.
    Lfo(LfoState),
    /// A chorus line.
    Chorus(ChorusState),
    /// A bank of reverb lines.
    Reverb(ReverbState),
}

/// The contents of a [`NodeState`].
pub enum StateView {
    /// Nothing.
    Stateless,
    /// An oscillator's phase.
    Osc(OscPhase),
    /// A pink-noise filter.
    Pink(PinkState),
    /// A brown-noise integrator.
    Brown(BrownState),
    /// An envelope's stage.
    Adsr(AdsrState),
    /// A filter's history.
    Biquad(BiquadState),
    /// A low-frequency oscillator's phase and held value.
    Lfo(LfoState),
    /// A chorus line.
    Chorus(ChorusView),
    /// A bank of reverb lines.
    Reverb(ReverbView),
}

impl View for NodeState {
    type V = StateView;

    open spec fn view(&self) -> StateView {
        match *self {
            NodeState::Stateless => StateView::Stateless,
            NodeState::Osc(s) => StateView::Osc(s),
            NodeState::Pink(s) => StateView::Pink(s),
            NodeState::Brown(s) => StateView::Brown(s),
            NodeState::Adsr(s) => StateView::Adsr(s),
            NodeState::Biquad(s) => StateView::Biquad(s),
            NodeState::Lfo(s) => StateView::Lfo(s),
            NodeState::Chorus(s) => StateView::Chorus(s@),
            NodeState::Reverb(s) => StateView::Reverb(s@),
        }
    }
}

impl StateView {
    /// Every cursor lies inside its line.
    pub open spec fn sound(self) -> bool {
        match self {
            StateView::Chorus(s) => s.sound(),
            StateView::Reverb(s) => s.sound(),
            _ => true,
        }
    }

    /// How long an envelope has been in its stage, in samples.
    pub open spec fn age(self) -> int {
        match self {
            StateView::Adsr(s) => s.elapsed_samples as int,
            _ => 0,
        }
    }
}

/// The value on one wired input port.
pub struct Input<'a> {
    /// The name of the port.
    pub port: &'a str,
    /// The sum of its connections.
    pub value: F32,
}

/// The contents of an [`Input`].
pub struct InputView {
    /// The name of the port.
    pub port: Seq<char>,
    /// The sum of its connections.
    pub value: F32,
}

impl<'a> View for Input<'a> {
    type V = InputView;

    open spec fn view(&self) -> InputView {
        InputView { port: self.port@, value: self.value }
    }
}

/// The contents of a list of inputs.
pub open spec fn inputs_view(inputs: Seq<Input<'_>>) -> Seq<InputView> {
    inputs.map_values(|i: Input<'_>| i@)
}

/// The value on the first port named `port`, zero where there is none.
pub open spec fn input_at(inputs: Seq<InputView>, port: Seq<char>) -> F32
    decreases inputs.len(),
{
    if inputs.len() == 0 {
        F32::of(0)
    } else if inputs[0].port == port {
        inputs[0].value
    } else {
        input_at(inputs.drop_first(), port)
    }
}

/// The sum of all values, from zero up in their order.
pub open spec fn input_total(inputs: Seq<InputView>) -> F32
    decreases inputs.len(),
{
    if inputs.len() == 0 {
        F32::of(0)
    } else {
        input_total(inputs.drop_last()).plus(inputs.last().value)
    }
}

/// Everything a node may read and change while it makes one sample.
pub struct BakeContext<'a> {
    /// Samples per second.
    pub sample_rate: u32,
    /// Which sample is being made.
    pub sample_index: u64,
    /// How many samples will be made in all.
    pub duration_samples: u64,
    /// The random stream of the bake.
    pub rng: Stream,
    /// The values on the wired input ports.
    pub inputs: Vec<Input<'a>>,
    /// What the node keeps.
    pub state: NodeState,
    /// For how many samples the note gate is open; always where this is `None`.
    pub gate_samples: Option<u64>,
}

/// The contents of a [`BakeContext`].
pub struct ContextView {
    /// Samples per second.
    pub sample_rate: u32,
    /// Which sample is being made.
    pub sample_index: u64,
    /// How many samples will be made in all.
    pub duration_samples: u64,
    /// The random stream of the bake.
    pub rng: Stream,
    /// The values on the wired input ports.
    pub inputs: Seq<InputView>,
    /// What the node keeps.
    pub state: StateView,
    /// For how many samples the note gate is open.
    pub gate_samples: Option<u64>,
}

impl<'a> View for BakeContext<'a> {
    type V = ContextView;

    open spec fn view(&self) -> ContextView {
        ContextView {
            sample_rate: self.sample_rate,
            sample_index: self.sample_index,
            duration_samples: self.duration_samples,
            rng: self.rng,
            inputs: inputs_view(self.inputs@),
            state: self.state@,
            gate_samples: self.gate_samples,
        }
    }
}

impl ContextView {
    /// The sample rate as a number.
    pub open spec fn rate(self) -> F32 {
        F32::from_u64(self.sample_rate as u64)
    }

    /// The value on a port, zero where it is not wired.
    pub open spec fn input(self, port: Seq<char>) -> F32 {
        input_at(self.inputs, port)
    }

    /// The note gate is open at this sample.
    pub open spec fn gate_open(self) -> bool {
        match self.gate_samples {
            Some(n) => self.sample_index < n,
            None => true,
        }
    }

    /// The time of this sample in seconds.
    pub open spec fn time_secs(self) -> F64 {
        F64::from_u64(self.sample_index).over(F64::from_u64(self.sample_rate as u64))
    }

    /// Keeps `state` for the next sample.
    pub open spec fn keep(self, state: StateView) -> ContextView {
        ContextView { state, ..self }
    }

    /// Moves the random stream on by one word.
    pub open spec fn drawn(self) -> ContextView {
        ContextView { rng: self.rng.next(), ..self }
    }
}

impl<'a> BakeContext<'a> {
    /// The context of one sample, its gate always open.
    pub fn new(
        sample_rate: u32,
        sample_index: u64,
        duration_samples: u64,
        rng: Stream,
        inputs: Vec<Input<'a>>,
        state: NodeState,
    ) -> (r: BakeContext<'a>)
        ensures
            r@ == (ContextView {
                sample_rate,
                sample_index,
                duration_samples,
                rng,
                inputs: inputs_view(inputs@),
                state: state@,
                gate_samples: None,
            }),
    {
        BakeContext {
            sample_rate,
            sample_index,
            duration_samples,
            rng,
            inputs,
            state,
            gate_samples: None,
        }
    }

    /// The same context with a gate window.
    pub fn with_gate(self, gate_samples: Option<u64>) -> (r: BakeContext<'a>)
        ensures
            r@ == (ContextView { gate_samples, ..self@ }),
    {
        BakeContext { gate_samples, ..self }
    }

    /// The sample rate as a number.
    pub fn rate(&self) -> (r: F32)
        ensures
            r == self@.rate(),
    {
        F32::from_u64(self.sample_rate as u64)
    }

    /// The value on a port, zero where it is not wired.
    pub fn input(&self, port: &str) -> (r: F32)
        ensures
            r == self@.input(port@),
    {
        let ghost all: Seq<InputView> = inputs_view(self.inputs@);
        let mut i: usize = 0;
        assert(all.skip(0) == all);
        while i < self.inputs.len()
            invariant
                i <= self.inputs.len(),
                all == inputs_view(self.inputs@),
                input_at(all, port@) == input_at(all.skip(i as int), port@),
            decreases self.inputs.len() - i,
        {
            let here: &Input = &self.inputs[i];
            assert(all.skip(i as int)[0] == here@);
            if same_text(here.port, port) {
                return here.value;
            }
            assert(all.skip(i as int).drop_first() == all.skip(i + 1));
            i = i + 1;
        }
        F32::of(0)
    }

    /// The sum of all values, from zero up in their order.
    pub fn input_sum(&self) -> (r: F32)
        ensures
            r == input_total(self@.inputs),
    {
        let ghost all: Seq<InputView> = inputs_view(self.inputs@);
        let mut total: F32 = F32::of(0);
        let mut i: usize = 0;
        while i < self.inputs.len()
            invariant
                i <= self.inputs.len(),
                all == inputs_view(self.inputs@),
                total == input_total(all.take(i as int)),
            decreases self.inputs.len() - i,
        {
            assert(all.take(i + 1).drop_last() == all.take(i as int));
            assert(all.take(i + 1).last() == self.inputs[i as int]@);
            total = total.plus(self.inputs[i].value);
            i = i + 1;
        }
        assert(all.take(i as int) == all);
        total
    }

    /// The note gate is open at this sample.
    pub fn gate_open(&self) -> (r: bool)
        ensures
            r == self@.gate_open(),
    {
        match self.gate_samples {
            Some(n) => self.sample_index < n,
            None => true,
        }
    }

    /// The time of this sample in seconds.
    pub fn time_secs(&self) -> (r: F64)
        ensures
            r == self@.time_secs(),
    {
        F64::from_u64(self.sample_index).over(F64::from_u64(self.sample_rate as u64))
    }

    /// A fresh number of `-1.0 .. 1.0`.
    pub fn draw(&mut self) -> (r: F32)
        ensures
            r == old(self).rng.noise(),
            final(self)@ == old(self)@.drawn(),
            final(self).state == old(self).state,
    {
        self.rng.draw()
    }
}

/// Two texts are the same.
pub fn same_text(a: &str, b: &str) -> (r: bool)
    ensures
        r == (a@ == b@),
{
    let x: &[u8] = a.as_bytes();
    let y: &[u8] = b.as_bytes();
    proof {
        vstd::utf8::encode_utf8_decode_utf8(a@);
        vstd::utf8::encode_utf8_decode_utf8(b@);
    }
    if x.len() != y.len() {
        return false;
    }
    let mut i: usize = 0;
    while i < x.len()
        invariant
            i <= x.len(),
            x.len() == y.len(),
            x@ == vstd::utf8::encode_utf8(a@),
            y@ == vstd::utf8::encode_utf8(b@),
            forall|j: int| 0 <= j < i ==> x[j] == y[j],
        decreases x.len() - i,
    {
        if x[i] != y[i] {
            return false;
        }
        i = i + 1;
    }
    assert(x@ =~= y@);
    true
}

/// One sample of a node and what it leaves behind.
pub struct Step {
    /// The sample.
    pub out: F32,
    /// The context afterwards.
    pub after: ContextView,
}

/// A generator, filter or effect that makes one sample at a time.
pub trait Node: Sized {
    /// What the node makes of a context.
    spec fn step(&self, c: ContextView, f: spec_fn(Elementary, F32) -> F32) -> Step;

    /// The lines that the node allocates at this sample rate are not longer
    /// than memory can be.
    spec fn fits(&self, sample_rate: u32) -> bool;

    /// What the node keeps before its first sample.
    spec fn initial(&self) -> StateView;

    /// Makes one sample.
    fn sample<M: Fn(Elementary, F32) -> F32>(&self, ctx: &mut BakeContext, math: &M) -> (r: F32)
        requires
            elementary::answers(*math),
            self.fits(old(ctx).sample_rate),
            old(ctx).state@.sound(),
            old(ctx).state@.age() < u64::MAX,
        ensures
            r == self.step(old(ctx)@, elementary::table(*math)).out,
            final(ctx)@ == self.step(old(ctx)@, elementary::table(*math)).after,
            final(ctx).state@.sound(),
            final(ctx).state@.age() <= old(ctx).state@.age() + 1,
    ;

    /// What the node keeps before its first sample.
    fn init_state(&self) -> (r: NodeState)
        ensures
            r@ == self.initial(),
            r@.sound(),
            r@.age() == 0,
    ;
}

/// Every built-in node with its configuration.
#[non_exhaustive]
#[derive(Clone, Copy, Debug, PartialEq, Eq, Structural)]
pub enum NodeKind {
    /// Nothing but zeros.
    Silence,
    /// A pure tone.
    Sine(SineOsc),
    /// A pulse.
    Square(SquareOsc),
    /// A ramp.
    Sawtooth(SawtoothOsc),
    /// A triangle.
    Triangle(TriangleOsc),
    /// Uniform noise.
    WhiteNoise(WhiteNoise),
    /// Pink noise.
    PinkNoise(PinkNoise),
    /// Brown noise.
    BrownNoise(BrownNoise),
    /// An envelope.
    Adsr(AdsrEnvelope),
    /// A lowpass.
    BiquadLowpass(BiquadLowpass),
    /// A highpass.
    BiquadHighpass(BiquadHighpass),
    /// A bandpass.
    BiquadBandpass(BiquadBandpass),
    /// A low-frequency oscillator.
    Lfo(Lfo),
    /// A mixer.
    Mix(Mix),
    /// An amplifier.
    Gain(Gain),
    /// The note gate window as a signal.
    Gate(Gate),
    /// A chorus.
    Chorus(Chorus),
    /// A reverb.
    Reverb(Reverb),
    /// A kind that this version does not know; it is silent.
    Unknown,
}

impl View for NodeKind {
    type V = NodeKind;

    open spec fn view(&self) -> NodeKind {
        *self
    }
}

impl Default for NodeKind {
    fn default() -> (r: NodeKind)
        ensures
            r == NodeKind::Silence,
    {
        NodeKind::Silence
    }
}

impl Node for NodeKind {
    open spec fn step(&self, c: ContextView, f: spec_fn(Elementary, F32) -> F32) -> Step {
        match *self {
            NodeKind::Silence => Step { out: F32::of(0), after: c },
            NodeKind::Sine(n) => n.step(c, f),
            NodeKind::Square(n) => n.step(c, f),
            NodeKind::Sawtooth(n) => n.step(c, f),
            NodeKind::Triangle(n) => n.step(c, f),
            NodeKind::WhiteNoise(n) => n.step(c, f),
            NodeKind::PinkNoise(n) => n.step(c, f),
            NodeKind::BrownNoise(n) => n.step(c, f),
            NodeKind::Adsr(n) => n.step(c, f),
            NodeKind::BiquadLowpass(n) => n.step(c, f),
            NodeKind::BiquadHighpass(n) => n.step(c, f),
            NodeKind::BiquadBandpass(n) => n.step(c, f),
            NodeKind::Lfo(n) => n.step(c, f),
            NodeKind::Mix(n) => n.step(c, f),
            NodeKind::Gain(n) => n.step(c, f),
            NodeKind::Gate(n) => n.step(c, f),
            NodeKind::Chorus(n) => n.step(c, f),
            NodeKind::Reverb(n) => n.step(c, f),
            NodeKind::Unknown => Step { out: F32::of(0), after: c },
        }
    }

    open spec fn fits(&self, sample_rate: u32) -> bool {
        match *self {
            NodeKind::Chorus(n) => n.fits(sample_rate),
            _ => true,
        }
    }

    open spec fn initial(&self) -> StateView {
        match *self {
            NodeKind::Silence => StateView::Stateless,
            NodeKind::Sine(n) => n.initial(),
            NodeKind::Square(n) => n.initial(),
            NodeKind::Sawtooth(n) => n.initial(),
            NodeKind::Triangle(n) => n.initial(),
            NodeKind::WhiteNoise(n) => n.initial(),
            NodeKind::PinkNoise(n) => n.initial(),
            NodeKind::BrownNoise(n) => n.initial(),
            NodeKind::Adsr(n) => n.initial(),
            NodeKind::BiquadLowpass(n) => n.initial(),
            NodeKind::BiquadHighpass(n) => n.initial(),
            NodeKind::BiquadBandpass(n) => n.initial(),
            NodeKind::Lfo(n) => n.initial(),
            NodeKind::Mix(n) => n.initial(),
            NodeKind::Gain(n) => n.initial(),
            NodeKind::Gate(n) => n.initial(),
            NodeKind::Chorus(n) => n.initial(),
            NodeKind::Reverb(n) => n.initial(),
            NodeKind::Unknown => StateView::Stateless,
        }
    }

    fn sample<M: Fn(Elementary, F32) -> F32>(&self, ctx: &mut BakeContext, math: &M) -> (r: F32) {
        match self {
            NodeKind::Silence => F32::of(0),
            NodeKind::Sine(n) => n.sample(ctx, math),
            NodeKind::Square(n) => n.sample(ctx, math),
            NodeKind::Sawtooth(n) => n.sample(ctx, math),
            NodeKind::Triangle(n) => n.sample(ctx, math),
            NodeKind::WhiteNoise(n) => n.sample(ctx, math),
            NodeKind::PinkNoise(n) => n.sample(ctx, math),
            NodeKind::BrownNoise(n) => n.sample(ctx, math),
            NodeKind::Adsr(n) => n.sample(ctx, math),
            NodeKind::BiquadLowpass(n) => n.sample(ctx, math),
            NodeKind::BiquadHighpass(n) => n.sample(ctx, math),
            NodeKind::BiquadBandpass(n) => n.sample(ctx, math),
            NodeKind::Lfo(n) => n.sample(ctx, math),
            NodeKind::Mix(n) => n.sample(ctx, math),
            NodeKind::Gain(n) => n.sample(ctx, math),
            NodeKind::Gate(n) => n.sample(ctx, math),
            NodeKind::Chorus(n) => n.sample(ctx, math),
            NodeKind::Reverb(n) => n.sample(ctx, math),
            NodeKind::Unknown => F32::of(0),
        }
    }

    fn init_state(&self) -> (r: NodeState) {
        match self {
            NodeKind::Silence => NodeState::Stateless,
            NodeKind::Sine(n) => n.init_state(),
            NodeKind::Square(n) => n.init_state(),
            NodeKind::Sawtooth(n) => n.init_state(),
            NodeKind::Triangle(n) => n.init_state(),
            NodeKind::WhiteNoise(n) => n.init_state(),
            NodeKind::PinkNoise(n) => n.init_state(),
            NodeKind::BrownNoise(n) => n.init_state(),
            NodeKind::Adsr(n) => n.init_state(),
            NodeKind::BiquadLowpass(n) => n.init_state(),
            NodeKind::BiquadHighpass(n) => n.init_state(),
            NodeKind::BiquadBandpass(n) => n.init_state(),
            NodeKind::Lfo(n) => n.init_state(),
            NodeKind::Mix(n) => n.init_state(),
            NodeKind::Gain(n) => n.init_state(),
            NodeKind::Gate(n) => n.init_state(),
            NodeKind::Chorus(n) => n.init_state(),
            NodeKind::Reverb(n) => n.init_state(),
            NodeKind::Unknown => NodeState::Stateless,
        }
    }
}

impl NodeKind {
    /// The name of the kind.
    pub open spec fn name(self) -> Seq<char> {
        match self {
            NodeKind::Silence => "Silence"@,
            NodeKind::Sine(_) => "Sine"@,
            NodeKind::Square(_) => "Square"@,
            NodeKind::Sawtooth(_) => "Sawtooth"@,
            NodeKind::Triangle(_) => "Triangle"@,
            NodeKind::WhiteNoise(_) => "WhiteNoise"@,
            NodeKind::PinkNoise(_) => "PinkNoise"@,
            NodeKind::BrownNoise(_) => "BrownNoise"@,
            NodeKind::Adsr(_) => "Adsr"@,
            NodeKind::BiquadLowpass(_) => "BiquadLowpass"@,
            NodeKind::BiquadHighpass(_) => "BiquadHighpass"@,
            NodeKind::BiquadBandpass(_) => "BiquadBandpass"@,
            NodeKind::Lfo(_) => "Lfo"@,
            NodeKind::Mix(_) => "Mix"@,
            NodeKind::Gain(_) => "Gain"@,
            NodeKind::Gate(_) => "Gate"@,
            NodeKind::Chorus(_) => "Chorus"@,
            NodeKind::Reverb(_) => "Reverb"@,
            NodeKind::Unknown => "Unknown"@,
        }
    }

    /// The name of the kind.
    pub fn label(&self) -> (r: &'static str)
        ensures
            r@ == self.name(),
    {
        match self {
            NodeKind::Silence => "Silence",
            NodeKind::Sine(_) => "Sine",
            NodeKind::Square(_) => "Square",
            NodeKind::Sawtooth(_) => "Sawtooth",
            NodeKind::Triangle(_) => "Triangle",
            NodeKind::WhiteNoise(_) => "WhiteNoise",
            NodeKind::PinkNoise(_) => "PinkNoise",
            NodeKind::BrownNoise(_) => "BrownNoise",
            NodeKind::Adsr(_) => "Adsr",
            NodeKind::BiquadLowpass(_) => "BiquadLowpass",
            NodeKind::BiquadHighpass(_) => "BiquadHighpass",
            NodeKind::BiquadBandpass(_) => "BiquadBandpass",
            NodeKind::Lfo(_) => "Lfo",
            NodeKind::Mix(_) => "Mix",
            NodeKind::Gain(_) => "Gain",
            NodeKind::Gate(_) => "Gate",
            NodeKind::Chorus(_) => "Chorus",
            NodeKind::Reverb(_) => "Reverb",
            NodeKind::Unknown => "Unknown",
        }
    }

    /// The node with its pitch scaled by `mult`: the oscillators' frequencies
    /// are, nothing else is pitched.
    pub open spec fn retuned(self, mult: F32) -> NodeKind {
        match self {
            NodeKind::Sine(n) => NodeKind::Sine(
                SineOsc { freq_hz: n.freq_hz.times(mult), ..n },
            ),
            NodeKind::Square(n) => NodeKind::Square(
                SquareOsc { freq_hz: n.freq_hz.times(mult), ..n },
            ),
            NodeKind::Sawtooth(n) => NodeKind::Sawtooth(
                SawtoothOsc { freq_hz: n.freq_hz.times(mult), ..n },
            ),
            NodeKind::Triangle(n) => NodeKind::Triangle(
                TriangleOsc { freq_hz: n.freq_hz.times(mult), ..n },
            ),
            _ => self,
        }
    }

    /// Scales the pitch by `mult`.
    pub fn scale_pitch(&mut self, mult: F32)
        ensures
            *final(self) == old(self).retuned(mult),
    {
        *self = match *self {
            NodeKind::Sine(n) => NodeKind::Sine(
                SineOsc { freq_hz: n.freq_hz.times(mult), ..n },
            ),
            NodeKind::Square(n) => NodeKind::Square(
                SquareOsc { freq_hz: n.freq_hz.times(mult), ..n },
            ),
            NodeKind::Sawtooth(n) => NodeKind::Sawtooth(
                SawtoothOsc { freq_hz: n.freq_hz.times(mult), ..n },
            ),
            NodeKind::Triangle(n) => NodeKind::Triangle(
                TriangleOsc { freq_hz: n.freq_hz.times(mult), ..n },
            ),
            other => other,
        };
    }

    /// One node of every kind there is, in its default configuration.
    pub open spec fn is_roster(r: Seq<NodeKind>) -> bool {
        &&& r.len() == 18
        &&& r[0] == NodeKind::Silence
        &&& r[1] == NodeKind::Sine(SineOsc::preset())
        &&& r[2] == NodeKind::Square(SquareOsc::preset())
        &&& r[3] == NodeKind::Sawtooth(SawtoothOsc::preset())
        &&& r[4] == NodeKind::Triangle(TriangleOsc::preset())
        &&& r[5] == NodeKind::WhiteNoise(WhiteNoise::preset())
        &&& r[6] == NodeKind::PinkNoise(PinkNoise::preset())
        &&& r[7] == NodeKind::BrownNoise(BrownNoise::preset())
        &&& r[8] == NodeKind::Adsr(AdsrEnvelope::preset())
        &&& r[9] == NodeKind::BiquadLowpass(BiquadLowpass::preset())
        &&& r[10] == NodeKind::BiquadHighpass(BiquadHighpass::preset())
        &&& r[11] == NodeKind::BiquadBandpass(BiquadBandpass::preset())
        &&& r[12] == NodeKind::Lfo(Lfo::preset())
        &&& r[13] == NodeKind::Mix(Mix::preset())
        &&& r[14] == NodeKind::Gain(Gain::preset())
        &&& r[15] == NodeKind::Gate(Gate::preset())
        &&& r[16] == NodeKind::Chorus(Chorus::preset())
        &&& r[17] == NodeKind::Reverb(Reverb::preset())
    }

    /// One node of every kind there is, in its default configuration.
    pub fn defaults() -> (r: Vec<NodeKind>)
        ensures
            NodeKind::is_roster(r@),
    {
        let mut r: Vec<NodeKind> = Vec::new();
        r.push(NodeKind::Silence);
        r.push(NodeKind::Sine(SineOsc::default()));
        r.push(NodeKind::Square(SquareOsc::default()));
        r.push(NodeKind::Sawtooth(SawtoothOsc::default()));
        r.push(NodeKind::Triangle(TriangleOsc::default()));
        r.push(NodeKind::WhiteNoise(WhiteNoise::default()));
        r.push(NodeKind::PinkNoise(PinkNoise::default()));
        r.push(NodeKind::BrownNoise(BrownNoise::default()));
        r.push(NodeKind::Adsr(AdsrEnvelope::default()));
        r.push(NodeKind::BiquadLowpass(BiquadLowpass::default()));
        r.push(NodeKind::BiquadHighpass(BiquadHighpass::default()));
        r.push(NodeKind::BiquadBandpass(BiquadBandpass::default()));
        r.push(NodeKind::Lfo(Lfo::default()));
        r.push(NodeKind::Mix(Mix::default()));
        r.push(NodeKind::Gain(Gain::default()));
        r.push(NodeKind::Gate(Gate::default()));
        r.push(NodeKind::Chorus(Chorus::default()));
        r.push(NodeKind::Reverb(Reverb::default()));
        r
    }
}

/// A kind that this version does not know is silent, as is silence itself,
/// and touches nothing.
pub proof fn law_unknown_is_silent(c: ContextView, f: spec_fn(Elementary, F32) -> F32)
    ensures
        NodeKind::Unknown.step(c, f) == (Step { out: F32::of(0), after: c }),
        NodeKind::Silence.step(c, f) == (Step { out: F32::of(0), after: c }),
{
}

/// Inside a graph a node does what its configuration does: it makes the same
/// sample of every context and leaves the same behind.
pub proof fn law_kinds_do_what_their_configurations_do(
    kind: NodeKind,
    c: ContextView,
    f: spec_fn(Elementary, F32) -> F32,
)
    ensures
        match kind {
            NodeKind::Sine(n) => kind.step(c, f) == n.step(c, f),
            NodeKind::Square(n) => kind.step(c, f) == n.step(c, f),
            NodeKind::Sawtooth(n) => kind.step(c, f) == n.step(c, f),
            NodeKind::Triangle(n) => kind.step(c, f) == n.step(c, f),
            NodeKind::WhiteNoise(n) => kind.step(c, f) == n.step(c, f),
            NodeKind::PinkNoise(n) => kind.step(c, f) == n.step(c, f),
            NodeKind::BrownNoise(n) => kind.step(c, f) == n.step(c, f),
            NodeKind::Adsr(n) => kind.step(c, f) == n.step(c, f),
            NodeKind::BiquadLowpass(n) => kind.step(c, f) == n.step(c, f),
            NodeKind::BiquadHighpass(n) => kind.step(c, f) == n.step(c, f),
            NodeKind::BiquadBandpass(n) => kind.step(c, f) == n.step(c, f),
            NodeKind::Lfo(n) => kind.step(c, f) == n.step(c, f),
            NodeKind::Mix(n) => kind.step(c, f) == n.step(c, f),
            NodeKind::Gain(n) => kind.step(c, f) == n.step(c, f),
            NodeKind::Gate(n) => kind.step(c, f) == n.step(c, f),
            NodeKind::Chorus(n) => kind.step(c, f) == n.step(c, f),
            NodeKind::Reverb(n) => kind.step(c, f) == n.step(c, f),
            NodeKind::Silence | NodeKind::Unknown => kind.step(c, f) == (Step {
                out: F32::of(0),
                after: c,
            }),
        },
{
}

/// Inside a graph a node starts where its configuration starts, and needs
/// the lines that its configuration needs.
pub proof fn law_kinds_start_where_their_configurations_start(kind: NodeKind, sample_rate: u32)
    ensures
        match kind {
            NodeKind::Sine(n) => kind.initial() == n.initial() && kind.fits(sample_rate) == n.fits(
                sample_rate,
            ),
            NodeKind::Square(n) => kind.initial() == n.initial() && kind.fits(sample_rate) == n.fits(
                sample_rate,
            ),
            NodeKind::Sawtooth(n) => kind.initial() == n.initial() && kind.fits(sample_rate) == n.fits(
                sample_rate,
            ),
            NodeKind::Triangle(n) => kind.initial() == n.initial() && kind.fits(sample_rate) == n.fits(
                sample_rate,
            ),
            NodeKind::WhiteNoise(n) => kind.initial() == n.initial() && kind.fits(sample_rate) == n.fits(
                sample_rate,
            ),
            NodeKind::PinkNoise(n) => kind.initial() == n.initial() && kind.fits(sample_rate) == n.fits(
                sample_rate,
            ),
            NodeKind::BrownNoise(n) => kind.initial() == n.initial() && kind.fits(sample_rate) == n.fits(
                sample_rate,
            ),
            NodeKind::Adsr(n) => kind.initial() == n.initial() && kind.fits(sample_rate) == n.fits(
                sample_rate,
            ),
            NodeKind::BiquadLowpass(n) => kind.initial() == n.initial() && kind.fits(sample_rate) == n.fits(
                sample_rate,
            ),
            NodeKind::BiquadHighpass(n) => kind.initial() == n.initial() && kind.fits(sample_rate) == n.fits(
                sample_rate,
            ),
            NodeKind::BiquadBandpass(n) => kind.initial() == n.initial() && kind.fits(sample_rate) == n.fits(
                sample_rate,
            ),
            NodeKind::Lfo(n) => kind.initial() == n.initial() && kind.fits(sample_rate) == n.fits(
                sample_rate,
            ),
            NodeKind::Mix(n) => kind.initial() == n.initial() && kind.fits(sample_rate) == n.fits(
                sample_rate,
            ),
            NodeKind::Gain(n) => kind.initial() == n.initial() && kind.fits(sample_rate) == n.fits(
                sample_rate,
            ),
            NodeKind::Gate(n) => kind.initial() == n.initial() && kind.fits(sample_rate) == n.fits(
                sample_rate,
            ),
            NodeKind::Chorus(n) => kind.initial() == n.initial() && kind.fits(sample_rate) == n.fits(
                sample_rate,
            ),
            NodeKind::Reverb(n) => kind.initial() == n.initial() && kind.fits(sample_rate) == n.fits(
                sample_rate,
            ),
            NodeKind::Silence | NodeKind::Unknown => kind.initial() == StateView::Stateless
                && kind.fits(sample_rate),
        },
{
}

/// Retuning scales the frequency of an oscillator and leaves the rest of it
/// alone; a node that is no oscillator stays as it is.
pub proof fn law_retuning_scales_frequencies(kind: NodeKind, mult: F32)
    ensures
        match kind {
            NodeKind::Sine(n) => kind.retuned(mult) matches NodeKind::Sine(m) && m.freq_hz
                == n.freq_hz.times(mult) && m.phase_offset == n.phase_offset && m.amplitude
                == n.amplitude,
            NodeKind::Square(n) => kind.retuned(mult) matches NodeKind::Square(m) && m.freq_hz
                == n.freq_hz.times(mult) && m.duty == n.duty && m.amplitude == n.amplitude
                && m.anti_alias == n.anti_alias,
            NodeKind::Sawtooth(n) => kind.retuned(mult) matches NodeKind::Sawtooth(m)
                && m.freq_hz == n.freq_hz.times(mult) && m.amplitude == n.amplitude && m.polarity
                == n.polarity && m.anti_alias == n.anti_alias,
            NodeKind::Triangle(n) => kind.retuned(mult) matches NodeKind::Triangle(m)
                && m.freq_hz == n.freq_hz.times(mult) && m.amplitude == n.amplitude && m.anti_alias
                == n.anti_alias,
            _ => kind.retuned(mult) == kind,
        },
{
}

/// The roster holds every kind that there is in its default configuration.
pub proof fn law_the_roster_holds_every_kind(r: Seq<NodeKind>, kind: NodeKind)
    requires
        NodeKind::is_roster(r),
    ensures
        match kind {
            NodeKind::Silence => r.contains(NodeKind::Silence),
            NodeKind::Sine(_) => r.contains(NodeKind::Sine(SineOsc::preset())),
            NodeKind::Square(_) => r.contains(NodeKind::Square(SquareOsc::preset())),
            NodeKind::Sawtooth(_) => r.contains(NodeKind::Sawtooth(SawtoothOsc::preset())),
            NodeKind::Triangle(_) => r.contains(NodeKind::Triangle(TriangleOsc::preset())),
            NodeKind::WhiteNoise(_) => r.contains(NodeKind::WhiteNoise(WhiteNoise::preset())),
            NodeKind::PinkNoise(_) => r.contains(NodeKind::PinkNoise(PinkNoise::preset())),
            NodeKind::BrownNoise(_) => r.contains(NodeKind::BrownNoise(BrownNoise::preset())),
            NodeKind::Adsr(_) => r.contains(NodeKind::Adsr(AdsrEnvelope::preset())),
            NodeKind::BiquadLowpass(_) => r.contains(NodeKind::BiquadLowpass(BiquadLowpass::preset())),
            NodeKind::BiquadHighpass(_) => r.contains(NodeKind::BiquadHighpass(BiquadHighpass::preset())),
            NodeKind::BiquadBandpass(_) => r.contains(NodeKind::BiquadBandpass(BiquadBandpass::preset())),
            NodeKind::Lfo(_) => r.contains(NodeKind::Lfo(Lfo::preset())),
            NodeKind::Mix(_) => r.contains(NodeKind::Mix(Mix::preset())),
            NodeKind::Gain(_) => r.contains(NodeKind::Gain(Gain::preset())),
            NodeKind::Gate(_) => r.contains(NodeKind::Gate(Gate::preset())),
            NodeKind::Chorus(_) => r.contains(NodeKind::Chorus(Chorus::preset())),
            NodeKind::Reverb(_) => r.contains(NodeKind::Reverb(Reverb::preset())),
            NodeKind::Unknown => !r.contains(kind),
        },
{
    assert(r.contains(r[0]));
    assert(r.contains(r[1]));
    assert(r.contains(r[2]));
    assert(r.contains(r[3]));
    assert(r.contains(r[4]));
    assert(r.contains(r[5]));
    assert(r.contains(r[6]));
    assert(r.contains(r[7]));
    assert(r.contains(r[8]));
    assert(r.contains(r[9]));
    assert(r.contains(r[10]));
    assert(r.contains(r[11]));
    assert(r.contains(r[12]));
    assert(r.contains(r[13]));
    assert(r.contains(r[14]));
    assert(r.contains(r[15]));
    assert(r.contains(r[16]));
    assert(r.contains(r[17]));
}

/// Every kind is called by its own name.
pub proof fn law_kinds_are_called_by_their_names(kind: NodeKind)
    ensures
        match kind {
            NodeKind::Silence => kind.name() == "Silence"@,
            NodeKind::Sine(_) => kind.name() == "Sine"@,
            NodeKind::Square(_) => kind.name() == "Square"@,
            NodeKind::Sawtooth(_) => kind.name() == "Sawtooth"@,
            NodeKind::Triangle(_) => kind.name() == "Triangle"@,
            NodeKind::WhiteNoise(_) => kind.name() == "WhiteNoise"@,
            NodeKind::PinkNoise(_) => kind.name() == "PinkNoise"@,
            NodeKind::BrownNoise(_) => kind.name() == "BrownNoise"@,
            NodeKind::Adsr(_) => kind.name() == "Adsr"@,
            NodeKind::BiquadLowpass(_) => kind.name() == "BiquadLowpass"@,
            NodeKind::BiquadHighpass(_) => kind.name() == "BiquadHighpass"@,
            NodeKind::BiquadBandpass(_) => kind.name() == "BiquadBandpass"@,
            NodeKind::Lfo(_) => kind.name() == "Lfo"@,
            NodeKind::Mix(_) => kind.name() == "Mix"@,
            NodeKind::Gain(_) => kind.name() == "Gain"@,
            NodeKind::Gate(_) => kind.name() == "Gate"@,
            NodeKind::Chorus(_) => kind.name() == "Chorus"@,
            NodeKind::Reverb(_) => kind.name() == "Reverb"@,
            NodeKind::Unknown => kind.name() == "Unknown"@,
        },
{
}

} // verus!
