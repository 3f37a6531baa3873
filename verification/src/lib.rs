//! Deterministic algorithmic audio synthesis.
//!
//! A patch is a graph of nodes: sine, square, sawtooth and triangle
//! oscillators, white, pink and brown noise, envelopes, biquad filters,
//! low-frequency oscillators, mixers, gates, chorus and reverb.  Baking a
//! patch yields a mono buffer that depends on the patch alone; mixing a
//! recipe down places many bakes on a timeline.
//!
//! # Numbers
//!
//! Samples are [`float::F32`]: bit patterns of the 32-bit format, with
//! operations that round exactly as the format prescribes and are defined on
//! integers.  Sine, cosine, hyperbolic tangent and powers of two are not part
//! of the format; the functions that need one take it as an argument, an
//! [`elementary::Elementary`] at a time.
//!
//! # Layers
//!
//! - [`rounding`], [`pack`], [`arith`], [`float`]: the number format;
//!   [`numbers`] holds what follows of it, [`accuracy`] how far a rounded
//!   result lies from the exact one, [`figures`] which numbers the constants
//!   stand for.
//! - [`patch`] and [`order`]: graphs and their evaluation order;
//!   [`structure`]: what holds of these.
//! - [`node`]: what a node is; [`oscillator`], [`noise`], [`adsr`],
//!   [`filter`], [`lfo`], [`mix`], [`gate`], [`chorus`] and [`reverb`]: the
//!   nodes; [`stream`]: the random stream of a bake.  What the nodes do, in
//!   terms of what they are for: [`tones`], [`contour`], [`response`],
//!   [`blends`] and [`lines`].
//! - [`mod@bake`]: a patch becomes a buffer; [`wiring`]: how signals reach
//!   the nodes; [`likeness`]: which patches become the same buffer;
//!   [`stability`]: lines with feedback stay bounded.
//! - [`sequence`] and [`mixdown`]: recipes and their master buffers;
//!   [`master`], [`timeline`] and [`clock`]: what holds of these.
//! - [`envelope`]: bounds on what is accepted from outside; [`limits`]: what
//!   lies outside goes to the nearest bound; [`acceptance`]: what lies inside
//!   can be baked.
//! - [`genetics`], [`breeding`] and [`lineage`]: mutation and crossover;
//!   [`heredity`]: what becomes of each number.
//! - [`wav`]: RIFF/WAVE encoding.
pub mod acceptance;
pub mod accuracy;
pub mod adsr;
pub mod arith;
pub mod bake;
pub mod blends;
pub mod breeding;
pub mod chorus;
pub mod clock;
pub mod constants;
pub mod contour;
pub mod elementary;
pub mod envelope;
pub mod figures;
pub mod filter;
pub mod float;
pub mod gate;
pub mod genetics;
pub mod heredity;
pub mod lfo;
pub mod likeness;
pub mod limits;
pub mod lineage;
pub mod lines;
pub mod master;
pub mod mix;
pub mod mixdown;
pub mod node;
pub mod noise;
pub mod numbers;
pub mod order;
pub mod oscillator;
pub mod pack;
pub mod patch;
pub mod response;
pub mod reverb;
pub mod rounding;
pub mod sequence;
pub mod stability;
pub mod stream;
pub mod structure;
pub mod timeline;
pub mod tones;
pub mod wav;
pub mod wiring;

pub use adsr::{AdsrCurve, AdsrEnvelope};
pub use bake::{bake, try_bake};
pub use chorus::Chorus;
pub use envelope::{ClampToEnvelope, Envelope};
pub use filter::{BiquadBandpass, BiquadHighpass, BiquadLowpass, BiquadState};
pub use gate::Gate;
pub use lfo::{Lfo, LfoShape};
pub use mix::{Gain, Mix};
pub use mixdown::{bake_sequence, loop_start_sample};
pub use node::{BakeContext, Node, NodeKind};
pub use noise::{BrownNoise, PinkNoise, WhiteNoise};
pub use oscillator::{
    AntiAlias, OscPhase, SawPolarity, SawtoothOsc, SineOsc, SquareOsc, TriangleOsc,
};
pub use patch::{topo_sort, AudioPatch, Connection, GraphError, GraphNode, NodeGraph, NodeId};
pub use reverb::Reverb;
pub use sequence::{Event, Instrument, PitchMode, SequenceRecipe, Track};
pub use wav::{
    samples_to_wav_bytes, samples_to_wav_bytes_pcm16, MAX_WAV_SAMPLES, MAX_WAV_SAMPLES_PCM16,
};
