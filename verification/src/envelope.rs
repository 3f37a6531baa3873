//! The bounds outside which a patch or a recipe is not accepted.
//!
//! An envelope bounds validity, not taste: clamping a value that lies inside
//! leaves it as it is, bit for bit.  A number that is not finite becomes its
//! field's default, not the nearest bound.
use crate::adsr::{AdsrEnvelope, DEFAULT_ATTACK, DEFAULT_DECAY, DEFAULT_RELEASE, DEFAULT_SUSTAIN};
use crate::chorus::{Chorus, DEFAULT_DELAY, DEFAULT_RATE, MAX_FEEDBACK};
use crate::constants::{FOUR, HALF, MINUS_ONE, ONE, TWO};
use crate::filter::{BiquadBandpass, BiquadHighpass, BiquadLowpass, BUTTERWORTH, KILOHERTZ, MIN_Q};
use crate::float::F32;
use crate::lfo::Lfo;
use crate::mix::{Gain, Mix};
use crate::node::NodeKind;
use crate::noise::{BrownNoise, PinkNoise, WhiteNoise};
use crate::numbers;
use crate::oscillator::{SawtoothOsc, SineOsc, SquareOsc, TriangleOsc, CONCERT_PITCH};
use crate::patch;
use crate::patch::{
    AudioPatch, Connection, GraphNode, GraphView, NodeGraph, NodeView, PatchView, PortView,
};
use crate::reverb::{Reverb, DEFAULT_MIX};
use crate::sequence;
use crate::sequence::{
    Event, EventView, Instrument, InstrumentView, RecipeView, SequenceRecipe, Track, TrackView,
    DEFAULT_BPM,
};
use vstd::prelude::*;
use vstd::utf8::*;

verus! {

/// Highest frequency: bits of `22050.0`.
pub const MAX_HZ: u32 = 0x46ac_4400;

/// Largest amplitude: bits of `8.0`.
pub const MAX_AMPLITUDE: u32 = 0x4100_0000;

/// Smallest amplitude: bits of `-8.0`.
pub const MIN_AMPLITUDE: u32 = 0xc100_0000;

/// Longest stage of an envelope in seconds: bits of `60.0`.
pub const MAX_STAGE_S: u32 = 0x4270_0000;

/// Largest resonance: bits of `64.0`.
pub const MAX_Q: u32 = 0x4280_0000;

/// Fastest low-frequency oscillator: bits of `1000.0`.
pub const MAX_LFO_HZ: u32 = 0x447a_0000;

/// Largest depth or offset of a low-frequency oscillator: bits of `10000.0`.
pub const MAX_LFO_LEVEL: u32 = 0x461c_4000;

/// Smallest depth or offset of a low-frequency oscillator: bits of `-10000.0`.
pub const MIN_LFO_LEVEL: u32 = 0xc61c_4000;

/// Largest gain: bits of `64.0`.
pub const MAX_GAIN: u32 = 0x4280_0000;

/// Smallest gain: bits of `-64.0`.
pub const MIN_GAIN: u32 = 0xc280_0000;

/// Fastest sweep of a chorus: bits of `100.0`.
pub const MAX_SWEEP_HZ: u32 = 0x42c8_0000;

/// Longest delay of a chorus in milliseconds: bits of `100.0`.
pub const MAX_DELAY_MS: u32 = 0x42c8_0000;

/// Largest value or amount of a connection: bits of `100000.0`.
pub const MAX_CONNECTION_MAGNITUDE: u32 = 0x47c3_5000;

/// Smallest value or amount of a connection: bits of `-100000.0`.
pub const MIN_CONNECTION_MAGNITUDE: u32 = 0xc7c3_5000;

/// Fastest tempo: bits of `1000.0`.
pub const MAX_BPM: u32 = 0x447a_0000;

/// Longest time in beats: bits of `100000.0`.
pub const MAX_BEATS: u32 = 0x47c3_5000;

/// Lowest pitch multiplier: bits of `0.001`.
pub const MIN_PITCH: u32 = 0x3a83_126f;

/// Highest pitch multiplier: bits of `64.0`.
pub const MAX_PITCH: u32 = 0x4280_0000;

/// Caps on the sizes of collections.
#[derive(Clone, Copy, Debug, PartialEq, Eq, Structural)]
pub struct Envelope {
    /// Most nodes of a graph.
    pub max_nodes: usize,
    /// Most connections of a port.
    pub max_connections_per_port: usize,
    /// Most events of a track.
    pub max_track_events: usize,
    /// Most instruments of a recipe.
    pub max_instruments: usize,
    /// Most tracks of a recipe.
    pub max_tracks: usize,
    /// Longest instrument name in bytes.
    pub max_instrument_id_bytes: usize,
}

impl Default for Envelope {
    fn default() -> (r: Envelope)
        ensures
            r == (Envelope {
                max_nodes: 256,
                max_connections_per_port: 64,
                max_track_events: 4096,
                max_instruments: 64,
                max_tracks: 64,
                max_instrument_id_bytes: 128,
            }),
    {
        Envelope {
            max_nodes: 256,
            max_connections_per_port: 64,
            max_track_events: 4096,
            max_instruments: 64,
            max_tracks: 64,
            max_instrument_id_bytes: 128,
        }
    }
}

/// A value that can be brought inside an envelope.
pub trait ClampToEnvelope: View + Sized {
    /// The value lies inside.
    spec fn inside(v: Self::V, limits: Envelope) -> bool;

    /// The value brought inside.
    spec fn clamped(v: Self::V, limits: Envelope) -> Self::V;

    /// A value that lies inside is left as it is.
    proof fn law_inside_is_kept(v: Self::V, limits: Envelope)
        requires
            Self::inside(v, limits),
        ensures
            Self::clamped(v, limits) == v,
    ;

    /// Every value comes to lie inside.
    proof fn law_clamped_is_inside(v: Self::V, limits: Envelope)
        ensures
            Self::inside(Self::clamped(v, limits), limits),
    ;

    /// Brings the value inside.
    fn clamp_to_envelope(&mut self, limits: &Envelope)
        ensures
            final(self)@ == Self::clamped(old(self)@, *limits),
    ;
}

/// Clamping twice is clamping once.
pub proof fn law_clamping_is_idempotent<T: ClampToEnvelope>(v: T::V, limits: Envelope)
    ensures
        T::clamped(T::clamped(v, limits), limits) == T::clamped(v, limits),
{
    T::law_clamped_is_inside(v, limits);
    T::law_inside_is_kept(T::clamped(v, limits), limits);
}

/// Finite and between two bounds.
pub open spec fn within(v: F32, lo: F32, hi: F32) -> bool {
    v.is_finite() && lo.le(v) && v.le(hi)
}

/// The nearest number between two bounds, or a default where the number is
/// not finite.
pub open spec fn bounded(v: F32, lo: F32, hi: F32, default: F32) -> F32 {
    if v.is_finite() {
        v.clamp(lo, hi)
    } else {
        default
    }
}

/// The nearest number between two bounds, or a default where the number is
/// not finite.
pub fn clamp_finite(v: F32, lo: F32, hi: F32, default: F32) -> (r: F32)
    requires
        lo.le(hi),
    ensures
        r == bounded(v, lo, hi, default),
{
    if v.is_finite() {
        v.clamp(lo, hi)
    } else {
        default
    }
}

/// A number within its bounds is left as it is.
proof fn lemma_within_is_kept(v: F32, lo: F32, hi: F32, default: F32)
    requires
        within(v, lo, hi),
    ensures
        bounded(v, lo, hi, default) == v,
{
    reveal(F32::spec_clamp);
    numbers::lemma_order(lo, v, v);
    numbers::lemma_order(v, hi, hi);
    numbers::lemma_order(v, lo, v);
    numbers::lemma_order(hi, v, hi);
}

/// Every number comes to lie within finite bounds that hold the default.
proof fn lemma_bounded_is_within(v: F32, lo: F32, hi: F32, default: F32)
    requires
        within(default, lo, hi),
        lo.is_finite(),
        hi.is_finite(),
        lo.le(hi),
    ensures
        within(bounded(v, lo, hi, default), lo, hi),
{
    reveal(F32::spec_clamp);
    reveal(F32::spec_is_finite);
    reveal(F32::spec_le);
    reveal(F32::spec_lt);
    reveal(F32::spec_same);
}

/// A number clamped to finite bounds lies within them.
pub proof fn lemma_clamp_within(v: F32, lo: F32, hi: F32)
    requires
        !v.is_nan(),
        lo.is_finite(),
        hi.is_finite(),
        lo.le(hi),
    ensures
        within(v.clamp(lo, hi), lo, hi),
{
    reveal(F32::spec_clamp);
    reveal(F32::spec_is_finite);
    reveal(F32::spec_is_nan);
    reveal(F32::spec_le);
    reveal(F32::spec_lt);
    reveal(F32::spec_same);
}

/// The number that some bits stand for, as an integer that orders them.
pub open spec fn rank_of(bits: u32) -> int {
    if bits < 0x8000_0000 {
        bits as int
    } else {
        0x8000_0000 - bits
    }
}

/// Bits of finite numbers are ordered as their ranks.
pub proof fn lemma_rank(a: u32, b: u32)
    requires
        -0x7f80_0000 < rank_of(a) <= rank_of(b) < 0x7f80_0000,
    ensures
        F32::of(a).le(F32::of(b)),
        F32::of(a).is_finite(),
        F32::of(b).is_finite(),
{
    reveal(F32::spec_is_finite);
    reveal(F32::spec_le);
    reveal(F32::spec_lt);
    reveal(F32::spec_same);
}

/// A default between two bounds.
proof fn lemma_default(lo: u32, hi: u32, default: u32)
    requires
        -0x7f80_0000 < rank_of(lo) <= rank_of(default) <= rank_of(hi) < 0x7f80_0000,
    ensures
        within(F32::of(default), F32::of(lo), F32::of(hi)),
        F32::of(lo).is_finite(),
        F32::of(hi).is_finite(),
        F32::of(lo).le(F32::of(hi)),
{
    lemma_rank(lo, default);
    lemma_rank(default, hi);
    lemma_rank(lo, hi);
}

/// A field brought within constant bounds that hold its default.
proof fn lemma_field(v: F32, lo: u32, hi: u32, default: u32)
    requires
        -0x7f80_0000 < rank_of(lo) <= rank_of(default) <= rank_of(hi) < 0x7f80_0000,
    ensures
        within(
            bounded(v, F32::of(lo), F32::of(hi), F32::of(default)),
            F32::of(lo),
            F32::of(hi),
        ),
        within(v, F32::of(lo), F32::of(hi)) ==> bounded(
            v,
            F32::of(lo),
            F32::of(hi),
            F32::of(default),
        ) == v,
{
    lemma_default(lo, hi, default);
    lemma_bounded_is_within(v, F32::of(lo), F32::of(hi), F32::of(default));
    if within(v, F32::of(lo), F32::of(hi)) {
        lemma_within_is_kept(v, F32::of(lo), F32::of(hi), F32::of(default));
    }
}

/// The longest beginning of a text whose encoding has at most `max` bytes.
pub open spec fn trimmed(s: Seq<char>, max: int) -> Seq<char>
    decreases s.len(),
{
    if s.len() == 0 || encode_utf8(s).len() <= max {
        s
    } else {
        trimmed(s.drop_last(), max)
    }
}

/// The encoding of two texts, one behind the other.
pub proof fn lemma_encode_joins(a: Seq<char>, b: Seq<char>)
    ensures
        encode_utf8(a + b) == encode_utf8(a) + encode_utf8(b),
    decreases a.len(),
{
    if a.len() == 0 {
        assert(a + b =~= b);
        assert(encode_utf8(a) + encode_utf8(b) =~= encode_utf8(b));
    } else {
        lemma_encode_joins(a.drop_first(), b);
        assert((a + b).drop_first() =~= a.drop_first() + b);
        assert(encode_utf8(a + b) =~= encode_utf8(a) + encode_utf8(b));
    }
}

/// A beginning of a text ends on a boundary of the text's encoding.
proof fn lemma_prefix_boundary(s: Seq<char>, k: int)
    requires
        0 <= k <= s.len(),
    ensures
        is_char_boundary(encode_utf8(s), encode_utf8(s.take(k)).len() as int),
        encode_utf8(s.take(k)).len() <= encode_utf8(s).len(),
    decreases s.len(),
{
    encode_utf8_valid_utf8(s);
    if k == 0 {
        assert(s.take(0) =~= Seq::empty());
    } else {
        let bytes: Seq<u8> = encode_utf8(s);
        encode_utf8_first_scalar(s);
        lemma_prefix_boundary(s.drop_first(), k - 1);
        assert(s.take(k).drop_first() =~= s.drop_first().take(k - 1));
        assert(s.take(k)[0] == s[0]);
        assert(pop_first_scalar(bytes) =~= encode_utf8(s.drop_first()));
        assert(encode_utf8(s.take(k)).len() == encode_scalar(s[0] as u32).len() + encode_utf8(
            s.drop_first().take(k - 1),
        ).len());
    }
}

/// A text with the encoding's first bytes, where they end on a boundary and
/// no later boundary is allowed, is the trimmed text.
proof fn lemma_trimmed(s: Seq<char>, head: Seq<char>, end: int, max: int)
    requires
        is_char_boundary(encode_utf8(s), end),
        0 <= end <= encode_utf8(s).len(),
        encode_utf8(head) == encode_utf8(s).subrange(0, end),
        end <= max < encode_utf8(s).len(),
        forall|i: int|
            end < i <= max ==> !#[trigger] is_char_boundary(encode_utf8(s), i),
    ensures
        trimmed(s, max) == head,
{
    let bytes: Seq<u8> = encode_utf8(s);
    encode_utf8_valid_utf8(s);
    valid_utf8_split(bytes, end);
    decode_utf8_split(bytes, end);
    encode_utf8_decode_utf8(s);
    encode_utf8_decode_utf8(head);
    let tail: Seq<char> = decode_utf8(bytes.subrange(end, bytes.len() as int));
    assert(s == head + tail);
    let n: int = head.len() as int;
    assert(s.take(n) =~= head);
    assert(s.take(s.len() as int) =~= s);
    lemma_trims_down(s, head, s.len() as int, max);
}

proof fn lemma_trims_down(s: Seq<char>, head: Seq<char>, k: int, max: int)
    requires
        head.len() <= k <= s.len(),
        s.take(head.len() as int) == head,
        encode_utf8(head).len() <= max,
        forall|i: int|
            encode_utf8(head).len() < i <= max ==> !#[trigger] is_char_boundary(encode_utf8(s), i),
    ensures
        trimmed(s.take(k), max) == head,
    decreases k,
{
    if k > head.len() {
        let t: Seq<char> = s.take(k);
        let more: Seq<char> = s.subrange(head.len() as int, k);
        assert(t =~= head + more);
        lemma_encode_joins(head, more);
        lemma_prefix_boundary(s, k);
        assert(encode_utf8(more).len() > 0) by {
            encode_utf8_first_scalar(more);
        }
        assert(t.drop_last() =~= s.take(k - 1));
        lemma_trims_down(s, head, k - 1, max);
    }
}

/// A trimmed text is short enough, and trimming it again changes nothing.
pub proof fn lemma_trimmed_fits(s: Seq<char>, max: int)
    requires
        max >= 0,
    ensures
        encode_utf8(trimmed(s, max)).len() <= max,
        encode_utf8(s).len() <= max ==> trimmed(s, max) == s,
    decreases s.len(),
{
    if s.len() > 0 && encode_utf8(s).len() > max {
        lemma_trimmed_fits(s.drop_last(), max);
    }
}

/// Trims a text to at most `max_bytes` bytes without splitting a character.
pub fn truncate_on_char_boundary(s: &mut String, max_bytes: usize)
    ensures
        final(s)@ == trimmed(old(s)@, max_bytes as int),
{
    let text: &str = s.as_str();
    let ghost chars: Seq<char> = s@;
    let ghost bytes: Seq<u8> = encode_utf8(chars);
    proof {
        encode_utf8_valid_utf8(chars);
        is_char_boundary_start_end_of_seq(bytes);
    }
    if text.as_bytes().len() <= max_bytes {
        return ;
    }
    let mut end: usize = max_bytes;
    while end > 0 && !text.is_char_boundary(end)
        invariant
            end <= max_bytes,
            text@ == chars,
            bytes == encode_utf8(chars),
            max_bytes < bytes.len(),
            forall|i: int| end < i <= max_bytes ==> !#[trigger] is_char_boundary(bytes, i),
        decreases end,
    {
        end = end - 1;
    }
    let (head, _tail): (&str, &str) = text.split_at(end);
    proof {
        lemma_trimmed(chars, head@, end as int, max_bytes as int);
    }
    let kept: String = head.to_owned();
    *s = kept;
}

/// The first elements of a list, as many as are allowed.
pub open spec fn capped<A>(s: Seq<A>, max: int) -> Seq<A> {
    if s.len() <= max {
        s
    } else {
        s.take(max)
    }
}

impl ClampToEnvelope for NodeKind {
    open spec fn inside(v: NodeKind, limits: Envelope) -> bool {
        match v {
            NodeKind::Sine(n) => {
                &&& within(n.freq_hz, F32::of(0), F32::of(MAX_HZ))
                &&& within(n.phase_offset, F32::of(MINUS_ONE), F32::of(ONE))
                &&& within(n.amplitude, F32::of(MIN_AMPLITUDE), F32::of(MAX_AMPLITUDE))
            },
            NodeKind::Square(n) => {
                &&& within(n.freq_hz, F32::of(0), F32::of(MAX_HZ))
                &&& within(n.duty, F32::of(0), F32::of(ONE))
                &&& within(n.amplitude, F32::of(MIN_AMPLITUDE), F32::of(MAX_AMPLITUDE))
            },
            NodeKind::Sawtooth(n) => {
                &&& within(n.freq_hz, F32::of(0), F32::of(MAX_HZ))
                &&& within(n.amplitude, F32::of(MIN_AMPLITUDE), F32::of(MAX_AMPLITUDE))
            },
            NodeKind::Triangle(n) => {
                &&& within(n.freq_hz, F32::of(0), F32::of(MAX_HZ))
                &&& within(n.amplitude, F32::of(MIN_AMPLITUDE), F32::of(MAX_AMPLITUDE))
            },
            NodeKind::WhiteNoise(n) => {
                &&& within(n.amplitude, F32::of(MIN_AMPLITUDE), F32::of(MAX_AMPLITUDE))
            },
            NodeKind::PinkNoise(n) => {
                &&& within(n.amplitude, F32::of(MIN_AMPLITUDE), F32::of(MAX_AMPLITUDE))
            },
            NodeKind::BrownNoise(n) => {
                &&& within(n.amplitude, F32::of(MIN_AMPLITUDE), F32::of(MAX_AMPLITUDE))
            },
            NodeKind::Adsr(n) => {
                &&& within(n.attack_s, F32::of(0), F32::of(MAX_STAGE_S))
                &&& within(n.decay_s, F32::of(0), F32::of(MAX_STAGE_S))
                &&& within(n.sustain_level, F32::of(0), F32::of(ONE))
                &&& within(n.release_s, F32::of(0), F32::of(MAX_STAGE_S))
            },
            NodeKind::BiquadLowpass(n) => {
                &&& within(n.cutoff_hz, F32::of(ONE), F32::of(MAX_HZ))
                &&& within(n.q, F32::of(MIN_Q), F32::of(MAX_Q))
            },
            NodeKind::BiquadHighpass(n) => {
                &&& within(n.cutoff_hz, F32::of(ONE), F32::of(MAX_HZ))
                &&& within(n.q, F32::of(MIN_Q), F32::of(MAX_Q))
            },
            NodeKind::BiquadBandpass(n) => {
                &&& within(n.center_hz, F32::of(ONE), F32::of(MAX_HZ))
                &&& within(n.q, F32::of(MIN_Q), F32::of(MAX_Q))
            },
            NodeKind::Lfo(n) => {
                &&& within(n.rate_hz, F32::of(0), F32::of(MAX_LFO_HZ))
                &&& within(n.depth, F32::of(MIN_LFO_LEVEL), F32::of(MAX_LFO_LEVEL))
                &&& within(n.offset, F32::of(MIN_LFO_LEVEL), F32::of(MAX_LFO_LEVEL))
            },
            NodeKind::Mix(n) => {
                &&& within(n.gain, F32::of(MIN_GAIN), F32::of(MAX_GAIN))
            },
            NodeKind::Gain(n) => {
                &&& within(n.gain, F32::of(MIN_GAIN), F32::of(MAX_GAIN))
            },
            NodeKind::Chorus(n) => {
                &&& within(n.rate_hz, F32::of(0), F32::of(MAX_SWEEP_HZ))
                &&& within(n.depth_ms, F32::of(0), F32::of(MAX_DELAY_MS))
                &&& within(n.base_delay_ms, F32::of(0), F32::of(MAX_DELAY_MS))
                &&& within(n.feedback, F32::of(0), F32::of(MAX_FEEDBACK))
                &&& within(n.mix, F32::of(0), F32::of(ONE))
            },
            NodeKind::Reverb(n) => {
                &&& within(n.room_size, F32::of(0), F32::of(ONE))
                &&& within(n.damping, F32::of(0), F32::of(ONE))
                &&& within(n.mix, F32::of(0), F32::of(ONE))
            },
            _ => true,
        }
    }

    open spec fn clamped(v: NodeKind, limits: Envelope) -> NodeKind {
        match v {
            NodeKind::Sine(n) => NodeKind::Sine(
                SineOsc {
                    freq_hz: bounded(n.freq_hz, F32::of(0), F32::of(MAX_HZ), F32::of(CONCERT_PITCH)),
                    phase_offset: bounded(n.phase_offset, F32::of(MINUS_ONE), F32::of(ONE), F32::of(0)),
                    amplitude: bounded(n.amplitude, F32::of(MIN_AMPLITUDE), F32::of(MAX_AMPLITUDE), F32::of(ONE)),
                },
            ),
            NodeKind::Square(n) => NodeKind::Square(
                SquareOsc {
                    freq_hz: bounded(n.freq_hz, F32::of(0), F32::of(MAX_HZ), F32::of(CONCERT_PITCH)),
                    duty: bounded(n.duty, F32::of(0), F32::of(ONE), F32::of(HALF)),
                    amplitude: bounded(n.amplitude, F32::of(MIN_AMPLITUDE), F32::of(MAX_AMPLITUDE), F32::of(ONE)),
                    ..n
                },
            ),
            NodeKind::Sawtooth(n) => NodeKind::Sawtooth(
                SawtoothOsc {
                    freq_hz: bounded(n.freq_hz, F32::of(0), F32::of(MAX_HZ), F32::of(CONCERT_PITCH)),
                    amplitude: bounded(n.amplitude, F32::of(MIN_AMPLITUDE), F32::of(MAX_AMPLITUDE), F32::of(ONE)),
                    ..n
                },
            ),
            NodeKind::Triangle(n) => NodeKind::Triangle(
                TriangleOsc {
                    freq_hz: bounded(n.freq_hz, F32::of(0), F32::of(MAX_HZ), F32::of(CONCERT_PITCH)),
                    amplitude: bounded(n.amplitude, F32::of(MIN_AMPLITUDE), F32::of(MAX_AMPLITUDE), F32::of(ONE)),
                    ..n
                },
            ),
            NodeKind::WhiteNoise(n) => NodeKind::WhiteNoise(
                WhiteNoise {
                    amplitude: bounded(n.amplitude, F32::of(MIN_AMPLITUDE), F32::of(MAX_AMPLITUDE), F32::of(HALF)),
                },
            ),
            NodeKind::PinkNoise(n) => NodeKind::PinkNoise(
                PinkNoise {
                    amplitude: bounded(n.amplitude, F32::of(MIN_AMPLITUDE), F32::of(MAX_AMPLITUDE), F32::of(HALF)),
                },
            ),
            NodeKind::BrownNoise(n) => NodeKind::BrownNoise(
                BrownNoise {
                    amplitude: bounded(n.amplitude, F32::of(MIN_AMPLITUDE), F32::of(MAX_AMPLITUDE), F32::of(HALF)),
                },
            ),
            NodeKind::Adsr(n) => NodeKind::Adsr(
                AdsrEnvelope {
                    attack_s: bounded(n.attack_s, F32::of(0), F32::of(MAX_STAGE_S), F32::of(DEFAULT_ATTACK)),
                    decay_s: bounded(n.decay_s, F32::of(0), F32::of(MAX_STAGE_S), F32::of(DEFAULT_DECAY)),
                    sustain_level: bounded(n.sustain_level, F32::of(0), F32::of(ONE), F32::of(DEFAULT_SUSTAIN)),
                    release_s: bounded(n.release_s, F32::of(0), F32::of(MAX_STAGE_S), F32::of(DEFAULT_RELEASE)),
                    ..n
                },
            ),
            NodeKind::BiquadLowpass(n) => NodeKind::BiquadLowpass(
                BiquadLowpass {
                    cutoff_hz: bounded(n.cutoff_hz, F32::of(ONE), F32::of(MAX_HZ), F32::of(KILOHERTZ)),
                    q: bounded(n.q, F32::of(MIN_Q), F32::of(MAX_Q), F32::of(BUTTERWORTH)),
                },
            ),
            NodeKind::BiquadHighpass(n) => NodeKind::BiquadHighpass(
                BiquadHighpass {
                    cutoff_hz: bounded(n.cutoff_hz, F32::of(ONE), F32::of(MAX_HZ), F32::of(KILOHERTZ)),
                    q: bounded(n.q, F32::of(MIN_Q), F32::of(MAX_Q), F32::of(BUTTERWORTH)),
                },
            ),
            NodeKind::BiquadBandpass(n) => NodeKind::BiquadBandpass(
                BiquadBandpass {
                    center_hz: bounded(n.center_hz, F32::of(ONE), F32::of(MAX_HZ), F32::of(KILOHERTZ)),
                    q: bounded(n.q, F32::of(MIN_Q), F32::of(MAX_Q), F32::of(ONE)),
                },
            ),
            NodeKind::Lfo(n) => NodeKind::Lfo(
                Lfo {
                    rate_hz: bounded(n.rate_hz, F32::of(0), F32::of(MAX_LFO_HZ), F32::of(ONE)),
                    depth: bounded(n.depth, F32::of(MIN_LFO_LEVEL), F32::of(MAX_LFO_LEVEL), F32::of(ONE)),
                    offset: bounded(n.offset, F32::of(MIN_LFO_LEVEL), F32::of(MAX_LFO_LEVEL), F32::of(0)),
                    ..n
                },
            ),
            NodeKind::Mix(n) => NodeKind::Mix(
                Mix {
                    gain: bounded(n.gain, F32::of(MIN_GAIN), F32::of(MAX_GAIN), F32::of(ONE)),
                },
            ),
            NodeKind::Gain(n) => NodeKind::Gain(
                Gain {
                    gain: bounded(n.gain, F32::of(MIN_GAIN), F32::of(MAX_GAIN), F32::of(ONE)),
                },
            ),
            NodeKind::Chorus(n) => NodeKind::Chorus(
                Chorus {
                    rate_hz: bounded(n.rate_hz, F32::of(0), F32::of(MAX_SWEEP_HZ), F32::of(DEFAULT_RATE)),
                    depth_ms: bounded(n.depth_ms, F32::of(0), F32::of(MAX_DELAY_MS), F32::of(TWO)),
                    base_delay_ms: bounded(n.base_delay_ms, F32::of(0), F32::of(MAX_DELAY_MS), F32::of(DEFAULT_DELAY)),
                    feedback: bounded(n.feedback, F32::of(0), F32::of(MAX_FEEDBACK), F32::of(0)),
                    mix: bounded(n.mix, F32::of(0), F32::of(ONE), F32::of(HALF)),
                },
            ),
            NodeKind::Reverb(n) => NodeKind::Reverb(
                Reverb {
                    room_size: bounded(n.room_size, F32::of(0), F32::of(ONE), F32::of(HALF)),
                    damping: bounded(n.damping, F32::of(0), F32::of(ONE), F32::of(HALF)),
                    mix: bounded(n.mix, F32::of(0), F32::of(ONE), F32::of(DEFAULT_MIX)),
                },
            ),
            _ => v,
        }
    }

    proof fn law_inside_is_kept(v: NodeKind, limits: Envelope) {
        lemma_kind(v, limits);
    }

    proof fn law_clamped_is_inside(v: NodeKind, limits: Envelope) {
        lemma_kind(v, limits);
    }

    fn clamp_to_envelope(&mut self, limits: &Envelope) {
        proof {
            lemma_rank(0, MAX_DELAY_MS);
            lemma_rank(0, MAX_FEEDBACK);
            lemma_rank(0, MAX_HZ);
            lemma_rank(0, MAX_LFO_HZ);
            lemma_rank(0, MAX_STAGE_S);
            lemma_rank(0, MAX_SWEEP_HZ);
            lemma_rank(0, ONE);
            lemma_rank(MINUS_ONE, ONE);
            lemma_rank(MIN_AMPLITUDE, MAX_AMPLITUDE);
            lemma_rank(MIN_GAIN, MAX_GAIN);
            lemma_rank(MIN_LFO_LEVEL, MAX_LFO_LEVEL);
            lemma_rank(MIN_Q, MAX_Q);
            lemma_rank(ONE, MAX_HZ);
        }
        *self = match *self {
            NodeKind::Sine(n) => NodeKind::Sine(
                SineOsc {
                    freq_hz: clamp_finite(n.freq_hz, F32::of(0), F32::of(MAX_HZ), F32::of(CONCERT_PITCH)),
                    phase_offset: clamp_finite(n.phase_offset, F32::of(MINUS_ONE), F32::of(ONE), F32::of(0)),
                    amplitude: clamp_finite(n.amplitude, F32::of(MIN_AMPLITUDE), F32::of(MAX_AMPLITUDE), F32::of(ONE)),
                },
            ),
            NodeKind::Square(n) => NodeKind::Square(
                SquareOsc {
                    freq_hz: clamp_finite(n.freq_hz, F32::of(0), F32::of(MAX_HZ), F32::of(CONCERT_PITCH)),
                    duty: clamp_finite(n.duty, F32::of(0), F32::of(ONE), F32::of(HALF)),
                    amplitude: clamp_finite(n.amplitude, F32::of(MIN_AMPLITUDE), F32::of(MAX_AMPLITUDE), F32::of(ONE)),
                    ..n
                },
            ),
            NodeKind::Sawtooth(n) => NodeKind::Sawtooth(
                SawtoothOsc {
                    freq_hz: clamp_finite(n.freq_hz, F32::of(0), F32::of(MAX_HZ), F32::of(CONCERT_PITCH)),
                    amplitude: clamp_finite(n.amplitude, F32::of(MIN_AMPLITUDE), F32::of(MAX_AMPLITUDE), F32::of(ONE)),
                    ..n
                },
            ),
            NodeKind::Triangle(n) => NodeKind::Triangle(
                TriangleOsc {
                    freq_hz: clamp_finite(n.freq_hz, F32::of(0), F32::of(MAX_HZ), F32::of(CONCERT_PITCH)),
                    amplitude: clamp_finite(n.amplitude, F32::of(MIN_AMPLITUDE), F32::of(MAX_AMPLITUDE), F32::of(ONE)),
                    ..n
                },
            ),
            NodeKind::WhiteNoise(n) => NodeKind::WhiteNoise(
                WhiteNoise {
                    amplitude: clamp_finite(n.amplitude, F32::of(MIN_AMPLITUDE), F32::of(MAX_AMPLITUDE), F32::of(HALF)),
                },
            ),
            NodeKind::PinkNoise(n) => NodeKind::PinkNoise(
                PinkNoise {
                    amplitude: clamp_finite(n.amplitude, F32::of(MIN_AMPLITUDE), F32::of(MAX_AMPLITUDE), F32::of(HALF)),
                },
            ),
            NodeKind::BrownNoise(n) => NodeKind::BrownNoise(
                BrownNoise {
                    amplitude: clamp_finite(n.amplitude, F32::of(MIN_AMPLITUDE), F32::of(MAX_AMPLITUDE), F32::of(HALF)),
                },
            ),
            NodeKind::Adsr(n) => NodeKind::Adsr(
                AdsrEnvelope {
                    attack_s: clamp_finite(n.attack_s, F32::of(0), F32::of(MAX_STAGE_S), F32::of(DEFAULT_ATTACK)),
                    decay_s: clamp_finite(n.decay_s, F32::of(0), F32::of(MAX_STAGE_S), F32::of(DEFAULT_DECAY)),
                    sustain_level: clamp_finite(n.sustain_level, F32::of(0), F32::of(ONE), F32::of(DEFAULT_SUSTAIN)),
                    release_s: clamp_finite(n.release_s, F32::of(0), F32::of(MAX_STAGE_S), F32::of(DEFAULT_RELEASE)),
                    ..n
                },
            ),
            NodeKind::BiquadLowpass(n) => NodeKind::BiquadLowpass(
                BiquadLowpass {
                    cutoff_hz: clamp_finite(n.cutoff_hz, F32::of(ONE), F32::of(MAX_HZ), F32::of(KILOHERTZ)),
                    q: clamp_finite(n.q, F32::of(MIN_Q), F32::of(MAX_Q), F32::of(BUTTERWORTH)),
                },
            ),
            NodeKind::BiquadHighpass(n) => NodeKind::BiquadHighpass(
                BiquadHighpass {
                    cutoff_hz: clamp_finite(n.cutoff_hz, F32::of(ONE), F32::of(MAX_HZ), F32::of(KILOHERTZ)),
                    q: clamp_finite(n.q, F32::of(MIN_Q), F32::of(MAX_Q), F32::of(BUTTERWORTH)),
                },
            ),
            NodeKind::BiquadBandpass(n) => NodeKind::BiquadBandpass(
                BiquadBandpass {
                    center_hz: clamp_finite(n.center_hz, F32::of(ONE), F32::of(MAX_HZ), F32::of(KILOHERTZ)),
                    q: clamp_finite(n.q, F32::of(MIN_Q), F32::of(MAX_Q), F32::of(ONE)),
                },
            ),
            NodeKind::Lfo(n) => NodeKind::Lfo(
                Lfo {
                    rate_hz: clamp_finite(n.rate_hz, F32::of(0), F32::of(MAX_LFO_HZ), F32::of(ONE)),
                    depth: clamp_finite(n.depth, F32::of(MIN_LFO_LEVEL), F32::of(MAX_LFO_LEVEL), F32::of(ONE)),
                    offset: clamp_finite(n.offset, F32::of(MIN_LFO_LEVEL), F32::of(MAX_LFO_LEVEL), F32::of(0)),
                    ..n
                },
            ),
            NodeKind::Mix(n) => NodeKind::Mix(
                Mix {
                    gain: clamp_finite(n.gain, F32::of(MIN_GAIN), F32::of(MAX_GAIN), F32::of(ONE)),
                },
            ),
            NodeKind::Gain(n) => NodeKind::Gain(
                Gain {
                    gain: clamp_finite(n.gain, F32::of(MIN_GAIN), F32::of(MAX_GAIN), F32::of(ONE)),
                },
            ),
            NodeKind::Chorus(n) => NodeKind::Chorus(
                Chorus {
                    rate_hz: clamp_finite(n.rate_hz, F32::of(0), F32::of(MAX_SWEEP_HZ), F32::of(DEFAULT_RATE)),
                    depth_ms: clamp_finite(n.depth_ms, F32::of(0), F32::of(MAX_DELAY_MS), F32::of(TWO)),
                    base_delay_ms: clamp_finite(n.base_delay_ms, F32::of(0), F32::of(MAX_DELAY_MS), F32::of(DEFAULT_DELAY)),
                    feedback: clamp_finite(n.feedback, F32::of(0), F32::of(MAX_FEEDBACK), F32::of(0)),
                    mix: clamp_finite(n.mix, F32::of(0), F32::of(ONE), F32::of(HALF)),
                },
            ),
            NodeKind::Reverb(n) => NodeKind::Reverb(
                Reverb {
                    room_size: clamp_finite(n.room_size, F32::of(0), F32::of(ONE), F32::of(HALF)),
                    damping: clamp_finite(n.damping, F32::of(0), F32::of(ONE), F32::of(HALF)),
                    mix: clamp_finite(n.mix, F32::of(0), F32::of(ONE), F32::of(DEFAULT_MIX)),
                },
            ),
            other => other,
        };
    }
}

/// Every field of a node comes to lie within its bounds, and is left as it is
/// where it lies there.
proof fn lemma_kind(v: NodeKind, limits: Envelope)
    ensures
        NodeKind::inside(NodeKind::clamped(v, limits), limits),
        NodeKind::inside(v, limits) ==> NodeKind::clamped(v, limits) == v,
{
    match v {
        NodeKind::Sine(n) => {
            lemma_field(n.freq_hz, 0, MAX_HZ, CONCERT_PITCH);
            lemma_field(n.phase_offset, MINUS_ONE, ONE, 0);
            lemma_field(n.amplitude, MIN_AMPLITUDE, MAX_AMPLITUDE, ONE);
        },
        NodeKind::Square(n) => {
            lemma_field(n.freq_hz, 0, MAX_HZ, CONCERT_PITCH);
            lemma_field(n.duty, 0, ONE, HALF);
            lemma_field(n.amplitude, MIN_AMPLITUDE, MAX_AMPLITUDE, ONE);
        },
        NodeKind::Sawtooth(n) => {
            lemma_field(n.freq_hz, 0, MAX_HZ, CONCERT_PITCH);
            lemma_field(n.amplitude, MIN_AMPLITUDE, MAX_AMPLITUDE, ONE);
        },
        NodeKind::Triangle(n) => {
            lemma_field(n.freq_hz, 0, MAX_HZ, CONCERT_PITCH);
            lemma_field(n.amplitude, MIN_AMPLITUDE, MAX_AMPLITUDE, ONE);
        },
        NodeKind::WhiteNoise(n) => {
            lemma_field(n.amplitude, MIN_AMPLITUDE, MAX_AMPLITUDE, HALF);
        },
        NodeKind::PinkNoise(n) => {
            lemma_field(n.amplitude, MIN_AMPLITUDE, MAX_AMPLITUDE, HALF);
        },
        NodeKind::BrownNoise(n) => {
            lemma_field(n.amplitude, MIN_AMPLITUDE, MAX_AMPLITUDE, HALF);
        },
        NodeKind::Adsr(n) => {
            lemma_field(n.attack_s, 0, MAX_STAGE_S, DEFAULT_ATTACK);
            lemma_field(n.decay_s, 0, MAX_STAGE_S, DEFAULT_DECAY);
            lemma_field(n.sustain_level, 0, ONE, DEFAULT_SUSTAIN);
            lemma_field(n.release_s, 0, MAX_STAGE_S, DEFAULT_RELEASE);
        },
        NodeKind::BiquadLowpass(n) => {
            lemma_field(n.cutoff_hz, ONE, MAX_HZ, KILOHERTZ);
            lemma_field(n.q, MIN_Q, MAX_Q, BUTTERWORTH);
        },
        NodeKind::BiquadHighpass(n) => {
            lemma_field(n.cutoff_hz, ONE, MAX_HZ, KILOHERTZ);
            lemma_field(n.q, MIN_Q, MAX_Q, BUTTERWORTH);
        },
        NodeKind::BiquadBandpass(n) => {
            lemma_field(n.center_hz, ONE, MAX_HZ, KILOHERTZ);
            lemma_field(n.q, MIN_Q, MAX_Q, ONE);
        },
        NodeKind::Lfo(n) => {
            lemma_field(n.rate_hz, 0, MAX_LFO_HZ, ONE);
            lemma_field(n.depth, MIN_LFO_LEVEL, MAX_LFO_LEVEL, ONE);
            lemma_field(n.offset, MIN_LFO_LEVEL, MAX_LFO_LEVEL, 0);
        },
        NodeKind::Mix(n) => {
            lemma_field(n.gain, MIN_GAIN, MAX_GAIN, ONE);
        },
        NodeKind::Gain(n) => {
            lemma_field(n.gain, MIN_GAIN, MAX_GAIN, ONE);
        },
        NodeKind::Chorus(n) => {
            lemma_field(n.rate_hz, 0, MAX_SWEEP_HZ, DEFAULT_RATE);
            lemma_field(n.depth_ms, 0, MAX_DELAY_MS, TWO);
            lemma_field(n.base_delay_ms, 0, MAX_DELAY_MS, DEFAULT_DELAY);
            lemma_field(n.feedback, 0, MAX_FEEDBACK, 0);
            lemma_field(n.mix, 0, ONE, HALF);
        },
        NodeKind::Reverb(n) => {
            lemma_field(n.room_size, 0, ONE, HALF);
            lemma_field(n.damping, 0, ONE, HALF);
            lemma_field(n.mix, 0, ONE, DEFAULT_MIX);
        },
        _ => {},
    }
}

impl ClampToEnvelope for Connection {
    open spec fn inside(v: Connection, limits: Envelope) -> bool {
        match v {
            Connection::Constant { value } => within(
                value,
                F32::of(MIN_CONNECTION_MAGNITUDE),
                F32::of(MAX_CONNECTION_MAGNITUDE),
            ),
            Connection::Node { amount, .. } => within(
                amount,
                F32::of(MIN_CONNECTION_MAGNITUDE),
                F32::of(MAX_CONNECTION_MAGNITUDE),
            ),
        }
    }

    open spec fn clamped(v: Connection, limits: Envelope) -> Connection {
        match v {
            Connection::Constant { value } => Connection::Constant {
                value: bounded(
                    value,
                    F32::of(MIN_CONNECTION_MAGNITUDE),
                    F32::of(MAX_CONNECTION_MAGNITUDE),
                    F32::of(0),
                ),
            },
            Connection::Node { id, amount } => Connection::Node {
                id,
                amount: bounded(
                    amount,
                    F32::of(MIN_CONNECTION_MAGNITUDE),
                    F32::of(MAX_CONNECTION_MAGNITUDE),
                    F32::of(ONE),
                ),
            },
        }
    }

    proof fn law_inside_is_kept(v: Connection, limits: Envelope) {
        match v {
            Connection::Constant { value } => {
                lemma_field(value, MIN_CONNECTION_MAGNITUDE, MAX_CONNECTION_MAGNITUDE, 0);
            },
            Connection::Node { amount, .. } => {
                lemma_field(amount, MIN_CONNECTION_MAGNITUDE, MAX_CONNECTION_MAGNITUDE, ONE);
            },
        }
    }

    proof fn law_clamped_is_inside(v: Connection, limits: Envelope) {
        match v {
            Connection::Constant { value } => {
                lemma_field(value, MIN_CONNECTION_MAGNITUDE, MAX_CONNECTION_MAGNITUDE, 0);
            },
            Connection::Node { amount, .. } => {
                lemma_field(amount, MIN_CONNECTION_MAGNITUDE, MAX_CONNECTION_MAGNITUDE, ONE);
            },
        }
    }

    fn clamp_to_envelope(&mut self, limits: &Envelope) {
        proof {
            lemma_rank(MIN_CONNECTION_MAGNITUDE, MAX_CONNECTION_MAGNITUDE);
        }
        let low: F32 = F32::of(MIN_CONNECTION_MAGNITUDE);
        let high: F32 = F32::of(MAX_CONNECTION_MAGNITUDE);
        *self = match *self {
            Connection::Constant { value } => Connection::Constant {
                value: clamp_finite(value, low, high, F32::of(0)),
            },
            Connection::Node { id, amount } => Connection::Node {
                id,
                amount: clamp_finite(amount, low, high, F32::of(ONE)),
            },
        };
    }
}

/// The connections of a port brought inside.
pub open spec fn clamped_connections(v: Seq<Connection>, limits: Envelope) -> Seq<Connection> {
    capped(v, limits.max_connections_per_port as int).map_values(
        |c: Connection| Connection::clamped(c, limits),
    )
}

/// The connections of a port lie inside.
pub open spec fn connections_inside(v: Seq<Connection>, limits: Envelope) -> bool {
    &&& v.len() <= limits.max_connections_per_port
    &&& forall|i: int| 0 <= i < v.len() ==> Connection::inside(#[trigger] v[i], limits)
}

proof fn lemma_connections(v: Seq<Connection>, limits: Envelope)
    ensures
        connections_inside(clamped_connections(v, limits), limits),
        connections_inside(v, limits) ==> clamped_connections(v, limits) == v,
{
    let c: Seq<Connection> = clamped_connections(v, limits);
    assert forall|i: int| 0 <= i < c.len() implies Connection::inside(#[trigger] c[i], limits) by {
        Connection::law_clamped_is_inside(v[i], limits);
    }
    if connections_inside(v, limits) {
        assert forall|i: int| 0 <= i < v.len() implies c[i] == v[i] by {
            Connection::law_inside_is_kept(v[i], limits);
        }
        assert(c =~= v);
    }
}

/// A port brought inside.
pub open spec fn clamped_port(v: PortView, limits: Envelope) -> PortView {
    PortView { name: v.name, connections: clamped_connections(v.connections, limits) }
}

/// A node of a graph brought inside.
pub open spec fn clamped_node(v: NodeView, limits: Envelope) -> NodeView {
    NodeView {
        id: v.id,
        kind: NodeKind::clamped(v.kind, limits),
        inputs: v.inputs.map_values(|p: PortView| clamped_port(p, limits)),
    }
}

/// A node of a graph lies inside.
pub open spec fn node_inside(v: NodeView, limits: Envelope) -> bool {
    &&& NodeKind::inside(v.kind, limits)
    &&& forall|i: int|
        0 <= i < v.inputs.len() ==> connections_inside(
            (#[trigger] v.inputs[i]).connections,
            limits,
        )
}

proof fn lemma_node(v: NodeView, limits: Envelope)
    ensures
        node_inside(clamped_node(v, limits), limits),
        node_inside(v, limits) ==> clamped_node(v, limits) == v,
{
    lemma_kind(v.kind, limits);
    let c: NodeView = clamped_node(v, limits);
    assert forall|i: int| 0 <= i < c.inputs.len() implies connections_inside(
        (#[trigger] c.inputs[i]).connections,
        limits,
    ) by {
        lemma_connections(v.inputs[i].connections, limits);
    }
    if node_inside(v, limits) {
        assert forall|i: int| 0 <= i < v.inputs.len() implies c.inputs[i] == v.inputs[i] by {
            lemma_connections(v.inputs[i].connections, limits);
        }
        assert(c.inputs =~= v.inputs);
    }
}

/// Brings the connections of a port inside.
fn clamp_connections(list: &mut Vec<Connection>, limits: &Envelope)
    ensures
        final(list)@ == clamped_connections(old(list)@, *limits),
{
    let ghost before: Seq<Connection> = list@;
    list.truncate(limits.max_connections_per_port);
    let ghost kept: Seq<Connection> = list@;
    assert(kept =~= capped(before, limits.max_connections_per_port as int));
    let mut i: usize = 0;
    while i < list.len()
        invariant
            i <= list.len(),
            list.len() == kept.len(),
            forall|j: int|
                0 <= j < list.len() ==> #[trigger] list[j] == (if j < i {
                    Connection::clamped(kept[j], *limits)
                } else {
                    kept[j]
                }),
        decreases list.len() - i,
    {
        let mut c: Connection = list[i];
        c.clamp_to_envelope(limits);
        list.set(i, c);
        i = i + 1;
    }
    assert(list@ =~= clamped_connections(before, *limits));
}

/// Brings a node of a graph inside.
fn clamp_node(node: &mut GraphNode, limits: &Envelope)
    ensures
        final(node)@ == clamped_node(old(node)@, *limits),
{
    let ghost before: NodeView = node@;
    node.kind.clamp_to_envelope(limits);
    let mut i: usize = 0;
    while i < node.inputs.len()
        invariant
            i <= node.inputs.len(),
            node.inputs.len() == before.inputs.len(),
            node.id == before.id,
            node.kind == NodeKind::clamped(before.kind, *limits),
            forall|j: int|
                0 <= j < node.inputs.len() ==> (#[trigger] node.inputs[j])@ == (if j < i {
                    clamped_port(before.inputs[j], *limits)
                } else {
                    before.inputs[j]
                }),
        decreases node.inputs.len() - i,
    {
        assert(node.inputs[i as int]@ == before.inputs[i as int]);
        clamp_connections(&mut node.inputs[i].connections, limits);
        i = i + 1;
    }
    assert(node@.inputs =~= clamped_node(before, *limits).inputs);
}

impl ClampToEnvelope for NodeGraph {
    open spec fn inside(v: GraphView, limits: Envelope) -> bool {
        &&& v.nodes.len() <= limits.max_nodes
        &&& forall|i: int| 0 <= i < v.nodes.len() ==> node_inside(#[trigger] v.nodes[i], limits)
    }

    open spec fn clamped(v: GraphView, limits: Envelope) -> GraphView {
        GraphView {
            nodes: capped(v.nodes, limits.max_nodes as int).map_values(
                |n: NodeView| clamped_node(n, limits),
            ),
            output: v.output,
        }
    }

    proof fn law_inside_is_kept(v: GraphView, limits: Envelope) {
        let c: GraphView = NodeGraph::clamped(v, limits);
        assert forall|i: int| 0 <= i < v.nodes.len() implies c.nodes[i] == v.nodes[i] by {
            lemma_node(v.nodes[i], limits);
        }
        assert(c.nodes =~= v.nodes);
    }

    proof fn law_clamped_is_inside(v: GraphView, limits: Envelope) {
        let c: GraphView = NodeGraph::clamped(v, limits);
        assert forall|i: int| 0 <= i < c.nodes.len() implies node_inside(
            #[trigger] c.nodes[i],
            limits,
        ) by {
            lemma_node(v.nodes[i], limits);
        }
    }

    fn clamp_to_envelope(&mut self, limits: &Envelope) {
        let ghost before: Seq<NodeView> = self@.nodes;
        self.nodes.truncate(limits.max_nodes);
        let ghost kept: Seq<NodeView> = capped(before, limits.max_nodes as int);
        assert(patch::nodes_view(self.nodes@) =~= kept);
        let mut i: usize = 0;
        while i < self.nodes.len()
            invariant
                i <= self.nodes.len(),
                self.nodes.len() == kept.len(),
                self.output == old(self).output,
                forall|j: int|
                    0 <= j < self.nodes.len() ==> (#[trigger] self.nodes[j])@ == (if j < i {
                        clamped_node(kept[j], *limits)
                    } else {
                        kept[j]
                    }),
            decreases self.nodes.len() - i,
        {
            assert(self.nodes[i as int]@ == kept[i as int]);
            clamp_node(&mut self.nodes[i], limits);
            i = i + 1;
        }
        assert(self@.nodes =~= NodeGraph::clamped(old(self)@, *limits).nodes);
    }
}

impl ClampToEnvelope for AudioPatch {
    open spec fn inside(v: PatchView, limits: Envelope) -> bool {
        NodeGraph::inside(v.graph, limits)
    }

    open spec fn clamped(v: PatchView, limits: Envelope) -> PatchView {
        PatchView { seed: v.seed, graph: NodeGraph::clamped(v.graph, limits) }
    }

    proof fn law_inside_is_kept(v: PatchView, limits: Envelope) {
        NodeGraph::law_inside_is_kept(v.graph, limits);
    }

    proof fn law_clamped_is_inside(v: PatchView, limits: Envelope) {
        NodeGraph::law_clamped_is_inside(v.graph, limits);
    }

    fn clamp_to_envelope(&mut self, limits: &Envelope) {
        self.graph.clamp_to_envelope(limits);
    }
}

impl ClampToEnvelope for Event {
    open spec fn inside(v: EventView, limits: Envelope) -> bool {
        &&& encode_utf8(v.instrument_id).len() <= limits.max_instrument_id_bytes
        &&& within(v.time_beats, F32::of(0), F32::of(MAX_BEATS))
        &&& within(v.pitch_multiplier, F32::of(MIN_PITCH), F32::of(MAX_PITCH))
        &&& within(v.volume, F32::of(0), F32::of(ONE))
        &&& within(v.gate_beats, F32::of(0), F32::of(MAX_BEATS))
        &&& within(v.release_beats, F32::of(0), F32::of(MAX_BEATS))
    }

    open spec fn clamped(v: EventView, limits: Envelope) -> EventView {
        EventView {
            instrument_id: trimmed(v.instrument_id, limits.max_instrument_id_bytes as int),
            time_beats: bounded(v.time_beats, F32::of(0), F32::of(MAX_BEATS), F32::of(0)),
            pitch_multiplier: bounded(v.pitch_multiplier, F32::of(MIN_PITCH), F32::of(MAX_PITCH), F32::of(ONE)),
            volume: bounded(v.volume, F32::of(0), F32::of(ONE), F32::of(ONE)),
            gate_beats: bounded(v.gate_beats, F32::of(0), F32::of(MAX_BEATS), F32::of(ONE)),
            release_beats: bounded(v.release_beats, F32::of(0), F32::of(MAX_BEATS), F32::of(0)),
            pitch_mode: v.pitch_mode,
        }
    }

    proof fn law_inside_is_kept(v: EventView, limits: Envelope) {
        lemma_trimmed_fits(v.instrument_id, limits.max_instrument_id_bytes as int);
        lemma_field(v.time_beats, 0, MAX_BEATS, 0);
        lemma_field(v.pitch_multiplier, MIN_PITCH, MAX_PITCH, ONE);
        lemma_field(v.volume, 0, ONE, ONE);
        lemma_field(v.gate_beats, 0, MAX_BEATS, ONE);
        lemma_field(v.release_beats, 0, MAX_BEATS, 0);
    }

    proof fn law_clamped_is_inside(v: EventView, limits: Envelope) {
        lemma_trimmed_fits(v.instrument_id, limits.max_instrument_id_bytes as int);
        lemma_field(v.time_beats, 0, MAX_BEATS, 0);
        lemma_field(v.pitch_multiplier, MIN_PITCH, MAX_PITCH, ONE);
        lemma_field(v.volume, 0, ONE, ONE);
        lemma_field(v.gate_beats, 0, MAX_BEATS, ONE);
        lemma_field(v.release_beats, 0, MAX_BEATS, 0);
    }

    fn clamp_to_envelope(&mut self, limits: &Envelope) {
        proof {
            lemma_rank(0, MAX_BEATS);
            lemma_rank(0, ONE);
            lemma_rank(MIN_PITCH, MAX_PITCH);
        }
        self.time_beats = clamp_finite(self.time_beats, F32::of(0), F32::of(MAX_BEATS), F32::of(0));
        self.pitch_multiplier = clamp_finite(self.pitch_multiplier, F32::of(MIN_PITCH), F32::of(MAX_PITCH), F32::of(ONE));
        self.volume = clamp_finite(self.volume, F32::of(0), F32::of(ONE), F32::of(ONE));
        self.gate_beats = clamp_finite(self.gate_beats, F32::of(0), F32::of(MAX_BEATS), F32::of(ONE));
        self.release_beats = clamp_finite(self.release_beats, F32::of(0), F32::of(MAX_BEATS), F32::of(0));
        truncate_on_char_boundary(&mut self.instrument_id, limits.max_instrument_id_bytes);
    }
}

impl ClampToEnvelope for Track {
    open spec fn inside(v: TrackView, limits: Envelope) -> bool {
        &&& v.events.len() <= limits.max_track_events
        &&& forall|i: int| 0 <= i < v.events.len() ==> Event::inside(#[trigger] v.events[i], limits)
    }

    open spec fn clamped(v: TrackView, limits: Envelope) -> TrackView {
        TrackView {
            events: capped(v.events, limits.max_track_events as int).map_values(
                |e: EventView| Event::clamped(e, limits),
            ),
        }
    }

    proof fn law_inside_is_kept(v: TrackView, limits: Envelope) {
        let c: TrackView = Track::clamped(v, limits);
        assert forall|i: int| 0 <= i < v.events.len() implies c.events[i] == v.events[i] by {
            Event::law_inside_is_kept(v.events[i], limits);
        }
        assert(c.events =~= v.events);
    }

    proof fn law_clamped_is_inside(v: TrackView, limits: Envelope) {
        let c: TrackView = Track::clamped(v, limits);
        assert forall|i: int| 0 <= i < c.events.len() implies Event::inside(
            #[trigger] c.events[i],
            limits,
        ) by {
            Event::law_clamped_is_inside(v.events[i], limits);
        }
    }

    fn clamp_to_envelope(&mut self, limits: &Envelope) {
        let ghost before: Seq<EventView> = self@.events;
        self.events.truncate(limits.max_track_events);
        let ghost kept: Seq<EventView> = capped(before, limits.max_track_events as int);
        assert(sequence::events_view(self.events@) =~= kept);
        let mut i: usize = 0;
        while i < self.events.len()
            invariant
                i <= self.events.len(),
                self.events.len() == kept.len(),
                forall|j: int|
                    0 <= j < self.events.len() ==> (#[trigger] self.events[j])@ == (if j < i {
                        Event::clamped(kept[j], *limits)
                    } else {
                        kept[j]
                    }),
            decreases self.events.len() - i,
        {
            assert(self.events[i as int]@ == kept[i as int]);
            self.events[i].clamp_to_envelope(limits);
            i = i + 1;
        }
        assert(self@.events =~= Track::clamped(old(self)@, *limits).events);
    }
}

/// An instrument brought inside.
pub open spec fn clamped_instrument(v: InstrumentView, limits: Envelope) -> InstrumentView {
    InstrumentView {
        id: trimmed(v.id, limits.max_instrument_id_bytes as int),
        patch: AudioPatch::clamped(v.patch, limits),
    }
}

/// An instrument lies inside.
pub open spec fn instrument_inside(v: InstrumentView, limits: Envelope) -> bool {
    &&& encode_utf8(v.id).len() <= limits.max_instrument_id_bytes
    &&& AudioPatch::inside(v.patch, limits)
}

proof fn lemma_instrument(v: InstrumentView, limits: Envelope)
    ensures
        instrument_inside(clamped_instrument(v, limits), limits),
        instrument_inside(v, limits) ==> clamped_instrument(v, limits) == v,
{
    lemma_trimmed_fits(v.id, limits.max_instrument_id_bytes as int);
    AudioPatch::law_clamped_is_inside(v.patch, limits);
    if instrument_inside(v, limits) {
        AudioPatch::law_inside_is_kept(v.patch, limits);
    }
}

/// The nearest integer between two bounds.
pub open spec fn clamped_rate(rate: u32) -> u32 {
    if rate < 8_000 {
        8_000
    } else if rate > 192_000 {
        192_000
    } else {
        rate
    }
}

/// The length of a recipe's timeline brought inside.
pub open spec fn clamped_duration(v: RecipeView) -> F32 {
    bounded(v.duration_beats, F32::of(0), F32::of(MAX_BEATS), F32::of(FOUR))
}

/// The upper bound of a recipe's loop: its length, brought inside first.
pub open spec fn loop_limit(duration: F32) -> F32 {
    duration.max(F32::of(0))
}

/// The bounds of a loop hold zero.
proof fn lemma_loop(v: F32, duration: F32)
    requires
        within(duration, F32::of(0), F32::of(MAX_BEATS)),
    ensures
        F32::of(0).le(loop_limit(duration)),
        within(
            bounded(v, F32::of(0), loop_limit(duration), F32::of(0)),
            F32::of(0),
            loop_limit(duration),
        ),
        within(v, F32::of(0), loop_limit(duration)) ==> bounded(
            v,
            F32::of(0),
            loop_limit(duration),
            F32::of(0),
        ) == v,
{
    lemma_rank(0, 0);
    let zero: F32 = F32::of(0);
    let top: F32 = loop_limit(duration);
    numbers::lemma_order(zero, duration, duration);
    numbers::lemma_max_above(duration, zero);
    assert(top.is_finite()) by {
        reveal(F32::spec_max);
    }
    lemma_bounded_is_within(v, zero, top, zero);
    if within(v, zero, top) {
        lemma_within_is_kept(v, zero, top, zero);
    }
}

impl ClampToEnvelope for SequenceRecipe {
    open spec fn inside(v: RecipeView, limits: Envelope) -> bool {
        &&& within(v.bpm, F32::of(ONE), F32::of(MAX_BPM))
        &&& 8_000 <= v.sample_rate <= 192_000
        &&& within(v.duration_beats, F32::of(0), F32::of(MAX_BEATS))
        &&& v.loop_start_beats matches Some(b) ==> within(
            b,
            F32::of(0),
            loop_limit(v.duration_beats),
        )
        &&& within(v.loop_crossfade_beats, F32::of(0), loop_limit(v.duration_beats))
        &&& v.instruments.len() <= limits.max_instruments
        &&& forall|i: int|
            0 <= i < v.instruments.len() ==> instrument_inside(#[trigger] v.instruments[i], limits)
        &&& v.tracks.len() <= limits.max_tracks
        &&& forall|i: int| 0 <= i < v.tracks.len() ==> Track::inside(#[trigger] v.tracks[i], limits)
    }

    open spec fn clamped(v: RecipeView, limits: Envelope) -> RecipeView {
        let duration: F32 = clamped_duration(v);
        RecipeView {
            bpm: bounded(v.bpm, F32::of(ONE), F32::of(MAX_BPM), F32::of(DEFAULT_BPM)),
            sample_rate: clamped_rate(v.sample_rate),
            duration_beats: duration,
            loop_start_beats: match v.loop_start_beats {
                Some(b) => Some(bounded(b, F32::of(0), loop_limit(duration), F32::of(0))),
                None => None,
            },
            loop_crossfade_beats: bounded(
                v.loop_crossfade_beats,
                F32::of(0),
                loop_limit(duration),
                F32::of(0),
            ),
            instruments: capped(v.instruments, limits.max_instruments as int).map_values(
                |i: InstrumentView| clamped_instrument(i, limits),
            ),
            tracks: capped(v.tracks, limits.max_tracks as int).map_values(
                |t: TrackView| Track::clamped(t, limits),
            ),
        }
    }

    proof fn law_inside_is_kept(v: RecipeView, limits: Envelope) {
        let c: RecipeView = SequenceRecipe::clamped(v, limits);
        lemma_field(v.bpm, ONE, MAX_BPM, DEFAULT_BPM);
        lemma_field(v.duration_beats, 0, MAX_BEATS, FOUR);
        lemma_loop(v.loop_crossfade_beats, v.duration_beats);
        if v.loop_start_beats is Some {
            lemma_loop(v.loop_start_beats->0, v.duration_beats);
        }
        assert forall|i: int| 0 <= i < v.instruments.len() implies c.instruments[i]
            == v.instruments[i] by {
            lemma_instrument(v.instruments[i], limits);
        }
        assert(c.instruments =~= v.instruments);
        assert forall|i: int| 0 <= i < v.tracks.len() implies c.tracks[i] == v.tracks[i] by {
            Track::law_inside_is_kept(v.tracks[i], limits);
        }
        assert(c.tracks =~= v.tracks);
    }

    proof fn law_clamped_is_inside(v: RecipeView, limits: Envelope) {
        let c: RecipeView = SequenceRecipe::clamped(v, limits);
        lemma_field(v.bpm, ONE, MAX_BPM, DEFAULT_BPM);
        lemma_field(v.duration_beats, 0, MAX_BEATS, FOUR);
        lemma_loop(v.loop_crossfade_beats, c.duration_beats);
        if v.loop_start_beats is Some {
            lemma_loop(v.loop_start_beats->0, c.duration_beats);
        }
        assert forall|i: int| 0 <= i < c.instruments.len() implies instrument_inside(
            #[trigger] c.instruments[i],
            limits,
        ) by {
            lemma_instrument(v.instruments[i], limits);
        }
        assert forall|i: int| 0 <= i < c.tracks.len() implies Track::inside(
            #[trigger] c.tracks[i],
            limits,
        ) by {
            Track::law_clamped_is_inside(v.tracks[i], limits);
        }
    }

    fn clamp_to_envelope(&mut self, limits: &Envelope) {
        proof {
            lemma_rank(ONE, MAX_BPM);
            lemma_rank(0, MAX_BEATS);
            lemma_field(self.duration_beats, 0, MAX_BEATS, FOUR);
            lemma_loop(self.loop_crossfade_beats, clamped_duration(self@));
        }
        self.bpm = clamp_finite(self.bpm, F32::of(ONE), F32::of(MAX_BPM), F32::of(DEFAULT_BPM));
        if self.sample_rate < 8_000 {
            self.sample_rate = 8_000;
        } else if self.sample_rate > 192_000 {
            self.sample_rate = 192_000;
        }
        self.duration_beats = clamp_finite(
            self.duration_beats,
            F32::of(0),
            F32::of(MAX_BEATS),
            F32::of(FOUR),
        );
        let limit: F32 = self.duration_beats.max(F32::of(0));
        match self.loop_start_beats {
            Some(b) => {
                self.loop_start_beats = Some(clamp_finite(b, F32::of(0), limit, F32::of(0)));
            },
            None => {},
        }
        self.loop_crossfade_beats = clamp_finite(
            self.loop_crossfade_beats,
            F32::of(0),
            limit,
            F32::of(0),
        );
        clamp_instruments(&mut self.instruments, limits);
        clamp_tracks(&mut self.tracks, limits);
    }
}

/// Brings a list of instruments inside.
fn clamp_instruments(list: &mut Vec<Instrument>, limits: &Envelope)
    ensures
        sequence::instruments_view(final(list)@) == capped(
            sequence::instruments_view(old(list)@),
            limits.max_instruments as int,
        ).map_values(|i: InstrumentView| clamped_instrument(i, *limits)),
{
    let ghost before: Seq<InstrumentView> = sequence::instruments_view(list@);
    list.truncate(limits.max_instruments);
    let ghost kept: Seq<InstrumentView> = capped(before, limits.max_instruments as int);
    assert(sequence::instruments_view(list@) =~= kept);
    let mut i: usize = 0;
    while i < list.len()
        invariant
            i <= list.len(),
            list.len() == kept.len(),
            forall|j: int|
                0 <= j < list.len() ==> (#[trigger] list[j])@ == (if j < i {
                    clamped_instrument(kept[j], *limits)
                } else {
                    kept[j]
                }),
        decreases list.len() - i,
    {
        assert(list[i as int]@ == kept[i as int]);
        let one: &mut Instrument = &mut list[i];
        truncate_on_char_boundary(&mut one.id, limits.max_instrument_id_bytes);
        one.patch.clamp_to_envelope(limits);
        i = i + 1;
    }
    assert(sequence::instruments_view(list@) =~= kept.map_values(
        |i: InstrumentView| clamped_instrument(i, *limits),
    ));
}

/// Brings a list of tracks inside.
fn clamp_tracks(list: &mut Vec<Track>, limits: &Envelope)
    ensures
        sequence::tracks_view(final(list)@) == capped(
            sequence::tracks_view(old(list)@),
            limits.max_tracks as int,
        ).map_values(|t: TrackView| Track::clamped(t, *limits)),
{
    let ghost before: Seq<TrackView> = sequence::tracks_view(list@);
    list.truncate(limits.max_tracks);
    let ghost kept: Seq<TrackView> = capped(before, limits.max_tracks as int);
    assert(sequence::tracks_view(list@) =~= kept);
    let mut i: usize = 0;
    while i < list.len()
        invariant
            i <= list.len(),
            list.len() == kept.len(),
            forall|j: int|
                0 <= j < list.len() ==> (#[trigger] list[j])@ == (if j < i {
                    Track::clamped(kept[j], *limits)
                } else {
                    kept[j]
                }),
        decreases list.len() - i,
    {
        assert(list[i as int]@ == kept[i as int]);
        list[i].clamp_to_envelope(limits);
        i = i + 1;
    }
    assert(sequence::tracks_view(list@) =~= kept.map_values(
        |t: TrackView| Track::clamped(t, *limits),
    ));
}

/// The bounds of a recipe's loop follow its length as it is after clamping:
/// a huge length cannot bring a huge loop with it.
pub proof fn law_loop_follows_clamped_duration(v: RecipeView, limits: Envelope)
    ensures
        ({
            let c: RecipeView = SequenceRecipe::clamped(v, limits);
            &&& c.loop_crossfade_beats.le(c.duration_beats)
            &&& c.loop_start_beats matches Some(b) ==> b.le(c.duration_beats)
            &&& c.duration_beats.le(F32::of(MAX_BEATS))
        }),
{
    let c: RecipeView = SequenceRecipe::clamped(v, limits);
    SequenceRecipe::law_clamped_is_inside(v, limits);
    numbers::lemma_max_of_larger(c.duration_beats, F32::of(0));
    numbers::lemma_order(c.loop_crossfade_beats, loop_limit(c.duration_beats), c.duration_beats);
    if c.loop_start_beats is Some {
        numbers::lemma_order(
            c.loop_start_beats->0,
            loop_limit(c.duration_beats),
            c.duration_beats,
        );
    }
}

/// Every kind in its default configuration lies inside.
pub proof fn law_defaults_are_inside(kinds: Seq<NodeKind>, i: int, limits: Envelope)
    requires
        NodeKind::is_roster(kinds),
        0 <= i < kinds.len(),
    ensures
        NodeKind::inside(kinds[i], limits),
{
    lemma_default(0, MAX_DELAY_MS, DEFAULT_DELAY);
    lemma_default(0, MAX_DELAY_MS, TWO);
    lemma_default(0, MAX_FEEDBACK, 0);
    lemma_default(0, MAX_HZ, CONCERT_PITCH);
    lemma_default(0, MAX_LFO_HZ, ONE);
    lemma_default(0, MAX_STAGE_S, DEFAULT_ATTACK);
    lemma_default(0, MAX_STAGE_S, DEFAULT_DECAY);
    lemma_default(0, MAX_STAGE_S, DEFAULT_RELEASE);
    lemma_default(0, MAX_SWEEP_HZ, DEFAULT_RATE);
    lemma_default(0, ONE, DEFAULT_MIX);
    lemma_default(0, ONE, DEFAULT_SUSTAIN);
    lemma_default(0, ONE, HALF);
    lemma_default(MINUS_ONE, ONE, 0);
    lemma_default(MIN_AMPLITUDE, MAX_AMPLITUDE, HALF);
    lemma_default(MIN_AMPLITUDE, MAX_AMPLITUDE, ONE);
    lemma_default(MIN_GAIN, MAX_GAIN, ONE);
    lemma_default(MIN_LFO_LEVEL, MAX_LFO_LEVEL, 0);
    lemma_default(MIN_LFO_LEVEL, MAX_LFO_LEVEL, ONE);
    lemma_default(MIN_Q, MAX_Q, BUTTERWORTH);
    lemma_default(MIN_Q, MAX_Q, ONE);
    lemma_default(ONE, MAX_HZ, KILOHERTZ);
}

/// A number that is not finite has become its field's default.
pub open spec fn mended(before: F32, after: F32, default: F32) -> bool {
    !before.is_finite() ==> after == default
}

/// Whatever number of a node is not finite, clamping puts the node's default
/// in its place.
pub proof fn law_broken_numbers_become_defaults(v: NodeKind, limits: Envelope)
    ensures
        match v {
            NodeKind::Sine(n) => {
                let d: SineOsc = SineOsc::preset();
                &&& NodeKind::clamped(v, limits) matches NodeKind::Sine(c)
                &&& mended(n.freq_hz, c.freq_hz, d.freq_hz)
                &&& mended(n.phase_offset, c.phase_offset, d.phase_offset)
                &&& mended(n.amplitude, c.amplitude, d.amplitude)
            },
            NodeKind::Square(n) => {
                let d: SquareOsc = SquareOsc::preset();
                &&& NodeKind::clamped(v, limits) matches NodeKind::Square(c)
                &&& mended(n.freq_hz, c.freq_hz, d.freq_hz)
                &&& mended(n.duty, c.duty, d.duty)
                &&& mended(n.amplitude, c.amplitude, d.amplitude)
            },
            NodeKind::Sawtooth(n) => {
                let d: SawtoothOsc = SawtoothOsc::preset();
                &&& NodeKind::clamped(v, limits) matches NodeKind::Sawtooth(c)
                &&& mended(n.freq_hz, c.freq_hz, d.freq_hz)
                &&& mended(n.amplitude, c.amplitude, d.amplitude)
            },
            NodeKind::Triangle(n) => {
                let d: TriangleOsc = TriangleOsc::preset();
                &&& NodeKind::clamped(v, limits) matches NodeKind::Triangle(c)
                &&& mended(n.freq_hz, c.freq_hz, d.freq_hz)
                &&& mended(n.amplitude, c.amplitude, d.amplitude)
            },
            NodeKind::WhiteNoise(n) => {
                let d: WhiteNoise = WhiteNoise::preset();
                &&& NodeKind::clamped(v, limits) matches NodeKind::WhiteNoise(c)
                &&& mended(n.amplitude, c.amplitude, d.amplitude)
            },
            NodeKind::PinkNoise(n) => {
                let d: PinkNoise = PinkNoise::preset();
                &&& NodeKind::clamped(v, limits) matches NodeKind::PinkNoise(c)
                &&& mended(n.amplitude, c.amplitude, d.amplitude)
            },
            NodeKind::BrownNoise(n) => {
                let d: BrownNoise = BrownNoise::preset();
                &&& NodeKind::clamped(v, limits) matches NodeKind::BrownNoise(c)
                &&& mended(n.amplitude, c.amplitude, d.amplitude)
            },
            NodeKind::Adsr(n) => {
                let d: AdsrEnvelope = AdsrEnvelope::preset();
                &&& NodeKind::clamped(v, limits) matches NodeKind::Adsr(c)
                &&& mended(n.attack_s, c.attack_s, d.attack_s)
                &&& mended(n.decay_s, c.decay_s, d.decay_s)
                &&& mended(n.sustain_level, c.sustain_level, d.sustain_level)
                &&& mended(n.release_s, c.release_s, d.release_s)
            },
            NodeKind::BiquadLowpass(n) => {
                let d: BiquadLowpass = BiquadLowpass::preset();
                &&& NodeKind::clamped(v, limits) matches NodeKind::BiquadLowpass(c)
                &&& mended(n.cutoff_hz, c.cutoff_hz, d.cutoff_hz)
                &&& mended(n.q, c.q, d.q)
            },
            NodeKind::BiquadHighpass(n) => {
                let d: BiquadHighpass = BiquadHighpass::preset();
                &&& NodeKind::clamped(v, limits) matches NodeKind::BiquadHighpass(c)
                &&& mended(n.cutoff_hz, c.cutoff_hz, d.cutoff_hz)
                &&& mended(n.q, c.q, d.q)
            },
            NodeKind::BiquadBandpass(n) => {
                let d: BiquadBandpass = BiquadBandpass::preset();
                &&& NodeKind::clamped(v, limits) matches NodeKind::BiquadBandpass(c)
                &&& mended(n.center_hz, c.center_hz, d.center_hz)
                &&& mended(n.q, c.q, d.q)
            },
            NodeKind::Lfo(n) => {
                let d: Lfo = Lfo::preset();
                &&& NodeKind::clamped(v, limits) matches NodeKind::Lfo(c)
                &&& mended(n.rate_hz, c.rate_hz, d.rate_hz)
                &&& mended(n.depth, c.depth, d.depth)
                &&& mended(n.offset, c.offset, d.offset)
            },
            NodeKind::Mix(n) => {
                let d: Mix = Mix::preset();
                &&& NodeKind::clamped(v, limits) matches NodeKind::Mix(c)
                &&& mended(n.gain, c.gain, d.gain)
            },
            NodeKind::Gain(n) => {
                let d: Gain = Gain::preset();
                &&& NodeKind::clamped(v, limits) matches NodeKind::Gain(c)
                &&& mended(n.gain, c.gain, d.gain)
            },
            NodeKind::Chorus(n) => {
                let d: Chorus = Chorus::preset();
                &&& NodeKind::clamped(v, limits) matches NodeKind::Chorus(c)
                &&& mended(n.rate_hz, c.rate_hz, d.rate_hz)
                &&& mended(n.depth_ms, c.depth_ms, d.depth_ms)
                &&& mended(n.base_delay_ms, c.base_delay_ms, d.base_delay_ms)
                &&& mended(n.feedback, c.feedback, d.feedback)
                &&& mended(n.mix, c.mix, d.mix)
            },
            NodeKind::Reverb(n) => {
                let d: Reverb = Reverb::preset();
                &&& NodeKind::clamped(v, limits) matches NodeKind::Reverb(c)
                &&& mended(n.room_size, c.room_size, d.room_size)
                &&& mended(n.damping, c.damping, d.damping)
                &&& mended(n.mix, c.mix, d.mix)
            },
            _ => NodeKind::clamped(v, limits) == v,
        },
{
}

/// Clamping keeps the ports of every node in the order of their names.
pub proof fn law_clamping_keeps_ports_ordered(v: GraphView, limits: Envelope, i: int)
    requires
        forall|k: int| 0 <= k < v.nodes.len() ==> patch::ordered((#[trigger] v.nodes[k]).inputs),
        0 <= i < NodeGraph::clamped(v, limits).nodes.len(),
    ensures
        patch::ordered(NodeGraph::clamped(v, limits).nodes[i].inputs),
{
    let before: Seq<PortView> = v.nodes[i].inputs;
    let after: Seq<PortView> = NodeGraph::clamped(v, limits).nodes[i].inputs;
    assert(patch::ordered(before));
    assert forall|p: int, q: int| 0 <= p < q < after.len() implies patch::text_before(
        (#[trigger] after[p]).name,
        (#[trigger] after[q]).name,
    ) by {
        assert(after[p].name == before[p].name);
        assert(after[q].name == before[q].name);
    }
}

} // verus!
