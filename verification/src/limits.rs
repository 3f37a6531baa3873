//! What clamping does to every number, name and list that comes from outside:
//! a finite number goes to the nearest of its range, a list loses what is
//! over its cap and nothing else, and no field depends on another one.
use crate::chorus::MAX_FEEDBACK;
use crate::constants::{FOUR, MINUS_ONE, ONE};
use crate::envelope;
use crate::envelope::{
    ClampToEnvelope, Envelope, MAX_AMPLITUDE, MAX_BEATS, MAX_BPM, MAX_CONNECTION_MAGNITUDE,
    MAX_DELAY_MS, MAX_GAIN, MAX_HZ, MAX_LFO_HZ, MAX_LFO_LEVEL, MAX_PITCH, MAX_Q, MAX_STAGE_S,
    MAX_SWEEP_HZ, MIN_AMPLITUDE, MIN_CONNECTION_MAGNITUDE, MIN_GAIN, MIN_LFO_LEVEL, MIN_PITCH,
};
use crate::filter::MIN_Q;
use crate::float::F32;
use crate::node::NodeKind;
use crate::numbers;
use crate::patch::{AudioPatch, Connection, NodeView, PatchView, PortView};
use crate::sequence::{
    Event, EventView, InstrumentView, RecipeView, SequenceRecipe, TrackView, DEFAULT_BPM,
};
use vstd::prelude::*;
use vstd::utf8::encode_utf8;

verus! {

/// A finite number has gone to the nearest between two bounds: to the bound
/// it was beyond, or nowhere.
pub open spec fn nearest(before: F32, after: F32, lo: F32, hi: F32) -> bool {
    before.is_finite() ==> {
        &&& before.lt(lo) ==> after == lo
        &&& hi.lt(before) ==> after == hi
        &&& !before.lt(lo) && !hi.lt(before) ==> after == before
    }
}

/// Clamping takes every finite number of a node to the nearest of its range,
/// whatever the node's other numbers are, and leaves everything else alone.
pub proof fn law_numbers_go_to_the_nearest_of_their_range(v: NodeKind, limits: Envelope)
    ensures
        match v {
            NodeKind::Sine(n) => {
                &&& NodeKind::clamped(v, limits) matches NodeKind::Sine(c)
                &&& nearest(n.freq_hz, c.freq_hz, F32::of(0), F32::of(MAX_HZ))
                &&& nearest(n.phase_offset, c.phase_offset, F32::of(MINUS_ONE), F32::of(ONE))
                &&& nearest(n.amplitude, c.amplitude, F32::of(MIN_AMPLITUDE), F32::of(MAX_AMPLITUDE))
            },
            NodeKind::Square(n) => {
                &&& NodeKind::clamped(v, limits) matches NodeKind::Square(c)
                &&& nearest(n.freq_hz, c.freq_hz, F32::of(0), F32::of(MAX_HZ))
                &&& nearest(n.duty, c.duty, F32::of(0), F32::of(ONE))
                &&& nearest(n.amplitude, c.amplitude, F32::of(MIN_AMPLITUDE), F32::of(MAX_AMPLITUDE))
                &&& c.anti_alias == n.anti_alias
            },
            NodeKind::Sawtooth(n) => {
                &&& NodeKind::clamped(v, limits) matches NodeKind::Sawtooth(c)
                &&& nearest(n.freq_hz, c.freq_hz, F32::of(0), F32::of(MAX_HZ))
                &&& nearest(n.amplitude, c.amplitude, F32::of(MIN_AMPLITUDE), F32::of(MAX_AMPLITUDE))
                &&& c.polarity == n.polarity
                &&& c.anti_alias == n.anti_alias
            },
            NodeKind::Triangle(n) => {
                &&& NodeKind::clamped(v, limits) matches NodeKind::Triangle(c)
                &&& nearest(n.freq_hz, c.freq_hz, F32::of(0), F32::of(MAX_HZ))
                &&& nearest(n.amplitude, c.amplitude, F32::of(MIN_AMPLITUDE), F32::of(MAX_AMPLITUDE))
                &&& c.anti_alias == n.anti_alias
            },
            NodeKind::WhiteNoise(n) => {
                &&& NodeKind::clamped(v, limits) matches NodeKind::WhiteNoise(c)
                &&& nearest(n.amplitude, c.amplitude, F32::of(MIN_AMPLITUDE), F32::of(MAX_AMPLITUDE))
            },
            NodeKind::PinkNoise(n) => {
                &&& NodeKind::clamped(v, limits) matches NodeKind::PinkNoise(c)
                &&& nearest(n.amplitude, c.amplitude, F32::of(MIN_AMPLITUDE), F32::of(MAX_AMPLITUDE))
            },
            NodeKind::BrownNoise(n) => {
                &&& NodeKind::clamped(v, limits) matches NodeKind::BrownNoise(c)
                &&& nearest(n.amplitude, c.amplitude, F32::of(MIN_AMPLITUDE), F32::of(MAX_AMPLITUDE))
            },
            NodeKind::Adsr(n) => {
                &&& NodeKind::clamped(v, limits) matches NodeKind::Adsr(c)
                &&& nearest(n.attack_s, c.attack_s, F32::of(0), F32::of(MAX_STAGE_S))
                &&& nearest(n.decay_s, c.decay_s, F32::of(0), F32::of(MAX_STAGE_S))
                &&& nearest(n.sustain_level, c.sustain_level, F32::of(0), F32::of(ONE))
                &&& nearest(n.release_s, c.release_s, F32::of(0), F32::of(MAX_STAGE_S))
                &&& c.curve == n.curve
            },
            NodeKind::BiquadLowpass(n) => {
                &&& NodeKind::clamped(v, limits) matches NodeKind::BiquadLowpass(c)
                &&& nearest(n.cutoff_hz, c.cutoff_hz, F32::of(ONE), F32::of(MAX_HZ))
                &&& nearest(n.q, c.q, F32::of(MIN_Q), F32::of(MAX_Q))
            },
            NodeKind::BiquadHighpass(n) => {
                &&& NodeKind::clamped(v, limits) matches NodeKind::BiquadHighpass(c)
                &&& nearest(n.cutoff_hz, c.cutoff_hz, F32::of(ONE), F32::of(MAX_HZ))
                &&& nearest(n.q, c.q, F32::of(MIN_Q), F32::of(MAX_Q))
            },
            NodeKind::BiquadBandpass(n) => {
                &&& NodeKind::clamped(v, limits) matches NodeKind::BiquadBandpass(c)
                &&& nearest(n.center_hz, c.center_hz, F32::of(ONE), F32::of(MAX_HZ))
                &&& nearest(n.q, c.q, F32::of(MIN_Q), F32::of(MAX_Q))
            },
            NodeKind::Lfo(n) => {
                &&& NodeKind::clamped(v, limits) matches NodeKind::Lfo(c)
                &&& nearest(n.rate_hz, c.rate_hz, F32::of(0), F32::of(MAX_LFO_HZ))
                &&& nearest(n.depth, c.depth, F32::of(MIN_LFO_LEVEL), F32::of(MAX_LFO_LEVEL))
                &&& nearest(n.offset, c.offset, F32::of(MIN_LFO_LEVEL), F32::of(MAX_LFO_LEVEL))
                &&& c.shape == n.shape
            },
            NodeKind::Mix(n) => {
                &&& NodeKind::clamped(v, limits) matches NodeKind::Mix(c)
                &&& nearest(n.gain, c.gain, F32::of(MIN_GAIN), F32::of(MAX_GAIN))
            },
            NodeKind::Gain(n) => {
                &&& NodeKind::clamped(v, limits) matches NodeKind::Gain(c)
                &&& nearest(n.gain, c.gain, F32::of(MIN_GAIN), F32::of(MAX_GAIN))
            },
            NodeKind::Chorus(n) => {
                &&& NodeKind::clamped(v, limits) matches NodeKind::Chorus(c)
                &&& nearest(n.rate_hz, c.rate_hz, F32::of(0), F32::of(MAX_SWEEP_HZ))
                &&& nearest(n.depth_ms, c.depth_ms, F32::of(0), F32::of(MAX_DELAY_MS))
                &&& nearest(n.base_delay_ms, c.base_delay_ms, F32::of(0), F32::of(MAX_DELAY_MS))
                &&& nearest(n.feedback, c.feedback, F32::of(0), F32::of(MAX_FEEDBACK))
                &&& nearest(n.mix, c.mix, F32::of(0), F32::of(ONE))
            },
            NodeKind::Reverb(n) => {
                &&& NodeKind::clamped(v, limits) matches NodeKind::Reverb(c)
                &&& nearest(n.room_size, c.room_size, F32::of(0), F32::of(ONE))
                &&& nearest(n.damping, c.damping, F32::of(0), F32::of(ONE))
                &&& nearest(n.mix, c.mix, F32::of(0), F32::of(ONE))
            },
            _ => NodeKind::clamped(v, limits) == v,
        },
{
    reveal(F32::spec_clamp);
    lemma_bounds_in_order();
}

/// The bounds of the ranges are in order.
proof fn lemma_bounds_in_order()
    ensures
        forall|lo: F32, hi: F32, x: F32|
            #![trigger lo.le(hi), x.lt(lo), hi.lt(x)]
            lo.le(hi) && x.lt(lo) ==> !hi.lt(x),
        F32::of(0).le(F32::of(MAX_HZ)),
        F32::of(MINUS_ONE).le(F32::of(ONE)),
        F32::of(0).le(F32::of(ONE)),
        F32::of(MIN_AMPLITUDE).le(F32::of(MAX_AMPLITUDE)),
        F32::of(0).le(F32::of(MAX_STAGE_S)),
        F32::of(ONE).le(F32::of(MAX_HZ)),
        F32::of(MIN_Q).le(F32::of(MAX_Q)),
        F32::of(0).le(F32::of(MAX_LFO_HZ)),
        F32::of(MIN_LFO_LEVEL).le(F32::of(MAX_LFO_LEVEL)),
        F32::of(MIN_GAIN).le(F32::of(MAX_GAIN)),
        F32::of(0).le(F32::of(MAX_SWEEP_HZ)),
        F32::of(0).le(F32::of(MAX_DELAY_MS)),
        F32::of(0).le(F32::of(MAX_FEEDBACK)),
        F32::of(MIN_CONNECTION_MAGNITUDE).le(F32::of(MAX_CONNECTION_MAGNITUDE)),
        F32::of(0).le(F32::of(MAX_BEATS)),
        F32::of(MIN_PITCH).le(F32::of(MAX_PITCH)),
        F32::of(ONE).le(F32::of(MAX_BPM)),
{
    reveal(F32::spec_le);
    reveal(F32::spec_lt);
    reveal(F32::spec_same);
}

/// Clamping takes the number of a connection to the nearest of its range and
/// leaves the connection wired where it was; one that is not finite becomes
/// nothing as a constant and the whole signal as an amount.
pub proof fn law_connections_go_to_the_nearest_of_their_range(v: Connection, limits: Envelope)
    ensures
        match v {
            Connection::Constant { value } => {
                &&& Connection::clamped(v, limits) matches Connection::Constant { value: c }
                &&& nearest(
                    value,
                    c,
                    F32::of(MIN_CONNECTION_MAGNITUDE),
                    F32::of(MAX_CONNECTION_MAGNITUDE),
                )
                &&& !value.is_finite() ==> c == F32::of(0)
            },
            Connection::Node { id, amount } => {
                &&& Connection::clamped(v, limits) matches Connection::Node { id: d, amount: c }
                &&& d == id
                &&& nearest(
                    amount,
                    c,
                    F32::of(MIN_CONNECTION_MAGNITUDE),
                    F32::of(MAX_CONNECTION_MAGNITUDE),
                )
                &&& !amount.is_finite() ==> c == F32::of(ONE)
            },
        },
{
    reveal(F32::spec_clamp);
    lemma_bounds_in_order();
}

/// A list has lost what was over its cap, and nothing else.
pub open spec fn cut(before: int, after: int, cap: int) -> bool {
    &&& after <= before
    &&& after <= cap
    &&& after == before || after == cap
}

/// Clamping a patch keeps its seed, its output, the identifier of every node
/// and the name of every port; it clamps every node and every connection by
/// itself, in its place, as far as the caps go.
pub proof fn law_patches_are_clamped_node_by_node(v: PatchView, limits: Envelope)
    ensures
        ({
            let c: PatchView = AudioPatch::clamped(v, limits);
            let before: Seq<NodeView> = v.graph.nodes;
            let after: Seq<NodeView> = c.graph.nodes;
            &&& c.seed == v.seed
            &&& c.graph.output == v.graph.output
            &&& cut(before.len() as int, after.len() as int, limits.max_nodes as int)
            &&& forall|i: int|
                0 <= i < after.len() ==> (#[trigger] after[i]).id == before[i].id && after[i].kind
                    == NodeKind::clamped(before[i].kind, limits) && after[i].inputs.len()
                    == before[i].inputs.len()
            &&& forall|i: int, p: int|
                0 <= i < after.len() && 0 <= p < after[i].inputs.len() ==> port_clamped(
                    before[i].inputs[p],
                    #[trigger] after[i].inputs[p],
                    limits,
                )
        }),
{
}

/// A port has kept its name, and its connections are clamped in their places
/// as far as the cap goes.
pub open spec fn port_clamped(before: PortView, after: PortView, limits: Envelope) -> bool {
    &&& after.name == before.name
    &&& cut(
        before.connections.len() as int,
        after.connections.len() as int,
        limits.max_connections_per_port as int,
    )
    &&& forall|i: int|
        0 <= i < after.connections.len() ==> #[trigger] after.connections[i]
            == Connection::clamped(before.connections[i], limits)
}

/// Clamping takes every finite number of an event to the nearest of its
/// range, puts the defaults in the place of the others, and keeps how the
/// pitch is applied.
pub proof fn law_events_go_to_the_nearest_of_their_range(v: EventView, limits: Envelope)
    ensures
        ({
            let c: EventView = Event::clamped(v, limits);
            &&& nearest(v.time_beats, c.time_beats, F32::of(0), F32::of(MAX_BEATS))
            &&& !v.time_beats.is_finite() ==> c.time_beats == F32::of(0)
            &&& nearest(
                v.pitch_multiplier,
                c.pitch_multiplier,
                F32::of(MIN_PITCH),
                F32::of(MAX_PITCH),
            )
            &&& !v.pitch_multiplier.is_finite() ==> c.pitch_multiplier == F32::of(ONE)
            &&& nearest(v.volume, c.volume, F32::of(0), F32::of(ONE))
            &&& !v.volume.is_finite() ==> c.volume == F32::of(ONE)
            &&& nearest(v.gate_beats, c.gate_beats, F32::of(0), F32::of(MAX_BEATS))
            &&& !v.gate_beats.is_finite() ==> c.gate_beats == F32::of(ONE)
            &&& nearest(v.release_beats, c.release_beats, F32::of(0), F32::of(MAX_BEATS))
            &&& !v.release_beats.is_finite() ==> c.release_beats == F32::of(0)
            &&& c.pitch_mode == v.pitch_mode
            &&& named_alike(v.instrument_id, c.instrument_id, limits)
        }),
{
    reveal(F32::spec_clamp);
    lemma_bounds_in_order();
    lemma_trimmed_begins(v.instrument_id, limits.max_instrument_id_bytes as int);
}

/// A name has become its longest beginning that fits the cap on bytes.
pub open spec fn named_alike(before: Seq<char>, after: Seq<char>, limits: Envelope) -> bool {
    let cap: int = limits.max_instrument_id_bytes as int;
    &&& after.len() <= before.len()
    &&& after == before.take(after.len() as int)
    &&& encode_utf8(after).len() <= cap
    &&& after.len() < before.len() ==> encode_utf8(before.take(after.len() as int + 1)).len() > cap
}

/// A trimmed text begins the text, and one more character does not fit.
proof fn lemma_trimmed_begins(s: Seq<char>, max: int)
    requires
        max >= 0,
    ensures
        ({
            let t: Seq<char> = envelope::trimmed(s, max);
            &&& t.len() <= s.len()
            &&& t == s.take(t.len() as int)
            &&& encode_utf8(t).len() <= max
            &&& t.len() < s.len() ==> encode_utf8(s.take(t.len() as int + 1)).len() > max
        }),
    decreases s.len(),
{
    envelope::lemma_trimmed_fits(s, max);
    let t: Seq<char> = envelope::trimmed(s, max);
    if s.len() == 0 || encode_utf8(s).len() <= max {
        assert(s.take(s.len() as int) =~= s);
    } else {
        let front: Seq<char> = s.drop_last();
        lemma_trimmed_begins(front, max);
        assert(front.take(t.len() as int) =~= s.take(t.len() as int));
        if t.len() < front.len() {
            assert(front.take(t.len() as int + 1) =~= s.take(t.len() as int + 1));
        } else {
            assert(s.take(t.len() as int + 1) =~= s);
        }
    }
}

/// Clamping a recipe takes its numbers to the nearest of their ranges, the
/// loop's to what the clamped timeline holds, and clamps every instrument
/// and every event by itself, in its place, as far as the caps go.
pub proof fn law_recipes_are_clamped_part_by_part(v: RecipeView, limits: Envelope)
    ensures
        ({
            let c: RecipeView = SequenceRecipe::clamped(v, limits);
            &&& nearest(v.bpm, c.bpm, F32::of(ONE), F32::of(MAX_BPM))
            &&& !v.bpm.is_finite() ==> c.bpm == F32::of(DEFAULT_BPM)
            &&& nearest(v.duration_beats, c.duration_beats, F32::of(0), F32::of(MAX_BEATS))
            &&& !v.duration_beats.is_finite() ==> c.duration_beats == F32::of(FOUR)
            &&& nearest(
                v.loop_crossfade_beats,
                c.loop_crossfade_beats,
                F32::of(0),
                c.duration_beats.max(F32::of(0)),
            )
            &&& !v.loop_crossfade_beats.is_finite() ==> c.loop_crossfade_beats == F32::of(0)
            &&& match (v.loop_start_beats, c.loop_start_beats) {
                (Some(b), Some(d)) => nearest(b, d, F32::of(0), c.duration_beats.max(F32::of(0)))
                    && (!b.is_finite() ==> d == F32::of(0)),
                (None, None) => true,
                _ => false,
            }
            &&& v.sample_rate < 8_000 ==> c.sample_rate == 8_000
            &&& v.sample_rate > 192_000 ==> c.sample_rate == 192_000
            &&& 8_000 <= v.sample_rate <= 192_000 ==> c.sample_rate == v.sample_rate
        }),
{
    reveal(F32::spec_clamp);
    lemma_bounds_in_order();
    SequenceRecipe::law_clamped_is_inside(v, limits);
    let duration: F32 = envelope::clamped_duration(v);
    reveal(F32::spec_is_nan);
    numbers::lemma_max_above(duration, F32::of(0));
}

/// Clamping a recipe keeps its instruments and its events in their places,
/// each clamped by itself, as far as the caps go.
pub proof fn law_recipes_keep_their_places(v: RecipeView, limits: Envelope)
    ensures
        ({
            let c: RecipeView = SequenceRecipe::clamped(v, limits);
            &&& cut(
                v.instruments.len() as int,
                c.instruments.len() as int,
                limits.max_instruments as int,
            )
            &&& forall|i: int|
                0 <= i < c.instruments.len() ==> instrument_clamped(
                    v.instruments[i],
                    #[trigger] c.instruments[i],
                    limits,
                )
            &&& cut(v.tracks.len() as int, c.tracks.len() as int, limits.max_tracks as int)
            &&& forall|t: int|
                0 <= t < c.tracks.len() ==> track_clamped(
                    v.tracks[t],
                    #[trigger] c.tracks[t],
                    limits,
                )
        }),
{
    let c: RecipeView = SequenceRecipe::clamped(v, limits);
    assert forall|i: int| 0 <= i < c.instruments.len() implies instrument_clamped(
        v.instruments[i],
        #[trigger] c.instruments[i],
        limits,
    ) by {
        lemma_trimmed_begins(v.instruments[i].id, limits.max_instrument_id_bytes as int);
    }
}

/// An instrument has kept the beginning of its name, and its patch is
/// clamped.
pub open spec fn instrument_clamped(
    before: InstrumentView,
    after: InstrumentView,
    limits: Envelope,
) -> bool {
    &&& named_alike(before.id, after.id, limits)
    &&& after.patch == AudioPatch::clamped(before.patch, limits)
}

/// The events of a track are clamped in their places as far as the cap goes.
pub open spec fn track_clamped(before: TrackView, after: TrackView, limits: Envelope) -> bool {
    &&& cut(before.events.len() as int, after.events.len() as int, limits.max_track_events as int)
    &&& forall|e: int|
        0 <= e < after.events.len() ==> #[trigger] after.events[e] == Event::clamped(
            before.events[e],
            limits,
        )
}

} // verus!
