//! The mixdown: a recipe becomes one mono master buffer.
//!
//! Every event bakes its instrument with the note gate open for `gate_beats` and
//! goes on for `release_beats`; equal bakes are made once.  The bakes are
//! resampled or retuned, scaled and summed at their places, and the sum is
//! bent into the range between minus one and one.  Where the recipe loops,
//! the tail behind the timeline is folded into the loop's start, so that the
//! step from the last sample back to [`loop_start_sample`] does not click.
use crate::bake;
use crate::constants::ONE;
use crate::elementary;
use crate::elementary::Elementary;
use crate::float::{F32, F64};
use crate::likeness;
use crate::master;
use crate::node::{ContextView, Node, NodeKind};
use crate::numbers;
use crate::order;
use crate::patch;
use crate::patch::{
    AudioPatch, GraphError, GraphNode, GraphView, NodeGraph, NodeId, NodeView, PatchView,
};
use crate::sequence;
use crate::sequence::{
    Event, EventView, Instrument, InstrumentView, PitchMode, RecipeView, SequenceRecipe, TrackView,
};
use crate::wav::MAX_WAV_SAMPLES;
use vstd::prelude::*;

verus! {

/// Bits of `60.0`, the seconds of a minute.
pub const SIXTY: u32 = 0x4270_0000;

/// The seconds of a beat; none where the tempo is not positive.
pub open spec fn spec_beat_seconds(bpm: F32) -> F32 {
    if bpm.le(F32::of(0)) {
        F32::of(0)
    } else {
        F32::of(SIXTY).over(bpm)
    }
}

/// The seconds of a beat; none where the tempo is not positive.
#[verifier::when_used_as_spec(spec_beat_seconds)]
pub fn beat_seconds(bpm: F32) -> (r: F32)
    ensures
        r == beat_seconds(bpm),
{
    if bpm.le(F32::of(0)) {
        F32::of(0)
    } else {
        F32::of(SIXTY).over(bpm)
    }
}

/// A time in beats as a number of samples, to the nearest.
pub open spec fn spec_samples_at(beats: F32, beat_secs: F32, sample_rate: u32) -> F64 {
    beats.widen().times(beat_secs.widen()).times(F64::from_u64(sample_rate as u64)).round()
}

/// A time in beats as a number of samples, to the nearest.
#[verifier::when_used_as_spec(spec_samples_at)]
pub fn samples_at(beats: F32, beat_secs: F32, sample_rate: u32) -> (r: F64)
    ensures
        r == samples_at(beats, beat_secs, sample_rate),
{
    beats.widen().times(beat_secs.widen()).times(F64::from_u64(sample_rate as u64)).round()
}

/// How many samples a duration in beats is; none where it is not positive,
/// and no more than a blob can hold.
pub open spec fn spec_duration_to_samples(beats: F32, beat_secs: F32, sample_rate: u32) -> usize {
    let samples: F64 = samples_at(beats, beat_secs, sample_rate);
    if beats.le(F32::of(0)) || beat_secs.le(F32::of(0)) {
        0
    } else if F64::from_usize(MAX_WAV_SAMPLES).le(samples) {
        MAX_WAV_SAMPLES
    } else {
        samples.to_usize()
    }
}

/// How many samples a duration in beats is; none where it is not positive,
/// and no more than a blob can hold.
#[verifier::when_used_as_spec(spec_duration_to_samples)]
pub fn duration_to_samples(beats: F32, beat_secs: F32, sample_rate: u32) -> (r: usize)
    ensures
        r == duration_to_samples(beats, beat_secs, sample_rate),
{
    if beats.le(F32::of(0)) || beat_secs.le(F32::of(0)) {
        return 0;
    }
    let samples: F64 = samples_at(beats, beat_secs, sample_rate);
    if F64::from_usize(MAX_WAV_SAMPLES).le(samples) {
        MAX_WAV_SAMPLES
    } else {
        samples.to_usize()
    }
}

/// The patch of the last instrument with a name.
pub open spec fn instrument_of(instruments: Seq<InstrumentView>, id: Seq<char>) -> Option<PatchView>
    decreases instruments.len(),
{
    if instruments.len() == 0 {
        None
    } else if instruments.last().id == id {
        Some(instruments.last().patch)
    } else {
        instrument_of(instruments.drop_last(), id)
    }
}

/// A patch with every oscillator's pitch scaled.
pub open spec fn retuned(patch: PatchView, mult: F32) -> PatchView {
    PatchView {
        seed: patch.seed,
        graph: GraphView {
            nodes: patch.graph.nodes.map_values(
                |n: NodeView| NodeView { id: n.id, kind: n.kind.retuned(mult), inputs: n.inputs },
            ),
            output: patch.graph.output,
        },
    }
}

/// How long the note gate of an event is open, in samples.
pub open spec fn gate_samples(recipe: RecipeView, event: EventView) -> u64 {
    duration_to_samples(event.gate_beats, beat_seconds(recipe.bpm), recipe.sample_rate) as u64
}

/// How long an event sounds, in samples.
pub open spec fn total_samples(recipe: RecipeView, event: EventView) -> u64 {
    duration_to_samples(
        event.gate_beats.max(F32::of(0)).plus(event.release_beats.max(F32::of(0))),
        beat_seconds(recipe.bpm),
        recipe.sample_rate,
    ) as u64
}

/// A pitch multiplier that can be applied: positive and finite.
pub open spec fn spec_is_pitch(mult: F32) -> bool {
    mult.is_finite() && !mult.le(F32::of(0))
}

/// A pitch multiplier that can be applied: positive and finite.
#[verifier::when_used_as_spec(spec_is_pitch)]
pub fn is_pitch(mult: F32) -> (r: bool)
    ensures
        r == is_pitch(mult),
{
    mult.is_finite() && !mult.le(F32::of(0))
}

/// The patch that is baked for an event: its instrument's, retuned where the
/// event keeps its duration.
pub open spec fn voice(recipe: RecipeView, event: EventView) -> Option<PatchView> {
    match instrument_of(recipe.instruments, event.instrument_id) {
        None => None,
        Some(p) => match event.pitch_mode {
            PitchMode::Varispeed => Some(p),
            PitchMode::TimePreserving => if is_pitch(event.pitch_multiplier) {
                Some(retuned(p, event.pitch_multiplier))
            } else {
                None
            },
        },
    }
}

/// The bake of an event; none where its instrument is not there, its pitch
/// cannot be applied, or its graph has something wrong with it.
pub open spec fn source(
    recipe: RecipeView,
    event: EventView,
    f: spec_fn(Elementary, F32) -> F32,
) -> Option<Seq<F32>> {
    match voice(recipe, event) {
        None => None,
        Some(p) => match bake::baked(
            p,
            recipe.sample_rate,
            total_samples(recipe, event),
            Some(gate_samples(recipe, event)),
            f,
        ) {
            Ok(buffer) => Some(buffer),
            Err(_) => None,
        },
    }
}

/// Where the `i`th sample of a resampled buffer is read.
pub open spec fn spec_read_at(i: usize, pitch: F32) -> F32 {
    F32::from_usize(i).times(pitch)
}

/// Where the `i`th sample of a resampled buffer is read.
#[verifier::when_used_as_spec(spec_read_at)]
pub fn read_at(i: usize, pitch: F32) -> (r: F32)
    ensures
        r == read_at(i, pitch),
{
    F32::from_usize(i).times(pitch)
}

/// A buffer between the two samples around a position; the last sample holds.
pub open spec fn interpolated(buffer: Seq<F32>, position: F32) -> F32 {
    let at: int = position.floor().to_usize() as int;
    let frac: F32 = position.minus(F32::from_usize(at as usize));
    if at + 1 < buffer.len() {
        buffer[at].times(F32::of(ONE).minus(frac)).plus(buffer[at + 1].times(frac))
    } else {
        buffer[at]
    }
}

/// The first `n` samples of a resampled buffer, as far as the buffer goes.
pub open spec fn resampled(buffer: Seq<F32>, pitch: F32, n: int) -> Seq<F32>
    decreases n,
{
    if n <= 0 {
        Seq::empty()
    } else {
        let before: Seq<F32> = resampled(buffer, pitch, n - 1);
        let position: F32 = read_at((n - 1) as usize, pitch);
        if before.len() < n - 1 || position.floor().to_usize() >= buffer.len() {
            before
        } else {
            before.push(interpolated(buffer, position))
        }
    }
}

/// How many samples resampling makes of `len`, no more than `max_out`.
pub open spec fn spec_resampled_len(len: usize, pitch: F32, max_out: usize) -> usize {
    let raw: F64 = F64::from_usize(len).over(pitch.widen()).floor();
    if F64::from_usize(max_out).le(raw) {
        max_out
    } else {
        raw.to_usize()
    }
}

/// How many samples resampling makes of `len`, no more than `max_out`.
#[verifier::when_used_as_spec(spec_resampled_len)]
pub fn resampled_len(len: usize, pitch: F32, max_out: usize) -> (r: usize)
    ensures
        r == resampled_len(len, pitch, max_out),
{
    let raw: F64 = F64::from_usize(len).over(pitch.widen()).floor();
    if F64::from_usize(max_out).le(raw) {
        max_out
    } else {
        raw.to_usize()
    }
}

/// A buffer at another pitch: shorter where the pitch is higher, longer
/// where it is lower, empty where the pitch cannot be applied.
pub open spec fn varispeed(buffer: Seq<F32>, pitch: F32, max_out: usize) -> Seq<F32> {
    if buffer.len() == 0 || !is_pitch(pitch) {
        Seq::empty()
    } else {
        resampled(buffer, pitch, resampled_len(buffer.len() as usize, pitch, max_out) as int)
    }
}

/// A buffer with another one added to it from a place on, as far as it goes.
pub open spec fn overlaid(master: Seq<F32>, start: int, src: Seq<F32>, volume: F32) -> Seq<F32> {
    Seq::new(
        master.len(),
        |i: int|
            if start <= i < start + src.len() {
                master[i].plus(src[i - start].times(volume))
            } else {
                master[i]
            },
    )
}

/// Where an event starts, in samples.
pub open spec fn event_start(recipe: RecipeView, event: EventView) -> usize {
    samples_at(event.time_beats, beat_seconds(recipe.bpm), recipe.sample_rate).to_usize()
}

/// The master buffer once an event is added to it.
pub open spec fn voiced(
    recipe: RecipeView,
    event: EventView,
    master: Seq<F32>,
    f: spec_fn(Elementary, F32) -> F32,
) -> Seq<F32> {
    let start: usize = event_start(recipe, event);
    let volume: F32 = event.volume.clamp(F32::of(0), F32::of(ONE));
    match source(recipe, event, f) {
        None => master,
        Some(src) => if start >= master.len() {
            master
        } else {
            match event.pitch_mode {
                PitchMode::Varispeed => overlaid(
                    master,
                    start as int,
                    varispeed(
                        src,
                        event.pitch_multiplier,
                        (master.len() - start) as usize,
                    ),
                    volume,
                ),
                PitchMode::TimePreserving => overlaid(master, start as int, src, volume),
            }
        },
    }
}

/// The master buffer once some events are added to it.
pub open spec fn events_voiced(
    recipe: RecipeView,
    events: Seq<EventView>,
    master: Seq<F32>,
    f: spec_fn(Elementary, F32) -> F32,
) -> Seq<F32>
    decreases events.len(),
{
    if events.len() == 0 {
        master
    } else {
        voiced(
            recipe,
            events.last(),
            events_voiced(recipe, events.drop_last(), master, f),
            f,
        )
    }
}

/// The master buffer once some tracks are added to it.
pub open spec fn tracks_voiced(
    recipe: RecipeView,
    tracks: Seq<TrackView>,
    master: Seq<F32>,
    f: spec_fn(Elementary, F32) -> F32,
) -> Seq<F32>
    decreases tracks.len(),
{
    if tracks.len() == 0 {
        master
    } else {
        events_voiced(
            recipe,
            tracks.last().events,
            tracks_voiced(recipe, tracks.drop_last(), master, f),
            f,
        )
    }
}

/// Length of the timeline in samples.
pub open spec fn main_samples(recipe: RecipeView) -> usize {
    duration_to_samples(recipe.duration_beats, beat_seconds(recipe.bpm), recipe.sample_rate)
}

/// Length of the tail behind the timeline in samples.
pub open spec fn tail_samples(recipe: RecipeView) -> usize {
    duration_to_samples(recipe.loop_crossfade_beats, beat_seconds(recipe.bpm), recipe.sample_rate)
}

/// Length of the master buffer: the timeline and the tail, no more than a
/// blob can hold.
pub open spec fn master_len(recipe: RecipeView) -> int {
    if main_samples(recipe) + tail_samples(recipe) <= MAX_WAV_SAMPLES {
        main_samples(recipe) + tail_samples(recipe)
    } else {
        MAX_WAV_SAMPLES as int
    }
}

/// The sum of all events.
pub open spec fn summed(recipe: RecipeView, f: spec_fn(Elementary, F32) -> F32) -> Seq<F32> {
    tracks_voiced(
        recipe,
        recipe.tracks,
        Seq::new(master_len(recipe) as nat, |i: int| F32::of(0)),
        f,
    )
}

/// A buffer bent into the range between minus one and one.
pub open spec fn soft_clipped(master: Seq<F32>, f: spec_fn(Elementary, F32) -> F32) -> Seq<F32> {
    master.map_values(|s: F32| f(Elementary::Tanh, s))
}

/// The sample to which a loop goes back; none where the recipe does not loop
/// or the loop's start is not before the end.
pub open spec fn loop_point(recipe: RecipeView) -> Option<usize> {
    match recipe.loop_start_beats {
        None => None,
        Some(beats) => {
            let at: usize = samples_at(
                beats,
                beat_seconds(recipe.bpm),
                recipe.sample_rate,
            ).to_usize();
            if at < main_samples(recipe) {
                Some(at)
            } else {
                None
            }
        },
    }
}

/// How many samples are crossfaded: the tail, as far as both the loop and
/// the buffer go.
pub open spec fn crossfade_len(len: int, loop_start: int, main: int, tail: int) -> int {
    let a: int = if tail <= main - loop_start {
        tail
    } else {
        main - loop_start
    };
    let b: int = if a <= len - main {
        a
    } else {
        len - main
    };
    if b > 0 {
        b
    } else {
        0
    }
}

/// One crossfaded sample: the tail at first, the loop's own sample at last.
pub open spec fn spec_faded(i: usize, n: usize, tail: F32, own: F32) -> F32 {
    let alpha: F32 = F32::from_usize(i).over(F32::from_usize(n));
    F32::of(ONE).minus(alpha).times(tail).plus(alpha.times(own))
}

/// One crossfaded sample: the tail at first, the loop's own sample at last.
#[verifier::when_used_as_spec(spec_faded)]
pub fn faded(i: usize, n: usize, tail: F32, own: F32) -> (r: F32)
    ensures
        r == faded(i, n, tail, own),
{
    let alpha: F32 = F32::from_usize(i).over(F32::from_usize(n));
    F32::of(ONE).minus(alpha).times(tail).plus(alpha.times(own))
}

/// A buffer with its tail folded into the loop's start.
pub open spec fn crossfaded(master: Seq<F32>, loop_start: int, main: int, tail: int) -> Seq<F32> {
    let n: int = crossfade_len(master.len() as int, loop_start, main, tail);
    Seq::new(
        master.len(),
        |i: int|
            if loop_start <= i < loop_start + n {
                faded(
                    (i - loop_start) as usize,
                    n as usize,
                    master[main + i - loop_start],
                    master[i],
                )
            } else {
                master[i]
            },
    )
}

/// What mixing a recipe down yields.
pub open spec fn mixed(recipe: RecipeView, f: spec_fn(Elementary, F32) -> F32) -> Seq<F32> {
    let soft: Seq<F32> = soft_clipped(summed(recipe, f), f);
    let main: int = main_samples(recipe) as int;
    match recipe.loop_start_beats {
        None => soft,
        Some(_) => match loop_point(recipe) {
            Some(at) => crossfaded(soft, at as int, main, tail_samples(recipe) as int).take(main),
            None => soft.take(main),
        },
    }
}

/// Mixing the recipe down bakes no patch that cannot allocate its lines.
pub open spec fn mixable(recipe: RecipeView) -> bool {
    forall|t: int, e: int|
        0 <= t < recipe.tracks.len() && 0 <= e < recipe.tracks[t].events.len() && master_len(recipe)
            > 0 ==> event_bakeable(recipe, #[trigger] recipe.tracks[t].events[e])
}

/// The patch of an event can allocate its lines.
pub open spec fn event_bakeable(recipe: RecipeView, event: EventView) -> bool {
    match voice(recipe, event) {
        Some(p) => bake::bakeable(p, recipe.sample_rate, total_samples(recipe, event)),
        None => true,
    }
}

/// What tells the bakes of events apart.
#[verifier::ext_equal]
pub struct KeyView {
    /// The instrument.
    pub id: Seq<char>,
    /// The bits of the note gate's length.
    pub gate: u32,
    /// The bits of the release's length.
    pub release: u32,
    /// The bits of the pitch that the bake is made at.
    pub pitch: u32,
}

/// What tells the bakes of events apart: all resampled events of an
/// instrument share the bake at native pitch.
pub open spec fn key_of(event: EventView) -> KeyView {
    KeyView {
        id: event.instrument_id,
        gate: event.gate_beats.bits,
        release: event.release_beats.bits,
        pitch: match event.pitch_mode {
            PitchMode::Varispeed => ONE,
            PitchMode::TimePreserving => event.pitch_multiplier.bits,
        },
    }
}

/// Retuning by one does not change a node's sound.
pub proof fn law_unit_pitch_is_silent(kind: NodeKind)
    ensures
        likeness::same_sound(kind, kind.retuned(F32::of(ONE))),
{
    let other: NodeKind = kind.retuned(F32::of(ONE));
    assert forall|c: ContextView, f: spec_fn(Elementary, F32) -> F32| #[trigger]
        kind.step(c, f) == other.step(c, f) by {
        let x: F32 = c.input("freq"@);
        match kind {
            NodeKind::Sine(n) => {
                lemma_unit_frequency(n.freq_hz, x);
            },
            NodeKind::Square(n) => {
                lemma_unit_frequency(n.freq_hz, x);
            },
            NodeKind::Sawtooth(n) => {
                lemma_unit_frequency(n.freq_hz, x);
            },
            NodeKind::Triangle(n) => {
                lemma_unit_frequency(n.freq_hz, x);
            },
            _ => {},
        }
    }
}

proof fn lemma_unit_frequency(freq: F32, x: F32)
    ensures
        freq.times(F32::of(ONE)).plus(x) == freq.plus(x),
{
    if freq.is_nan() {
        numbers::lemma_nan_times(freq, F32::of(ONE));
        numbers::lemma_nan_plus(freq, x);
        numbers::lemma_nan_plus(freq.times(F32::of(ONE)), x);
    } else {
        numbers::law_times_one(freq);
    }
}

/// Retuning keeps the identifiers and the wiring.
proof fn lemma_retuned_nodes(p: PatchView, mult: F32)
    ensures
        ({
            let a: Seq<NodeView> = p.graph.nodes;
            let b: Seq<NodeView> = retuned(p, mult).graph.nodes;
            &&& a.len() == b.len()
            &&& forall|i: int| 0 <= i < a.len() ==> (#[trigger] b[i]).id == a[i].id
            &&& forall|i: int| 0 <= i < a.len() ==> (#[trigger] b[i]).inputs == a[i].inputs
            &&& forall|i: int| 0 <= i < a.len() ==> (#[trigger] b[i]).kind == a[i].kind.retuned(mult)
            &&& order::distinct(a) == order::distinct(b)
            &&& forall|id: NodeId| #[trigger] order::present(a, id) == order::present(b, id)
        }),
{
    let a: Seq<NodeView> = p.graph.nodes;
    let b: Seq<NodeView> = retuned(p, mult).graph.nodes;
    if order::distinct(a) {
        assert forall|i: int, j: int| 0 <= i < j < b.len() implies (#[trigger] b[i]).id != (
        #[trigger] b[j]).id by {
            assert(a[i].id != a[j].id);
        }
    }
    if order::distinct(b) {
        assert forall|i: int, j: int| 0 <= i < j < a.len() implies (#[trigger] a[i]).id != (
        #[trigger] a[j]).id by {
            assert(b[i].id != b[j].id);
        }
    }
    assert forall|id: NodeId| #[trigger] order::present(a, id) == order::present(b, id) by {
        if order::present(a, id) {
            let i: int = choose|i: int| 0 <= i < a.len() && (#[trigger] a[i]).id == id;
            assert(b[i].id == id);
        }
        if order::present(b, id) {
            let i: int = choose|i: int| 0 <= i < b.len() && (#[trigger] b[i]).id == id;
            assert(a[i].id == id);
        }
    }
}

/// Retuning a patch by one does not change its bakes.
pub proof fn law_unit_pitch_bakes_alike(
    p: PatchView,
    sample_rate: u32,
    duration_samples: u64,
    gate: Option<u64>,
    f: spec_fn(Elementary, F32) -> F32,
)
    ensures
        ({
            let a: Result<Seq<F32>, GraphError> = bake::baked(
                p,
                sample_rate,
                duration_samples,
                gate,
                f,
            );
            let b: Result<Seq<F32>, GraphError> = bake::baked(
                retuned(p, F32::of(ONE)),
                sample_rate,
                duration_samples,
                gate,
                f,
            );
            &&& a is Ok <==> b is Ok
            &&& a is Ok ==> a == b
        }),
{
    let q: PatchView = retuned(p, F32::of(ONE));
    let a: Seq<NodeView> = p.graph.nodes;
    let b: Seq<NodeView> = q.graph.nodes;
    lemma_retuned_nodes(p, F32::of(ONE));
    order::lemma_distinct(a);
    order::lemma_distinct(b);
    if order::distinct(a) {
        assert forall|id: NodeId| #[trigger] order::present(a, id) implies {
            &&& order::node_of(a, id).inputs == order::node_of(b, id).inputs
            &&& likeness::same_sound(order::node_of(a, id).kind, order::node_of(b, id).kind)
        } by {
            let i: int = choose|i: int| 0 <= i < a.len() && (#[trigger] a[i]).id == id;
            order::lemma_node_of(a, i);
            assert(b[i].id == id);
            order::lemma_node_of(b, i);
            law_unit_pitch_is_silent(a[i].kind);
        }
        likeness::law_alike_patches_bake_alike(p, q, sample_rate, duration_samples, gate, f);
    }
}

/// Events with the same key share their bake: making it once for all of them
/// does not change the mix.
pub proof fn law_equal_keys_share_a_bake(
    recipe: RecipeView,
    a: EventView,
    b: EventView,
    f: spec_fn(Elementary, F32) -> F32,
)
    requires
        key_of(a) == key_of(b),
    ensures
        source(recipe, a, f) == source(recipe, b, f),
{
    assert(a.gate_beats == b.gate_beats);
    assert(a.release_beats == b.release_beats);
    match instrument_of(recipe.instruments, a.instrument_id) {
        None => {},
        Some(p) => {
            law_unit_pitch_bakes_alike(
                p,
                recipe.sample_rate,
                total_samples(recipe, a),
                Some(gate_samples(recipe, a)),
                f,
            );
            lemma_one_is_pitch();
            if a.pitch_mode == PitchMode::TimePreserving && b.pitch_mode
                == PitchMode::TimePreserving {
                assert(a.pitch_multiplier == b.pitch_multiplier);
            } else if a.pitch_mode == PitchMode::TimePreserving {
                assert(a.pitch_multiplier == F32::of(ONE));
            } else if b.pitch_mode == PitchMode::TimePreserving {
                assert(b.pitch_multiplier == F32::of(ONE));
            }
        },
    }
}

proof fn lemma_one_is_pitch()
    ensures
        is_pitch(F32::of(ONE)),
{
    reveal(F32::spec_is_finite);
    reveal(F32::spec_le);
    reveal(F32::spec_lt);
    reveal(F32::spec_same);
}

/// Clones a patch with every oscillator's pitch scaled.
pub fn retuned_patch(patch: &AudioPatch, mult: F32) -> (r: AudioPatch)
    ensures
        r@ == retuned(patch@, mult),
{
    let mut nodes: Vec<GraphNode> = Vec::new();
    let mut i: usize = 0;
    while i < patch.graph.nodes.len()
        invariant
            i <= patch.graph.nodes.len(),
            nodes.len() == i,
            forall|j: int|
                0 <= j < i ==> (#[trigger] nodes[j])@ == (NodeView {
                    id: patch.graph.nodes[j].id,
                    kind: patch.graph.nodes[j].kind.retuned(mult),
                    inputs: patch.graph.nodes[j]@.inputs,
                }),
        decreases patch.graph.nodes.len() - i,
    {
        let mut node: GraphNode = patch.graph.nodes[i].clone();
        node.kind.scale_pitch(mult);
        nodes.push(node);
        i = i + 1;
    }
    let r: AudioPatch = AudioPatch {
        seed: patch.seed,
        graph: NodeGraph { nodes, output: patch.graph.output },
    };
    assert(r@.graph.nodes =~= retuned(patch@, mult).graph.nodes);
    r
}

/// The patch of the last instrument with a name.
fn find_instrument<'a>(instruments: &'a Vec<Instrument>, id: &String) -> (r: Option<&'a AudioPatch>)
    ensures
        match r {
            Some(p) => instrument_of(sequence::instruments_view(instruments@), id@) == Some(p@),
            None => instrument_of(sequence::instruments_view(instruments@), id@) is None,
        },
{
    let ghost view: Seq<InstrumentView> = sequence::instruments_view(instruments@);
    let mut n: usize = instruments.len();
    assert(view.take(n as int) =~= view);
    while n > 0
        invariant
            n <= instruments.len(),
            view == sequence::instruments_view(instruments@),
            instrument_of(view, id@) == instrument_of(view.take(n as int), id@),
        decreases n,
    {
        assert(view.take(n as int).last() == instruments[n - 1]@);
        assert(view.take(n as int).drop_last() =~= view.take(n - 1));
        if instruments[n - 1].id == *id {
            return Some(&instruments[n - 1].patch);
        }
        n = n - 1;
    }
    None
}

/// One bake and what tells it apart from the others.
struct Entry {
    /// The instrument.
    id: String,
    /// The bits of the note gate's length.
    gate: u32,
    /// The bits of the release's length.
    release: u32,
    /// The bits of the pitch that the bake is made at.
    pitch: u32,
    /// The bake.
    buffer: Vec<F32>,
}

impl Entry {
    spec fn key(self) -> KeyView {
        KeyView { id: self.id@, gate: self.gate, release: self.release, pitch: self.pitch }
    }
}

/// Every bake in the cache is that of all events with its key.
spec fn cached(cache: Seq<Entry>, recipe: RecipeView, f: spec_fn(Elementary, F32) -> F32) -> bool {
    forall|i: int, e: EventView|
        0 <= i < cache.len() && key_of(e) == (#[trigger] cache[i]).key() ==> #[trigger] source(
            recipe,
            e,
            f,
        ) == Some(cache[i].buffer@)
}

/// Bakes an event's patch.
fn bake_event<M: Fn(Elementary, F32) -> F32>(
    recipe: &SequenceRecipe,
    event: &Event,
    math: &M,
) -> (r: Option<Vec<F32>>)
    requires
        elementary::answers(*math),
        event_bakeable(recipe@, event@),
    ensures
        match r {
            Some(b) => source(recipe@, event@, elementary::table(*math)) == Some(b@),
            None => source(recipe@, event@, elementary::table(*math)) is None,
        },
{
    let beat_secs: F32 = beat_seconds(recipe.bpm);
    let rate: u32 = recipe.sample_rate;
    let patch: &AudioPatch = match find_instrument(&recipe.instruments, &event.instrument_id) {
        Some(p) => p,
        None => {
            return None;
        },
    };
    let gate: u64 = duration_to_samples(event.gate_beats, beat_secs, rate) as u64;
    let total_beats: F32 = event.gate_beats.max(F32::of(0)).plus(
        event.release_beats.max(F32::of(0)),
    );
    let total: u64 = duration_to_samples(total_beats, beat_secs, rate) as u64;
    let result: Result<Vec<F32>, GraphError> = match event.pitch_mode {
        PitchMode::Varispeed => bake::bake_whole(patch, rate, total, Some(gate), math),
        PitchMode::TimePreserving => {
            if !is_pitch(event.pitch_multiplier) {
                return None;
            }
            let retuned: AudioPatch = retuned_patch(patch, event.pitch_multiplier);
            bake::bake_whole(&retuned, rate, total, Some(gate), math)
        },
    };
    match result {
        Ok(buffer) => Some(buffer),
        Err(_) => None,
    }
}

/// The place of an event's bake in the cache, where it is made unless an
/// equal one is there.
fn ensure_baked<M: Fn(Elementary, F32) -> F32>(
    cache: &mut Vec<Entry>,
    recipe: &SequenceRecipe,
    event: &Event,
    math: &M,
) -> (r: Option<usize>)
    requires
        elementary::answers(*math),
        event_bakeable(recipe@, event@),
        cached(old(cache)@, recipe@, elementary::table(*math)),
    ensures
        cached(final(cache)@, recipe@, elementary::table(*math)),
        match r {
            Some(i) => i < final(cache).len() && source(
                recipe@,
                event@,
                elementary::table(*math),
            ) == Some(final(cache)[i as int].buffer@),
            None => source(recipe@, event@, elementary::table(*math)) is None,
        },
{
    let ghost f: spec_fn(Elementary, F32) -> F32 = elementary::table(*math);
    let pitch: u32 = match event.pitch_mode {
        PitchMode::Varispeed => ONE,
        PitchMode::TimePreserving => event.pitch_multiplier.bits,
    };
    let mut i: usize = 0;
    while i < cache.len()
        invariant
            i <= cache.len(),
            f == elementary::table(*math),
            cache@ == old(cache)@,
            cached(cache@, recipe@, f),
            pitch == key_of(event@).pitch,
        decreases cache.len() - i,
    {
        let e: &Entry = &cache[i];
        if e.gate == event.gate_beats.bits && e.release == event.release_beats.bits && e.pitch
            == pitch && e.id == event.instrument_id {
            assert(key_of(event@) == cache[i as int].key());
            return Some(i);
        }
        i = i + 1;
    }
    match bake_event(recipe, event, math) {
        None => None,
        Some(buffer) => {
            let entry: Entry = Entry {
                id: event.instrument_id.clone(),
                gate: event.gate_beats.bits,
                release: event.release_beats.bits,
                pitch,
                buffer,
            };
            let ghost before: Seq<Entry> = cache@;
            cache.push(entry);
            proof {
                assert forall|k: int, e: EventView|
                    0 <= k < cache.len() && key_of(e) == (
                    #[trigger] cache[k]).key() implies #[trigger] source(recipe@, e, f) == Some(
                    cache[k].buffer@,
                ) by {
                    if k < before.len() {
                        assert(before[k] == cache[k]);
                    } else {
                        law_equal_keys_share_a_bake(recipe@, e, event@, f);
                    }
                }
            }
            Some(cache.len() - 1)
        },
    }
}

/// Resamples a buffer by linear interpolation.
pub fn resample_linear(source: &Vec<F32>, pitch_multiplier: F32, max_out: usize) -> (r: Vec<F32>)
    ensures
        r@ == varispeed(source@, pitch_multiplier, max_out),
{
    let mut out: Vec<F32> = Vec::new();
    if source.len() == 0 || !is_pitch(pitch_multiplier) {
        return out;
    }
    let out_len: usize = resampled_len(source.len(), pitch_multiplier, max_out);
    let mut i: usize = 0;
    while i < out_len
        invariant
            i <= out_len,
            source.len() > 0,
            is_pitch(pitch_multiplier),
            out_len == resampled_len(source.len(), pitch_multiplier, max_out),
            out@ == resampled(source@, pitch_multiplier, i as int),
            out.len() == i,
        decreases out_len - i,
    {
        let position: F32 = read_at(i, pitch_multiplier);
        let at: usize = position.floor().to_usize();
        if at >= source.len() {
            proof {
                lemma_resampled_stops(source@, pitch_multiplier, i + 1, out_len as int);
            }
            return out;
        }
        let frac: F32 = position.minus(F32::from_usize(at));
        if at + 1 < source.len() {
            out.push(
                source[at].times(F32::of(ONE).minus(frac)).plus(source[at + 1].times(frac)),
            );
        } else {
            out.push(source[at]);
        }
        i = i + 1;
    }
    out
}

/// Once the buffer has ended, resampling makes no more samples.
proof fn lemma_resampled_stops(buffer: Seq<F32>, pitch: F32, k: int, n: int)
    requires
        0 < k <= n,
        resampled(buffer, pitch, k).len() < k,
    ensures
        resampled(buffer, pitch, n) == resampled(buffer, pitch, k),
    decreases n,
{
    if n > k {
        lemma_resampled_stops(buffer, pitch, k, n - 1);
    }
}

/// Adds a buffer to the master from a place on, as far as it goes.
pub fn write_into(master: &mut Vec<F32>, start: usize, src: &Vec<F32>, volume: F32)
    ensures
        final(master)@ == overlaid(old(master)@, start as int, src@, volume),
{
    let ghost before: Seq<F32> = master@;
    let room: usize = if start < master.len() {
        master.len() - start
    } else {
        0
    };
    let len: usize = if src.len() < room {
        src.len()
    } else {
        room
    };
    let mut i: usize = 0;
    while i < len
        invariant
            i <= len,
            len <= src.len(),
            len > 0 ==> start + len <= master.len(),
            master.len() == before.len(),
            forall|j: int|
                0 <= j < master.len() ==> #[trigger] master[j] == (if start <= j < start + i {
                    before[j].plus(src[j - start].times(volume))
                } else {
                    before[j]
                }),
        decreases len - i,
    {
        let at: usize = start + i;
        let sum: F32 = master[at].plus(src[i].times(volume));
        master.set(at, sum);
        i = i + 1;
    }
    assert(master@ =~= overlaid(before, start as int, src@, volume));
}

/// Adds an event to the master.
fn add_event<M: Fn(Elementary, F32) -> F32>(
    master: &mut Vec<F32>,
    cache: &mut Vec<Entry>,
    recipe: &SequenceRecipe,
    event: &Event,
    math: &M,
)
    requires
        elementary::answers(*math),
        event_bakeable(recipe@, event@),
        cached(old(cache)@, recipe@, elementary::table(*math)),
    ensures
        cached(final(cache)@, recipe@, elementary::table(*math)),
        final(master)@ == voiced(recipe@, event@, old(master)@, elementary::table(*math)),
        final(master).len() == old(master).len(),
{
    match ensure_baked(cache, recipe, event, math) {
        None => {},
        Some(i) => {
            let start: usize = samples_at(
                event.time_beats,
                beat_seconds(recipe.bpm),
                recipe.sample_rate,
            ).to_usize();
            if start < master.len() {
                proof {
                    reveal(F32::spec_le);
                    reveal(F32::spec_lt);
                }
                let volume: F32 = event.volume.clamp(F32::of(0), F32::of(ONE));
                match event.pitch_mode {
                    PitchMode::Varispeed => {
                        let resampled: Vec<F32> = resample_linear(
                            &cache[i].buffer,
                            event.pitch_multiplier,
                            master.len() - start,
                        );
                        write_into(master, start, &resampled, volume);
                    },
                    PitchMode::TimePreserving => {
                        write_into(master, start, &cache[i].buffer, volume);
                    },
                }
            }
        },
    }
}

/// The sum of all events of a recipe.
fn sum_events<M: Fn(Elementary, F32) -> F32>(recipe: &SequenceRecipe, len: usize, math: &M) -> (r:
    Vec<F32>)
    requires
        elementary::answers(*math),
        mixable(recipe@),
        len == master_len(recipe@),
        len > 0,
    ensures
        r@ == summed(recipe@, elementary::table(*math)),
        r.len() == len,
{
    let ghost f: spec_fn(Elementary, F32) -> F32 = elementary::table(*math);
    let ghost empty: Seq<F32> = Seq::new(len as nat, |i: int| F32::of(0));
    let ghost tracks: Seq<TrackView> = recipe@.tracks;
    let mut master: Vec<F32> = vec![F32::of(0); len];
    assert(master@ =~= empty);
    let mut cache: Vec<Entry> = Vec::new();
    let mut t: usize = 0;
    while t < recipe.tracks.len()
        invariant
            t <= recipe.tracks.len(),
            tracks == recipe@.tracks,
            f == elementary::table(*math),
            elementary::answers(*math),
            mixable(recipe@),
            len == master_len(recipe@),
            len > 0,
            cached(cache@, recipe@, f),
            master.len() == len,
            master@ == tracks_voiced(recipe@, tracks.take(t as int), empty, f),
        decreases recipe.tracks.len() - t,
    {
        let events: &Vec<Event> = &recipe.tracks[t].events;
        let ghost views: Seq<EventView> = tracks[t as int].events;
        let ghost before: Seq<F32> = master@;
        assert(tracks[t as int] == recipe.tracks[t as int]@);
        assert(views.take(0) =~= Seq::empty());
        let mut e: usize = 0;
        while e < events.len()
            invariant
                e <= events.len(),
                t < recipe.tracks.len(),
                tracks == recipe@.tracks,
                views == tracks[t as int].events,
                views == sequence::events_view(events@),
                f == elementary::table(*math),
                elementary::answers(*math),
                mixable(recipe@),
                len == master_len(recipe@),
                len > 0,
                cached(cache@, recipe@, f),
                master.len() == len,
                master@ == events_voiced(recipe@, views.take(e as int), before, f),
            decreases events.len() - e,
        {
            assert(views[e as int] == events[e as int]@);
            assert(event_bakeable(recipe@, recipe@.tracks[t as int].events[e as int]));
            add_event(&mut master, &mut cache, recipe, &events[e], math);
            assert(views.take(e + 1).drop_last() =~= views.take(e as int));
            assert(views.take(e + 1).last() == views[e as int]);
            e = e + 1;
        }
        assert(views.take(e as int) =~= views);
        assert(tracks.take(t + 1).drop_last() =~= tracks.take(t as int));
        assert(tracks.take(t + 1).last() == tracks[t as int]);
        t = t + 1;
    }
    assert(tracks.take(t as int) =~= tracks);
    master
}

/// Folds the tail into the loop's start.
pub fn apply_loop_crossfade(
    master: &mut Vec<F32>,
    loop_start: usize,
    main_samples: usize,
    tail_samples: usize,
)
    ensures
        final(master)@ == crossfaded(
            old(master)@,
            loop_start as int,
            main_samples as int,
            tail_samples as int,
        ),
{
    let ghost before: Seq<F32> = master@;
    let room: usize = if loop_start < main_samples {
        main_samples - loop_start
    } else {
        0
    };
    let rest: usize = if main_samples < master.len() {
        master.len() - main_samples
    } else {
        0
    };
    let a: usize = if tail_samples <= room {
        tail_samples
    } else {
        room
    };
    let n: usize = if a <= rest {
        a
    } else {
        rest
    };
    let mut i: usize = 0;
    while i < n
        invariant
            i <= n,
            n > 0 ==> loop_start + n <= main_samples,
            n > 0 ==> main_samples + n <= master.len(),
            master.len() == before.len(),
            forall|j: int|
                0 <= j < master.len() ==> #[trigger] master[j] == (if loop_start <= j < loop_start
                    + i {
                    faded(
                        (j - loop_start) as usize,
                        n,
                        before[main_samples + j - loop_start],
                        before[j],
                    )
                } else {
                    before[j]
                }),
        decreases n - i,
    {
        let own: F32 = master[loop_start + i];
        let tail: F32 = master[main_samples + i];
        master.set(loop_start + i, faded(i, n, tail, own));
        i = i + 1;
    }
    assert(master@ =~= crossfaded(
        before,
        loop_start as int,
        main_samples as int,
        tail_samples as int,
    ));
}

/// The sample to which a loop of the mixed buffer goes back.
pub fn loop_start_sample(recipe: &SequenceRecipe) -> (r: Option<usize>)
    ensures
        r == loop_point(recipe@),
{
    let beats: F32 = match recipe.loop_start_beats {
        Some(beats) => beats,
        None => {
            return None;
        },
    };
    let beat_secs: F32 = beat_seconds(recipe.bpm);
    let main: usize = duration_to_samples(recipe.duration_beats, beat_secs, recipe.sample_rate);
    let at: usize = samples_at(beats, beat_secs, recipe.sample_rate).to_usize();
    if at < main {
        Some(at)
    } else {
        None
    }
}

/// Adding events does not change the buffer's length.
pub proof fn lemma_summed_len(
    recipe: RecipeView,
    tracks: Seq<TrackView>,
    master: Seq<F32>,
    f: spec_fn(Elementary, F32) -> F32,
)
    ensures
        tracks_voiced(recipe, tracks, master, f).len() == master.len(),
    decreases tracks.len(),
{
    if tracks.len() > 0 {
        lemma_summed_len(recipe, tracks.drop_last(), master, f);
        lemma_events_len(
            recipe,
            tracks.last().events,
            tracks_voiced(recipe, tracks.drop_last(), master, f),
            f,
        );
    }
}

proof fn lemma_events_len(
    recipe: RecipeView,
    events: Seq<EventView>,
    master: Seq<F32>,
    f: spec_fn(Elementary, F32) -> F32,
)
    ensures
        events_voiced(recipe, events, master, f).len() == master.len(),
    decreases events.len(),
{
    if events.len() > 0 {
        lemma_events_len(recipe, events.drop_last(), master, f);
    }
}

/// A duration is never more samples than a blob can hold.
pub proof fn lemma_duration_bounded(beats: F32, beat_secs: F32, sample_rate: u32)
    ensures
        duration_to_samples(beats, beat_secs, sample_rate) <= MAX_WAV_SAMPLES,
{
    let samples: F64 = samples_at(beats, beat_secs, sample_rate);
    if !F64::from_usize(MAX_WAV_SAMPLES).le(samples) {
        numbers::lemma_below_integer(samples, MAX_WAV_SAMPLES as u64);
    }
    reveal(F64::spec_to_usize);
}

/// Mixes a recipe down.
///
/// The buffer is as long as the timeline and its tail, or, where the recipe
/// loops, as the timeline.  No sample is beyond one, and the loop has no
/// click.
pub fn bake_sequence<M: Fn(Elementary, F32) -> F32>(recipe: &SequenceRecipe, math: &M) -> (r: Vec<
    F32,
>)
    requires
        elementary::answers(*math),
        elementary::saturates(*math),
        mixable(recipe@),
    ensures
        r@ == mixed(recipe@, elementary::table(*math)),
        r.len() == (if recipe.loop_start_beats is Some {
            main_samples(recipe@) as int
        } else {
            master_len(recipe@)
        }),
        forall|i: int| 0 <= i < r.len() ==> elementary::in_unit_range(#[trigger] r[i]),
        loop_point(recipe@) matches Some(at) ==> master::is_seamless(
            recipe@,
            elementary::table(*math),
            at as int,
        ),
{
    let ghost f: spec_fn(Elementary, F32) -> F32 = elementary::table(*math);
    let beat_secs: F32 = beat_seconds(recipe.bpm);
    let main: usize = duration_to_samples(recipe.duration_beats, beat_secs, recipe.sample_rate);
    let tail: usize = duration_to_samples(
        recipe.loop_crossfade_beats,
        beat_secs,
        recipe.sample_rate,
    );
    proof {
        lemma_duration_bounded(recipe.duration_beats, beat_secs, recipe.sample_rate);
        lemma_duration_bounded(recipe.loop_crossfade_beats, beat_secs, recipe.sample_rate);
        lemma_summed_len(
            recipe@,
            recipe@.tracks,
            Seq::new(master_len(recipe@) as nat, |i: int| F32::of(0)),
            f,
        );
    }
    let len: usize = if main + tail <= MAX_WAV_SAMPLES {
        main + tail
    } else {
        MAX_WAV_SAMPLES
    };
    if len == 0 {
        let r: Vec<F32> = Vec::new();
        assert(r@ =~= mixed(recipe@, f));
        return r;
    }
    let mut master: Vec<F32> = sum_events(recipe, len, math);
    let ghost sum: Seq<F32> = master@;
    let mut i: usize = 0;
    while i < master.len()
        invariant
            i <= master.len(),
            f == elementary::table(*math),
            elementary::answers(*math),
            elementary::saturates(*math),
            master.len() == sum.len(),
            forall|j: int| 0 <= j < i ==> elementary::in_unit_range(#[trigger] master[j]),
            forall|j: int|
                0 <= j < master.len() ==> #[trigger] master[j] == (if j < i {
                    f(Elementary::Tanh, sum[j])
                } else {
                    sum[j]
                }),
        decreases master.len() - i,
    {
        let bent: F32 = elementary::ask(math, Elementary::Tanh, master[i]);
        master.set(i, bent);
        i = i + 1;
    }
    assert(master@ =~= soft_clipped(sum, f));
    if recipe.loop_start_beats.is_some() {
        match loop_start_sample(recipe) {
            Some(at) => {
                apply_loop_crossfade(&mut master, at, main, tail);
            },
            None => {},
        }
        master.truncate(main);
    }
    assert(master@ =~= mixed(recipe@, f));
    proof {
        assert forall|k: int| 0 <= k < master.len() implies elementary::in_unit_range(
            #[trigger] master[k],
        ) by {
            master::lemma_master_in_range(recipe@, f, k);
        }
        match loop_point(recipe@) {
            Some(at) => {
                master::lemma_seamless(recipe@, f, at);
            },
            None => {},
        }
    }
    master
}

} // verus!
