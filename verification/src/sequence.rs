//! The timeline above single patches: instruments, tracks, timed events.
//!
//! A recipe names instruments, each a whole patch, and schedules events on
//! tracks in beats.  Pitch is a continuous multiplier; each event chooses
//! whether it is applied by resampling or by retuning the oscillators.
use crate::constants::{FOUR, ONE};
use crate::float::F32;
use crate::patch::{AudioPatch, PatchView};
use vstd::prelude::*;

verus! {

/// Bits of `120.0`.
pub const DEFAULT_BPM: u32 = 0x42f0_0000;

/// How an event's pitch multiplier is applied.
#[derive(Clone, Copy, Debug, PartialEq, Eq, Structural)]
pub enum PitchMode {
    /// By resampling: pitch and duration are coupled.
    Varispeed,
    /// By retuning the oscillators: the duration stays.
    TimePreserving,
}

impl Default for PitchMode {
    fn default() -> (r: PitchMode)
        ensures
            r == PitchMode::Varispeed,
    {
        PitchMode::Varispeed
    }
}

/// One scheduled sound.
#[derive(Debug, PartialEq)]
pub struct Event {
    /// Start in beats.
    pub time_beats: F32,
    /// Which instrument plays.
    pub instrument_id: String,
    /// Pitch multiplier; one is the native pitch.
    pub pitch_multiplier: F32,
    /// Volume, kept between zero and one.
    pub volume: F32,
    /// How long the note gate is open, in beats.
    pub gate_beats: F32,
    /// How long the sound goes on after the note gate has closed, in beats.
    pub release_beats: F32,
    /// How the pitch multiplier is applied.
    pub pitch_mode: PitchMode,
}

/// The contents of an [`Event`].
#[verifier::ext_equal]
pub struct EventView {
    /// Start in beats.
    pub time_beats: F32,
    /// Which instrument plays.
    pub instrument_id: Seq<char>,
    /// Pitch multiplier.
    pub pitch_multiplier: F32,
    /// Volume.
    pub volume: F32,
    /// How long the note gate is open.
    pub gate_beats: F32,
    /// How long the sound goes on after the note gate has closed.
    pub release_beats: F32,
    /// How the pitch multiplier is applied.
    pub pitch_mode: PitchMode,
}

impl View for Event {
    type V = EventView;

    open spec fn view(&self) -> EventView {
        EventView {
            time_beats: self.time_beats,
            instrument_id: self.instrument_id@,
            pitch_multiplier: self.pitch_multiplier,
            volume: self.volume,
            gate_beats: self.gate_beats,
            release_beats: self.release_beats,
            pitch_mode: self.pitch_mode,
        }
    }
}

impl EventView {
    /// One beat at the start, at native pitch and full volume, on the
    /// instrument without a name.
    pub open spec fn preset() -> EventView {
        EventView {
            time_beats: F32::of(0),
            instrument_id: Seq::empty(),
            pitch_multiplier: F32::of(ONE),
            volume: F32::of(ONE),
            gate_beats: F32::of(ONE),
            release_beats: F32::of(0),
            pitch_mode: PitchMode::Varispeed,
        }
    }
}

impl Default for Event {
    fn default() -> (r: Event)
        ensures
            r@ == EventView::preset(),
    {
        Event {
            time_beats: F32::of(0),
            instrument_id: String::new(),
            pitch_multiplier: F32::of(ONE),
            volume: F32::of(ONE),
            gate_beats: F32::of(ONE),
            release_beats: F32::of(0),
            pitch_mode: PitchMode::Varispeed,
        }
    }
}

impl Clone for Event {
    fn clone(&self) -> (r: Event)
        ensures
            r@ == self@,
    {
        Event {
            time_beats: self.time_beats,
            instrument_id: self.instrument_id.clone(),
            pitch_multiplier: self.pitch_multiplier,
            volume: self.volume,
            gate_beats: self.gate_beats,
            release_beats: self.release_beats,
            pitch_mode: self.pitch_mode,
        }
    }
}

/// A track of events; all tracks are summed.
#[derive(Debug, PartialEq)]
pub struct Track {
    /// The events.
    pub events: Vec<Event>,
}

/// The contents of a [`Track`].
#[verifier::ext_equal]
pub struct TrackView {
    /// The events.
    pub events: Seq<EventView>,
}

/// The contents of a list of events.
pub open spec fn events_view(events: Seq<Event>) -> Seq<EventView> {
    events.map_values(|e: Event| e@)
}

impl View for Track {
    type V = TrackView;

    open spec fn view(&self) -> TrackView {
        TrackView { events: events_view(self.events@) }
    }
}

impl Default for Track {
    fn default() -> (r: Track)
        ensures
            r@ == (TrackView { events: Seq::empty() }),
    {
        let r: Track = Track { events: Vec::new() };
        assert(r@.events =~= Seq::empty());
        r
    }
}

impl Clone for Track {
    fn clone(&self) -> (r: Track)
        ensures
            r@ == self@,
    {
        let mut events: Vec<Event> = Vec::new();
        let mut i: usize = 0;
        while i < self.events.len()
            invariant
                i <= self.events.len(),
                events.len() == i,
                forall|j: int| 0 <= j < i ==> (#[trigger] events[j])@ == self.events[j]@,
            decreases self.events.len() - i,
        {
            events.push(self.events[i].clone());
            i = i + 1;
        }
        assert(events_view(events@) =~= events_view(self.events@));
        Track { events }
    }
}

/// A patch with a name.
#[derive(Debug, PartialEq)]
pub struct Instrument {
    /// The name that events use.
    pub id: String,
    /// The patch.
    pub patch: AudioPatch,
}

/// The contents of an [`Instrument`].
#[verifier::ext_equal]
pub struct InstrumentView {
    /// The name that events use.
    pub id: Seq<char>,
    /// The patch.
    pub patch: PatchView,
}

impl View for Instrument {
    type V = InstrumentView;

    open spec fn view(&self) -> InstrumentView {
        InstrumentView { id: self.id@, patch: self.patch@ }
    }
}

impl Default for Instrument {
    fn default() -> (r: Instrument)
        ensures
            r@ == (InstrumentView { id: Seq::empty(), patch: PatchView::silent() }),
    {
        Instrument { id: String::new(), patch: AudioPatch::default() }
    }
}

impl Clone for Instrument {
    fn clone(&self) -> (r: Instrument)
        ensures
            r@ == self@,
    {
        Instrument { id: self.id.clone(), patch: self.patch.clone() }
    }
}

/// Instruments, tracks and the grid that they sit on.
#[derive(Debug, PartialEq)]
pub struct SequenceRecipe {
    /// Beats per minute.
    pub bpm: F32,
    /// Samples per second.
    pub sample_rate: u32,
    /// Length of the timeline in beats.
    pub duration_beats: F32,
    /// The beat to which a loop goes back; `None` does not loop.
    pub loop_start_beats: Option<F32>,
    /// Length in beats of the tail that a loop folds into its start.
    pub loop_crossfade_beats: F32,
    /// The instruments.
    pub instruments: Vec<Instrument>,
    /// The tracks.
    pub tracks: Vec<Track>,
}

/// The contents of a [`SequenceRecipe`].
#[verifier::ext_equal]
pub struct RecipeView {
    /// Beats per minute.
    pub bpm: F32,
    /// Samples per second.
    pub sample_rate: u32,
    /// Length of the timeline in beats.
    pub duration_beats: F32,
    /// The beat to which a loop goes back.
    pub loop_start_beats: Option<F32>,
    /// Length in beats of the tail that a loop folds into its start.
    pub loop_crossfade_beats: F32,
    /// The instruments.
    pub instruments: Seq<InstrumentView>,
    /// The tracks.
    pub tracks: Seq<TrackView>,
}

/// The contents of a list of instruments.
pub open spec fn instruments_view(instruments: Seq<Instrument>) -> Seq<InstrumentView> {
    instruments.map_values(|i: Instrument| i@)
}

/// The contents of a list of tracks.
pub open spec fn tracks_view(tracks: Seq<Track>) -> Seq<TrackView> {
    tracks.map_values(|t: Track| t@)
}

impl View for SequenceRecipe {
    type V = RecipeView;

    open spec fn view(&self) -> RecipeView {
        RecipeView {
            bpm: self.bpm,
            sample_rate: self.sample_rate,
            duration_beats: self.duration_beats,
            loop_start_beats: self.loop_start_beats,
            loop_crossfade_beats: self.loop_crossfade_beats,
            instruments: instruments_view(self.instruments@),
            tracks: tracks_view(self.tracks@),
        }
    }
}

impl RecipeView {
    /// Four empty beats.
    pub open spec fn preset() -> RecipeView {
        RecipeView {
            bpm: F32::of(DEFAULT_BPM),
            sample_rate: 44_100,
            duration_beats: F32::of(FOUR),
            loop_start_beats: None,
            loop_crossfade_beats: F32::of(0),
            instruments: Seq::empty(),
            tracks: Seq::empty(),
        }
    }
}

impl Default for SequenceRecipe {
    fn default() -> (r: SequenceRecipe)
        ensures
            r@ == RecipeView::preset(),
    {
        let r: SequenceRecipe = SequenceRecipe {
            bpm: F32::of(DEFAULT_BPM),
            sample_rate: 44_100,
            duration_beats: F32::of(FOUR),
            loop_start_beats: None,
            loop_crossfade_beats: F32::of(0),
            instruments: Vec::new(),
            tracks: Vec::new(),
        };
        assert(r@.instruments =~= Seq::empty());
        assert(r@.tracks =~= Seq::empty());
        r
    }
}

/// Copies a list of instruments.
pub fn copy_instruments(list: &Vec<Instrument>) -> (r: Vec<Instrument>)
    ensures
        instruments_view(r@) == instruments_view(list@),
{
    let mut r: Vec<Instrument> = Vec::new();
    let mut i: usize = 0;
    while i < list.len()
        invariant
            i <= list.len(),
            r.len() == i,
            forall|j: int| 0 <= j < i ==> (#[trigger] r[j])@ == list[j]@,
        decreases list.len() - i,
    {
        r.push(list[i].clone());
        i = i + 1;
    }
    assert(instruments_view(r@) =~= instruments_view(list@));
    r
}

/// Copies a list of tracks.
pub fn copy_tracks(list: &Vec<Track>) -> (r: Vec<Track>)
    ensures
        tracks_view(r@) == tracks_view(list@),
{
    let mut r: Vec<Track> = Vec::new();
    let mut i: usize = 0;
    while i < list.len()
        invariant
            i <= list.len(),
            r.len() == i,
            forall|j: int| 0 <= j < i ==> (#[trigger] r[j])@ == list[j]@,
        decreases list.len() - i,
    {
        r.push(list[i].clone());
        i = i + 1;
    }
    assert(tracks_view(r@) =~= tracks_view(list@));
    r
}

impl Clone for SequenceRecipe {
    fn clone(&self) -> (r: SequenceRecipe)
        ensures
            r@ == self@,
    {
        SequenceRecipe {
            bpm: self.bpm,
            sample_rate: self.sample_rate,
            duration_beats: self.duration_beats,
            loop_start_beats: self.loop_start_beats,
            loop_crossfade_beats: self.loop_crossfade_beats,
            instruments: copy_instruments(&self.instruments),
            tracks: copy_tracks(&self.tracks),
        }
    }
}

} // verus!
