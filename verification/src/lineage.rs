//! How recipes are mutated and crossed.
use crate::constants::ONE;
use crate::elementary;
use crate::elementary::Elementary;
use crate::envelope;
use crate::float::F32;
use crate::genetics;
use crate::genetics::{Draw, Tape};
use crate::sequence;
use crate::sequence::{Event, EventView, RecipeView, SequenceRecipe, Track, TrackView};
use vstd::prelude::*;

verus! {

/// Bits of the slowest tempo that mutation leads to: `20.0`.
pub const BPM_MIN: u32 = 0x41a0_0000;

/// Bits of the fastest tempo that mutation leads to: `300.0`.
pub const BPM_MAX: u32 = 0x4396_0000;

/// Bits of the octaves by which mutation moves the tempo: `0.2`.
pub const BPM_HALF_OCTAVES: u32 = 0x3e4c_cccd;

/// Bits of the step by which mutation moves a volume: `0.1`.
pub const VOLUME_HALF_RANGE: u32 = 0x3dcc_cccd;

/// Events after mutation of their volumes, and the next draw.
pub open spec fn events_mutated(
    events: Seq<EventView>,
    d: spec_fn(u64, Draw) -> u64,
    at: u64,
    rate: F32,
) -> (Seq<EventView>, u64)
    decreases events.len(),
{
    if events.len() == 0 {
        (Seq::empty(), at)
    } else {
        let (before, next): (Seq<EventView>, u64) = events_mutated(
            events.drop_last(),
            d,
            at,
            rate,
        );
        let (volume, end): (F32, u64) = genetics::mutated_f32(
            events.last().volume,
            d,
            next,
            rate,
            F32::of(VOLUME_HALF_RANGE),
            F32::of(0),
            F32::of(ONE),
        );
        (before.push(EventView { volume, ..events.last() }), end)
    }
}

/// Tracks after mutation of their events' volumes, and the next draw.
pub open spec fn tracks_mutated(
    tracks: Seq<TrackView>,
    d: spec_fn(u64, Draw) -> u64,
    at: u64,
    rate: F32,
) -> (Seq<TrackView>, u64)
    decreases tracks.len(),
{
    if tracks.len() == 0 {
        (Seq::empty(), at)
    } else {
        let (before, next): (Seq<TrackView>, u64) = tracks_mutated(
            tracks.drop_last(),
            d,
            at,
            rate,
        );
        let (events, end): (Seq<EventView>, u64) = events_mutated(
            tracks.last().events,
            d,
            next,
            rate,
        );
        (before.push(TrackView { events }), end)
    }
}

/// A recipe after mutation of its tempo and its events' volumes, and the next
/// draw.
pub open spec fn recipe_mutated(
    recipe: RecipeView,
    d: spec_fn(u64, Draw) -> u64,
    f: spec_fn(Elementary, F32) -> F32,
    at: u64,
    rate: F32,
) -> (RecipeView, u64) {
    let (bpm, next): (F32, u64) = genetics::mutated_log(
        recipe.bpm,
        d,
        f,
        at,
        rate,
        F32::of(BPM_HALF_OCTAVES),
        F32::of(BPM_MIN),
        F32::of(BPM_MAX),
    );
    let (tracks, end): (Seq<TrackView>, u64) = tracks_mutated(recipe.tracks, d, next, rate);
    (RecipeView { bpm, tracks, ..recipe }, end)
}

/// A child of two recipes, every field whole from one of them.
pub open spec fn recipe_crossed(
    a: RecipeView,
    b: RecipeView,
    d: spec_fn(u64, Draw) -> u64,
    at: u64,
) -> RecipeView {
    RecipeView {
        bpm: genetics::picked(a.bpm, b.bpm, d, at),
        sample_rate: genetics::picked(a.sample_rate, b.sample_rate, d, genetics::nth(at, 1)),
        duration_beats: genetics::picked(
            a.duration_beats,
            b.duration_beats,
            d,
            genetics::nth(at, 2),
        ),
        loop_start_beats: genetics::picked(
            a.loop_start_beats,
            b.loop_start_beats,
            d,
            genetics::nth(at, 3),
        ),
        loop_crossfade_beats: genetics::picked(
            a.loop_crossfade_beats,
            b.loop_crossfade_beats,
            d,
            genetics::nth(at, 4),
        ),
        instruments: genetics::picked(a.instruments, b.instruments, d, genetics::nth(at, 5)),
        tracks: genetics::picked(a.tracks, b.tracks, d, genetics::nth(at, 6)),
    }
}

/// Mutates the volumes of a track's events.
fn mutate_events<D: Fn(u64, Draw) -> u64>(
    events: &mut Vec<Event>,
    tape: &mut Tape<'_, D>,
    rate: F32,
)
    requires
        old(tape).sound(),
    ensures
        ({
            let (v, at): (Seq<EventView>, u64) = events_mutated(
                sequence::events_view(old(events)@),
                old(tape).deck(),
                old(tape).at,
                rate,
            );
            &&& sequence::events_view(final(events)@) == v
            &&& final(tape).at == at
        }),
        final(tape).draws == old(tape).draws,
{
    let ghost all: Seq<EventView> = sequence::events_view(events@);
    let ghost d: spec_fn(u64, Draw) -> u64 = tape.deck();
    let ghost start: u64 = tape.at;
    let ghost draws: &D = tape.draws;
    proof {
        envelope::lemma_rank(0, ONE);
    }
    let mut i: usize = 0;
    assert(all.take(0) =~= Seq::empty());
    while i < events.len()
        invariant
            i <= events.len(),
            events.len() == all.len(),
            tape.draws == draws,
            tape.sound(),
            tape.deck() == d,
            F32::of(0).le(F32::of(ONE)),
            events_mutated(all.take(i as int), d, start, rate).0.len() == i,
            tape.at == events_mutated(all.take(i as int), d, start, rate).1,
            forall|j: int|
                0 <= j < events.len() ==> (#[trigger] events[j])@ == (if j < i {
                    events_mutated(all.take(i as int), d, start, rate).0[j]
                } else {
                    all[j]
                }),
        decreases events.len() - i,
    {
        assert(all.take(i + 1).drop_last() =~= all.take(i as int));
        assert(all.take(i + 1).last() == all[i as int]);
        assert(events[i as int]@ == all[i as int]);
        let volume: F32 = genetics::mutate_f32(
            events[i].volume,
            tape,
            rate,
            F32::of(VOLUME_HALF_RANGE),
            F32::of(0),
            F32::of(ONE),
        );
        events[i].volume = volume;
        i = i + 1;
    }
    assert(all.take(i as int) =~= all);
    assert(sequence::events_view(events@) =~= events_mutated(all, d, start, rate).0);
}

/// Mutates the volumes of all tracks' events.
fn mutate_tracks<D: Fn(u64, Draw) -> u64>(
    tracks: &mut Vec<Track>,
    tape: &mut Tape<'_, D>,
    rate: F32,
)
    requires
        old(tape).sound(),
    ensures
        ({
            let (v, at): (Seq<TrackView>, u64) = tracks_mutated(
                sequence::tracks_view(old(tracks)@),
                old(tape).deck(),
                old(tape).at,
                rate,
            );
            &&& sequence::tracks_view(final(tracks)@) == v
            &&& final(tape).at == at
        }),
        final(tape).draws == old(tape).draws,
{
    let ghost all: Seq<TrackView> = sequence::tracks_view(tracks@);
    let ghost d: spec_fn(u64, Draw) -> u64 = tape.deck();
    let ghost start: u64 = tape.at;
    let ghost draws: &D = tape.draws;
    let mut i: usize = 0;
    assert(all.take(0) =~= Seq::empty());
    while i < tracks.len()
        invariant
            i <= tracks.len(),
            tracks.len() == all.len(),
            tape.draws == draws,
            tape.sound(),
            tape.deck() == d,
            tracks_mutated(all.take(i as int), d, start, rate).0.len() == i,
            tape.at == tracks_mutated(all.take(i as int), d, start, rate).1,
            forall|j: int|
                0 <= j < tracks.len() ==> (#[trigger] tracks[j])@ == (if j < i {
                    tracks_mutated(all.take(i as int), d, start, rate).0[j]
                } else {
                    all[j]
                }),
        decreases tracks.len() - i,
    {
        assert(all.take(i + 1).drop_last() =~= all.take(i as int));
        assert(all.take(i + 1).last() == all[i as int]);
        assert(tracks[i as int]@ == all[i as int]);
        mutate_events(&mut tracks[i].events, tape, rate);
        i = i + 1;
    }
    assert(all.take(i as int) =~= all);
    assert(sequence::tracks_view(tracks@) =~= tracks_mutated(all, d, start, rate).0);
}

impl SequenceRecipe {
    /// Mutates the tempo and the events' volumes.
    pub fn mutate<D: Fn(u64, Draw) -> u64, M: Fn(Elementary, F32) -> F32>(
        &mut self,
        tape: &mut Tape<'_, D>,
        rate: F32,
        math: &M,
    )
        requires
            old(tape).sound(),
            elementary::answers(*math),
        ensures
            ({
                let (v, at): (RecipeView, u64) = recipe_mutated(
                    old(self)@,
                    old(tape).deck(),
                    elementary::table(*math),
                    old(tape).at,
                    rate,
                );
                &&& final(self)@ == v
                &&& final(tape).at == at
            }),
            final(tape).draws == old(tape).draws,
    {
        proof {
            envelope::lemma_rank(BPM_MIN, BPM_MAX);
        }
        self.bpm = genetics::mutate_f32_log(
            self.bpm,
            tape,
            rate,
            F32::of(BPM_HALF_OCTAVES),
            F32::of(BPM_MIN),
            F32::of(BPM_MAX),
            math,
        );
        mutate_tracks(&mut self.tracks, tape, rate);
    }

    /// Takes every field whole from one of two parents.
    pub fn crossover<D: Fn(u64, Draw) -> u64>(
        &self,
        other: &SequenceRecipe,
        tape: &mut Tape<'_, D>,
    ) -> (r: SequenceRecipe)
        requires
            old(tape).sound(),
        ensures
            r@ == recipe_crossed(self@, other@, old(tape).deck(), old(tape).at),
            final(tape).at == genetics::nth(old(tape).at, 7),
            final(tape).draws == old(tape).draws,
    {
        proof {
            reveal_with_fuel(genetics::nth, 8);
        }
        SequenceRecipe {
            bpm: if tape.coin() {
                self.bpm
            } else {
                other.bpm
            },
            sample_rate: if tape.coin() {
                self.sample_rate
            } else {
                other.sample_rate
            },
            duration_beats: if tape.coin() {
                self.duration_beats
            } else {
                other.duration_beats
            },
            loop_start_beats: if tape.coin() {
                self.loop_start_beats
            } else {
                other.loop_start_beats
            },
            loop_crossfade_beats: if tape.coin() {
                self.loop_crossfade_beats
            } else {
                other.loop_crossfade_beats
            },
            instruments: if tape.coin() {
                sequence::copy_instruments(&self.instruments)
            } else {
                sequence::copy_instruments(&other.instruments)
            },
            tracks: if tape.coin() {
                sequence::copy_tracks(&self.tracks)
            } else {
                sequence::copy_tracks(&other.tracks)
            },
        }
    }
}

/// Mutation changes a recipe's tempo and volumes and nothing else.
pub proof fn law_mutation_keeps_the_score(
    recipe: RecipeView,
    d: spec_fn(u64, Draw) -> u64,
    f: spec_fn(Elementary, F32) -> F32,
    at: u64,
    rate: F32,
)
    ensures
        ({
            let m: RecipeView = recipe_mutated(recipe, d, f, at, rate).0;
            &&& m.sample_rate == recipe.sample_rate
            &&& m.duration_beats == recipe.duration_beats
            &&& m.loop_start_beats == recipe.loop_start_beats
            &&& m.loop_crossfade_beats == recipe.loop_crossfade_beats
            &&& m.instruments == recipe.instruments
            &&& m.tracks.len() == recipe.tracks.len()
            &&& forall|t: int|
                0 <= t < recipe.tracks.len() ==> same_but_volumes(
                    #[trigger] m.tracks[t].events,
                    recipe.tracks[t].events,
                )
        }),
{
    let next: u64 = genetics::mutated_log(
        recipe.bpm,
        d,
        f,
        at,
        rate,
        F32::of(BPM_HALF_OCTAVES),
        F32::of(BPM_MIN),
        F32::of(BPM_MAX),
    ).1;
    lemma_tracks_keep(recipe.tracks, d, next, rate);
}

/// Two lists of events differ in their volumes only.
pub open spec fn same_but_volumes(a: Seq<EventView>, b: Seq<EventView>) -> bool {
    &&& a.len() == b.len()
    &&& forall|i: int|
        0 <= i < a.len() ==> (#[trigger] a[i]) == (EventView { volume: a[i].volume, ..b[i] })
}

proof fn lemma_events_keep(
    events: Seq<EventView>,
    d: spec_fn(u64, Draw) -> u64,
    at: u64,
    rate: F32,
)
    ensures
        same_but_volumes(events_mutated(events, d, at, rate).0, events),
    decreases events.len(),
{
    if events.len() > 0 {
        lemma_events_keep(events.drop_last(), d, at, rate);
        let m: Seq<EventView> = events_mutated(events, d, at, rate).0;
        let before: Seq<EventView> = events_mutated(events.drop_last(), d, at, rate).0;
        assert forall|i: int| 0 <= i < m.len() implies (#[trigger] m[i]) == (EventView {
            volume: m[i].volume,
            ..events[i]
        }) by {
            if i < before.len() {
                assert(m[i] == before[i]);
                assert(events.drop_last()[i] == events[i]);
            }
        }
    }
}

proof fn lemma_tracks_keep(
    tracks: Seq<TrackView>,
    d: spec_fn(u64, Draw) -> u64,
    at: u64,
    rate: F32,
)
    ensures
        ({
            let m: Seq<TrackView> = tracks_mutated(tracks, d, at, rate).0;
            &&& m.len() == tracks.len()
            &&& forall|t: int|
                0 <= t < tracks.len() ==> same_but_volumes(
                    #[trigger] m[t].events,
                    tracks[t].events,
                )
        }),
    decreases tracks.len(),
{
    if tracks.len() > 0 {
        let front: Seq<TrackView> = tracks.drop_last();
        lemma_tracks_keep(front, d, at, rate);
        let before: Seq<TrackView> = tracks_mutated(front, d, at, rate).0;
        let next: u64 = tracks_mutated(front, d, at, rate).1;
        lemma_events_keep(tracks.last().events, d, next, rate);
        let m: Seq<TrackView> = tracks_mutated(tracks, d, at, rate).0;
        assert forall|t: int| 0 <= t < tracks.len() implies same_but_volumes(
            #[trigger] m[t].events,
            tracks[t].events,
        ) by {
            if t < front.len() {
                assert(m[t] == before[t]);
                assert(front[t] == tracks[t]);
            }
        }
    }
}

/// A child of two recipes has every field whole from one of them.
pub proof fn law_recipe_child_has_its_parents_fields(
    a: RecipeView,
    b: RecipeView,
    d: spec_fn(u64, Draw) -> u64,
    at: u64,
)
    ensures
        ({
            let c: RecipeView = recipe_crossed(a, b, d, at);
            &&& c.bpm == a.bpm || c.bpm == b.bpm
            &&& c.sample_rate == a.sample_rate || c.sample_rate == b.sample_rate
            &&& c.duration_beats == a.duration_beats || c.duration_beats == b.duration_beats
            &&& c.loop_start_beats == a.loop_start_beats || c.loop_start_beats == b.loop_start_beats
            &&& c.loop_crossfade_beats == a.loop_crossfade_beats || c.loop_crossfade_beats
                == b.loop_crossfade_beats
            &&& c.instruments == a.instruments || c.instruments == b.instruments
            &&& c.tracks == a.tracks || c.tracks == b.tracks
        }),
{
}

/// At a rate of zero, or of less than zero, mutation leaves a recipe as it is.
pub proof fn law_zero_rate_leaves_the_recipe(
    recipe: RecipeView,
    d: spec_fn(u64, Draw) -> u64,
    f: spec_fn(Elementary, F32) -> F32,
    at: u64,
    rate: F32,
)
    requires
        genetics::fair(d),
        !F32::of(0).lt(rate),
    ensures
        recipe_mutated(recipe, d, f, at, rate).0 == recipe,
{
    genetics::lemma_zero_rate_misses(d, rate);
    let next: u64 = genetics::mutated_log(
        recipe.bpm,
        d,
        f,
        at,
        rate,
        F32::of(BPM_HALF_OCTAVES),
        F32::of(BPM_MIN),
        F32::of(BPM_MAX),
    ).1;
    lemma_tracks_miss(recipe.tracks, d, next, rate);
}

proof fn lemma_tracks_miss(
    tracks: Seq<TrackView>,
    d: spec_fn(u64, Draw) -> u64,
    at: u64,
    rate: F32,
)
    requires
        forall|i: u64| !#[trigger] genetics::hit(d, i, rate),
    ensures
        tracks_mutated(tracks, d, at, rate).0 == tracks,
    decreases tracks.len(),
{
    if tracks.len() > 0 {
        lemma_tracks_miss(tracks.drop_last(), d, at, rate);
        let next: u64 = tracks_mutated(tracks.drop_last(), d, at, rate).1;
        lemma_events_miss(tracks.last().events, d, next, rate);
    }
    assert(tracks_mutated(tracks, d, at, rate).0 =~= tracks);
}

proof fn lemma_events_miss(
    events: Seq<EventView>,
    d: spec_fn(u64, Draw) -> u64,
    at: u64,
    rate: F32,
)
    requires
        forall|i: u64| !#[trigger] genetics::hit(d, i, rate),
    ensures
        events_mutated(events, d, at, rate).0 == events,
    decreases events.len(),
{
    if events.len() > 0 {
        lemma_events_miss(events.drop_last(), d, at, rate);
    }
    assert(events_mutated(events, d, at, rate).0 =~= events);
}

/// All volumes lie between zero and one.
pub open spec fn volumes_in_range(events: Seq<EventView>) -> bool {
    forall|i: int|
        0 <= i < events.len() ==> envelope::within(
            (#[trigger] events[i]).volume,
            F32::of(0),
            F32::of(ONE),
        )
}

/// The tempo and all volumes lie in the ranges that mutation keeps to.
pub open spec fn recipe_in_range(recipe: RecipeView) -> bool {
    &&& envelope::within(recipe.bpm, F32::of(BPM_MIN), F32::of(BPM_MAX))
    &&& forall|t: int|
        0 <= t < recipe.tracks.len() ==> volumes_in_range(#[trigger] recipe.tracks[t].events)
}

/// Mutation leaves the tempo and all volumes in their ranges.
pub proof fn law_mutation_keeps_the_recipe_in_range(
    recipe: RecipeView,
    d: spec_fn(u64, Draw) -> u64,
    f: spec_fn(Elementary, F32) -> F32,
    at: u64,
    rate: F32,
)
    requires
        recipe_in_range(recipe),
        genetics::fair(d),
        genetics::powers(f),
    ensures
        recipe_in_range(recipe_mutated(recipe, d, f, at, rate).0),
{
    genetics::lemma_log_stays(recipe.bpm, d, f, at, rate, BPM_HALF_OCTAVES, BPM_MIN, BPM_MAX);
    let next: u64 = genetics::mutated_log(
        recipe.bpm,
        d,
        f,
        at,
        rate,
        F32::of(BPM_HALF_OCTAVES),
        F32::of(BPM_MIN),
        F32::of(BPM_MAX),
    ).1;
    lemma_tracks_stay(recipe.tracks, d, next, rate);
}

proof fn lemma_tracks_stay(
    tracks: Seq<TrackView>,
    d: spec_fn(u64, Draw) -> u64,
    at: u64,
    rate: F32,
)
    requires
        genetics::fair(d),
        forall|t: int| 0 <= t < tracks.len() ==> volumes_in_range(#[trigger] tracks[t].events),
    ensures
        ({
            let m: Seq<TrackView> = tracks_mutated(tracks, d, at, rate).0;
            &&& m.len() == tracks.len()
            &&& forall|t: int| 0 <= t < m.len() ==> volumes_in_range(#[trigger] m[t].events)
        }),
    decreases tracks.len(),
{
    if tracks.len() > 0 {
        let front: Seq<TrackView> = tracks.drop_last();
        assert forall|t: int| 0 <= t < front.len() implies volumes_in_range(
            #[trigger] front[t].events,
        ) by {
            assert(front[t] == tracks[t]);
        }
        lemma_tracks_stay(front, d, at, rate);
        let before: Seq<TrackView> = tracks_mutated(front, d, at, rate).0;
        let next: u64 = tracks_mutated(front, d, at, rate).1;
        assert(volumes_in_range(tracks[tracks.len() - 1].events));
        lemma_events_stay(tracks.last().events, d, next, rate);
        let m: Seq<TrackView> = tracks_mutated(tracks, d, at, rate).0;
        assert forall|t: int| 0 <= t < m.len() implies volumes_in_range(#[trigger] m[t].events) by {
            if t < front.len() {
                assert(m[t] == before[t]);
            }
        }
    }
}

proof fn lemma_events_stay(
    events: Seq<EventView>,
    d: spec_fn(u64, Draw) -> u64,
    at: u64,
    rate: F32,
)
    requires
        genetics::fair(d),
        volumes_in_range(events),
    ensures
        volumes_in_range(events_mutated(events, d, at, rate).0),
        events_mutated(events, d, at, rate).0.len() == events.len(),
    decreases events.len(),
{
    if events.len() > 0 {
        let front: Seq<EventView> = events.drop_last();
        assert(volumes_in_range(front)) by {
            assert forall|i: int| 0 <= i < front.len() implies envelope::within(
                (#[trigger] front[i]).volume,
                F32::of(0),
                F32::of(ONE),
            ) by {
                assert(front[i] == events[i]);
            }
        }
        lemma_events_stay(front, d, at, rate);
        let (before, next): (Seq<EventView>, u64) = events_mutated(front, d, at, rate);
        assert(envelope::within(events[events.len() - 1].volume, F32::of(0), F32::of(ONE)));
        genetics::lemma_f32_stays(
            events.last().volume,
            d,
            next,
            rate,
            VOLUME_HALF_RANGE,
            0,
            ONE,
        );
        let m: Seq<EventView> = events_mutated(events, d, at, rate).0;
        assert forall|i: int| 0 <= i < m.len() implies envelope::within(
            (#[trigger] m[i]).volume,
            F32::of(0),
            F32::of(ONE),
        ) by {
            if i < before.len() {
                assert(m[i] == before[i]);
            }
        }
    }
}

} // verus!
