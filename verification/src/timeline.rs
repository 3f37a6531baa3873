//! What a mix is made of: how tracks and events add up, which patch an event
//! sounds, when it starts, how long it is and how loud.
use crate::bake;
use crate::constants::ONE;
use crate::elementary::Elementary;
use crate::envelope;
use crate::float::F32;
use crate::limits;
use crate::master;
use crate::mixdown;
use crate::numbers;
use crate::patch::{NodeView, PatchView};
use crate::sequence::{EventView, InstrumentView, PitchMode, RecipeView, TrackView};
use crate::wav::MAX_WAV_SAMPLES;
use vstd::prelude::*;

verus! {

/// The same recipe with other tracks.
pub open spec fn with_tracks(recipe: RecipeView, tracks: Seq<TrackView>) -> RecipeView {
    RecipeView { tracks, ..recipe }
}

/// The same recipe with one track, of some events.
pub open spec fn with_events(recipe: RecipeView, events: Seq<EventView>) -> RecipeView {
    with_tracks(recipe, seq![TrackView { events }])
}

/// The events of all tracks, one track after the other.
pub open spec fn all_events(recipe: RecipeView) -> Seq<EventView> {
    recipe.tracks.map_values(|t: TrackView| t.events).flatten()
}

/// What an event adds does not depend on the tracks of its recipe.
proof fn lemma_voiced_anywhere(
    recipe: RecipeView,
    tracks: Seq<TrackView>,
    event: EventView,
    master: Seq<F32>,
    f: spec_fn(Elementary, F32) -> F32,
)
    ensures
        mixdown::voiced(with_tracks(recipe, tracks), event, master, f) == mixdown::voiced(
            recipe,
            event,
            master,
            f,
        ),
{
    let other: RecipeView = with_tracks(recipe, tracks);
    assert(mixdown::voice(other, event) == mixdown::voice(recipe, event));
    assert(mixdown::source(other, event, f) == mixdown::source(recipe, event, f));
}

/// What events add does not depend on the tracks of their recipe.
proof fn lemma_events_anywhere(
    recipe: RecipeView,
    tracks: Seq<TrackView>,
    events: Seq<EventView>,
    master: Seq<F32>,
    f: spec_fn(Elementary, F32) -> F32,
)
    ensures
        mixdown::events_voiced(with_tracks(recipe, tracks), events, master, f)
            == mixdown::events_voiced(recipe, events, master, f),
    decreases events.len(),
{
    if events.len() > 0 {
        lemma_events_anywhere(recipe, tracks, events.drop_last(), master, f);
        lemma_voiced_anywhere(
            recipe,
            tracks,
            events.last(),
            mixdown::events_voiced(recipe, events.drop_last(), master, f),
            f,
        );
    }
}

/// Events in a row are added one row after the other.
proof fn lemma_events_join(
    recipe: RecipeView,
    a: Seq<EventView>,
    b: Seq<EventView>,
    master: Seq<F32>,
    f: spec_fn(Elementary, F32) -> F32,
)
    ensures
        mixdown::events_voiced(recipe, a + b, master, f) == mixdown::events_voiced(
            recipe,
            b,
            mixdown::events_voiced(recipe, a, master, f),
            f,
        ),
    decreases b.len(),
{
    if b.len() == 0 {
        assert(a + b =~= a);
    } else {
        lemma_events_join(recipe, a, b.drop_last(), master, f);
        assert((a + b).drop_last() =~= a + b.drop_last());
        assert((a + b).last() == b.last());
    }
}

/// Tracks are added as their events are, one track after the other.
proof fn lemma_tracks_join(
    recipe: RecipeView,
    tracks: Seq<TrackView>,
    master: Seq<F32>,
    f: spec_fn(Elementary, F32) -> F32,
)
    ensures
        mixdown::tracks_voiced(recipe, tracks, master, f) == mixdown::events_voiced(
            recipe,
            tracks.map_values(|t: TrackView| t.events).flatten_alt(),
            master,
            f,
        ),
    decreases tracks.len(),
{
    let lists: Seq<Seq<EventView>> = tracks.map_values(|t: TrackView| t.events);
    if tracks.len() > 0 {
        let front: Seq<TrackView> = tracks.drop_last();
        lemma_tracks_join(recipe, front, master, f);
        assert(lists.drop_last() =~= front.map_values(|t: TrackView| t.events));
        assert(lists.flatten_alt() == lists.drop_last().flatten_alt() + lists.last());
        lemma_events_join(
            recipe,
            lists.drop_last().flatten_alt(),
            tracks.last().events,
            master,
            f,
        );
    }
}

/// The sum of all events is the sum of the events of one track that has them
/// all.
proof fn lemma_summed(recipe: RecipeView, tracks: Seq<TrackView>, f: spec_fn(Elementary, F32) -> F32)
    requires
        tracks.map_values(|t: TrackView| t.events).flatten() == all_events(recipe),
    ensures
        mixdown::summed(with_tracks(recipe, tracks), f) == mixdown::summed(recipe, f),
{
    let other: RecipeView = with_tracks(recipe, tracks);
    let zeros: Seq<F32> = Seq::new(mixdown::master_len(recipe) as nat, |i: int| F32::of(0));
    assert(zeros =~= Seq::new(mixdown::master_len(other) as nat, |i: int| F32::of(0)));
    lemma_tracks_join(recipe, recipe.tracks, zeros, f);
    lemma_tracks_join(other, tracks, zeros, f);
    recipe.tracks.map_values(
        |t: TrackView| t.events,
    ).lemma_flatten_and_flatten_alt_are_equivalent();
    tracks.map_values(|t: TrackView| t.events).lemma_flatten_and_flatten_alt_are_equivalent();
    lemma_events_anywhere(recipe, tracks, all_events(recipe), zeros, f);
}

/// Recipes that differ in their tracks alone and sum up alike mix alike.
proof fn lemma_mixed(recipe: RecipeView, tracks: Seq<TrackView>, f: spec_fn(Elementary, F32) -> F32)
    requires
        mixdown::summed(with_tracks(recipe, tracks), f) == mixdown::summed(recipe, f),
    ensures
        mixdown::mixed(with_tracks(recipe, tracks), f) == mixdown::mixed(recipe, f),
{
}

/// Tracks add up: a recipe mixes to the same buffer however its events are
/// divided into tracks, as long as their order stays.
pub proof fn law_dividing_into_tracks_does_not_matter(
    recipe: RecipeView,
    tracks: Seq<TrackView>,
    f: spec_fn(Elementary, F32) -> F32,
)
    requires
        all_events(with_tracks(recipe, tracks)) == all_events(recipe),
    ensures
        mixdown::mixed(with_tracks(recipe, tracks), f) == mixdown::mixed(recipe, f),
{
    lemma_summed(recipe, tracks, f);
    lemma_mixed(recipe, tracks, f);
}

/// A recipe mixes to the same buffer as one with a single track that holds
/// the events of all tracks in their order.
pub proof fn law_one_track_can_hold_all_events(
    recipe: RecipeView,
    f: spec_fn(Elementary, F32) -> F32,
)
    ensures
        mixdown::mixed(with_events(recipe, all_events(recipe)), f) == mixdown::mixed(recipe, f),
{
    let one: TrackView = TrackView { events: all_events(recipe) };
    let lists: Seq<Seq<EventView>> = seq![one].map_values(|t: TrackView| t.events);
    assert(lists =~= seq![all_events(recipe)]);
    lists.lemma_flatten_one_element();
    law_dividing_into_tracks_does_not_matter(recipe, seq![one], f);
}

/// Lists that are all empty have nothing in a row.
proof fn lemma_nothing_in_a_row(lists: Seq<Seq<EventView>>)
    requires
        forall|t: int| 0 <= t < lists.len() ==> (#[trigger] lists[t]).len() == 0,
    ensures
        lists.flatten() == Seq::<EventView>::empty(),
    decreases lists.len(),
{
    if lists.len() > 0 {
        let rest: Seq<Seq<EventView>> = lists.drop_first();
        assert forall|t: int| 0 <= t < rest.len() implies (#[trigger] rest[t]).len() == 0 by {
            assert(rest[t] == lists[t + 1]);
        }
        lemma_nothing_in_a_row(rest);
        assert(lists[0].len() == 0);
        assert(lists.flatten() =~= Seq::empty());
    }
}

/// Among empty lists one list is all there is in a row.
proof fn lemma_one_in_a_row(lists: Seq<Seq<EventView>>, k: int)
    requires
        0 <= k < lists.len(),
        forall|t: int| 0 <= t < lists.len() && t != k ==> (#[trigger] lists[t]).len() == 0,
    ensures
        lists.flatten() == lists[k],
    decreases lists.len(),
{
    let rest: Seq<Seq<EventView>> = lists.drop_first();
    assert forall|t: int| 0 <= t < rest.len() && t != k - 1 implies (#[trigger] rest[t]).len()
        == 0 by {
        assert(rest[t] == lists[t + 1]);
    }
    if k == 0 {
        lemma_nothing_in_a_row(rest);
        assert(lists.flatten() =~= lists[0]);
    } else {
        lemma_one_in_a_row(rest, k - 1);
        assert(lists[0].len() == 0);
        assert(lists.flatten() =~= lists[k]);
    }
}

/// Where every track but one is empty, the recipe mixes to the same buffer
/// as with that track alone, whichever it is.
pub proof fn law_empty_tracks_do_not_matter(
    recipe: RecipeView,
    k: int,
    f: spec_fn(Elementary, F32) -> F32,
)
    requires
        0 <= k < recipe.tracks.len(),
        forall|t: int|
            0 <= t < recipe.tracks.len() && t != k ==> (#[trigger] recipe.tracks[t]).events.len()
                == 0,
    ensures
        mixdown::mixed(with_tracks(recipe, seq![recipe.tracks[k]]), f) == mixdown::mixed(recipe, f),
{
    let lists: Seq<Seq<EventView>> = recipe.tracks.map_values(|t: TrackView| t.events);
    assert forall|t: int| 0 <= t < lists.len() && t != k implies (#[trigger] lists[t]).len()
        == 0 by {
        assert(recipe.tracks[t].events.len() == 0);
    }
    lemma_one_in_a_row(lists, k);
    let alone: Seq<Seq<EventView>> = seq![recipe.tracks[k]].map_values(|t: TrackView| t.events);
    assert(alone =~= seq![recipe.tracks[k].events]);
    alone.lemma_flatten_one_element();
    law_dividing_into_tracks_does_not_matter(recipe, seq![recipe.tracks[k]], f);
}

/// A buffer of the master's length that holds nothing.
pub open spec fn is_silent(buffer: Seq<F32>, recipe: RecipeView) -> bool {
    &&& buffer.len() == mixdown::master_len(recipe)
    &&& forall|i: int| 0 <= i < buffer.len() ==> #[trigger] buffer[i] == F32::of(0)
}

/// Without events there is nothing to sum.
pub proof fn law_no_events_sum_to_silence(recipe: RecipeView, f: spec_fn(Elementary, F32) -> F32)
    requires
        all_events(recipe).len() == 0,
    ensures
        is_silent(mixdown::summed(recipe, f), recipe),
{
    let zeros: Seq<F32> = Seq::new(mixdown::master_len(recipe) as nat, |i: int| F32::of(0));
    lemma_tracks_join(recipe, recipe.tracks, zeros, f);
    recipe.tracks.map_values(
        |t: TrackView| t.events,
    ).lemma_flatten_and_flatten_alt_are_equivalent();
}

/// What an event sounds before its volume is applied: its bake as it is
/// where it keeps its duration, else the bake resampled to its pitch, no
/// longer than the room behind its start.
pub open spec fn is_sound_of(
    sound: Seq<F32>,
    recipe: RecipeView,
    event: EventView,
    room: int,
    f: spec_fn(Elementary, F32) -> F32,
) -> bool {
    match mixdown::source(recipe, event, f) {
        None => sound.len() == 0,
        Some(src) => match event.pitch_mode {
            PitchMode::TimePreserving => sound == src,
            PitchMode::Varispeed => sound == mixdown::varispeed(
                src,
                event.pitch_multiplier,
                room as usize,
            ),
        },
    }
}

/// One buffer is another with a sound added to it from `start` on, at a
/// volume; elsewhere they are the same.
pub open spec fn is_sum(
    after: Seq<F32>,
    before: Seq<F32>,
    start: int,
    sound: Seq<F32>,
    volume: F32,
) -> bool {
    &&& after.len() == before.len()
    &&& forall|i: int|
        0 <= i < after.len() && start <= i < start + sound.len() ==> #[trigger] after[i]
            == before[i].plus(sound[i - start].times(volume))
    &&& forall|i: int|
        0 <= i < after.len() && !(start <= i < start + sound.len()) ==> #[trigger] after[i]
            == before[i]
}

/// One event more adds its sound to the sum of the others: from the event's
/// start on, at the event's volume kept between zero and one, and nowhere
/// else.
pub proof fn law_one_more_event_adds_its_sound(
    recipe: RecipeView,
    events: Seq<EventView>,
    event: EventView,
    sound: Seq<F32>,
    volume: F32,
    f: spec_fn(Elementary, F32) -> F32,
)
    requires
        is_sound_of(
            sound,
            recipe,
            event,
            mixdown::master_len(recipe) - mixdown::event_start(recipe, event),
            f,
        ),
        limits::nearest(event.volume, volume, F32::of(0), F32::of(ONE)),
        !event.volume.is_finite() ==> volume == event.volume.clamp(F32::of(0), F32::of(ONE)),
    ensures
        is_sum(
            mixdown::summed(with_events(recipe, events.push(event)), f),
            mixdown::summed(with_events(recipe, events), f),
            mixdown::event_start(recipe, event) as int,
            sound,
            volume,
        ),
{
    let zeros: Seq<F32> = Seq::new(mixdown::master_len(recipe) as nat, |i: int| F32::of(0));
    let less: RecipeView = with_events(recipe, events);
    let more: RecipeView = with_events(recipe, events.push(event));
    lemma_one_track(recipe, events, f);
    lemma_one_track(recipe, events.push(event), f);
    let before: Seq<F32> = mixdown::events_voiced(recipe, events, zeros, f);
    lemma_events_keep_the_length(recipe, events, zeros, f);
    assert(events.push(event).drop_last() =~= events);
    assert(mixdown::summed(more, f) == mixdown::voiced(recipe, event, before, f));
    assert(volume == event.volume.clamp(F32::of(0), F32::of(ONE))) by {
        if event.volume.is_finite() {
            reveal(F32::spec_clamp);
            reveal(F32::spec_lt);
            envelope::lemma_rank(0, ONE);
        }
    }
}

/// The sum of the events of one track.
proof fn lemma_one_track(
    recipe: RecipeView,
    events: Seq<EventView>,
    f: spec_fn(Elementary, F32) -> F32,
)
    ensures
        mixdown::summed(with_events(recipe, events), f) == mixdown::events_voiced(
            recipe,
            events,
            Seq::new(mixdown::master_len(recipe) as nat, |i: int| F32::of(0)),
            f,
        ),
{
    let other: RecipeView = with_events(recipe, events);
    let zeros: Seq<F32> = Seq::new(mixdown::master_len(recipe) as nat, |i: int| F32::of(0));
    assert(zeros =~= Seq::new(mixdown::master_len(other) as nat, |i: int| F32::of(0)));
    let front: Seq<TrackView> = other.tracks.drop_last();
    assert(front.len() == 0);
    assert(mixdown::tracks_voiced(other, front, zeros, f) == zeros);
    lemma_events_anywhere(recipe, other.tracks, events, zeros, f);
}

/// Adding events keeps the length of the master buffer.
proof fn lemma_events_keep_the_length(
    recipe: RecipeView,
    events: Seq<EventView>,
    master: Seq<F32>,
    f: spec_fn(Elementary, F32) -> F32,
)
    ensures
        mixdown::events_voiced(recipe, events, master, f).len() == master.len(),
    decreases events.len(),
{
    if events.len() > 0 {
        lemma_events_keep_the_length(recipe, events.drop_last(), master, f);
    }
}

/// Without a loop every sample of the mix is the saturated sum at its place.
pub proof fn law_unlooped_mixes_are_saturated_sums(
    recipe: RecipeView,
    f: spec_fn(Elementary, F32) -> F32,
)
    requires
        recipe.loop_start_beats is None,
    ensures
        ({
            let out: Seq<F32> = mixdown::mixed(recipe, f);
            let sum: Seq<F32> = mixdown::summed(recipe, f);
            &&& out.len() == sum.len()
            &&& forall|i: int|
                0 <= i < out.len() ==> #[trigger] out[i] == f(Elementary::Tanh, sum[i])
        }),
{
}

/// The last instrument of a name plays: one more with another name does not
/// matter, one with the same name takes its place.
pub proof fn law_the_last_instrument_of_a_name_plays(
    instruments: Seq<InstrumentView>,
    more: InstrumentView,
    id: Seq<char>,
)
    ensures
        mixdown::instrument_of(Seq::empty(), id) is None,
        mixdown::instrument_of(instruments.push(more), id) == (if more.id == id {
            Some(more.patch)
        } else {
            mixdown::instrument_of(instruments, id)
        }),
{
    assert(instruments.push(more).drop_last() =~= instruments);
}

/// A patch with every node retuned, and nothing else changed.
pub open spec fn is_retuned(after: PatchView, before: PatchView, mult: F32) -> bool {
    &&& after.seed == before.seed
    &&& after.graph.output == before.graph.output
    &&& after.graph.nodes.len() == before.graph.nodes.len()
    &&& forall|i: int|
        0 <= i < after.graph.nodes.len() ==> #[trigger] after.graph.nodes[i] == (NodeView {
            kind: before.graph.nodes[i].kind.retuned(mult),
            ..before.graph.nodes[i]
        })
}

/// An event plays its instrument's patch: as it is where the bake is
/// resampled, whatever the pitch; retuned where the duration is kept, unless
/// the pitch is not a positive finite number.
pub proof fn law_events_play_their_instruments(
    recipe: RecipeView,
    event: EventView,
    patch: PatchView,
)
    requires
        mixdown::instrument_of(recipe.instruments, event.instrument_id) == Some(patch),
    ensures
        event.pitch_mode == PitchMode::Varispeed ==> mixdown::voice(recipe, event) == Some(patch),
        event.pitch_mode == PitchMode::TimePreserving ==> {
            let pitch: F32 = event.pitch_multiplier;
            match mixdown::voice(recipe, event) {
                Some(p) => pitch.is_finite() && F32::of(0).lt(pitch) && is_retuned(
                    p,
                    patch,
                    pitch,
                ),
                None => !pitch.is_finite() || pitch.le(F32::of(0)),
            }
        },
{
    let pitch: F32 = event.pitch_multiplier;
    if pitch.is_finite() {
        numbers::lemma_zero_one();
        numbers::lemma_value_order(pitch, F32::of(0));
        numbers::lemma_value_order(F32::of(0), pitch);
    }
}

/// An event's bake is that of its patch at the recipe's sample rate, as long
/// as its beats with the note gate open and those of its release together,
/// with the window as long as the former; beats below zero count as none.  It
/// has none where its patch cannot be baked.
pub proof fn law_events_sound_their_bakes(
    recipe: RecipeView,
    event: EventView,
    patch: PatchView,
    f: spec_fn(Elementary, F32) -> F32,
)
    requires
        mixdown::voice(recipe, event) == Some(patch),
    ensures
        ({
            let zero: F32 = F32::of(0);
            let beat: F32 = mixdown::beat_seconds(recipe.bpm);
            let beats: F32 = event.gate_beats.max(zero).plus(event.release_beats.max(zero));
            let whole: usize = mixdown::duration_to_samples(beats, beat, recipe.sample_rate);
            let open: usize = mixdown::duration_to_samples(
                event.gate_beats,
                beat,
                recipe.sample_rate,
            );
            match bake::baked(patch, recipe.sample_rate, whole as u64, Some(open as u64), f) {
                Ok(buffer) => mixdown::source(recipe, event, f) == Some(buffer),
                Err(_) => mixdown::source(recipe, event, f) is None,
            }
        }),
{
}

/// The sample to which a loop goes back is that of its beat, where it lies
/// before the timeline's end.
pub proof fn law_loops_go_back_to_their_beat(recipe: RecipeView)
    ensures
        match recipe.loop_start_beats {
            None => mixdown::loop_point(recipe) is None,
            Some(beats) => {
                let beat: F32 = mixdown::beat_seconds(recipe.bpm);
                let at: usize = mixdown::samples_at(beats, beat, recipe.sample_rate).to_usize();
                let end: usize = mixdown::duration_to_samples(
                    recipe.duration_beats,
                    beat,
                    recipe.sample_rate,
                );
                mixdown::loop_point(recipe) == (if at < end {
                    Some(at)
                } else {
                    None
                })
            },
        },
{
}

/// A loop that would go back to the timeline's end or beyond only cuts the
/// mix there.
pub proof fn law_loops_from_the_end_only_cut(recipe: RecipeView, f: spec_fn(Elementary, F32) -> F32)
    requires
        recipe.loop_start_beats is Some,
        mixdown::loop_point(recipe) is None,
    ensures
        ({
            let out: Seq<F32> = mixdown::mixed(recipe, f);
            let plain: Seq<F32> = mixdown::mixed(
                RecipeView { loop_start_beats: None, ..recipe },
                f,
            );
            &&& out.len() <= plain.len()
            &&& forall|i: int| 0 <= i < out.len() ==> #[trigger] out[i] == plain[i]
        }),
{
    master::lemma_plain(recipe, f);
}

/// Without a loop the mix is as long as the timeline's beats and the tail's
/// beats together, as far as a blob goes; with one it is as long as the
/// timeline's beats.  An event starts at the sample of its beat.
pub proof fn law_beats_place_everything(
    recipe: RecipeView,
    event: EventView,
    f: spec_fn(Elementary, F32) -> F32,
)
    ensures
        ({
            let beat: F32 = mixdown::beat_seconds(recipe.bpm);
            let rate: u32 = recipe.sample_rate;
            let main: int = mixdown::duration_to_samples(recipe.duration_beats, beat, rate) as int;
            let tail: int = mixdown::duration_to_samples(
                recipe.loop_crossfade_beats,
                beat,
                rate,
            ) as int;
            let most: int = MAX_WAV_SAMPLES as int;
            let out: Seq<F32> = mixdown::mixed(recipe, f);
            &&& recipe.loop_start_beats is Some ==> out.len() == main
            &&& recipe.loop_start_beats is None && main + tail <= most ==> out.len() == main + tail
            &&& recipe.loop_start_beats is None && main + tail > most ==> out.len() == most
            &&& mixdown::event_start(recipe, event) == mixdown::samples_at(
                event.time_beats,
                beat,
                rate,
            ).to_usize()
        }),
{
    master::law_length_of_the_master(recipe, f);
}

/// Resampling reads the buffer at every step of the pitch, between the two
/// samples around the place, and holds the last sample; it stops where the
/// buffer does.
pub proof fn law_resampling_reads_between_samples(buffer: Seq<F32>, pitch: F32, max_out: usize, i: int)
    requires
        0 <= i < mixdown::varispeed(buffer, pitch, max_out).len(),
    ensures
        ({
            let place: F32 = F32::from_usize(i as usize).times(pitch);
            let at: int = place.floor().to_usize() as int;
            let way: F32 = place.minus(F32::from_usize(at as usize));
            let out: F32 = mixdown::varispeed(buffer, pitch, max_out)[i];
            &&& at < buffer.len()
            &&& at + 1 < buffer.len() ==> out == buffer[at].times(F32::of(ONE).minus(way)).plus(
                buffer[at + 1].times(way),
            )
            &&& at + 1 == buffer.len() ==> out == buffer[at]
        }),
{
    let n: int = mixdown::resampled_len(buffer.len() as usize, pitch, max_out) as int;
    lemma_resampled_at(buffer, pitch, n, i);
}

proof fn lemma_resampled_at(buffer: Seq<F32>, pitch: F32, n: int, i: int)
    requires
        0 <= i < mixdown::resampled(buffer, pitch, n).len(),
        n <= usize::MAX,
    ensures
        mixdown::resampled(buffer, pitch, n)[i] == mixdown::interpolated(
            buffer,
            mixdown::read_at(i as usize, pitch),
        ),
        mixdown::read_at(i as usize, pitch).floor().to_usize() < buffer.len(),
        mixdown::resampled(buffer, pitch, n).len() <= n || n < 0,
    decreases n,
{
    let before: Seq<F32> = mixdown::resampled(buffer, pitch, n - 1);
    lemma_resampled_short(buffer, pitch, n - 1);
    if i < before.len() {
        lemma_resampled_at(buffer, pitch, n - 1, i);
    }
}

/// Resampling goes on for as long as it counts steps and the places lie in
/// the buffer; a pitch that is not a positive finite number gives nothing.
pub proof fn law_resampling_goes_on_to_the_end(
    buffer: Seq<F32>,
    pitch: F32,
    max_out: usize,
    i: int,
)
    requires
        buffer.len() <= usize::MAX,
    ensures
        !pitch.is_finite() || pitch.le(F32::of(0)) ==> mixdown::varispeed(
            buffer,
            pitch,
            max_out,
        ).len() == 0,
        pitch.is_finite() && !pitch.le(F32::of(0)) && 0 <= i < mixdown::resampled_len(
            buffer.len() as usize,
            pitch,
            max_out,
        ) && (forall|k: int|
            0 <= k <= i ==> (#[trigger] F32::from_usize(k as usize).times(
                pitch,
            )).floor().to_usize() < buffer.len()) ==> i < mixdown::varispeed(
            buffer,
            pitch,
            max_out,
        ).len(),
{
    let n: int = mixdown::resampled_len(buffer.len() as usize, pitch, max_out) as int;
    if pitch.is_finite() && !pitch.le(F32::of(0)) && 0 <= i < n && (forall|k: int|
        0 <= k <= i ==> (#[trigger] F32::from_usize(k as usize).times(
            pitch,
        )).floor().to_usize() < buffer.len()) {
        assert(F32::from_usize(0usize).times(pitch) == F32::from_usize(0int as usize).times(pitch));
        assert(buffer.len() > 0) by {
            assert(F32::from_usize(0int as usize).times(pitch).floor().to_usize() < buffer.len());
        }
        lemma_resampled_long(buffer, pitch, i + 1);
        lemma_resampled_grows(buffer, pitch, i + 1, n);
    }
}

/// Places inside the buffer are all read.
proof fn lemma_resampled_long(buffer: Seq<F32>, pitch: F32, n: int)
    requires
        0 <= n <= usize::MAX,
        forall|k: int|
            0 <= k < n ==> (#[trigger] F32::from_usize(k as usize).times(
                pitch,
            )).floor().to_usize() < buffer.len(),
    ensures
        mixdown::resampled(buffer, pitch, n).len() == n,
    decreases n,
{
    if n > 0 {
        lemma_resampled_long(buffer, pitch, n - 1);
        let k: int = n - 1;
        assert(F32::from_usize(k as usize).times(pitch).floor().to_usize() < buffer.len());
    }
}

/// Asking for more gives no less.
proof fn lemma_resampled_grows(buffer: Seq<F32>, pitch: F32, m: int, n: int)
    requires
        m <= n,
    ensures
        mixdown::resampled(buffer, pitch, m).len() <= mixdown::resampled(buffer, pitch, n).len(),
    decreases n - m,
{
    if m < n {
        lemma_resampled_grows(buffer, pitch, m, n - 1);
    }
}

/// Resampling makes no more samples than asked for.
proof fn lemma_resampled_short(buffer: Seq<F32>, pitch: F32, n: int)
    ensures
        mixdown::resampled(buffer, pitch, n).len() <= if n < 0 {
            0
        } else {
            n
        },
    decreases n,
{
    if n > 0 {
        lemma_resampled_short(buffer, pitch, n - 1);
    }
}

} // verus!
