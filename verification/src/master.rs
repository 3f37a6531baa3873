//! What holds of every master buffer: its length, its range, the seam of its
//! loop, and what the pitch of an event does to its length.
use crate::arith::{Parts, Toward};
use crate::bake;
use crate::constants::{MINUS_ONE, ONE};
use crate::elementary;
use crate::elementary::Elementary;
use crate::envelope;
use crate::float::{F32, F64};
use crate::mixdown;
use crate::numbers;
use crate::rounding;
use crate::rounding::Width;
use crate::sequence::{EventView, PitchMode, RecipeView, TrackView};
use crate::stability;
use vstd::arithmetic::power2::*;
use vstd::prelude::*;

verus! {

/// The saturation that the mixdown applies yields a number between minus one
/// and one for every number.
pub open spec fn saturating(f: spec_fn(Elementary, F32) -> F32) -> bool {
    forall|x: F32|
        !x.is_nan() ==> envelope::within(
            #[trigger] f(Elementary::Tanh, x),
            F32::of(MINUS_ONE),
            F32::of(ONE),
        )
}

/// A master buffer that loops is as long as the timeline; one that does not
/// is as long as the timeline and its tail.
pub proof fn law_length_of_the_master(recipe: RecipeView, f: spec_fn(Elementary, F32) -> F32)
    ensures
        recipe.loop_start_beats is None ==> mixdown::mixed(recipe, f).len()
            == mixdown::master_len(recipe),
        recipe.loop_start_beats is Some ==> mixdown::mixed(recipe, f).len()
            == mixdown::main_samples(recipe),
{
    lemma_soft_len(recipe, f);
}

/// The length before the tail is dropped.
proof fn lemma_soft_len(recipe: RecipeView, f: spec_fn(Elementary, F32) -> F32)
    ensures
        mixdown::soft_clipped(mixdown::summed(recipe, f), f).len() == mixdown::master_len(recipe),
        mixdown::main_samples(recipe) <= mixdown::master_len(recipe),
{
    let beat: F32 = mixdown::beat_seconds(recipe.bpm);
    mixdown::lemma_duration_bounded(recipe.duration_beats, beat, recipe.sample_rate);
    mixdown::lemma_duration_bounded(recipe.loop_crossfade_beats, beat, recipe.sample_rate);
    mixdown::lemma_summed_len(
        recipe,
        recipe.tracks,
        Seq::new(mixdown::master_len(recipe) as nat, |i: int| F32::of(0)),
        f,
    );
}

/// A place in a crossfade is between zero and one.
proof fn lemma_place(i: usize, n: usize)
    requires
        i <= n,
        n > 0,
    ensures
        ({
            let alpha: F32 = F32::from_usize(i).over(F32::from_usize(n));
            &&& alpha.is_finite()
            &&& 0 <= numbers::value(alpha) <= numbers::scale()
            &&& i == 0 ==> numbers::value(alpha) == 0
        }),
{
    let x: F32 = F32::from_usize(i);
    let y: F32 = F32::from_usize(n);
    let zero: F32 = F32::of(0);
    let one: F32 = F32::of(ONE);
    numbers::lemma_zero_one();
    numbers::lemma_from_u64_finite(i as u64);
    numbers::lemma_from_u64_finite(n as u64);
    numbers::lemma_from_u64_order(i as u64, n as u64);
    numbers::lemma_from_u64_not_negative(i as u64);
    numbers::lemma_value_order(x, y);
    numbers::lemma_value_order(zero, x);
    numbers::lemma_value_order(one, y);
    let u: int = numbers::scale();
    let vx: int = numbers::value(x);
    let vy: int = numbers::value(y);
    assert(0 * vy <= vx * u <= u * vy) by (nonlinear_arith)
        requires
            0 <= vx <= vy,
            u > 0,
    ;
    numbers::lemma_over_between(x, y, zero, one);
    numbers::lemma_value_order(zero, x.over(y));
    numbers::lemma_value_order(x.over(y), one);
    if i == 0 {
        numbers::lemma_small_from_u64(0);
        numbers::lemma_over_length(x, y);
    }
}

/// Between minus one and one, said of the value.
proof fn lemma_unit_range(x: F32)
    ensures
        envelope::within(x, F32::of(MINUS_ONE), F32::of(ONE)) <==> stability::at_most(x, 1),
{
    numbers::lemma_zero_one();
    if x.is_finite() {
        numbers::lemma_value_order(F32::of(MINUS_ONE), x);
        numbers::lemma_value_order(x, F32::of(ONE));
    }
}

/// Where the saturation stays between minus one and one and the events sum up
/// to numbers, every sample of the master buffer lies between minus one and
/// one, crossfaded or not.
pub proof fn law_master_is_bounded(recipe: RecipeView, f: spec_fn(Elementary, F32) -> F32, i: int)
    requires
        saturating(f),
        forall|j: int|
            0 <= j < mixdown::summed(recipe, f).len() ==> !(#[trigger] mixdown::summed(
                recipe,
                f,
            )[j]).is_nan(),
        0 <= i < mixdown::mixed(recipe, f).len(),
    ensures
        envelope::within(mixdown::mixed(recipe, f)[i], F32::of(MINUS_ONE), F32::of(ONE)),
{
    let soft: Seq<F32> = mixdown::soft_clipped(mixdown::summed(recipe, f), f);
    lemma_soft_len(recipe, f);
    assert forall|j: int| 0 <= j < soft.len() implies envelope::within(
        #[trigger] soft[j],
        F32::of(MINUS_ONE),
        F32::of(ONE),
    ) by {
        assert(soft[j] == f(Elementary::Tanh, mixdown::summed(recipe, f)[j]));
    }
    if recipe.loop_start_beats is Some {
        match mixdown::loop_point(recipe) {
            Some(at) => {
                let main: int = mixdown::main_samples(recipe) as int;
                let n: int = mixdown::crossfade_len(
                    soft.len() as int,
                    at as int,
                    main,
                    mixdown::tail_samples(recipe) as int,
                );
                if at <= i < at + n {
                    lemma_fade_bounded(
                        (i - at) as usize,
                        n as usize,
                        soft[main + i - at],
                        soft[i],
                    );
                }
            },
            None => {},
        }
    }
}

/// A recipe that does not loop.
pub open spec fn unlooped(recipe: RecipeView) -> RecipeView {
    RecipeView { loop_start_beats: None, ..recipe }
}

/// How many samples of the tail are folded into a loop from `at` on: as many
/// as come behind the timeline, as far as the loop goes.
pub open spec fn fold_len(recipe: RecipeView, f: spec_fn(Elementary, F32) -> F32, at: int) -> int {
    let main: int = mixdown::main_samples(recipe) as int;
    let behind: int = mixdown::mixed(unlooped(recipe), f).len() - main;
    if behind <= main - at {
        behind
    } else {
        main - at
    }
}

/// The events of a track do not depend on the loop.
proof fn lemma_events_unlooped(
    recipe: RecipeView,
    events: Seq<EventView>,
    master: Seq<F32>,
    f: spec_fn(Elementary, F32) -> F32,
)
    ensures
        mixdown::events_voiced(unlooped(recipe), events, master, f) == mixdown::events_voiced(
            recipe,
            events,
            master,
            f,
        ),
    decreases events.len(),
{
    if events.len() > 0 {
        lemma_events_unlooped(recipe, events.drop_last(), master, f);
        let event: EventView = events.last();
        assert(mixdown::voice(unlooped(recipe), event) == mixdown::voice(recipe, event));
        assert(mixdown::source(unlooped(recipe), event, f) == mixdown::source(recipe, event, f));
    }
}

/// The sum of all events does not depend on the loop.
proof fn lemma_tracks_unlooped(
    recipe: RecipeView,
    tracks: Seq<TrackView>,
    master: Seq<F32>,
    f: spec_fn(Elementary, F32) -> F32,
)
    ensures
        mixdown::tracks_voiced(unlooped(recipe), tracks, master, f) == mixdown::tracks_voiced(
            recipe,
            tracks,
            master,
            f,
        ),
    decreases tracks.len(),
{
    if tracks.len() > 0 {
        lemma_tracks_unlooped(recipe, tracks.drop_last(), master, f);
        lemma_events_unlooped(
            recipe,
            tracks.last().events,
            mixdown::tracks_voiced(recipe, tracks.drop_last(), master, f),
            f,
        );
    }
}

/// The buffer of a recipe that does not loop.
pub proof fn lemma_plain(recipe: RecipeView, f: spec_fn(Elementary, F32) -> F32)
    ensures
        mixdown::mixed(unlooped(recipe), f) == mixdown::soft_clipped(
            mixdown::summed(recipe, f),
            f,
        ),
        mixdown::mixed(unlooped(recipe), f).len() == mixdown::master_len(recipe),
        mixdown::main_samples(recipe) <= mixdown::master_len(recipe),
{
    lemma_soft_len(recipe, f);
    lemma_tracks_unlooped(
        recipe,
        recipe.tracks,
        Seq::new(mixdown::master_len(recipe) as nat, |i: int| F32::of(0)),
        f,
    );
}

/// A loop folds its tail: the looped buffer is as long as the timeline, its
/// samples from the loop's start on are blends of what the unlooped buffer
/// has behind the timeline and what it has there, from the one to the other,
/// and every other sample is that of the unlooped buffer.
pub proof fn law_loop_folds_its_tail(
    recipe: RecipeView,
    f: spec_fn(Elementary, F32) -> F32,
    at: usize,
)
    requires
        mixdown::loop_point(recipe) == Some(at),
    ensures
        ({
            let out: Seq<F32> = mixdown::mixed(recipe, f);
            let plain: Seq<F32> = mixdown::mixed(unlooped(recipe), f);
            let main: int = mixdown::main_samples(recipe) as int;
            let n: int = fold_len(recipe, f, at as int);
            &&& at < main == out.len()
            &&& main <= plain.len()
            &&& 0 <= n <= main - at
            &&& forall|i: int|
                0 <= i < n ==> #[trigger] out[at + i] == mixdown::faded(
                    i as usize,
                    n as usize,
                    plain[main + i],
                    plain[at + i],
                )
            &&& forall|j: int|
                0 <= j < main && !(at <= j < at + n) ==> #[trigger] out[j] == plain[j]
        }),
{
    let out: Seq<F32> = mixdown::mixed(recipe, f);
    let plain: Seq<F32> = mixdown::mixed(unlooped(recipe), f);
    let main: int = mixdown::main_samples(recipe) as int;
    let tail: int = mixdown::tail_samples(recipe) as int;
    let n: int = fold_len(recipe, f, at as int);
    lemma_plain(recipe, f);
    assert(n == mixdown::crossfade_len(plain.len() as int, at as int, main, tail));
    assert(out == mixdown::crossfaded(plain, at as int, main, tail).take(main));
    assert forall|i: int| 0 <= i < n implies #[trigger] out[at + i] == mixdown::faded(
        i as usize,
        n as usize,
        plain[main + i],
        plain[at + i],
    ) by {
        assert(main + (at + i) - at == main + i);
    }
}

/// At the start of a crossfade there is only the tail.
proof fn lemma_fade_starts(n: usize, tail: F32, own: F32)
    requires
        n > 0,
        !tail.is_nan(),
        own.is_finite(),
    ensures
        mixdown::faded(0, n, tail, own).same(tail),
{
    let one: F32 = F32::of(ONE);
    lemma_place(0, n);
    let alpha: F32 = F32::from_usize(0).over(F32::from_usize(n));
    let rest: F32 = alpha.times(own);
    numbers::lemma_zero_one();
    numbers::lemma_one_minus(alpha);
    numbers::law_times_one(tail);
    stability::lemma_times_commutes(tail, one);
    numbers::lemma_times_zero(own, alpha);
    assert(mixdown::faded(0, n, tail, own) == tail.plus(rest));
    if tail.is_finite() {
        numbers::lemma_plus_exact(tail, rest, tail);
    } else {
        reveal(F32::spec_plus);
        reveal(F32::spec_is_finite);
        reveal(F32::spec_is_nan);
        reveal(F32::spec_same);
        numbers::lemma_parts_round_trip(tail);
    }
}

/// The seam of a loop: the sample at the loop's start is the one that comes
/// behind the timeline's last sample in the unlooped buffer, and where the
/// crossfade ends before the timeline does, the last sample is as it was.
/// So the step from the end of the loop to its start is a step between two
/// neighbours of the unlooped buffer.
pub proof fn law_seam_joins_neighbours(
    recipe: RecipeView,
    f: spec_fn(Elementary, F32) -> F32,
    at: usize,
)
    requires
        mixdown::loop_point(recipe) == Some(at),
        fold_len(recipe, f, at as int) > 0,
        !mixdown::mixed(unlooped(recipe), f)[mixdown::main_samples(recipe) as int].is_nan(),
        mixdown::mixed(unlooped(recipe), f)[at as int].is_finite(),
    ensures
        ({
            let out: Seq<F32> = mixdown::mixed(recipe, f);
            let plain: Seq<F32> = mixdown::mixed(unlooped(recipe), f);
            let main: int = mixdown::main_samples(recipe) as int;
            &&& out[at as int].same(plain[main])
            &&& at + fold_len(recipe, f, at as int) < main ==> out[main - 1] == plain[main - 1]
        }),
{
    let out: Seq<F32> = mixdown::mixed(recipe, f);
    let plain: Seq<F32> = mixdown::mixed(unlooped(recipe), f);
    let main: int = mixdown::main_samples(recipe) as int;
    let n: int = fold_len(recipe, f, at as int);
    law_loop_folds_its_tail(recipe, f, at);
    lemma_plain(recipe, f);
    assert(out[at + 0] == mixdown::faded(0, n as usize, plain[main + 0], plain[at + 0]));
    lemma_fade_starts(n as usize, plain[main], plain[at as int]);
}

/// Where the unlooped buffer holds nothing that is not a number, the loop has
/// no click: the sample at its start is the one that comes behind the
/// timeline's last sample.
pub open spec fn is_seamless(
    recipe: RecipeView,
    f: spec_fn(Elementary, F32) -> F32,
    at: int,
) -> bool {
    let plain: Seq<F32> = mixdown::mixed(unlooped(recipe), f);
    (forall|j: int| 0 <= j < plain.len() ==> !(#[trigger] plain[j]).is_nan()) && fold_len(
        recipe,
        f,
        at,
    ) > 0 ==> mixdown::mixed(recipe, f)[at].same(plain[mixdown::main_samples(recipe) as int])
}

/// A loop of samples that are never beyond one has no click.
pub proof fn lemma_seamless(recipe: RecipeView, f: spec_fn(Elementary, F32) -> F32, at: usize)
    requires
        mixdown::loop_point(recipe) == Some(at),
        forall|j: int|
            0 <= j < mixdown::summed(recipe, f).len() ==> elementary::in_unit_range(
                #[trigger] mixdown::soft_clipped(mixdown::summed(recipe, f), f)[j],
            ),
    ensures
        is_seamless(recipe, f, at as int),
{
    let plain: Seq<F32> = mixdown::mixed(unlooped(recipe), f);
    let main: int = mixdown::main_samples(recipe) as int;
    lemma_plain(recipe, f);
    if (forall|j: int| 0 <= j < plain.len() ==> !(#[trigger] plain[j]).is_nan()) && fold_len(
        recipe,
        f,
        at as int,
    ) > 0 {
        assert(!plain[main].is_nan());
        assert(!plain[at as int].is_nan());
        law_seam_joins_neighbours(recipe, f, at);
    }
}

/// Where the saturation is never beyond one, every loop whose unlooped buffer
/// holds nothing that is not a number is without a click.
pub proof fn law_loops_are_seamless(
    recipe: RecipeView,
    f: spec_fn(Elementary, F32) -> F32,
    at: usize,
)
    requires
        forall|x: F32| elementary::in_unit_range(#[trigger] f(Elementary::Tanh, x)),
        mixdown::loop_point(recipe) == Some(at),
    ensures
        is_seamless(recipe, f, at as int),
{
    let soft: Seq<F32> = mixdown::soft_clipped(mixdown::summed(recipe, f), f);
    assert forall|j: int| 0 <= j < mixdown::summed(recipe, f).len() implies
        elementary::in_unit_range(#[trigger] soft[j]) by {
        assert(soft[j] == f(Elementary::Tanh, mixdown::summed(recipe, f)[j]));
    }
    lemma_seamless(recipe, f, at);
}

/// A blend of two samples that are never beyond one is not either.
proof fn lemma_fade_in_range(i: usize, n: usize, tail: F32, own: F32)
    requires
        i <= n,
        n > 0,
        elementary::in_unit_range(tail),
        elementary::in_unit_range(own),
    ensures
        elementary::in_unit_range(mixdown::faded(i, n, tail, own)),
{
    let alpha: F32 = F32::from_usize(i).over(F32::from_usize(n));
    let rest: F32 = F32::of(ONE).minus(alpha);
    if tail.is_nan() {
        numbers::lemma_nan_times(rest, tail);
        numbers::lemma_nan_plus(rest.times(tail), alpha.times(own));
    } else if own.is_nan() {
        numbers::lemma_nan_times(alpha, own);
        numbers::lemma_nan_plus(rest.times(tail), alpha.times(own));
    } else {
        lemma_fade_bounded(i, n, tail, own);
    }
}

/// A blend of two samples within one is within one.
proof fn lemma_fade_bounded(i: usize, n: usize, tail: F32, own: F32)
    requires
        i <= n,
        n > 0,
        envelope::within(tail, F32::of(MINUS_ONE), F32::of(ONE)),
        envelope::within(own, F32::of(MINUS_ONE), F32::of(ONE)),
    ensures
        envelope::within(
            mixdown::faded(i, n, tail, own),
            F32::of(MINUS_ONE),
            F32::of(ONE),
        ),
{
    lemma_place(i, n);
    let alpha: F32 = F32::from_usize(i).over(F32::from_usize(n));
    lemma_unit_range(tail);
    lemma_unit_range(own);
    lemma2_to64();
    stability::lemma_blend(tail, own, alpha, 0);
    stability::lemma_times_commutes(tail, F32::of(ONE).minus(alpha));
    stability::lemma_times_commutes(own, alpha);
    lemma_unit_range(mixdown::faded(i, n, tail, own));
}

/// Where no saturated sample is beyond one, no sample of the master buffer
/// is, crossfaded or not.
pub proof fn lemma_master_in_range(recipe: RecipeView, f: spec_fn(Elementary, F32) -> F32, i: int)
    requires
        forall|j: int|
            0 <= j < mixdown::summed(recipe, f).len() ==> elementary::in_unit_range(
                #[trigger] mixdown::soft_clipped(mixdown::summed(recipe, f), f)[j],
            ),
        0 <= i < mixdown::mixed(recipe, f).len(),
    ensures
        elementary::in_unit_range(mixdown::mixed(recipe, f)[i]),
{
    let soft: Seq<F32> = mixdown::soft_clipped(mixdown::summed(recipe, f), f);
    lemma_soft_len(recipe, f);
    assert(elementary::in_unit_range(soft[i]));
    if recipe.loop_start_beats is Some {
        match mixdown::loop_point(recipe) {
            Some(at) => {
                let main: int = mixdown::main_samples(recipe) as int;
                let n: int = mixdown::crossfade_len(
                    soft.len() as int,
                    at as int,
                    main,
                    mixdown::tail_samples(recipe) as int,
                );
                if at <= i < at + n {
                    assert(elementary::in_unit_range(soft[main + i - at]));
                    lemma_fade_in_range(
                        (i - at) as usize,
                        n as usize,
                        soft[main + i - at],
                        soft[i],
                    );
                }
            },
            None => {},
        }
    }
}

/// An event that keeps its duration is baked for its gate and release,
/// whatever its pitch.
pub proof fn law_time_preserving_keeps_the_length(
    recipe: RecipeView,
    event: EventView,
    pitch: F32,
    f: spec_fn(Elementary, F32) -> F32,
)
    requires
        event.pitch_mode == PitchMode::TimePreserving,
    ensures
        mixdown::source(recipe, event, f) matches Some(buffer) ==> buffer.len()
            == mixdown::total_samples(recipe, event),
        mixdown::total_samples(recipe, EventView { pitch_multiplier: pitch, ..event })
            == mixdown::total_samples(recipe, event),
{
}

/// Events whose instrument is not there change nothing.
pub proof fn law_missing_instruments_are_skipped(
    recipe: RecipeView,
    event: EventView,
    master: Seq<F32>,
    f: spec_fn(Elementary, F32) -> F32,
)
    requires
        mixdown::instrument_of(recipe.instruments, event.instrument_id) is None,
    ensures
        mixdown::voiced(recipe, event, master, f) == master,
{
}

/// Events whose graph has something wrong with it change nothing.
pub proof fn law_broken_instruments_are_skipped(
    recipe: RecipeView,
    event: EventView,
    master: Seq<F32>,
    f: spec_fn(Elementary, F32) -> F32,
)
    requires
        mixdown::voice(recipe, event) matches Some(p) && bake::baked(
            p,
            recipe.sample_rate,
            mixdown::total_samples(recipe, event),
            Some(mixdown::gate_samples(recipe, event)),
            f,
        ) is Err,
    ensures
        mixdown::voiced(recipe, event, master, f) == master,
{
}

/// A resampled buffer is never longer than asked for.
pub proof fn law_resampling_is_bounded(buffer: Seq<F32>, pitch: F32, max_out: usize)
    ensures
        mixdown::varispeed(buffer, pitch, max_out).len() <= max_out,
{
    let n: usize = mixdown::resampled_len(buffer.len() as usize, pitch, max_out);
    let raw: F64 = F64::from_usize(buffer.len() as usize).over(pitch.widen()).floor();
    if !F64::from_usize(max_out).le(raw) {
        numbers::lemma_below_integer(raw, max_out as u64);
        reveal(F64::spec_to_usize);
    }
    lemma_resampled_len(buffer, pitch, n as int);
}

/// Resampling makes no more samples than asked for.
proof fn lemma_resampled_len(buffer: Seq<F32>, pitch: F32, n: int)
    ensures
        n >= 0 ==> mixdown::resampled(buffer, pitch, n).len() <= n,
    decreases n,
{
    if n > 0 {
        lemma_resampled_len(buffer, pitch, n - 1);
    }
}

/// A shorter resampling is the beginning of a longer one.
proof fn lemma_resampled_prefix(buffer: Seq<F32>, pitch: F32, k: int, n: int)
    requires
        0 <= k <= n,
    ensures
        ({
            let a: Seq<F32> = mixdown::resampled(buffer, pitch, k);
            let b: Seq<F32> = mixdown::resampled(buffer, pitch, n);
            &&& a.len() == (if k <= b.len() {
                k
            } else {
                b.len() as int
            })
            &&& a == b.take(a.len() as int)
        }),
    decreases n,
{
    let a: Seq<F32> = mixdown::resampled(buffer, pitch, k);
    let b: Seq<F32> = mixdown::resampled(buffer, pitch, n);
    lemma_resampled_len(buffer, pitch, k);
    lemma_resampled_len(buffer, pitch, n);
    if k == n {
        assert(a =~= b.take(a.len() as int));
    } else {
        let before: Seq<F32> = mixdown::resampled(buffer, pitch, n - 1);
        lemma_resampled_len(buffer, pitch, n - 1);
        lemma_resampled_prefix(buffer, pitch, k, n - 1);
        assert(a =~= b.take(a.len() as int));
    }
}

/// How many samples resampling makes at two limits: at the smaller one as
/// many as it allows or as at the larger one, and no more than at the larger
/// one unless there are more than 64-bit numbers can count.
proof fn lemma_resampled_counts(len: usize, pitch: F32, k: usize, n: usize)
    requires
        k <= n,
    ensures
        ({
            let x: usize = mixdown::resampled_len(len, pitch, k);
            let y: usize = mixdown::resampled_len(len, pitch, n);
            &&& x <= k
            &&& x == k || x == y
            &&& x <= y || (k >= 0x20_0000_0000_0000 && y >= 0x1f_ffff_ffff_ffff)
        }),
{
    let raw: F64 = F64::from_usize(len).over(pitch.widen()).floor();
    reveal(F64::spec_to_usize);
    numbers::lemma_wide_integer_order(k as u64, n as u64);
    if F64::from_usize(k).le(raw) {
        if k < 0x20_0000_0000_0000 {
            numbers::lemma_above_integer(raw, k as u64);
        } else {
            let most: u64 = 0x1f_ffff_ffff_ffff;
            numbers::lemma_wide_integer_order(most, k as u64);
            assert(F64::from_u64(most).le(raw)) by {
                reveal(F64::spec_le);
                reveal(F64::spec_lt);
                reveal(F64::spec_same);
            }
            numbers::lemma_above_integer(raw, most);
        }
    } else {
        numbers::lemma_below_integer(raw, k as u64);
        assert(!F64::from_usize(n).le(raw)) by {
            reveal(F64::spec_le);
            reveal(F64::spec_lt);
            reveal(F64::spec_same);
        }
    }
}

/// The length that is asked for only cuts a resampled buffer short: a smaller
/// one yields the beginning of what a larger one does, as long as 64-bit
/// numbers can count one of them.  Without a buffer, or at a pitch that is
/// not a positive number, there is nothing to cut.
pub proof fn law_asking_for_less_cuts_short(buffer: Seq<F32>, pitch: F32, k: usize, n: usize)
    requires
        k <= n,
        k < 0x20_0000_0000_0000 || mixdown::varispeed(buffer, pitch, n).len()
            < 0x1f_ffff_ffff_ffff,
    ensures
        ({
            let a: Seq<F32> = mixdown::varispeed(buffer, pitch, k);
            let b: Seq<F32> = mixdown::varispeed(buffer, pitch, n);
            &&& a.len() == (if k <= b.len() {
                k as int
            } else {
                b.len() as int
            })
            &&& a == b.take(a.len() as int)
            &&& buffer.len() == 0 || !pitch.is_finite() || pitch.le(F32::of(0)) ==> b.len() == 0
        }),
{
    let a: Seq<F32> = mixdown::varispeed(buffer, pitch, k);
    let b: Seq<F32> = mixdown::varispeed(buffer, pitch, n);
    if buffer.len() > 0 && mixdown::is_pitch(pitch) {
        let len: usize = buffer.len() as usize;
        let x: usize = mixdown::resampled_len(len, pitch, k);
        let y: usize = mixdown::resampled_len(len, pitch, n);
        lemma_resampled_counts(len, pitch, k, n);
        if x <= y {
            lemma_resampled_prefix(buffer, pitch, x as int, y as int);
            lemma_resampled_len(buffer, pitch, x as int);
        } else {
            // The buffer ends before either limit.
            lemma_resampled_prefix(buffer, pitch, y as int, x as int);
            assert(b.len() < y);
            assert(a =~= b);
            assert(a =~= b.take(a.len() as int));
        }
    } else {
        assert(a =~= b.take(0));
    }
}

/// A number that is a whole one is its own floor.
proof fn lemma_whole(w: Width, p: Parts, n: int)
    requires
        p.is_finite(w),
        !p.neg,
        n >= 0,
        p.size(w) == n * pow2(w.unit()),
    ensures
        p.whole(w) == n,
        Parts::integral(w, p, Toward::Down) == p,
{
    let u: int = pow2(w.unit()) as int;
    lemma_pow2_pos(w.unit());
    rounding::lemma_step(w);
    vstd::arithmetic::mul::lemma_mul_is_commutative(n, u);
    vstd::arithmetic::div_mod::lemma_fundamental_div_mod_converse(n * u, u, n, 0);
    rounding::lemma_encode_exact(w, p.code as int);
}

/// At unit pitch, resampling makes as many samples as there are, or as many
/// as are asked for.
proof fn lemma_unit_length(len: usize, max_out: usize)
    requires
        len < 0x20_0000_0000_0000,
        max_out < 0x20_0000_0000_0000,
    ensures
        mixdown::resampled_len(len, F32::of(ONE), max_out) == (if max_out <= len {
            max_out
        } else {
            len
        }),
{
    let w: Width = Width::Double;
    let u: int = pow2(w.unit()) as int;
    let x: F64 = F64::from_usize(len);
    let most: F64 = F64::from_usize(max_out);
    let one: F64 = F32::of(ONE).widen();
    rounding::lemma_step(w);
    rounding::lemma_step(Width::Single);
    lemma_pow2_pos(w.unit());
    reveal(F64::spec_from_u64);
    reveal(F64::spec_over);
    reveal(F64::spec_floor);
    reveal(F64::spec_to_usize);
    reveal(F64::spec_to_u64);
    reveal(F64::spec_le);
    reveal(F64::spec_lt);
    reveal(F64::spec_same);
    numbers::lemma_small_integer(w, len as int);
    numbers::lemma_small_integer(w, max_out as int);
    assert(one.parts() == (Parts { neg: false, code: 0x3ff0_0000_0000_0000 })) by {
        reveal(F32::spec_widen);
        numbers::lemma_one();
        rounding::lemma_encode_exact(w, 0x3ff0_0000_0000_0000);
        lemma_one_double();
        lemma_pow2_adds(149, 925);
    }
    lemma_one_double();
    let a: Parts = x.parts();
    rounding::lemma_encode_exact(w, a.code as int);
    rounding::lemma_encode_ratio(w, a.size(w) * u, u, a.size(w), 1);
    assert(x.over(one).parts() == a);
    lemma_whole(w, a, len as int);
    let raw: F64 = x.over(one).floor();
    assert(raw.parts() == a);
    vstd::arithmetic::mul::lemma_mul_nonnegative(len as int, u);
    vstd::arithmetic::mul::lemma_mul_nonnegative(max_out as int, u);
    rounding::lemma_encode_range(w, len * u, 1);
    rounding::lemma_encode_range(w, max_out * u, 1);
    if max_out <= len {
        vstd::arithmetic::mul::lemma_mul_inequality(max_out as int, len as int, u);
        rounding::lemma_encode_monotone(w, max_out * u, 1, len * u, 1);
        assert(most.parts().code == rounding::encode(w, max_out * u, 1));
        assert(a.code == rounding::encode(w, len * u, 1));
        assert(most.le(raw));
    } else {
        vstd::arithmetic::mul::lemma_mul_strict_inequality(len as int, max_out as int, u);
        rounding::lemma_encode_monotone(w, len * u, 1, max_out * u, 1);
        if most.parts().code == a.code {
            assert(most.parts().size(w) == a.size(w));
        }
        assert(a.code < most.parts().code);
        assert(!most.le(raw));
        assert(raw.to_u64() == len);
    }
}

/// One in the 64-bit format.
proof fn lemma_one_double()
    ensures
        rounding::units(Width::Double, 0x3ff0_0000_0000_0000) == pow2(1074),
{
    let w: Width = Width::Double;
    rounding::lemma_step(w);
    lemma_pow2_adds(52, 1022);
    assert(0x3ff0_0000_0000_0000int / w.step() == 1023);
    assert(0x3ff0_0000_0000_0000int % w.step() == 0);
}

/// At unit pitch, the `i`th sample is read at the `i`th place.
proof fn lemma_unit_place(i: usize)
    requires
        i <= 0x100_0000,
    ensures
        ({
            let position: F32 = mixdown::read_at(i, F32::of(ONE));
            &&& position == F32::from_usize(i)
            &&& position.is_finite()
            &&& position.floor().to_usize() == i
        }),
{
    let w: Width = Width::Single;
    let x: F32 = F32::from_usize(i);
    rounding::lemma_step(w);
    lemma_pow2_pos(149);
    numbers::lemma_from_u64_finite(i as u64);
    numbers::lemma_value_order(x, x);
    numbers::law_times_one(x);
    reveal(F32::spec_from_u64);
    reveal(F32::spec_floor);
    reveal(F32::spec_to_usize);
    reveal(F32::spec_to_u64);
    reveal(F32::spec_is_finite);
    if i < 0x100_0000 {
        numbers::lemma_small_integer(w, i as int);
    } else {
        let code: int = numbers::lemma_representable(w, 1, 173);
        lemma_pow2_adds(24, 149);
        lemma2_to64();
        rounding::lemma_encode_exact(w, code);
    }
    lemma_whole(w, x.parts(), i as int);
}

/// At unit pitch, a buffer of exact length is resampled to as many samples,
/// or as many as are asked for.
proof fn lemma_unit_length_of_any(len: usize, max_out: usize)
    requires
        len < 0x1f_ffff_ffff_ffff,
    ensures
        mixdown::resampled_len(len, F32::of(ONE), max_out) == (if max_out <= len {
            max_out
        } else {
            len
        }),
{
    if max_out < 0x20_0000_0000_0000 {
        lemma_unit_length(len, max_out);
    } else {
        let most: usize = 0x1f_ffff_ffff_ffffu64 as usize;
        let raw: F64 = F64::from_usize(len).over(F32::of(ONE).widen()).floor();
        lemma_unit_length(len, most);
        numbers::lemma_wide_integer_order(most as u64, max_out as u64);
        assert(!F64::from_usize(max_out).le(raw)) by {
            reveal(F64::spec_le);
            reveal(F64::spec_lt);
            reveal(F64::spec_same);
        }
    }
}

/// At unit pitch, resampling yields the buffer itself as far as it is asked
/// for, and as far as places are 32-bit numbers: for up to 16,777,217 samples.
pub proof fn law_unit_pitch_resamples_to_itself(buffer: Seq<F32>, max_out: usize)
    requires
        buffer.len() <= 0x100_0001,
        forall|i: int| 0 <= i < buffer.len() ==> (#[trigger] buffer[i]).is_finite(),
    ensures
        ({
            let r: Seq<F32> = mixdown::varispeed(buffer, F32::of(ONE), max_out);
            &&& r.len() == (if max_out <= buffer.len() {
                max_out as int
            } else {
                buffer.len() as int
            })
            &&& forall|i: int| 0 <= i < r.len() ==> (#[trigger] r[i]).same(buffer[i])
        }),
{
    if buffer.len() > 0 {
        let one: F32 = F32::of(ONE);
        numbers::lemma_zero_one();
        numbers::lemma_value_order(one, F32::of(0));
        lemma_unit_length_of_any(buffer.len() as usize, max_out);
        lemma_unit_resampled(
            buffer,
            mixdown::resampled_len(buffer.len() as usize, one, max_out) as int,
        );
    }
}

/// The first samples at unit pitch.
proof fn lemma_unit_resampled(buffer: Seq<F32>, n: int)
    requires
        0 <= n <= buffer.len() <= 0x100_0001,
        forall|i: int| 0 <= i < buffer.len() ==> (#[trigger] buffer[i]).is_finite(),
    ensures
        ({
            let r: Seq<F32> = mixdown::resampled(buffer, F32::of(ONE), n);
            &&& r.len() == n
            &&& forall|i: int| 0 <= i < n ==> (#[trigger] r[i]).same(buffer[i])
        }),
    decreases n,
{
    if n > 0 {
        let k: int = n - 1;
        lemma_unit_resampled(buffer, k);
        lemma_unit_place(k as usize);
        let position: F32 = mixdown::read_at(k as usize, F32::of(ONE));
        let frac: F32 = position.minus(F32::from_usize(k as usize));
        let zero: F32 = F32::of(0);
        numbers::lemma_zero_one();
        numbers::lemma_minus_between(position, position, zero, zero);
        numbers::lemma_value_order(frac, zero);
        numbers::lemma_value_order(zero, frac);
        numbers::lemma_same(buffer[k], buffer[k]);
        if k + 1 < buffer.len() {
            numbers::lemma_blend_ends(buffer[k], buffer[k + 1], frac);
        }
    }
}

} // verus!
