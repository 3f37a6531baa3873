use symbios_audio::elementary::Elementary;
use symbios_audio::float::F32;
use symbios_audio::gate::Gate;
use symbios_audio::mixdown::{
    apply_loop_crossfade, bake_sequence, beat_seconds, duration_to_samples, loop_start_sample,
    resample_linear, retuned_patch, write_into,
};
use symbios_audio::node::NodeKind;
use symbios_audio::oscillator::{SawtoothOsc, SineOsc};
use symbios_audio::patch::{AudioPatch, GraphNode, NodeGraph, NodeId};
use symbios_audio::sequence::{Event, Instrument, PitchMode, SequenceRecipe, Track};
use symbios_audio::wav::MAX_WAV_SAMPLES;

fn v(x: f32) -> F32 {
    F32::of(x.to_bits())
}

fn n(x: F32) -> f32 {
    f32::from_bits(x.bits)
}

fn math(k: Elementary, x: F32) -> F32 {
    let x = n(x);
    v(match k {
        Elementary::Sin => x.sin(),
        Elementary::Cos => x.cos(),
        Elementary::Tanh => x.tanh(),
        Elementary::Exp2 => 2.0_f32.powf(x),
    })
}


fn vs(xs: &[f32]) -> Vec<F32> {
    xs.iter().map(|x| v(*x)).collect()
}

fn ns(xs: &[F32]) -> Vec<f32> {
    xs.iter().map(|x| n(*x)).collect()
}

fn resample(source: &[f32], pitch: f32, max_out: usize) -> Vec<f32> {
    ns(&resample_linear(&vs(source), v(pitch), max_out))
}

fn bake(recipe: &SequenceRecipe) -> Vec<f32> {
    ns(&bake_sequence(recipe, &math))
}

#[test]
fn resample_at_unit_pitch_is_identity() {
    let src = vec![0.0, 0.25, 0.5, 0.75, 1.0];
    let out = resample(&src, 1.0, usize::MAX);
    assert_eq!(out.len(), src.len());
    for (a, b) in src.iter().zip(out.iter()) {
        assert!((a - b).abs() < 1e-6);
    }
}

#[test]
fn resample_at_pitch_two_halves_length() {
    let src: Vec<f32> = (0..100).map(|i| i as f32).collect();
    let out = resample(&src, 2.0, usize::MAX);
    assert_eq!(out.len(), 50);
    for (i, s) in out.iter().enumerate() {
        assert!((s - (2 * i) as f32).abs() < 1e-3);
    }
}

#[test]
fn resample_at_pitch_half_doubles_length_with_interp() {
    let src = vec![0.0_f32, 10.0, 20.0, 30.0];
    let out = resample(&src, 0.5, usize::MAX);
    assert_eq!(out.len(), 8);
    assert!((out[0] - 0.0).abs() < 1e-6);
    assert!((out[1] - 5.0).abs() < 1e-6);
    assert!((out[2] - 10.0).abs() < 1e-6);
}

#[test]
fn resample_rejects_non_positive_pitch() {
    assert!(resample(&[1.0, 2.0], 0.0, usize::MAX).is_empty());
    assert!(resample(&[1.0, 2.0], -1.0, usize::MAX).is_empty());
    assert!(resample(&[1.0, 2.0], f32::NAN, usize::MAX).is_empty());
}

#[test]
fn resample_empty_source_is_empty() {
    assert!(resample(&[], 1.0, usize::MAX).is_empty());
}

#[test]
fn resample_caps_output_at_max_out() {
    let src: Vec<f32> = (0..100).map(|i| i as f32).collect();
    let out = resample(&src, 0.5, 10);
    assert_eq!(out.len(), 10);
}

#[test]
fn asking_for_less_only_cuts_a_resampling_short() {
    let src: Vec<f32> = (0..40).map(|i| (i * i) as f32).collect();
    for pitch in [0.3, 0.5, 1.0, 1.7, 8.0] {
        let long = resample(&src, pitch, usize::MAX);
        for k in [0, 1, 5, 30, 133, 200, usize::MAX - 1] {
            let short = resample(&src, pitch, k);
            assert_eq!(short.len(), k.min(long.len()));
            assert_eq!(short, long[..short.len()]);
        }
    }
    assert_eq!(resample(&src, 1.0, 7), src[..7]);
}

#[test]
fn resample_subnormal_pitch_is_bounded_not_oom() {
    let src = vec![0.5_f32; 8];
    let out = resample(&src, f32::MIN_POSITIVE, 32);
    assert_eq!(out.len(), 32);
    assert!(out.iter().all(|s| (*s - 0.5).abs() < 1e-6));
}

#[test]
fn duration_to_samples_clamps_absurd_durations() {
    assert_eq!(
        duration_to_samples(v(f32::MAX), v(0.5), 44_100),
        MAX_WAV_SAMPLES,
        "huge duration must clamp to the WAV ceiling"
    );
    assert_eq!(duration_to_samples(v(2.0), v(0.5), 44_100), 44_100);
}

#[test]
fn write_into_clips_at_master_end() {
    let mut master = vs(&[0.0; 5]);
    write_into(&mut master, 3, &vs(&[1.0, 1.0, 1.0, 1.0]), v(1.0));
    assert_eq!(ns(&master), vec![0.0, 0.0, 0.0, 1.0, 1.0]);
}

#[test]
fn write_into_applies_volume_scaler() {
    let mut master = vs(&[0.0; 4]);
    write_into(&mut master, 0, &vs(&[1.0, 1.0, 1.0, 1.0]), v(0.25));
    for s in ns(&master) {
        assert!((s - 0.25).abs() < 1e-6);
    }
}

#[test]
fn write_into_at_or_past_master_end_is_noop() {
    let mut master = vs(&[0.0; 4]);
    write_into(&mut master, 10, &vs(&[1.0, 1.0]), v(1.0));
    assert!(ns(&master).iter().all(|s| *s == 0.0));
}

#[test]
fn empty_recipe_returns_empty_master() {
    let recipe = SequenceRecipe { duration_beats: v(0.0), ..SequenceRecipe::default() };
    assert!(bake(&recipe).is_empty());
}

#[test]
fn beat_seconds_handles_invalid_bpm() {
    assert_eq!(n(beat_seconds(v(120.0))), 0.5);
    assert_eq!(n(beat_seconds(v(0.0))), 0.0);
    assert_eq!(n(beat_seconds(v(-50.0))), 0.0);
}

#[test]
fn apply_loop_crossfade_blends_tail_into_loop_start() {
    let mut master = vs(&[0.0, 0.0, 0.0, 0.0, 1.0, 1.0, 1.0, 1.0]);
    apply_loop_crossfade(&mut master, 0, 4, 4);
    let master = ns(&master);
    assert!((master[0] - 1.0).abs() < 1e-6);
    assert!((master[1] - 0.75).abs() < 1e-6);
    assert!((master[2] - 0.5).abs() < 1e-6);
    assert!((master[3] - 0.25).abs() < 1e-6);
}

#[test]
fn apply_loop_crossfade_is_noop_when_no_tail() {
    let mut master = vs(&[0.5; 4]);
    let before = master.clone();
    apply_loop_crossfade(&mut master, 0, 4, 0);
    assert_eq!(master, before);
}

#[test]
fn apply_loop_crossfade_skips_when_loop_start_past_main() {
    let mut master = vs(&[0.5; 8]);
    apply_loop_crossfade(&mut master, 5, 4, 4);
    assert!(ns(&master).iter().all(|s| (*s - 0.5).abs() < 1e-6));
}

#[test]
fn apply_loop_crossfade_clips_window_when_loop_too_close_to_end() {
    let mut master = vs(&[0.0; 8]);
    master[6] = v(0.8);
    master[7] = v(0.6);
    apply_loop_crossfade(&mut master, 4, 6, 4);
    let master = ns(&master);
    assert!((master[4] - 0.8).abs() < 1e-6, "got {}", master[4]);
    assert!((master[5] - 0.3).abs() < 1e-6, "got {}", master[5]);
}

fn patch_of(kind: NodeKind) -> AudioPatch {
    AudioPatch {
        seed: 0,
        graph: NodeGraph {
            nodes: vec![GraphNode { id: NodeId(0), kind, inputs: Vec::new() }],
            output: NodeId(0),
        },
    }
}

/// A full-scale sine, and nothing else.
fn sine(freq_hz: f32) -> AudioPatch {
    patch_of(NodeKind::Sine(SineOsc { freq_hz: v(freq_hz), ..SineOsc::default() }))
}

/// Four beats of 60 BPM at 8 kHz looping from beat 1, with a tone that comes
/// in at the loop start and holds through the end and the tail.
fn tone_from_the_loop_start(loop_crossfade_beats: f32) -> SequenceRecipe {
    SequenceRecipe {
        bpm: v(60.0),
        sample_rate: 8_000,
        duration_beats: v(4.0),
        loop_start_beats: Some(v(1.0)),
        loop_crossfade_beats: v(loop_crossfade_beats),
        instruments: vec![Instrument { id: "tone".into(), patch: sine(220.25) }],
        tracks: vec![Track {
            events: vec![Event {
                time_beats: v(1.0),
                instrument_id: "tone".into(),
                volume: v(0.5),
                gate_beats: v(4.0),
                ..Event::default()
            }],
        }],
    }
}

#[test]
fn the_crossfaded_seam_runs_from_the_last_sample_to_the_loop_start() {
    let looped = bake(&tone_from_the_loop_start(0.5));
    let hard = bake(&tone_from_the_loop_start(0.0));
    assert_eq!((looped.len(), hard.len()), (32_000, 32_000));
    let (last, loop_start) = (31_999, 8_000);
    let step = 0.5 * std::f32::consts::TAU * 220.25 / 8_000.0;

    let seam = (looped[last] - looped[loop_start]).abs();
    let whole_buffer = (looped[last] - looped[0]).abs();
    let hard_seam = (hard[last] - hard[loop_start]).abs();
    assert!(
        seam < 0.01 && (whole_buffer - 0.456).abs() < 0.001,
        "the numbers moved: a seam of {seam}, {whole_buffer} back to sample 0"
    );
    assert!(
        seam < step,
        "last -> loop start is {seam}, more than the tone's own step {step}"
    );
    assert!(
        whole_buffer > 5.0 * step,
        "last -> sample 0 is {whole_buffer}: no click against the tone's step {step}"
    );
    assert!(
        hard_seam > 5.0 * step,
        "the hard cut's last -> loop start is {hard_seam}: the crossfade made no difference"
    );
}

/// One sine held through the recipe and its tail.
fn sounding(recipe: SequenceRecipe) -> SequenceRecipe {
    let held = n(recipe.duration_beats) + n(recipe.loop_crossfade_beats) + 1.0;
    SequenceRecipe {
        instruments: vec![Instrument { id: "tone".into(), patch: sine(219.3) }],
        tracks: vec![Track {
            events: vec![Event {
                instrument_id: "tone".into(),
                gate_beats: v(if held.is_finite() { held } else { 1.0 }),
                volume: v(0.5),
                ..Event::default()
            }],
        }],
        ..recipe
    }
}

/// Two seconds at 8 kHz: four beats of 120 BPM with a beat of tail, looping
/// from beat 1.
fn base() -> SequenceRecipe {
    SequenceRecipe {
        bpm: v(120.0),
        sample_rate: 8_000,
        duration_beats: v(4.0),
        loop_start_beats: Some(v(1.0)),
        loop_crossfade_beats: v(1.0),
        ..SequenceRecipe::default()
    }
}

/// The first sample at which a bake differs from the one without a loop.
fn fold(recipe: &SequenceRecipe) -> Option<usize> {
    let looped = bake(recipe);
    let plain = bake(&SequenceRecipe { loop_start_beats: None, ..recipe.clone() });
    looped.iter().zip(&plain).position(|(a, b)| a != b)
}

#[test]
fn the_loop_start_is_where_the_bake_folds_its_tail() {
    let from = |beats: f32| SequenceRecipe { loop_start_beats: Some(v(beats)), ..base() };
    let none = [
        ("no loop point", SequenceRecipe { loop_start_beats: None, ..base() }),
        ("a loop start at the end", from(4.0)),
        ("a loop start past the end", from(9.0)),
        ("a loop start that rounds onto the end", from(3.9999)),
        ("no length", SequenceRecipe { duration_beats: v(0.0), ..from(0.0) }),
        ("a NaN length", SequenceRecipe { duration_beats: v(f32::NAN), ..base() }),
        ("no tempo", SequenceRecipe { bpm: v(0.0), ..base() }),
        ("a NaN tempo", SequenceRecipe { bpm: v(f32::NAN), ..base() }),
        ("no sample rate", SequenceRecipe { sample_rate: 0, ..base() }),
    ];
    for (what, recipe) in none {
        let recipe = sounding(recipe);
        assert_eq!(loop_start_sample(&recipe), None, "{what}");
        assert_eq!(fold(&recipe), None, "{what}: the bake folded its tail");
    }

    let some = [
        ("beat 1", base(), 4_000),
        ("a start between two samples", from(2.37), 9_480),
        ("the last sample", from(3.99), 15_960),
        ("a negative start", from(-1.0), 0),
        ("a NaN start", from(f32::NAN), 0),
        (
            "another tempo and rate",
            SequenceRecipe {
                bpm: v(97.0),
                sample_rate: 11_025,
                duration_beats: v(3.0),
                loop_start_beats: Some(v(1.3)),
                loop_crossfade_beats: v(0.5),
                ..SequenceRecipe::default()
            },
            8_865,
        ),
    ];
    for (what, recipe, sample) in some {
        let recipe = sounding(recipe);
        assert_eq!(fold(&recipe), Some(sample), "{what}: the bake folded there");
        assert_eq!(loop_start_sample(&recipe), Some(sample), "{what}");
    }

    let hard = sounding(SequenceRecipe { loop_crossfade_beats: v(0.0), ..base() });
    assert_eq!(fold(&hard), None, "a hard cut has no tail to fold");
    assert_eq!(loop_start_sample(&hard), Some(4_000));
}

/// A recipe of one beat per second at 100 samples, one instrument that is
/// open for as long as its note.
fn gated(events: Vec<Event>, duration: f32) -> SequenceRecipe {
    SequenceRecipe {
        bpm: v(60.0),
        sample_rate: 100,
        duration_beats: v(duration),
        loop_start_beats: None,
        loop_crossfade_beats: v(0.0),
        instruments: vec![Instrument {
            id: "open".into(),
            patch: patch_of(NodeKind::Gate(Gate::default())),
        }],
        tracks: vec![Track { events }],
    }
}

fn note(time: f32, gate: f32) -> Event {
    Event {
        time_beats: v(time),
        instrument_id: "open".into(),
        gate_beats: v(gate),
        ..Event::default()
    }
}

#[test]
fn events_sound_for_their_gate_and_release_and_add_up() {
    let mut long = note(0.0, 0.02);
    long.release_beats = v(0.02);
    let out = bake(&gated(vec![long, note(0.01, 0.03)], 0.06));
    let (one, two) = (1.0_f32.tanh(), 2.0_f32.tanh());
    assert_eq!(out, vec![one, two, one, one, 0.0, 0.0]);
}

#[test]
fn events_past_the_end_and_without_an_instrument_are_left_out() {
    let mut lost = note(0.0, 0.03);
    lost.instrument_id = "nobody".into();
    let out = bake(&gated(vec![lost, note(0.05, 0.02), note(0.02, 0.5)], 0.04));
    let one = 1.0_f32.tanh();
    assert_eq!(out, vec![0.0, 0.0, one, one]);
}

#[test]
fn a_broken_instrument_is_left_out() {
    let mut recipe = gated(vec![note(0.0, 0.02)], 0.03);
    recipe.instruments[0].patch.graph.output = NodeId(9);
    assert_eq!(bake(&recipe), vec![0.0, 0.0, 0.0]);
}

#[test]
fn the_last_of_two_instruments_with_a_name_is_played() {
    let mut recipe = gated(vec![note(0.0, 0.02)], 0.02);
    recipe.instruments.push(Instrument {
        id: "open".into(),
        patch: patch_of(NodeKind::Silence),
    });
    assert_eq!(bake(&recipe), vec![0.0, 0.0]);
}

#[test]
fn volumes_are_kept_between_zero_and_one() {
    let mut loud = note(0.0, 0.01);
    loud.volume = v(5.0);
    let mut muted = note(0.01, 0.01);
    muted.volume = v(-1.0);
    let out = bake(&gated(vec![loud, muted], 0.02));
    assert_eq!(out, vec![1.0_f32.tanh(), 0.0]);
}

#[test]
fn varispeed_changes_the_length_and_time_preserving_does_not() {
    let mut fast = note(0.0, 0.04);
    fast.pitch_multiplier = v(2.0);
    let one = 1.0_f32.tanh();
    assert_eq!(bake(&gated(vec![fast.clone()], 0.05)), vec![one, one, 0.0, 0.0, 0.0]);
    fast.pitch_mode = PitchMode::TimePreserving;
    assert_eq!(bake(&gated(vec![fast.clone()], 0.05)), vec![one, one, one, one, 0.0]);
    fast.pitch_multiplier = v(f32::INFINITY);
    assert_eq!(bake(&gated(vec![fast], 0.05)), vec![0.0; 5]);
}

#[test]
fn at_unit_pitch_both_modes_sound_the_same() {
    let mut recipe = tone_from_the_loop_start(0.5);
    recipe.sample_rate = 1_000;
    let resampled = bake(&recipe);
    recipe.tracks[0].events[0].pitch_mode = PitchMode::TimePreserving;
    assert_eq!(bake(&recipe), resampled);
}

#[test]
fn equal_events_share_a_bake_and_add_up() {
    let out = bake(&gated(vec![note(0.0, 0.02), note(0.0, 0.02), note(0.01, 0.02)], 0.03));
    let (one, two, three) = (1.0_f32.tanh(), 2.0_f32.tanh(), 3.0_f32.tanh());
    assert_eq!(out, vec![two, three, one]);
}

#[test]
fn a_looped_buffer_is_as_long_as_its_timeline() {
    let mut recipe = gated(vec![note(0.0, 0.1)], 0.05);
    recipe.loop_crossfade_beats = v(0.03);
    assert_eq!(bake(&recipe).len(), 8);
    recipe.loop_start_beats = Some(v(0.01));
    assert_eq!(bake(&recipe).len(), 5);
    recipe.loop_start_beats = Some(v(0.09));
    assert_eq!(bake(&recipe).len(), 5);
}

#[test]
fn every_sample_of_a_looped_buffer_is_between_minus_one_and_one() {
    let mut recipe = tone_from_the_loop_start(2.0);
    recipe.sample_rate = 2_000;
    let again = recipe.tracks[0].events[0].clone();
    for _ in 0..20 {
        recipe.tracks[0].events.push(again.clone());
    }
    assert!(bake(&recipe).iter().all(|s| (-1.0..=1.0).contains(s)));
}

#[test]
fn retuning_scales_oscillators_alone() {
    let saw = NodeKind::Sawtooth(SawtoothOsc { freq_hz: v(100.0), ..SawtoothOsc::default() });
    let up = retuned_patch(&patch_of(saw), v(1.5));
    assert_eq!(
        up.graph.nodes[0].kind,
        NodeKind::Sawtooth(SawtoothOsc { freq_hz: v(150.0), ..SawtoothOsc::default() })
    );
    let still = patch_of(NodeKind::Gate(Gate::default()));
    assert_eq!(retuned_patch(&still, v(1.5)), still);
}

#[test]
fn a_loop_blends_from_its_tail_into_itself() {
    let recipe = sounding(base());
    let out = bake(&recipe);
    let plain = bake(&SequenceRecipe { loop_start_beats: None, ..recipe.clone() });
    let (at, m) = (loop_start_sample(&recipe).unwrap(), out.len());
    let fade = (plain.len() - m).min(m - at);
    assert_eq!((at, m, fade), (4_000, 16_000, 4_000));
    assert_eq!(out[at], plain[m]);
    for i in 0..fade {
        let alpha = i as f32 / fade as f32;
        assert_eq!(out[at + i], (1.0 - alpha) * plain[m + i] + alpha * plain[at + i]);
    }
    assert_eq!(out[..at], plain[..at]);
    assert_eq!(out[at + fade..], plain[at + fade..m]);
    assert!(out.iter().all(|s| s.abs() <= 1.0));
}
