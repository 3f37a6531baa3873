use rand::{Rng, SeedableRng};
use rand_chacha::ChaCha8Rng;
use std::cell::RefCell;
use std::collections::HashMap;
use symbios_audio::elementary::Elementary;
use symbios_audio::float::F32;
use symbios_audio::genetics::{Draw, Tape};
use symbios_audio::lineage::{BPM_MAX, BPM_MIN};
use symbios_audio::patch::AudioPatch;
use symbios_audio::sequence::{Event, Instrument, PitchMode, SequenceRecipe, Track};

fn v(x: f32) -> F32 {
    F32::of(x.to_bits())
}

fn n(x: F32) -> f32 {
    f32::from_bits(x.bits)
}

fn math(k: Elementary, x: F32) -> F32 {
    let x = n(x);
    v(match k {
        Elementary::Sin => x.sin(),
        Elementary::Cos => x.cos(),
        Elementary::Tanh => x.tanh(),
        Elementary::Exp2 => 2.0_f32.powf(x),
    })
}

/// Draws from a generator, every draw answered once.
fn dealt(rng: ChaCha8Rng) -> impl Fn(u64, Draw) -> u64 {
    let rng = RefCell::new(rng);
    let known: RefCell<HashMap<(u64, u8), u64>> = RefCell::new(HashMap::new());
    move |at, kind| {
        let code: u8 = match kind {
            Draw::Unit => 0,
            Draw::WideUnit => 1,
            Draw::Coin => 2,
            Draw::Word => 3,
        };
        *known.borrow_mut().entry((at, code)).or_insert_with(|| match kind {
            Draw::Unit => u64::from(rng.borrow_mut().random::<f32>().to_bits()),
            Draw::WideUnit => rng.borrow_mut().random::<f64>().to_bits(),
            Draw::Coin => u64::from(rng.borrow_mut().random::<bool>()),
            Draw::Word => u64::from(rng.borrow_mut().random::<u32>()),
        })
    }
}

fn small_recipe() -> SequenceRecipe {
    SequenceRecipe {
        bpm: v(110.0),
        sample_rate: 44_100,
        duration_beats: v(8.0),
        loop_start_beats: Some(v(4.0)),
        loop_crossfade_beats: v(1.0),
        instruments: vec![
            Instrument { id: "wind".into(), patch: AudioPatch::default() },
            Instrument { id: "kick".into(), patch: AudioPatch::default() },
        ],
        tracks: vec![
            Track {
                events: vec![
                    Event {
                        time_beats: v(0.0),
                        instrument_id: "wind".into(),
                        pitch_multiplier: v(1.0),
                        volume: v(0.6),
                        gate_beats: v(8.0),
                        release_beats: v(0.0),
                        ..Default::default()
                    },
                    Event {
                        time_beats: v(4.0),
                        instrument_id: "wind".into(),
                        pitch_multiplier: v(0.97),
                        volume: v(0.4),
                        gate_beats: v(4.0),
                        release_beats: v(0.0),
                        ..Default::default()
                    },
                ],
            },
            Track {
                events: vec![Event {
                    time_beats: v(0.5),
                    instrument_id: "kick".into(),
                    pitch_multiplier: v(1.0),
                    volume: v(0.8),
                    gate_beats: v(0.25),
                    release_beats: v(0.0),
                    ..Default::default()
                }],
            },
        ],
    }
}

#[test]
fn default_recipe_has_sensible_shape() {
    let r = SequenceRecipe::default();
    assert_eq!(r.sample_rate, 44_100);
    assert_eq!(n(r.bpm), 120.0);
    assert!(r.instruments.is_empty());
    assert!(r.tracks.is_empty());
    assert!(r.loop_start_beats.is_none());
}

#[test]
fn default_event_uses_unit_pitch_and_volume() {
    let e = Event::default();
    assert_eq!(n(e.pitch_multiplier), 1.0);
    assert_eq!(n(e.volume), 1.0);
    assert_eq!(n(e.time_beats), 0.0);
    assert_eq!(e.pitch_mode, PitchMode::Varispeed);
}

#[test]
fn mutate_keeps_bpm_inside_audible_tempo_range() {
    let mut recipe = SequenceRecipe { bpm: v(25.0), ..small_recipe() };
    let draws = dealt(ChaCha8Rng::seed_from_u64(0));
    let mut tape = Tape::new(&draws);
    let (slow, fast) = (f32::from_bits(BPM_MIN), f32::from_bits(BPM_MAX));
    assert_eq!((slow, fast), (20.0, 300.0));
    for _ in 0..500 {
        recipe.mutate(&mut tape, v(1.0), &math);
        assert!(
            (slow..=fast).contains(&n(recipe.bpm)),
            "BPM {} escaped [{slow}, {fast}]",
            n(recipe.bpm)
        );
    }
}

#[test]
fn mutate_keeps_event_volumes_inside_unit_interval() {
    let mut recipe = small_recipe();
    let draws = dealt(ChaCha8Rng::seed_from_u64(1));
    let mut tape = Tape::new(&draws);
    for _ in 0..200 {
        recipe.mutate(&mut tape, v(1.0), &math);
        for t in &recipe.tracks {
            for e in &t.events {
                assert!(
                    (0.0..=1.0).contains(&n(e.volume)),
                    "event volume {} escaped [0,1]",
                    n(e.volume)
                );
            }
        }
    }
}

#[test]
fn mutate_preserves_structure_lengths() {
    let mut recipe = small_recipe();
    let inst_count = recipe.instruments.len();
    let track_count = recipe.tracks.len();
    let event_counts: Vec<usize> = recipe.tracks.iter().map(|t| t.events.len()).collect();
    let draws = dealt(ChaCha8Rng::seed_from_u64(2));
    let mut tape = Tape::new(&draws);
    for _ in 0..50 {
        recipe.mutate(&mut tape, v(1.0), &math);
    }
    assert_eq!(recipe.instruments.len(), inst_count);
    assert_eq!(recipe.tracks.len(), track_count);
    for (t, expected) in recipe.tracks.iter().zip(event_counts) {
        assert_eq!(t.events.len(), expected);
    }
}

#[test]
fn mutate_at_rate_zero_is_identity() {
    let original = small_recipe();
    let mut mutated = original.clone();
    mutated.mutate(&mut Tape::new(&dealt(ChaCha8Rng::seed_from_u64(42))), v(0.0), &math);
    assert_eq!(mutated, original);
}

#[test]
fn sequence_crossover_takes_each_field_from_one_parent() {
    let a = small_recipe();
    let b = SequenceRecipe {
        bpm: v(200.0),
        sample_rate: 48_000,
        duration_beats: v(16.0),
        loop_start_beats: None,
        loop_crossfade_beats: v(0.0),
        ..a.clone()
    };
    let child = a.crossover(&b, &mut Tape::new(&dealt(ChaCha8Rng::seed_from_u64(7))));
    assert!(child.bpm == a.bpm || child.bpm == b.bpm);
    assert!(child.sample_rate == a.sample_rate || child.sample_rate == b.sample_rate);
    assert!(child.duration_beats == a.duration_beats || child.duration_beats == b.duration_beats);
}

#[test]
fn mutation_changes_the_tempo_and_the_volumes_alone() {
    let original = small_recipe();
    let mut mutated = original.clone();
    mutated.mutate(&mut Tape::new(&dealt(ChaCha8Rng::seed_from_u64(3))), v(1.0), &math);
    assert_ne!(mutated, original);
    mutated.bpm = original.bpm;
    for (t, was) in mutated.tracks.iter_mut().zip(original.tracks.iter()) {
        for (e, before) in t.events.iter_mut().zip(was.events.iter()) {
            e.volume = before.volume;
        }
    }
    assert_eq!(mutated, original);
}

#[test]
fn every_field_of_a_child_has_its_own_coin() {
    let a = small_recipe();
    let b = SequenceRecipe {
        bpm: v(200.0),
        sample_rate: 48_000,
        duration_beats: v(16.0),
        loop_start_beats: None,
        loop_crossfade_beats: v(0.0),
        instruments: Vec::new(),
        tracks: Vec::new(),
    };
    for field in 0..7_u64 {
        let one = move |at: u64, _: Draw| u64::from(at == field);
        let mut tape = Tape::new(&one);
        let child = a.crossover(&b, &mut tape);
        assert_eq!(tape.at, 7);
        assert_eq!(child.bpm == a.bpm, field == 0);
        assert_eq!(child.sample_rate == a.sample_rate, field == 1);
        assert_eq!(child.duration_beats == a.duration_beats, field == 2);
        assert_eq!(child.loop_start_beats == a.loop_start_beats, field == 3);
        assert_eq!(child.loop_crossfade_beats == a.loop_crossfade_beats, field == 4);
        assert_eq!(child.instruments == a.instruments, field == 5);
        assert_eq!(child.tracks == a.tracks, field == 6);
    }
}
