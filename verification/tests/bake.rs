use std::cell::Cell;
use symbios_audio::bake::{bake, bake_inner, duration_samples, try_bake, try_bake_cancellable};
use symbios_audio::chorus::Chorus;
use symbios_audio::elementary::Elementary;
use symbios_audio::envelope::{ClampToEnvelope, Envelope};
use symbios_audio::float::F32;
use symbios_audio::gate::Gate;
use symbios_audio::mix::{Gain, Mix};
use symbios_audio::node::NodeKind;
use symbios_audio::noise::WhiteNoise;
use symbios_audio::oscillator::{SawtoothOsc, SineOsc, SquareOsc};
use symbios_audio::patch::{AudioPatch, Connection, GraphError, GraphNode, NodeGraph, NodeId};
use symbios_audio::stream::Stream;
use symbios_audio::wav::MAX_WAV_SAMPLES;

fn v(x: f32) -> F32 {
    F32::of(x.to_bits())
}

fn n(x: F32) -> f32 {
    f32::from_bits(x.bits)
}

fn math(k: Elementary, x: F32) -> F32 {
    let x = n(x);
    v(match k {
        Elementary::Sin => x.sin(),
        Elementary::Cos => x.cos(),
        Elementary::Tanh => x.tanh(),
        Elementary::Exp2 => 2.0_f32.powf(x),
    })
}


/// FNV-1a over the samples' bit patterns, low byte first.
fn fnv1a_64(samples: &[f32]) -> u64 {
    const FNV_OFFSET: u64 = 0xcbf29ce4_84222325;
    const FNV_PRIME: u64 = 0x100000001b3;
    let mut h = FNV_OFFSET;
    for s in samples {
        for byte in s.to_bits().to_le_bytes() {
            h ^= u64::from(byte);
            h = h.wrapping_mul(FNV_PRIME);
        }
    }
    h
}

fn numbers(buffer: &[F32]) -> Vec<f32> {
    buffer.iter().map(|s| n(*s)).collect()
}

fn node(id: u32, kind: NodeKind) -> GraphNode {
    GraphNode { id: NodeId(id), kind, inputs: Vec::new() }
}

fn silence_patch(seed: u32) -> AudioPatch {
    AudioPatch {
        seed,
        graph: NodeGraph { nodes: vec![node(0, NodeKind::Silence)], output: NodeId(0) },
    }
}

fn broken_patch() -> AudioPatch {
    AudioPatch {
        seed: 0,
        graph: NodeGraph { nodes: vec![node(0, NodeKind::Silence)], output: NodeId(99) },
    }
}

#[test]
fn zero_duration_yields_empty_buffer() {
    let p = silence_patch(0);
    assert!(bake(&p, 44_100, v(0.0), &math).is_empty());
}

#[test]
fn negative_duration_yields_empty_buffer() {
    let p = silence_patch(0);
    assert!(bake(&p, 44_100, v(-1.0), &math).is_empty());
}

#[test]
fn buffer_length_matches_rate_times_duration() {
    let p = silence_patch(0);
    let buf = bake(&p, 48_000, v(0.5), &math);
    assert_eq!(buf.len(), 24_000);
    let buf2 = bake(&p, 44_100, v(1.0), &math);
    assert_eq!(buf2.len(), 44_100);
}

#[test]
fn silence_only_patch_produces_all_zeros() {
    let p = silence_patch(0);
    let buf = numbers(&bake(&p, 44_100, v(0.01), &math));
    assert_eq!(buf.len(), 441);
    for (i, s) in buf.iter().enumerate() {
        assert_eq!(*s, 0.0_f32, "sample {i} not zero: {s}");
    }
}

#[test]
fn bake_is_deterministic_across_repeated_calls() {
    let patch = AudioPatch {
        seed: 0xDEAD_BEEF,
        graph: NodeGraph {
            nodes: vec![
                node(0, NodeKind::Silence),
                node(1, NodeKind::Silence)
                    .with_input("a", Connection::from_node(NodeId(0)))
                    .with_input("b", Connection::constant(v(0.25))),
            ],
            output: NodeId(1),
        },
    };
    let a = bake(&patch, 44_100, v(0.1), &math);
    let b = bake(&patch, 44_100, v(0.1), &math);
    assert_eq!(a, b);
}

#[test]
fn bake_hash_pinned_for_silent_quarter_second() {
    let p = silence_patch(0);
    let buf = numbers(&bake(&p, 44_100, v(0.25), &math));
    assert_eq!(buf.len(), 11_025);
    let h = fnv1a_64(&buf);
    assert_eq!(h, 0xC7D0_6137_6364_38F5);
}

#[test]
fn fnv1a_self_check_against_known_input() {
    let h = fnv1a_64(&[0.0_f32]);
    let expected: u64 = {
        const FNV_OFFSET: u64 = 0xcbf29ce4_84222325;
        const FNV_PRIME: u64 = 0x100000001b3;
        let mut h = FNV_OFFSET;
        for _ in 0..4 {
            h = h.wrapping_mul(FNV_PRIME);
        }
        h
    };
    assert_eq!(h, expected);
}

#[test]
#[should_panic(expected = "structurally invalid")]
fn invalid_graph_panics_loudly() {
    let p = broken_patch();
    let _ = bake(&p, 44_100, v(0.01), &math);
}

#[test]
fn try_bake_returns_err_on_invalid_graph() {
    let p = broken_patch();
    assert_eq!(
        try_bake(&p, 44_100, v(0.01), &math),
        Err(GraphError::MissingOutput(NodeId(99)))
    );
}

#[test]
fn try_bake_ok_matches_bake_for_valid_patch() {
    let p = silence_patch(0);
    let via_try = try_bake(&p, 44_100, v(0.05), &math).expect("valid patch bakes");
    let via_bake = bake(&p, 44_100, v(0.05), &math);
    assert_eq!(via_try, via_bake);
}

#[test]
fn bake_inner_aborts_when_cancelled() {
    let p = silence_patch(0);
    let out = bake_inner(&p, 44_100, 5_000_000, None, &|_| true, &math).expect("valid patch bakes");
    assert!(
        out.len() < 5_000_000,
        "cancelled bake must not run to completion: got {} samples",
        out.len()
    );
}

#[test]
fn bake_inner_completes_when_not_cancelled() {
    let p = silence_patch(0);
    let out = bake_inner(&p, 44_100, 1_000, None, &|_| false, &math).expect("valid patch bakes");
    assert_eq!(out.len(), 1_000);
}

#[test]
fn duration_samples_clamps_absurd_duration() {
    assert_eq!(duration_samples(44_100, v(f32::MAX)), MAX_WAV_SAMPLES as u64);
    assert_eq!(duration_samples(48_000, v(0.5)), 24_000);
}

#[test]
fn a_bake_that_is_cancelled_in_the_middle_is_a_prefix() {
    let p = AudioPatch {
        seed: 3,
        graph: NodeGraph {
            nodes: vec![node(0, NodeKind::WhiteNoise(WhiteNoise::default()))],
            output: NodeId(0),
        },
    };
    let asked = Cell::new(0_u64);
    let cancelled = |i: u64| {
        asked.set(asked.get() + 1);
        i >= 8_192
    };
    let cut = try_bake_cancellable(&p, 10_000, v(1.0), &cancelled, &math).expect("bakes");
    let full = try_bake(&p, 10_000, v(1.0), &math).expect("bakes");
    assert_eq!(cut.len(), 8_192);
    assert_eq!(asked.get(), 3);
    assert_eq!(full.len(), 10_000);
    assert_eq!(cut[..], full[..8_192]);
}

#[test]
fn the_noise_of_a_bake_is_the_stream_of_its_seed() {
    let p = AudioPatch {
        seed: 77,
        graph: NodeGraph {
            nodes: vec![node(4, NodeKind::WhiteNoise(WhiteNoise { amplitude: v(1.0) }))],
            output: NodeId(4),
        },
    };
    let out = bake(&p, 1_000, v(0.064), &math);
    let mut stream = Stream::new(77);
    assert_eq!(out.len(), 64);
    for s in out {
        assert_eq!(n(s), n(stream.draw()));
    }
}

#[test]
fn nodes_draw_in_evaluation_order_not_in_listing_order() {
    let first = node(1, NodeKind::WhiteNoise(WhiteNoise { amplitude: v(1.0) }));
    let second = node(2, NodeKind::WhiteNoise(WhiteNoise { amplitude: v(1.0) }));
    let listed = AudioPatch {
        seed: 5,
        graph: NodeGraph { nodes: vec![first.clone(), second.clone()], output: NodeId(2) },
    };
    let turned = AudioPatch {
        seed: 5,
        graph: NodeGraph { nodes: vec![second, first], output: NodeId(2) },
    };
    let a = bake(&listed, 1_000, v(0.01), &math);
    assert_eq!(a, bake(&turned, 1_000, v(0.01), &math));
    let mut stream = Stream::new(5);
    let _ = stream.draw();
    assert_eq!(n(a[0]), n(stream.draw()));
}

#[test]
fn connections_of_a_port_are_summed() {
    let p = AudioPatch {
        seed: 0,
        graph: NodeGraph {
            nodes: vec![
                node(1, NodeKind::Square(SquareOsc { freq_hz: v(0.0), ..SquareOsc::default() })),
                node(2, NodeKind::Mix(Mix { gain: v(1.0) }))
                    .with_input("in", Connection::modulation(NodeId(1), v(0.25)))
                    .with_input("in", Connection::constant(v(0.5)))
                    .with_input("more", Connection::constant(v(-2.0))),
            ],
            output: NodeId(2),
        },
    };
    let out = numbers(&bake(&p, 100, v(0.03), &math));
    assert_eq!(out, vec![-1.25, -1.25, -1.25]);
}

#[test]
fn the_gate_window_reaches_the_nodes() {
    let p = AudioPatch {
        seed: 0,
        graph: NodeGraph {
            nodes: vec![node(0, NodeKind::Gate(Gate::default()))],
            output: NodeId(0),
        },
    };
    let out = bake_inner(&p, 8_000, 5, Some(3), &|_| false, &math).expect("bakes");
    assert_eq!(numbers(&out), vec![1.0, 1.0, 1.0, 0.0, 0.0]);
    let held = bake_inner(&p, 8_000, 3, None, &|_| false, &math).expect("bakes");
    assert_eq!(numbers(&held), vec![1.0, 1.0, 1.0]);
}

#[test]
fn a_ramp_bakes_to_its_numbers() {
    let p = AudioPatch {
        seed: 0,
        graph: NodeGraph {
            nodes: vec![node(
                0,
                NodeKind::Sawtooth(SawtoothOsc { freq_hz: v(25.0), ..SawtoothOsc::default() }),
            )],
            output: NodeId(0),
        },
    };
    let out = numbers(&bake(&p, 100, v(0.05), &math));
    assert_eq!(out, vec![-1.0, -0.5, 0.0, 0.5, -1.0]);
}

#[test]
fn an_unknown_node_is_silent() {
    let p = AudioPatch {
        seed: 0,
        graph: NodeGraph { nodes: vec![node(0, NodeKind::Unknown)], output: NodeId(0) },
    };
    assert_eq!(numbers(&bake(&p, 100, v(0.03), &math)), vec![0.0, 0.0, 0.0]);
}

#[test]
fn a_sine_through_an_amplifier_at_half_gain() {
    let sine = NodeKind::Sine(SineOsc { freq_hz: v(440.0), ..SineOsc::default() });
    let patch = AudioPatch {
        seed: 0,
        graph: NodeGraph {
            nodes: vec![
                node(0, sine),
                node(1, NodeKind::Gain(Gain { gain: v(0.5) }))
                    .with_input("in", Connection::from_node(NodeId(0))),
            ],
            output: NodeId(1),
        },
    };
    let samples = numbers(&bake(&patch, 44_100, v(0.25), &math));
    assert_eq!(samples.len(), 11_025);
    let mut phase = 0.0_f32;
    for s in samples {
        let want = (2.0 * std::f32::consts::PI * (phase + 0.0)).sin() * 1.0 * 0.5;
        assert_eq!(s, want);
        phase = (phase + 440.0 / 44_100.0_f32).rem_euclid(1.0);
    }
}

#[test]
fn a_hostile_patch_bakes_once_it_is_clamped() {
    let endless = Chorus {
        rate_hz: v(f32::NAN),
        depth_ms: v(1e30),
        base_delay_ms: v(f32::INFINITY),
        feedback: v(1e9),
        mix: v(-4.0),
    };
    let mut patch = AudioPatch {
        seed: 0,
        graph: NodeGraph {
            nodes: vec![node(0, NodeKind::Chorus(endless))
                .with_input("in", Connection::constant(v(f32::INFINITY)))],
            output: NodeId(0),
        },
    };
    patch.clamp_to_envelope(&Envelope::default());
    let samples = numbers(&try_bake(&patch, 8_000, v(0.01), &math).unwrap_or_default());
    assert_eq!(samples.len(), 80);
    assert!(samples.iter().all(|s| s.is_finite()));
}

#[test]
fn no_samples_need_no_valid_graph() {
    assert_eq!(try_bake(&broken_patch(), 44_100, v(0.0), &math), Ok(Vec::new()));
}
