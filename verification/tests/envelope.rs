use symbios_audio::chorus::Chorus;
use symbios_audio::envelope::{
    truncate_on_char_boundary, ClampToEnvelope, Envelope, MAX_BEATS, MAX_CONNECTION_MAGNITUDE,
    MAX_GAIN, MAX_HZ, MAX_LFO_LEVEL,
};
use symbios_audio::filter::{BiquadHighpass, BiquadLowpass};
use symbios_audio::float::F32;
use symbios_audio::mix::{Gain, Mix};
use symbios_audio::node::NodeKind;
use symbios_audio::oscillator::SineOsc;
use symbios_audio::patch::{AudioPatch, Connection, GraphNode, NodeGraph, NodeId, Port};
use symbios_audio::reverb::Reverb;
use symbios_audio::sequence::{Event, Instrument, SequenceRecipe, Track};

fn v(x: f32) -> F32 {
    F32::of(x.to_bits())
}

fn n(x: F32) -> f32 {
    f32::from_bits(x.bits)
}


fn patch_of(seed: u32, kind: NodeKind) -> AudioPatch {
    AudioPatch {
        seed,
        graph: NodeGraph {
            nodes: vec![GraphNode { id: NodeId(0), kind, inputs: Vec::new() }],
            output: NodeId(0),
        },
    }
}

#[test]
fn clamping_an_in_envelope_patch_changes_nothing() {
    let limits = Envelope::default();
    for kind in NodeKind::defaults() {
        let mut patch = patch_of(7, kind);
        let before = patch.clone();
        patch.clamp_to_envelope(&limits);
        assert_eq!(patch, before, "{} was rewritten in envelope", kind.label());
    }

    let mut recipe = SequenceRecipe {
        instruments: vec![Instrument { id: String::from("bell"), patch: AudioPatch::default() }],
        tracks: vec![Track { events: vec![Event::default()] }],
        ..SequenceRecipe::default()
    };
    let before = recipe.clone();
    recipe.clamp_to_envelope(&limits);
    assert_eq!(recipe, before);
}

#[test]
fn clamping_is_idempotent() {
    let limits = Envelope::default();
    let mut patch = patch_of(
        0,
        NodeKind::Sine(SineOsc {
            freq_hz: v(f32::INFINITY),
            phase_offset: v(99.0),
            amplitude: v(f32::NAN),
        }),
    );
    patch.clamp_to_envelope(&limits);
    let once = patch.clone();
    patch.clamp_to_envelope(&limits);
    assert_eq!(patch, once);
}

#[test]
fn chorus_clamps_hostile_values() {
    let mut kind = NodeKind::Chorus(Chorus {
        rate_hz: v(1e9),
        depth_ms: v(f32::NAN),
        base_delay_ms: v(1e9),
        feedback: v(5.0),
        mix: v(50.0),
    });
    kind.clamp_to_envelope(&Envelope::default());
    let NodeKind::Chorus(c) = kind else {
        panic!("variant changed");
    };
    assert_eq!(n(c.rate_hz), 100.0);
    assert_eq!(n(c.depth_ms), 2.0, "NaN must fall back to the default");
    assert_eq!(n(c.base_delay_ms), 100.0);
    assert_eq!(n(c.feedback), 0.95, "feedback must stay contractive");
    assert_eq!(n(c.mix), 1.0);
}

#[test]
fn reverb_clamps_to_unit_ranges() {
    let mut kind = NodeKind::Reverb(Reverb {
        room_size: v(9.0),
        damping: v(-9.0),
        mix: v(f32::INFINITY),
    });
    kind.clamp_to_envelope(&Envelope::default());
    let NodeKind::Reverb(r) = kind else {
        panic!("variant changed");
    };
    assert_eq!(n(r.room_size), 1.0);
    assert_eq!(n(r.damping), 0.0);
    assert_eq!(n(r.mix), 0.3, "Inf must fall back to the default");
}

#[test]
fn mix_and_gain_clamp_gain() {
    let mut m = NodeKind::Mix(Mix { gain: v(1e6) });
    m.clamp_to_envelope(&Envelope::default());
    let NodeKind::Mix(m) = m else {
        panic!("variant changed");
    };
    assert_eq!(n(m.gain), 64.0);

    let mut g = NodeKind::Gain(Gain { gain: v(f32::NAN) });
    g.clamp_to_envelope(&Envelope::default());
    let NodeKind::Gain(g) = g else {
        panic!("variant changed");
    };
    assert_eq!(n(g.gain), 1.0, "NaN gain must fall back to unity");
}

#[test]
fn a_filter_with_a_broken_resonance_gets_its_default() {
    for q in [f32::NAN, f32::INFINITY, f32::NEG_INFINITY] {
        let mut low = NodeKind::BiquadLowpass(BiquadLowpass { cutoff_hz: v(500.0), q: v(q) });
        low.clamp_to_envelope(&Envelope::default());
        let want = v(std::f32::consts::FRAC_1_SQRT_2);
        let kept = v(500.0);
        assert_eq!(low, NodeKind::BiquadLowpass(BiquadLowpass { cutoff_hz: kept, q: want }));
        assert_eq!(BiquadLowpass::default().q, want);

        let mut high = NodeKind::BiquadHighpass(BiquadHighpass { cutoff_hz: kept, q: v(q) });
        high.clamp_to_envelope(&Envelope::default());
        assert_eq!(high, NodeKind::BiquadHighpass(BiquadHighpass { cutoff_hz: kept, q: want }));
    }
}

#[test]
fn an_unknown_kind_survives_clamping_unchanged() {
    let mut kind = NodeKind::Unknown;
    kind.clamp_to_envelope(&Envelope::default());
    assert_eq!(kind, NodeKind::Unknown);
}

#[test]
fn collections_truncate_to_their_caps() {
    let limits = Envelope::default();
    let mut patch = AudioPatch::default();
    patch.graph.nodes = vec![GraphNode::default(); limits.max_nodes + 50];
    patch.graph.nodes[0]
        .inputs
        .push(Port { name: String::from("in"), connections: vec![Connection::default(); 500] });
    patch.clamp_to_envelope(&limits);
    assert_eq!(patch.graph.nodes.len(), limits.max_nodes);
    assert_eq!(
        patch.graph.nodes[0].inputs[0].connections.len(),
        limits.max_connections_per_port
    );

    let mut recipe = SequenceRecipe {
        instruments: vec![Instrument::default(); limits.max_instruments + 10],
        tracks: vec![
            Track { events: vec![Event::default(); limits.max_track_events + 10] };
            limits.max_tracks + 10
        ],
        ..SequenceRecipe::default()
    };
    recipe.clamp_to_envelope(&limits);
    assert_eq!(recipe.instruments.len(), limits.max_instruments);
    assert_eq!(recipe.tracks.len(), limits.max_tracks);
    assert_eq!(recipe.tracks[0].events.len(), limits.max_track_events);
}

#[test]
fn a_caller_supplied_envelope_is_the_one_enforced() {
    let limits = Envelope { max_nodes: 2, ..Envelope::default() };
    let mut patch = AudioPatch::default();
    patch.graph.nodes = vec![GraphNode::default(); 10];
    patch.clamp_to_envelope(&limits);
    assert_eq!(patch.graph.nodes.len(), 2);
}

#[test]
fn an_instrument_id_is_trimmed_on_a_char_boundary() {
    let limits = Envelope { max_instrument_id_bytes: 4, ..Envelope::default() };
    let mut event = Event { instrument_id: "☃☃☃".into(), ..Event::default() };
    event.clamp_to_envelope(&limits);
    assert_eq!(event.instrument_id, "☃");

    let mut recipe = SequenceRecipe {
        instruments: vec![Instrument { id: "☃☃☃".into(), patch: AudioPatch::default() }],
        ..SequenceRecipe::default()
    };
    recipe.clamp_to_envelope(&limits);
    assert_eq!(recipe.instruments[0].id, "☃");
}

#[test]
fn loop_bounds_follow_the_clamped_duration() {
    let mut recipe = SequenceRecipe {
        duration_beats: v(f32::INFINITY),
        loop_start_beats: Some(v(1e9)),
        loop_crossfade_beats: v(1e9),
        ..SequenceRecipe::default()
    };
    recipe.clamp_to_envelope(&Envelope::default());
    assert_eq!(n(recipe.duration_beats), 4.0, "Inf takes the field default");
    assert_eq!(recipe.loop_start_beats, Some(v(4.0)));
    assert_eq!(n(recipe.loop_crossfade_beats), 4.0);
}

#[test]
fn connections_clamp_their_values() {
    let limits = Envelope::default();
    let most = f32::from_bits(MAX_CONNECTION_MAGNITUDE);
    let mut constant = Connection::Constant { value: v(f32::NAN) };
    constant.clamp_to_envelope(&limits);
    assert_eq!(constant, Connection::Constant { value: v(0.0) });

    let mut node = Connection::Node { id: NodeId(3), amount: v(f32::NEG_INFINITY) };
    node.clamp_to_envelope(&limits);
    assert_eq!(node, Connection::Node { id: NodeId(3), amount: v(1.0) });

    let mut big = Connection::Constant { value: v(1e9) };
    big.clamp_to_envelope(&limits);
    assert_eq!(big, Connection::Constant { value: v(most) });
    let mut small = Connection::Node { id: NodeId(1), amount: v(-1e9) };
    small.clamp_to_envelope(&limits);
    assert_eq!(small, Connection::Node { id: NodeId(1), amount: v(-most) });
}

#[test]
fn every_bound_survives_a_fixed_point_mirror() {
    const SCALE: f64 = 10_000.0;
    const CEILING: f64 = i32::MAX as f64;

    assert_eq!(f32::from_bits(MAX_LFO_LEVEL), 10_000.0);
    assert_eq!(f32::from_bits(MAX_BEATS), 100_000.0);
    assert_eq!(f32::from_bits(MAX_HZ), 22_050.0);
    assert_eq!(f32::from_bits(MAX_GAIN), 64.0);
    let widest = [
        ("connection", f32::from_bits(MAX_CONNECTION_MAGNITUDE)),
        ("lfo depth", 10_000.0),
        ("beats", 100_000.0),
        ("frequency", 22_050.0),
        ("gain", 64.0),
    ];
    for (what, bound) in widest {
        assert!(
            f64::from(bound) * SCALE <= CEILING,
            "the {what} bound of {bound} needs {} ticks at 1/{SCALE:.0} \
             resolution, past the {CEILING} a 32-bit mirror can carry",
            f64::from(bound) * SCALE
        );
    }
}

#[test]
fn a_name_is_cut_before_the_character_that_does_not_fit() {
    for (text, max, want) in [
        ("", 0, ""),
        ("abc", 3, "abc"),
        ("abc", 2, "ab"),
        ("aé☃", 1, "a"),
        ("aé☃", 2, "a"),
        ("aé☃", 3, "aé"),
        ("aé☃", 5, "aé"),
        ("aé☃", 6, "aé☃"),
        ("☃", 0, ""),
    ] {
        let mut s = String::from(text);
        truncate_on_char_boundary(&mut s, max);
        assert_eq!(s, want);
    }
}

#[test]
fn events_are_brought_into_their_bounds() {
    let mut event = Event {
        time_beats: v(-3.0),
        pitch_multiplier: v(0.0),
        volume: v(7.0),
        gate_beats: v(f32::NAN),
        release_beats: v(1e9),
        ..Event::default()
    };
    event.clamp_to_envelope(&Envelope::default());
    assert_eq!(n(event.time_beats), 0.0);
    assert_eq!(n(event.pitch_multiplier), 0.001);
    assert_eq!(n(event.volume), 1.0);
    assert_eq!(event.gate_beats, Event::default().gate_beats);
    assert_eq!(n(event.release_beats), 100_000.0);
}

#[test]
fn clamped_ports_stay_in_the_order_of_their_names() {
    let mut node = GraphNode::default();
    for name in ["q", "in", "cutoff_hz", "amplitude"] {
        for _ in 0..9 {
            node = node.with_input(name, Connection::Constant { value: v(f32::INFINITY) });
        }
    }
    let mut graph = NodeGraph { nodes: vec![node], output: NodeId(0) };
    let limits = Envelope { max_connections_per_port: 2, ..Envelope::default() };
    graph.clamp_to_envelope(&limits);
    let names: Vec<&str> = graph.nodes[0].inputs.iter().map(|p| p.name.as_str()).collect();
    assert_eq!(names, ["amplitude", "cutoff_hz", "in", "q"]);
    assert!(graph.nodes[0].inputs.iter().all(|p| p.connections.len() == 2));
}
