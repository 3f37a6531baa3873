use symbios_audio::elementary::Elementary;
use symbios_audio::float::F32;
use symbios_audio::gate::Gate;
use symbios_audio::node::{BakeContext, Node, NodeState};
use symbios_audio::stream::Stream;

fn v(x: f32) -> F32 {
    F32::of(x.to_bits())
}

fn n(x: F32) -> f32 {
    f32::from_bits(x.bits)
}

fn math(k: Elementary, x: F32) -> F32 {
    let x = n(x);
    v(match k {
        Elementary::Sin => x.sin(),
        Elementary::Cos => x.cos(),
        Elementary::Tanh => x.tanh(),
        Elementary::Exp2 => 2.0_f32.powf(x),
    })
}


fn gate_value(gate: &Gate, sample_index: u64, gate_samples: Option<u64>) -> f32 {
    let mut ctx = BakeContext::new(
        44_100,
        sample_index,
        44_100,
        Stream::new(0),
        Vec::new(),
        NodeState::Stateless,
    )
    .with_gate(gate_samples);
    n(gate.sample(&mut ctx, &math))
}

#[test]
fn open_while_inside_window_then_closes() {
    let gate = Gate::default();
    assert_eq!(gate_value(&gate, 0, Some(100)), 1.0);
    assert_eq!(gate_value(&gate, 99, Some(100)), 1.0);
    assert_eq!(gate_value(&gate, 100, Some(100)), 0.0);
    assert_eq!(gate_value(&gate, 5_000, Some(100)), 0.0);
}

#[test]
fn ungated_bake_holds_gate_open() {
    let gate = Gate::default();
    assert_eq!(gate_value(&gate, 0, None), 1.0);
    assert_eq!(gate_value(&gate, 1_000_000, None), 1.0);
}

#[test]
fn invert_flips_polarity() {
    let gate = Gate { invert: true };
    assert_eq!(gate_value(&gate, 10, Some(100)), 0.0);
    assert_eq!(gate_value(&gate, 100, Some(100)), 1.0);
}
