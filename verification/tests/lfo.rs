use symbios_audio::elementary::Elementary;
use symbios_audio::float::F32;
use symbios_audio::lfo::{Lfo, LfoShape};
use symbios_audio::node::{BakeContext, Node, NodeState};
use symbios_audio::stream::Stream;

fn v(x: f32) -> F32 {
    F32::of(x.to_bits())
}

fn n(x: F32) -> f32 {
    f32::from_bits(x.bits)
}

fn math(k: Elementary, x: F32) -> F32 {
    let x = n(x);
    v(match k {
        Elementary::Sin => x.sin(),
        Elementary::Cos => x.cos(),
        Elementary::Tanh => x.tanh(),
        Elementary::Exp2 => 2.0_f32.powf(x),
    })
}

/// Runs a node without inputs, sample by sample.
fn drive<N: Node>(node: &N, sample_rate: u32, count: usize) -> Vec<f32> {
    let mut state = node.init_state();
    let mut rng = Stream::new(0);
    let mut out = Vec::with_capacity(count);
    for i in 0..count {
        let mut ctx =
            BakeContext::new(sample_rate, i as u64, count as u64, rng, Vec::new(), state);
        out.push(n(node.sample(&mut ctx, &math)));
        rng = ctx.rng;
        state = ctx.state;
    }
    out
}


fn lfo(rate: f32, shape: LfoShape, depth: f32, offset: f32) -> Lfo {
    Lfo { rate_hz: v(rate), shape, depth: v(depth), offset: v(offset) }
}

#[test]
fn sine_lfo_at_one_hz_completes_full_cycle_in_one_second() {
    let buf = drive(&lfo(1.0, LfoShape::Sine, 1.0, 0.0), 44_100, 44_100);
    let quarter = buf[11_025];
    assert!((quarter - 1.0).abs() < 0.01, "quarter cycle value: {quarter}");
    assert!(buf[22_050].abs() < 0.05);
}

#[test]
fn lfo_output_obeys_depth_and_offset() {
    let buf = drive(&lfo(0.5, LfoShape::Sine, 900.0, 1_100.0), 44_100, 88_200);
    let max = buf.iter().cloned().fold(f32::MIN, f32::max);
    let min = buf.iter().cloned().fold(f32::MAX, f32::min);
    assert!(min > 100.0 && min < 300.0, "min: {min}");
    assert!(max > 1900.0 && max < 2100.0, "max: {max}");
}

#[test]
fn square_lfo_takes_only_two_distinct_values() {
    let buf = drive(&lfo(4.0, LfoShape::Square, 1.0, 0.0), 44_100, 44_100);
    for s in &buf {
        assert!(
            (*s - 1.0).abs() < 1e-6 || (*s + 1.0).abs() < 1e-6,
            "square value off-rail: {s}"
        );
    }
}

#[test]
fn random_lfo_outputs_change_over_time() {
    let buf = drive(&lfo(5.0, LfoShape::Random, 1.0, 0.0), 44_100, 44_100);
    let mut distinct: Vec<f32> = Vec::new();
    for s in &buf {
        if !distinct.iter().any(|x| (x - s).abs() < 1e-6) {
            distinct.push(*s);
        }
    }
    assert!(distinct.len() >= 5, "S&H gave only {} distinct values", distinct.len());
}

#[test]
fn random_lfo_first_cycle_is_a_nonzero_held_value() {
    let buf = drive(&lfo(2.0, LfoShape::Random, 1.0, 0.0), 44_100, 20_000);
    let first = buf[0];
    assert!(first != 0.0, "first S&H value should not be silent");
    for (i, s) in buf.iter().enumerate() {
        assert!(
            (*s - first).abs() < 1e-9,
            "first cycle not held flat at sample {i}: {s} vs {first}"
        );
    }
}

#[test]
fn lfo_falls_back_to_offset_when_state_missing() {
    let mut ctx = BakeContext::new(
        44_100,
        0,
        1,
        Stream::new(0),
        Vec::new(),
        NodeState::Stateless,
    );
    let s = n(lfo(1.0, LfoShape::Sine, 1.0, 0.5).sample(&mut ctx, &math));
    assert!((s - 0.5).abs() < 1e-6);
}

#[test]
fn slow_shapes_run_through_their_numbers() {
    let saw = drive(&lfo(1.0, LfoShape::Saw, 2.0, 10.0), 4, 5);
    assert_eq!(saw, vec![8.0, 9.0, 10.0, 11.0, 8.0]);
    let triangle = drive(&lfo(1.0, LfoShape::Triangle, 1.0, 0.0), 4, 5);
    assert_eq!(triangle, vec![-1.0, 0.0, 1.0, 0.0, -1.0]);
    let square = drive(&lfo(1.0, LfoShape::Square, 1.0, 0.0), 4, 5);
    assert_eq!(square, vec![1.0, 1.0, -1.0, -1.0, 1.0]);
}

#[test]
fn a_held_level_is_drawn_anew_for_every_cycle() {
    let out = drive(&lfo(1.0, LfoShape::Random, 1.0, 0.0), 4, 9);
    let mut stream = Stream::new(0);
    let levels: Vec<f32> = (0..3).map(|_| n(stream.draw())).collect();
    for (i, s) in out.iter().enumerate() {
        assert_eq!(*s, levels[i / 4]);
    }
}
