use rand::{Rng, SeedableRng};
use rand_chacha::ChaCha8Rng;
use std::cell::RefCell;
use std::collections::HashMap;
use symbios_audio::chorus::Chorus;
use symbios_audio::elementary::Elementary;
use symbios_audio::float::F32;
use symbios_audio::genetics::{Draw, Evolvable, Tape};
use symbios_audio::node::{BakeContext, Input, Node, NodeState};
use symbios_audio::stream::Stream;

fn v(x: f32) -> F32 {
    F32::of(x.to_bits())
}

fn n(x: F32) -> f32 {
    f32::from_bits(x.bits)
}

fn math(k: Elementary, x: F32) -> F32 {
    let x = n(x);
    v(match k {
        Elementary::Sin => x.sin(),
        Elementary::Cos => x.cos(),
        Elementary::Tanh => x.tanh(),
        Elementary::Exp2 => 2.0_f32.powf(x),
    })
}

/// Takes a signal on the `"in"` port through a node, sample by sample.
fn drive<N: Node>(node: &N, sample_rate: u32, signal: &[f32]) -> Vec<f32> {
    let mut state = node.init_state();
    let mut rng = Stream::new(0);
    let total = signal.len() as u64;
    let mut out = Vec::with_capacity(signal.len());
    for (i, x) in signal.iter().enumerate() {
        let inputs = vec![Input { port: "in", value: v(*x) }];
        let mut ctx = BakeContext::new(sample_rate, i as u64, total, rng, inputs, state);
        out.push(n(node.sample(&mut ctx, &math)));
        rng = ctx.rng;
        state = ctx.state;
    }
    out
}

fn sine_buffer(sample_rate: u32, freq: f32, secs: f32) -> Vec<f32> {
    let count = (sample_rate as f32 * secs) as usize;
    (0..count)
        .map(|i| (2.0 * std::f32::consts::PI * freq * i as f32 / sample_rate as f32).sin())
        .collect()
}

fn random_signal(seed: u64, count: usize) -> Vec<f32> {
    let mut rng = ChaCha8Rng::seed_from_u64(seed);
    (0..count).map(|_| rng.random_range(-1.0_f32..1.0_f32)).collect()
}

/// Draws from a generator, every draw answered once.
fn dealt(rng: ChaCha8Rng) -> impl Fn(u64, Draw) -> u64 {
    let rng = RefCell::new(rng);
    let known: RefCell<HashMap<(u64, u8), u64>> = RefCell::new(HashMap::new());
    move |at, kind| {
        let code: u8 = match kind {
            Draw::Unit => 0,
            Draw::WideUnit => 1,
            Draw::Coin => 2,
            Draw::Word => 3,
        };
        *known.borrow_mut().entry((at, code)).or_insert_with(|| match kind {
            Draw::Unit => u64::from(rng.borrow_mut().random::<f32>().to_bits()),
            Draw::WideUnit => rng.borrow_mut().random::<f64>().to_bits(),
            Draw::Coin => u64::from(rng.borrow_mut().random::<bool>()),
            Draw::Word => u64::from(rng.borrow_mut().random::<u32>()),
        })
    }
}


#[test]
fn chorus_stays_finite_under_random_input() {
    let ch = Chorus { feedback: v(0.9), ..Chorus::default() };
    let out = drive(&ch, 44_100, &random_signal(7, 20_000));
    for (i, y) in out.iter().enumerate() {
        assert!(y.is_finite(), "sample {i} not finite: {y}");
    }
}

#[test]
fn chorus_mix_zero_is_exact_pass_through() {
    let ch = Chorus { mix: v(0.0), ..Chorus::default() };
    let signal = sine_buffer(44_100, 440.0, 0.05);
    let out = drive(&ch, 44_100, &signal);
    for (i, (y, x)) in out.iter().zip(signal.iter()).enumerate() {
        assert_eq!(*y, *x, "mix=0 should pass input through at sample {i}");
    }
}

#[test]
fn wet_signal_differs_from_dry() {
    let ch = Chorus { mix: v(1.0), depth_ms: v(3.0), ..Chorus::default() };
    let signal = sine_buffer(44_100, 440.0, 0.2);
    let out = drive(&ch, 44_100, &signal);
    let differs = out.iter().zip(signal.iter()).skip(2_000).any(|(y, x)| (y - x).abs() > 1e-3);
    assert!(differs, "wet chorus output should differ from dry input");
}

#[test]
fn chorus_falls_back_to_pass_through_when_state_missing() {
    let ch = Chorus::default();
    let inputs = vec![Input { port: "in", value: v(0.37) }];
    let mut ctx =
        BakeContext::new(44_100, 0, 1, Stream::new(0), inputs, NodeState::Stateless);
    assert_eq!(n(ch.sample(&mut ctx, &math)), 0.37);
}

#[test]
fn high_feedback_does_not_explode() {
    let ch = Chorus { feedback: v(5.0), mix: v(1.0), ..Chorus::default() };
    let signal = vec![1.0_f32; 44_100];
    let out = drive(&ch, 44_100, &signal);
    for (i, y) in out.iter().enumerate() {
        assert!(y.is_finite() && y.abs() < 1_000.0, "runaway at {i}: {y}");
    }
}

#[test]
fn chorus_genotype_clamps_fields_to_ranges() {
    let mut ch = Chorus::default();
    let draws = dealt(ChaCha8Rng::seed_from_u64(11));
    let mut tape = Tape::new(&draws);
    for _ in 0..200 {
        ch.mutate(&mut tape, v(1.0), &math);
        assert!((0.05..=12.0).contains(&n(ch.rate_hz)));
        assert!((0.0..=20.0).contains(&n(ch.depth_ms)));
        assert!((1.0..=40.0).contains(&n(ch.base_delay_ms)));
        assert!((0.0..=0.95).contains(&n(ch.feedback)));
        assert!((0.0..=1.0).contains(&n(ch.mix)));
    }
}

#[test]
fn a_still_chorus_is_a_plain_delay() {
    // Four milliseconds at 1 kHz, without a sweep and without feedback.
    let ch = Chorus {
        rate_hz: v(0.0),
        depth_ms: v(0.0),
        base_delay_ms: v(4.0),
        feedback: v(0.0),
        mix: v(1.0),
    };
    assert_eq!(ch.longest(v(1_000.0)), 4);
    assert_eq!(ch.buffer_len(v(1_000.0)), 8);
    let out = drive(&ch, 1_000, &[1.0, 0.5, 0.25, 0.125, 0.0, 0.0, 0.0, 0.0]);
    assert_eq!(out, vec![0.0, 0.0, 0.0, 0.0, 1.0, 0.5, 0.25, 0.125]);
}

#[test]
fn a_chorus_as_floats_is_the_same_to_the_bit() {
    let ch = Chorus { feedback: v(0.5), mix: v(0.4), ..Chorus::default() };
    let signal = random_signal(21, 3_000);
    let out = drive(&ch, 44_100, &signal);
    let rate = 44_100.0_f32;
    let len = (((8.0_f32 + 2.0).max(0.0) * 0.001 * rate).ceil() as usize).max(1) + 4;
    let mut buf = vec![0.0_f32; len];
    let (mut write, mut phase) = (0_usize, 0.0_f32);
    for (x, y) in signal.iter().zip(out.iter()) {
        let sweep = (std::f32::consts::TAU * phase).sin();
        let delay = ((8.0 + 2.0 * sweep).max(0.0) * 0.001 * rate).clamp(0.0, (len - 1) as f32);
        let at = (write as f32 - delay).rem_euclid(len as f32);
        let low = at.floor() as usize % len;
        let high = (low + 1) % len;
        let frac = at - at.floor();
        let delayed = buf[low] * (1.0 - frac) + buf[high] * frac;
        buf[write] = x + delayed * 0.5;
        write = (write + 1) % len;
        phase = (phase + 0.8 / rate).rem_euclid(1.0);
        assert_eq!(*y, x * (1.0 - 0.4) + delayed * 0.4);
    }
}

#[test]
fn the_default_chorus_holds_its_numbers() {
    let ch = Chorus::default();
    assert_eq!(n(ch.rate_hz), 0.8);
    assert_eq!(n(ch.depth_ms), 2.0);
    assert_eq!(n(ch.base_delay_ms), 8.0);
    assert_eq!(n(ch.feedback), 0.0);
    assert_eq!(n(ch.mix), 0.5);
}
