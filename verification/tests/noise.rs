use rand::{Rng, SeedableRng};
use rand_chacha::ChaCha8Rng;
use symbios_audio::elementary::Elementary;
use symbios_audio::float::F32;
use symbios_audio::node::{BakeContext, Node, NodeState};
use symbios_audio::noise::{BrownNoise, BrownState, PinkNoise, WhiteNoise};
use symbios_audio::stream::{signed_unit, Stream};

fn v(x: f32) -> F32 {
    F32::of(x.to_bits())
}

fn n(x: F32) -> f32 {
    f32::from_bits(x.bits)
}

fn math(k: Elementary, x: F32) -> F32 {
    let x = n(x);
    v(match k {
        Elementary::Sin => x.sin(),
        Elementary::Cos => x.cos(),
        Elementary::Tanh => x.tanh(),
        Elementary::Exp2 => 2.0_f32.powf(x),
    })
}


/// Runs a node without inputs on the stream of a seed.
fn drive<N: Node>(node: &N, seed: u64, count: usize) -> (Vec<f32>, NodeState) {
    let mut state = node.init_state();
    let mut rng = Stream::new(seed);
    let mut out = Vec::with_capacity(count);
    for _ in 0..count {
        let mut ctx = BakeContext::new(44_100, 0, 44_100, rng, Vec::new(), state);
        out.push(n(node.sample(&mut ctx, &math)));
        rng = ctx.rng;
        state = ctx.state;
    }
    (out, state)
}

#[test]
fn white_is_bounded_by_amplitude() {
    let osc = WhiteNoise { amplitude: v(0.4) };
    for s in drive(&osc, 0, 10_000).0 {
        assert!(s.abs() < 0.4, "white sample {s} out of |s|<0.4");
    }
}

#[test]
fn white_is_not_silent() {
    let osc = WhiteNoise::default();
    let nonzero = drive(&osc, 0, 1_000).0.iter().filter(|s| s.abs() > 1e-6).count();
    assert!(nonzero > 990, "white noise far too quiet: {nonzero}/1000 non-zero");
}

#[test]
fn pink_state_evolves_with_samples() {
    let osc = PinkNoise::default();
    match drive(&osc, 0, 200).1 {
        NodeState::Pink(state) => assert!(
            n(state.b0).abs() > 0.01 || n(state.b1).abs() > 0.01 || n(state.b2).abs() > 0.01
        ),
        _ => panic!("pink noise keeps its state"),
    }
}

#[test]
fn pink_falls_back_when_state_missing() {
    let osc = PinkNoise { amplitude: v(1.0) };
    let mut ctx = BakeContext::new(
        44_100,
        0,
        44_100,
        Stream::new(0),
        Vec::new(),
        NodeState::Stateless,
    );
    let s = n(osc.sample(&mut ctx, &math));
    assert!(s.abs() <= 1.0);
}

#[test]
fn brown_stays_bounded_over_long_run() {
    let osc = BrownNoise { amplitude: v(1.0) };
    let max_abs = drive(&osc, 0xDEAD, 100_000).0.iter().fold(0.0_f32, |m, s| m.max(s.abs()));
    assert!(max_abs <= 1.0, "brown leaked past 1.0: {max_abs}");
}

#[test]
fn state_downcast_returns_none_for_wrong_type() {
    // Pink noise finds nothing of its own in the state of brown noise: it
    // falls back to white and leaves the state alone.
    let wrong = NodeState::Brown(BrownState::default());
    let mut ctx = BakeContext::new(44_100, 0, 44_100, Stream::new(0), Vec::new(), wrong);
    assert!(!matches!(ctx.state, NodeState::Pink(_)));
    let s = n(PinkNoise { amplitude: v(1.0) }.sample(&mut ctx, &math));
    assert_eq!(s, n(Stream::new(0).draw()));
    assert!(matches!(ctx.state, NodeState::Brown(b) if b == BrownState::default()));
}

#[test]
fn white_noise_is_the_generator_scaled() {
    for seed in [0_u64, 1, 0xDEAD_BEEF] {
        let mut rng = ChaCha8Rng::seed_from_u64(seed);
        let osc = WhiteNoise { amplitude: v(0.7) };
        for s in drive(&osc, seed, 2_000).0 {
            assert_eq!(s, rng.random_range(-1.0_f32..1.0_f32) * 0.7);
        }
    }
}

#[test]
fn the_stream_is_the_generator_word_by_word() {
    let mut rng = ChaCha8Rng::seed_from_u64(99);
    let mut stream = Stream::new(99);
    assert_eq!((stream.seed, stream.position), (99, 0));
    for i in 0..300_u128 {
        assert_eq!(stream.position, i);
        assert_eq!(n(stream.draw()), rng.random_range(-1.0_f32..1.0_f32));
    }
    assert_ne!(n(Stream::new(99).draw()), n(Stream::new(100).draw()));
}

#[test]
fn words_become_numbers_from_minus_one_up_to_one() {
    assert_eq!(n(signed_unit(0)), -1.0);
    assert_eq!(n(signed_unit(0x8000_0000)), 0.0);
    assert_eq!(n(signed_unit(u32::MAX)), 1.0 - f32::EPSILON * 2.0);
}

#[test]
fn pink_and_brown_noise_as_floats_are_the_same_to_the_bit() {
    let mut rng = ChaCha8Rng::seed_from_u64(31);
    let (mut b0, mut b1, mut b2) = (0.0_f32, 0.0_f32, 0.0_f32);
    for s in drive(&PinkNoise { amplitude: v(0.9) }, 31, 2_000).0 {
        let white: f32 = rng.random_range(-1.0_f32..1.0_f32);
        b0 = 0.99765 * b0 + white * 0.099_046;
        b1 = 0.963 * b1 + white * 0.296_516_4;
        b2 = 0.57 * b2 + white * 1.052_691_3;
        let want = (b0 + b1 + b2 + white * 0.1848) * 0.18 * 0.9;
        assert_eq!(s, want);
    }
    let mut rng = ChaCha8Rng::seed_from_u64(32);
    let mut last = 0.0_f32;
    for s in drive(&BrownNoise { amplitude: v(0.9) }, 32, 2_000).0 {
        let white: f32 = rng.random_range(-1.0_f32..1.0_f32);
        last = (last + 0.02 * white) / 1.02;
        assert_eq!(s, (last * 3.5).clamp(-1.0, 1.0) * 0.9);
    }
}
