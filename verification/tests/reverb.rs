use rand::{Rng, SeedableRng};
use rand_chacha::ChaCha8Rng;
use std::cell::RefCell;
use std::collections::HashMap;
use symbios_audio::elementary::Elementary;
use symbios_audio::float::F32;
use symbios_audio::genetics::{Draw, Evolvable, Tape};
use symbios_audio::node::{BakeContext, Input, Node, NodeState};
use symbios_audio::reverb::{scaled_len, Allpass, Comb, Reverb};
use symbios_audio::stream::Stream;

fn v(x: f32) -> F32 {
    F32::of(x.to_bits())
}

fn n(x: F32) -> f32 {
    f32::from_bits(x.bits)
}

fn math(k: Elementary, x: F32) -> F32 {
    let x = n(x);
    v(match k {
        Elementary::Sin => x.sin(),
        Elementary::Cos => x.cos(),
        Elementary::Tanh => x.tanh(),
        Elementary::Exp2 => 2.0_f32.powf(x),
    })
}

/// Takes a signal on the `"in"` port through a node, sample by sample.
fn drive<N: Node>(node: &N, sample_rate: u32, signal: &[f32]) -> Vec<f32> {
    let mut state = node.init_state();
    let mut rng = Stream::new(0);
    let total = signal.len() as u64;
    let mut out = Vec::with_capacity(signal.len());
    for (i, x) in signal.iter().enumerate() {
        let inputs = vec![Input { port: "in", value: v(*x) }];
        let mut ctx = BakeContext::new(sample_rate, i as u64, total, rng, inputs, state);
        out.push(n(node.sample(&mut ctx, &math)));
        rng = ctx.rng;
        state = ctx.state;
    }
    out
}

fn random_signal(seed: u64, count: usize) -> Vec<f32> {
    let mut rng = ChaCha8Rng::seed_from_u64(seed);
    (0..count).map(|_| rng.random_range(-1.0_f32..1.0_f32)).collect()
}

/// Draws from a generator, every draw answered once.
fn dealt(rng: ChaCha8Rng) -> impl Fn(u64, Draw) -> u64 {
    let rng = RefCell::new(rng);
    let known: RefCell<HashMap<(u64, u8), u64>> = RefCell::new(HashMap::new());
    move |at, kind| {
        let code: u8 = match kind {
            Draw::Unit => 0,
            Draw::WideUnit => 1,
            Draw::Coin => 2,
            Draw::Word => 3,
        };
        *known.borrow_mut().entry((at, code)).or_insert_with(|| match kind {
            Draw::Unit => u64::from(rng.borrow_mut().random::<f32>().to_bits()),
            Draw::WideUnit => rng.borrow_mut().random::<f64>().to_bits(),
            Draw::Coin => u64::from(rng.borrow_mut().random::<bool>()),
            Draw::Word => u64::from(rng.borrow_mut().random::<u32>()),
        })
    }
}


fn energy(buf: &[f32]) -> f64 {
    buf.iter().map(|s| (*s as f64) * (*s as f64)).sum()
}

#[test]
fn reverb_stays_finite_under_random_input() {
    let rv = Reverb { room_size: v(1.0), damping: v(0.0), mix: v(1.0) };
    let out = drive(&rv, 44_100, &random_signal(7, 20_000));
    for (i, y) in out.iter().enumerate() {
        assert!(y.is_finite(), "sample {i} not finite: {y}");
    }
}

#[test]
fn reverb_mix_zero_is_exact_pass_through() {
    let rv = Reverb { mix: v(0.0), ..Reverb::default() };
    let signal = random_signal(3, 5_000);
    let out = drive(&rv, 44_100, &signal);
    for (i, (y, x)) in out.iter().zip(signal.iter()).enumerate() {
        assert_eq!(*y, *x, "mix=0 should pass input through at sample {i}");
    }
}

#[test]
fn impulse_produces_a_decaying_tail() {
    let rv = Reverb { room_size: v(0.7), damping: v(0.3), mix: v(1.0) };
    let mut signal = vec![0.0_f32; 44_100];
    signal[0] = 1.0;
    let out = drive(&rv, 44_100, &signal);
    let tail = energy(&out[100..]);
    assert!(tail > 1e-6, "reverb tail should be non-trivial, got {tail}");
    let early = energy(&out[2_000..6_000]);
    let late = energy(&out[30_000..34_000]);
    assert!(early > late, "reverb should decay: early {early} should exceed late {late}");
}

#[test]
fn reverb_falls_back_to_pass_through_when_state_missing() {
    let rv = Reverb::default();
    let inputs = vec![Input { port: "in", value: v(0.42) }];
    let mut ctx =
        BakeContext::new(44_100, 0, 1, Stream::new(0), inputs, NodeState::Stateless);
    assert_eq!(n(rv.sample(&mut ctx, &math)), 0.42);
}

#[test]
fn line_lengths_scale_with_sample_rate() {
    const COMB: usize = 1116;
    const ALLPASS: usize = 556;
    assert_eq!(scaled_len(COMB, v(88_200.0)), COMB * 2);
    assert_eq!(scaled_len(ALLPASS, v(44_100.0)), ALLPASS);
    assert_eq!(scaled_len(10, v(1.0)), 1, "never shorter than one sample");
}

#[test]
fn reverb_genotype_clamps_fields_to_ranges() {
    let mut rv = Reverb::default();
    let draws = dealt(ChaCha8Rng::seed_from_u64(11));
    let mut tape = Tape::new(&draws);
    for _ in 0..200 {
        rv.mutate(&mut tape, v(1.0), &math);
        assert!((0.0..=1.0).contains(&n(rv.room_size)));
        assert!((0.0..=1.0).contains(&n(rv.damping)));
        assert!((0.0..=1.0).contains(&n(rv.mix)));
    }
}

#[test]
fn a_comb_feeds_back_through_its_lowpass() {
    let mut comb = Comb::with_len(2);
    let out: Vec<f32> =
        [1.0, 0.0, 0.0, 0.0, 0.0, 0.0].iter().map(|x| n(comb.process(v(*x), v(0.5), v(0.25)))).collect();
    // The first echo is a half of three quarters of the impulse.
    assert_eq!(out, vec![0.0, 0.0, 1.0, 0.0, 0.375, 0.09375]);
}

#[test]
fn an_allpass_turns_its_input_and_adds_its_line() {
    let mut allpass = Allpass::with_len(1);
    let out: Vec<f32> =
        [1.0, 0.0, 0.0, 0.0].iter().map(|x| n(allpass.process(v(*x)))).collect();
    assert_eq!(out, vec![-1.0, 1.0, 0.5, 0.25]);
    assert_eq!(Comb::with_len(0).buf.len(), 1);
    assert_eq!(Allpass::with_len(0).buf.len(), 1);
}

#[test]
fn a_reverb_as_floats_is_the_same_to_the_bit() {
    let rv = Reverb { room_size: v(0.6), damping: v(0.4), mix: v(0.3) };
    let signal = random_signal(8, 4_000);
    let out = drive(&rv, 44_100, &signal);
    let tunings = [1116, 1188, 1277, 1356, 1422, 1491, 1557, 1617];
    let mut combs: Vec<(Vec<f32>, usize, f32)> =
        tunings.iter().map(|len| (vec![0.0; *len], 0, 0.0)).collect();
    let mut passes: Vec<(Vec<f32>, usize)> =
        [556, 441, 341, 225].iter().map(|len| (vec![0.0; *len], 0)).collect();
    let (feedback, damp) = (0.6_f32 * 0.28 + 0.7, 0.4_f32 * 0.4);
    for (x, got) in signal.iter().zip(out.iter()) {
        let mut wet = 0.0_f32;
        for (buf, idx, store) in combs.iter_mut() {
            let y = buf[*idx];
            *store = y * (1.0 - damp) + *store * damp;
            buf[*idx] = x * 0.015 + *store * feedback;
            *idx = (*idx + 1) % buf.len();
            wet += y;
        }
        for (buf, idx) in passes.iter_mut() {
            let held = buf[*idx];
            let y = -wet + held;
            buf[*idx] = wet + held * 0.5;
            *idx = (*idx + 1) % buf.len();
            wet = y;
        }
        assert_eq!(*got, x * (1.0 - 0.3) + wet * 0.3);
    }
}

#[test]
fn the_largest_room_stays_bounded_under_a_constant_drive() {
    let rv = Reverb { room_size: v(40.0), damping: v(-1.0), mix: v(1.0) };
    let out = drive(&rv, 2_000, &vec![1.0_f32; 20_000]);
    assert!(out.iter().all(|y| y.abs() <= 131_072.0));
    assert!(out.iter().any(|y| y.abs() > 1.0));
}

#[test]
fn the_default_reverb_holds_its_numbers() {
    let rv = Reverb::default();
    assert_eq!(n(rv.room_size), 0.5);
    assert_eq!(n(rv.damping), 0.5);
    assert_eq!(n(rv.mix), 0.3);
}
