use rand::{Rng, SeedableRng};
use rand_chacha::ChaCha8Rng;
use std::cell::RefCell;
use std::collections::HashMap;
use symbios_audio::elementary::Elementary;
use symbios_audio::filter::{
    clamp_cutoff, clamp_q, coefs_at, BiquadBandpass, BiquadHighpass, BiquadKind, BiquadLowpass,
};
use symbios_audio::float::F32;
use symbios_audio::genetics::{Draw, Evolvable, Tape};
use symbios_audio::node::{BakeContext, Input, Node, NodeState};
use symbios_audio::stream::Stream;

fn v(x: f32) -> F32 {
    F32::of(x.to_bits())
}

fn n(x: F32) -> f32 {
    f32::from_bits(x.bits)
}

fn math(k: Elementary, x: F32) -> F32 {
    let x = n(x);
    v(match k {
        Elementary::Sin => x.sin(),
        Elementary::Cos => x.cos(),
        Elementary::Tanh => x.tanh(),
        Elementary::Exp2 => 2.0_f32.powf(x),
    })
}

/// Takes a signal on the `"in"` port through a node, sample by sample.
fn drive<N: Node>(node: &N, sample_rate: u32, signal: &[f32]) -> Vec<f32> {
    let mut state = node.init_state();
    let mut rng = Stream::new(0);
    let total = signal.len() as u64;
    let mut out = Vec::with_capacity(signal.len());
    for (i, x) in signal.iter().enumerate() {
        let inputs = vec![Input { port: "in", value: v(*x) }];
        let mut ctx = BakeContext::new(sample_rate, i as u64, total, rng, inputs, state);
        out.push(n(node.sample(&mut ctx, &math)));
        rng = ctx.rng;
        state = ctx.state;
    }
    out
}

fn sine_buffer(sample_rate: u32, freq: f32, secs: f32) -> Vec<f32> {
    let count = (sample_rate as f32 * secs) as usize;
    (0..count)
        .map(|i| (2.0 * std::f32::consts::PI * freq * i as f32 / sample_rate as f32).sin())
        .collect()
}

fn random_signal(seed: u64, count: usize) -> Vec<f32> {
    let mut rng = ChaCha8Rng::seed_from_u64(seed);
    (0..count).map(|_| rng.random_range(-1.0_f32..1.0_f32)).collect()
}

/// Draws from a generator, every draw answered once.
fn dealt(rng: ChaCha8Rng) -> impl Fn(u64, Draw) -> u64 {
    let rng = RefCell::new(rng);
    let known: RefCell<HashMap<(u64, u8), u64>> = RefCell::new(HashMap::new());
    move |at, kind| {
        let code: u8 = match kind {
            Draw::Unit => 0,
            Draw::WideUnit => 1,
            Draw::Coin => 2,
            Draw::Word => 3,
        };
        *known.borrow_mut().entry((at, code)).or_insert_with(|| match kind {
            Draw::Unit => u64::from(rng.borrow_mut().random::<f32>().to_bits()),
            Draw::WideUnit => rng.borrow_mut().random::<f64>().to_bits(),
            Draw::Coin => u64::from(rng.borrow_mut().random::<bool>()),
            Draw::Word => u64::from(rng.borrow_mut().random::<u32>()),
        })
    }
}


fn rms(buf: &[f32]) -> f32 {
    let sum_sq: f64 = buf.iter().map(|s| (*s as f64) * (*s as f64)).sum();
    (sum_sq / buf.len() as f64).sqrt() as f32
}

#[test]
fn lowpass_stays_finite_under_random_input() {
    let filt = BiquadLowpass { cutoff_hz: v(5_000.0), q: v(2.5) };
    let out = drive(&filt, 44_100, &random_signal(7, 10_000));
    for (i, y) in out.iter().enumerate() {
        assert!(y.is_finite(), "sample {i} not finite: {y}");
    }
}

#[test]
fn highpass_stays_finite_under_random_input() {
    let filt = BiquadHighpass { cutoff_hz: v(200.0), q: v(5.0) };
    let out = drive(&filt, 44_100, &random_signal(7, 10_000));
    for (i, y) in out.iter().enumerate() {
        assert!(y.is_finite(), "sample {i} not finite: {y}");
    }
}

#[test]
fn bandpass_stays_finite_under_random_input() {
    let filt = BiquadBandpass { center_hz: v(1_000.0), q: v(8.0) };
    let out = drive(&filt, 44_100, &random_signal(7, 10_000));
    for (i, y) in out.iter().enumerate() {
        assert!(y.is_finite(), "sample {i} not finite: {y}");
    }
}

#[test]
fn lowpass_passes_low_blocks_high() {
    let filt = BiquadLowpass { cutoff_hz: v(1_000.0), q: v(std::f32::consts::FRAC_1_SQRT_2) };
    let low_out = drive(&filt, 44_100, &sine_buffer(44_100, 200.0, 0.25));
    let high_out = drive(&filt, 44_100, &sine_buffer(44_100, 8_000.0, 0.25));
    let r_low = rms(&low_out[1_000..]);
    let r_high = rms(&high_out[1_000..]);
    let atten_db = 20.0 * (r_low / r_high).log10();
    assert!(atten_db > 24.0, "LP attenuation insufficient: {atten_db} dB (need >24 dB)");
}

#[test]
fn highpass_blocks_low_passes_high() {
    let filt = BiquadHighpass { cutoff_hz: v(1_000.0), q: v(std::f32::consts::FRAC_1_SQRT_2) };
    let low_out = drive(&filt, 44_100, &sine_buffer(44_100, 200.0, 0.25));
    let high_out = drive(&filt, 44_100, &sine_buffer(44_100, 8_000.0, 0.25));
    let r_low = rms(&low_out[1_000..]);
    let r_high = rms(&high_out[1_000..]);
    let atten_db = 20.0 * (r_high / r_low).log10();
    assert!(atten_db > 24.0, "HP attenuation insufficient: {atten_db} dB (need >24 dB)");
}

#[test]
fn bandpass_peaks_at_center() {
    let filt = BiquadBandpass { center_hz: v(1_000.0), q: v(4.0) };
    let c_out = drive(&filt, 44_100, &sine_buffer(44_100, 1_000.0, 0.25));
    let o_out = drive(&filt, 44_100, &sine_buffer(44_100, 100.0, 0.25));
    let r_c = rms(&c_out[1_000..]);
    let r_o = rms(&o_out[1_000..]);
    assert!(r_c > r_o, "BP center {r_c} should exceed off-band {r_o}");
}

#[test]
fn cutoff_above_nyquist_does_not_explode() {
    let filt = BiquadLowpass { cutoff_hz: v(1_000_000.0), q: v(1.0) };
    let out = drive(&filt, 44_100, &sine_buffer(44_100, 1_000.0, 0.05));
    for y in out {
        assert!(y.is_finite());
    }
}

#[test]
fn zero_or_negative_q_clamps_safely() {
    let filt = BiquadLowpass { cutoff_hz: v(1_000.0), q: v(0.0) };
    let out = drive(&filt, 44_100, &sine_buffer(44_100, 1_000.0, 0.05));
    for y in out {
        assert!(y.is_finite());
    }
}

#[test]
fn filter_falls_back_to_pass_through_when_state_missing() {
    let filt = BiquadLowpass::default();
    let inputs = vec![Input { port: "in", value: v(0.42) }];
    let mut ctx =
        BakeContext::new(44_100, 0, 1, Stream::new(0), inputs, NodeState::Stateless);
    let y = n(filt.sample(&mut ctx, &math));
    assert_eq!(y, 0.42);
}

#[test]
fn genotype_clamps_cutoff_and_q_to_ranges() {
    let mut filt = BiquadLowpass { cutoff_hz: v(19_500.0), q: v(19.0) };
    let draws = dealt(ChaCha8Rng::seed_from_u64(11));
    let mut tape = Tape::new(&draws);
    for _ in 0..200 {
        filt.mutate(&mut tape, v(1.0), &math);
        assert!((20.0..=20_000.0).contains(&n(filt.cutoff_hz)));
        assert!((0.1..=20.0).contains(&n(filt.q)));
    }
}

#[test]
fn cutoffs_and_resonances_are_kept_in_bounds() {
    assert_eq!(n(clamp_cutoff(v(100.0), v(44_100.0))), 100.0);
    assert_eq!(n(clamp_cutoff(v(-5.0), v(44_100.0))), 1.0);
    assert_eq!(n(clamp_cutoff(v(1e9), v(44_100.0))), 44_100.0 * 0.499);
    assert_eq!(n(clamp_q(v(0.0))), 0.001);
    assert_eq!(n(clamp_q(v(-4.0))), 0.001);
    assert_eq!(n(clamp_q(v(2.5))), 2.5);
}

#[test]
fn coefficients_of_a_quarter_turn() {
    // A cosine of zero and a sine of one, with a resonance of a half.
    let c = coefs_at(BiquadKind::Lowpass, v(0.0), v(1.0), v(0.5));
    assert_eq!(
        [n(c.b0), n(c.b1), n(c.b2), n(c.a1), n(c.a2)],
        [0.25, 0.5, 0.25, 0.0, 0.0]
    );
    let c = coefs_at(BiquadKind::Highpass, v(0.0), v(1.0), v(0.5));
    assert_eq!(
        [n(c.b0), n(c.b1), n(c.b2), n(c.a1), n(c.a2)],
        [0.25, -0.5, 0.25, 0.0, 0.0]
    );
    let c = coefs_at(BiquadKind::Bandpass, v(0.0), v(1.0), v(0.5));
    assert_eq!(
        [n(c.b0), n(c.b1), n(c.b2), n(c.a1), n(c.a2)],
        [0.5, 0.0, -0.5, 0.0, 0.0]
    );
}

#[test]
fn a_lowpass_as_floats_is_the_same_to_the_bit() {
    let filt = BiquadLowpass { cutoff_hz: v(1_234.5), q: v(0.9) };
    let signal = random_signal(5, 2_000);
    let out = drive(&filt, 44_100, &signal);
    let w = 2.0 * std::f32::consts::PI * 1_234.5 / 44_100.0_f32;
    let (cos, sin) = (w.cos(), w.sin());
    let alpha = sin / (2.0 * 0.9);
    let a0 = 1.0 + alpha;
    let (b0, b1) = ((1.0 - cos) * 0.5 / a0, (1.0 - cos) / a0);
    let (a1, a2) = (-2.0 * cos / a0, (1.0 - alpha) / a0);
    let (mut x1, mut x2, mut y1, mut y2) = (0.0_f32, 0.0_f32, 0.0_f32, 0.0_f32);
    for (x, got) in signal.iter().zip(out.iter()) {
        let y = b0 * x + b1 * x1 + b0 * x2 - a1 * y1 - a2 * y2;
        x2 = x1;
        x1 = *x;
        y2 = y1;
        y1 = y;
        assert_eq!(*got, y);
    }
}

#[test]
fn the_default_filters_hold_their_numbers() {
    assert_eq!(n(BiquadLowpass::default().cutoff_hz), 1_000.0);
    assert_eq!(n(BiquadHighpass::default().cutoff_hz), 1_000.0);
    assert_eq!(n(BiquadBandpass::default().center_hz), 1_000.0);
    assert_eq!(n(BiquadLowpass::default().q), std::f32::consts::FRAC_1_SQRT_2);
}
