use rand::{Rng, SeedableRng};
use rand_chacha::ChaCha8Rng;
use std::cell::RefCell;
use std::collections::HashMap;
use symbios_audio::elementary::Elementary;
use symbios_audio::float::F32;
use symbios_audio::genetics::{Draw, Evolvable, Tape};
use symbios_audio::node::{BakeContext, Input, Node, NodeState};
use symbios_audio::oscillator::{
    advance, poly_blamp, poly_blep, AntiAlias, SawPolarity, SawtoothOsc, SineOsc, SquareOsc,
    TriangleOsc, wrapped,
};
use symbios_audio::stream::Stream;

fn v(x: f32) -> F32 {
    F32::of(x.to_bits())
}

fn n(x: F32) -> f32 {
    f32::from_bits(x.bits)
}

fn math(k: Elementary, x: F32) -> F32 {
    let x = n(x);
    v(match k {
        Elementary::Sin => x.sin(),
        Elementary::Cos => x.cos(),
        Elementary::Tanh => x.tanh(),
        Elementary::Exp2 => 2.0_f32.powf(x),
    })
}

/// Runs a node without inputs, sample by sample.
fn drive<N: Node>(node: &N, sample_rate: u32, count: usize) -> Vec<f32> {
    let mut state = node.init_state();
    let mut rng = Stream::new(0);
    let mut out = Vec::with_capacity(count);
    for i in 0..count {
        let mut ctx =
            BakeContext::new(sample_rate, i as u64, count as u64, rng, Vec::new(), state);
        out.push(n(node.sample(&mut ctx, &math)));
        rng = ctx.rng;
        state = ctx.state;
    }
    out
}

/// Draws from a generator, every draw answered once.
fn dealt(rng: ChaCha8Rng) -> impl Fn(u64, Draw) -> u64 {
    let rng = RefCell::new(rng);
    let known: RefCell<HashMap<(u64, u8), u64>> = RefCell::new(HashMap::new());
    move |at, kind| {
        let code: u8 = match kind {
            Draw::Unit => 0,
            Draw::WideUnit => 1,
            Draw::Coin => 2,
            Draw::Word => 3,
        };
        *known.borrow_mut().entry((at, code)).or_insert_with(|| match kind {
            Draw::Unit => u64::from(rng.borrow_mut().random::<f32>().to_bits()),
            Draw::WideUnit => rng.borrow_mut().random::<f64>().to_bits(),
            Draw::Coin => u64::from(rng.borrow_mut().random::<bool>()),
            Draw::Word => u64::from(rng.borrow_mut().random::<u32>()),
        })
    }
}


fn saw(freq: f32, polarity: SawPolarity, anti_alias: AntiAlias) -> SawtoothOsc {
    SawtoothOsc { freq_hz: v(freq), polarity, amplitude: v(1.0), anti_alias }
}

#[test]
fn sine_zero_phase_at_t_zero() {
    let buf = drive(&SineOsc::default(), 44_100, 1);
    assert!(buf[0].abs() < 1e-6, "sample[0] = {}", buf[0]);
}

#[test]
fn sine_quarter_period_is_one() {
    let sr: u32 = 44_100;
    let quarter = (sr as f32 / (4.0 * 440.0)).round() as usize;
    let buf = drive(&SineOsc::default(), sr, quarter + 1);
    assert!(buf[quarter] > 0.99, "quarter-period sample: {}", buf[quarter]);
}

#[test]
fn square_50pct_duty_is_bipolar() {
    let sr: u32 = 44_100;
    let half_period = (sr as f32 / (2.0 * 440.0)).round() as usize;
    let buf = drive(&SquareOsc::default(), sr, 10 + half_period + 1);
    assert_eq!(buf[10], 1.0);
    assert_eq!(buf[10 + half_period], -1.0);
}

#[test]
fn sawtooth_up_rises_linearly_within_period() {
    let buf = drive(&saw(1.0, SawPolarity::Up, AntiAlias::Naive), 1_000, 501);
    assert!((buf[0] - -1.0).abs() < 1e-3);
    assert!(buf[500].abs() < 1e-2);
}

#[test]
fn sawtooth_down_is_negated_up() {
    let up_buf = drive(&saw(1.0, SawPolarity::Up, AntiAlias::Naive), 1_000, 1_000);
    let down_buf = drive(&saw(1.0, SawPolarity::Down, AntiAlias::Naive), 1_000, 1_000);
    for i in (0..1_000).step_by(73) {
        let sum = up_buf[i] + down_buf[i];
        assert!(sum.abs() < 1e-3, "up+down ≠ 0 at i={i}: {sum}");
    }
}

#[test]
fn triangle_is_symmetric_around_half_period() {
    let osc = TriangleOsc { freq_hz: v(1.0), amplitude: v(1.0), anti_alias: AntiAlias::Naive };
    let buf = drive(&osc, 1_000, 1_000);
    assert!(buf[250].abs() < 1e-2);
    assert!((buf[500] - 1.0).abs() < 1e-2);
    assert!(buf[750].abs() < 1e-2);
}

#[test]
fn freq_input_modulates_pitch() {
    let osc = SineOsc { freq_hz: v(440.0), phase_offset: v(0.0), amplitude: v(1.0) };
    let sr: u32 = 44_100;
    let mut state = osc.init_state();
    let mut rng = Stream::new(0);
    let half_period_at_880 = (sr as f32 / (4.0 * 880.0)).round() as u64;
    let mut samples = Vec::new();
    for i in 0..=half_period_at_880 {
        let inputs = vec![Input { port: "freq", value: v(440.0) }];
        let mut ctx = BakeContext::new(sr, i, 100, rng, inputs, state);
        samples.push(n(osc.sample(&mut ctx, &math)));
        rng = ctx.rng;
        state = ctx.state;
    }
    let last = *samples.last().unwrap();
    assert!(last > 0.99, "modulated quarter-period: {last}");
}

#[test]
fn stateless_path_reflects_freq_modulation() {
    let osc = SineOsc { freq_hz: v(0.0), phase_offset: v(0.0), amplitude: v(1.0) };
    let sr: u32 = 44_100;
    let inputs = vec![Input { port: "freq", value: v(100.0) }];
    let mut ctx = BakeContext::new(
        sr,
        u64::from(sr / 400),
        u64::from(sr),
        Stream::new(0),
        inputs,
        NodeState::Stateless,
    );
    let s = n(osc.sample(&mut ctx, &math));
    assert!((s - 1.0).abs() < 1e-2, "stateless freq-modulated peak: {s}");
}

#[test]
fn amplitude_input_scales_output() {
    let osc = SineOsc { freq_hz: v(440.0), phase_offset: v(0.25), amplitude: v(0.0) };
    let inputs = vec![Input { port: "amplitude", value: v(0.5) }];
    let mut ctx = BakeContext::new(44_100, 0, 1, Stream::new(0), inputs, osc.init_state());
    let s = n(osc.sample(&mut ctx, &math));
    assert!((s - 0.5).abs() < 1e-3, "amplitude-modulated peak: {s}");
}

#[test]
fn genotype_clamps_frequencies_to_audible_range() {
    let mut osc = SineOsc { freq_hz: v(19_500.0), phase_offset: v(0.0), amplitude: v(0.9) };
    let draws = dealt(ChaCha8Rng::seed_from_u64(7));
    let mut tape = Tape::new(&draws);
    for _ in 0..200 {
        osc.mutate(&mut tape, v(1.0), &math);
        assert!((20.0..=20_000.0).contains(&n(osc.freq_hz)));
        assert!((0.0..=1.0).contains(&n(osc.phase_offset)));
        assert!((0.0..=1.0).contains(&n(osc.amplitude)));
    }
}

#[test]
fn anti_alias_defaults_to_naive() {
    assert_eq!(SquareOsc::default().anti_alias, AntiAlias::Naive);
    assert_eq!(SawtoothOsc::default().anti_alias, AntiAlias::Naive);
    assert_eq!(TriangleOsc::default().anti_alias, AntiAlias::Naive);
}

#[test]
fn poly_blep_is_zero_outside_edge_window_and_for_extreme_dt() {
    let dt = 0.05;
    for &t in &[0.2_f32, 0.5, 0.8] {
        assert_eq!(n(poly_blep(v(t), v(dt))), 0.0);
        assert_eq!(n(poly_blamp(v(t), v(dt))), 0.0);
    }
    assert_eq!(n(poly_blep(v(0.0), v(0.0))), 0.0);
    assert_eq!(n(poly_blep(v(0.0), v(0.9))), 0.0);
    assert_eq!(n(poly_blamp(v(0.0), v(0.9))), 0.0);
}

#[test]
fn polyblep_saw_matches_naive_away_from_the_wrap() {
    let sr = 44_100;
    let naive = drive(&saw(2205.0, SawPolarity::Up, AntiAlias::Naive), sr, 60);
    let blep = drive(&saw(2205.0, SawPolarity::Up, AntiAlias::PolyBlep), sr, 60);
    for i in 0..60 {
        let phase_idx = i % 20;
        if (2..=18).contains(&phase_idx) {
            assert!(
                (naive[i] - blep[i]).abs() < 1e-6,
                "interior sample {i} diverged: naive={} blep={}",
                naive[i],
                blep[i]
            );
        }
    }
}

#[test]
fn polyblep_saw_softens_the_reset_discontinuity() {
    let sr = 44_100;
    let naive = drive(&saw(2205.0, SawPolarity::Up, AntiAlias::Naive), sr, 200);
    let blep = drive(&saw(2205.0, SawPolarity::Up, AntiAlias::PolyBlep), sr, 200);
    let max_jump =
        |buf: &[f32]| buf.windows(2).map(|w| (w[1] - w[0]).abs()).fold(0.0_f32, f32::max);
    let naive_jump = max_jump(&naive);
    let blep_jump = max_jump(&blep);
    assert!(naive_jump > 1.8, "naive reset jump unexpectedly small: {naive_jump}");
    assert!(
        blep_jump < naive_jump * 0.8,
        "PolyBLEP reset jump {blep_jump} not < 0.8 × naive {naive_jump}"
    );
}

#[test]
fn polyblep_square_stays_bipolar_and_bounded() {
    let osc = SquareOsc {
        freq_hz: v(2205.0),
        duty: v(0.5),
        amplitude: v(1.0),
        anti_alias: AntiAlias::PolyBlep,
    };
    let blep = drive(&osc, 44_100, 200);
    assert!(blep.iter().all(|s| s.abs() <= 1.3), "square overshoot too large");
    assert!(blep.iter().any(|&s| s > 0.5), "square never goes high");
    assert!(blep.iter().any(|&s| s < -0.5), "square never goes low");
}

#[test]
fn polyblamp_triangle_stays_centered_and_bounded() {
    let osc =
        TriangleOsc { freq_hz: v(2205.0), amplitude: v(1.0), anti_alias: AntiAlias::PolyBlep };
    let blep = drive(&osc, 44_100, 200);
    let mean = blep.iter().sum::<f32>() / blep.len() as f32;
    assert!(mean.abs() < 0.05, "triangle DC offset too large: {mean}");
    assert!(blep.iter().all(|s| s.abs() <= 1.1), "triangle overshoot too large");
}

#[test]
fn a_phase_wraps_into_its_cycle() {
    assert_eq!(n(advance(v(0.75), v(500.0), v(1_000.0))), 0.25);
    assert_eq!(n(advance(v(0.25), v(-500.0), v(1_000.0))), 0.75);
    assert_eq!(n(advance(v(0.5), v(500.0), v(1_000.0))), 0.0);
}

#[test]
fn a_phase_stays_below_one_when_it_runs_backward() {
    // What is left of a cycle rounds up to a whole one: the next one starts.
    let tiny = -(2.0_f32.powi(-30));
    assert_eq!(tiny.rem_euclid(1.0), 1.0);
    assert_eq!(n(advance(v(0.0), v(tiny), v(1.0))), 0.0);
    assert_eq!(n(wrapped(v(tiny))), 0.0);
    for freq in [-f32::MAX, -440.0, -1e-20, 0.0, 1e-20, 440.0, f32::MAX] {
        for start in [0.0, 0.25, 1.0 - f32::EPSILON] {
            let p = n(advance(v(start), v(freq), v(44_100.0)));
            assert!((0.0..1.0).contains(&p), "{start} {freq} {p}");
        }
    }
}

#[test]
fn corrections_at_the_edge_hold_their_numbers() {
    assert_eq!(n(poly_blep(v(0.0), v(0.25))), -1.0);
    assert_eq!(n(poly_blep(v(0.125), v(0.25))), -0.25);
    assert_eq!(n(poly_blep(v(0.875), v(0.25))), 0.25);
    assert_eq!(n(poly_blamp(v(0.0), v(0.25))), 1.0_f32 / 3.0);
    assert_eq!(n(poly_blamp(v(0.125), v(0.25))), 1.0_f32 / 3.0 * 0.125);
    assert_eq!(n(poly_blamp(v(0.875), v(0.25))), 1.0_f32 / 3.0 * 0.125);
}

#[test]
fn the_square_follows_its_duty() {
    let osc = SquareOsc { freq_hz: v(1.0), duty: v(0.25), ..SquareOsc::default() };
    assert_eq!(drive(&osc, 8, 9), vec![1.0, 1.0, -1.0, -1.0, -1.0, -1.0, -1.0, -1.0, 1.0]);
}
