use rand::{Rng, SeedableRng};
use rand_chacha::ChaCha8Rng;
use std::cell::RefCell;
use std::collections::HashMap;
use symbios_audio::adsr::{curve_eval, AdsrCurve, AdsrEnvelope, AdsrPhase, AdsrState};
use symbios_audio::elementary::Elementary;
use symbios_audio::float::F32;
use symbios_audio::genetics::{Draw, Evolvable, Tape};
use symbios_audio::node::{BakeContext, Input, Node, NodeState};
use symbios_audio::stream::Stream;

fn v(x: f32) -> F32 {
    F32::of(x.to_bits())
}

fn n(x: F32) -> f32 {
    f32::from_bits(x.bits)
}

fn math(k: Elementary, x: F32) -> F32 {
    let x = n(x);
    v(match k {
        Elementary::Sin => x.sin(),
        Elementary::Cos => x.cos(),
        Elementary::Tanh => x.tanh(),
        Elementary::Exp2 => 2.0_f32.powf(x),
    })
}

/// Draws from a generator, every draw answered once.
fn dealt(rng: ChaCha8Rng) -> impl Fn(u64, Draw) -> u64 {
    let rng = RefCell::new(rng);
    let known: RefCell<HashMap<(u64, u8), u64>> = RefCell::new(HashMap::new());
    move |at, kind| {
        let code: u8 = match kind {
            Draw::Unit => 0,
            Draw::WideUnit => 1,
            Draw::Coin => 2,
            Draw::Word => 3,
        };
        *known.borrow_mut().entry((at, code)).or_insert_with(|| match kind {
            Draw::Unit => u64::from(rng.borrow_mut().random::<f32>().to_bits()),
            Draw::WideUnit => rng.borrow_mut().random::<f64>().to_bits(),
            Draw::Coin => u64::from(rng.borrow_mut().random::<bool>()),
            Draw::Word => u64::from(rng.borrow_mut().random::<u32>()),
        })
    }
}


fn linear_test_envelope() -> AdsrEnvelope {
    AdsrEnvelope {
        attack_s: v(0.1),
        decay_s: v(0.1),
        sustain_level: v(0.5),
        release_s: v(0.1),
        curve: AdsrCurve::Linear,
    }
}

/// Drives an envelope through segments of `(samples, gate high)`.
fn run(env: &AdsrEnvelope, sample_rate: u32, pattern: &[(u64, bool)]) -> (Vec<f32>, AdsrState) {
    let mut state = env.init_state();
    let mut rng = Stream::new(0);
    let mut samples = Vec::new();
    let mut index: u64 = 0;
    let total: u64 = pattern.iter().map(|(count, _)| *count).sum();
    for &(count, high) in pattern {
        for _ in 0..count {
            let inputs = vec![Input { port: "gate", value: v(if high { 1.0 } else { 0.0 }) }];
            let mut ctx = BakeContext::new(sample_rate, index, total, rng, inputs, state);
            samples.push(n(env.sample(&mut ctx, &math)));
            rng = ctx.rng;
            state = ctx.state;
            index += 1;
        }
    }
    match state {
        NodeState::Adsr(s) => (samples, s),
        _ => panic!("an envelope keeps its state"),
    }
}

#[test]
fn idle_with_no_gate_stays_at_zero() {
    let env = linear_test_envelope();
    let (samples, state) = run(&env, 44_100, &[(1000, false)]);
    assert!(samples.iter().all(|s| *s == 0.0));
    assert_eq!(state.phase, AdsrPhase::Idle);
}

#[test]
fn linear_attack_reaches_one_at_end() {
    let env = linear_test_envelope();
    let (samples, _) = run(&env, 44_100, &[(4411, true)]);
    assert!((samples[4410] - 1.0).abs() < 1e-3, "end-of-attack ≠ 1.0: {}", samples[4410]);
}

#[test]
fn linear_decay_reaches_sustain() {
    let env = linear_test_envelope();
    let (samples, state) = run(&env, 44_100, &[(8821, true)]);
    assert!((samples[8820] - 0.5).abs() < 1e-3, "end-of-decay ≠ 0.5: {}", samples[8820]);
    assert_eq!(state.phase, AdsrPhase::Sustain);
}

#[test]
fn sustain_holds_value_until_released() {
    let env = linear_test_envelope();
    let (samples, state) = run(&env, 44_100, &[(44_100, true)]);
    assert!((samples[44_099] - 0.5).abs() < 1e-3);
    assert_eq!(state.phase, AdsrPhase::Sustain);
}

#[test]
fn release_after_one_second_gate_finishes_at_zero() {
    let env = linear_test_envelope();
    let (samples, state) = run(&env, 44_100, &[(44_100, true), (4_411, false)]);
    assert!((samples[44_100] - 0.5).abs() < 1e-3, "start of release ≠ 0.5: {}", samples[44_100]);
    assert!(samples[48_510].abs() < 1e-3, "end of release ≠ 0.0: {}", samples[48_510]);
    assert_eq!(state.phase, AdsrPhase::Idle);
}

#[test]
fn release_from_mid_attack_starts_from_partial_value() {
    let env = linear_test_envelope();
    let (samples, _) = run(&env, 44_100, &[(2_205, true), (4_410, false)]);
    assert!((samples[2_205] - 0.5).abs() < 1e-2, "mid-attack release start: {}", samples[2_205]);
    assert!(samples[2_205 + 4_409].abs() < 1e-3);
}

#[test]
fn rising_edge_during_release_retriggers_attack_from_zero() {
    let env = linear_test_envelope();
    let (samples, state) = run(&env, 44_100, &[(44_100, true), (4_411, false), (10, true)]);
    let retrig_first = samples[44_100 + 4_411];
    assert!(retrig_first.abs() < 1e-3, "retrigger first sample ≠ 0: {retrig_first}");
    assert_eq!(state.phase, AdsrPhase::Attack);
}

#[test]
fn exponential_curve_reaches_endpoints_exactly() {
    let env = AdsrEnvelope { curve: AdsrCurve::Exponential, ..linear_test_envelope() };
    let (samples, _) = run(&env, 44_100, &[(8_821, true)]);
    assert!((samples[4_410] - 1.0).abs() < 1e-3);
    assert!((samples[8_820] - 0.5).abs() < 1e-3);
    assert!(samples[2_205] > 0.7 && samples[2_205] < 0.8, "exp midpoint: {}", samples[2_205]);
}

#[test]
fn genotype_keeps_total_envelope_time_above_floor() {
    let mut env = AdsrEnvelope {
        attack_s: v(0.001),
        decay_s: v(0.001),
        release_s: v(0.001),
        ..linear_test_envelope()
    };
    let draws = dealt(ChaCha8Rng::seed_from_u64(0));
    let mut tape = Tape::new(&draws);
    for _ in 0..50 {
        env.mutate(&mut tape, v(1.0), &math);
        let total = n(env.attack_s) + n(env.decay_s) + n(env.release_s);
        assert!(total >= 0.05, "envelope collapsed: total={total}");
    }
}

#[test]
fn falls_back_to_sustain_when_state_missing() {
    let env = linear_test_envelope();
    let inputs = vec![Input { port: "gate", value: v(1.0) }];
    let mut ctx =
        BakeContext::new(44_100, 0, 1, Stream::new(0), inputs, NodeState::Stateless);
    let s = n(env.sample(&mut ctx, &math));
    assert!((s - n(env.sustain_level)).abs() < 1e-6);
}

#[test]
fn curves_meet_their_ends_and_differ_between() {
    for curve in [AdsrCurve::Linear, AdsrCurve::Exponential] {
        assert_eq!(n(curve_eval(curve, v(-3.0))), 0.0);
        assert_eq!(n(curve_eval(curve, v(0.0))), 0.0);
        assert_eq!(n(curve_eval(curve, v(1.0))), 1.0);
        assert_eq!(n(curve_eval(curve, v(7.0))), 1.0);
    }
    assert_eq!(n(curve_eval(AdsrCurve::Linear, v(0.5))), 0.5);
    assert_eq!(n(curve_eval(AdsrCurve::Exponential, v(0.5))), 0.75);
}

#[test]
fn a_gate_that_falls_releases_from_the_present_level() {
    let env = AdsrEnvelope { curve: AdsrCurve::Exponential, ..linear_test_envelope() };
    let (held, _) = run(&env, 8_000, &[(301, true)]);
    let (cut, state) = run(&env, 8_000, &[(300, true), (1, false)]);
    assert_eq!(cut[300], held[300]);
    assert_eq!(state.phase, AdsrPhase::Release);
}

#[test]
fn every_sample_of_an_envelope_is_between_zero_and_one() {
    let env = AdsrEnvelope {
        attack_s: v(0.0),
        decay_s: v(0.013),
        sustain_level: v(0.3),
        release_s: v(0.021),
        curve: AdsrCurve::Exponential,
    };
    let pattern = [(50, true), (70, false), (400, true), (60, false), (3, true), (500, false)];
    let (samples, _) = run(&env, 8_000, &pattern);
    assert!(samples.iter().all(|s| (0.0..=1.0).contains(s)));
    // A stage of no length still takes one sample.
    assert_eq!(samples[0], 0.0);
    assert_eq!(samples[1], 1.0);
}

#[test]
fn the_default_envelope_holds_its_numbers() {
    let env = AdsrEnvelope::default();
    assert_eq!(n(env.attack_s), 0.01);
    assert_eq!(n(env.decay_s), 0.1);
    assert_eq!(n(env.sustain_level), 0.7);
    assert_eq!(n(env.release_s), 0.2);
    assert_eq!(env.curve, AdsrCurve::Linear);
}
