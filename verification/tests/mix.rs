use rand::{Rng, SeedableRng};
use rand_chacha::ChaCha8Rng;
use std::cell::RefCell;
use std::collections::HashMap;
use symbios_audio::elementary::Elementary;
use symbios_audio::float::F32;
use symbios_audio::genetics::{Draw, Evolvable, Tape};
use symbios_audio::mix::{Gain, Mix};
use symbios_audio::node::{BakeContext, Input, Node, NodeState};
use symbios_audio::stream::Stream;

fn v(x: f32) -> F32 {
    F32::of(x.to_bits())
}

fn n(x: F32) -> f32 {
    f32::from_bits(x.bits)
}

fn math(k: Elementary, x: F32) -> F32 {
    let x = n(x);
    v(match k {
        Elementary::Sin => x.sin(),
        Elementary::Cos => x.cos(),
        Elementary::Tanh => x.tanh(),
        Elementary::Exp2 => 2.0_f32.powf(x),
    })
}

/// Draws from a generator, every draw answered once.
fn dealt(rng: ChaCha8Rng) -> impl Fn(u64, Draw) -> u64 {
    let rng = RefCell::new(rng);
    let known: RefCell<HashMap<(u64, u8), u64>> = RefCell::new(HashMap::new());
    move |at, kind| {
        let code: u8 = match kind {
            Draw::Unit => 0,
            Draw::WideUnit => 1,
            Draw::Coin => 2,
            Draw::Word => 3,
        };
        *known.borrow_mut().entry((at, code)).or_insert_with(|| match kind {
            Draw::Unit => u64::from(rng.borrow_mut().random::<f32>().to_bits()),
            Draw::WideUnit => rng.borrow_mut().random::<f64>().to_bits(),
            Draw::Coin => u64::from(rng.borrow_mut().random::<bool>()),
            Draw::Word => u64::from(rng.borrow_mut().random::<u32>()),
        })
    }
}


fn sample<N: Node>(node: &N, inputs: &[(&'static str, f32)]) -> f32 {
    let inputs =
        inputs.iter().map(|(port, x)| Input { port, value: v(*x) }).collect();
    let mut ctx =
        BakeContext::new(44_100, 0, 1, Stream::new(0), inputs, NodeState::Stateless);
    n(node.sample(&mut ctx, &math))
}

#[test]
fn mix_sums_all_ports_scaled_by_gain() {
    let mix = Mix { gain: v(0.5) };
    let s = sample(&mix, &[("a", 1.0), ("b", 0.5), ("c", -0.25)]);
    assert!((s - 0.625).abs() < 1e-6);
}

#[test]
fn mix_of_no_inputs_is_silent() {
    assert_eq!(sample(&Mix::default(), &[]), 0.0);
}

#[test]
fn gain_multiplies_input_by_base_plus_cv() {
    let g = Gain { gain: v(0.25) };
    assert!((sample(&g, &[("in", 0.8), ("gain", 0.5)]) - 0.6).abs() < 1e-6);
}

#[test]
fn gain_default_is_unity_pass_through() {
    let g = Gain::default();
    assert!((sample(&g, &[("in", 0.42)]) - 0.42).abs() < 1e-6);
}

#[test]
fn gain_acts_as_vca_when_base_is_zero() {
    let g = Gain { gain: v(0.0) };
    assert_eq!(sample(&g, &[("in", 0.9)]), 0.0);
}

#[test]
fn genotype_clamps_gain_to_range() {
    let mut mix = Mix { gain: v(3.9) };
    let draws = dealt(ChaCha8Rng::seed_from_u64(3));
    let mut tape = Tape::new(&draws);
    for _ in 0..200 {
        mix.mutate(&mut tape, v(1.0), &math);
        assert!((0.0..=4.0).contains(&n(mix.gain)));
    }
}
