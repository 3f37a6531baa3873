use rand::rngs::StdRng;
use rand::{Rng, SeedableRng};
use std::cell::RefCell;
use std::collections::HashMap;
use symbios_audio::adsr::{AdsrCurve, AdsrEnvelope};
use symbios_audio::elementary::Elementary;
use symbios_audio::float::{F32, F64};
use symbios_audio::gate::Gate;
use symbios_audio::genetics::{
    mutate_choice, mutate_f32, mutate_f32_log, mutate_f64, mutate_seed, mutate_usize, Draw,
    Evolvable, Tape,
};
use symbios_audio::lfo::{Lfo, LfoShape};
use symbios_audio::oscillator::{AntiAlias, SawPolarity, SawtoothOsc, SineOsc, SquareOsc};

fn v(x: f32) -> F32 {
    F32::of(x.to_bits())
}

fn n(x: F32) -> f32 {
    f32::from_bits(x.bits)
}

fn math(k: Elementary, x: F32) -> F32 {
    let x = n(x);
    v(match k {
        Elementary::Sin => x.sin(),
        Elementary::Cos => x.cos(),
        Elementary::Tanh => x.tanh(),
        Elementary::Exp2 => 2.0_f32.powf(x),
    })
}

/// Draws from a generator, every draw answered once.
fn dealt(rng: StdRng) -> impl Fn(u64, Draw) -> u64 {
    let rng = RefCell::new(rng);
    let known: RefCell<HashMap<(u64, u8), u64>> = RefCell::new(HashMap::new());
    move |at, kind| {
        let code: u8 = match kind {
            Draw::Unit => 0,
            Draw::WideUnit => 1,
            Draw::Coin => 2,
            Draw::Word => 3,
        };
        *known.borrow_mut().entry((at, code)).or_insert_with(|| match kind {
            Draw::Unit => u64::from(rng.borrow_mut().random::<f32>().to_bits()),
            Draw::WideUnit => rng.borrow_mut().random::<f64>().to_bits(),
            Draw::Coin => u64::from(rng.borrow_mut().random::<bool>()),
            Draw::Word => u64::from(rng.borrow_mut().random::<u32>()),
        })
    }
}


fn wide(x: f64) -> F64 {
    F64::of(x.to_bits())
}

#[derive(Clone, Copy, Debug, PartialEq)]
enum Flavour {
    Sine,
    Saw,
    Square,
}

const FLAVOURS: [Flavour; 3] = [Flavour::Sine, Flavour::Saw, Flavour::Square];

/// A field of every sort.
#[derive(Clone, Debug)]
struct TestConfig {
    seed: u32,
    frequency: f64,
    partials: f64,
    gain: f32,
    cycles: usize,
    inverted: bool,
    flavour: Flavour,
}

impl TestConfig {
    fn mutate<D: Fn(u64, Draw) -> u64>(&mut self, tape: &mut Tape<'_, D>, rate: f32) {
        let rate = v(rate);
        self.seed = mutate_seed(self.seed, tape, rate);
        let frequency =
            mutate_f64(wide(self.frequency), tape, rate, wide(50.0), wide(20.0), wide(20_000.0));
        self.frequency = f64::from_bits(frequency.bits);
        let partials =
            mutate_f64(wide(self.partials), tape, rate, wide(1.0), wide(1.0), wide(64.0)).round();
        self.partials = f64::from_bits(partials.bits);
        self.gain = n(mutate_f32(v(self.gain), tape, rate, v(0.1), v(0.0), v(1.0)));
        self.cycles = mutate_usize(self.cycles, tape, rate, 1, 32);
        if tape.hit(rate) {
            self.inverted = !self.inverted;
        }
        let at = FLAVOURS.iter().position(|f| *f == self.flavour).unwrap();
        self.flavour = FLAVOURS[mutate_choice(at, tape, rate, FLAVOURS.len())];
    }

    fn crossover<D: Fn(u64, Draw) -> u64>(
        &self,
        other: &TestConfig,
        tape: &mut Tape<'_, D>,
    ) -> TestConfig {
        TestConfig {
            seed: if tape.coin() { self.seed } else { other.seed },
            frequency: if tape.coin() { self.frequency } else { other.frequency },
            partials: if tape.coin() { self.partials } else { other.partials },
            gain: if tape.coin() { self.gain } else { other.gain },
            cycles: if tape.coin() { self.cycles } else { other.cycles },
            inverted: if tape.coin() { self.inverted } else { other.inverted },
            flavour: if tape.coin() { self.flavour } else { other.flavour },
        }
    }
}

fn seeded() -> StdRng {
    StdRng::seed_from_u64(0xA1B2C3)
}

fn base() -> TestConfig {
    TestConfig {
        seed: 7,
        frequency: 440.0,
        partials: 4.0,
        gain: 0.5,
        cycles: 8,
        inverted: false,
        flavour: Flavour::Sine,
    }
}

#[test]
fn mutate_rate_zero_is_identity() {
    let mut c = base();
    let snapshot = c.clone();
    c.mutate(&mut Tape::new(&dealt(seeded())), 0.0);
    assert_eq!(c.seed, snapshot.seed);
    assert_eq!(c.cycles, snapshot.cycles);
    assert_eq!(c.inverted, snapshot.inverted);
    assert_eq!(c.flavour, snapshot.flavour);
    assert!((c.frequency - snapshot.frequency).abs() < f64::EPSILON);
    assert!((c.partials - snapshot.partials).abs() < f64::EPSILON);
    assert!((c.gain - snapshot.gain).abs() < f32::EPSILON);
}

#[test]
fn mutate_clamps_within_field_bounds() {
    let mut c = TestConfig { frequency: 19_999.0, gain: 0.99, ..base() };
    let draws = dealt(seeded());
    let mut tape = Tape::new(&draws);
    for _ in 0..200 {
        c.mutate(&mut tape, 1.0);
        assert!(c.frequency >= 20.0 && c.frequency <= 20_000.0);
        assert!((0.0..=1.0).contains(&c.gain));
        assert!((1.0..=64.0).contains(&c.partials));
        assert!((1..=32).contains(&c.cycles));
    }
}

#[test]
fn f64_round_kind_produces_integer_values() {
    let mut c = base();
    c.mutate(&mut Tape::new(&dealt(seeded())), 1.0);
    assert!((c.partials - c.partials.round()).abs() < f64::EPSILON);
}

#[test]
fn enum_cycle_cycles_variants() {
    let mut c = TestConfig { flavour: Flavour::Sine, ..base() };
    c.mutate(&mut Tape::new(&dealt(seeded())), 1.0);
    assert_eq!(c.flavour, Flavour::Saw);
    c.mutate(&mut Tape::new(&dealt(seeded())), 1.0);
    assert_eq!(c.flavour, Flavour::Square);
    c.mutate(&mut Tape::new(&dealt(seeded())), 1.0);
    assert_eq!(c.flavour, Flavour::Sine);
}

#[test]
fn genetics_crossover_takes_each_field_from_one_parent() {
    let a = base();
    let b = TestConfig {
        seed: 99,
        frequency: 880.0,
        partials: 16.0,
        gain: 0.1,
        cycles: 24,
        inverted: true,
        flavour: Flavour::Square,
    };
    let child = a.crossover(&b, &mut Tape::new(&dealt(seeded())));
    assert!(child.seed == a.seed || child.seed == b.seed);
    assert!(child.frequency == a.frequency || child.frequency == b.frequency);
    assert!(child.partials == a.partials || child.partials == b.partials);
    assert!(child.gain == a.gain || child.gain == b.gain);
    assert!(child.cycles == a.cycles || child.cycles == b.cycles);
    assert!(child.inverted == a.inverted || child.inverted == b.inverted);
    assert!(child.flavour == a.flavour || child.flavour == b.flavour);
}

#[test]
fn a_mutation_as_floats_is_the_same_to_the_bit() {
    let draws = dealt(seeded());
    let mut tape = Tape::new(&draws);
    let mut rng = seeded();
    let (mut a, mut b) = (0.5_f32, 440.0_f32);
    for _ in 0..100 {
        let got_a = n(mutate_f32(v(a), &mut tape, v(0.7), v(0.1), v(0.0), v(1.0)));
        let got_b =
            n(mutate_f32_log(v(b), &mut tape, v(0.7), v(0.5), v(20.0), v(20_000.0), &math));
        if rng.random::<f32>() < 0.7 {
            a = (a + (rng.random::<f32>() - 0.5) * 2.0 * 0.1).clamp(0.0, 1.0);
        }
        if rng.random::<f32>() < 0.7 {
            let octaves = (rng.random::<f32>() - 0.5) * 2.0 * 0.5;
            b = (b * 2.0_f32.powf(octaves)).clamp(20.0, 20_000.0);
        }
        assert_eq!((got_a, got_b), (a, b));
    }
}

#[test]
fn integers_step_within_both_bounds() {
    let up = |_: u64, kind: Draw| match kind {
        Draw::Coin => 1,
        _ => 0,
    };
    let down = |_: u64, _: Draw| 0;
    for (val, higher, lower) in [
        (0, 5, 5),
        (4, 5, 5),
        (5, 6, 5),
        (7, 8, 6),
        (9, 9, 8),
        (12, 9, 9),
        (usize::MAX, 9, 9),
    ] {
        assert_eq!(mutate_usize(val, &mut Tape::new(&up), v(1.0), 5, 9), higher);
        assert_eq!(mutate_usize(val, &mut Tape::new(&down), v(1.0), 5, 9), lower);
        assert_eq!(mutate_usize(val, &mut Tape::new(&up), v(0.0), 5, 9), val);
    }
}

#[test]
fn fields_are_mutated_in_their_order() {
    // A draw decides, the next one moves: the numbers come one by one.
    let table = |at: u64, kind: Draw| match (at, kind) {
        (0, Draw::Unit) => u64::from(0.0_f32.to_bits()),
        (1, Draw::Unit) => u64::from(1.0_f32.to_bits()),
        (2, Draw::Unit) => u64::from(0.9_f32.to_bits()),
        (3, Draw::Unit) => u64::from(0.0_f32.to_bits()),
        (4, Draw::Unit) => u64::from(0.25_f32.to_bits()),
        _ => panic!("draw {at}"),
    };
    let mut tape = Tape::new(&table);
    let mut osc = SineOsc { freq_hz: v(440.0), phase_offset: v(0.5), amplitude: v(0.5) };
    osc.mutate(&mut tape, v(0.5), &math);
    assert_eq!(tape.at, 5);
    assert!(n(osc.freq_hz) > 440.0);
    assert_eq!(n(osc.phase_offset), 0.5);
    assert!(n(osc.amplitude) < 0.5);
}

#[test]
fn children_take_their_fields_by_the_coin() {
    let a = SquareOsc {
        freq_hz: v(1.0),
        duty: v(0.2),
        amplitude: v(0.3),
        anti_alias: AntiAlias::Naive,
    };
    let b = SquareOsc {
        freq_hz: v(5.0),
        duty: v(0.6),
        amplitude: v(0.7),
        anti_alias: AntiAlias::PolyBlep,
    };
    let alternate = |at: u64, _: Draw| at % 2;
    let child = a.crossover(&b, &mut Tape::new(&alternate));
    assert_eq!(
        child,
        SquareOsc {
            freq_hz: v(5.0),
            duty: v(0.2),
            amplitude: v(0.7),
            anti_alias: AntiAlias::Naive,
        }
    );
}

#[test]
fn choices_and_switches_move_on() {
    let always = |_: u64, _: Draw| 0_u64;
    let mut gate = Gate { invert: false };
    gate.mutate(&mut Tape::new(&always), v(1.0), &math);
    assert!(gate.invert);
    let mut lfo = Lfo { shape: LfoShape::Random, ..Lfo::default() };
    lfo.mutate(&mut Tape::new(&always), v(1.0), &math);
    assert_eq!(lfo.shape, LfoShape::Sine);
    let mut saw = SawtoothOsc::default();
    saw.mutate(&mut Tape::new(&always), v(1.0), &math);
    assert_eq!(saw.polarity, SawPolarity::Down);
}

#[test]
fn a_short_envelope_is_stretched_to_its_floor() {
    let never = |_: u64, _: Draw| u64::from(1.0_f32.to_bits());
    let mut env = AdsrEnvelope {
        attack_s: v(0.01),
        decay_s: v(0.01),
        sustain_level: v(0.5),
        release_s: v(0.005),
        curve: AdsrCurve::Linear,
    };
    env.mutate(&mut Tape::new(&never), v(0.0), &math);
    let total = n(env.attack_s) + n(env.decay_s) + n(env.release_s);
    assert!((total - 0.05).abs() < 1e-6, "{total}");
    let long = AdsrEnvelope { release_s: v(1.0), ..env };
    let mut kept = long;
    kept.mutate(&mut Tape::new(&never), v(0.0), &math);
    assert_eq!(kept, long);
}

#[test]
fn a_rate_below_zero_changes_nothing() {
    let osc = SineOsc { freq_hz: v(440.0), phase_offset: v(0.5), amplitude: v(0.5) };
    for rate in [0.0, -0.0, -0.5, f32::NEG_INFINITY, f32::NAN] {
        let mut c = osc;
        c.mutate(&mut Tape::new(&|_: u64, _: Draw| 0), v(rate), &math);
        assert_eq!(c, osc, "{rate}");
    }
}
