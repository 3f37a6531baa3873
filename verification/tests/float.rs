use symbios_audio::float::{F32, F64};
use symbios_audio::{
    adsr, breeding, chorus, constants, envelope, filter, genetics, lineage, mixdown, noise,
    oscillator, reverb, sequence, stream, wav,
};

fn v(x: f32) -> F32 {
    F32::of(x.to_bits())
}

fn w(x: f64) -> F64 {
    F64::of(x.to_bits())
}

/// The same number: the same bits, or not a number both.
fn agrees(got: F32, want: f32) -> bool {
    got.bits == want.to_bits() || (f32::from_bits(got.bits).is_nan() && want.is_nan())
}

fn agrees_wide(got: F64, want: f64) -> bool {
    got.bits == want.to_bits() || (f64::from_bits(got.bits).is_nan() && want.is_nan())
}

/// Numbers of all sorts: all exponents, ends of ranges, nothing special.
fn patterns(seed: u64, count: usize) -> Vec<u64> {
    let mut s = seed;
    (0..count)
        .map(|_| {
            s ^= s << 13;
            s ^= s >> 7;
            s ^= s << 17;
            s
        })
        .collect()
}

fn singles(seed: u64, count: usize) -> Vec<f32> {
    let special = [
        0.0_f32,
        -0.0,
        1.0,
        -1.0,
        0.5,
        1.5,
        2.5,
        -2.5,
        f32::MIN_POSITIVE,
        f32::from_bits(1),
        f32::from_bits(0x007f_ffff),
        f32::MAX,
        f32::MIN,
        f32::INFINITY,
        f32::NEG_INFINITY,
        f32::NAN,
        16_777_215.0,
        16_777_216.0,
        8_388_607.5,
        1.0e-45,
        0.1,
    ];
    let mut all: Vec<f32> = special.to_vec();
    all.extend(patterns(seed, count).iter().map(|p| f32::from_bits((p >> 16) as u32)));
    all.extend(patterns(seed + 1, count).iter().map(|p| (*p as i32 as f32) / 65_536.0));
    all
}

fn doubles(seed: u64, count: usize) -> Vec<f64> {
    let special = [
        0.0_f64,
        -0.0,
        1.0,
        -1.0,
        0.5,
        2.5,
        f64::MIN_POSITIVE,
        f64::from_bits(1),
        f64::MAX,
        f64::INFINITY,
        f64::NEG_INFINITY,
        f64::NAN,
        9_007_199_254_740_991.0,
        0.1,
        3.402_823_5e38,
        1.0e-45,
    ];
    let mut all: Vec<f64> = special.to_vec();
    all.extend(patterns(seed, count).iter().map(|p| f64::from_bits(*p)));
    all.extend(patterns(seed + 1, count).iter().map(|p| (*p as i64 as f64) / 1.0e9));
    all
}

#[test]
fn sums_and_products_round_like_the_machine() {
    let xs = singles(3, 60);
    for a in &xs {
        for b in &xs {
            assert!(agrees(v(*a).plus(v(*b)), a + b), "{a} + {b}");
            assert!(agrees(v(*a).minus(v(*b)), a - b), "{a} - {b}");
            assert!(agrees(v(*a).times(v(*b)), a * b), "{a} * {b}");
            assert!(agrees(v(*a).over(v(*b)), a / b), "{a} / {b}");
        }
    }
}

#[test]
fn remainders_are_the_machine_s() {
    let xs = singles(11, 40);
    for a in &xs {
        for b in &xs {
            assert!(agrees(v(*a).modulo(v(*b)), a % b), "{a} % {b}");
            assert!(agrees(v(*a).rem_euclid(v(*b)), a.rem_euclid(*b)), "{a} rem {b}");
        }
    }
}

#[test]
fn orders_are_the_machine_s() {
    let xs = singles(17, 40);
    for a in &xs {
        for b in &xs {
            assert_eq!(v(*a).lt(v(*b)), a < b);
            assert_eq!(v(*a).le(v(*b)), a <= b);
            assert_eq!(v(*a).same(v(*b)), a == b);
            let (most, least) = (v(*a).max(v(*b)), v(*a).min(v(*b)));
            assert!(agrees(most, a.max(*b)) || (*a == 0.0 && *b == 0.0), "{a} max {b}");
            assert!(agrees(least, a.min(*b)) || (*a == 0.0 && *b == 0.0), "{a} min {b}");
            if a <= b {
                for c in [-3.0_f32, 0.0, 0.7, f32::NAN, f32::INFINITY] {
                    assert!(agrees(v(c).clamp(v(*a), v(*b)), c.clamp(*a, *b)));
                }
            }
        }
    }
}

#[test]
fn integers_come_and_go_like_the_machine_s() {
    for x in singles(23, 2_000) {
        assert!(agrees(v(x).floor(), x.floor()), "{x}");
        assert!(agrees(v(x).ceil(), x.ceil()), "{x}");
        assert!(agrees(v(x).round(), x.round()), "{x}");
        assert!(agrees(v(x).negated(), -x), "{x}");
        assert!(agrees(v(x).magnitude(), x.abs()), "{x}");
        assert_eq!(v(x).is_finite(), x.is_finite());
        assert_eq!(v(x).is_nan(), x.is_nan());
        assert_eq!(v(x).to_u64(), x as u64, "{x}");
        assert_eq!(v(x).to_usize(), x as usize, "{x}");
        assert_eq!(v(x).to_i16(), x as i16, "{x}");
        assert!(agrees_wide(v(x).widen(), f64::from(x)), "{x}");
    }
    for p in patterns(29, 2_000) {
        for n in [p, p >> 20, p >> 40, p >> 60] {
            assert!(agrees(F32::from_u64(n), n as f32), "{n}");
            assert!(agrees_wide(F64::from_u64(n), n as f64), "{n}");
            assert!(agrees(F32::from_usize(n as usize), n as usize as f32), "{n}");
        }
    }
    assert!(agrees(F32::from_u64(u64::MAX), u64::MAX as f32));
    assert!(agrees(F32::from_u64(16_777_217), 16_777_216.0));
}

#[test]
fn wide_numbers_are_the_machine_s() {
    let xs = doubles(31, 40);
    for a in &xs {
        for b in &xs {
            assert!(agrees_wide(w(*a).plus(w(*b)), a + b), "{a} + {b}");
            assert!(agrees_wide(w(*a).minus(w(*b)), a - b), "{a} - {b}");
            assert!(agrees_wide(w(*a).times(w(*b)), a * b), "{a} * {b}");
            assert!(agrees_wide(w(*a).over(w(*b)), a / b), "{a} / {b}");
            assert_eq!(w(*a).lt(w(*b)), a < b);
            assert_eq!(w(*a).le(w(*b)), a <= b);
            assert_eq!(w(*a).same(w(*b)), a == b);
        }
    }
    for x in doubles(37, 1_000) {
        assert!(agrees_wide(w(x).floor(), x.floor()), "{x}");
        assert!(agrees_wide(w(x).round(), x.round()), "{x}");
        assert!(agrees_wide(w(x).rem_euclid(w(1.0)), x.rem_euclid(1.0)), "{x}");
        assert_eq!(w(x).to_u64(), x as u64, "{x}");
        assert_eq!(w(x).to_usize(), x as usize, "{x}");
        assert!(agrees(w(x).narrow(), x as f32), "{x}");
    }
}

#[test]
fn the_constants_are_their_numbers() {
    for (bits, want) in [
        (constants::ONE, 1.0_f32),
        (constants::MINUS_ONE, -1.0),
        (constants::TWO, 2.0),
        (constants::FOUR, 4.0),
        (constants::HALF, 0.5),
        (constants::THOUSANDTH, 0.001),
        (constants::TWO_PI, 2.0 * std::f32::consts::PI),
        (stream::STEP, 2.0_f32.powi(-22)),
        (mixdown::SIXTY, 60.0),
        (wav::FULL_SCALE, 32_767.0),
        (sequence::DEFAULT_BPM, 120.0),
        (lineage::BPM_MIN, 20.0),
        (lineage::BPM_MAX, 300.0),
        (lineage::BPM_HALF_OCTAVES, 0.2),
        (lineage::VOLUME_HALF_RANGE, 0.1),
        (adsr::DEFAULT_ATTACK, 0.01),
        (adsr::DEFAULT_DECAY, 0.1),
        (adsr::DEFAULT_SUSTAIN, 0.7),
        (adsr::DEFAULT_RELEASE, 0.2),
        (adsr::GATE_THRESHOLD, 0.5),
        (adsr::MIN_PHASE_SAMPLES, 1.0),
        (filter::KILOHERTZ, 1_000.0),
        (filter::BUTTERWORTH, std::f32::consts::FRAC_1_SQRT_2),
        (filter::MIN_Q, 0.001),
        (filter::MIN_CUTOFF_HZ, 1.0),
        (filter::NYQUIST_FRACTION, 0.499),
        (filter::MINUS_TWO, -2.0),
        (noise::PINK_DECAY_0, 0.99765),
        (noise::PINK_FEED_0, 0.099_046),
        (noise::PINK_DECAY_1, 0.963),
        (noise::PINK_FEED_1, 0.296_516_4),
        (noise::PINK_DECAY_2, 0.57),
        (noise::PINK_FEED_2, 1.052_691_3),
        (noise::PINK_DIRECT, 0.1848),
        (noise::PINK_NORMALISE, 0.18),
        (noise::BROWN_NORMALISE, 3.5),
        (noise::BROWN_STEP, 0.02),
        (noise::BROWN_LEAK_DIVISOR, 1.02),
        (oscillator::THIRD, 1.0 / 3.0),
        (oscillator::EPSILON, f32::EPSILON),
        (oscillator::ONE_LESS_EPSILON, 1.0 - f32::EPSILON),
        (oscillator::CONCERT_PITCH, 440.0),
        (oscillator::MAX_BLEP_DT, 0.5),
        (chorus::MAX_FEEDBACK, 0.95),
        (chorus::DEFAULT_RATE, 0.8),
        (chorus::DEFAULT_DELAY, 8.0),
        (reverb::TUNING_SAMPLE_RATE, 44_100.0),
        (reverb::ALLPASS_FEEDBACK, 0.5),
        (reverb::FIXED_GAIN, 0.015),
        (reverb::ROOM_SCALE, 0.28),
        (reverb::ROOM_OFFSET, 0.7),
        (reverb::DAMP_SCALE, 0.4),
        (reverb::DEFAULT_MIX, 0.3),
        (envelope::MAX_HZ, 22_050.0),
        (envelope::MAX_AMPLITUDE, 8.0),
        (envelope::MIN_AMPLITUDE, -8.0),
        (envelope::MAX_STAGE_S, 60.0),
        (envelope::MAX_Q, 64.0),
        (envelope::MAX_LFO_HZ, 1_000.0),
        (envelope::MAX_LFO_LEVEL, 10_000.0),
        (envelope::MIN_LFO_LEVEL, -10_000.0),
        (envelope::MAX_GAIN, 64.0),
        (envelope::MIN_GAIN, -64.0),
        (envelope::MAX_SWEEP_HZ, 100.0),
        (envelope::MAX_DELAY_MS, 100.0),
        (envelope::MAX_CONNECTION_MAGNITUDE, 100_000.0),
        (envelope::MIN_CONNECTION_MAGNITUDE, -100_000.0),
        (envelope::MAX_BPM, 1_000.0),
        (envelope::MAX_BEATS, 100_000.0),
        (envelope::MIN_PITCH, 0.001),
        (envelope::MAX_PITCH, 64.0),
        (breeding::MINUS_TEN_THOUSAND, -10_000.0),
        (breeding::HUNDREDTH, 0.01),
        (breeding::TWENTIETH, 0.05),
        (breeding::TENTH, 0.1),
        (breeding::FIFTH, 0.2),
        (breeding::NINETEEN_TWENTIETHS, 0.95),
        (breeding::TEN, 10.0),
        (breeding::TWELVE, 12.0),
        (breeding::TWENTY, 20.0),
        (breeding::THIRTY, 30.0),
        (breeding::FORTY, 40.0),
        (breeding::TEN_THOUSAND, 10_000.0),
        (breeding::TWENTY_THOUSAND, 20_000.0),
        (breeding::MIN_TOTAL, 0.05),
        (breeding::SIXTY_FOUR, 64.0),
    ] {
        assert_eq!(f32::from_bits(bits), want);
    }
    assert_eq!(f64::from_bits(genetics::WIDE_HALF), 0.5);
    assert_eq!(f64::from_bits(genetics::WIDE_TWO), 2.0);
}
