//! The figures: which decimal numbers the bit patterns of the constants stand
//! for, and which of them the default configurations hold.
use crate::accuracy::{gap, size, PARTS};
use crate::adsr;
use crate::breeding;
use crate::chorus;
use crate::constants;
use crate::envelope;
use crate::filter;
use crate::float::F32;
use crate::gate;
use crate::lfo;
use crate::lineage;
use crate::mix;
use crate::mixdown;
use crate::node;
use crate::noise;
use crate::numbers::{scale, value};
use crate::numbers;
use crate::oscillator;
use crate::patch;
use crate::reverb;
use crate::sequence;
use crate::wav;
use vstd::arithmetic::power2::*;
use vstd::prelude::*;

verus! {

/// Some bits stand for a fraction: for the number that is nearest to it, to
/// one part in two to the 24th.
pub open spec fn stands_for(bits: u32, num: int, den: int) -> bool {
    &&& F32::of(bits).is_finite()
    &&& PARTS * gap(den * value(F32::of(bits)), num * scale()) <= size(num) * scale()
}

/// A positive fraction, by its significand and exponent.
proof fn lemma_figure(bits: u32, sig: int, exp: nat, num: int, den: int, unit: int)
    requires
        0x80_0000 <= bits < 0x7f80_0000,
        sig == 0x80_0000 + bits % 0x80_0000,
        exp == bits / 0x80_0000 - 1,
        exp <= 149,
        unit == pow2((149 - exp) as nat),
        num > 0,
        PARTS * gap(den * sig, num * unit) <= num * unit,
    ensures
        stands_for(bits, num, den),
{
    numbers::lemma_value_of(bits, sig, exp);
    lemma_pow2_adds((149 - exp) as nat, exp);
    lemma_pow2_pos(exp);
    let p: int = pow2(exp) as int;
    let a: int = den * sig;
    let b: int = num * unit;
    let g: int = gap(a, b);
    assert(den * (sig * p) == a * p) by (nonlinear_arith)
        requires
            a == den * sig,
    ;
    assert(num * (unit * p) == b * p) by (nonlinear_arith)
        requires
            b == num * unit,
    ;
    assert(gap(a * p, b * p) == g * p) by (nonlinear_arith)
        requires
            g == (if a < b {
                b - a
            } else {
                a - b
            }),
            gap(a * p, b * p) == (if a * p < b * p {
                b * p - a * p
            } else {
                a * p - b * p
            }),
            p > 0,
    ;
    assert(PARTS * (g * p) <= b * p) by (nonlinear_arith)
        requires
            PARTS * g <= b,
            p > 0,
    ;
}

/// A negative fraction, by the positive one.
proof fn lemma_negative(bits: u32, num: int, den: int)
    requires
        bits < 0x8000_0000,
        num > 0,
        stands_for(bits, num, den),
    ensures
        stands_for((bits + 0x8000_0000) as u32, -num, den),
{
    let x: F32 = F32::of(bits);
    numbers::lemma_negated(x);
    assert(F32::of((bits + 0x8000_0000) as u32) == x.negated()) by {
        reveal(F32::spec_negated);
    }
    let v: int = value(x);
    assert(den * -v == -(den * v)) by (nonlinear_arith);
    assert((-num) * scale() == -(num * scale())) by (nonlinear_arith);
}

/// An envelope's figures are what they are called.
pub proof fn law_figures_of_adsr()
    ensures
        stands_for(adsr::DEFAULT_ATTACK, 1, 100),
        stands_for(adsr::DEFAULT_DECAY, 1, 10),
        stands_for(adsr::DEFAULT_SUSTAIN, 7, 10),
        stands_for(adsr::DEFAULT_RELEASE, 1, 5),
        stands_for(adsr::GATE_THRESHOLD, 1, 2),
        stands_for(adsr::MIN_PHASE_SAMPLES, 1, 1),
{
    lemma2_to64();
    lemma2_to64_rest();
    lemma_figure(0x3c23_d70a, 0xa3_d70a, 119, 1, 100, 1073741824);
    lemma_figure(0x3dcc_cccd, 0xcc_cccd, 122, 1, 10, 134217728);
    lemma_figure(0x3f33_3333, 0xb3_3333, 125, 7, 10, 16777216);
    lemma_figure(0x3e4c_cccd, 0xcc_cccd, 123, 1, 5, 67108864);
    lemma_figure(0x3f00_0000, 0x80_0000, 125, 1, 2, 16777216);
    lemma_figure(0x3f80_0000, 0x80_0000, 126, 1, 1, 8388608);
}

/// Mutation's figures are what they are called.
pub proof fn law_figures_of_breeding()
    ensures
        stands_for(breeding::MINUS_TEN_THOUSAND, -10000, 1),
        stands_for(breeding::HUNDREDTH, 1, 100),
        stands_for(breeding::TWENTIETH, 1, 20),
        stands_for(breeding::TENTH, 1, 10),
        stands_for(breeding::FIFTH, 1, 5),
        stands_for(breeding::NINETEEN_TWENTIETHS, 19, 20),
        stands_for(breeding::TEN, 10, 1),
        stands_for(breeding::TWELVE, 12, 1),
        stands_for(breeding::TWENTY, 20, 1),
        stands_for(breeding::THIRTY, 30, 1),
        stands_for(breeding::FORTY, 40, 1),
        stands_for(breeding::TEN_THOUSAND, 10000, 1),
        stands_for(breeding::TWENTY_THOUSAND, 20000, 1),
        stands_for(breeding::MIN_TOTAL, 1, 20),
{
    lemma2_to64();
    lemma2_to64_rest();
    lemma_figure(0x461c_4000, 0x9c_4000, 139, 10000, 1, 1024);
    lemma_negative(0x461c_4000, 10000, 1);
    lemma_figure(0x3c23_d70a, 0xa3_d70a, 119, 1, 100, 1073741824);
    lemma_figure(0x3d4c_cccd, 0xcc_cccd, 121, 1, 20, 268435456);
    lemma_figure(0x3dcc_cccd, 0xcc_cccd, 122, 1, 10, 134217728);
    lemma_figure(0x3e4c_cccd, 0xcc_cccd, 123, 1, 5, 67108864);
    lemma_figure(0x3f73_3333, 0xf3_3333, 125, 19, 20, 16777216);
    lemma_figure(0x4120_0000, 0xa0_0000, 129, 10, 1, 1048576);
    lemma_figure(0x4140_0000, 0xc0_0000, 129, 12, 1, 1048576);
    lemma_figure(0x41a0_0000, 0xa0_0000, 130, 20, 1, 524288);
    lemma_figure(0x41f0_0000, 0xf0_0000, 130, 30, 1, 524288);
    lemma_figure(0x4220_0000, 0xa0_0000, 131, 40, 1, 262144);
    lemma_figure(0x469c_4000, 0x9c_4000, 140, 20000, 1, 512);
}

/// A chorus's figures are what they are called.
pub proof fn law_figures_of_chorus()
    ensures
        stands_for(chorus::MAX_FEEDBACK, 19, 20),
        stands_for(chorus::DEFAULT_RATE, 4, 5),
        stands_for(chorus::DEFAULT_DELAY, 8, 1),
{
    lemma2_to64();
    lemma2_to64_rest();
    lemma_figure(0x3f73_3333, 0xf3_3333, 125, 19, 20, 16777216);
    lemma_figure(0x3f4c_cccd, 0xcc_cccd, 125, 4, 5, 16777216);
    lemma_figure(0x4100_0000, 0x80_0000, 129, 8, 1, 1048576);
}

/// The shared constants are what they are called.
pub proof fn law_figures_of_constants()
    ensures
        stands_for(constants::ONE, 1, 1),
        stands_for(constants::MINUS_ONE, -1, 1),
        stands_for(constants::TWO, 2, 1),
        stands_for(constants::FOUR, 4, 1),
        stands_for(constants::HALF, 1, 2),
        stands_for(constants::THOUSANDTH, 1, 1000),
        stands_for(constants::TWO_PI, 6283185307, 1000000000),
{
    lemma2_to64();
    lemma2_to64_rest();
    lemma_figure(0x3f80_0000, 0x80_0000, 126, 1, 1, 8388608);
    lemma_negative(0x3f80_0000, 1, 1);
    lemma_figure(0x4000_0000, 0x80_0000, 127, 2, 1, 4194304);
    lemma_figure(0x4080_0000, 0x80_0000, 128, 4, 1, 2097152);
    lemma_figure(0x3f00_0000, 0x80_0000, 125, 1, 2, 16777216);
    lemma_figure(0x3a83_126f, 0x83_126f, 116, 1, 1000, 8589934592);
    lemma_figure(0x40c9_0fdb, 0xc9_0fdb, 128, 6283185307, 1000000000, 2097152);
}

/// The bounds of what is accepted are what they are called.
pub proof fn law_figures_of_envelope()
    ensures
        stands_for(envelope::MAX_HZ, 22050, 1),
        stands_for(envelope::MAX_AMPLITUDE, 8, 1),
        stands_for(envelope::MIN_AMPLITUDE, -8, 1),
        stands_for(envelope::MAX_STAGE_S, 60, 1),
        stands_for(envelope::MAX_Q, 64, 1),
        stands_for(envelope::MAX_LFO_HZ, 1000, 1),
        stands_for(envelope::MAX_LFO_LEVEL, 10000, 1),
        stands_for(envelope::MIN_LFO_LEVEL, -10000, 1),
        stands_for(envelope::MAX_GAIN, 64, 1),
        stands_for(envelope::MIN_GAIN, -64, 1),
        stands_for(envelope::MAX_SWEEP_HZ, 100, 1),
        stands_for(envelope::MAX_DELAY_MS, 100, 1),
        stands_for(envelope::MAX_CONNECTION_MAGNITUDE, 100000, 1),
        stands_for(envelope::MIN_CONNECTION_MAGNITUDE, -100000, 1),
        stands_for(envelope::MAX_BPM, 1000, 1),
        stands_for(envelope::MAX_BEATS, 100000, 1),
        stands_for(envelope::MIN_PITCH, 1, 1000),
        stands_for(envelope::MAX_PITCH, 64, 1),
{
    lemma2_to64();
    lemma2_to64_rest();
    lemma_figure(0x46ac_4400, 0xac_4400, 140, 22050, 1, 512);
    lemma_figure(0x4100_0000, 0x80_0000, 129, 8, 1, 1048576);
    lemma_negative(0x4100_0000, 8, 1);
    lemma_figure(0x4270_0000, 0xf0_0000, 131, 60, 1, 262144);
    lemma_figure(0x4280_0000, 0x80_0000, 132, 64, 1, 131072);
    lemma_figure(0x447a_0000, 0xfa_0000, 135, 1000, 1, 16384);
    lemma_figure(0x461c_4000, 0x9c_4000, 139, 10000, 1, 1024);
    lemma_negative(0x461c_4000, 10000, 1);
    lemma_negative(0x4280_0000, 64, 1);
    lemma_figure(0x42c8_0000, 0xc8_0000, 132, 100, 1, 131072);
    lemma_figure(0x47c3_5000, 0xc3_5000, 142, 100000, 1, 128);
    lemma_negative(0x47c3_5000, 100000, 1);
    lemma_figure(0x3a83_126f, 0x83_126f, 116, 1, 1000, 8589934592);
}

/// The filters' figures are what they are called.
pub proof fn law_figures_of_filter()
    ensures
        stands_for(filter::KILOHERTZ, 1000, 1),
        stands_for(filter::BUTTERWORTH, 7071067812, 10000000000),
        stands_for(filter::MIN_Q, 1, 1000),
        stands_for(filter::MIN_CUTOFF_HZ, 1, 1),
        stands_for(filter::NYQUIST_FRACTION, 499, 1000),
        stands_for(filter::MINUS_TWO, -2, 1),
{
    lemma2_to64();
    lemma2_to64_rest();
    lemma_figure(0x447a_0000, 0xfa_0000, 135, 1000, 1, 16384);
    lemma_figure(0x3f35_04f3, 0xb5_04f3, 125, 7071067812, 10000000000, 16777216);
    lemma_figure(0x3a83_126f, 0x83_126f, 116, 1, 1000, 8589934592);
    lemma_figure(0x3f80_0000, 0x80_0000, 126, 1, 1, 8388608);
    lemma_figure(0x3eff_7cee, 0xff_7cee, 124, 499, 1000, 33554432);
    lemma_figure(0x4000_0000, 0x80_0000, 127, 2, 1, 4194304);
    lemma_negative(0x4000_0000, 2, 1);
}

/// A recipe's mutation's figures are what they are called.
pub proof fn law_figures_of_lineage()
    ensures
        stands_for(lineage::BPM_MIN, 20, 1),
        stands_for(lineage::BPM_MAX, 300, 1),
        stands_for(lineage::BPM_HALF_OCTAVES, 1, 5),
        stands_for(lineage::VOLUME_HALF_RANGE, 1, 10),
{
    lemma2_to64();
    lemma2_to64_rest();
    lemma_figure(0x41a0_0000, 0xa0_0000, 130, 20, 1, 524288);
    lemma_figure(0x4396_0000, 0x96_0000, 134, 300, 1, 32768);
    lemma_figure(0x3e4c_cccd, 0xcc_cccd, 123, 1, 5, 67108864);
    lemma_figure(0x3dcc_cccd, 0xcc_cccd, 122, 1, 10, 134217728);
}

/// The mixdown's figures are what they are called.
pub proof fn law_figures_of_mixdown()
    ensures
        stands_for(mixdown::SIXTY, 60, 1),
{
    lemma2_to64();
    lemma2_to64_rest();
    lemma_figure(0x4270_0000, 0xf0_0000, 131, 60, 1, 262144);
}

/// The noises' figures are what they are called.
pub proof fn law_figures_of_noise()
    ensures
        stands_for(noise::PINK_DECAY_0, 99765, 100000),
        stands_for(noise::PINK_FEED_0, 99046, 1000000),
        stands_for(noise::PINK_DECAY_1, 963, 1000),
        stands_for(noise::PINK_FEED_1, 2965164, 10000000),
        stands_for(noise::PINK_DECAY_2, 57, 100),
        stands_for(noise::PINK_FEED_2, 10526913, 10000000),
        stands_for(noise::PINK_DIRECT, 1848, 10000),
        stands_for(noise::PINK_NORMALISE, 18, 100),
        stands_for(noise::BROWN_NORMALISE, 7, 2),
        stands_for(noise::BROWN_STEP, 2, 100),
        stands_for(noise::BROWN_LEAK_DIVISOR, 102, 100),
{
    lemma2_to64();
    lemma2_to64_rest();
    lemma_figure(0x3f7f_65fe, 0xff_65fe, 125, 99765, 100000, 16777216);
    lemma_figure(0x3dca_d8a1, 0xca_d8a1, 122, 99046, 1000000, 134217728);
    lemma_figure(0x3f76_872b, 0xf6_872b, 125, 963, 1000, 16777216);
    lemma_figure(0x3e97_d0ff, 0x97_d0ff, 124, 2965164, 10000000, 33554432);
    lemma_figure(0x3f11_eb85, 0x91_eb85, 125, 57, 100, 16777216);
    lemma_figure(0x3f86_be97, 0x86_be97, 126, 10526913, 10000000, 8388608);
    lemma_figure(0x3e3d_3c36, 0xbd_3c36, 123, 1848, 10000, 67108864);
    lemma_figure(0x3e38_51ec, 0xb8_51ec, 123, 18, 100, 67108864);
    lemma_figure(0x4060_0000, 0xe0_0000, 127, 7, 2, 4194304);
    lemma_figure(0x3ca3_d70a, 0xa3_d70a, 120, 2, 100, 536870912);
    lemma_figure(0x3f82_8f5c, 0x82_8f5c, 126, 102, 100, 8388608);
}

/// The oscillators' figures are what they are called.
pub proof fn law_figures_of_oscillator()
    ensures
        stands_for(oscillator::THIRD, 1, 3),
        stands_for(oscillator::CONCERT_PITCH, 440, 1),
        stands_for(oscillator::MAX_BLEP_DT, 1, 2),
{
    lemma2_to64();
    lemma2_to64_rest();
    lemma_figure(0x3eaa_aaab, 0xaa_aaab, 124, 1, 3, 33554432);
    lemma_figure(0x43dc_0000, 0xdc_0000, 134, 440, 1, 32768);
    lemma_figure(0x3f00_0000, 0x80_0000, 125, 1, 2, 16777216);
}

/// A reverb's figures are what they are called.
pub proof fn law_figures_of_reverb()
    ensures
        stands_for(reverb::TUNING_SAMPLE_RATE, 44100, 1),
        stands_for(reverb::ALLPASS_FEEDBACK, 1, 2),
        stands_for(reverb::FIXED_GAIN, 15, 1000),
        stands_for(reverb::ROOM_SCALE, 28, 100),
        stands_for(reverb::ROOM_OFFSET, 7, 10),
        stands_for(reverb::DAMP_SCALE, 4, 10),
        stands_for(reverb::DEFAULT_MIX, 3, 10),
{
    lemma2_to64();
    lemma2_to64_rest();
    lemma_figure(0x472c_4400, 0xac_4400, 141, 44100, 1, 256);
    lemma_figure(0x3f00_0000, 0x80_0000, 125, 1, 2, 16777216);
    lemma_figure(0x3c75_c28f, 0xf5_c28f, 119, 15, 1000, 1073741824);
    lemma_figure(0x3e8f_5c29, 0x8f_5c29, 124, 28, 100, 33554432);
    lemma_figure(0x3f33_3333, 0xb3_3333, 125, 7, 10, 16777216);
    lemma_figure(0x3ecc_cccd, 0xcc_cccd, 124, 4, 10, 33554432);
    lemma_figure(0x3e99_999a, 0x99_999a, 124, 3, 10, 33554432);
}

/// A recipe's figures are what they are called.
pub proof fn law_figures_of_sequence()
    ensures
        stands_for(sequence::DEFAULT_BPM, 120, 1),
{
    lemma2_to64();
    lemma2_to64_rest();
    lemma_figure(0x42f0_0000, 0xf0_0000, 132, 120, 1, 131072);
}

/// The full scale of sixteen-bit samples is what it is called.
pub proof fn law_figures_of_wav()
    ensures
        stands_for(wav::FULL_SCALE, 32767, 1),
{
    lemma2_to64();
    lemma2_to64_rest();
    lemma_figure(0x46ff_fe00, 0xff_fe00, 140, 32767, 1, 512);
}

/// The default configurations: concert pitch at full level for the
/// oscillators, half a level for the noises, a quick linear envelope, filters
/// at a kilohertz without emphasis, and effects that are mixed in part.
pub proof fn law_default_configurations_hold_their_figures()
    ensures
        stands_for(oscillator::SineOsc::preset().freq_hz.bits, 440, 1),
        oscillator::SineOsc::preset().phase_offset == F32::of(0),
        stands_for(oscillator::SineOsc::preset().amplitude.bits, 1, 1),
        stands_for(oscillator::SquareOsc::preset().freq_hz.bits, 440, 1),
        stands_for(oscillator::SquareOsc::preset().duty.bits, 1, 2),
        stands_for(oscillator::SquareOsc::preset().amplitude.bits, 1, 1),
        oscillator::SquareOsc::preset().anti_alias == oscillator::AntiAlias::Naive,
        stands_for(oscillator::SawtoothOsc::preset().freq_hz.bits, 440, 1),
        stands_for(oscillator::SawtoothOsc::preset().amplitude.bits, 1, 1),
        oscillator::SawtoothOsc::preset().polarity == oscillator::SawPolarity::Up,
        oscillator::SawtoothOsc::preset().anti_alias == oscillator::AntiAlias::Naive,
        stands_for(oscillator::TriangleOsc::preset().freq_hz.bits, 440, 1),
        stands_for(oscillator::TriangleOsc::preset().amplitude.bits, 1, 1),
        oscillator::TriangleOsc::preset().anti_alias == oscillator::AntiAlias::Naive,
        stands_for(noise::WhiteNoise::preset().amplitude.bits, 1, 2),
        stands_for(noise::PinkNoise::preset().amplitude.bits, 1, 2),
        stands_for(noise::BrownNoise::preset().amplitude.bits, 1, 2),
        stands_for(adsr::AdsrEnvelope::preset().attack_s.bits, 1, 100),
        stands_for(adsr::AdsrEnvelope::preset().decay_s.bits, 1, 10),
        stands_for(adsr::AdsrEnvelope::preset().sustain_level.bits, 7, 10),
        stands_for(adsr::AdsrEnvelope::preset().release_s.bits, 1, 5),
        adsr::AdsrEnvelope::preset().curve == adsr::AdsrCurve::Linear,
        stands_for(filter::BiquadLowpass::preset().cutoff_hz.bits, 1000, 1),
        stands_for(filter::BiquadLowpass::preset().q.bits, 7071067812, 10000000000),
        stands_for(filter::BiquadHighpass::preset().cutoff_hz.bits, 1000, 1),
        stands_for(filter::BiquadHighpass::preset().q.bits, 7071067812, 10000000000),
        stands_for(filter::BiquadBandpass::preset().center_hz.bits, 1000, 1),
        stands_for(filter::BiquadBandpass::preset().q.bits, 1, 1),
        stands_for(lfo::Lfo::preset().rate_hz.bits, 1, 1),
        stands_for(lfo::Lfo::preset().depth.bits, 1, 1),
        lfo::Lfo::preset().offset == F32::of(0),
        lfo::Lfo::preset().shape == lfo::LfoShape::Sine,
        stands_for(mix::Mix::preset().gain.bits, 1, 1),
        stands_for(mix::Gain::preset().gain.bits, 1, 1),
        gate::Gate::preset().invert == false,
        stands_for(chorus::Chorus::preset().rate_hz.bits, 4, 5),
        stands_for(chorus::Chorus::preset().depth_ms.bits, 2, 1),
        stands_for(chorus::Chorus::preset().base_delay_ms.bits, 8, 1),
        chorus::Chorus::preset().feedback == F32::of(0),
        stands_for(chorus::Chorus::preset().mix.bits, 1, 2),
        stands_for(reverb::Reverb::preset().room_size.bits, 1, 2),
        stands_for(reverb::Reverb::preset().damping.bits, 1, 2),
        stands_for(reverb::Reverb::preset().mix.bits, 3, 10),
{
    law_figures_of_adsr();
    law_figures_of_chorus();
    law_figures_of_constants();
    law_figures_of_filter();
    law_figures_of_oscillator();
    law_figures_of_reverb();
}

/// The default event is one beat of an unnamed instrument, as it is and at
/// full volume, at the start; the default recipe is four beats at two beats a
/// second with nothing in them; the default patch is one silent node.
pub proof fn law_default_scores_hold_their_figures()
    ensures
        sequence::EventView::preset().time_beats == F32::of(0),
        sequence::EventView::preset().instrument_id.len() == 0,
        stands_for(sequence::EventView::preset().pitch_multiplier.bits, 1, 1),
        stands_for(sequence::EventView::preset().volume.bits, 1, 1),
        stands_for(sequence::EventView::preset().gate_beats.bits, 1, 1),
        sequence::EventView::preset().release_beats == F32::of(0),
        sequence::EventView::preset().pitch_mode == sequence::PitchMode::Varispeed,
        stands_for(sequence::RecipeView::preset().bpm.bits, 120, 1),
        sequence::RecipeView::preset().sample_rate == 44100,
        stands_for(sequence::RecipeView::preset().duration_beats.bits, 4, 1),
        sequence::RecipeView::preset().loop_start_beats is None,
        sequence::RecipeView::preset().loop_crossfade_beats == F32::of(0),
        sequence::RecipeView::preset().instruments.len() == 0,
        sequence::RecipeView::preset().tracks.len() == 0,
        patch::PatchView::silent().seed == 0,
        patch::PatchView::silent().graph.output.0 == 0,
        patch::PatchView::silent().graph.nodes.len() == 1,
        patch::PatchView::silent().graph.nodes[0].id.0 == 0,
        patch::PatchView::silent().graph.nodes[0].kind == node::NodeKind::Silence,
        patch::PatchView::silent().graph.nodes[0].inputs.len() == 0,
{
    law_figures_of_constants();
    law_figures_of_sequence();
}

} // verus!
