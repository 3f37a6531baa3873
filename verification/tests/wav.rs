use symbios_audio::float::F32;
use symbios_audio::wav::{
    quantised, samples_to_wav_bytes, samples_to_wav_bytes_pcm16, wav_data_size, MAX_WAV_SAMPLES,
    MAX_WAV_SAMPLES_PCM16,
};

fn v(x: f32) -> F32 {
    F32::of(x.to_bits())
}

fn n(x: F32) -> f32 {
    f32::from_bits(x.bits)
}


fn vs(xs: &[f32]) -> Vec<F32> {
    xs.iter().map(|x| v(*x)).collect()
}

fn float_blob(samples: &[f32], sample_rate: u32) -> Vec<u8> {
    samples_to_wav_bytes(&vs(samples), sample_rate)
}

fn pcm16_blob(samples: &[f32], sample_rate: u32) -> Vec<u8> {
    samples_to_wav_bytes_pcm16(&vs(samples), sample_rate)
}

fn u32_at(bytes: &[u8], at: usize) -> u32 {
    u32::from_le_bytes([bytes[at], bytes[at + 1], bytes[at + 2], bytes[at + 3]])
}

fn u16_at(bytes: &[u8], at: usize) -> u16 {
    u16::from_le_bytes([bytes[at], bytes[at + 1]])
}

/// Walks the chunks of a blob: format code, bits, sample rate and data.
fn parse(bytes: &[u8]) -> (u16, u16, u32, &[u8]) {
    assert_eq!(&bytes[0..4], b"RIFF");
    assert_eq!(&bytes[8..12], b"WAVE");
    let mut pos = 12usize;
    let (mut format_code, mut bits, mut sample_rate) = (0u16, 0u16, 0u32);
    let mut data = None;
    while pos + 8 <= bytes.len() {
        let id = &bytes[pos..pos + 4];
        let size = u32_at(bytes, pos + 4) as usize;
        let body = pos + 8;
        if id == b"fmt " {
            format_code = u16_at(bytes, body);
            sample_rate = u32_at(bytes, body + 4);
            bits = u16_at(bytes, body + 14);
        } else if id == b"data" {
            data = Some(&bytes[body..body + size]);
        }
        pos = body + size;
    }
    (format_code, bits, sample_rate, data.expect("data chunk"))
}

fn parse_wav(bytes: &[u8]) -> (u16, u32, Vec<f32>) {
    let (format_code, _, sample_rate, data) = parse(bytes);
    let samples = data.chunks_exact(4).map(|b| f32::from_bits(u32_at(b, 0))).collect();
    (format_code, sample_rate, samples)
}

fn parse_wav_pcm16(bytes: &[u8]) -> (u16, u16, u32, Vec<i16>) {
    let (format_code, bits, sample_rate, data) = parse(bytes);
    let samples = data.chunks_exact(2).map(|b| i16::from_le_bytes([b[0], b[1]])).collect();
    (format_code, bits, sample_rate, samples)
}

#[test]
fn wav_header_has_riff_wave_fmt_fact_data_markers() {
    let bytes = float_blob(&[0.0_f32; 4], 44_100);
    assert_eq!(&bytes[0..4], b"RIFF");
    assert_eq!(&bytes[8..12], b"WAVE");
    assert_eq!(&bytes[12..16], b"fmt ");
    assert_eq!(&bytes[36..40], b"fact");
    assert_eq!(&bytes[48..52], b"data");
}

#[test]
fn format_code_is_ieee_float() {
    let bytes = float_blob(&[0.5_f32], 48_000);
    let (format_code, _, _) = parse_wav(&bytes);
    assert_eq!(format_code, 3, "expected IEEE float (3), got {format_code}");
}

#[test]
fn pcm16_header_and_quantisation_round_trip() {
    let bytes = pcm16_blob(&[0.0, 1.0, -1.0, 0.5], 22_050);
    let (format_code, bits, sr, samples) = parse_wav_pcm16(&bytes);
    assert_eq!(format_code, 1, "expected PCM (1), got {format_code}");
    assert_eq!(bits, 16);
    assert_eq!(sr, 22_050);
    assert_eq!(bytes.len(), 44 + 8);
    assert_eq!(samples[0], 0);
    assert_eq!(samples[1], i16::MAX);
    assert_eq!(samples[2], -i16::MAX);
    assert_eq!(samples[3], (0.5 * f32::from(i16::MAX)).round() as i16);
}

#[test]
fn pcm16_clamps_out_of_range_samples() {
    let bytes = pcm16_blob(&[2.0, -2.0], 44_100);
    let (_, _, _, samples) = parse_wav_pcm16(&bytes);
    assert_eq!(samples, vec![i16::MAX, -i16::MAX]);
}

#[test]
fn pcm16_is_half_the_bytes_of_float() {
    let s = [0.25_f32; 100];
    let f32_data = float_blob(&s, 44_100).len();
    let pcm16_data = pcm16_blob(&s, 44_100).len();
    assert_eq!(pcm16_data, 44 + 200);
    assert_eq!(f32_data, 56 + 400);
}

#[test]
fn sample_rate_round_trips_through_header() {
    for sr in [22_050_u32, 32_000, 44_100, 48_000, 96_000, 192_000] {
        let bytes = float_blob(&[0.0_f32; 1], sr);
        let (_, parsed_sr, _) = parse_wav(&bytes);
        assert_eq!(parsed_sr, sr);
    }
}

#[test]
fn samples_round_trip_bit_for_bit() {
    let original = vec![
        0.0_f32,
        1.0,
        -1.0,
        0.5,
        -0.5,
        f32::MIN_POSITIVE,
        -f32::MIN_POSITIVE,
        1e-9,
        -1e-9,
    ];
    let bytes = float_blob(&original, 44_100);
    let (_, _, back) = parse_wav(&bytes);
    assert_eq!(original.len(), back.len());
    for (i, (a, b)) in original.iter().zip(back.iter()).enumerate() {
        assert_eq!(a.to_bits(), b.to_bits(), "sample {i} bit-pattern mismatch: {a} → {b}");
    }
}

#[test]
fn riff_chunk_size_matches_actual_body_length() {
    let bytes = float_blob(&[0.0_f32; 100], 44_100);
    let declared = u32_at(&bytes, 4) as usize;
    assert_eq!(declared, bytes.len() - 8);
}

#[test]
fn data_chunk_size_matches_sample_byte_count() {
    let samples = vec![0.0_f32; 50];
    let bytes = float_blob(&samples, 44_100);
    let data_size = u32_at(&bytes, 52) as usize;
    assert_eq!(data_size, samples.len() * 4);
}

#[test]
fn empty_samples_buffer_yields_valid_header() {
    let bytes = float_blob(&[], 44_100);
    let (format_code, sr, samples) = parse_wav(&bytes);
    assert_eq!(format_code, 3);
    assert_eq!(sr, 44_100);
    assert!(samples.is_empty());
}

#[test]
fn wav_data_size_is_four_bytes_per_sample() {
    assert_eq!(wav_data_size(0), 0);
    assert_eq!(wav_data_size(1), 4);
    assert_eq!(wav_data_size(1_000), 4_000);
}

#[test]
fn the_longest_blobs_fill_the_size_fields() {
    assert_eq!(MAX_WAV_SAMPLES, (u32::MAX as usize - 48) / 4);
    assert_eq!(MAX_WAV_SAMPLES_PCM16, (u32::MAX as usize - 36) / 2);
    assert_eq!(wav_data_size(MAX_WAV_SAMPLES), 4 * MAX_WAV_SAMPLES as u32);
}

#[test]
fn every_byte_of_a_short_blob() {
    let bytes = float_blob(&[1.0], 44_100);
    let mut want = b"RIFF".to_vec();
    want.extend_from_slice(&52_u32.to_le_bytes());
    want.extend_from_slice(b"WAVEfmt ");
    want.extend_from_slice(&[16, 0, 0, 0, 3, 0, 1, 0]);
    want.extend_from_slice(&44_100_u32.to_le_bytes());
    want.extend_from_slice(&176_400_u32.to_le_bytes());
    want.extend_from_slice(&[4, 0, 32, 0]);
    want.extend_from_slice(b"fact");
    want.extend_from_slice(&[4, 0, 0, 0, 1, 0, 0, 0]);
    want.extend_from_slice(b"data");
    want.extend_from_slice(&[4, 0, 0, 0, 0, 0, 0x80, 0x3f]);
    assert_eq!(bytes, want);
    // A rate whose bytes per second do not fit states as many as fit.
    assert_eq!(u32_at(&float_blob(&[], 2_000_000_000), 28), u32::MAX);
    assert_eq!(u32_at(&pcm16_blob(&[], 22_050), 28), 44_100);
}

#[test]
fn quantised_samples_are_the_nearest_steps() {
    for (x, want) in [
        (0.0, 0),
        (-0.0, 0),
        (1.0, 32_767),
        (-1.0, -32_767),
        (9.0, 32_767),
        (f32::NEG_INFINITY, -32_767),
        (f32::NAN, 0),
        (0.5, 16_384),
        (-0.5, -16_384),
        (1.0 / 32_767.0, 1),
        (0.4 / 32_767.0, 0),
    ] {
        assert_eq!(quantised(v(x)), want, "{x}");
    }
    for i in -2_000..2_000 {
        let x = i as f32 / 1_777.0;
        let want = (x.clamp(-1.0, 1.0) * f32::from(i16::MAX)).round() as i16;
        assert_eq!(quantised(v(x)), want);
        assert_eq!(n(v(x)), x);
    }
}

#[test]
fn a_larger_sample_is_never_quantised_lower() {
    let mut last = i16::MIN;
    for i in -3_000..3_000 {
        let q = quantised(v(i as f32 / 2_500.0));
        assert!(q >= last);
        last = q;
    }
    assert!(quantised(v(f32::NEG_INFINITY)) <= quantised(v(-1.0)));
    assert_eq!(quantised(v(-0.0)), quantised(v(0.0)));
}

#[test]
fn integers_take_half_the_room_of_floats() {
    let samples = [0.5; 9];
    assert_eq!(2 * (pcm16_blob(&samples, 8_000).len() - 44), float_blob(&samples, 8_000).len() - 56);
}
