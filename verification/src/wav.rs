//! RIFF/WAVE encoding of mono buffers: 32-bit float and 16-bit integer.
//!
//! A blob is the `RIFF` header with the size of all that follows it, then
//! the chunks: `fmt `, for floats `fact` with the number of samples, and
//! `data`.  All numbers are little-endian.
use crate::accuracy;
use crate::accuracy::PARTS;
use crate::arith::Parts;
use crate::constants::{MINUS_ONE, ONE};
use crate::float::F32;
use crate::numbers;
use crate::rounding;
use crate::rounding::Width;
use vstd::arithmetic::power2::*;
use vstd::prelude::*;

verus! {

/// The most 32-bit samples that fit the 32-bit size fields of one blob.
pub const MAX_WAV_SAMPLES: usize = 1_073_741_811;

/// The most 16-bit samples that fit the 32-bit size fields of one blob.
pub const MAX_WAV_SAMPLES_PCM16: usize = 2_147_483_629;

/// Format code of floats.
pub const FORMAT_IEEE_FLOAT: u16 = 3;

/// Format code of integers.
pub const FORMAT_PCM: u16 = 1;

/// Bits of `32767.0`, full scale of a 16-bit integer.
pub const FULL_SCALE: u32 = 0x46ff_fe00;

/// The two bytes of a number, the low one first.
pub open spec fn le16(n: u16) -> Seq<u8> {
    seq![(n % 256) as u8, (n / 256) as u8]
}

/// The four bytes of a number, the low one first.
pub open spec fn le32(n: u32) -> Seq<u8> {
    seq![
        (n % 256) as u8,
        (n / 256 % 256) as u8,
        (n / 65536 % 256) as u8,
        (n / 16777216) as u8,
    ]
}

/// A chunk name.
pub open spec fn tag(a: char, b: char, c: char, d: char) -> Seq<u8> {
    seq![a as u8, b as u8, c as u8, d as u8]
}

/// The container: the size of what follows it and the form.
pub open spec fn riff(size: u32) -> Seq<u8> {
    tag('R', 'I', 'F', 'F') + le32(size) + tag('W', 'A', 'V', 'E')
}

/// The format chunk of a mono blob.
pub open spec fn fmt_chunk(format: u16, sample_rate: u32, byte_rate: u32, block: u16) -> Seq<u8> {
    tag('f', 'm', 't', ' ') + le32(16) + le16(format) + le16(1) + le32(sample_rate) + le32(
        byte_rate,
    ) + le16(block) + le16((8 * block) as u16)
}

/// The chunk with the number of samples.
pub open spec fn fact_chunk(count: u32) -> Seq<u8> {
    tag('f', 'a', 'c', 't') + le32(4) + le32(count)
}

/// The data chunk.
pub open spec fn data_chunk(data: Seq<u8>) -> Seq<u8> {
    tag('d', 'a', 't', 'a') + le32(data.len() as u32) + data
}

/// Bytes per second, as much of it as the field can hold.
pub open spec fn byte_rate(sample_rate: u32, block: int) -> u32 {
    if sample_rate * block <= u32::MAX {
        (sample_rate * block) as u32
    } else {
        u32::MAX
    }
}

/// The samples' bit patterns, one behind the other.
pub open spec fn float_data(samples: Seq<F32>) -> Seq<u8>
    decreases samples.len(),
{
    if samples.len() == 0 {
        Seq::empty()
    } else {
        float_data(samples.drop_last()) + le32(samples.last().bits)
    }
}

/// A complete blob of floats.
pub open spec fn float_wav(samples: Seq<F32>, sample_rate: u32) -> Seq<u8> {
    riff((48 + 4 * samples.len()) as u32) + fmt_chunk(
        FORMAT_IEEE_FLOAT,
        sample_rate,
        byte_rate(sample_rate, 4),
        4,
    ) + fact_chunk(samples.len() as u32) + data_chunk(float_data(samples))
}

/// A sample as a 16-bit integer: between minus and plus full scale, to the
/// nearest.
pub open spec fn spec_quantised(s: F32) -> i16 {
    s.clamp(F32::of(MINUS_ONE), F32::of(ONE)).times(F32::of(FULL_SCALE)).round().to_i16()
}

/// A sample as a 16-bit integer: between minus and plus full scale, to the
/// nearest.
#[verifier::when_used_as_spec(spec_quantised)]
pub fn quantised(s: F32) -> (r: i16)
    ensures
        r == quantised(s),
{
    proof {
        reveal(F32::spec_le);
        reveal(F32::spec_lt);
    }
    s.clamp(F32::of(MINUS_ONE), F32::of(ONE)).times(F32::of(FULL_SCALE)).round().to_i16()
}

/// A signed number as the unsigned one with the same bits.
pub open spec fn twos_complement(n: i16) -> u16 {
    if n < 0 {
        (n + 0x1_0000) as u16
    } else {
        n as u16
    }
}

/// The quantised samples, one behind the other.
pub open spec fn pcm16_data(samples: Seq<F32>) -> Seq<u8>
    decreases samples.len(),
{
    if samples.len() == 0 {
        Seq::empty()
    } else {
        pcm16_data(samples.drop_last()) + le16(twos_complement(quantised(samples.last())))
    }
}

/// A complete blob of 16-bit integers.
pub open spec fn pcm16_wav(samples: Seq<F32>, sample_rate: u32) -> Seq<u8> {
    riff((36 + 2 * samples.len()) as u32) + fmt_chunk(
        FORMAT_PCM,
        sample_rate,
        byte_rate(sample_rate, 2),
        2,
    ) + data_chunk(pcm16_data(samples))
}

/// Bytes per second, as much of it as the field can hold.
fn bytes_in_second(sample_rate: u32, block: u32) -> (r: u32)
    requires
        block <= 8,
    ensures
        r == byte_rate(sample_rate, block as int),
{
    proof {
        assert(0 <= sample_rate * block <= u32::MAX * 8) by (nonlinear_arith)
            requires
                0 <= sample_rate <= u32::MAX,
                0 <= block <= 8,
        ;
    }
    let n: u64 = sample_rate as u64 * block as u64;
    if n <= u32::MAX as u64 {
        n as u32
    } else {
        u32::MAX
    }
}

/// Writes two bytes.
fn put16(buf: &mut Vec<u8>, n: u16)
    ensures
        final(buf)@ == old(buf)@ + le16(n),
{
    buf.push((n % 256) as u8);
    buf.push((n / 256) as u8);
    assert(buf@ =~= old(buf)@ + le16(n));
}

/// Writes four bytes.
fn put32(buf: &mut Vec<u8>, n: u32)
    ensures
        final(buf)@ == old(buf)@ + le32(n),
{
    buf.push((n % 256) as u8);
    buf.push((n / 256 % 256) as u8);
    buf.push((n / 65536 % 256) as u8);
    buf.push((n / 16777216) as u8);
    assert(buf@ =~= old(buf)@ + le32(n));
}

/// Writes a chunk name.
fn put_tag(buf: &mut Vec<u8>, a: char, b: char, c: char, d: char)
    ensures
        final(buf)@ == old(buf)@ + tag(a, b, c, d),
{
    buf.push(a as u8);
    buf.push(b as u8);
    buf.push(c as u8);
    buf.push(d as u8);
    assert(buf@ =~= old(buf)@ + tag(a, b, c, d));
}

/// Writes the container and the format chunk.
fn put_header(
    buf: &mut Vec<u8>,
    size: u32,
    format: u16,
    sample_rate: u32,
    bytes_per_second: u32,
    block: u16,
)
    requires
        old(buf).len() == 0,
        block <= 8191,
    ensures
        final(buf)@ == riff(size) + fmt_chunk(format, sample_rate, bytes_per_second, block),
{
    put_tag(buf, 'R', 'I', 'F', 'F');
    put32(buf, size);
    put_tag(buf, 'W', 'A', 'V', 'E');
    assert(buf@ =~= riff(size));
    put_tag(buf, 'f', 'm', 't', ' ');
    put32(buf, 16);
    put16(buf, format);
    put16(buf, 1);
    put32(buf, sample_rate);
    put32(buf, bytes_per_second);
    put16(buf, block);
    put16(buf, 8 * block);
    assert(buf@ =~= riff(size) + fmt_chunk(format, sample_rate, bytes_per_second, block));
}

/// The size of the data of a blob of floats: four bytes per sample.
pub fn wav_data_size(num_samples: usize) -> (r: u32)
    requires
        num_samples <= MAX_WAV_SAMPLES,
    ensures
        r == 4 * num_samples,
        r + 48 <= u32::MAX,
{
    num_samples as u32 * 4
}

/// As many bytes as there are samples, times the size of one.
pub proof fn lemma_data_length(samples: Seq<F32>)
    ensures
        float_data(samples).len() == 4 * samples.len(),
        pcm16_data(samples).len() == 2 * samples.len(),
    decreases samples.len(),
{
    if samples.len() > 0 {
        lemma_data_length(samples.drop_last());
    }
}

/// Encodes samples as a complete blob of floats.
pub fn samples_to_wav_bytes(samples: &[F32], sample_rate: u32) -> (r: Vec<u8>)
    requires
        samples.len() <= MAX_WAV_SAMPLES,
    ensures
        r@ == float_wav(samples@, sample_rate),
        r.len() == 56 + 4 * samples.len(),
{
    let data_size: u32 = wav_data_size(samples.len());
    let bytes_per_second: u32 = bytes_in_second(sample_rate, 4);
    let mut buf: Vec<u8> = Vec::new();
    put_header(&mut buf, 48 + data_size, FORMAT_IEEE_FLOAT, sample_rate, bytes_per_second, 4);
    let ghost head: Seq<u8> = buf@;
    put_tag(&mut buf, 'f', 'a', 'c', 't');
    put32(&mut buf, 4);
    put32(&mut buf, samples.len() as u32);
    assert(buf@ =~= head + fact_chunk(samples.len() as u32));
    put_tag(&mut buf, 'd', 'a', 't', 'a');
    put32(&mut buf, data_size);
    let ghost front: Seq<u8> = buf@;
    let mut i: usize = 0;
    assert(front =~= front + float_data(samples@.take(0)));
    while i < samples.len()
        invariant
            i <= samples.len(),
            buf@ == front + float_data(samples@.take(i as int)),
        decreases samples.len() - i,
    {
        let ghost so_far: Seq<u8> = buf@;
        put32(&mut buf, samples[i].bits);
        assert(samples@.take(i + 1).drop_last() =~= samples@.take(i as int));
        assert(samples@.take(i + 1).last() == samples@[i as int]);
        assert(buf@ =~= front + float_data(samples@.take(i + 1)));
        i = i + 1;
    }
    assert(samples@.take(i as int) =~= samples@);
    proof {
        lemma_data_length(samples@);
    }
    assert(buf@ =~= float_wav(samples@, sample_rate));
    buf
}

/// Encodes samples as a complete blob of 16-bit integers.
pub fn samples_to_wav_bytes_pcm16(samples: &[F32], sample_rate: u32) -> (r: Vec<u8>)
    requires
        samples.len() <= MAX_WAV_SAMPLES_PCM16,
    ensures
        r@ == pcm16_wav(samples@, sample_rate),
        r.len() == 44 + 2 * samples.len(),
{
    let data_size: u32 = samples.len() as u32 * 2;
    let bytes_per_second: u32 = bytes_in_second(sample_rate, 2);
    let mut buf: Vec<u8> = Vec::new();
    put_header(&mut buf, 36 + data_size, FORMAT_PCM, sample_rate, bytes_per_second, 2);
    put_tag(&mut buf, 'd', 'a', 't', 'a');
    put32(&mut buf, data_size);
    let ghost front: Seq<u8> = buf@;
    let mut i: usize = 0;
    assert(front =~= front + pcm16_data(samples@.take(0)));
    while i < samples.len()
        invariant
            i <= samples.len(),
            buf@ == front + pcm16_data(samples@.take(i as int)),
        decreases samples.len() - i,
    {
        let q: i16 = quantised(samples[i]);
        let u: u16 = if q < 0 {
            (q as i32 + 0x1_0000) as u16
        } else {
            q as u16
        };
        put16(&mut buf, u);
        assert(samples@.take(i + 1).drop_last() =~= samples@.take(i as int));
        assert(samples@.take(i + 1).last() == samples@[i as int]);
        assert(buf@ =~= front + pcm16_data(samples@.take(i + 1)));
        i = i + 1;
    }
    assert(samples@.take(i as int) =~= samples@);
    proof {
        lemma_data_length(samples@);
    }
    assert(buf@ =~= pcm16_wav(samples@, sample_rate));
    buf
}

/// The number in two bytes.
pub open spec fn u16_at(bytes: Seq<u8>, at: int) -> int {
    bytes[at] + 256 * bytes[at + 1]
}

/// The number in four bytes.
pub open spec fn u32_at(bytes: Seq<u8>, at: int) -> int {
    u16_at(bytes, at) + 65536 * u16_at(bytes, at + 2)
}

/// The signed number in two bytes.
pub open spec fn i16_at(bytes: Seq<u8>, at: int) -> int {
    if u16_at(bytes, at) < 0x8000 {
        u16_at(bytes, at)
    } else {
        u16_at(bytes, at) - 0x1_0000
    }
}

/// The body of the first chunk of a name, among the chunks from `at` on.
pub open spec fn chunk_from(blob: Seq<u8>, at: int, name: Seq<u8>) -> Option<Seq<u8>>
    decreases blob.len() - at,
{
    if at < 0 || at + 8 > blob.len() {
        None
    } else {
        let end: int = at + 8 + u32_at(blob, at + 4);
        if end > blob.len() {
            None
        } else if blob.subrange(at, at + 4) == name {
            Some(blob.subrange(at + 8, end))
        } else {
            chunk_from(blob, end, name)
        }
    }
}

/// The body of the first chunk of a name in a blob.
pub open spec fn chunk(blob: Seq<u8>, name: Seq<u8>) -> Option<Seq<u8>> {
    chunk_from(blob, 12, name)
}

/// A blob starts with a container that states its size.
pub open spec fn is_container(blob: Seq<u8>) -> bool {
    &&& blob.len() >= 12
    &&& blob.subrange(0, 4) == tag('R', 'I', 'F', 'F')
    &&& u32_at(blob, 4) == blob.len() - 8
    &&& blob.subrange(8, 12) == tag('W', 'A', 'V', 'E')
}

/// A blob's format chunk.
pub open spec fn states_format(blob: Seq<u8>, format: int, sample_rate: int, bits: int) -> bool {
    chunk(blob, tag('f', 'm', 't', ' ')) matches Some(body) && {
        &&& body.len() == 16
        &&& u16_at(body, 0) == format
        &&& u16_at(body, 2) == 1
        &&& u32_at(body, 4) == sample_rate
        &&& u32_at(body, 8) == (if sample_rate * (bits / 8) <= u32::MAX {
            sample_rate * (bits / 8)
        } else {
            u32::MAX as int
        })
        &&& u16_at(body, 12) == bits / 8
        &&& u16_at(body, 14) == bits
    }
}

/// The bit patterns in the data of a blob of floats.
pub open spec fn floats_in(data: Seq<u8>) -> Seq<F32> {
    Seq::new(data.len() / 4, |i: int| F32 { bits: u32_at(data, 4 * i) as u32 })
}

/// The numbers in the data of a blob of 16-bit integers.
pub open spec fn integers_in(data: Seq<u8>) -> Seq<i16> {
    Seq::new(data.len() / 2, |i: int| i16_at(data, 2 * i) as i16)
}

/// Where the bytes of a sample stand in the data.
proof fn lemma_data_at(samples: Seq<F32>, i: int)
    requires
        0 <= i < samples.len(),
    ensures
        u32_at(float_data(samples), 4 * i) == samples[i].bits,
        i16_at(pcm16_data(samples), 2 * i) == quantised(samples[i]),
    decreases samples.len(),
{
    let front: Seq<F32> = samples.drop_last();
    lemma_data_length(front);
    lemma_data_length(samples);
    let a: Seq<u8> = float_data(samples);
    let b: Seq<u8> = pcm16_data(samples);
    if i < front.len() {
        lemma_data_at(front, i);
        assert(a[4 * i] == float_data(front)[4 * i]);
        assert(a[4 * i + 1] == float_data(front)[4 * i + 1]);
        assert(a[4 * i + 2] == float_data(front)[4 * i + 2]);
        assert(a[4 * i + 3] == float_data(front)[4 * i + 3]);
        assert(b[2 * i] == pcm16_data(front)[2 * i]);
        assert(b[2 * i + 1] == pcm16_data(front)[2 * i + 1]);
    } else {
        let n: u32 = samples.last().bits;
        assert(a[4 * i] == le32(n)[0]);
        assert(a[4 * i + 1] == le32(n)[1]);
        assert(a[4 * i + 2] == le32(n)[2]);
        assert(a[4 * i + 3] == le32(n)[3]);
        let k: u16 = twos_complement(quantised(samples.last()));
        assert(b[2 * i] == le16(k)[0]);
        assert(b[2 * i + 1] == le16(k)[1]);
    }
}

/// Four bytes hold the number that was written, and two bytes do.
proof fn lemma_numbers_read_back(n: u32, k: u16)
    ensures
        le32(n).len() == 4,
        u32_at(le32(n), 0) == n,
        le16(k).len() == 2,
        u16_at(le16(k), 0) == k,
{
}

/// What a reader finds of a part of some bytes.
proof fn lemma_part(bytes: Seq<u8>, at: int, part: Seq<u8>, i: int)
    requires
        0 <= at,
        at + part.len() <= bytes.len(),
        bytes.subrange(at, at + part.len()) == part,
        0 <= i,
    ensures
        i + 2 <= part.len() ==> u16_at(bytes, at + i) == u16_at(part, i),
        i + 4 <= part.len() ==> u32_at(bytes, at + i) == u32_at(part, i),
        forall|j: int, k: int|
            0 <= j <= k <= part.len() ==> #[trigger] part.subrange(j, k) == bytes.subrange(
                at + j,
                at + k,
            ),
{
    assert(forall|j: int| 0 <= j < part.len() ==> #[trigger] part[j] == bytes[at + j]);
    assert forall|j: int, k: int| 0 <= j <= k <= part.len() implies #[trigger] part.subrange(j, k)
        == bytes.subrange(at + j, at + k) by {
        assert(part.subrange(j, k) =~= bytes.subrange(at + j, at + k));
    }
    if i + 2 <= part.len() {
        assert(part[i] == bytes[at + i] && part[i + 1] == bytes[at + i + 1]);
    }
    if i + 4 <= part.len() {
        assert(part[i + 2] == bytes[at + i + 2] && part[i + 3] == bytes[at + i + 3]);
    }
}

/// A chunk stands at a place of a blob.
#[verifier::opaque]
spec fn holds(blob: Seq<u8>, at: int, name: Seq<u8>, body: Seq<u8>) -> bool {
    &&& 0 <= at
    &&& name.len() == 4
    &&& body.len() <= u32::MAX
    &&& at + 8 + body.len() <= blob.len()
    &&& blob.subrange(at, at + 8 + body.len()) == name + le32(body.len() as u32) + body
}

/// A chunk is found where it stands, and others behind it.
proof fn lemma_chunk(blob: Seq<u8>, at: int, name: Seq<u8>, body: Seq<u8>, other: Seq<u8>)
    requires
        holds(blob, at, name, body),
    ensures
        chunk_from(blob, at, name) == Some(body),
        other != name ==> chunk_from(blob, at, other) == chunk_from(
            blob,
            at + 8 + body.len(),
            other,
        ),
{
    reveal(holds);
    let n: Seq<u8> = le32(body.len() as u32);
    let whole: Seq<u8> = name + n + body;
    lemma_numbers_read_back(body.len() as u32, 0);
    assert(whole.subrange(0, 4) =~= name);
    assert(whole.subrange(4, 8) =~= n);
    assert(whole.subrange(8, whole.len() as int) =~= body);
    lemma_part(blob, at, whole, 0);
    lemma_part(blob, at + 4, n, 0);
}

/// Chunks with different names, one behind the other, are all found.
proof fn lemma_three_chunks(
    blob: Seq<u8>,
    fmt: Seq<u8>,
    body: Seq<u8>,
    fact: Seq<u8>,
    count: Seq<u8>,
    name: Seq<u8>,
    data: Seq<u8>,
)
    requires
        fmt != fact,
        fmt != name,
        fact != name,
        holds(blob, 12, fmt, body),
        holds(blob, 20int + body.len(), fact, count),
        holds(blob, 28int + body.len() + count.len(), name, data),
    ensures
        chunk(blob, fmt) == Some(body),
        chunk(blob, fact) == Some(count),
        chunk(blob, name) == Some(data),
{
    lemma_chunk(blob, 12, fmt, body, fact);
    lemma_chunk(blob, 12, fmt, body, name);
    lemma_chunk(blob, 20int + body.len(), fact, count, name);
    lemma_chunk(blob, 28int + body.len() + count.len(), name, data, name);
}

/// The pieces of a sequence that was put together of four.
proof fn lemma_pieces(a: Seq<u8>, b: Seq<u8>, c: Seq<u8>, d: Seq<u8>)
    ensures
        ({
            let whole: Seq<u8> = a + b + c + d;
            let i: int = a.len() as int;
            let j: int = i + b.len();
            let k: int = j + c.len();
            &&& whole.len() == k + d.len()
            &&& whole.subrange(0, i) == a
            &&& whole.subrange(i, j) == b
            &&& whole.subrange(j, k) == c
            &&& whole.subrange(k, whole.len() as int) == d
        }),
{
    let whole: Seq<u8> = a + b + c + d;
    let i: int = a.len() as int;
    let j: int = i + b.len();
    let k: int = j + c.len();
    assert(whole.subrange(0, i) =~= a);
    assert(whole.subrange(i, j) =~= b);
    assert(whole.subrange(j, k) =~= c);
    assert(whole.subrange(k, whole.len() as int) =~= d);
}

/// The body of the format chunk of a mono blob.
spec fn fmt_body(format: u16, sample_rate: u32, byte_rate: u32, block: u16) -> Seq<u8> {
    le16(format) + le16(1) + le32(sample_rate) + le32(byte_rate) + le16(block) + le16(
        (8 * block) as u16,
    )
}

/// What stands in a format chunk.
proof fn lemma_fmt(format: u16, sample_rate: u32, byte_rate: u32, block: u16)
    requires
        block <= 8,
    ensures
        fmt_chunk(format, sample_rate, byte_rate, block) == tag('f', 'm', 't', ' ') + le32(16)
            + fmt_body(format, sample_rate, byte_rate, block),
        ({
            let body: Seq<u8> = fmt_body(format, sample_rate, byte_rate, block);
            &&& body.len() == 16
            &&& u16_at(body, 0) == format
            &&& u16_at(body, 2) == 1
            &&& u32_at(body, 4) == sample_rate
            &&& u32_at(body, 8) == byte_rate
            &&& u16_at(body, 12) == block
            &&& u16_at(body, 14) == 8 * block
        }),
{
    let body: Seq<u8> = fmt_body(format, sample_rate, byte_rate, block);
    assert(fmt_chunk(format, sample_rate, byte_rate, block) =~= tag('f', 'm', 't', ' ') + le32(16)
        + body);
    assert(body.subrange(0, 2) =~= le16(format));
    assert(body.subrange(2, 4) =~= le16(1));
    assert(body.subrange(4, 8) =~= le32(sample_rate));
    assert(body.subrange(8, 12) =~= le32(byte_rate));
    assert(body.subrange(12, 14) =~= le16(block));
    assert(body.subrange(14, 16) =~= le16((8 * block) as u16));
    lemma_numbers_read_back(sample_rate, format);
    lemma_numbers_read_back(byte_rate, 1);
    lemma_numbers_read_back(0, block);
    lemma_numbers_read_back(0, (8 * block) as u16);
    lemma_part(body, 0, le16(format), 0);
    lemma_part(body, 2, le16(1), 0);
    lemma_part(body, 4, le32(sample_rate), 0);
    lemma_part(body, 8, le32(byte_rate), 0);
    lemma_part(body, 12, le16(block), 0);
    lemma_part(body, 14, le16((8 * block) as u16), 0);
}

/// What stands in a container.
proof fn lemma_riff(blob: Seq<u8>, size: u32)
    requires
        blob.len() >= 12,
        blob.subrange(0, 12) == riff(size),
        size == blob.len() - 8,
    ensures
        is_container(blob),
{
    let head: Seq<u8> = riff(size);
    assert(head.len() == 12);
    assert(head.subrange(0, 4) =~= tag('R', 'I', 'F', 'F'));
    assert(head.subrange(4, 8) =~= le32(size));
    assert(head.subrange(8, 12) =~= tag('W', 'A', 'V', 'E'));
    lemma_numbers_read_back(size, 0);
    lemma_part(blob, 0, head, 0);
    lemma_part(blob, 4, le32(size), 0);
}

/// The chunk names differ.
proof fn lemma_names()
    ensures
        tag('f', 'm', 't', ' ') != tag('f', 'a', 'c', 't'),
        tag('f', 'm', 't', ' ') != tag('d', 'a', 't', 'a'),
        tag('f', 'a', 'c', 't') != tag('d', 'a', 't', 'a'),
        tag('f', 'm', 't', ' ').len() == 4,
        tag('f', 'a', 'c', 't').len() == 4,
        tag('d', 'a', 't', 'a').len() == 4,
{
    assert(tag('f', 'm', 't', ' ')[1] != tag('f', 'a', 'c', 't')[1]);
    assert(tag('f', 'm', 't', ' ')[0] != tag('d', 'a', 't', 'a')[0]);
    assert(tag('f', 'a', 'c', 't')[0] != tag('d', 'a', 't', 'a')[0]);
}

/// How long the chunks in front of the data are.
proof fn lemma_head_lengths(format: u16, sample_rate: u32, rate: u32, block: u16, count: u32)
    requires
        block <= 8,
    ensures
        riff(count).len() == 12,
        fmt_chunk(format, sample_rate, rate, block).len() == 24,
        fact_chunk(count).len() == 12,
        le32(count).len() == 4,
{
    lemma_fmt(format, sample_rate, rate, block);
    lemma_names();
    lemma_numbers_read_back(count, 0);
    lemma_numbers_read_back(16, 0);
    lemma_numbers_read_back(4, 0);
}

/// Where the parts of a blob of floats stand.
proof fn lemma_float_layout(samples: Seq<F32>, sample_rate: u32)
    requires
        samples.len() <= MAX_WAV_SAMPLES,
    ensures
        ({
            let blob: Seq<u8> = float_wav(samples, sample_rate);
            let rate: u32 = byte_rate(sample_rate, 4);
            let size: u32 = (48 + 4 * samples.len()) as u32;
            &&& blob.len() >= 12
            &&& blob.subrange(0, 12) == riff(size)
            &&& size == blob.len() - 8
            &&& holds(
                blob,
                12,
                tag('f', 'm', 't', ' '),
                fmt_body(FORMAT_IEEE_FLOAT, sample_rate, rate, 4),
            )
            &&& holds(blob, 36, tag('f', 'a', 'c', 't'), le32(samples.len() as u32))
            &&& holds(blob, 48, tag('d', 'a', 't', 'a'), float_data(samples))
        }),
{
    let data: Seq<u8> = float_data(samples);
    let rate: u32 = byte_rate(sample_rate, 4);
    let count: u32 = samples.len() as u32;
    let size: u32 = (48 + 4 * samples.len()) as u32;
    reveal(holds);
    lemma_data_length(samples);
    lemma_names();
    lemma_fmt(FORMAT_IEEE_FLOAT, sample_rate, rate, 4);
    lemma_head_lengths(FORMAT_IEEE_FLOAT, sample_rate, rate, 4, size);
    lemma_head_lengths(FORMAT_IEEE_FLOAT, sample_rate, rate, 4, count);
    lemma_numbers_read_back(data.len() as u32, 0);
    lemma_pieces(
        riff(size),
        fmt_chunk(FORMAT_IEEE_FLOAT, sample_rate, rate, 4),
        fact_chunk(count),
        data_chunk(data),
    );
}

/// The data of a blob are the samples, bit for bit, or the quantised ones.
proof fn lemma_data_reads_back(samples: Seq<F32>)
    ensures
        floats_in(float_data(samples)) == samples,
        integers_in(pcm16_data(samples)) == samples.map_values(|s: F32| quantised(s)),
{
    let whole: Seq<i16> = samples.map_values(|s: F32| quantised(s));
    let floats: Seq<F32> = floats_in(float_data(samples));
    let integers: Seq<i16> = integers_in(pcm16_data(samples));
    lemma_data_length(samples);
    assert forall|i: int| 0 <= i < samples.len() implies floats[i] == samples[i] && integers[i]
        == whole[i] by {
        lemma_data_at(samples, i);
    }
    assert(floats =~= samples);
    assert(integers =~= whole);
}

/// A blob of floats reads back: it is one container, its format chunk says
/// that it holds 32-bit floats at the given rate, its `fact` chunk how many,
/// and its data are the samples, bit for bit.
pub proof fn law_floats_read_back(samples: Seq<F32>, sample_rate: u32)
    requires
        samples.len() <= MAX_WAV_SAMPLES,
    ensures
        is_container(float_wav(samples, sample_rate)),
        states_format(float_wav(samples, sample_rate), 3, sample_rate as int, 32),
        chunk(float_wav(samples, sample_rate), tag('f', 'a', 'c', 't')) matches Some(body)
            && body.len() == 4 && u32_at(body, 0) == samples.len(),
        chunk(float_wav(samples, sample_rate), tag('d', 'a', 't', 'a')) matches Some(data)
            && floats_in(data) == samples,
{
    let blob: Seq<u8> = float_wav(samples, sample_rate);
    let rate: u32 = byte_rate(sample_rate, 4);
    lemma_float_layout(samples, sample_rate);
    lemma_fmt(FORMAT_IEEE_FLOAT, sample_rate, rate, 4);
    lemma_numbers_read_back(samples.len() as u32, 0);
    lemma_names();
    lemma_three_chunks(
        blob,
        tag('f', 'm', 't', ' '),
        fmt_body(FORMAT_IEEE_FLOAT, sample_rate, rate, 4),
        tag('f', 'a', 'c', 't'),
        le32(samples.len() as u32),
        tag('d', 'a', 't', 'a'),
        float_data(samples),
    );
    lemma_riff(blob, (48 + 4 * samples.len()) as u32);
    lemma_data_reads_back(samples);
}

/// Where the parts of a blob of 16-bit integers stand.
proof fn lemma_integer_layout(samples: Seq<F32>, sample_rate: u32)
    requires
        samples.len() <= MAX_WAV_SAMPLES_PCM16,
    ensures
        ({
            let blob: Seq<u8> = pcm16_wav(samples, sample_rate);
            let rate: u32 = byte_rate(sample_rate, 2);
            let size: u32 = (36 + 2 * samples.len()) as u32;
            &&& blob.len() >= 12
            &&& blob.subrange(0, 12) == riff(size)
            &&& size == blob.len() - 8
            &&& holds(
                blob,
                12,
                tag('f', 'm', 't', ' '),
                fmt_body(FORMAT_PCM, sample_rate, rate, 2),
            )
            &&& holds(blob, 36, tag('d', 'a', 't', 'a'), pcm16_data(samples))
        }),
{
    let data: Seq<u8> = pcm16_data(samples);
    let rate: u32 = byte_rate(sample_rate, 2);
    let size: u32 = (36 + 2 * samples.len()) as u32;
    let head: Seq<u8> = fmt_chunk(FORMAT_PCM, sample_rate, rate, 2);
    reveal(holds);
    lemma_data_length(samples);
    lemma_names();
    lemma_fmt(FORMAT_PCM, sample_rate, rate, 2);
    lemma_head_lengths(FORMAT_PCM, sample_rate, rate, 2, size);
    lemma_numbers_read_back(data.len() as u32, 0);
    assert(riff(size) + head + Seq::<u8>::empty() =~= riff(size) + head);
    lemma_pieces(riff(size), head, Seq::empty(), data_chunk(data));
}

/// A blob of 16-bit integers reads back: it is one container, its format
/// chunk says that it holds 16-bit integers at the given rate, and its data
/// are the quantised samples.
pub proof fn law_integers_read_back(samples: Seq<F32>, sample_rate: u32)
    requires
        samples.len() <= MAX_WAV_SAMPLES_PCM16,
    ensures
        is_container(pcm16_wav(samples, sample_rate)),
        states_format(pcm16_wav(samples, sample_rate), 1, sample_rate as int, 16),
        chunk(pcm16_wav(samples, sample_rate), tag('d', 'a', 't', 'a')) matches Some(data)
            && integers_in(data) == samples.map_values(|s: F32| quantised(s)),
{
    let blob: Seq<u8> = pcm16_wav(samples, sample_rate);
    let rate: u32 = byte_rate(sample_rate, 2);
    let body: Seq<u8> = fmt_body(FORMAT_PCM, sample_rate, rate, 2);
    let fmt: Seq<u8> = tag('f', 'm', 't', ' ');
    let name: Seq<u8> = tag('d', 'a', 't', 'a');
    lemma_integer_layout(samples, sample_rate);
    lemma_fmt(FORMAT_PCM, sample_rate, rate, 2);
    lemma_names();
    lemma_chunk(blob, 12, fmt, body, name);
    lemma_chunk(blob, 36, name, pcm16_data(samples), name);
    lemma_riff(blob, (36 + 2 * samples.len()) as u32);
    lemma_data_reads_back(samples);
}

/// How long the blobs are: the data of one of 16-bit integers take half the
/// room that those of one of floats take.
pub proof fn law_integers_take_half_the_room(samples: Seq<F32>, sample_rate: u32)
    requires
        samples.len() <= MAX_WAV_SAMPLES,
    ensures
        float_wav(samples, sample_rate).len() == 56 + 4 * samples.len(),
        pcm16_wav(samples, sample_rate).len() == 44 + 2 * samples.len(),
{
    lemma_float_layout(samples, sample_rate);
    lemma_integer_layout(samples, sample_rate);
}

/// The integer nearest to a number of units that is not negative, a half
/// upward.
spec fn half_up(size: int) -> int {
    let u: int = numbers::scale();
    if 2 * (size % u) >= u {
        size / u + 1
    } else {
        size / u
    }
}

/// The nearest integers are ordered as the numbers.
proof fn lemma_half_up_order(a: int, b: int)
    requires
        0 <= a <= b,
    ensures
        0 <= half_up(a) <= half_up(b),
{
    let u: int = numbers::scale();
    lemma_pow2_pos(149);
    vstd::arithmetic::div_mod::lemma_div_is_ordered(a, b, u);
    vstd::arithmetic::div_mod::lemma_div_pos_is_pos(a, u);
    vstd::arithmetic::div_mod::lemma_fundamental_div_mod(a, u);
    vstd::arithmetic::div_mod::lemma_fundamental_div_mod(b, u);
}

/// The nearest integer to a number of units within full scale is within it.
proof fn lemma_half_up_bounded(size: int)
    requires
        0 <= size <= 32767 * numbers::scale(),
    ensures
        0 <= half_up(size) <= 32767,
        size == 32767 * numbers::scale() ==> half_up(size) == 32767,
{
    let u: int = numbers::scale();
    lemma_pow2_pos(149);
    lemma_half_up_order(size, 32767 * u);
    vstd::arithmetic::mul::lemma_mul_is_commutative(32767, u);
    vstd::arithmetic::div_mod::lemma_fundamental_div_mod_converse(32767 * u, u, 32767, 0);
}

/// An integer within full scale, as a number, is that integer again.
proof fn lemma_integer_back(neg: bool, n: int)
    requires
        0 <= n <= 32767,
    ensures
        F32::of_parts(Parts::integer(Width::Single, neg, n)).to_i16() == (if neg {
            -n
        } else {
            n
        }),
{
    let w: Width = Width::Single;
    let u: int = numbers::scale();
    lemma_pow2_pos(149);
    rounding::lemma_step(w);
    let code: int = numbers::lemma_representable(w, n, 149);
    rounding::lemma_encode_exact(w, code);
    vstd::arithmetic::div_mod::lemma_div_multiples_vanish(n, u);
    vstd::arithmetic::mul::lemma_mul_is_commutative(n, u);
    let r: F32 = F32::of_parts(Parts::integer(w, neg, n));
    assert(r.parts() == (Parts { neg, code: code as u64 }));
    reveal(F32::spec_to_i16);
    reveal(F32::spec_magnitude);
}

/// The nearest integer of a number within full scale.
proof fn lemma_nearest(x: F32)
    requires
        x.is_finite(),
        -32767 * numbers::scale() <= numbers::value(x) <= 32767 * numbers::scale(),
    ensures
        -32767 <= x.round().to_i16() <= 32767,
        x.round().to_i16() == (if numbers::value(x) < 0 {
            -half_up(-numbers::value(x))
        } else {
            half_up(numbers::value(x))
        }),
        numbers::value(x) == 32767 * numbers::scale() ==> x.round().to_i16() == 32767,
        numbers::value(x) == -32767 * numbers::scale() ==> x.round().to_i16() == -32767,
{
    let w: Width = Width::Single;
    let a: Parts = x.parts();
    let size: int = a.size(w);
    lemma_pow2_pos(149);
    assert(a.is_finite(w)) by {
        reveal(F32::spec_is_finite);
    }
    rounding::lemma_encode_exact(w, a.code as int);
    lemma_half_up_bounded(size);
    lemma_integer_back(a.neg, half_up(size));
    assert(x.round() == F32::of_parts(Parts::integer(w, a.neg, half_up(size)))) by {
        reveal(F32::spec_round);
        rounding::lemma_step(w);
    }
    if size == 0 {
        vstd::arithmetic::div_mod::lemma_small_mod(0, numbers::scale() as nat);
        vstd::arithmetic::div_mod::lemma_basic_div(0, numbers::scale());
    }
}

/// A sample that is a number, clamped and scaled.
proof fn lemma_scaled(s: F32)
    requires
        !s.is_nan(),
    ensures
        ({
            let c: F32 = s.clamp(F32::of(MINUS_ONE), F32::of(ONE));
            let full: F32 = F32::of(FULL_SCALE);
            let p: F32 = c.times(full);
            let u: int = numbers::scale();
            &&& c.is_finite()
            &&& -u <= numbers::value(c) <= u
            &&& F32::of(ONE).le(s) ==> numbers::value(c) == u
            &&& s.le(F32::of(MINUS_ONE)) ==> numbers::value(c) == -u
            &&& full.is_finite()
            &&& numbers::value(full) == 32767 * u
            &&& p.is_finite()
            &&& -32767 * u <= numbers::value(p) <= 32767 * u
        }),
{
    let one: F32 = F32::of(ONE);
    let low: F32 = F32::of(MINUS_ONE);
    let full: F32 = F32::of(FULL_SCALE);
    let c: F32 = s.clamp(low, one);
    let p: F32 = c.times(full);
    reveal(F32::spec_clamp);
    numbers::lemma_zero_one();
    numbers::lemma_value_of(FULL_SCALE, 0xff_fe00, 140);
    lemma_pow2_adds(9, 140);
    lemma2_to64();
    let u: int = numbers::scale();
    assert(numbers::value(full) == 32767 * u) by (nonlinear_arith)
        requires
            numbers::value(full) == 0xff_fe00 * pow2(140),
            u == 512 * pow2(140),
    ;
    numbers::lemma_order(s, one, s);
    numbers::lemma_order(one, s, one);
    numbers::lemma_order(s, low, s);
    numbers::lemma_order(low, s, low);
    numbers::lemma_order(low, one, s);
    numbers::lemma_order(s, low, one);
    numbers::lemma_value_order(low, one);
    numbers::lemma_value_order(one, one);
    numbers::lemma_value_order(low, low);
    assert(low.le(c) && c.le(one));
    numbers::lemma_between_finite(low, c, one);
    numbers::lemma_value_order(low, c);
    numbers::lemma_value_order(c, one);
    numbers::lemma_value_order(one, c);
    numbers::lemma_value_order(c, low);
    numbers::lemma_negated(full);
    let v: int = numbers::value(c);
    assert((-(32767 * u)) * u <= v * (32767 * u) <= (32767 * u) * u) by (nonlinear_arith)
        requires
            -u <= v <= u,
            u > 0,
    ;
    numbers::lemma_times_between(c, full, full.negated(), full);
    numbers::lemma_value_order(full.negated(), p);
    numbers::lemma_value_order(p, full);
}

/// A sample of at least one is full scale, one of at most minus one is minus
/// full scale, and every sample is between the two.
pub proof fn law_quantised_is_clamped(s: F32)
    ensures
        -32767 <= quantised(s) <= 32767,
        F32::of(ONE).le(s) ==> quantised(s) == 32767,
        s.le(F32::of(MINUS_ONE)) ==> quantised(s) == -32767,
        s.is_nan() ==> quantised(s) == 0,
{
    let one: F32 = F32::of(ONE);
    let low: F32 = F32::of(MINUS_ONE);
    let full: F32 = F32::of(FULL_SCALE);
    let c: F32 = s.clamp(low, one);
    let p: F32 = c.times(full);
    let u: int = numbers::scale();
    numbers::lemma_order(one, s, one);
    numbers::lemma_order(s, low, s);
    if s.is_nan() {
        reveal(F32::spec_clamp);
        numbers::lemma_order(s, one, s);
        numbers::lemma_nan_times(c, full);
        reveal(F32::spec_lt);
        reveal(F32::spec_round);
        reveal(F32::spec_to_i16);
        reveal(F32::spec_is_nan);
        rounding::lemma_step(Width::Single);
    } else {
        lemma_scaled(s);
        numbers::lemma_negated(full);
        let v: int = numbers::value(c);
        if one.le(s) {
            assert(v * (32767 * u) == (32767 * u) * u) by (nonlinear_arith)
                requires
                    v == u,
            ;
            numbers::lemma_times_between(c, full, full, full);
            numbers::lemma_value_order(full, p);
        }
        if s.le(low) {
            assert(v * (32767 * u) == (-(32767 * u)) * u) by (nonlinear_arith)
                requires
                    v == -u,
            ;
            numbers::lemma_times_between(c, full, full.negated(), full.negated());
            numbers::lemma_value_order(p, full.negated());
        }
        lemma_nearest(p);
    }
}

/// A sample between minus one and one is quantised to the nearest of its
/// 32767 steps either way.
pub proof fn law_quantised_is_the_nearest(s: F32)
    requires
        s.is_finite(),
        F32::of(MINUS_ONE).le(s),
        s.le(F32::of(ONE)),
    ensures
        ({
            let off: int = accuracy::gap(
                quantised(s) * numbers::scale(),
                32767 * numbers::value(s),
            );
            PARTS * (2 * off - numbers::scale()) <= 0x1_0000 * numbers::scale()
        }),
{
    let one: F32 = F32::of(ONE);
    let low: F32 = F32::of(MINUS_ONE);
    let full: F32 = F32::of(FULL_SCALE);
    let p: F32 = s.times(full);
    let u: int = numbers::scale();
    numbers::lemma_zero_one();
    numbers::lemma_value_order(low, s);
    numbers::lemma_value_order(s, one);
    numbers::lemma_value_order(s, low);
    numbers::lemma_value_order(one, s);
    lemma_scaled(s);
    assert(s.clamp(low, one) == s) by {
        reveal(F32::spec_clamp);
    }
    lemma_nearest(p);
    accuracy::law_products_are_accurate(s, full);
    let v: int = numbers::value(s);
    let t: int = numbers::value(p);
    let w: int = 32767 * v;
    assert(v * (32767 * u) == w * u) by (nonlinear_arith)
        requires
            w == 32767 * v,
    ;
    let g: int = accuracy::gap(t, w);
    assert(accuracy::gap(t * u, w * u) == g * u) by (nonlinear_arith)
        requires
            g == (if t < w {
                w - t
            } else {
                t - w
            }),
            accuracy::gap(t * u, w * u) == (if t * u < w * u {
                w * u - t * u
            } else {
                t * u - w * u
            }),
            u > 0,
    ;
    let z: int = accuracy::size(w);
    assert(accuracy::size(w * u) == z * u) by (nonlinear_arith)
        requires
            z == (if w < 0 {
                -w
            } else {
                w
            }),
            accuracy::size(w * u) == (if w * u < 0 {
                -(w * u)
            } else {
                w * u
            }),
            u > 0,
    ;
    if PARTS * (g * u) <= z * u {
        assert(PARTS * g <= z) by (nonlinear_arith)
            requires
                PARTS * (g * u) <= z * u,
                u > 0,
        ;
    } else {
        assert(g == 0) by (nonlinear_arith)
            requires
                2 * (g * u) <= u,
                u > 0,
                g >= 0,
        ;
    }
    let n: int = quantised(s) as int;
    let m: int = if t < 0 {
        -t
    } else {
        t
    };
    vstd::arithmetic::div_mod::lemma_fundamental_div_mod(m, u);
    let h: int = half_up(m);
    vstd::arithmetic::mul::lemma_mul_is_commutative(u, m / u);
    assert((m / u + 1) * u == (m / u) * u + u) by (nonlinear_arith);
    assert(2 * accuracy::gap(h * u, m) <= u);
    assert((-h) * u == -(h * u)) by (nonlinear_arith);
    assert(2 * accuracy::gap(n * u, t) <= u);
}

/// A larger sample is never quantised lower.
pub proof fn law_quantised_keeps_the_order(a: F32, b: F32)
    requires
        a.le(b),
    ensures
        quantised(a) <= quantised(b),
{
    let one: F32 = F32::of(ONE);
    let low: F32 = F32::of(MINUS_ONE);
    let full: F32 = F32::of(FULL_SCALE);
    let c: F32 = a.clamp(low, one);
    let d: F32 = b.clamp(low, one);
    let p: F32 = c.times(full);
    let q: F32 = d.times(full);
    numbers::lemma_order(a, b, b);
    lemma_scaled(a);
    lemma_scaled(b);
    assert(numbers::value(c) <= numbers::value(d)) by {
        lemma_clamped_order(a, b);
    }
    numbers::lemma_zero_one();
    numbers::lemma_times_order(c, d, full);
    numbers::lemma_value_order(p, q);
    lemma_nearest(p);
    lemma_nearest(q);
    let x: int = numbers::value(p);
    let y: int = numbers::value(q);
    if 0 <= x {
        lemma_half_up_order(x, y);
    } else if y < 0 {
        lemma_half_up_order(-y, -x);
    } else {
        lemma_half_up_order(0, y);
        lemma_half_up_order(0, -x);
    }
}

/// Clamped samples are ordered as the samples.
proof fn lemma_clamped_order(a: F32, b: F32)
    requires
        a.le(b),
    ensures
        numbers::value(a.clamp(F32::of(MINUS_ONE), F32::of(ONE))) <= numbers::value(
            b.clamp(F32::of(MINUS_ONE), F32::of(ONE)),
        ),
{
    let one: F32 = F32::of(ONE);
    let low: F32 = F32::of(MINUS_ONE);
    let c: F32 = a.clamp(low, one);
    let d: F32 = b.clamp(low, one);
    numbers::lemma_order(a, b, b);
    lemma_scaled(a);
    lemma_scaled(b);
    reveal(F32::spec_clamp);
    numbers::lemma_zero_one();
    numbers::lemma_order(a, b, low);
    numbers::lemma_order(one, a, b);
    numbers::lemma_value_order(c, d);
}

} // verus!
