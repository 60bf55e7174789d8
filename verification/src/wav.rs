//! Mono 16 kHz PCM16 WAV files, as uploaded for remote voice jobs.
use crate::timeline::{decode_pcm16, spec_le_i16, MAX_CLIP_SAMPLES, SAMPLE_RATE};
use vstd::prelude::*;

verus! {

/// Length of the RIFF/WAVE header.
pub const WAV_HEADER_BYTES: usize = 44;

/// The two little-endian bytes of `x` (taken modulo 2^16).
pub open spec fn le16(x: int) -> Seq<u8> {
    seq![(x % 256) as u8, ((x / 256) % 256) as u8]
}

/// The four little-endian bytes of `x` (taken modulo 2^32).
pub open spec fn le32(x: int) -> Seq<u8> {
    seq![
        (x % 256) as u8,
        ((x / 256) % 256) as u8,
        ((x / 65536) % 256) as u8,
        ((x / 16777216) % 256) as u8,
    ]
}

/// The two's-complement bit pattern of a sample.
pub open spec fn sample_bits(s: i16) -> int {
    if s < 0 {
        s + 65536
    } else {
        s as int
    }
}

/// The header of a WAV file of `n` mono 16-bit samples at 16 kHz.
pub open spec fn wav_header(n: int) -> Seq<u8> {
    seq!['R' as u8, 'I' as u8, 'F' as u8, 'F' as u8] + le32(2 * n + 36) + seq![
        'W' as u8,
        'A' as u8,
        'V' as u8,
        'E' as u8,
        'f' as u8,
        'm' as u8,
        't' as u8,
        ' ' as u8,
    ] + le32(16) + le16(1) + le16(1) + le32(SAMPLE_RATE as int) + le32(2 * SAMPLE_RATE) + le16(2)
        + le16(16) + seq!['d' as u8, 'a' as u8, 't' as u8, 'a' as u8] + le32(2 * n)
}

/// The little-endian bytes of the samples.
pub open spec fn sample_bytes(s: Seq<i16>) -> Seq<u8>
    decreases s.len(),
{
    if s.len() == 0 {
        Seq::empty()
    } else {
        sample_bytes(s.drop_last()) + le16(sample_bits(s.last()))
    }
}

fn push_le16(out: &mut Vec<u8>, x: u32)
    requires
        x < 65536,
    ensures
        final(out)@ == old(out)@ + le16(x as int),
{
    out.push((x % 256) as u8);
    out.push(((x / 256) % 256) as u8);
    assert(final(out)@ =~= old(out)@ + le16(x as int));
}

fn push_le32(out: &mut Vec<u8>, x: u32)
    ensures
        final(out)@ == old(out)@ + le32(x as int),
{
    out.push((x % 256) as u8);
    out.push(((x / 256) % 256) as u8);
    out.push(((x / 65536) % 256) as u8);
    out.push(((x / 16777216) % 256) as u8);
    assert(final(out)@ =~= old(out)@ + le32(x as int));
}

fn push_tag(out: &mut Vec<u8>, a: u8, b: u8, c: u8, d: u8)
    ensures
        final(out)@ == old(out)@ + seq![a, b, c, d],
{
    out.push(a);
    out.push(b);
    out.push(c);
    out.push(d);
    assert(final(out)@ =~= old(out)@ + seq![a, b, c, d]);
}

/// A WAV file holding `samples`: mono, 16 kHz, 16-bit.
pub fn pcm16_wav(samples: &Vec<i16>) -> (r: Vec<u8>)
    requires
        samples@.len() <= MAX_CLIP_SAMPLES,
    ensures
        r@ == wav_header(samples@.len() as int) + sample_bytes(samples@),
{
    let n = samples.len() as u32;
    let size = n * 2;
    let mut out: Vec<u8> = Vec::new();
    push_tag(&mut out, 'R' as u8, 'I' as u8, 'F' as u8, 'F' as u8);
    push_le32(&mut out, size + 36);
    push_tag(&mut out, 'W' as u8, 'A' as u8, 'V' as u8, 'E' as u8);
    push_tag(&mut out, 'f' as u8, 'm' as u8, 't' as u8, ' ' as u8);
    push_le32(&mut out, 16);
    push_le16(&mut out, 1);
    push_le16(&mut out, 1);
    push_le32(&mut out, SAMPLE_RATE);
    push_le32(&mut out, SAMPLE_RATE * 2);
    push_le16(&mut out, 2);
    push_le16(&mut out, 16);
    push_tag(&mut out, 'd' as u8, 'a' as u8, 't' as u8, 'a' as u8);
    push_le32(&mut out, size);
    let ghost header = out@;
    assert(header =~= wav_header(samples@.len() as int));
    let mut i: usize = 0;
    while i < samples.len()
        invariant
            i <= samples@.len(),
            out@ == header + sample_bytes(samples@.take(i as int)),
        decreases samples@.len() - i,
    {
        let s = samples[i];
        let bits: u32 = if s < 0 {
            (s as i32 + 65536) as u32
        } else {
            s as u32
        };
        push_le16(&mut out, bits);
        assert(samples@.take(i + 1).drop_last() =~= samples@.take(i as int));
        assert(samples@.take(i + 1).last() == s);
        i = i + 1;
        assert(out@ =~= header + sample_bytes(samples@.take(i as int)));
    }
    assert(samples@.take(i as int) =~= samples@);
    out
}

proof fn lemma_le16_roundtrip(s: i16)
    ensures
        spec_le_i16(le16(sample_bits(s))[0], le16(sample_bits(s))[1]) == s,
{
    let u = sample_bits(s);
    assert(0 <= u < 65536);
    assert((u % 256) + 256 * ((u / 256) % 256) == u) by (nonlinear_arith)
        requires
            0 <= u < 65536,
    ;
}

proof fn lemma_sample_bytes_len(s: Seq<i16>)
    ensures
        sample_bytes(s).len() == 2 * s.len(),
    decreases s.len(),
{
    if s.len() > 0 {
        lemma_sample_bytes_len(s.drop_last());
    }
}

proof fn lemma_sample_bytes_at(s: Seq<i16>, i: int)
    requires
        0 <= i < s.len(),
    ensures
        sample_bytes(s)[2 * i] == le16(sample_bits(s[i]))[0],
        sample_bytes(s)[2 * i + 1] == le16(sample_bits(s[i]))[1],
    decreases s.len(),
{
    lemma_sample_bytes_len(s.drop_last());
    if i < s.len() - 1 {
        lemma_sample_bytes_at(s.drop_last(), i);
    }
}

/// What a WAV file holds reads back as the samples it was made from.
pub proof fn lemma_wav_reads_back(samples: Seq<i16>)
    ensures
        wav_header(samples.len() as int).len() == WAV_HEADER_BYTES,
        decode_pcm16(
            (wav_header(samples.len() as int) + sample_bytes(samples)).skip(WAV_HEADER_BYTES as int),
        ) == samples,
{
    let h = wav_header(samples.len() as int);
    let all = h + sample_bytes(samples);
    assert(all.skip(44) =~= sample_bytes(samples));
    lemma_sample_bytes_len(samples);
    let d = decode_pcm16(sample_bytes(samples));
    assert forall|i: int| 0 <= i < samples.len() implies d[i] == samples[i] by {
        lemma_sample_bytes_at(samples, i);
        lemma_le16_roundtrip(samples[i]);
    }
    assert(d =~= samples);
}

} // verus!
