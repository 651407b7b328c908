//! WAV encoding of mono 16-bit PCM sound.

use vstd::prelude::*;

verus! {

/// The four bytes of `x`, least significant first.
pub open spec fn le32(x: u32) -> Seq<u8> {
    seq![(x % 0x100) as u8, ((x / 0x100) % 0x100) as u8, ((x / 0x1_0000) % 0x100) as u8, (x / 0x100_0000) as u8]
}

/// The two bytes of `x`, least significant first.
pub open spec fn le16(x: u16) -> Seq<u8> {
    seq![(x % 0x100) as u8, (x / 0x100) as u8]
}

/// The 44-byte header of a mono 16-bit PCM WAV file with `data_size` bytes
/// of samples at `sample_rate` samples a second: the RIFF chunk ("RIFF",
/// size, "WAVE"), the format chunk ("fmt ", 16, PCM, one channel, the rate,
/// the byte rate, block align 2, 16 bits) and the head of the data chunk
/// ("data", size).
pub open spec fn wav_header(data_size: u32, sample_rate: u32) -> Seq<u8> {
    seq![0x52u8, 0x49, 0x46, 0x46] + le32((data_size + 36) as u32) + seq![0x57u8, 0x41, 0x56, 0x45] + seq![
        0x66u8,
        0x6d,
        0x74,
        0x20,
    ] + le32(16) + le16(1) + le16(1) + le32(sample_rate) + le32((sample_rate * 2) as u32) + le16(2) + le16(16)
        + seq![0x64u8, 0x61, 0x74, 0x61] + le32(data_size)
}

/// The bytes of the samples, each as a little-endian two's-complement pair.
pub open spec fn sample_bytes(samples: Seq<i16>) -> Seq<u8>
    decreases samples.len(),
{
    if samples.len() == 0 {
        Seq::empty()
    } else {
        sample_bytes(samples.drop_last()) + le16(samples.last() as u16)
    }
}

fn push_bytes(v: &mut Vec<u8>, a: u8, b: u8, c: u8, d: u8)
    ensures
        final(v)@ == old(v)@ + seq![a, b, c, d],
{
    v.push(a);
    v.push(b);
    v.push(c);
    v.push(d);
}

fn push_le32(v: &mut Vec<u8>, x: u32)
    ensures
        final(v)@ == old(v)@ + le32(x),
{
    push_bytes(v, (x % 0x100) as u8, ((x / 0x100) % 0x100) as u8, ((x / 0x1_0000) % 0x100) as u8, (x / 0x100_0000) as u8);
}

fn push_le16(v: &mut Vec<u8>, x: u16)
    ensures
        final(v)@ == old(v)@ + le16(x),
{
    v.push((x % 0x100) as u8);
    v.push((x / 0x100) as u8);
}

/// The header of a mono 16-bit PCM WAV file holding `data_size` bytes of
/// samples at `sample_rate` samples a second.
pub fn create_wav_header(data_size: u32, sample_rate: u32) -> (header: Vec<u8>)
    requires
        data_size + 36 <= u32::MAX,
        sample_rate * 2 <= u32::MAX,
    ensures
        header@ == wav_header(data_size, sample_rate),
        header@.len() == 44,
{
    let mut header: Vec<u8> = Vec::new();
    push_bytes(&mut header, 0x52, 0x49, 0x46, 0x46);
    push_le32(&mut header, data_size + 36);
    push_bytes(&mut header, 0x57, 0x41, 0x56, 0x45);
    push_bytes(&mut header, 0x66, 0x6d, 0x74, 0x20);
    push_le32(&mut header, 16);
    push_le16(&mut header, 1);
    push_le16(&mut header, 1);
    push_le32(&mut header, sample_rate);
    push_le32(&mut header, sample_rate * 2);
    push_le16(&mut header, 2);
    push_le16(&mut header, 16);
    push_bytes(&mut header, 0x64, 0x61, 0x74, 0x61);
    push_le32(&mut header, data_size);
    assert(header@ =~= wav_header(data_size, sample_rate));
    header
}

/// A complete WAV file: the header for the samples at `sample_rate`, then
/// each sample as two little-endian bytes.
pub fn encode_wav(samples: &Vec<i16>, sample_rate: u32) -> (wav: Vec<u8>)
    requires
        samples@.len() * 2 + 36 <= u32::MAX,
        sample_rate * 2 <= u32::MAX,
    ensures
        wav@ == wav_header((samples@.len() * 2) as u32, sample_rate) + sample_bytes(samples@),
        wav@.len() == 44 + 2 * samples@.len(),
{
    let n: u32 = (samples.len() * 2) as u32;
    let mut wav = create_wav_header(n, sample_rate);
    let mut i: usize = 0;
    while i < samples.len()
        invariant
            0 <= i <= samples@.len(),
            n == samples@.len() * 2,
            wav@ == wav_header(n, sample_rate) + sample_bytes(samples@.take(i as int)),
        decreases samples@.len() - i,
    {
        let ghost before = wav@;
        push_le16(&mut wav, samples[i] as u16);
        proof {
            let t = samples@.take(i as int + 1);
            assert(t.drop_last() =~= samples@.take(i as int));
            assert(t.last() == samples@[i as int]);
            assert(wav@ =~= wav_header(n, sample_rate) + sample_bytes(t));
        }
        i += 1;
    }
    assert(samples@.take(samples@.len() as int) =~= samples@);
    proof {
        lemma_sample_bytes_len(samples@);
    }
    wav
}

proof fn lemma_sample_bytes_len(s: Seq<i16>)
    ensures
        sample_bytes(s).len() == 2 * s.len(),
    decreases s.len(),
{
    if s.len() > 0 {
        lemma_sample_bytes_len(s.drop_last());
    }
}

} // verus!
