//! The WAV container of a mono sound of 16-bit PCM samples, as the startup
//! beep is played from.

use vstd::bytes::*;
use vstd::prelude::*;
use crate::codec::append_bytes;

verus! {

/// The four ASCII bytes of a RIFF chunk identifier.
pub open spec fn chunk_id(a: u8, b: u8, c: u8, d: u8) -> Seq<u8> {
    seq![a, b, c, d]
}

/// The 44 bytes before the samples: the `RIFF` chunk of a `WAVE` file
/// whose `fmt ` chunk says PCM, one channel, `sample_rate` samples a
/// second, two bytes a sample (16 bits), and whose `data` chunk holds
/// `data_len` bytes.
pub open spec fn wav_header(sample_rate: u32, data_len: u32) -> Seq<u8> {
    chunk_id(0x52, 0x49, 0x46, 0x46) + spec_u32_to_le_bytes((36 + data_len) as u32)
        + chunk_id(0x57, 0x41, 0x56, 0x45)
        + chunk_id(0x66, 0x6d, 0x74, 0x20) + spec_u32_to_le_bytes(16)
        + spec_u16_to_le_bytes(1) + spec_u16_to_le_bytes(1)
        + spec_u32_to_le_bytes(sample_rate) + spec_u32_to_le_bytes((sample_rate * 2) as u32)
        + spec_u16_to_le_bytes(2) + spec_u16_to_le_bytes(16)
        + chunk_id(0x64, 0x61, 0x74, 0x61) + spec_u32_to_le_bytes(data_len)
}

fn push_chunk_id(out: &mut Vec<u8>, a: u8, b: u8, c: u8, d: u8)
    ensures
        final(out)@ == old(out)@ + chunk_id(a, b, c, d),
{
    out.push(a);
    out.push(b);
    out.push(c);
    out.push(d);
    proof {
        assert(final(out)@ =~= old(out)@ + chunk_id(a, b, c, d));
    }
}

/// A WAV file of the given little-endian 16-bit mono samples.
pub fn mono16_wav(sample_rate: u32, samples: &[u8]) -> (wav: Vec<u8>)
    requires
        samples@.len() + 36 <= u32::MAX,
        sample_rate * 2 <= u32::MAX,
    ensures
        wav@ == wav_header(sample_rate, samples@.len() as u32) + samples@,
{
    let data_size = samples.len() as u32;
    let mut wav: Vec<u8> = Vec::new();
    push_chunk_id(&mut wav, 0x52, 0x49, 0x46, 0x46);
    append_bytes(&mut wav, u32_to_le_bytes(36 + data_size).as_slice());
    push_chunk_id(&mut wav, 0x57, 0x41, 0x56, 0x45);
    push_chunk_id(&mut wav, 0x66, 0x6d, 0x74, 0x20);
    append_bytes(&mut wav, u32_to_le_bytes(16).as_slice());
    append_bytes(&mut wav, u16_to_le_bytes(1).as_slice());
    append_bytes(&mut wav, u16_to_le_bytes(1).as_slice());
    append_bytes(&mut wav, u32_to_le_bytes(sample_rate).as_slice());
    append_bytes(&mut wav, u32_to_le_bytes(sample_rate * 2).as_slice());
    append_bytes(&mut wav, u16_to_le_bytes(2).as_slice());
    append_bytes(&mut wav, u16_to_le_bytes(16).as_slice());
    push_chunk_id(&mut wav, 0x64, 0x61, 0x74, 0x61);
    append_bytes(&mut wav, u32_to_le_bytes(data_size).as_slice());
    append_bytes(&mut wav, samples);
    proof {
        assert(wav@ =~= wav_header(sample_rate, data_size) + samples@);
    }
    wav
}

/// The two little-endian bytes of each sample, in order.
pub open spec fn sample_bytes(samples: Seq<i16>) -> Seq<u8>
    decreases samples.len(),
{
    if samples.len() == 0 {
        Seq::empty()
    } else {
        sample_bytes(samples.drop_last()) + spec_u16_to_le_bytes(samples.last() as u16)
    }
}

/// The samples as little-endian bytes.
pub fn samples_to_bytes(samples: &[i16]) -> (bytes: Vec<u8>)
    ensures
        bytes@ == sample_bytes(samples@),
{
    let mut bytes: Vec<u8> = Vec::new();
    let mut i: usize = 0;
    while i < samples.len()
        invariant
            i <= samples@.len(),
            bytes@ == sample_bytes(samples@.take(i as int)),
        decreases samples@.len() - i,
    {
        let s = samples[i];
        append_bytes(&mut bytes, u16_to_le_bytes(s as u16).as_slice());
        proof {
            assert(samples@.take(i as int + 1).drop_last() =~= samples@.take(i as int));
        }
        i = i + 1;
    }
    proof {
        assert(samples@.take(samples@.len() as int) =~= samples@);
    }
    bytes
}

} // verus!
