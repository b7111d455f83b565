//! Fixed-width little-endian fields, as the storage formats lay them out.

use vstd::bytes::*;
use vstd::prelude::*;
use vstd::slice::slice_subrange;

verus! {

/// Why a fixed-width field could not be read.
#[derive(Debug, Clone, Copy, PartialEq, Eq)]
pub enum CodecError {
    /// The bytes are not exactly eight long.
    InvalidU64Length,
    /// Fewer bytes are left than a u64 field needs.
    TruncatedU64,
    /// Fewer bytes are left than a u32 field needs.
    TruncatedU32,
    /// A length-prefixed field claims more bytes than are left.
    TruncatedBytes { need: u64, have: u64 },
}

/// Appends `src` to `out`.
pub fn append_bytes(out: &mut Vec<u8>, src: &[u8])
    ensures
        final(out)@ == old(out)@ + src@,
{
    let mut i: usize = 0;
    while i < src.len()
        invariant
            i <= src@.len(),
            out@ == old(out)@ + src@.take(i as int),
        decreases src@.len() - i,
    {
        out.push(src[i]);
        proof {
            assert(src@.take(i as int + 1) =~= src@.take(i as int).push(src@[i as int]));
        }
        i = i + 1;
    }
    proof {
        assert(src@.take(src@.len() as int) =~= src@);
    }
}

/// The eight little-endian bytes of `value`.
pub fn encode_u64_value(value: u64) -> (res: Vec<u8>)
    ensures
        res@ == spec_u64_to_le_bytes(value),
        res@.len() == 8,
{
    proof {
        lemma_auto_spec_u64_to_from_le_bytes();
    }
    u64_to_le_bytes(value)
}

/// Decodes a u64 stored as exactly eight little-endian bytes.
pub fn decode_u64(bytes: &[u8]) -> (res: Result<u64, CodecError>)
    ensures
        bytes@.len() != 8 ==> res == Err::<u64, CodecError>(CodecError::InvalidU64Length),
        bytes@.len() == 8 ==> res == Ok::<u64, CodecError>(spec_u64_from_le_bytes(bytes@)),
{
    if bytes.len() != 8 {
        return Err(CodecError::InvalidU64Length);
    }
    Ok(u64_from_le_bytes(bytes))
}

/// The u64 whose little-endian bytes start at `pos`.
pub open spec fn le_u64_at(bytes: Seq<u8>, pos: int) -> u64 {
    spec_u64_from_le_bytes(bytes.subrange(pos, pos + 8))
}

/// The u32 whose little-endian bytes start at `pos`.
pub open spec fn le_u32_at(bytes: Seq<u8>, pos: int) -> u32 {
    spec_u32_from_le_bytes(bytes.subrange(pos, pos + 4))
}

/// Reads a u64 at `*pos`, not reading past `end`; advances `*pos`.
pub fn read_u64(bytes: &[u8], pos: &mut usize, end: usize) -> (res: Result<u64, CodecError>)
    requires
        end <= bytes@.len(),
    ensures
        *old(pos) + 8 > end ==> res == Err::<u64, CodecError>(CodecError::TruncatedU64)
            && *final(pos) == *old(pos),
        *old(pos) + 8 <= end ==> res == Ok::<u64, CodecError>(le_u64_at(bytes@, *old(pos) as int))
            && *final(pos) == *old(pos) + 8,
{
    if *pos > end || end - *pos < 8 {
        return Err(CodecError::TruncatedU64);
    }
    let field = slice_subrange(bytes, *pos, *pos + 8);
    let value = u64_from_le_bytes(field);
    *pos = *pos + 8;
    Ok(value)
}

/// Reads a u32 at `*pos`, not reading past `end`; advances `*pos`.
pub fn read_u32(bytes: &[u8], pos: &mut usize, end: usize) -> (res: Result<u32, CodecError>)
    requires
        end <= bytes@.len(),
    ensures
        *old(pos) + 4 > end ==> res == Err::<u32, CodecError>(CodecError::TruncatedU32)
            && *final(pos) == *old(pos),
        *old(pos) + 4 <= end ==> res == Ok::<u32, CodecError>(le_u32_at(bytes@, *old(pos) as int))
            && *final(pos) == *old(pos) + 4,
{
    if *pos > end || end - *pos < 4 {
        return Err(CodecError::TruncatedU32);
    }
    let field = slice_subrange(bytes, *pos, *pos + 4);
    let value = u32_from_le_bytes(field);
    *pos = *pos + 4;
    Ok(value)
}

/// Number of elements of a bincode-encoded `Vec`: its little-endian u64
/// length prefix, or 0 when fewer than eight bytes are given.
pub fn bincode_vec_len(bytes: &[u8]) -> (n: u64)
    ensures
        bytes@.len() < 8 ==> n == 0,
        bytes@.len() >= 8 ==> n == le_u64_at(bytes@, 0),
{
    if bytes.len() < 8 {
        return 0;
    }
    u64_from_le_bytes(slice_subrange(bytes, 0, 8))
}

} // verus!
