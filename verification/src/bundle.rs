//! Layout of the payload of a staged block (a bundle) and the index of
//! bundle fields that compaction reads straight out of a log.
//!
//! A bundle payload holds the block number (u64), then the encoded header,
//! transaction hashes and compressed transaction metadata, each prefixed by
//! its length (u64), the uncompressed metadata length (u32), the compressed
//! receipts (length-prefixed), their uncompressed length (u32), and the
//! encoded block size (length-prefixed). All integers are little-endian.

use crate::checksum::{crc32, crc32_of};
use crate::codec::{append_bytes, le_u32_at, le_u64_at, read_u32, read_u64, CodecError};
use vstd::bytes::*;
use vstd::prelude::*;
use vstd::slice::slice_subrange;

verus! {

/// A half-open range of byte positions.
#[derive(Debug, Clone, Copy, PartialEq, Eq)]
pub struct ByteRange {
    pub start: usize,
    pub end: usize,
}

impl ByteRange {
    /// Number of positions in the range (0 when `end < start`).
    pub fn len(self) -> (n: usize)
        ensures
            n == if self.end >= self.start { self.end - self.start } else { 0 },
    {
        self.end.saturating_sub(self.start)
    }

    /// The range as `start..end`.
    pub fn as_range(self) -> (r: std::ops::Range<usize>)
        ensures
            r.start == self.start,
            r.end == self.end,
    {
        self.start..self.end
    }
}

/// Where the fields of one bundle lie within a log.
#[derive(Debug, Clone, Copy, PartialEq, Eq)]
pub struct WalBundleSlices {
    pub header: ByteRange,
    pub tx_hashes: ByteRange,
    pub tx_meta: ByteRange,
    pub tx_meta_uncompressed_len: u32,
    pub receipts: ByteRange,
    pub receipts_uncompressed_len: u32,
    pub size: ByteRange,
}

/// The fields of one staged block, already encoded.
#[derive(Debug)]
pub struct WalBundleRecord {
    pub number: u64,
    pub header: Vec<u8>,
    pub tx_hashes: Vec<u8>,
    pub tx_meta: Vec<u8>,
    pub tx_meta_uncompressed_len: u32,
    pub receipts: Vec<u8>,
    pub receipts_uncompressed_len: u32,
    pub size: Vec<u8>,
}

/// Why a log could not be indexed.
#[derive(Debug, Clone, Copy, PartialEq, Eq)]
pub enum WalError {
    /// A bundle field runs past the end of its payload.
    Codec(CodecError),
    /// The block number in the payload differs from the record's.
    NumberMismatch { offset: u64, header: u64, payload: u64 },
    /// The bundle fields do not take exactly the whole payload.
    DecodeMismatch { offset: u64, expected_end: u64, got: u64 },
}

/// A byte string prefixed by its length.
pub open spec fn length_prefixed(x: Seq<u8>) -> Seq<u8> {
    spec_u64_to_le_bytes(x.len() as u64) + x
}

/// The payload bytes of a bundle.
pub open spec fn bundle_bytes(r: WalBundleRecord) -> Seq<u8> {
    spec_u64_to_le_bytes(r.number) + length_prefixed(r.header@) + length_prefixed(r.tx_hashes@)
        + length_prefixed(r.tx_meta@) + spec_u32_to_le_bytes(r.tx_meta_uncompressed_len)
        + length_prefixed(r.receipts@) + spec_u32_to_le_bytes(r.receipts_uncompressed_len)
        + length_prefixed(r.size@)
}

/// Reading a length-prefixed field at `pos`, not past `end`: its range and
/// the position after it.
pub open spec fn read_range_spec(bytes: Seq<u8>, pos: int, end: int) -> Result<(ByteRange, int), CodecError> {
    if pos + 8 > end {
        Err(CodecError::TruncatedU64)
    } else {
        let len = le_u64_at(bytes, pos);
        if pos + 8 + len > end {
            Err(CodecError::TruncatedBytes { need: len, have: (end - (pos + 8)) as u64 })
        } else {
            Ok((ByteRange { start: (pos + 8) as usize, end: (pos + 8 + len) as usize }, pos + 8 + len))
        }
    }
}

pub open spec fn read_u32_spec(bytes: Seq<u8>, pos: int, end: int) -> Result<(u32, int), CodecError> {
    if pos + 4 > end {
        Err(CodecError::TruncatedU32)
    } else {
        Ok((le_u32_at(bytes, pos), pos + 4))
    }
}

/// Reading the bundle fields of the payload `start..end`: the block number,
/// the field ranges, and the position after the last field.
pub open spec fn parse_bundle_spec(bytes: Seq<u8>, start: int, end: int) -> Result<(u64, WalBundleSlices, int), CodecError> {
    if start + 8 > end {
        Err(CodecError::TruncatedU64)
    } else {
        let number = le_u64_at(bytes, start);
        match read_range_spec(bytes, start + 8, end) {
            Err(e) => Err(e),
            Ok((header, p1)) => match read_range_spec(bytes, p1, end) {
                Err(e) => Err(e),
                Ok((tx_hashes, p2)) => match read_range_spec(bytes, p2, end) {
                    Err(e) => Err(e),
                    Ok((tx_meta, p3)) => match read_u32_spec(bytes, p3, end) {
                        Err(e) => Err(e),
                        Ok((tmu, p4)) => match read_range_spec(bytes, p4, end) {
                            Err(e) => Err(e),
                            Ok((receipts, p5)) => match read_u32_spec(bytes, p5, end) {
                                Err(e) => Err(e),
                                Ok((ru, p6)) => match read_range_spec(bytes, p6, end) {
                                    Err(e) => Err(e),
                                    Ok((size, p7)) => Ok((
                                        number,
                                        WalBundleSlices {
                                            header,
                                            tx_hashes,
                                            tx_meta,
                                            tx_meta_uncompressed_len: tmu,
                                            receipts,
                                            receipts_uncompressed_len: ru,
                                            size,
                                        },
                                        p7,
                                    )),
                                },
                            },
                        },
                    },
                },
            },
        }
    }
}

/// Reads a length-prefixed field at `*pos`, not past `end`; advances `*pos`.
pub fn read_bytes_range(bytes: &[u8], pos: &mut usize, end: usize) -> (res: Result<ByteRange, CodecError>)
    requires
        end <= bytes@.len(),
        *old(pos) <= end,
    ensures
        match read_range_spec(bytes@, *old(pos) as int, end as int) {
            Ok((r, p)) => res == Ok::<ByteRange, CodecError>(r) && *final(pos) == p,
            Err(e) => res == Err::<ByteRange, CodecError>(e),
        },
        *final(pos) <= end,
{
    let start = *pos;
    let len = match read_u64(bytes, pos, end) {
        Ok(v) => v,
        Err(e) => {
            return Err(e);
        },
    };
    let have = end - *pos;
    if len > have as u64 {
        return Err(CodecError::TruncatedBytes { need: len, have: have as u64 });
    }
    let lenu = len as usize;
    let range = ByteRange { start: *pos, end: *pos + lenu };
    *pos = *pos + lenu;
    Ok(range)
}

/// Reads the bundle fields of the payload `start..end`
/// (see `parse_bundle_spec`).
pub fn parse_bundle_payload(bytes: &[u8], start: usize, end: usize) -> (res: Result<(u64, WalBundleSlices, usize), CodecError>)
    requires
        start <= end <= bytes@.len(),
    ensures
        match parse_bundle_spec(bytes@, start as int, end as int) {
            Ok((n, s, p)) => res == Ok::<(u64, WalBundleSlices, usize), CodecError>((n, s, p as usize)),
            Err(e) => res == Err::<(u64, WalBundleSlices, usize), CodecError>(e),
        },
{
    let mut p = start;
    let number = read_u64(bytes, &mut p, end)?;
    let header = read_bytes_range(bytes, &mut p, end)?;
    let tx_hashes = read_bytes_range(bytes, &mut p, end)?;
    let tx_meta = read_bytes_range(bytes, &mut p, end)?;
    let tx_meta_uncompressed_len = read_u32(bytes, &mut p, end)?;
    let receipts = read_bytes_range(bytes, &mut p, end)?;
    let receipts_uncompressed_len = read_u32(bytes, &mut p, end)?;
    let size = read_bytes_range(bytes, &mut p, end)?;
    Ok((
        number,
        WalBundleSlices {
            header,
            tx_hashes,
            tx_meta,
            tx_meta_uncompressed_len,
            receipts,
            receipts_uncompressed_len,
            size,
        },
        p,
    ))
}

fn append_length_prefixed(out: &mut Vec<u8>, x: &[u8])
    ensures
        final(out)@ == old(out)@ + length_prefixed(x@),
{
    let len = u64_to_le_bytes(x.len() as u64);
    append_bytes(out, len.as_slice());
    append_bytes(out, x);
    proof {
        assert(final(out)@ =~= old(out)@ + length_prefixed(x@));
    }
}

/// The payload bytes of a bundle (see `bundle_bytes`).
pub fn encode_bundle_payload(r: &WalBundleRecord) -> (res: Vec<u8>)
    ensures
        res@ == bundle_bytes(*r),
{
    let mut out = u64_to_le_bytes(r.number);
    append_length_prefixed(&mut out, r.header.as_slice());
    append_length_prefixed(&mut out, r.tx_hashes.as_slice());
    append_length_prefixed(&mut out, r.tx_meta.as_slice());
    let tmu = u32_to_le_bytes(r.tx_meta_uncompressed_len);
    append_bytes(&mut out, tmu.as_slice());
    append_length_prefixed(&mut out, r.receipts.as_slice());
    let ru = u32_to_le_bytes(r.receipts_uncompressed_len);
    append_bytes(&mut out, ru.as_slice());
    append_length_prefixed(&mut out, r.size.as_slice());
    proof {
        assert(out@ =~= bundle_bytes(*r));
    }
    out
}

proof fn lemma_read_prefixed(b: Seq<u8>, pos: int, end: int, x: Seq<u8>)
    requires
        0 <= pos,
        pos + 8 + x.len() <= end <= b.len(),
        end <= usize::MAX,
        b.subrange(pos, pos + 8 + x.len()) == length_prefixed(x),
    ensures
        read_range_spec(b, pos, end) == Ok::<(ByteRange, int), CodecError>((
            ByteRange { start: (pos + 8) as usize, end: (pos + 8 + x.len()) as usize },
            pos + 8 + x.len(),
        )),
        b.subrange(pos + 8, pos + 8 + x.len()) == x,
{
    lemma_auto_spec_u64_to_from_le_bytes();
    assert(b.subrange(pos, pos + 8) =~= spec_u64_to_le_bytes(x.len() as u64)) by {
        assert(length_prefixed(x).subrange(0, 8) =~= spec_u64_to_le_bytes(x.len() as u64));
        assert(b.subrange(pos, pos + 8) =~= b.subrange(pos, pos + 8 + x.len()).subrange(0, 8));
    }
    assert(spec_u64_to_le_bytes(x.len() as u64).len() == 8);
    assert(le_u64_at(b, pos) == x.len());
    assert(b.subrange(pos + 8, pos + 8 + x.len()) =~= b.subrange(pos, pos + 8 + x.len()).subrange(8, 8 + x.len() as int));
    assert(length_prefixed(x).subrange(8, 8 + x.len() as int) =~= x);
}

proof fn lemma_read_u32_at(b: Seq<u8>, pos: int, end: int, v: u32)
    requires
        0 <= pos,
        pos + 4 <= end <= b.len(),
        b.subrange(pos, pos + 4) == spec_u32_to_le_bytes(v),
    ensures
        read_u32_spec(b, pos, end) == Ok::<(u32, int), CodecError>((v, pos + 4)),
{
    lemma_auto_spec_u32_to_from_le_bytes();
    assert(spec_u32_to_le_bytes(v).len() == 4);
}

/// A payload written by `encode_bundle_payload` reads back as its fields:
/// each field range holds exactly the bytes written for that field, and the
/// fields take the whole payload.
pub proof fn lemma_bundle_roundtrip(r: WalBundleRecord, pre: Seq<u8>, post: Seq<u8>)
    requires
        pre.len() + bundle_bytes(r).len() <= usize::MAX,
    ensures
        ({
            let b = pre + bundle_bytes(r) + post;
            let start = pre.len() as int;
            let end = start + bundle_bytes(r).len();
            match parse_bundle_spec(b, start, end) {
                Ok((n, s, p)) => {
                    &&& n == r.number
                    &&& p == end
                    &&& b.subrange(s.header.start as int, s.header.end as int) == r.header@
                    &&& b.subrange(s.tx_hashes.start as int, s.tx_hashes.end as int) == r.tx_hashes@
                    &&& b.subrange(s.tx_meta.start as int, s.tx_meta.end as int) == r.tx_meta@
                    &&& s.tx_meta_uncompressed_len == r.tx_meta_uncompressed_len
                    &&& b.subrange(s.receipts.start as int, s.receipts.end as int) == r.receipts@
                    &&& s.receipts_uncompressed_len == r.receipts_uncompressed_len
                    &&& b.subrange(s.size.start as int, s.size.end as int) == r.size@
                },
                Err(_) => false,
            }
        }),
{
    lemma_auto_spec_u64_to_from_le_bytes();
    lemma_auto_spec_u32_to_from_le_bytes();
    let bb = bundle_bytes(r);
    let b = pre + bb + post;
    let start = pre.len() as int;
    let end = start + bb.len();
    assert(spec_u64_to_le_bytes(r.number).len() == 8);
    assert(spec_u32_to_le_bytes(r.tx_meta_uncompressed_len).len() == 4);
    assert(spec_u32_to_le_bytes(r.receipts_uncompressed_len).len() == 4);
    assert(spec_u64_to_le_bytes(r.header@.len() as u64).len() == 8);
    assert(spec_u64_to_le_bytes(r.tx_hashes@.len() as u64).len() == 8);
    assert(spec_u64_to_le_bytes(r.tx_meta@.len() as u64).len() == 8);
    assert(spec_u64_to_le_bytes(r.receipts@.len() as u64).len() == 8);
    assert(spec_u64_to_le_bytes(r.size@.len() as u64).len() == 8);
    let p1 = start + 8;
    let p2 = p1 + 8 + r.header@.len();
    let p3 = p2 + 8 + r.tx_hashes@.len();
    let p4 = p3 + 8 + r.tx_meta@.len();
    let p5 = p4 + 4;
    let p6 = p5 + 8 + r.receipts@.len();
    let p7 = p6 + 4;
    let p8 = p7 + 8 + r.size@.len();
    assert(p8 == end);
    assert(b.subrange(start, start + 8) =~= spec_u64_to_le_bytes(r.number));
    assert(b.subrange(p1, p2) =~= length_prefixed(r.header@));
    assert(b.subrange(p2, p3) =~= length_prefixed(r.tx_hashes@));
    assert(b.subrange(p3, p4) =~= length_prefixed(r.tx_meta@));
    assert(b.subrange(p4, p5) =~= spec_u32_to_le_bytes(r.tx_meta_uncompressed_len));
    assert(b.subrange(p5, p6) =~= length_prefixed(r.receipts@));
    assert(b.subrange(p6, p7) =~= spec_u32_to_le_bytes(r.receipts_uncompressed_len));
    assert(b.subrange(p7, p8) =~= length_prefixed(r.size@));
    assert(le_u64_at(b, start) == r.number);
    lemma_read_prefixed(b, p1, end, r.header@);
    lemma_read_prefixed(b, p2, end, r.tx_hashes@);
    lemma_read_prefixed(b, p3, end, r.tx_meta@);
    lemma_read_u32_at(b, p4, end, r.tx_meta_uncompressed_len);
    lemma_read_prefixed(b, p5, end, r.receipts@);
    lemma_read_u32_at(b, p6, end, r.receipts_uncompressed_len);
    lemma_read_prefixed(b, p7, end, r.size@);
}

/// Scanning the records of a log from `pos` for the bundles of the shard
/// `shard_start..shard_start + shard_size`: the slices found so far by local
/// offset (a later record for the same block replaces an earlier one), and
/// whether any was found. The scan stops at the first incomplete record or
/// CRC mismatch; a record whose payload does not decode is an error.
pub open spec fn slice_scan_spec(
    bytes: Seq<u8>,
    pos: int,
    shard_start: u64,
    shard_size: nat,
    entries: Seq<Option<WalBundleSlices>>,
    any: bool,
) -> Result<(Seq<Option<WalBundleSlices>>, bool), WalError>
    decreases bytes.len() - pos,
{
    if pos < 0 || pos + 16 > bytes.len() {
        Ok((entries, any))
    } else {
        let block_number = le_u64_at(bytes, pos);
        let payload_end = pos + 12 + le_u32_at(bytes, pos + 8);
        let next = payload_end + 4;
        if next > bytes.len() {
            Ok((entries, any))
        } else if le_u32_at(bytes, payload_end) != crc32_of(bytes.subrange(pos, payload_end)) {
            Ok((entries, any))
        } else {
            match parse_bundle_spec(bytes, pos + 12, payload_end) {
                Err(e) => Err(WalError::Codec(e)),
                Ok((number, slices, p)) => {
                    if number != block_number {
                        Err(
                            WalError::NumberMismatch {
                                offset: pos as u64,
                                header: block_number,
                                payload: number,
                            },
                        )
                    } else if p != payload_end {
                        Err(
                            WalError::DecodeMismatch {
                                offset: pos as u64,
                                expected_end: payload_end as u64,
                                got: p as u64,
                            },
                        )
                    } else if block_number >= shard_start && block_number - shard_start < shard_size {
                        slice_scan_spec(
                            bytes,
                            next,
                            shard_start,
                            shard_size,
                            entries.update(block_number - shard_start, Some(slices)),
                            true,
                        )
                    } else {
                        slice_scan_spec(bytes, next, shard_start, shard_size, entries, any)
                    }
                },
            }
        }
    }
}

/// Indexes the bundle fields of a shard's log held in `bytes`
/// (see `slice_scan_spec`): one entry per local offset of the shard, or
/// `None` when the log holds no bundle of the shard.
pub fn index_bundle_slices(bytes: &[u8], shard_start: u64, shard_size: usize) -> (res: Result<Option<Vec<Option<WalBundleSlices>>>, WalError>)
    ensures
        match slice_scan_spec(bytes@, 0, shard_start, shard_size as nat, Seq::new(shard_size as nat, |i: int| None::<WalBundleSlices>), false) {
            Err(e) => res == Err::<Option<Vec<Option<WalBundleSlices>>>, WalError>(e),
            Ok((entries, any)) => match res {
                Ok(Some(v)) => any && v@ == entries,
                Ok(None) => !any,
                Err(_) => false,
            },
        },
{
    let mut entries: Vec<Option<WalBundleSlices>> = Vec::new();
    let mut i: usize = 0;
    while i < shard_size
        invariant
            i <= shard_size,
            entries@ == Seq::new(i as nat, |j: int| None::<WalBundleSlices>),
        decreases shard_size - i,
    {
        entries.push(None);
        proof {
            assert(entries@ =~= Seq::new(i as nat + 1, |j: int| None::<WalBundleSlices>));
        }
        i = i + 1;
    }
    let ghost initial = entries@;
    proof {
        assert(initial =~= Seq::new(shard_size as nat, |j: int| None::<WalBundleSlices>));
    }
    let mut any = false;
    let mut pos: usize = 0;
    let len = bytes.len();
    loop
        invariant
            len == bytes@.len(),
            initial == Seq::new(shard_size as nat, |j: int| None::<WalBundleSlices>),
            entries@.len() == shard_size,
            slice_scan_spec(bytes@, 0, shard_start, shard_size as nat, initial, false)
                == slice_scan_spec(bytes@, pos as int, shard_start, shard_size as nat, entries@, any),
        ensures
            slice_scan_spec(bytes@, 0, shard_start, shard_size as nat, initial, false)
                == Ok::<(Seq<Option<WalBundleSlices>>, bool), WalError>((entries@, any)),
        decreases len - pos,
    {
        if pos > len || len - pos < 16 {
            break;
        }
        let record_offset = pos;
        let mut cursor = pos;
        let block_number = match read_u64(bytes, &mut cursor, len) {
            Ok(v) => v,
            Err(_) => {
                break;
            },
        };
        let payload_len = match read_u32(bytes, &mut cursor, len) {
            Ok(v) => v,
            Err(_) => {
                break;
            },
        };
        let payload_start = pos + 12;
        if len - payload_start < 4 || len - payload_start - 4 < payload_len as usize {
            break;
        }
        let payload_end = payload_start + payload_len as usize;
        let next = payload_end + 4;
        let mut crc_pos = payload_end;
        let crc_expected = match read_u32(bytes, &mut crc_pos, len) {
            Ok(v) => v,
            Err(_) => {
                break;
            },
        };
        let crc_actual = crc32(slice_subrange(bytes, record_offset, payload_end));
        if crc_actual != crc_expected {
            break;
        }
        proof {
            assert(block_number == le_u64_at(bytes@, pos as int));
            assert(payload_end == pos + 12 + le_u32_at(bytes@, pos + 8));
            assert(crc_expected == le_u32_at(bytes@, payload_end as int));
            assert(crc_actual == crc32_of(bytes@.subrange(pos as int, payload_end as int)));
            assert(pos + 16 <= bytes@.len());
            assert(next <= bytes@.len());
        }
        let parsed = parse_bundle_payload(bytes, payload_start, payload_end);
        let (number, slices, p) = match parsed {
            Ok(t) => t,
            Err(e) => {
                proof {
                    assert(parse_bundle_spec(bytes@, payload_start as int, payload_end as int) == Err::<(u64, WalBundleSlices, int), CodecError>(e));
                    assert(slice_scan_spec(bytes@, pos as int, shard_start, shard_size as nat, entries@, any) == Err::<(Seq<Option<WalBundleSlices>>, bool), WalError>(WalError::Codec(e)));
                }
                return Err(WalError::Codec(e));
            },
        };
        if number != block_number {
            return Err(
                WalError::NumberMismatch {
                    offset: record_offset as u64,
                    header: block_number,
                    payload: number,
                },
            );
        }
        if p != payload_end {
            return Err(
                WalError::DecodeMismatch {
                    offset: record_offset as u64,
                    expected_end: payload_end as u64,
                    got: p as u64,
                },
            );
        }
        if block_number >= shard_start && block_number - shard_start < shard_size as u64 {
            let local = (block_number - shard_start) as usize;
            entries.set(local, Some(slices));
            any = true;
        }
        pos = next;
    }
    if !any {
        return Ok(None);
    }
    Ok(Some(entries))
}

} // verus!
