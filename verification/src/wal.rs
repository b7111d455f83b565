//! The staging write-ahead log of a shard: framing of records as bytes.
//!
//! A record is the block number (u64, little-endian), the payload length
//! (u32, little-endian), the payload, and a CRC-32 (u32, little-endian) over
//! the three preceding fields.

use crate::checksum::{crc32, crc32_of};
use crate::codec::{append_bytes, le_u32_at, le_u64_at, read_u32, read_u64};
use vstd::bytes::*;
use vstd::prelude::*;
use vstd::slice::{slice_subrange, slice_to_vec};

verus! {

/// One staged block.
#[derive(Debug)]
pub struct WalRecord {
    pub block_number: u64,
    pub payload: Vec<u8>,
}

/// Position of one record within a log.
#[derive(Debug, Clone, Copy, PartialEq, Eq)]
pub struct WalIndexEntry {
    pub block_number: u64,
    /// Offset of the record start (block_number field) within the log.
    pub record_offset: u64,
    /// Length of the record payload (not including the header or CRC trailer).
    pub payload_len: u32,
}

/// A record as plain values.
pub open spec fn record_model(r: WalRecord) -> (u64, Seq<u8>) {
    (r.block_number, r.payload@)
}

pub open spec fn records_model(rs: Seq<WalRecord>) -> Seq<(u64, Seq<u8>)> {
    rs.map_values(|r: WalRecord| record_model(r))
}

/// Block number and length fields of a record.
pub open spec fn record_head(block_number: u64, payload: Seq<u8>) -> Seq<u8> {
    spec_u64_to_le_bytes(block_number) + spec_u32_to_le_bytes(payload.len() as u32)
}

/// The bytes of one record.
pub open spec fn record_bytes(block_number: u64, payload: Seq<u8>) -> Seq<u8> {
    let covered = record_head(block_number, payload) + payload;
    covered + spec_u32_to_le_bytes(crc32_of(covered))
}

/// The bytes of a sequence of records, one after the other.
pub open spec fn encode_records_spec(rs: Seq<(u64, Seq<u8>)>) -> Seq<u8>
    decreases rs.len(),
{
    if rs.len() == 0 {
        Seq::empty()
    } else {
        record_bytes(rs[0].0, rs[0].1) + encode_records_spec(rs.drop_first())
    }
}

/// Every payload fits the u32 length field.
pub open spec fn payloads_fit(rs: Seq<(u64, Seq<u8>)>) -> bool {
    forall|i: int| 0 <= i < rs.len() ==> #[trigger] rs[i].1.len() <= u32::MAX
}

/// Length of the record starting the bytes, read from its length field.
pub open spec fn framed_len(bytes: Seq<u8>) -> int {
    16 + le_u32_at(bytes, 8) as int
}

/// Whether the bytes start with one whole record whose CRC matches.
pub open spec fn starts_with_valid_record(bytes: Seq<u8>) -> bool {
    &&& bytes.len() >= 12
    &&& bytes.len() >= framed_len(bytes)
    &&& le_u32_at(bytes, framed_len(bytes) - 4) == crc32_of(bytes.subrange(0, framed_len(bytes) - 4))
}

/// The records read from the start of the log up to the first record that is
/// incomplete or fails its CRC, and the number of bytes they take.
pub open spec fn parse_records_spec(bytes: Seq<u8>) -> (Seq<(u64, Seq<u8>)>, nat)
    decreases bytes.len(),
{
    if starts_with_valid_record(bytes) {
        let n = framed_len(bytes);
        let rest = parse_records_spec(bytes.skip(n));
        (
            seq![(le_u64_at(bytes, 0), bytes.subrange(12, n - 4))] + rest.0,
            (n + rest.1) as nat,
        )
    } else {
        (Seq::empty(), 0)
    }
}

proof fn lemma_le_roundtrips()
    ensures
        forall|x: u64| #[trigger] spec_u64_to_le_bytes(x).len() == 8,
        forall|x: u64| spec_u64_from_le_bytes(#[trigger] spec_u64_to_le_bytes(x)) == x,
        forall|x: u32| #[trigger] spec_u32_to_le_bytes(x).len() == 4,
        forall|x: u32| spec_u32_from_le_bytes(#[trigger] spec_u32_to_le_bytes(x)) == x,
{
    lemma_auto_spec_u64_to_from_le_bytes();
    lemma_auto_spec_u32_to_from_le_bytes();
    assert forall|x: u64| spec_u64_from_le_bytes(#[trigger] spec_u64_to_le_bytes(x)) == x by {
        assert(spec_u64_to_le_bytes(x).len() == 8);
    }
    assert forall|x: u32| spec_u32_from_le_bytes(#[trigger] spec_u32_to_le_bytes(x)) == x by {
        assert(spec_u32_to_le_bytes(x).len() == 4);
    }
}

/// The fields of `record_bytes` read back.
proof fn lemma_record_bytes_fields(block_number: u64, payload: Seq<u8>, tail: Seq<u8>)
    requires
        payload.len() <= u32::MAX,
    ensures
        ({
            let r = record_bytes(block_number, payload);
            let b = r + tail;
            &&& r.len() == 16 + payload.len()
            &&& framed_len(b) == r.len()
            &&& starts_with_valid_record(b)
            &&& le_u64_at(b, 0) == block_number
            &&& b.subrange(12, r.len() - 4) == payload
            &&& b.skip(r.len() as int) == tail
        }),
{
    lemma_le_roundtrips();
    let head = record_head(block_number, payload);
    let covered = head + payload;
    let r = record_bytes(block_number, payload);
    let b = r + tail;
    let n = 16 + payload.len() as int;
    assert(b.subrange(0, 8) =~= spec_u64_to_le_bytes(block_number));
    assert(b.subrange(8, 12) =~= spec_u32_to_le_bytes(payload.len() as u32));
    assert(b.subrange(n - 4, n) =~= spec_u32_to_le_bytes(crc32_of(covered)));
    assert(b.subrange(0, n - 4) =~= covered);
    assert(b.subrange(12, n - 4) =~= payload);
    assert(b.skip(n) =~= tail);
}

/// Encoding distributes over concatenation.
pub proof fn lemma_encode_concat(a: Seq<(u64, Seq<u8>)>, b: Seq<(u64, Seq<u8>)>)
    ensures
        encode_records_spec(a + b) == encode_records_spec(a) + encode_records_spec(b),
    decreases a.len(),
{
    if a.len() == 0 {
        assert(a + b =~= b);
        assert(encode_records_spec(a) + encode_records_spec(b) =~= encode_records_spec(b));
    } else {
        assert((a + b).drop_first() =~= a.drop_first() + b);
        lemma_encode_concat(a.drop_first(), b);
        assert(encode_records_spec(a + b) =~= encode_records_spec(a) + encode_records_spec(b));
    }
}

/// Reading back what was written gives the records written, and all of the
/// bytes are accounted for.
pub proof fn lemma_parse_encode(rs: Seq<(u64, Seq<u8>)>)
    requires
        payloads_fit(rs),
    ensures
        parse_records_spec(encode_records_spec(rs)) == (rs, encode_records_spec(rs).len()),
    decreases rs.len(),
{
    if rs.len() == 0 {
        assert(!starts_with_valid_record(encode_records_spec(rs)));
    } else {
        let tail = encode_records_spec(rs.drop_first());
        assert(rs[0].1.len() <= u32::MAX);
        lemma_record_bytes_fields(rs[0].0, rs[0].1, tail);
        assert(payloads_fit(rs.drop_first())) by {
            assert forall|i: int| 0 <= i < rs.drop_first().len() implies #[trigger] rs.drop_first()[i].1.len() <= u32::MAX by {
                assert(rs.drop_first()[i] == rs[i + 1]);
            }
        }
        lemma_parse_encode(rs.drop_first());
        assert(seq![(rs[0].0, rs[0].1)] + rs.drop_first() =~= rs);
    }
}

/// The records of a sequence of appends, one chunk after another.
pub open spec fn chunks_records(cs: Seq<Seq<(u64, Seq<u8>)>>) -> Seq<(u64, Seq<u8>)>
    decreases cs.len(),
{
    if cs.len() == 0 {
        Seq::empty()
    } else {
        chunks_records(cs.drop_last()) + cs.last()
    }
}

/// The log after appending each chunk in turn to an empty log.
pub open spec fn appended_log(cs: Seq<Seq<(u64, Seq<u8>)>>) -> Seq<u8>
    decreases cs.len(),
{
    if cs.len() == 0 {
        Seq::empty()
    } else {
        appended_log(cs.drop_last()) + encode_records_spec(cs.last())
    }
}

/// Appending chunks one after another to an empty log and reading it back
/// gives every record appended, in order, and takes the whole log; each
/// append only extends the log. An empty log reads back as no record.
pub proof fn lemma_appends_read_back(cs: Seq<Seq<(u64, Seq<u8>)>>)
    requires
        forall|i: int| 0 <= i < cs.len() ==> payloads_fit(#[trigger] cs[i]),
    ensures
        appended_log(cs) == encode_records_spec(chunks_records(cs)),
        parse_records_spec(appended_log(cs)) == (chunks_records(cs), appended_log(cs).len()),
        cs.len() > 0 ==> appended_log(cs.drop_last()) == appended_log(cs).take(appended_log(cs.drop_last()).len() as int),
    decreases cs.len(),
{
    if cs.len() == 0 {
        assert(!starts_with_valid_record(Seq::<u8>::empty()));
    } else {
        let init = cs.drop_last();
        assert forall|i: int| 0 <= i < init.len() implies payloads_fit(#[trigger] init[i]) by {
            assert(init[i] == cs[i]);
        }
        lemma_appends_read_back(init);
        lemma_encode_concat(chunks_records(init), cs.last());
        let all = chunks_records(cs);
        assert(payloads_fit(cs[cs.len() - 1]));
        assert(payloads_fit(all)) by {
            assert forall|i: int| 0 <= i < all.len() implies #[trigger] all[i].1.len() <= u32::MAX by {
                let a = chunks_records(init);
                if i < a.len() {
                    lemma_chunks_records_fit(init, i);
                } else {
                    assert(all[i] == cs.last()[i - a.len()]);
                }
            }
        }
        lemma_parse_encode(all);
        let pre = appended_log(init);
        assert(appended_log(cs).take(pre.len() as int) =~= pre);
    }
}

proof fn lemma_chunks_records_fit(cs: Seq<Seq<(u64, Seq<u8>)>>, i: int)
    requires
        forall|j: int| 0 <= j < cs.len() ==> payloads_fit(#[trigger] cs[j]),
        0 <= i < chunks_records(cs).len(),
    ensures
        chunks_records(cs)[i].1.len() <= u32::MAX,
    decreases cs.len(),
{
    let init = cs.drop_last();
    let a = chunks_records(init);
    assert(payloads_fit(cs[cs.len() - 1]));
    if i < a.len() {
        assert forall|j: int| 0 <= j < init.len() implies payloads_fit(#[trigger] init[j]) by {
            assert(init[j] == cs[j]);
        }
        lemma_chunks_records_fit(init, i);
    } else {
        assert(chunks_records(cs)[i] == cs.last()[i - a.len()]);
    }
}

/// Number of leading records whose bytes lie entirely within the first `k`
/// bytes of their encoding.
pub open spec fn whole_records(rs: Seq<(u64, Seq<u8>)>, k: int) -> nat
    decreases rs.len(),
{
    if rs.len() == 0 {
        0
    } else if k < record_bytes(rs[0].0, rs[0].1).len() {
        0
    } else {
        1 + whole_records(rs.drop_first(), k - record_bytes(rs[0].0, rs[0].1).len())
    }
}

/// A log cut short anywhere reads back as the records that were written
/// completely before the cut, and the bytes they take.
pub proof fn lemma_parse_truncated(rs: Seq<(u64, Seq<u8>)>, k: int)
    requires
        payloads_fit(rs),
        0 <= k <= encode_records_spec(rs).len(),
    ensures
        whole_records(rs, k) <= rs.len(),
        parse_records_spec(encode_records_spec(rs).take(k)) == (
            rs.take(whole_records(rs, k) as int),
            encode_records_spec(rs.take(whole_records(rs, k) as int)).len(),
        ),
    decreases rs.len(),
{
    lemma_le_roundtrips();
    let e = encode_records_spec(rs);
    if rs.len() == 0 {
        assert(rs.take(0) =~= rs);
        assert(!starts_with_valid_record(e.take(k)));
    } else {
        let first = record_bytes(rs[0].0, rs[0].1);
        let tail = encode_records_spec(rs.drop_first());
        assert(rs[0].1.len() <= u32::MAX);
        lemma_record_bytes_fields(rs[0].0, rs[0].1, tail);
        assert(payloads_fit(rs.drop_first())) by {
            assert forall|i: int| 0 <= i < rs.drop_first().len() implies #[trigger] rs.drop_first()[i].1.len() <= u32::MAX by {
                assert(rs.drop_first()[i] == rs[i + 1]);
            }
        }
        let t = e.take(k);
        if k < first.len() {
            if k >= 12 {
                assert(t.subrange(8, 12) =~= e.subrange(8, 12));
                assert(framed_len(t) == framed_len(e));
            }
            assert(!starts_with_valid_record(t));
            assert(rs.take(0) =~= Seq::<(u64, Seq<u8>)>::empty());
            assert(encode_records_spec(rs.take(0)).len() == 0);
        } else {
            let n = first.len() as int;
            assert(t.subrange(8, 12) =~= e.subrange(8, 12));
            assert(t.subrange(0, n - 4) =~= e.subrange(0, n - 4));
            assert(t.subrange(n - 4, n) =~= e.subrange(n - 4, n));
            assert(t.subrange(12, n - 4) =~= e.subrange(12, n - 4));
            assert(t.subrange(0, 8) =~= e.subrange(0, 8));
            assert(starts_with_valid_record(t));
            assert(t.skip(n) =~= tail.take(k - n));
            lemma_parse_truncated(rs.drop_first(), k - n);
            let m = whole_records(rs.drop_first(), k - n) as int;
            assert(rs.take(m + 1) =~= seq![rs[0]] + rs.drop_first().take(m));
            assert(rs.take(m + 1).drop_first() =~= rs.drop_first().take(m));
        }
    }
}

/// Appends the framing of `records` to `out`, in order.
pub fn encode_records(out: &mut Vec<u8>, records: &[WalRecord])
    requires
        forall|i: int| 0 <= i < records@.len() ==> #[trigger] records@[i].payload@.len() <= u32::MAX,
    ensures
        final(out)@ == old(out)@ + encode_records_spec(records_model(records@)),
{
    let ghost model = records_model(records@);
    let mut i: usize = 0;
    while i < records.len()
        invariant
            i <= records@.len(),
            model == records_model(records@),
            forall|j: int| 0 <= j < records@.len() ==> #[trigger] records@[j].payload@.len() <= u32::MAX,
            out@ == old(out)@ + encode_records_spec(model.take(i as int)),
        decreases records@.len() - i,
    {
        let record = &records[i];
        let len = record.payload.len() as u32;
        let mut covered = u64_to_le_bytes(record.block_number);
        let len_bytes = u32_to_le_bytes(len);
        append_bytes(&mut covered, len_bytes.as_slice());
        append_bytes(&mut covered, record.payload.as_slice());
        let crc = crc32(covered.as_slice());
        let crc_bytes = u32_to_le_bytes(crc);
        append_bytes(out, covered.as_slice());
        append_bytes(out, crc_bytes.as_slice());
        proof {
            let r = (record.block_number, record.payload@);
            assert(model[i as int] == r);
            assert(covered@ =~= record_head(r.0, r.1) + r.1);
            assert(model.take(i as int + 1) =~= model.take(i as int) + seq![r]);
            lemma_encode_concat(model.take(i as int), seq![r]);
            assert(encode_records_spec(seq![r]) =~= record_bytes(r.0, r.1)) by {
                assert(seq![r].drop_first() =~= Seq::<(u64, Seq<u8>)>::empty());
                assert(encode_records_spec(seq![r].drop_first()) =~= Seq::<u8>::empty());
                assert(seq![r][0] == r);
            }
        }
        i = i + 1;
    }
    proof {
        assert(model.take(records@.len() as int) =~= model);
    }
}

proof fn lemma_skip_fields(bytes: Seq<u8>, pos: int, a: int, b: int)
    requires
        0 <= pos <= bytes.len(),
        0 <= a <= b <= bytes.len() - pos,
    ensures
        bytes.skip(pos).subrange(a, b) == bytes.subrange(pos + a, pos + b),
{
    assert(bytes.skip(pos).subrange(a, b) =~= bytes.subrange(pos + a, pos + b));
}

/// Where the payload of the record at `pos` ends, when the whole record
/// (12 header bytes, the payload its length field gives, 4 CRC bytes) lies
/// within `bytes`.
pub fn frame_payload_end(bytes: &[u8], pos: usize) -> (res: Option<usize>)
    requires
        pos <= bytes@.len(),
    ensures
        ({
            let fits = pos + 16 <= bytes@.len() && pos + 16 + le_u32_at(bytes@, pos + 8) <= bytes@.len();
            &&& fits ==> res == Some((pos + 12 + le_u32_at(bytes@, pos + 8)) as usize)
            &&& !fits ==> res is None
            &&& res matches Some(e) ==> pos + 12 <= e && e + 4 <= bytes@.len()
                && e == pos + 12 + le_u32_at(bytes@, pos + 8)
        }),
{
    let remaining = bytes.len() - pos;
    if remaining < 16 {
        return None;
    }
    let mut cursor = pos + 8;
    let len_field = match read_u32(bytes, &mut cursor, bytes.len()) {
        Ok(v) => v,
        Err(_) => {
            return None;
        },
    };
    let len = len_field as usize;
    if remaining - 16 < len {
        return None;
    }
    Some(pos + 12 + len)
}

/// The record at `pos` whose payload ends at `payload_end`, given
/// `crc_actual`, the CRC-32 of `bytes[pos..payload_end]`: present exactly
/// when that equals the CRC stored after the payload.
pub fn checked_record(bytes: &[u8], pos: usize, payload_end: usize, crc_actual: u32) -> (res: Option<WalRecord>)
    requires
        pos + 12 <= payload_end,
        payload_end + 4 <= bytes@.len(),
    ensures
        crc_actual == le_u32_at(bytes@, payload_end as int) ==> (res matches Some(r)
            && r.block_number == le_u64_at(bytes@, pos as int)
            && r.payload@ == bytes@.subrange(pos + 12, payload_end as int)),
        crc_actual != le_u32_at(bytes@, payload_end as int) ==> res is None,
{
    let mut crc_pos = payload_end;
    let crc_expected = match read_u32(bytes, &mut crc_pos, bytes.len()) {
        Ok(v) => v,
        Err(_) => {
            return None;
        },
    };
    if crc_actual != crc_expected {
        return None;
    }
    let mut num_pos = pos;
    let block_number = match read_u64(bytes, &mut num_pos, bytes.len()) {
        Ok(v) => v,
        Err(_) => {
            return None;
        },
    };
    let payload = slice_to_vec(slice_subrange(bytes, pos + 12, payload_end));
    Some(WalRecord { block_number, payload })
}

/// Reads the records at the start of a log (see `parse_records_spec`).
/// Returns them with the number of bytes they take; anything after that is a
/// partial or corrupt tail.
pub fn decode_records(bytes: &[u8]) -> (res: (Vec<WalRecord>, usize))
    ensures
        (records_model(res.0@), res.1 as nat) == parse_records_spec(bytes@),
{
    let mut records: Vec<WalRecord> = Vec::new();
    let mut pos: usize = 0;
    proof {
        assert(bytes@.skip(0) =~= bytes@);
        assert(records_model(records@) =~= Seq::<(u64, Seq<u8>)>::empty());
    }
    loop
        invariant
            pos <= bytes@.len(),
            parse_records_spec(bytes@) == (
                records_model(records@) + parse_records_spec(bytes@.skip(pos as int)).0,
                (pos + parse_records_spec(bytes@.skip(pos as int)).1) as nat,
            ),
        ensures
            pos <= bytes@.len(),
            !starts_with_valid_record(bytes@.skip(pos as int)),
            parse_records_spec(bytes@) == (
                records_model(records@) + parse_records_spec(bytes@.skip(pos as int)).0,
                (pos + parse_records_spec(bytes@.skip(pos as int)).1) as nat,
            ),
        decreases bytes@.len() - pos,
    {
        let ghost rest = bytes@.skip(pos as int);
        proof {
            if pos + 12 <= bytes@.len() {
                lemma_skip_fields(bytes@, pos as int, 8, 12);
            }
        }
        let payload_end = match frame_payload_end(bytes, pos) {
            Some(e) => e,
            None => {
                break;
            },
        };
        let ghost len = payload_end - pos - 12;
        assert(payload_end + 4 <= bytes.len());
        proof {
            assert(le_u32_at(rest, 8) == le_u32_at(bytes@, pos + 8));
        }
        let crc_actual = crc32(slice_subrange(bytes, pos, payload_end));
        proof {
            let n = 16 + len;
            lemma_skip_fields(bytes@, pos as int, n - 4, n);
            lemma_skip_fields(bytes@, pos as int, 0, n - 4);
            assert(le_u32_at(bytes@, payload_end as int) == le_u32_at(rest, n - 4));
        }
        let record = match checked_record(bytes, pos, payload_end, crc_actual) {
            Some(r) => r,
            None => {
                break;
            },
        };
        proof {
            let n = 16 + len;
            lemma_skip_fields(bytes@, pos as int, 0, 8);
            lemma_skip_fields(bytes@, pos as int, 12, n - 4);
            assert(starts_with_valid_record(rest));
            assert(rest.skip(n) =~= bytes@.skip(pos + n));
            assert(records_model(records@.push(record)) =~= records_model(records@) + seq![record_model(record)]);
        }
        records.push(record);
        pos = payload_end + 4;
    }
    proof {
        assert(records_model(records@) + Seq::<(u64, Seq<u8>)>::empty() =~= records_model(records@));
    }
    (records, pos)
}

/// One step of indexing a log without reading payloads: given the 12 header
/// bytes of the record at `record_offset` in a file of `file_len` bytes,
/// returns its entry and the offset of the next record, or `None` when the
/// record does not end within the file. The next offset saturates at
/// `u64::MAX`.
pub fn next_index_entry(header: &[u8], record_offset: u64, file_len: u64) -> (res: Option<(WalIndexEntry, u64)>)
    requires
        header@.len() == 12,
    ensures
        ({
            let exact = record_offset as int + 16 + le_u32_at(header@, 8) as int;
            let next = if exact > u64::MAX { u64::MAX as int } else { exact };
            &&& next > file_len ==> res is None
            &&& next <= file_len ==> res == Some((
                WalIndexEntry {
                    block_number: le_u64_at(header@, 0),
                    record_offset,
                    payload_len: le_u32_at(header@, 8),
                },
                next as u64,
            ))
        }),
{
    let mut pos: usize = 0;
    let block_number = match read_u64(header, &mut pos, 12) {
        Ok(v) => v,
        Err(_) => {
            return None;
        },
    };
    let payload_len = match read_u32(header, &mut pos, 12) {
        Ok(v) => v,
        Err(_) => {
            return None;
        },
    };
    let next = record_offset.saturating_add(8).saturating_add(4).saturating_add(
        payload_len as u64,
    ).saturating_add(4);
    if next > file_len {
        return None;
    }
    Some((WalIndexEntry { block_number, record_offset, payload_len }, next))
}

} // verus!
