//! The content hash of a sealed shard: SHA-256 over a header naming the
//! shard, its bitset, and each segment file (name, length, contents) in
//! name order; written as lowercase hexadecimal.

use vstd::prelude::*;
use sha2::Digest;
use crate::codec::append_bytes;
use vstd::seq_lib::{to_multiset_build, to_multiset_insert};
use vstd::utf8::encode_utf8;
use crate::text::{chars_of, hex_digit_char, string_from_chars};

verus! {

/// A SHA-256 computation in progress (sha2's `Sha256`).
#[verifier::external_body]
pub struct ShardDigest {
    inner: sha2::Sha256,
}

/// The bytes fed to a digest so far.
pub uninterp spec fn digest_input(d: ShardDigest) -> Seq<u8>;

/// The SHA-256 digest of `data`.
pub uninterp spec fn sha256_of(data: Seq<u8>) -> Seq<u8>;

/// Starts a digest; calls `Sha256::new`, which has absorbed nothing.
#[verifier::external_body]
fn digest_new() -> (res: ShardDigest)
    ensures
        digest_input(res) == Seq::<u8>::empty(),
{
    ShardDigest { inner: sha2::Sha256::new() }
}

/// Feeds `data`; calls `Sha256::update`, which appends it to the input.
#[verifier::external_body]
fn digest_update(d: &mut ShardDigest, data: &[u8])
    ensures
        digest_input(*final(d)) == digest_input(*old(d)) + data@,
{
    d.inner.update(data)
}

/// The digest of everything fed; calls `Sha256::finalize`, which returns
/// the 32-byte SHA-256 of the input.
#[verifier::external_body]
fn digest_finalize(d: ShardDigest) -> (res: Vec<u8>)
    ensures
        res@ == sha256_of(digest_input(d)),
        res@.len() == 32,
{
    d.inner.finalize().to_vec()
}

/// The little-endian bytes of a `u64`.
pub open spec fn le_bytes_u64(v: u64) -> Seq<u8> {
    Seq::new(8, |i: int| ((v >> (8 * i) as u64) & 0xff) as u8)
}

/// The little-endian bytes of a `u32`.
pub open spec fn le_bytes_u32(v: u32) -> Seq<u8> {
    Seq::new(4, |i: int| ((v >> (8 * i) as u32) & 0xff) as u8)
}

fn push_le_u64(out: &mut Vec<u8>, v: u64)
    ensures
        final(out)@ == old(out)@ + le_bytes_u64(v),
{
    let mut i: u64 = 0;
    while i < 8
        invariant
            i <= 8,
            out@ == old(out)@ + le_bytes_u64(v).take(i as int),
        decreases 8 - i,
    {
        out.push(((v >> (8 * i)) & 0xff) as u8);
        proof {
            assert(le_bytes_u64(v).take(i + 1) =~= le_bytes_u64(v).take(i as int).push(((v >> (8 * i) as u64) & 0xff) as u8));
        }
        i = i + 1;
    }
    proof {
        assert(le_bytes_u64(v).take(8) =~= le_bytes_u64(v));
    }
}

fn push_le_u32(out: &mut Vec<u8>, v: u32)
    ensures
        final(out)@ == old(out)@ + le_bytes_u32(v),
{
    let mut i: u32 = 0;
    while i < 4
        invariant
            i <= 4,
            out@ == old(out)@ + le_bytes_u32(v).take(i as int),
        decreases 4 - i,
    {
        out.push(((v >> (8 * i)) & 0xff) as u8);
        proof {
            assert(le_bytes_u32(v).take(i + 1) =~= le_bytes_u32(v).take(i as int).push(((v >> (8 * i) as u32) & 0xff) as u8));
        }
        i = i + 1;
    }
    proof {
        assert(le_bytes_u32(v).take(4) =~= le_bytes_u32(v));
    }
}

/// The tag that opens every shard hash: the bytes of
/// `"stateless-history-shard-v1\n"`.
pub open spec fn hash_tag() -> Seq<u8> {
    Seq::new("stateless-history-shard-v1\n"@.len(), |i: int| "stateless-history-shard-v1\n"@[i] as u8)
}

/// What a shard hash takes in before the segment files: the tag, the
/// shard's first block, its size (as 32 bits), its tail block and its
/// bitset bytes.
pub open spec fn hash_header(shard_start: u64, shard_size: u32, tail_block: u64, bitset: Seq<u8>) -> Seq<u8> {
    hash_tag() + le_bytes_u64(shard_start) + le_bytes_u32(shard_size) + le_bytes_u64(tail_block) + bitset
}

/// What a shard hash takes in before a file's contents: its name, a zero
/// byte, its length and a zero byte.
pub open spec fn file_frame(name: Seq<u8>, len: u64) -> Seq<u8> {
    name + seq![0u8] + le_bytes_u64(len) + seq![0u8]
}

/// The lowercase hexadecimal text of bytes, two digits per byte.
pub open spec fn hex_text(bytes: Seq<u8>) -> Seq<char>
    decreases bytes.len(),
{
    if bytes.len() == 0 {
        Seq::empty()
    } else {
        hex_text(bytes.drop_last()) + seq![hex_digit_char((bytes.last() / 16) as int), hex_digit_char((bytes.last() % 16) as int)]
    }
}

fn nibble_char(d: u8) -> (c: char)
    requires
        d < 16,
    ensures
        c == hex_digit_char(d as int),
{
    let v: Vec<char> = vec!['0', '1', '2', '3', '4', '5', '6', '7', '8', '9', 'a', 'b', 'c', 'd', 'e', 'f'];
    proof {
        assert(v@ =~= seq!['0', '1', '2', '3', '4', '5', '6', '7', '8', '9', 'a', 'b', 'c', 'd', 'e', 'f']);
    }
    v[d as usize]
}

/// The lowercase hexadecimal text of `bytes`.
pub fn to_hex(bytes: &[u8]) -> (res: String)
    ensures
        res@ == hex_text(bytes@),
{
    let mut chars: Vec<char> = Vec::new();
    let mut i: usize = 0;
    while i < bytes.len()
        invariant
            i <= bytes@.len(),
            chars@ == hex_text(bytes@.take(i as int)),
        decreases bytes@.len() - i,
    {
        let b = bytes[i];
        chars.push(nibble_char(b / 16));
        chars.push(nibble_char(b % 16));
        proof {
            assert(bytes@.take(i + 1).drop_last() =~= bytes@.take(i as int));
        }
        i = i + 1;
    }
    proof {
        assert(bytes@.take(bytes@.len() as int) =~= bytes@);
    }
    string_from_chars(chars.as_slice())
}

/// A shard hash being computed: what has been fed so far.
pub struct ShardHasher {
    digest: ShardDigest,
}

impl ShardHasher {
    /// The bytes fed so far.
    pub closed spec fn input(&self) -> Seq<u8> {
        digest_input(self.digest)
    }

    /// Starts the hash of a shard: see `hash_header`.
    pub fn new(shard_start: u64, shard_size: u32, tail_block: u64, bitset: &[u8]) -> (res: ShardHasher)
        ensures
            res.input() == hash_header(shard_start, shard_size, tail_block, bitset@),
    {
        let mut head: Vec<u8> = Vec::new();
        let text = "stateless-history-shard-v1\n";
        proof {
            reveal_strlit("stateless-history-shard-v1\n");
            assert(vstd::string::is_ascii(text));
            vstd::string::is_ascii_spec_bytes(text);
        }
        let tag = text.as_bytes();
        append_bytes(&mut head, tag);
        push_le_u64(&mut head, shard_start);
        push_le_u32(&mut head, shard_size);
        push_le_u64(&mut head, tail_block);
        append_bytes(&mut head, bitset);
        proof {
            assert(head@ =~= hash_header(shard_start, shard_size, tail_block, bitset@));
        }
        let mut digest = digest_new();
        digest_update(&mut digest, head.as_slice());
        ShardHasher { digest }
    }

    /// Starts the next segment file: see `file_frame`.
    pub fn begin_file(&mut self, name: &[u8], len: u64)
        ensures
            final(self).input() == old(self).input() + file_frame(name@, len),
    {
        let mut frame: Vec<u8> = Vec::new();
        append_bytes(&mut frame, name);
        frame.push(0u8);
        push_le_u64(&mut frame, len);
        frame.push(0u8);
        proof {
            assert(frame@ =~= file_frame(name@, len));
        }
        digest_update(&mut self.digest, frame.as_slice());
    }

    /// Feeds the next bytes of the current file.
    pub fn add_bytes(&mut self, chunk: &[u8])
        ensures
            final(self).input() == old(self).input() + chunk@,
    {
        digest_update(&mut self.digest, chunk);
    }

    /// The hash: the lowercase hexadecimal SHA-256 of everything fed.
    pub fn finish(self) -> (res: String)
        ensures
            res@ == hex_text(sha256_of(self.input())),
    {
        let d = digest_finalize(self.digest);
        to_hex(d.as_slice())
    }
}


/// Whether byte string `a` comes no later than `b` in lexicographic order
/// (the order of `String`, which compares the UTF-8 bytes).
pub open spec fn bytes_le(a: Seq<u8>, b: Seq<u8>) -> bool
    decreases a.len(),
{
    if a.len() == 0 {
        true
    } else if b.len() == 0 {
        false
    } else if a[0] != b[0] {
        a[0] < b[0]
    } else {
        bytes_le(a.drop_first(), b.drop_first())
    }
}

/// Whether name `a` comes no later than name `b`.
pub open spec fn name_le(a: String, b: String) -> bool {
    bytes_le(encode_utf8(a@), encode_utf8(b@))
}

/// The order is total: of two byte strings one comes no later than the other.
pub proof fn lemma_bytes_le_total(a: Seq<u8>, b: Seq<u8>)
    ensures
        bytes_le(a, b) || bytes_le(b, a),
    decreases a.len(),
{
    if a.len() > 0 && b.len() > 0 && a[0] == b[0] {
        lemma_bytes_le_total(a.drop_first(), b.drop_first());
    }
}

/// The order is transitive.
pub proof fn lemma_bytes_le_trans(a: Seq<u8>, b: Seq<u8>, c: Seq<u8>)
    requires
        bytes_le(a, b),
        bytes_le(b, c),
    ensures
        bytes_le(a, c),
    decreases a.len(),
{
    if a.len() > 0 && b.len() > 0 && c.len() > 0 && a[0] == b[0] && b[0] == c[0] {
        lemma_bytes_le_trans(a.drop_first(), b.drop_first(), c.drop_first());
    }
}

fn names_le(a: &String, b: &String) -> (res: bool)
    ensures
        res == name_le(*a, *b),
{
    let x = a.as_str().as_bytes();
    let y = b.as_str().as_bytes();
    let ghost ea = encode_utf8(a@);
    let ghost eb = encode_utf8(b@);
    let mut i: usize = 0;
    proof {
        assert(ea.subrange(0, ea.len() as int) =~= ea);
        assert(eb.subrange(0, eb.len() as int) =~= eb);
    }
    while i < x.len() && i < y.len() && x[i] == y[i]
        invariant
            x@ == ea,
            y@ == eb,
            i <= ea.len(),
            i <= eb.len(),
            bytes_le(ea, eb) == bytes_le(ea.subrange(i as int, ea.len() as int), eb.subrange(i as int, eb.len() as int)),
        decreases ea.len() - i,
    {
        proof {
            let sa = ea.subrange(i as int, ea.len() as int);
            let sb = eb.subrange(i as int, eb.len() as int);
            assert(sa.drop_first() =~= ea.subrange(i + 1, ea.len() as int));
            assert(sb.drop_first() =~= eb.subrange(i + 1, eb.len() as int));
        }
        i = i + 1;
    }
    if i == x.len() {
        true
    } else if i == y.len() {
        false
    } else {
        proof {
            let sa = ea.subrange(i as int, ea.len() as int);
            let sb = eb.subrange(i as int, eb.len() as int);
            assert(sa[0] == x@[i as int]);
            assert(sb[0] == y@[i as int]);
        }
        x[i] < y[i]
    }
}

/// Whether names are in nondecreasing order.
pub open spec fn names_sorted(s: Seq<String>) -> bool {
    forall|i: int, j: int| 0 <= i <= j < s.len() ==> name_le(s[i], s[j])
}

/// File names in the order a shard hash takes the files.
pub fn sort_file_names(names: Vec<String>) -> (res: Vec<String>)
    ensures
        names_sorted(res@),
        res@.to_multiset() == names@.to_multiset(),
{
    let mut out: Vec<String> = Vec::new();
    let mut rest = names;
    let ghost all = rest@;
    let n0 = rest.len();
    let mut i: usize = 0;
    proof {
        assert(out@ =~= all.take(0));
    }
    while rest.len() > 0
        invariant
            i + rest@.len() == all.len(),
            all.len() == n0,
            rest@ == all.subrange(i as int, all.len() as int),
            names_sorted(out@),
            out@.to_multiset() == all.take(i as int).to_multiset(),
        decreases rest@.len(),
    {
        let x = rest.remove(0);
        proof {
            assert(x == all[i as int]);
            assert(rest@ =~= all.subrange(i + 1, all.len() as int));
        }
        let mut pos: usize = 0;
        while pos < out.len() && names_le(&out[pos], &x)
            invariant
                pos <= out@.len(),
                forall|k: int| 0 <= k < pos ==> name_le(#[trigger] out@[k], x),
            decreases out@.len() - pos,
        {
            pos = pos + 1;
        }
        let ghost before = out@;
        let ghost xv = x;
        out.insert(pos, x);
        proof {
            to_multiset_insert(before, pos as int, xv);
            assert(all.take(i + 1) =~= all.take(i as int).push(xv));
            to_multiset_build(all.take(i as int), xv);
            assert forall|a: int, b: int| 0 <= a <= b < out@.len() implies name_le(out@[a], out@[b]) by {
                let va = if a < pos { before[a] } else if a == pos { xv } else { before[a - 1] };
                let vb = if b < pos { before[b] } else if b == pos { xv } else { before[b - 1] };
                assert(out@[a] == va);
                assert(out@[b] == vb);
                if a == b {
                    lemma_bytes_le_total(encode_utf8(va@), encode_utf8(va@));
                } else if a < pos && b == pos {
                } else if a < pos && b > pos {
                    assert(name_le(before[pos as int], before[b - 1]));
                    lemma_bytes_le_total(encode_utf8(before[pos as int]@), encode_utf8(xv@));
                    lemma_bytes_le_trans(encode_utf8(before[a]@), encode_utf8(xv@), encode_utf8(before[pos as int]@));
                    lemma_bytes_le_trans(encode_utf8(before[a]@), encode_utf8(before[pos as int]@), encode_utf8(before[b - 1]@));
                } else if a == pos && b > pos {
                    lemma_bytes_le_total(encode_utf8(before[pos as int]@), encode_utf8(xv@));
                    assert(name_le(before[pos as int], before[b - 1]));
                    lemma_bytes_le_trans(encode_utf8(xv@), encode_utf8(before[pos as int]@), encode_utf8(before[b - 1]@));
                }
            }
        }
        i = i + 1;
    }
    proof {
        assert(all.take(all.len() as int) =~= all);
    }
    out
}

} // verus!
