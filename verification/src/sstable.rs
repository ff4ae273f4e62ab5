//! The immutable sorted table: one byte buffer holding four regions in order
//! — records sorted by key, the serialised membership filter, the sparse
//! index, and a fixed 36-byte footer with the region pointers and a CRC-32
//! checksum over everything before the footer.
//!
//! Record framing: a 32-bit little-endian key length, the key bytes, a 32-bit
//! value length and the value bytes; the value length `0xFFFF_FFFF` marks a
//! tombstone and no value bytes follow. Index entries are framed as key
//! length, key bytes, and a 64-bit byte offset into the data region. The
//! checksum is CRC-32 (reflected, polynomial 0xEDB88320) over the bytes
//! `[0, index_offset + index_size)`, finalised by one's complement.

use vstd::prelude::*;

use crate::bloom::{filter_bytes_contains, filter_bytes_wf, BloomFilter};
use crate::bytes::{bytes_eq, copy_range, key_lt, le32_val, le64_val, lemma_le32_inverse,
    lemma_le32_roundtrip, lemma_le64_roundtrip, lemma_lex_irrefl,
    lemma_lex_trans, lex_lt, push_bytes, push_u32_le, push_u64_le, read_u32_le, read_u64_le,
    u32_le, u64_le};
use crate::error::Error;
use crate::kv::{keys_sorted, lemma_seq_to_map_absent, lemma_seq_to_map_index,
    lemma_sorted_distinct, seq_to_map, Rec};
use crate::memtable::{pairs_view, Entry, MemTable};

verus! {

/// The framing limits of one record: a non-empty key whose length fits 32
/// bits, and a value length below the tombstone sentinel.
pub open spec fn rec_wf(r: Rec) -> bool {
    &&& 1 <= r.0.len() <= u32::MAX
    &&& r.1 is Some ==> r.1->Some_0.len() < u32::MAX
}

pub open spec fn recs_wf(rs: Seq<Rec>) -> bool {
    forall|i: int| 0 <= i < rs.len() ==> rec_wf(#[trigger] rs[i])
}

/// The framed image of one record.
pub open spec fn encode_record(r: Rec) -> Seq<u8> {
    match r.1 {
        Some(v) => u32_le(r.0.len() as u32) + r.0 + u32_le(v.len() as u32) + v,
        None => u32_le(r.0.len() as u32) + r.0 + u32_le(u32::MAX),
    }
}

/// The image of the whole data region: the records in order.
pub open spec fn encode_records(rs: Seq<Rec>) -> Seq<u8>
    decreases rs.len(),
{
    if rs.len() == 0 {
        Seq::empty()
    } else {
        encode_record(rs[0]) + encode_records(rs.skip(1))
    }
}

/// The byte offset of record `i` within the data region.
pub open spec fn rec_offset(rs: Seq<Rec>, i: int) -> int
    decreases i,
{
    if i <= 0 {
        0
    } else {
        rec_offset(rs, i - 1) + encode_record(rs[i - 1]).len()
    }
}

/// Reads one record off the front of `data`: the record and the number of
/// bytes it occupies.
pub open spec fn parse_rec(data: Seq<u8>) -> Option<(Rec, int)> {
    if data.len() < 8 {
        None
    } else {
        let klen = le32_val(data.subrange(0, 4));
        if klen < 1 || 8 + klen > data.len() {
            None
        } else {
            let vlen = le32_val(data.subrange(4 + klen, 8 + klen));
            if vlen == u32::MAX {
                Some(((data.subrange(4, 4 + klen), None), 8 + klen))
            } else if 8 + klen + vlen > data.len() {
                None
            } else {
                Some(
                    (
                        (
                            data.subrange(4, 4 + klen),
                            Some(data.subrange(8 + klen, 8 + klen + vlen)),
                        ),
                        8 + klen + vlen,
                    ),
                )
            }
        }
    }
}

/// Reads a whole data region. `Some` exactly when the bytes are a sequence of
/// valid records ending at a record boundary.
pub open spec fn parse_records(data: Seq<u8>) -> Option<Seq<Rec>>
    decreases data.len(),
{
    if data.len() == 0 {
        Some(Seq::empty())
    } else {
        match parse_rec(data) {
            None => None,
            Some((r, n)) => match parse_records(data.skip(n)) {
                None => None,
                Some(rest) => Some(seq![r] + rest),
            },
        }
    }
}

/// The framed image of one sparse-index entry: key length, key, byte offset.
pub open spec fn encode_ientry(e: (Seq<u8>, u64)) -> Seq<u8> {
    u32_le(e.0.len() as u32) + e.0 + u64_le(e.1)
}

pub open spec fn ientry_wf(e: (Seq<u8>, u64)) -> bool {
    1 <= e.0.len() <= u32::MAX
}

pub open spec fn encode_index(es: Seq<(Seq<u8>, u64)>) -> Seq<u8>
    decreases es.len(),
{
    if es.len() == 0 {
        Seq::empty()
    } else {
        encode_ientry(es[0]) + encode_index(es.skip(1))
    }
}

/// Reads one index entry off the front of `data`.
pub open spec fn parse_ientry(data: Seq<u8>) -> Option<((Seq<u8>, u64), int)> {
    if data.len() < 12 {
        None
    } else {
        let klen = le32_val(data.subrange(0, 4));
        if klen < 1 || 12 + klen > data.len() {
            None
        } else {
            Some(
                (
                    (
                        data.subrange(4, 4 + klen),
                        le64_val(data.subrange(4 + klen, 12 + klen)) as u64,
                    ),
                    12 + klen,
                ),
            )
        }
    }
}

/// Reads a whole index region.
pub open spec fn parse_index(data: Seq<u8>) -> Option<Seq<(Seq<u8>, u64)>>
    decreases data.len(),
{
    if data.len() == 0 {
        Some(Seq::empty())
    } else {
        match parse_ientry(data) {
            None => None,
            Some((e, n)) => match parse_index(data.skip(n)) {
                None => None,
                Some(rest) => Some(seq![e] + rest),
            },
        }
    }
}

/// One shift-and-conditionally-xor round of the reflected CRC-32.
pub open spec fn crc_round(c: u32) -> u32 {
    if c & 1u32 == 1u32 {
        (c >> 1u32) ^ 0xEDB88320u32
    } else {
        c >> 1u32
    }
}

/// `n` rounds applied in order.
pub open spec fn crc_rounds(c: u32, n: nat) -> u32
    decreases n,
{
    if n == 0 {
        c
    } else {
        crc_rounds(crc_round(c), (n - 1) as nat)
    }
}

/// One byte folded into the running CRC.
pub open spec fn crc_byte(c: u32, b: u8) -> u32 {
    crc_rounds(c ^ (b as u32), 8)
}

/// The running CRC over a byte string.
pub open spec fn crc32_spec(c: u32, data: Seq<u8>) -> u32
    decreases data.len(),
{
    if data.len() == 0 {
        c
    } else {
        crc_byte(crc32_spec(c, data.drop_last()), data.last())
    }
}

/// Folds a byte string into a running CRC-32.
fn crc32_update(crc: u32, data: &[u8]) -> (r: u32)
    ensures
        r == crc32_spec(crc, data@),
{
    let mut c = crc;
    let mut i: usize = 0;
    while i < data.len()
        invariant
            0 <= i <= data@.len(),
            c == crc32_spec(crc, data@.take(i as int)),
        decreases data@.len() - i,
    {
        proof {
            assert(data@.take(i as int + 1).drop_last() =~= data@.take(i as int));
            assert(data@.take(i as int + 1).last() == data@[i as int]);
        }
        let mut b = c ^ (data[i] as u32);
        let ghost start = b;
        let mut j: usize = 0;
        while j < 8
            invariant
                0 <= j <= 8,
                crc_rounds(b, (8 - j) as nat) == crc_rounds(start, 8),
            decreases 8 - j,
        {
            proof {
                assert(b & 1u32 == 0u32 || b & 1u32 == 1u32) by (bit_vector);
                assert(crc_rounds(b, (8 - j) as nat) == crc_rounds(
                    crc_round(b),
                    (7 - j) as nat,
                ));
            }
            if b & 1 != 0 {
                b = (b >> 1u32) ^ 0xEDB88320;
            } else {
                b = b >> 1u32;
            }
            j = j + 1;
        }
        c = b;
        i = i + 1;
    }
    proof {
        assert(data@.take(data@.len() as int) =~= data@);
    }
    c
}

/// Appending bytes continues the running CRC where it stopped.
proof fn lemma_crc_append(c: u32, x: Seq<u8>, y: Seq<u8>)
    ensures
        crc32_spec(c, x + y) == crc32_spec(crc32_spec(c, x), y),
    decreases y.len(),
{
    if y.len() == 0 {
        assert(x + y =~= x);
    } else {
        assert((x + y).drop_last() =~= x + y.drop_last());
        assert((x + y).last() == y.last());
        lemma_crc_append(c, x, y.drop_last());
    }
}

pub proof fn lemma_encode_records_push(rs: Seq<Rec>, r: Rec)
    ensures
        encode_records(rs.push(r)) == encode_records(rs) + encode_record(r),
    decreases rs.len(),
{
    if rs.len() == 0 {
        assert(rs.push(r)[0] == r);
        assert(rs.push(r).skip(1) =~= Seq::<Rec>::empty());
        assert(encode_records(Seq::<Rec>::empty()) == Seq::<u8>::empty());
        assert(encode_records(rs.push(r)) == encode_record(r) + Seq::<u8>::empty());
        assert(encode_records(rs.push(r)) =~= encode_records(rs) + encode_record(r));
    } else {
        assert(rs.push(r)[0] == rs[0]);
        assert(rs.push(r).skip(1) =~= rs.skip(1).push(r));
        lemma_encode_records_push(rs.skip(1), r);
        assert(encode_records(rs.push(r)) == encode_record(rs[0]) + encode_records(
            rs.skip(1).push(r),
        ));
        assert(encode_records(rs) == encode_record(rs[0]) + encode_records(rs.skip(1)));
        assert(encode_record(rs[0]) + (encode_records(rs.skip(1)) + encode_record(r)) =~= (
        encode_record(rs[0]) + encode_records(rs.skip(1))) + encode_record(r));
    }
}

pub proof fn lemma_encode_index_push(es: Seq<(Seq<u8>, u64)>, e: (Seq<u8>, u64))
    ensures
        encode_index(es.push(e)) == encode_index(es) + encode_ientry(e),
    decreases es.len(),
{
    if es.len() == 0 {
        assert(es.push(e)[0] == e);
        assert(es.push(e).skip(1) =~= Seq::<(Seq<u8>, u64)>::empty());
        assert(encode_index(Seq::<(Seq<u8>, u64)>::empty()) == Seq::<u8>::empty());
        assert(encode_index(es.push(e)) == encode_ientry(e) + Seq::<u8>::empty());
        assert(encode_index(es.push(e)) =~= encode_index(es) + encode_ientry(e));
    } else {
        assert(es.push(e)[0] == es[0]);
        assert(es.push(e).skip(1) =~= es.skip(1).push(e));
        lemma_encode_index_push(es.skip(1), e);
        assert(encode_index(es.push(e)) == encode_ientry(es[0]) + encode_index(
            es.skip(1).push(e),
        ));
        assert(encode_index(es) == encode_ientry(es[0]) + encode_index(es.skip(1)));
        assert(encode_ientry(es[0]) + (encode_index(es.skip(1)) + encode_ientry(e)) =~= (
        encode_ientry(es[0]) + encode_index(es.skip(1))) + encode_ientry(e));
    }
}

/// A framed record followed by anything parses back to itself.
proof fn lemma_parse_rec_frame(r: Rec, tail: Seq<u8>)
    requires
        rec_wf(r),
    ensures
        parse_rec(encode_record(r) + tail) == Some((r, encode_record(r).len() as int)),
{
    let data = encode_record(r) + tail;
    let klen = r.0.len() as int;
    assert(data.subrange(0, 4) =~= u32_le(r.0.len() as u32));
    lemma_le32_roundtrip(r.0.len() as u32);
    assert(le32_val(data.subrange(0, 4)) == klen);
    assert(data.subrange(4, 4 + klen) =~= r.0);
    match r.1 {
        Some(v) => {
            let vlen = v.len() as int;
            assert(encode_record(r).len() == 8 + klen + vlen);
            assert(data.subrange(4 + klen, 8 + klen) =~= u32_le(v.len() as u32));
            lemma_le32_roundtrip(v.len() as u32);
            assert(le32_val(data.subrange(4 + klen, 8 + klen)) == vlen);
            assert(data.subrange(8 + klen, 8 + klen + vlen) =~= v);
        },
        None => {
            assert(encode_record(r).len() == 8 + klen);
            assert(data.subrange(4 + klen, 8 + klen) =~= u32_le(u32::MAX));
            lemma_le32_roundtrip(u32::MAX);
            assert(le32_val(data.subrange(4 + klen, 8 + klen)) == u32::MAX);
        },
    }
}

/// A framed index entry followed by anything parses back to itself.
proof fn lemma_parse_ientry_frame(e: (Seq<u8>, u64), tail: Seq<u8>)
    requires
        ientry_wf(e),
    ensures
        parse_ientry(encode_ientry(e) + tail) == Some((e, encode_ientry(e).len() as int)),
{
    let data = encode_ientry(e) + tail;
    let klen = e.0.len() as int;
    assert(encode_ientry(e).len() == 12 + klen);
    assert(data.subrange(0, 4) =~= u32_le(e.0.len() as u32));
    lemma_le32_roundtrip(e.0.len() as u32);
    assert(le32_val(data.subrange(0, 4)) == klen);
    assert(data.subrange(4, 4 + klen) =~= e.0);
    assert(data.subrange(4 + klen, 12 + klen) =~= u64_le(e.1));
    lemma_le64_roundtrip(e.1);
    assert(le64_val(data.subrange(4 + klen, 12 + klen)) == e.1);
}

/// The image of a record sequence parses back to exactly that sequence.
#[verifier::rlimit(100)]
pub proof fn lemma_records_roundtrip(rs: Seq<Rec>)
    requires
        recs_wf(rs),
    ensures
        parse_records(encode_records(rs)) == Some(rs),
    decreases rs.len(),
{
    if rs.len() == 0 {
        assert(encode_records(rs) =~= Seq::<u8>::empty());
        assert(parse_records(encode_records(rs)) == Some(rs)) by {
            assert(rs =~= Seq::<Rec>::empty());
        }
    } else {
        let e0 = encode_record(rs[0]);
        let rest = encode_records(rs.skip(1));
        let data = encode_records(rs);
        assert(data == e0 + rest);
        lemma_parse_rec_frame(rs[0], rest);
        assert(parse_rec(data) == Some((rs[0], e0.len() as int)));
        assert(data.skip(e0.len() as int) =~= rest);
        assert(forall|i: int| 0 <= i < rs.skip(1).len() ==> rec_wf(#[trigger] rs.skip(1)[i]));
        lemma_records_roundtrip(rs.skip(1));
        assert(parse_records(data.skip(e0.len() as int)) == Some(rs.skip(1)));
        assert(data.len() > 0) by {
            assert(e0.len() >= 8);
        }
        assert(parse_records(data) == Some(seq![rs[0]] + rs.skip(1)));
        assert(seq![rs[0]] + rs.skip(1) =~= rs);
    }
}

/// The image of an index parses back to exactly that index.
#[verifier::rlimit(100)]
#[verifier::spinoff_prover]
pub proof fn lemma_index_roundtrip(es: Seq<(Seq<u8>, u64)>)
    requires
        forall|i: int| 0 <= i < es.len() ==> ientry_wf(#[trigger] es[i]),
    ensures
        parse_index(encode_index(es)) == Some(es),
    decreases es.len(),
{
    if es.len() == 0 {
        assert(encode_index(es) =~= Seq::<u8>::empty());
        assert(parse_index(encode_index(es)) == Some(es)) by {
            assert(es =~= Seq::<(Seq<u8>, u64)>::empty());
        }
    } else {
        let e0 = encode_ientry(es[0]);
        let rest = encode_index(es.skip(1));
        let data = encode_index(es);
        assert(data == e0 + rest);
        lemma_parse_ientry_frame(es[0], rest);
        assert(parse_ientry(data) == Some((es[0], e0.len() as int)));
        assert(data.skip(e0.len() as int) =~= rest);
        assert(forall|i: int| 0 <= i < es.skip(1).len() ==> ientry_wf(#[trigger] es.skip(1)[i]));
        lemma_index_roundtrip(es.skip(1));
        assert(parse_index(data.skip(e0.len() as int)) == Some(es.skip(1)));
        assert(data.len() > 0) by {
            assert(e0.len() >= 12);
        }
        assert(parse_index(data) == Some(seq![es[0]] + es.skip(1)));
        assert(seq![es[0]] + es.skip(1) =~= es);
    }
}

/// The record read off the front of a data region is framed exactly as its
/// encoder frames it.
proof fn lemma_parse_rec_is_exact(data: Seq<u8>)
    requires
        parse_rec(data) is Some,
    ensures
        rec_wf(parse_rec(data)->Some_0.0),
        encode_record(parse_rec(data)->Some_0.0) == data.take(parse_rec(data)->Some_0.1),
{
    let (r, n) = parse_rec(data)->Some_0;
    let klen = le32_val(data.subrange(0, 4));
    lemma_le32_inverse(data.subrange(0, 4));
    match r.1 {
        Some(v) => {
            let vlen = le32_val(data.subrange(4 + klen, 8 + klen));
            lemma_le32_inverse(data.subrange(4 + klen, 8 + klen));
            assert(r.0.len() == klen && v.len() == vlen);
            assert(u32_le(r.0.len() as u32) == data.subrange(0, 4));
            assert(u32_le(v.len() as u32) == data.subrange(4 + klen, 8 + klen));
            assert(encode_record(r) =~= data.take(n));
        },
        None => {
            assert(r.0.len() == klen);
            assert(u32_le(r.0.len() as u32) == data.subrange(0, 4));
            assert(u32_le(u32::MAX) == data.subrange(4 + klen, 8 + klen)) by {
                lemma_le32_roundtrip(u32::MAX);
                assert(le32_val(data.subrange(4 + klen, 8 + klen)) == u32::MAX);
                lemma_le32_inverse(data.subrange(4 + klen, 8 + klen));
            }
            assert(encode_record(r) =~= data.take(n));
        },
    }
}

/// A data region that parses is exactly the image of what it parses to, and
/// every parsed record respects the framing limits.
#[verifier::rlimit(100)]
pub proof fn lemma_parse_records_exact(data: Seq<u8>)
    ensures
        parse_records(data) is Some ==> encode_records(parse_records(data)->Some_0) == data,
        parse_records(data) is Some ==> recs_wf(parse_records(data)->Some_0),
    decreases data.len(),
{
    if data.len() == 0 {
        if parse_records(data) is Some {
            assert(encode_records(parse_records(data)->Some_0) =~= data);
        }
    } else if parse_rec(data) is Some {
        let (r, n) = parse_rec(data)->Some_0;
        assert(8 <= n <= data.len());
        lemma_parse_records_exact(data.skip(n));
        if parse_records(data.skip(n)) is Some {
            let rest = parse_records(data.skip(n))->Some_0;
            let rs = seq![r] + rest;
            assert(parse_records(data)->Some_0 == rs);
            lemma_parse_rec_is_exact(data);
            assert(rs[0] == r);
            assert(rs.skip(1) =~= rest);
            assert(encode_records(rs) == encode_record(r) + encode_records(rest));
            assert(encode_record(r) + encode_records(rest) =~= data) by {
                assert(encode_records(rest) == data.skip(n));
                assert(data.take(n) + data.skip(n) =~= data);
            }
            assert forall|i: int| 0 <= i < rs.len() implies rec_wf(#[trigger] rs[i]) by {
                if i > 0 {
                    assert(rs[i] == rest[i - 1]);
                }
            }
        }
    }
}

/// The bytes of a record sequence from the offset of record `i` on are the
/// image of the records from `i` on.
proof fn lemma_encode_skip(rs: Seq<Rec>, i: int)
    requires
        0 <= i <= rs.len(),
    ensures
        0 <= rec_offset(rs, i),
        rec_offset(rs, i) + encode_records(rs.skip(i)).len() == encode_records(rs).len(),
        encode_records(rs).skip(rec_offset(rs, i)) == encode_records(rs.skip(i)),
    decreases i,
{
    if i == 0 {
        assert(rs.skip(0) =~= rs);
        assert(encode_records(rs).skip(0) =~= encode_records(rs));
    } else {
        lemma_encode_skip(rs, i - 1);
        let data = encode_records(rs);
        let off = rec_offset(rs, i - 1);
        let suf = rs.skip(i - 1);
        let n = encode_record(rs[i - 1]).len() as int;
        assert(suf.len() > 0);
        assert(suf[0] == rs[i - 1]);
        assert(encode_records(suf) == encode_record(rs[i - 1]) + encode_records(suf.skip(1)));
        assert(suf.skip(1) =~= rs.skip(i));
        assert(rec_offset(rs, i) == off + n);
        assert(data.skip(off) == encode_records(suf));
        assert(data.skip(off).skip(n) =~= data.skip(off + n));
        assert(encode_records(suf).skip(n) =~= encode_records(rs.skip(i)));
    }
}

/// Within the image of a record sequence, the bytes from the offset of record
/// `i` parse to the records from `i` on.
pub proof fn lemma_parse_records_suffix(rs: Seq<Rec>, i: int)
    requires
        recs_wf(rs),
        0 <= i <= rs.len(),
    ensures
        0 <= rec_offset(rs, i),
        rec_offset(rs, i) + encode_records(rs.skip(i)).len() == encode_records(rs).len(),
        parse_records(encode_records(rs).skip(rec_offset(rs, i))) == Some(rs.skip(i)),
{
    lemma_encode_skip(rs, i);
    assert(forall|j: int| 0 <= j < rs.skip(i).len() ==> rec_wf(#[trigger] rs.skip(i)[j]));
    lemma_records_roundtrip(rs.skip(i));
}

/// The start of the footer.
pub open spec fn foot_base(bytes: Seq<u8>) -> int {
    bytes.len() - 36
}

/// The filter region's byte offset, read from the footer.
pub open spec fn spec_bloom_off(bytes: Seq<u8>) -> int {
    le64_val(bytes.subrange(foot_base(bytes), foot_base(bytes) + 8))
}

/// The filter region's size, read from the footer.
pub open spec fn spec_bloom_size(bytes: Seq<u8>) -> int {
    le64_val(bytes.subrange(foot_base(bytes) + 8, foot_base(bytes) + 16))
}

/// The index region's byte offset, read from the footer.
pub open spec fn spec_index_off(bytes: Seq<u8>) -> int {
    le64_val(bytes.subrange(foot_base(bytes) + 16, foot_base(bytes) + 24))
}

/// The index region's size, read from the footer.
pub open spec fn spec_index_size(bytes: Seq<u8>) -> int {
    le64_val(bytes.subrange(foot_base(bytes) + 24, foot_base(bytes) + 32))
}

/// The stored checksum, read from the footer.
pub open spec fn spec_checksum(bytes: Seq<u8>) -> int {
    le32_val(bytes.subrange(foot_base(bytes) + 32, foot_base(bytes) + 36))
}

/// The data region: every byte before the filter.
pub open spec fn data_region(bytes: Seq<u8>) -> Seq<u8> {
    bytes.subrange(0, spec_bloom_off(bytes))
}

/// The serialised filter region.
pub open spec fn filter_region(bytes: Seq<u8>) -> Seq<u8> {
    bytes.subrange(spec_bloom_off(bytes), spec_bloom_off(bytes) + spec_bloom_size(bytes))
}

/// The sparse-index region.
pub open spec fn index_region(bytes: Seq<u8>) -> Seq<u8> {
    bytes.subrange(spec_index_off(bytes), spec_index_off(bytes) + spec_index_size(bytes))
}

/// The records a table file holds, in stored order.
pub open spec fn table_records(bytes: Seq<u8>) -> Seq<Rec> {
    parse_records(data_region(bytes))->Some_0
}

/// An index entry that names a record of `rs` and its true byte offset.
pub open spec fn ix_entry_ok(e: (Seq<u8>, u64), rs: Seq<Rec>) -> bool {
    exists|i: int| 0 <= i < rs.len() && (#[trigger] rs[i]).0 == e.0 && rec_offset(rs, i) == e.1
}

/// A sound sparse index for a record sequence: every entry names a record and
/// its true byte offset, entries ascend strictly by key, and a non-empty table
/// is always indexed from its first record.
pub open spec fn ix_valid(ix: Seq<(Seq<u8>, u64)>, rs: Seq<Rec>) -> bool {
    &&& forall|j: int| 0 <= j < ix.len() ==> ix_entry_ok(#[trigger] ix[j], rs)
    &&& forall|j1: int, j2: int| #![trigger ix[j1], ix[j2]] 0 <= j1 < j2 < ix.len() ==> lex_lt(
        ix[j1].0,
        ix[j2].0,
    )
    &&& rs.len() > 0 ==> ix.len() > 0 && ix[0].0 == rs[0].0 && ix[0].1 == 0
}

/// A valid table file: in-range region pointers, a matching checksum, a data
/// region of strictly ascending records, a filter that covers every stored
/// key, and a sound sparse index.
pub open spec fn table_wf(bytes: Seq<u8>) -> bool {
    &&& bytes.len() >= 36
    &&& spec_bloom_off(bytes) + spec_bloom_size(bytes) <= spec_index_off(bytes)
    &&& spec_index_off(bytes) + spec_index_size(bytes) <= bytes.len() - 36
    &&& spec_checksum(bytes) == !crc32_spec(
        0xFFFFFFFFu32,
        bytes.take(spec_index_off(bytes) + spec_index_size(bytes)),
    )
    &&& parse_records(data_region(bytes)) is Some
    &&& keys_sorted(table_records(bytes))
    &&& filter_bytes_wf(filter_region(bytes))
    &&& forall|i: int| 0 <= i < table_records(bytes).len() ==> filter_bytes_contains(
        filter_region(bytes),
        (#[trigger] table_records(bytes)[i]).0,
    )
    &&& parse_index(index_region(bytes)) is Some
    &&& ix_valid(parse_index(index_region(bytes))->Some_0, table_records(bytes))
}

/// The model of a loaded index: keys and offsets as mathematical values.
pub open spec fn ix_view(s: Seq<(Vec<u8>, u64)>) -> Seq<(Seq<u8>, u64)> {
    s.map_values(|p: (Vec<u8>, u64)| (p.0@, p.1))
}

/// Stepping a positive count down by one moves its quotient by the interval
/// exactly when the count is a multiple of the interval.
proof fn lemma_div_step(c: int, s: int)
    requires
        s >= 1,
        c >= 1,
    ensures
        c % s == 0 ==> (c - 1) / s == c / s - 1 && c == (c / s) * s,
        c % s != 0 ==> (c - 1) / s == c / s,
{
    vstd::arithmetic::div_mod::lemma_fundamental_div_mod(c, s);
    vstd::arithmetic::div_mod::lemma_mod_bound(c, s);
    let q = c / s;
    let r = c % s;
    if r == 0 {
        assert(c == s * q);
        assert(q >= 1) by (nonlinear_arith)
            requires
                c == s * q,
                c >= 1,
                s >= 1,
        ;
        assert(c - 1 == (q - 1) * s + (s - 1)) by (nonlinear_arith)
            requires
                c == s * q,
        ;
        vstd::arithmetic::div_mod::lemma_fundamental_div_mod_converse_div(c - 1, s, q - 1, s - 1);
        assert(c == q * s) by (nonlinear_arith)
            requires
                c == s * q,
        ;
    } else {
        assert(c - 1 == q * s + (r - 1)) by (nonlinear_arith)
            requires
                c == s * q + r,
        ;
        vstd::arithmetic::div_mod::lemma_fundamental_div_mod_converse_div(c - 1, s, q, r - 1);
    }
}

/// Appending a record does not move the ones before it.
proof fn lemma_rec_offset_push(rs: Seq<Rec>, r: Rec, i: int)
    requires
        0 <= i <= rs.len(),
    ensures
        rec_offset(rs.push(r), i) == rec_offset(rs, i),
    decreases i,
{
    if i > 0 {
        assert(rs.push(r)[i - 1] == rs[i - 1]);
        lemma_rec_offset_push(rs, r, i - 1);
    }
}

/// A builder for one sorted table. Records arrive in strictly ascending key
/// order; every `sparse_interval`-th record is indexed, every record enters
/// the filter, and the checksum runs along. `finish` appends the filter, the
/// index and the footer and hands the finished file image back.
pub struct SSTableBuilder {
    buf: Vec<u8>,
    index: Vec<(Vec<u8>, u64)>,
    record_count: usize,
    sparse_interval: usize,
    bloom: BloomFilter,
    checksum: u32,
    records_gh: Ghost<Seq<Rec>>,
    ipos_gh: Ghost<Seq<int>>,
}

impl SSTableBuilder {
    /// The records added so far.
    pub closed spec fn records(self) -> Seq<Rec> {
        self.records_gh@
    }

    /// Well-formed: the buffer is the image of the records added so far, the
    /// checksum runs over it, keys ascend strictly, the filter covers every
    /// key, and the index names true record offsets.
    pub closed spec fn wf(self) -> bool {
        &&& self.buf@ == encode_records(self.records_gh@)
        &&& self.checksum == crc32_spec(0xFFFFFFFFu32, self.buf@)
        &&& keys_sorted(self.records_gh@)
        &&& recs_wf(self.records_gh@)
        &&& self.record_count as int == self.records_gh@.len()
        &&& 9 * (self.record_count as int) <= self.buf@.len()
        &&& self.sparse_interval >= 1
        &&& self.bloom.wf()
        &&& self.bloom.m_spec() > 0
        &&& forall|i: int| 0 <= i < self.records_gh@.len() ==> self.bloom.contains_spec(
            (#[trigger] self.records_gh@[i]).0,
        )
        &&& self.ipos_gh@.len() == self.index@.len()
        &&& forall|j: int| 0 <= j < self.ipos_gh@.len() ==> 0 <= #[trigger] self.ipos_gh@[j]
            < self.records_gh@.len()
        &&& forall|j: int| 0 <= j < self.ipos_gh@.len() ==> (#[trigger] self.index@[j]).0@
            == self.records_gh@[self.ipos_gh@[j]].0 && self.index@[j].1 == rec_offset(
            self.records_gh@,
            self.ipos_gh@[j],
        )
        &&& forall|j1: int, j2: int| #![trigger self.ipos_gh@[j1], self.ipos_gh@[j2]] 0 <= j1 < j2
            < self.ipos_gh@.len() ==> self.ipos_gh@[j1] < self.ipos_gh@[j2]
        &&& self.records_gh@.len() > 0 ==> self.ipos_gh@.len() > 0 && self.ipos_gh@[0] == 0
        &&& self.records_gh@.len() == 0 ==> self.ipos_gh@.len() == 0
        &&& forall|j: int| 0 <= j < self.ipos_gh@.len() ==> #[trigger] self.ipos_gh@[j] == j * (
        self.sparse_interval as int)
        &&& self.records_gh@.len() > 0 ==> self.ipos_gh@.len() == 1 + (self.records_gh@.len() - 1)
            / (self.sparse_interval as int)
    }

    /// Public face of the builder invariant: the records added so far ascend
    /// strictly and respect the framing limits.
    pub proof fn lemma_wf_sorted(self)
        requires
            self.wf(),
        ensures
            keys_sorted(self.records()),
            recs_wf(self.records()),
    {
    }

    /// Creates a builder that indexes every `sparse_interval`-th record.
    pub fn new(sparse_interval: usize) -> (r: SSTableBuilder)
        requires
            sparse_interval >= 1,
        ensures
            r.wf(),
            r.records() == Seq::<Rec>::empty(),
    {
        let r = SSTableBuilder {
            buf: Vec::new(),
            index: Vec::new(),
            record_count: 0,
            sparse_interval,
            bloom: BloomFilter::new(1000),
            checksum: 0xFFFFFFFF,
            records_gh: Ghost(Seq::empty()),
            ipos_gh: Ghost(Seq::empty()),
        };
        proof {
            assert(r.buf@ =~= encode_records(Seq::<Rec>::empty()));
        }
        r
    }

    /// Adds one record; keys must arrive in strictly ascending order.
    #[verifier::rlimit(100)]
    pub fn add_record(&mut self, key: &[u8], entry: &Entry)
        requires
            old(self).wf(),
            rec_wf((key@, entry@)),
            old(self).records().len() > 0 ==> lex_lt(old(self).records().last().0, key@),
        ensures
            final(self).wf(),
            final(self).records() == old(self).records().push((key@, entry@)),
    {
        let ghost rs = self.records_gh@;
        let ghost rec: Rec = (key@, entry@);
        proof {
            lemma_parse_records_suffix(rs, rs.len() as int);
            assert(rs.skip(rs.len() as int) =~= Seq::<Rec>::empty());
            assert(rec_offset(rs, rs.len() as int) == self.buf@.len());
        }
        let off = self.buf.len();
        if self.record_count % self.sparse_interval == 0 {
            let k = copy_range(key, 0, key.len());
            proof {
                assert(key@.subrange(0, key@.len() as int) =~= key@);
            }
            self.index.push((k, off as u64));
            proof {
                self.ipos_gh@ = self.ipos_gh@.push(rs.len() as int);
            }
        }
        self.bloom.add(key);
        let start = self.buf.len();
        push_u32_le(&mut self.buf, key.len() as u32);
        push_bytes(&mut self.buf, key);
        match entry {
            Entry::Value(v) => {
                push_u32_le(&mut self.buf, v.len() as u32);
                push_bytes(&mut self.buf, v.as_slice());
            },
            Entry::Tombstone => {
                push_u32_le(&mut self.buf, 0xFFFFFFFF);
            },
        }
        let end = self.buf.len();
        proof {
            assert(self.buf@.subrange(start as int, end as int) =~= encode_record(rec));
            assert(self.buf@ =~= encode_records(rs) + encode_record(rec));
            assert(self.buf@.take(start as int) =~= encode_records(rs));
        }
        self.checksum = crc32_update(self.checksum, &self.buf[start..end]);
        proof {
            lemma_crc_append(0xFFFFFFFFu32, encode_records(rs), encode_record(rec));
        }
        self.record_count = self.record_count + 1;
        proof {
            self.records_gh@ = rs.push(rec);
            lemma_encode_records_push(rs, rec);
            assert forall|p: int, q: int| #![trigger self.records_gh@[p], self.records_gh@[q]] 0
                <= p < q < self.records_gh@.len() implies lex_lt(
                self.records_gh@[p].0,
                self.records_gh@[q].0,
            ) by {
                if q < rs.len() {
                    assert(self.records_gh@[p] == rs[p] && self.records_gh@[q] == rs[q]);
                } else {
                    assert(self.records_gh@[q] == rec);
                    assert(self.records_gh@[p] == rs[p]);
                    if p < rs.len() - 1 {
                        assert(lex_lt(rs[p].0, rs[rs.len() - 1].0));
                        lemma_lex_trans(rs[p].0, rs[rs.len() - 1].0, rec.0);
                    }
                }
            }
            assert forall|j: int| 0 <= j < self.ipos_gh@.len() implies (#[trigger] self.index@[j]).0@
                == self.records_gh@[self.ipos_gh@[j]].0 && self.index@[j].1 == rec_offset(
                self.records_gh@,
                self.ipos_gh@[j],
            ) by {
                lemma_rec_offset_push(rs, rec, self.ipos_gh@[j]);
            }
            // the indexed positions are exactly the multiples of the interval
            let s = old(self).sparse_interval as int;
            let c = rs.len() as int;
            if c >= 1 {
                lemma_div_step(c, s);
            } else {
                vstd::arithmetic::div_mod::lemma_fundamental_div_mod_converse_mod(0, s, 0, 0);
                vstd::arithmetic::div_mod::lemma_div_basics(s);
            }
            if c % s == 0 {
                assert(old(self).ipos_gh@.len() == c / s) by {
                    if c >= 1 {
                        assert(old(self).ipos_gh@.len() == 1 + (c - 1) / s);
                    }
                }
                assert(self.ipos_gh@[old(self).ipos_gh@.len() as int] == c);
                assert(c == (c / s) * s) by {
                    if c == 0 {
                        assert((c / s) * s == 0) by (nonlinear_arith)
                            requires
                                c / s == 0,
                        ;
                    }
                }
            }
        }
    }

    /// Appends the filter, the index and the footer, and returns the whole
    /// file image: a valid table holding exactly the records added.
    pub fn finish(self) -> (out: Vec<u8>)
        requires
            self.wf(),
        ensures
            table_wf(out@),
            table_records(out@) == self.records(),
    {
        let ghost rs = self.records_gh@;
        let SSTableBuilder { buf, index, record_count, sparse_interval, bloom, checksum, records_gh, ipos_gh } = self;
        let mut out = buf;
        let ghost data = out@;
        let bloom_off = out.len() as u64;
        let fdata = bloom.serialize();
        push_bytes(&mut out, fdata.as_slice());
        let mut ck = crc32_update(checksum, fdata.as_slice());
        proof {
            lemma_crc_append(0xFFFFFFFFu32, data, fdata@);
        }
        let bloom_size = fdata.len() as u64;
        let index_off = out.len() as u64;
        let ghost base = out@;
        let mut t: usize = 0;
        while t < index.len()
            invariant
                0 <= t <= index@.len(),
                out@ == base + encode_index(ix_view(index@).take(t as int)),
                ck == crc32_spec(0xFFFFFFFFu32, out@),
                forall|j: int| 0 <= j < index@.len() ==> 1 <= (#[trigger] index@[j]).0@.len()
                    <= u32::MAX,
            decreases index@.len() - t,
        {
            let start = out.len();
            let klen = index[t].0.len();
            push_u32_le(&mut out, klen as u32);
            let ghost mid = out@;
            push_bytes(&mut out, index[t].0.as_slice());
            push_u64_le(&mut out, index[t].1);
            let end = out.len();
            proof {
                assert(out@.subrange(start as int, end as int) =~= encode_ientry(
                    ix_view(index@)[t as int],
                ));
                assert(out@.take(start as int) =~= base + encode_index(
                    ix_view(index@).take(t as int),
                ));
                lemma_encode_index_push(ix_view(index@).take(t as int), ix_view(index@)[t as int]);
                assert(ix_view(index@).take(t as int).push(ix_view(index@)[t as int])
                    =~= ix_view(index@).take(t as int + 1));
                assert(out@ =~= (base + encode_index(ix_view(index@).take(t as int)))
                    + encode_ientry(ix_view(index@)[t as int]));
                lemma_crc_append(
                    0xFFFFFFFFu32,
                    base + encode_index(ix_view(index@).take(t as int)),
                    encode_ientry(ix_view(index@)[t as int]),
                );
            }
            ck = crc32_update(ck, &out[start..end]);
            t = t + 1;
        }
        proof {
            assert(ix_view(index@).take(index@.len() as int) =~= ix_view(index@));
        }
        let index_size = (out.len() as u64) - index_off;
        let ghost body = out@;
        let final_ck = !ck;
        let mut foot: Vec<u8> = Vec::new();
        push_u64_le(&mut foot, bloom_off);
        push_u64_le(&mut foot, bloom_size);
        push_u64_le(&mut foot, index_off);
        push_u64_le(&mut foot, index_size);
        push_u32_le(&mut foot, final_ck);
        push_bytes(&mut out, foot.as_slice());
        proof {
            let ix = ix_view(index@);
            let ie = encode_index(ix);
            assert(body =~= (data + fdata@) + ie);
            assert(bloom_off == data.len() as u64 && data.len() <= u64::MAX);
            assert(bloom_size == fdata@.len() as u64 && fdata@.len() <= u64::MAX);
            assert(index_off == (data.len() + fdata@.len()) as u64 && data.len() + fdata@.len()
                <= u64::MAX);
            assert(index_size == ie.len() as u64 && ie.len() <= u64::MAX);
            assert(foot@ == u64_le(data.len() as u64) + u64_le(fdata@.len() as u64) + u64_le(
                (data.len() + fdata@.len()) as u64,
            ) + u64_le(ie.len() as u64) + u32_le(!crc32_spec(0xFFFFFFFFu32, (data + fdata@) + ie)));
            assert(out@ =~= ((data + fdata@) + ie) + foot@);
            lemma_finish_table(out@, foot@, data, fdata@, ix, rs, ipos_gh@, bloom);
        }
        out
    }
}

/// Reading the footer back gives the five fields it was assembled from.
#[verifier::rlimit(100)]
proof fn lemma_footer_fields(foot: Seq<u8>, a: u64, b: u64, c: u64, d: u64, e: u32)
    requires
        foot == u64_le(a) + u64_le(b) + u64_le(c) + u64_le(d) + u32_le(e),
    ensures
        foot.len() == 36,
        le64_val(foot.subrange(0, 8)) == a,
        le64_val(foot.subrange(8, 16)) == b,
        le64_val(foot.subrange(16, 24)) == c,
        le64_val(foot.subrange(24, 32)) == d,
        le32_val(foot.subrange(32, 36)) == e,
{
    assert(foot.subrange(0, 8) =~= u64_le(a));
    assert(foot.subrange(8, 16) =~= u64_le(b));
    assert(foot.subrange(16, 24) =~= u64_le(c));
    assert(foot.subrange(24, 32) =~= u64_le(d));
    assert(foot.subrange(32, 36) =~= u32_le(e));
    lemma_le64_roundtrip(a);
    lemma_le64_roundtrip(b);
    lemma_le64_roundtrip(c);
    lemma_le64_roundtrip(d);
    lemma_le32_roundtrip(e);
}

/// Reading the regions back from the assembled image gives the pieces it was
/// assembled from.
#[verifier::rlimit(100)]
proof fn lemma_regions(out: Seq<u8>, foot: Seq<u8>, data: Seq<u8>, fdata: Seq<u8>, ie: Seq<u8>)
    requires
        out == ((data + fdata) + ie) + foot,
        foot.len() == 36,
        data.len() <= u64::MAX,
        fdata.len() <= u64::MAX,
        data.len() + fdata.len() <= u64::MAX,
        ie.len() <= u64::MAX,
        le64_val(foot.subrange(0, 8)) == data.len(),
        le64_val(foot.subrange(8, 16)) == fdata.len(),
        le64_val(foot.subrange(16, 24)) == data.len() + fdata.len(),
        le64_val(foot.subrange(24, 32)) == ie.len(),
    ensures
        foot_base(out) == data.len() + fdata.len() + ie.len(),
        spec_bloom_off(out) == data.len(),
        spec_bloom_size(out) == fdata.len(),
        spec_index_off(out) == data.len() + fdata.len(),
        spec_index_size(out) == ie.len(),
        spec_checksum(out) == le32_val(foot.subrange(32, 36)),
        data_region(out) == data,
        filter_region(out) == fdata,
        index_region(out) == ie,
        out.take(spec_index_off(out) + spec_index_size(out)) == (data + fdata) + ie,
{
    let fb = foot_base(out);
    assert(out.subrange(fb, fb + 8) =~= foot.subrange(0, 8));
    assert(out.subrange(fb + 8, fb + 16) =~= foot.subrange(8, 16));
    assert(out.subrange(fb + 16, fb + 24) =~= foot.subrange(16, 24));
    assert(out.subrange(fb + 24, fb + 32) =~= foot.subrange(24, 32));
    assert(out.subrange(fb + 32, fb + 36) =~= foot.subrange(32, 36));
    assert(data_region(out) =~= data);
    assert(filter_region(out) =~= fdata);
    assert(index_region(out) =~= ie);
    assert(out.take(spec_index_off(out) + spec_index_size(out)) =~= (data + fdata) + ie);
}

/// The assembled file image of `finish` is a valid table holding the builder's
/// records.
#[verifier::rlimit(100)]
proof fn lemma_finish_table(
    out: Seq<u8>,
    foot: Seq<u8>,
    data: Seq<u8>,
    fdata: Seq<u8>,
    ix: Seq<(Seq<u8>, u64)>,
    rs: Seq<Rec>,
    ipos: Seq<int>,
    bloom: BloomFilter,
)
    requires
        data == encode_records(rs),
        keys_sorted(rs),
        recs_wf(rs),
        bloom.wf(),
        fdata == crate::bloom::filter_bytes(bloom.k_spec(), bloom.m_spec(), bloom.bits_spec()),
        filter_bytes_wf(fdata),
        forall|k: Seq<u8>| filter_bytes_contains(fdata, k) == bloom.contains_spec(k),
        forall|i: int| 0 <= i < rs.len() ==> bloom.contains_spec((#[trigger] rs[i]).0),
        ipos.len() == ix.len(),
        forall|j: int| 0 <= j < ipos.len() ==> 0 <= #[trigger] ipos[j] < rs.len(),
        forall|j: int| 0 <= j < ipos.len() ==> (#[trigger] ix[j]).0 == rs[ipos[j]].0 && ix[j].1
            == rec_offset(rs, ipos[j]),
        forall|j1: int, j2: int| #![trigger ipos[j1], ipos[j2]] 0 <= j1 < j2 < ipos.len()
            ==> ipos[j1] < ipos[j2],
        rs.len() > 0 ==> ipos.len() > 0 && ipos[0] == 0,
        data.len() <= u64::MAX,
        fdata.len() <= u64::MAX,
        data.len() + fdata.len() <= u64::MAX,
        encode_index(ix).len() <= u64::MAX,
        foot == u64_le(data.len() as u64) + u64_le(fdata.len() as u64) + u64_le(
            (data.len() + fdata.len()) as u64,
        ) + u64_le(encode_index(ix).len() as u64) + u32_le(
            !crc32_spec(0xFFFFFFFFu32, (data + fdata) + encode_index(ix)),
        ),
        out == ((data + fdata) + encode_index(ix)) + foot,
    ensures
        table_wf(out),
        table_records(out) == rs,
{
    let ie = encode_index(ix);
    let body = (data + fdata) + ie;
    lemma_footer_fields(
        foot,
        data.len() as u64,
        fdata.len() as u64,
        (data.len() + fdata.len()) as u64,
        ie.len() as u64,
        !crc32_spec(0xFFFFFFFFu32, body),
    );
    lemma_regions(out, foot, data, fdata, ie);
    lemma_le32_roundtrip(!crc32_spec(0xFFFFFFFFu32, body));
    assert(spec_checksum(out) == !crc32_spec(
        0xFFFFFFFFu32,
        out.take(spec_index_off(out) + spec_index_size(out)),
    ));
    lemma_records_roundtrip(rs);
    assert(parse_records(data_region(out)) == Some(rs));
    assert(table_records(out) == rs);
    assert(forall|j: int| 0 <= j < ix.len() ==> ientry_wf(#[trigger] ix[j]));
    lemma_index_roundtrip(ix);
    assert(parse_index(index_region(out)) == Some(ix));
    lemma_ix_valid_from_positions(ix, rs, ipos);
}

/// An index whose entries name strictly increasing record positions, starting
/// at the first record, is a sound sparse index.
proof fn lemma_ix_valid_from_positions(ix: Seq<(Seq<u8>, u64)>, rs: Seq<Rec>, ipos: Seq<int>)
    requires
        keys_sorted(rs),
        ipos.len() == ix.len(),
        forall|j: int| 0 <= j < ipos.len() ==> 0 <= #[trigger] ipos[j] < rs.len(),
        forall|j: int| 0 <= j < ipos.len() ==> (#[trigger] ix[j]).0 == rs[ipos[j]].0 && ix[j].1
            == rec_offset(rs, ipos[j]),
        forall|j1: int, j2: int| #![trigger ipos[j1], ipos[j2]] 0 <= j1 < j2 < ipos.len()
            ==> ipos[j1] < ipos[j2],
        rs.len() > 0 ==> ipos.len() > 0 && ipos[0] == 0,
    ensures
        ix_valid(ix, rs),
{
    assert forall|j: int| 0 <= j < ix.len() implies ix_entry_ok(#[trigger] ix[j], rs) by {
        assert(0 <= ipos[j] < rs.len() && rs[ipos[j]].0 == ix[j].0 && rec_offset(rs, ipos[j])
            == ix[j].1);
    }
    assert forall|j1: int, j2: int| #![trigger ix[j1], ix[j2]] 0 <= j1 < j2 < ix.len() implies
        lex_lt(ix[j1].0, ix[j2].0) by {
        assert(ipos[j1] < ipos[j2]);
        assert(lex_lt(rs[ipos[j1]].0, rs[ipos[j2]].0));
    }
    if rs.len() > 0 {
        assert(ix[0].0 == rs[0].0 && ix[0].1 == rec_offset(rs, 0));
        assert(rec_offset(rs, 0) == 0);
    }
}

/// Reads the one record that starts at `p` within `data[..end]`.
fn parse_rec_at(data: &[u8], p: usize, end: usize) -> (r: Result<(Vec<u8>, Entry, usize), Error>)
    requires
        p < end <= data@.len(),
    ensures
        match r {
            Ok((k, e, n)) => 1 <= n && p + n <= end && parse_rec(
                data@.subrange(0, end as int).skip(p as int),
            ) == Some(((k@, e@), n as int)),
            Err(err) => err == Error::CorruptTable && parse_rec(
                data@.subrange(0, end as int).skip(p as int),
            ) is None,
        },
{
    let ghost region = data@.subrange(0, end as int);
    let ghost sp = region.skip(p as int);
    proof {
        assert(sp.len() == end - p);
    }
    if end - p < 8 {
        return Err(Error::CorruptTable);
    }
    let klen32 = read_u32_le(data, p);
    proof {
        assert(sp.subrange(0, 4) =~= data@.subrange(p as int, p as int + 4));
    }
    let klen: usize = klen32 as usize;
    let ghost kl = klen as int;
    if klen < 1 || klen > end - p - 8 {
        return Err(Error::CorruptTable);
    }
    let key = copy_range(data, p + 4, p + 4 + klen);
    proof {
        assert(sp.subrange(4, 4 + kl) =~= data@.subrange(p as int + 4, p as int + 4 + kl));
    }
    let vlen32 = read_u32_le(data, p + 4 + klen);
    proof {
        assert(sp.subrange(4 + kl, 8 + kl) =~= data@.subrange(
            p as int + 4 + kl,
            p as int + 8 + kl,
        ));
    }
    if vlen32 == u32::MAX {
        let e = Entry::Tombstone;
        proof {
            assert(parse_rec(sp) == Some(((key@, e@), 8 + kl)));
        }
        return Ok((key, e, 8 + klen));
    }
    let vlen: usize = vlen32 as usize;
    let ghost vl = vlen as int;
    if vlen > end - p - 8 - klen {
        return Err(Error::CorruptTable);
    }
    let value = copy_range(data, p + 8 + klen, p + 8 + klen + vlen);
    proof {
        assert(sp.subrange(8 + kl, 8 + kl + vl) =~= data@.subrange(
            p as int + 8 + kl,
            p as int + 8 + kl + vl,
        ));
    }
    let e = Entry::Value(value);
    proof {
        assert(parse_rec(sp) == Some(((key@, e@), 8 + kl + vl)));
    }
    Ok((key, e, 8 + klen + vlen))
}

/// Reads the one index entry that starts at `p` within `data[..end]`.
fn parse_ientry_at(data: &[u8], p: usize, end: usize) -> (r: Result<(Vec<u8>, u64, usize), Error>)
    requires
        p < end <= data@.len(),
    ensures
        match r {
            Ok((k, off, n)) => 1 <= n && p + n <= end && parse_ientry(
                data@.subrange(0, end as int).skip(p as int),
            ) == Some(((k@, off), n as int)),
            Err(err) => err == Error::CorruptTable && parse_ientry(
                data@.subrange(0, end as int).skip(p as int),
            ) is None,
        },
{
    let ghost region = data@.subrange(0, end as int);
    let ghost sp = region.skip(p as int);
    proof {
        assert(sp.len() == end - p);
    }
    if end - p < 12 {
        return Err(Error::CorruptTable);
    }
    let klen32 = read_u32_le(data, p);
    proof {
        assert(sp.subrange(0, 4) =~= data@.subrange(p as int, p as int + 4));
    }
    let klen: usize = klen32 as usize;
    let ghost kl = klen as int;
    if klen < 1 || klen > end - p - 12 {
        return Err(Error::CorruptTable);
    }
    let key = copy_range(data, p + 4, p + 4 + klen);
    let off = read_u64_le(data, p + 4 + klen);
    proof {
        assert(sp.subrange(4, 4 + kl) =~= data@.subrange(p as int + 4, p as int + 4 + kl));
        assert(sp.subrange(4 + kl, 12 + kl) =~= data@.subrange(
            p as int + 4 + kl,
            p as int + 12 + kl,
        ));
        assert(parse_ientry(sp) == Some(((key@, off), 12 + kl)));
    }
    Ok((key, off, 12 + klen))
}

/// A reader over one table file image. `open` validates the whole file; the
/// reader then serves point lookups through the filter and the sparse index,
/// and full scans through [`RecordIterator`].
pub struct SSTable {
    id: u64,
    bytes: Vec<u8>,
    bloom: BloomFilter,
    index: Vec<(Vec<u8>, u64)>,
    data_end: usize,
}

impl SSTable {
    /// The table's identifier: the numeric part of its file name.
    pub closed spec fn id_spec(self) -> u64 {
        self.id
    }

    /// The full file image.
    pub closed spec fn bytes_spec(self) -> Seq<u8> {
        self.bytes@
    }

    /// The records the table holds, in stored order.
    pub open spec fn records(self) -> Seq<Rec> {
        table_records(self.bytes_spec())
    }

    /// The mapping the table describes.
    pub open spec fn kv(self) -> Map<Seq<u8>, Option<Seq<u8>>> {
        seq_to_map(self.records())
    }

    /// Well-formed: the image is a valid table and the loaded filter and index
    /// are the ones serialised in it.
    pub closed spec fn wf(self) -> bool {
        &&& table_wf(self.bytes@)
        &&& self.data_end as int == spec_bloom_off(self.bytes@)
        &&& self.bloom.wf()
        &&& forall|k: Seq<u8>| self.bloom.contains_spec(k) == filter_bytes_contains(
            filter_region(self.bytes@),
            k,
        )
        &&& ix_view(self.index@) == parse_index(index_region(self.bytes@))->Some_0
    }

    /// Public face of the representation invariant: the stored records ascend
    /// strictly and respect the framing limits.
    pub proof fn lemma_wf_props(self)
        requires
            self.wf(),
        ensures
            table_wf(self.bytes_spec()),
            keys_sorted(self.records()),
            recs_wf(self.records()),
    {
        lemma_parse_records_exact(data_region(self.bytes@));
    }

    /// The table's identifier.
    pub fn id(&self) -> (r: u64)
        ensures
            r == self.id_spec(),
    {
        self.id
    }

    /// The full file image, for the embedding program to persist.
    pub fn bytes(&self) -> (r: &Vec<u8>)
        ensures
            r@ == self.bytes_spec(),
    {
        &self.bytes
    }

    /// Validates a table file image and loads its filter and index. Returns
    /// the corrupt-table error exactly when the image is not a valid table:
    /// a bad checksum, out-of-range region pointers, a truncated region, a
    /// non-monotonic key sequence, or a filter or index that disagrees with
    /// the records.
    pub fn open(id: u64, bytes: Vec<u8>) -> (r: Result<SSTable, Error>)
        ensures
            match r {
                Ok(t) => {
                    &&& table_wf(bytes@)
                    &&& t.wf()
                    &&& t.bytes_spec() == bytes@
                    &&& t.id_spec() == id
                },
                Err(e) => e == Error::CorruptTable && !table_wf(bytes@),
            },
    {
        if bytes.len() < 36 {
            return Err(Error::CorruptTable);
        }
        let fb = bytes.len() - 36;
        let bloom_off = read_u64_le(bytes.as_slice(), fb);
        let bloom_size = read_u64_le(bytes.as_slice(), fb + 8);
        let index_off = read_u64_le(bytes.as_slice(), fb + 16);
        let index_size = read_u64_le(bytes.as_slice(), fb + 24);
        let stored_ck = read_u32_le(bytes.as_slice(), fb + 32);
        proof {
            assert(spec_bloom_off(bytes@) == bloom_off);
            assert(spec_bloom_size(bytes@) == bloom_size);
            assert(spec_index_off(bytes@) == index_off);
            assert(spec_index_size(bytes@) == index_size);
            assert(spec_checksum(bytes@) == stored_ck);
        }
        let len64 = bytes.len() as u64;
        if index_size > len64 - 36 || index_off > len64 - 36 - index_size {
            return Err(Error::CorruptTable);
        }
        if bloom_off > index_off || bloom_size > index_off - bloom_off {
            return Err(Error::CorruptTable);
        }
        let index_end = (index_off + index_size) as usize;
        let ck = crc32_update(0xFFFFFFFF, &bytes[0..index_end]);
        proof {
            assert(bytes@.subrange(0, index_end as int) =~= bytes@.take(
                spec_index_off(bytes@) + spec_index_size(bytes@),
            ));
        }
        if !ck != stored_ck {
            return Err(Error::CorruptTable);
        }
        let data_end = bloom_off as usize;
        proof {
            assert(bytes@.subrange(0, data_end as int) =~= data_region(bytes@));
        }
        let (recs, offs) = match scan_data_region(bytes.as_slice(), data_end) {
            Ok(x) => x,
            Err(e) => {
                return Err(e);
            },
        };
        let ghost rs = pairs_view(recs@);
        let fend = (bloom_off + bloom_size) as usize;
        proof {
            assert(bytes@.subrange(data_end as int, fend as int) =~= filter_region(bytes@));
        }
        let bloom = match BloomFilter::deserialize(&bytes[data_end..fend]) {
            Some(bf) => bf,
            None => {
                return Err(Error::CorruptTable);
            },
        };
        if !check_filter_covers(&bloom, &recs) {
            return Err(Error::CorruptTable);
        }
        let istart = index_off as usize;
        proof {
            assert(bytes@.subrange(istart as int, index_end as int) =~= index_region(bytes@));
        }
        let ix = match scan_index_region(bytes.as_slice(), istart, index_end) {
            Ok(x) => x,
            Err(e) => {
                return Err(e);
            },
        };
        let ghost ixs = ix_view(ix@);
        if recs.len() > 0 {
            if ix.len() == 0 {
                proof {
                    if table_wf(bytes@) {
                        assert(ix_valid(ixs, rs));
                    }
                }
                return Err(Error::CorruptTable);
            }
            if !bytes_eq(ix[0].0.as_slice(), recs[0].0.as_slice()) || ix[0].1 != 0 {
                proof {
                    assert(ixs[0] == (ix@[0].0@, ix@[0].1));
                    assert(rs[0].0 == recs@[0].0@);
                    if table_wf(bytes@) {
                        assert(ix_valid(ixs, rs));
                    }
                }
                return Err(Error::CorruptTable);
            }
        }
        if !check_index(&ix, &recs, &offs) {
            proof {
                if table_wf(bytes@) {
                    assert(ix_valid(ixs, rs));
                }
            }
            return Err(Error::CorruptTable);
        }
        let table = SSTable { id, bytes, bloom, index: ix, data_end };
        proof {
            assert(ix_valid(ixs, rs));
            assert(table_wf(table.bytes@));
        }
        Ok(table)
    }
}

/// Finds the first index entry whose key lies above `key`; every earlier
/// entry's key is at or below it.
fn ix_upper_bound(ix: &Vec<(Vec<u8>, u64)>, key: &[u8]) -> (ub: usize)
    requires
        forall|j1: int, j2: int| #![trigger ix_view(ix@)[j1], ix_view(ix@)[j2]] 0 <= j1 < j2
            < ix@.len() ==> lex_lt(ix_view(ix@)[j1].0, ix_view(ix@)[j2].0),
    ensures
        0 <= ub <= ix@.len(),
        forall|j: int| 0 <= j < ub ==> !lex_lt(key@, (#[trigger] ix_view(ix@)[j]).0),
        forall|j: int| ub <= j < ix@.len() ==> lex_lt(key@, (#[trigger] ix_view(ix@)[j]).0),
{
    let ghost ixs = ix_view(ix@);
    let mut lo: usize = 0;
    let mut hi: usize = ix.len();
    while lo < hi
        invariant
            0 <= lo <= hi <= ixs.len(),
            ixs == ix_view(ix@),
            ixs.len() == ix@.len(),
            forall|j1: int, j2: int| #![trigger ixs[j1], ixs[j2]] 0 <= j1 < j2 < ixs.len()
                ==> lex_lt(ixs[j1].0, ixs[j2].0),
            forall|j: int| 0 <= j < lo ==> !lex_lt(key@, (#[trigger] ixs[j]).0),
            forall|j: int| hi <= j < ixs.len() ==> lex_lt(key@, (#[trigger] ixs[j]).0),
        decreases hi - lo,
    {
        let mid = lo + (hi - lo) / 2;
        proof {
            assert(ixs[mid as int].0 == ix@[mid as int].0@);
        }
        if key_lt(key, ix[mid].0.as_slice()) {
            proof {
                assert forall|j: int| mid <= j < ixs.len() implies lex_lt(
                    key@,
                    (#[trigger] ixs[j]).0,
                ) by {
                    if j > mid {
                        lemma_lex_trans(key@, ixs[mid as int].0, ixs[j].0);
                    }
                }
            }
            hi = mid;
        } else {
            proof {
                assert forall|j: int| 0 <= j < mid + 1 implies !lex_lt(
                    key@,
                    (#[trigger] ixs[j]).0,
                ) by {
                    if j < mid && lex_lt(key@, ixs[j].0) {
                        lemma_lex_trans(key@, ixs[j].0, ixs[mid as int].0);
                    }
                }
            }
            lo = mid + 1;
        }
    }
    lo
}

impl SSTable {
    /// Looks the key up: the record's entry, or `None` when the table holds no
    /// record for the key. The lookup goes through the filter, then the sparse
    /// index, then a bounded scan of the data region.
    #[verifier::rlimit(100)]
    pub fn get_entry(&self, key: &[u8]) -> (r: Option<Entry>)
        requires
            self.wf(),
        ensures
            match r {
                Some(e) => self.kv().contains_key(key@) && e@ == self.kv()[key@],
                None => !self.kv().contains_key(key@),
            },
    {
        let ghost rs = self.records();
        proof {
            self.lemma_wf_props();
            lemma_sorted_distinct(rs);
            lemma_parse_records_exact(data_region(self.bytes@));
            assert(data_region(self.bytes@) == encode_records(rs));
        }
        if !self.bloom.contains(key) {
            proof {
                if seq_to_map(rs).contains_key(key@) {
                    crate::kv::lemma_seq_to_map_domain(rs, key@);
                    let i = choose|i: int| 0 <= i < rs.len() && (#[trigger] rs[i]).0 == key@;
                    assert(filter_bytes_contains(filter_region(self.bytes@), rs[i].0));
                }
            }
            return None;
        }
        let ghost ixs = ix_view(self.index@);
        let ub = ix_upper_bound(&self.index, key);
        if ub == 0 {
            proof {
                if seq_to_map(rs).contains_key(key@) {
                    crate::kv::lemma_seq_to_map_domain(rs, key@);
                    let i = choose|i: int| 0 <= i < rs.len() && (#[trigger] rs[i]).0 == key@;
                    assert(ixs.len() > 0 && ixs[0].0 == rs[0].0);
                    assert(lex_lt(key@, ixs[0].0));
                    if i == 0 {
                        lemma_lex_irrefl(key@);
                    } else {
                        assert(lex_lt(rs[0].0, rs[i].0));
                        lemma_lex_trans(key@, rs[0].0, rs[i].0);
                        lemma_lex_irrefl(key@);
                    }
                }
            }
            return None;
        }
        let chosen_off = self.index[ub - 1].1;
        let ghost e0 = ixs[ub - 1];
        let ghost i0 = choose|i: int|
            0 <= i < rs.len() && (#[trigger] rs[i]).0 == e0.0 && rec_offset(rs, i) == e0.1;
        proof {
            assert(ix_entry_ok(e0, rs));
            assert(e0.1 == chosen_off);
            lemma_parse_records_suffix(rs, i0);
            assert(chosen_off as int <= self.data_end as int);
        }
        let mut pos: usize = chosen_off as usize;
        let ghost mut j: int = i0;
        proof {
            assert forall|q: int| 0 <= q < j implies lex_lt((#[trigger] rs[q]).0, key@) by {
                assert(lex_lt(rs[q].0, rs[i0].0));
                assert(!lex_lt(key@, e0.0));
                crate::bytes::lemma_lex_connex(rs[i0].0, key@);
                if rs[i0].0 == key@ {
                } else {
                    lemma_lex_trans(rs[q].0, rs[i0].0, key@);
                }
            }
        }
        while pos < self.data_end
            invariant
                self.wf(),
                rs == self.records(),
                keys_sorted(rs),
                recs_wf(rs),
                crate::kv::keys_distinct(rs),
                data_region(self.bytes@) == encode_records(rs),
                self.data_end as int == encode_records(rs).len(),
                self.data_end as int <= self.bytes@.len(),
                0 <= j <= rs.len(),
                pos as int == rec_offset(rs, j),
                pos <= self.data_end,
                forall|q: int| 0 <= q < j ==> lex_lt((#[trigger] rs[q]).0, key@),
            decreases self.data_end - pos,
        {
            proof {
                lemma_parse_records_suffix(rs, j);
                if j == rs.len() {
                    assert(rs.skip(j) =~= Seq::<Rec>::empty());
                    assert(encode_records(rs.skip(j)) == Seq::<u8>::empty());
                    assert(false);
                }
                lemma_scan_head(rs, j, data_region(self.bytes@));
                assert(data_region(self.bytes@).skip(pos as int) =~= self.bytes@.subrange(
                    0,
                    self.data_end as int,
                ).skip(pos as int));
            }
            match parse_rec_at(self.bytes.as_slice(), pos, self.data_end) {
                Ok((k, e, n)) => {
                    proof {
                        assert((k@, e@) == rs[j] && n as int == encode_record(rs[j]).len());
                    }
                    if bytes_eq(k.as_slice(), key) {
                        proof {
                            lemma_seq_to_map_index(rs, j);
                        }
                        return Some(e);
                    }
                    if key_lt(key, k.as_slice()) {
                        proof {
                            assert forall|q: int| 0 <= q < rs.len() implies (#[trigger] rs[q]).0
                                != key@ by {
                                if q < j {
                                    if rs[q].0 == key@ {
                                        lemma_lex_irrefl(key@);
                                    }
                                } else if q == j {
                                } else {
                                    assert(lex_lt(rs[j].0, rs[q].0));
                                    if rs[q].0 == key@ {
                                        lemma_lex_trans(key@, rs[j].0, rs[q].0);
                                        lemma_lex_irrefl(key@);
                                    }
                                }
                            }
                            lemma_seq_to_map_absent(rs, key@);
                        }
                        return None;
                    }
                    proof {
                        crate::bytes::lemma_lex_connex(rs[j].0, key@);
                    }
                    pos = pos + n;
                    proof {
                        j = j + 1;
                    }
                },
                Err(_) => {
                    proof {
                        assert(parse_records(data_region(self.bytes@).skip(pos as int)) == Some(
                            rs.skip(j),
                        ));
                        assert(false);
                    }
                    return None;
                },
            }
        }
        proof {
            lemma_parse_records_suffix(rs, j);
            if j < rs.len() {
                assert(rs.skip(j).len() > 0);
                assert(encode_records(rs.skip(j)) == encode_record(rs.skip(j)[0])
                    + encode_records(rs.skip(j).skip(1)));
                assert(false);
            }
            assert forall|q: int| 0 <= q < rs.len() implies (#[trigger] rs[q]).0 != key@ by {
                if rs[q].0 == key@ {
                    lemma_lex_irrefl(key@);
                }
            }
            lemma_seq_to_map_absent(rs, key@);
        }
        None
    }

    /// Looks the key up and returns its value. A tombstoned key and an absent
    /// key alike give `Ok(None)`; the engine distinguishes them through
    /// `get_entry`.
    pub fn get(&self, key: &[u8]) -> (r: Result<Option<Vec<u8>>, Error>)
        requires
            self.wf(),
        ensures
            match r {
                Ok(Some(v)) => self.kv().contains_key(key@) && self.kv()[key@] == Some(v@),
                Ok(None) => !self.kv().contains_key(key@) || self.kv()[key@] is None,
                Err(_) => false,
            },
    {
        match self.get_entry(key) {
            Some(Entry::Value(v)) => Ok(Some(v)),
            Some(Entry::Tombstone) => Ok(None),
            None => Ok(None),
        }
    }

    /// A cursor over all records, in stored order.
    pub fn iter(&self) -> (it: RecordIterator)
        requires
            self.wf(),
        ensures
            it.wf(),
            it.records() == self.records(),
            it.index() == 0,
    {
        proof {
            self.lemma_wf_props();
            lemma_parse_records_exact(data_region(self.bytes@));
        }
        let data = copy_range(self.bytes.as_slice(), 0, self.data_end);
        proof {
            assert(data@ == data_region(self.bytes@));
        }
        RecordIterator {
            bytes: data,
            pos: 0,
            recs_gh: Ghost(self.records()),
            idx_gh: Ghost(0),
        }
    }
}

/// The record at a mid-scan position: the suffix from a record boundary parses
/// to the remaining records, so the next parsed record is the current one.
proof fn lemma_scan_head(rs: Seq<Rec>, j: int, region: Seq<u8>)
    requires
        recs_wf(rs),
        0 <= j < rs.len(),
        region == encode_records(rs),
    ensures
        parse_rec(region.skip(rec_offset(rs, j))) == Some(
            (rs[j], encode_record(rs[j]).len() as int),
        ),
        parse_records(region.skip(rec_offset(rs, j))) == Some(rs.skip(j)),
{
    lemma_parse_records_suffix(rs, j);
    let sp = region.skip(rec_offset(rs, j));
    assert(rs.skip(j).len() > 0);
    assert(sp.len() > 0) by {
        if sp.len() == 0 {
            assert(parse_records(sp) == Some(Seq::<Rec>::empty()));
        }
    }
    assert(parse_rec(sp) is Some) by {
        if parse_rec(sp) is None {
            assert(parse_records(sp) is None);
        }
    }
    let (r0, n0) = parse_rec(sp)->Some_0;
    assert(parse_records(sp) == Some(seq![r0] + parse_records(sp.skip(n0))->Some_0));
    assert((seq![r0] + parse_records(sp.skip(n0))->Some_0)[0] == r0);
    assert(rs.skip(j)[0] == rs[j]);
    assert(r0 == rs[j]);
    lemma_parse_rec_is_exact(sp);
    assert(encode_record(r0).len() == n0);
}

/// A positional cursor over the data region of one table: a copy of the
/// region's bytes and the offset of the next record.
pub struct RecordIterator {
    bytes: Vec<u8>,
    pos: usize,
    recs_gh: Ghost<Seq<Rec>>,
    idx_gh: Ghost<int>,
}

impl RecordIterator {
    /// The records the cursor walks.
    pub closed spec fn records(self) -> Seq<Rec> {
        self.recs_gh@
    }

    /// How many records have been yielded.
    pub closed spec fn index(self) -> int {
        self.idx_gh@
    }

    /// Well-formed: the cursor holds the image of its records and sits on a
    /// record boundary.
    pub closed spec fn wf(self) -> bool {
        &&& recs_wf(self.recs_gh@)
        &&& self.bytes@ == encode_records(self.recs_gh@)
        &&& 0 <= self.idx_gh@ <= self.recs_gh@.len()
        &&& self.pos as int == rec_offset(self.recs_gh@, self.idx_gh@)
    }

    /// Yields the next record, or `None` past the last one.
    pub fn next(&mut self) -> (r: Option<(Vec<u8>, Entry)>)
        requires
            old(self).wf(),
        ensures
            final(self).wf(),
            final(self).records() == old(self).records(),
            old(self).index() < old(self).records().len() ==> r is Some && (
            r->Some_0.0@,
            r->Some_0.1@,
            ) == old(self).records()[old(self).index()] && final(self).index() == old(self).index()
                + 1,
            old(self).index() >= old(self).records().len() ==> r is None && final(self).index()
                == old(self).index(),
    {
        let ghost rs = self.recs_gh@;
        let ghost j = self.idx_gh@;
        let end = self.bytes.len();
        proof {
            lemma_parse_records_suffix(rs, j);
        }
        if self.pos >= end {
            proof {
                if j < rs.len() {
                    assert(rs.skip(j).len() > 0);
                    assert(encode_records(rs.skip(j)) == encode_record(rs.skip(j)[0])
                        + encode_records(rs.skip(j).skip(1)));
                }
            }
            return None;
        }
        proof {
            if j == rs.len() {
                assert(rs.skip(j) =~= Seq::<Rec>::empty());
                assert(encode_records(rs.skip(j)) == Seq::<u8>::empty());
                assert(false);
            }
            lemma_scan_head(rs, j, self.bytes@);
            assert(self.bytes@.subrange(0, end as int) =~= self.bytes@);
        }
        match parse_rec_at(self.bytes.as_slice(), self.pos, end) {
            Ok((k, e, n)) => {
                proof {
                    assert((k@, e@) == rs[j] && n as int == encode_record(rs[j]).len());
                }
                self.pos = self.pos + n;
                proof {
                    self.idx_gh@ = j + 1;
                }
                Some((k, e))
            },
            Err(_) => {
                proof {
                    assert(false);
                }
                None
            },
        }
    }
}

/// Descriptive bounds of one finished table: its first and last key, both
/// empty for a table built from an empty memtable.
pub struct SSTableMetadata {
    /// The smallest key in the table.
    pub first_key: Vec<u8>,
    /// The largest key in the table.
    pub last_key: Vec<u8>,
}

impl SSTableBuilder {
    /// Streams a whole memtable, in key order, into a finished table image.
    pub fn build(self, memtable: &MemTable) -> (r: (Vec<u8>, SSTableMetadata))
        requires
            self.wf(),
            self.records() == Seq::<Rec>::empty(),
            memtable.wf(),
            recs_wf(memtable.kv_seq()),
        ensures
            table_wf(r.0@),
            table_records(r.0@) == memtable.kv_seq(),
            memtable.kv_seq().len() > 0 ==> r.1.first_key@ == memtable.kv_seq()[0].0
                && r.1.last_key@ == memtable.kv_seq().last().0,
            memtable.kv_seq().len() == 0 ==> r.1.first_key@ == Seq::<u8>::empty()
                && r.1.last_key@ == Seq::<u8>::empty(),
    {
        let ghost kvs = memtable.kv_seq();
        proof {
            memtable.lemma_wf_sorted();
        }
        let mut b = self;
        let entries = memtable.iter();
        let mut i: usize = 0;
        while i < entries.len()
            invariant
                0 <= i <= entries@.len(),
                pairs_view(entries@) == kvs,
                kvs.len() == entries@.len(),
                keys_sorted(kvs),
                recs_wf(kvs),
                b.wf(),
                b.records() == kvs.take(i as int),
            decreases entries@.len() - i,
        {
            proof {
                assert(kvs[i as int] == (entries@[i as int].0@, entries@[i as int].1@));
                assert(kvs.take(i as int).len() == i);
                if i > 0 {
                    assert(kvs.take(i as int).last() == kvs[i as int - 1]);
                    assert(lex_lt(kvs[i as int - 1].0, kvs[i as int].0));
                }
            }
            b.add_record(entries[i].0.as_slice(), &entries[i].1);
            proof {
                assert(kvs.take(i as int).push(kvs[i as int]) =~= kvs.take(i as int + 1));
            }
            i = i + 1;
        }
        proof {
            assert(kvs.take(kvs.len() as int) =~= kvs);
        }
        let first_key: Vec<u8>;
        let last_key: Vec<u8>;
        if entries.len() > 0 {
            first_key = copy_range(entries[0].0.as_slice(), 0, entries[0].0.len());
            let l = entries.len() - 1;
            last_key = copy_range(entries[l].0.as_slice(), 0, entries[l].0.len());
            proof {
                assert(entries@[0].0@.subrange(0, entries@[0].0@.len() as int) =~= entries@[0].0@);
                assert(entries@[l as int].0@.subrange(0, entries@[l as int].0@.len() as int)
                    =~= entries@[l as int].0@);
                assert(kvs[0] == (entries@[0].0@, entries@[0].1@));
                assert(kvs.last() == (entries@[l as int].0@, entries@[l as int].1@));
            }
        } else {
            first_key = Vec::new();
            last_key = Vec::new();
        }
        let out = b.finish();
        (out, SSTableMetadata { first_key, last_key })
    }
}

/// A sorted prefix extended by a strictly larger key stays sorted.
proof fn lemma_sorted_push(rs: Seq<Rec>, r: Rec)
    requires
        keys_sorted(rs),
        rs.len() > 0 ==> lex_lt(rs.last().0, r.0),
    ensures
        keys_sorted(rs.push(r)),
{
    let t = rs.push(r);
    assert forall|p: int, q: int| #![trigger t[p], t[q]] 0 <= p < q < t.len() implies lex_lt(
        t[p].0,
        t[q].0,
    ) by {
        if q < rs.len() {
            assert(t[p] == rs[p] && t[q] == rs[q]);
        } else {
            assert(t[q] == r && t[p] == rs[p]);
            if p < rs.len() - 1 {
                assert(lex_lt(rs[p].0, rs[rs.len() - 1].0));
                lemma_lex_trans(rs[p].0, rs[rs.len() - 1].0, r.0);
            }
        }
    }
}

/// Extending the records moves no earlier offset, and the new record sits at
/// the end of the encoded prefix.
proof fn lemma_offset_extend(pre: Seq<Rec>, r: Rec)
    requires
        recs_wf(pre),
    ensures
        rec_offset(pre.push(r), pre.len() as int) == encode_records(pre).len(),
        forall|j: int| 0 <= j <= pre.len() ==> rec_offset(pre.push(r), j) == rec_offset(pre, j),
{
    lemma_parse_records_suffix(pre, pre.len() as int);
    assert(pre.skip(pre.len() as int) =~= Seq::<Rec>::empty());
    assert(encode_records(Seq::<Rec>::empty()) == Seq::<u8>::empty());
    assert(rec_offset(pre, pre.len() as int) == encode_records(pre).len());
    assert forall|j: int| 0 <= j <= pre.len() implies rec_offset(pre.push(r), j) == rec_offset(
        pre,
        j,
    ) by {
        lemma_rec_offset_push(pre, r, j);
    }
}

/// Scans a data region into its records and their byte offsets, checking that
/// keys ascend strictly.
fn scan_data_region(data: &[u8], data_end: usize) -> (r: Result<
    (Vec<(Vec<u8>, Entry)>, Vec<u64>),
    Error,
>)
    requires
        data_end <= data@.len(),
    ensures
        ({
            let region = data@.subrange(0, data_end as int);
            match r {
                Ok((recs, offs)) => {
                    &&& parse_records(region) == Some(pairs_view(recs@))
                    &&& keys_sorted(pairs_view(recs@))
                    &&& offs@.len() == recs@.len()
                    &&& forall|j: int| 0 <= j < offs@.len() ==> #[trigger] offs@[j] == rec_offset(
                        pairs_view(recs@),
                        j,
                    )
                },
                Err(e) => e == Error::CorruptTable && (parse_records(region) is None || !keys_sorted(
                    parse_records(region)->Some_0,
                )),
            }
        }),
{
    let ghost region = data@.subrange(0, data_end as int);
    let mut recs: Vec<(Vec<u8>, Entry)> = Vec::new();
    let mut offs: Vec<u64> = Vec::new();
    let mut p: usize = 0;
    proof {
        assert(region.skip(0) =~= region);
        assert(pairs_view(recs@) =~= Seq::<Rec>::empty());
        assert(encode_records(pairs_view(recs@)) =~= Seq::<u8>::empty());
    }
    while p < data_end
        invariant
            0 <= p <= data_end <= data@.len(),
            region == data@.subrange(0, data_end as int),
            parse_records(region) is Some <==> parse_records(region.skip(p as int)) is Some,
            parse_records(region.skip(p as int)) is Some ==> parse_records(region) == Some(
                pairs_view(recs@) + parse_records(region.skip(p as int))->Some_0,
            ),
            p as int == encode_records(pairs_view(recs@)).len(),
            recs_wf(pairs_view(recs@)),
            keys_sorted(pairs_view(recs@)),
            offs@.len() == recs@.len(),
            forall|j: int| 0 <= j < offs@.len() ==> #[trigger] offs@[j] == rec_offset(
                pairs_view(recs@),
                j,
            ),
        decreases data_end - p,
    {
        let ghost pre = pairs_view(recs@);
        match parse_rec_at(data, p, data_end) {
            Ok((k, e, n)) => {
                if recs.len() > 0 {
                    let last = recs.len() - 1;
                    if !key_lt(recs[last].0.as_slice(), k.as_slice()) {
                        proof {
                            lemma_open_unsorted(region, pre, (k@, e@), p as int);
                        }
                        return Err(Error::CorruptTable);
                    }
                }
                proof {
                    lemma_open_rec_step(region, pre, (k@, e@), p as int, n as int);
                    lemma_sorted_push(pre, (k@, e@));
                    lemma_offset_extend(pre, (k@, e@));
                    lemma_encode_records_push(pre, (k@, e@));
                }
                offs.push(p as u64);
                recs.push((k, e));
                p = p + n;
                proof {
                    assert(pairs_view(recs@) =~= pre.push((k@, e@)));
                }
            },
            Err(e) => {
                proof {
                    assert(region.skip(p as int).len() > 0);
                    assert(parse_records(region.skip(p as int)) is None);
                }
                return Err(e);
            },
        }
    }
    proof {
        assert(region.skip(p as int) =~= Seq::<u8>::empty());
        assert(parse_records(region.skip(p as int)) == Some(Seq::<Rec>::empty()));
        assert(pairs_view(recs@) + Seq::<Rec>::empty() =~= pairs_view(recs@));
    }
    Ok((recs, offs))
}

/// Checks that the filter answers "maybe" for every stored key.
fn check_filter_covers(bloom: &BloomFilter, recs: &Vec<(Vec<u8>, Entry)>) -> (r: bool)
    requires
        bloom.wf(),
    ensures
        r == forall|i: int| 0 <= i < recs@.len() ==> bloom.contains_spec(
            (#[trigger] pairs_view(recs@)[i]).0,
        ),
{
    let mut t: usize = 0;
    while t < recs.len()
        invariant
            0 <= t <= recs@.len(),
            bloom.wf(),
            forall|i: int| 0 <= i < t ==> bloom.contains_spec((#[trigger] pairs_view(recs@)[i]).0),
        decreases recs@.len() - t,
    {
        if !bloom.contains(recs[t].0.as_slice()) {
            proof {
                assert(pairs_view(recs@)[t as int].0 == recs@[t as int].0@);
            }
            return false;
        }
        proof {
            assert(pairs_view(recs@)[t as int].0 == recs@[t as int].0@);
        }
        t = t + 1;
    }
    true
}

/// Scans an index region into its entries.
fn scan_index_region(data: &[u8], istart: usize, iend: usize) -> (r: Result<
    Vec<(Vec<u8>, u64)>,
    Error,
>)
    requires
        istart <= iend <= data@.len(),
    ensures
        ({
            let region = data@.subrange(istart as int, iend as int);
            match r {
                Ok(ix) => parse_index(region) == Some(ix_view(ix@)),
                Err(e) => e == Error::CorruptTable && parse_index(region) is None,
            }
        }),
{
    let ghost region = data@.subrange(istart as int, iend as int);
    let mut ix: Vec<(Vec<u8>, u64)> = Vec::new();
    let mut q: usize = istart;
    proof {
        assert(region.skip(0) =~= region);
        assert(ix_view(ix@) =~= Seq::<(Seq<u8>, u64)>::empty());
    }
    while q < iend
        invariant
            istart <= q <= iend <= data@.len(),
            region == data@.subrange(istart as int, iend as int),
            parse_index(region) is Some <==> parse_index(region.skip(q - istart as int)) is Some,
            parse_index(region.skip(q - istart as int)) is Some ==> parse_index(region) == Some(
                ix_view(ix@) + parse_index(region.skip(q - istart as int))->Some_0,
            ),
        decreases iend - q,
    {
        match parse_ientry_at(data, q, iend) {
            Ok((k, off, n)) => {
                proof {
                    assert(region =~= data@.subrange(0, iend as int).skip(istart as int));
                    lemma_open_ientry_step(
                        data@.subrange(0, iend as int),
                        region,
                        istart as int,
                        ix_view(ix@),
                        (k@, off),
                        q as int,
                        n as int,
                    );
                    assert(ix_view(ix@.push((k, off))) =~= ix_view(ix@).push((k@, off)));
                }
                ix.push((k, off));
                q = q + n;
            },
            Err(e) => {
                proof {
                    assert(region =~= data@.subrange(0, iend as int).skip(istart as int));
                    lemma_open_ientry_err(
                        data@.subrange(0, iend as int),
                        region,
                        istart as int,
                        q as int,
                    );
                    assert(region.skip(q - istart as int).len() > 0);
                    assert(parse_index(region.skip(q - istart as int)) is None);
                }
                return Err(e);
            },
        }
    }
    proof {
        assert(region.skip(q - istart as int) =~= Seq::<u8>::empty());
        assert(parse_index(region.skip(q - istart as int)) == Some(
            Seq::<(Seq<u8>, u64)>::empty(),
        ));
        assert(ix_view(ix@) + Seq::<(Seq<u8>, u64)>::empty() =~= ix_view(ix@));
    }
    Ok(ix)
}

/// Checks that every index entry names a record at its true offset and that
/// entry keys ascend strictly.
fn check_index(ix: &Vec<(Vec<u8>, u64)>, recs: &Vec<(Vec<u8>, Entry)>, offs: &Vec<u64>) -> (r:
    bool)
    requires
        keys_sorted(pairs_view(recs@)),
        offs@.len() == recs@.len(),
        forall|j: int| 0 <= j < offs@.len() ==> #[trigger] offs@[j] == rec_offset(
            pairs_view(recs@),
            j,
        ),
    ensures
        ({
            let rs = pairs_view(recs@);
            let ixs = ix_view(ix@);
            r == ((forall|j: int| 0 <= j < ixs.len() ==> ix_entry_ok(#[trigger] ixs[j], rs))
                && (forall|j1: int, j2: int| #![trigger ixs[j1], ixs[j2]] 0 <= j1 < j2 < ixs.len()
                ==> lex_lt(ixs[j1].0, ixs[j2].0)))
        }),
{
    let ghost rs = pairs_view(recs@);
    let ghost ixs = ix_view(ix@);
    let mut t: usize = 0;
    let mut cursor: usize = 0;
    while t < ix.len()
        invariant
            0 <= t <= ix@.len(),
            0 <= cursor <= recs@.len(),
            rs == pairs_view(recs@),
            ixs == ix_view(ix@),
            keys_sorted(rs),
            offs@.len() == recs@.len(),
            forall|j: int| 0 <= j < offs@.len() ==> #[trigger] offs@[j] == rec_offset(rs, j),
            forall|j1: int, j2: int| #![trigger ixs[j1], ixs[j2]] 0 <= j1 < j2 < t ==> lex_lt(
                ixs[j1].0,
                ixs[j2].0,
            ),
            forall|j: int| 0 <= j < t ==> ix_entry_ok(#[trigger] ixs[j], rs),
            forall|i: int| 0 <= i < cursor ==> (t > 0 ==> !lex_lt(
                ixs[t - 1].0,
                (#[trigger] rs[i]).0,
            )),
            t == 0 ==> cursor == 0,
        decreases ix@.len() - t,
    {
        let e_key = &ix[t].0;
        let e_off = ix[t].1;
        proof {
            assert(ixs[t as int] == (ix@[t as int].0@, ix@[t as int].1));
        }
        if t > 0 {
            if !key_lt(ix[t - 1].0.as_slice(), e_key.as_slice()) {
                proof {
                    assert(ixs[t - 1] == (ix@[t - 1].0@, ix@[t - 1].1));
                    assert(!lex_lt(ixs[t - 1].0, ixs[t as int].0));
                }
                return false;
            }
        }
        proof {
            if t > 0 {
                assert forall|i: int| 0 <= i < cursor implies lex_lt(
                    (#[trigger] rs[i]).0,
                    e_key@,
                ) by {
                    crate::bytes::lemma_lex_connex(rs[i].0, ixs[t - 1].0);
                    if lex_lt(rs[i].0, ixs[t - 1].0) {
                        lemma_lex_trans(rs[i].0, ixs[t - 1].0, e_key@);
                    }
                }
            }
        }
        while cursor < recs.len() && key_lt(recs[cursor].0.as_slice(), e_key.as_slice())
            invariant
                0 <= cursor <= recs@.len(),
                rs == pairs_view(recs@),
                keys_sorted(rs),
                forall|i: int| 0 <= i < cursor ==> lex_lt((#[trigger] rs[i]).0, e_key@),
            decreases recs@.len() - cursor,
        {
            proof {
                assert(rs[cursor as int].0 == recs@[cursor as int].0@);
            }
            cursor = cursor + 1;
        }
        if cursor == recs.len() || !bytes_eq(recs[cursor].0.as_slice(), e_key.as_slice()) || offs[
            cursor] != e_off {
            proof {
                if cursor < recs@.len() {
                    assert(rs[cursor as int].0 == recs@[cursor as int].0@);
                }
                lemma_open_ix_mismatch(rs, ixs, t as int, cursor as int, offs@);
            }
            return false;
        }
        proof {
            assert(rs[cursor as int].0 == recs@[cursor as int].0@);
            assert(rs[cursor as int].0 == e_key@ && rec_offset(rs, cursor as int) == e_off);
            assert(ix_entry_ok(ixs[t as int], rs));
            assert forall|j1: int, j2: int| #![trigger ixs[j1], ixs[j2]] 0 <= j1 < j2 < t + 1
                implies lex_lt(ixs[j1].0, ixs[j2].0) by {
                if j2 == t && j1 < t - 1 {
                    lemma_lex_trans(ixs[j1].0, ixs[t - 1].0, ixs[t as int].0);
                }
            }
            assert forall|i: int| 0 <= i < cursor + 1 implies !lex_lt(
                ixs[t as int].0,
                (#[trigger] rs[i]).0,
            ) by {
                if i < cursor {
                    crate::bytes::lemma_lex_asym(rs[i].0, e_key@);
                } else {
                    lemma_lex_irrefl(e_key@);
                }
            }
        }
        cursor = cursor + 1;
        t = t + 1;
    }
    true
}

/// An out-of-order record makes the whole region invalid: a sorted record
/// sequence cannot continue a prefix whose last key is not below the next.
proof fn lemma_open_unsorted(region: Seq<u8>, pre: Seq<Rec>, r: Rec, p: int)
    requires
        0 <= p <= region.len(),
        pre.len() > 0,
        !lex_lt(pre.last().0, r.0),
        parse_rec(region.skip(p)) is Some,
        parse_rec(region.skip(p))->Some_0.0 == r,
        parse_records(region) is Some <==> parse_records(region.skip(p)) is Some,
        parse_records(region.skip(p)) is Some ==> parse_records(region) == Some(
            pre + parse_records(region.skip(p))->Some_0,
        ),
    ensures
        parse_records(region) is Some ==> !keys_sorted(parse_records(region)->Some_0),
{
    if parse_records(region) is Some {
        let rest = parse_records(region.skip(p))->Some_0;
        let sp = region.skip(p);
        assert(sp.len() > 0) by {
            if sp.len() == 0 {
                assert(parse_rec(sp) is None);
            }
        }
        assert(rest.len() > 0 && rest[0] == r) by {
            let (r0, n0) = parse_rec(sp)->Some_0;
            assert(parse_records(sp) == Some(seq![r0] + parse_records(sp.skip(n0))->Some_0));
        }
        let rs = pre + rest;
        assert(parse_records(region)->Some_0 == rs);
        let a = pre.len() - 1;
        let b = pre.len() as int;
        assert(rs[a] == pre.last() && rs[b] == r);
        if keys_sorted(rs) {
            assert(lex_lt(rs[a].0, rs[b].0));
        }
    }
}

/// One step of the data-region scan: consuming a parsed record moves the parse
/// point and extends the collected prefix.
proof fn lemma_open_rec_step(region: Seq<u8>, pre: Seq<Rec>, r: Rec, p: int, n: int)
    requires
        0 <= p,
        p + n <= region.len(),
        n >= 1,
        parse_rec(region.skip(p)) == Some((r, n)),
        parse_records(region) is Some <==> parse_records(region.skip(p)) is Some,
        parse_records(region.skip(p)) is Some ==> parse_records(region) == Some(
            pre + parse_records(region.skip(p))->Some_0,
        ),
        p == encode_records(pre).len(),
        recs_wf(pre),
    ensures
        parse_records(region) is Some <==> parse_records(region.skip(p + n)) is Some,
        parse_records(region.skip(p + n)) is Some ==> parse_records(region) == Some(
            pre.push(r) + parse_records(region.skip(p + n))->Some_0,
        ),
        p + n == encode_records(pre.push(r)).len(),
        rec_wf(r),
{
    let sp = region.skip(p);
    assert(sp.len() == region.len() - p);
    assert(sp.skip(n) =~= region.skip(p + n));
    assert(sp.len() > 0);
    lemma_parse_rec_is_exact(sp);
    assert(encode_record(r).len() == n);
    lemma_encode_records_push(pre, r);
    if parse_records(region.skip(p + n)) is Some {
        let rest = parse_records(region.skip(p + n))->Some_0;
        assert(parse_records(sp) == Some(seq![r] + rest));
        assert(pre + (seq![r] + rest) =~= pre.push(r) + rest);
    } else {
        assert(parse_records(sp) is None);
    }
}

/// One step of the index scan, phrased over the absolute positions of the
/// checksummed prefix.
proof fn lemma_open_ientry_step(
    upto: Seq<u8>,
    iregion: Seq<u8>,
    istart: int,
    pre: Seq<(Seq<u8>, u64)>,
    e: (Seq<u8>, u64),
    q: int,
    n: int,
)
    requires
        0 <= istart <= q,
        q + n <= upto.len(),
        n >= 1,
        iregion == upto.skip(istart),
        parse_ientry(upto.skip(q)) == Some((e, n)),
        parse_index(iregion) is Some <==> parse_index(iregion.skip(q - istart)) is Some,
        parse_index(iregion.skip(q - istart)) is Some ==> parse_index(iregion) == Some(
            pre + parse_index(iregion.skip(q - istart))->Some_0,
        ),
    ensures
        parse_index(iregion) is Some <==> parse_index(iregion.skip(q + n - istart)) is Some,
        parse_index(iregion.skip(q + n - istart)) is Some ==> parse_index(iregion) == Some(
            pre.push(e) + parse_index(iregion.skip(q + n - istart))->Some_0,
        ),
{
    let sp = iregion.skip(q - istart);
    assert(sp =~= upto.skip(q));
    assert(sp.skip(n) =~= iregion.skip(q + n - istart));
    assert(sp.len() > 0);
    if parse_index(iregion.skip(q + n - istart)) is Some {
        let rest = parse_index(iregion.skip(q + n - istart))->Some_0;
        assert(parse_index(sp) == Some(seq![e] + rest));
        assert(pre + (seq![e] + rest) =~= pre.push(e) + rest);
    } else {
        assert(parse_index(sp) is None);
    }
}

/// A failed entry parse at `q` means the index region does not parse from the
/// current point.
proof fn lemma_open_ientry_err(upto: Seq<u8>, iregion: Seq<u8>, istart: int, q: int)
    requires
        0 <= istart <= q < upto.len(),
        iregion == upto.skip(istart),
        parse_ientry(upto.skip(q)) is None,
    ensures
        parse_index(iregion.skip(q - istart)) is None,
{
    let sp = iregion.skip(q - istart);
    assert(sp =~= upto.skip(q));
    assert(sp.len() > 0);
}

/// When the cursor walk fails for an index entry, no record matches it.
proof fn lemma_open_ix_mismatch(
    rs: Seq<Rec>,
    ixs: Seq<(Seq<u8>, u64)>,
    t: int,
    cursor: int,
    offs: Seq<u64>,
)
    requires
        keys_sorted(rs),
        0 <= t < ixs.len(),
        0 <= cursor <= rs.len(),
        offs.len() == rs.len(),
        forall|j: int| 0 <= j < offs.len() ==> #[trigger] offs[j] == rec_offset(rs, j),
        forall|i: int| 0 <= i < cursor ==> lex_lt((#[trigger] rs[i]).0, ixs[t].0),
        cursor < rs.len() ==> !lex_lt(rs[cursor].0, ixs[t].0),
        cursor == rs.len() || rs[cursor].0 != ixs[t].0 || offs[cursor] != ixs[t].1,
    ensures
        !ix_entry_ok(ixs[t], rs),
{
    if ix_entry_ok(ixs[t], rs) {
        let i = choose|i: int|
            0 <= i < rs.len() && (#[trigger] rs[i]).0 == ixs[t].0 && rec_offset(rs, i) == ixs[t].1;
        if i < cursor {
            lemma_lex_irrefl(ixs[t].0);
        } else if i > cursor {
            assert(cursor < rs.len());
            assert(lex_lt(rs[cursor].0, rs[i].0));
            crate::bytes::lemma_lex_connex(rs[cursor].0, ixs[t].0);
            crate::bytes::lemma_lex_asym(rs[cursor].0, rs[i].0);
        } else {
            assert(offs[cursor] == rec_offset(rs, cursor));
        }
    }
}

} // verus!
