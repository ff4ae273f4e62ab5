//! The redo log: an append-only stream of framed put and delete records. The
//! engine appends a record before touching the memtable, replays the stream on
//! open to rebuild the memtable, and truncates it once a flush has made the
//! same records durable in a sorted table.
//!
//! Framing: a put record is the type byte 0, a 32-bit little-endian key
//! length, the key bytes, a 32-bit value length and the value bytes; a delete
//! record is the type byte 1, the key length and the key bytes. Keys are
//! non-empty and a value length of `0xFFFF_FFFF` is forbidden (it is the
//! tombstone sentinel of the sorted-table format).

use vstd::prelude::*;

use crate::bytes::{copy_range, le32_val, lemma_le32_inverse, lemma_le32_roundtrip, push_bytes,
    push_u32_le, read_u32_le, u32_le};
use crate::error::Error;

verus! {

/// The model of one logged operation.
pub enum OpModel {
    /// A put of a value under a key.
    Put { key: Seq<u8>, value: Seq<u8> },
    /// A deletion of a key.
    Delete { key: Seq<u8> },
}

/// The key an operation acts on.
pub open spec fn op_key(op: OpModel) -> Seq<u8> {
    match op {
        OpModel::Put { key, .. } => key,
        OpModel::Delete { key } => key,
    }
}

/// The limits the record framing imposes: a non-empty key whose length fits
/// 32 bits, and a value length below the tombstone sentinel.
pub open spec fn op_wf(op: OpModel) -> bool {
    match op {
        OpModel::Put { key, value } => 1 <= key.len() <= u32::MAX && value.len() < u32::MAX,
        OpModel::Delete { key } => 1 <= key.len() <= u32::MAX,
    }
}

/// The framed image of one operation.
pub open spec fn encode_op(op: OpModel) -> Seq<u8> {
    match op {
        OpModel::Put { key, value } => seq![0u8] + u32_le(key.len() as u32) + key + u32_le(
            value.len() as u32,
        ) + value,
        OpModel::Delete { key } => seq![1u8] + u32_le(key.len() as u32) + key,
    }
}

/// The image of a whole log: the records in order.
pub open spec fn encode_log(ops: Seq<OpModel>) -> Seq<u8>
    decreases ops.len(),
{
    if ops.len() == 0 {
        Seq::empty()
    } else {
        encode_op(ops[0]) + encode_log(ops.skip(1))
    }
}

/// Reads one record off the front of `data`: the operation and the number of
/// bytes it occupies. `None` on an unknown type byte, an empty or oversized
/// key, the forbidden value length, or a record cut short.
pub open spec fn parse_op(data: Seq<u8>) -> Option<(OpModel, int)> {
    if data.len() < 5 {
        None
    } else {
        let t = data[0];
        let klen = le32_val(data.subrange(1, 5));
        if klen < 1 || 5 + klen > data.len() {
            None
        } else if t == 0u8 {
            if 5 + klen + 4 > data.len() {
                None
            } else {
                let vlen = le32_val(data.subrange(5 + klen, 9 + klen));
                if vlen == u32::MAX || 9 + klen + vlen > data.len() {
                    None
                } else {
                    Some(
                        (
                            OpModel::Put {
                                key: data.subrange(5, 5 + klen),
                                value: data.subrange(9 + klen, 9 + klen + vlen),
                            },
                            9 + klen + vlen,
                        ),
                    )
                }
            }
        } else if t == 1u8 {
            Some((OpModel::Delete { key: data.subrange(5, 5 + klen) }, 5 + klen))
        } else {
            None
        }
    }
}

/// Reads a whole log. `Some` exactly when the bytes are a sequence of valid
/// records ending at a record boundary.
pub open spec fn parse_log(data: Seq<u8>) -> Option<Seq<OpModel>>
    decreases data.len(),
{
    if data.len() == 0 {
        Some(Seq::empty())
    } else {
        match parse_op(data) {
            None => None,
            Some((op, n)) => match parse_log(data.skip(n)) {
                None => None,
                Some(rest) => Some(seq![op] + rest),
            },
        }
    }
}

/// One operation applied to a record map.
pub open spec fn apply_op(
    m: Map<Seq<u8>, Option<Seq<u8>>>,
    op: OpModel,
) -> Map<Seq<u8>, Option<Seq<u8>>> {
    match op {
        OpModel::Put { key, value } => m.insert(key, Some(value)),
        OpModel::Delete { key } => m.insert(key, None),
    }
}

/// A sequence of operations replayed onto a record map, oldest first.
pub open spec fn replay(m: Map<Seq<u8>, Option<Seq<u8>>>, ops: Seq<OpModel>) -> Map<
    Seq<u8>,
    Option<Seq<u8>>,
>
    decreases ops.len(),
{
    if ops.len() == 0 {
        m
    } else {
        apply_op(replay(m, ops.drop_last()), ops.last())
    }
}

pub proof fn lemma_encode_log_push(ops: Seq<OpModel>, op: OpModel)
    ensures
        encode_log(ops.push(op)) == encode_log(ops) + encode_op(op),
    decreases ops.len(),
{
    if ops.len() == 0 {
        assert(ops.push(op)[0] == op);
        assert(ops.push(op).skip(1) =~= Seq::<OpModel>::empty());
        assert(encode_log(Seq::<OpModel>::empty()) == Seq::<u8>::empty());
        assert(encode_log(ops.push(op)) == encode_op(op) + Seq::<u8>::empty());
        assert(encode_log(ops.push(op)) =~= encode_log(ops) + encode_op(op));
    } else {
        assert(ops.push(op)[0] == ops[0]);
        assert(ops.push(op).skip(1) =~= ops.skip(1).push(op));
        lemma_encode_log_push(ops.skip(1), op);
        assert(encode_log(ops.push(op)) == encode_op(ops[0]) + encode_log(ops.skip(1).push(op)));
        assert(encode_log(ops) == encode_op(ops[0]) + encode_log(ops.skip(1)));
        assert(encode_op(ops[0]) + (encode_log(ops.skip(1)) + encode_op(op)) =~= (encode_op(ops[0])
            + encode_log(ops.skip(1))) + encode_op(op));
    }
}

/// A framed record followed by anything parses back to itself.
proof fn lemma_parse_op_frame(op: OpModel, tail: Seq<u8>)
    requires
        op_wf(op),
    ensures
        parse_op(encode_op(op) + tail) == Some((op, encode_op(op).len() as int)),
{
    let data = encode_op(op) + tail;
    match op {
        OpModel::Put { key, value } => {
            let klen = key.len() as int;
            let vlen = value.len() as int;
            assert(encode_op(op).len() == 9 + klen + vlen);
            assert(data[0] == 0u8);
            assert(data.subrange(1, 5) =~= u32_le(key.len() as u32));
            lemma_le32_roundtrip(key.len() as u32);
            assert(le32_val(data.subrange(1, 5)) == klen);
            assert(data.subrange(5, 5 + klen) =~= key);
            assert(data.subrange(5 + klen, 9 + klen) =~= u32_le(value.len() as u32));
            lemma_le32_roundtrip(value.len() as u32);
            assert(le32_val(data.subrange(5 + klen, 9 + klen)) == vlen);
            assert(data.subrange(9 + klen, 9 + klen + vlen) =~= value);
        },
        OpModel::Delete { key } => {
            let klen = key.len() as int;
            assert(encode_op(op).len() == 5 + klen);
            assert(data[0] == 1u8);
            assert(data.subrange(1, 5) =~= u32_le(key.len() as u32));
            lemma_le32_roundtrip(key.len() as u32);
            assert(le32_val(data.subrange(1, 5)) == klen);
            assert(data.subrange(5, 5 + klen) =~= key);
        },
    }
}

/// Replaying the image of a sequence of operations recovers exactly that
/// sequence: the log loses nothing and invents nothing.
#[verifier::rlimit(50)]
pub proof fn lemma_wal_roundtrip(ops: Seq<OpModel>)
    requires
        forall|i: int| 0 <= i < ops.len() ==> op_wf(#[trigger] ops[i]),
    ensures
        parse_log(encode_log(ops)) == Some(ops),
    decreases ops.len(),
{
    if ops.len() == 0 {
        assert(encode_log(ops) =~= Seq::<u8>::empty());
        assert(parse_log(encode_log(ops)) == Some(ops)) by {
            assert(ops =~= Seq::<OpModel>::empty());
        }
    } else {
        let e0 = encode_op(ops[0]);
        let rest = encode_log(ops.skip(1));
        let data = encode_log(ops);
        assert(data == e0 + rest);
        lemma_parse_op_frame(ops[0], rest);
        assert(parse_op(data) == Some((ops[0], e0.len() as int)));
        assert(data.skip(e0.len() as int) =~= rest);
        assert(forall|i: int| 0 <= i < ops.skip(1).len() ==> op_wf(#[trigger] ops.skip(1)[i]));
        lemma_wal_roundtrip(ops.skip(1));
        assert(parse_log(data.skip(e0.len() as int)) == Some(ops.skip(1)));
        assert(data.len() > 0) by {
            assert(e0.len() >= 5);
        }
        assert(parse_log(data) == Some(seq![ops[0]] + ops.skip(1)));
        assert(seq![ops[0]] + ops.skip(1) =~= ops);
    }
}

/// A log that parses is exactly the image of what it parses to, and every
/// recovered operation respects the framing limits.
#[verifier::rlimit(100)]
#[verifier::spinoff_prover]
pub proof fn lemma_parse_exact(data: Seq<u8>)
    ensures
        parse_log(data) is Some ==> encode_log(parse_log(data)->Some_0) == data,
        parse_log(data) is Some ==> forall|i: int|
            0 <= i < parse_log(data)->Some_0.len() ==> op_wf(#[trigger] parse_log(data)->Some_0[i]),
    decreases data.len(),
{
    if data.len() == 0 {
        if parse_log(data) is Some {
            assert(encode_log(parse_log(data)->Some_0) =~= data);
        }
    } else if parse_op(data) is Some {
        let (op, n) = parse_op(data)->Some_0;
        assert(5 <= n <= data.len());
        lemma_parse_exact(data.skip(n));
        if parse_log(data.skip(n)) is Some {
            let rest = parse_log(data.skip(n))->Some_0;
            let ops = seq![op] + rest;
            assert(parse_log(data)->Some_0 == ops);
            assert(op_wf(op) && encode_op(op) == data.take(n)) by {
                lemma_parse_op_is_exact(data);
            }
            assert(ops[0] == op);
            assert(ops.skip(1) =~= rest);
            assert(encode_log(ops) == encode_op(op) + encode_log(rest));
            assert(encode_op(op) + encode_log(rest) =~= data) by {
                assert(encode_log(rest) == data.skip(n));
                assert(data.take(n) + data.skip(n) =~= data);
            }
            assert forall|i: int| 0 <= i < ops.len() implies op_wf(#[trigger] ops[i]) by {
                if i > 0 {
                    assert(ops[i] == rest[i - 1]);
                }
            }
        }
    }
}

/// The record read off the front of a log is framed exactly as its encoder
/// frames it.
proof fn lemma_parse_op_is_exact(data: Seq<u8>)
    requires
        parse_op(data) is Some,
    ensures
        op_wf(parse_op(data)->Some_0.0),
        encode_op(parse_op(data)->Some_0.0) == data.take(parse_op(data)->Some_0.1),
{
    let (op, n) = parse_op(data)->Some_0;
    let klen = le32_val(data.subrange(1, 5));
    lemma_le32_inverse(data.subrange(1, 5));
    match op {
        OpModel::Put { key, value } => {
            let vlen = le32_val(data.subrange(5 + klen, 9 + klen));
            lemma_le32_inverse(data.subrange(5 + klen, 9 + klen));
            assert(key.len() == klen && value.len() == vlen);
            assert(u32_le(key.len() as u32) == data.subrange(1, 5));
            assert(u32_le(value.len() as u32) == data.subrange(5 + klen, 9 + klen));
            assert(encode_op(op) =~= data.take(n));
        },
        OpModel::Delete { key } => {
            assert(key.len() == klen);
            assert(u32_le(key.len() as u32) == data.subrange(1, 5));
            assert(encode_op(op) =~= data.take(n));
        },
    }
}

/// One record of the redo log, as the engine hands it to the log and as
/// recovery hands it back.
#[derive(Debug, Clone)]
pub enum WalEntry {
    /// A put of `value` under `key`.
    Put { key: Vec<u8>, value: Vec<u8> },
    /// A deletion of `key`.
    Delete { key: Vec<u8> },
}

impl View for WalEntry {
    type V = OpModel;

    open spec fn view(&self) -> OpModel {
        match self {
            WalEntry::Put { key, value } => OpModel::Put { key: key@, value: value@ },
            WalEntry::Delete { key } => OpModel::Delete { key: key@ },
        }
    }
}

impl PartialEq for WalEntry {
    fn eq(&self, other: &WalEntry) -> (r: bool) {
        match (self, other) {
            (WalEntry::Put { key: k1, value: v1 }, WalEntry::Put { key: k2, value: v2 }) => {
                crate::bytes::bytes_eq(k1.as_slice(), k2.as_slice()) && crate::bytes::bytes_eq(
                    v1.as_slice(),
                    v2.as_slice(),
                )
            },
            (WalEntry::Delete { key: k1 }, WalEntry::Delete { key: k2 }) => crate::bytes::bytes_eq(
                k1.as_slice(),
                k2.as_slice(),
            ),
            _ => false,
        }
    }
}

impl vstd::std_specs::cmp::PartialEqSpecImpl for WalEntry {
    open spec fn obeys_eq_spec() -> bool {
        true
    }

    open spec fn eq_spec(&self, other: &WalEntry) -> bool {
        self@ == other@
    }
}

/// The model of a sequence of log records.
pub open spec fn entries_view(s: Seq<WalEntry>) -> Seq<OpModel> {
    s.map_values(|e: WalEntry| e@)
}

/// The redo log as a byte buffer. The engine appends records here first; the
/// embedding program mirrors the buffer to the log file.
pub struct Wal {
    bytes: Vec<u8>,
}

impl Wal {
    /// The current log image.
    pub closed spec fn bytes_spec(self) -> Seq<u8> {
        self.bytes@
    }

    /// Adopts the current content of the log file; appends continue after it.
    pub fn open(existing: Vec<u8>) -> (w: Wal)
        ensures
            w.bytes_spec() == existing@,
    {
        Wal { bytes: existing }
    }

    /// Appends one framed record.
    pub fn append(&mut self, entry: &WalEntry)
        requires
            op_wf(entry@),
        ensures
            final(self).bytes_spec() == old(self).bytes_spec() + encode_op(entry@),
    {
        match entry {
            WalEntry::Put { key, value } => {
                self.bytes.push(0u8);
                push_u32_le(&mut self.bytes, key.len() as u32);
                push_bytes(&mut self.bytes, key.as_slice());
                push_u32_le(&mut self.bytes, value.len() as u32);
                push_bytes(&mut self.bytes, value.as_slice());
                proof {
                    assert(self.bytes@ =~= old(self).bytes@ + encode_op(entry@));
                }
            },
            WalEntry::Delete { key } => {
                self.bytes.push(1u8);
                push_u32_le(&mut self.bytes, key.len() as u32);
                push_bytes(&mut self.bytes, key.as_slice());
                proof {
                    assert(self.bytes@ =~= old(self).bytes@ + encode_op(entry@));
                }
            },
        }
    }

    /// Reads all records back from a log image. On a byte stream that ends
    /// exactly at a record boundary the records come back in order; a partial
    /// tail, an unknown type byte or an ill-formed length is a corrupt log.
    pub fn recover(data: &[u8]) -> (r: Result<Vec<WalEntry>, Error>)
        ensures
            match r {
                Ok(es) => parse_log(data@) == Some(entries_view(es@)),
                Err(e) => e == Error::CorruptLog && parse_log(data@) is None,
            },
    {
        let mut es: Vec<WalEntry> = Vec::new();
        let mut p: usize = 0;
        proof {
            assert(data@.skip(0) =~= data@);
        }
        while p < data.len()
            invariant
                0 <= p <= data@.len(),
                parse_log(data@) is Some <==> parse_log(data@.skip(p as int)) is Some,
                parse_log(data@.skip(p as int)) is Some ==> parse_log(data@) == Some(
                    entries_view(es@) + parse_log(data@.skip(p as int))->Some_0,
                ),
            decreases data@.len() - p,
        {
            match parse_one(data, p) {
                Ok((entry, n)) => {
                    proof {
                        lemma_recover_step(data@, p as int, entries_view(es@), entry@, n as int);
                        assert(entries_view(es@.push(entry)) =~= entries_view(es@).push(entry@));
                    }
                    es.push(entry);
                    p = p + n;
                },
                Err(e) => {
                    proof {
                        assert(data@.skip(p as int).len() > 0);
                        assert(parse_log(data@.skip(p as int)) is None);
                    }
                    return Err(e);
                },
            }
        }
        proof {
            assert(data@.skip(p as int) =~= Seq::<u8>::empty());
            assert(parse_log(data@.skip(p as int)) == Some(Seq::<OpModel>::empty()));
            assert(entries_view(es@) + Seq::<OpModel>::empty() =~= entries_view(es@));
        }
        Ok(es)
    }

    /// Resets the log to empty; called only after the records it covers have
    /// become durable in a sorted table.
    pub fn truncate(&mut self)
        ensures
            final(self).bytes_spec() == Seq::<u8>::empty(),
    {
        self.bytes.clear();
    }

    /// The current log image, for the embedding program to persist.
    pub fn bytes(&self) -> (r: &Vec<u8>)
        ensures
            r@ == self.bytes_spec(),
    {
        &self.bytes
    }
}

/// Reads the one record that starts at `p`, returning it and its framed size.
fn parse_one(data: &[u8], p: usize) -> (r: Result<(WalEntry, usize), Error>)
    requires
        p < data@.len(),
    ensures
        match r {
            Ok((e, n)) => 1 <= n && p + n <= data@.len() && parse_op(data@.skip(p as int)) == Some(
                (e@, n as int),
            ),
            Err(err) => err == Error::CorruptLog && parse_op(data@.skip(p as int)) is None,
        },
{
    let ghost sp = data@.skip(p as int);
    proof {
        assert(sp.len() == data@.len() - p);
        assert(sp[0] == data@[p as int]);
    }
    if data.len() - p < 5 {
        return Err(Error::CorruptLog);
    }
    let t = data[p];
    let klen32 = read_u32_le(data, p + 1);
    proof {
        assert(sp.subrange(1, 5) =~= data@.subrange(p as int + 1, p as int + 5));
    }
    let klen: usize = klen32 as usize;
    let ghost kl = klen as int;
    if klen < 1 || klen > data.len() - p - 5 {
        return Err(Error::CorruptLog);
    }
    let key = copy_range(data, p + 5, p + 5 + klen);
    proof {
        assert(sp.subrange(5, 5 + kl) =~= data@.subrange(p as int + 5, p as int + 5 + kl));
    }
    if t == 0 {
        if data.len() - p - 5 - klen < 4 {
            return Err(Error::CorruptLog);
        }
        let vlen32 = read_u32_le(data, p + 5 + klen);
        proof {
            assert(sp.subrange(5 + kl, 9 + kl) =~= data@.subrange(
                p as int + 5 + kl,
                p as int + 9 + kl,
            ));
        }
        if vlen32 == u32::MAX || (vlen32 as usize) > data.len() - p - 9 - klen {
            return Err(Error::CorruptLog);
        }
        let vlen: usize = vlen32 as usize;
        let ghost vl = vlen as int;
        let value = copy_range(data, p + 9 + klen, p + 9 + klen + vlen);
        proof {
            assert(sp.subrange(9 + kl, 9 + kl + vl) =~= data@.subrange(
                p as int + 9 + kl,
                p as int + 9 + kl + vl,
            ));
        }
        let entry = WalEntry::Put { key, value };
        proof {
            assert(parse_op(sp) == Some((entry@, 9 + kl + vl)));
        }
        Ok((entry, 9 + klen + vlen))
    } else if t == 1 {
        let entry = WalEntry::Delete { key };
        proof {
            assert(parse_op(sp) == Some((entry@, 5 + kl)));
        }
        Ok((entry, 5 + klen))
    } else {
        Err(Error::CorruptLog)
    }
}

/// One step of recovery: consuming a parsed record moves the parse point and
/// extends the recovered prefix.
proof fn lemma_recover_step(data: Seq<u8>, p: int, pre: Seq<OpModel>, op: OpModel, n: int)
    requires
        0 <= p,
        p + n <= data.len(),
        n >= 1,
        parse_op(data.skip(p)) == Some((op, n)),
        parse_log(data) is Some <==> parse_log(data.skip(p)) is Some,
        parse_log(data.skip(p)) is Some ==> parse_log(data) == Some(
            pre + parse_log(data.skip(p))->Some_0,
        ),
    ensures
        parse_log(data) is Some <==> parse_log(data.skip(p + n)) is Some,
        parse_log(data.skip(p + n)) is Some ==> parse_log(data) == Some(
            pre.push(op) + parse_log(data.skip(p + n))->Some_0,
        ),
{
    let sp = data.skip(p);
    assert(sp.len() == data.len() - p);
    assert(sp.skip(n) =~= data.skip(p + n));
    assert(sp.len() > 0) by {
        assert(n >= 1 && p + n <= data.len());
    }
    if parse_log(data.skip(p + n)) is Some {
        let rest = parse_log(data.skip(p + n))->Some_0;
        assert(parse_log(sp) == Some(seq![op] + rest));
        assert(pre + (seq![op] + rest) =~= pre.push(op) + rest);
    } else {
        assert(parse_log(sp) is None);
    }
}

} // verus!
