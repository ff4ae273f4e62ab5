//! The engine: one memtable, one redo log, and a newest-first list of sorted
//! tables, bound under a single consistency and durability model. A write goes
//! to the log first, then to the memtable; a full memtable is flushed into a
//! new sorted table and the log is truncated; four or more live tables trigger
//! a compaction of the whole list.
//!
//! The engine works on an in-memory [`Directory`]: the current log image and
//! the table file images, each under its numeric identifier. The embedding
//! program reads the directory from disk before `open` and mirrors the
//! engine's directory back to disk after each operation; identifiers are
//! minted monotonically so that the lexicographic order of the zero-padded
//! file names matches the order of creation.
//!
//! The engine is a single-writer value: mutating operations take it
//! exclusively. An embedding program that serves several threads puts the
//! engine behind its own lock.

use vstd::prelude::*;

use crate::compaction::{compact, lemma_layered_dom, lemma_layered_first, tables_kv};
use crate::error::Error;
use crate::kv::{layered, lemma_seq_to_map_index, lemma_sorted_distinct, resolve, seq_size,
    seq_to_map, Rec};
use crate::memtable::{Entry, MemTable};
use crate::sstable::{recs_wf, table_records, table_wf, SSTable, SSTableBuilder};
use crate::wal::{encode_log, encode_op, entries_view, lemma_encode_log_push,
    lemma_parse_exact, op_key, op_wf, parse_log, replay, OpModel, Wal, WalEntry};

verus! {

/// One table file of a store's data directory: the numeric part of its file
/// name, and the file's bytes.
pub struct TableFile {
    /// The zero-padded numeric identifier in the file name.
    pub id: u64,
    /// The file image.
    pub bytes: Vec<u8>,
}

/// The durable state of one store: the current redo log and the live table
/// files, newest first. The embedding program fills it from the data
/// directory before `open` and writes it back after mutations.
pub struct Directory {
    /// The current redo log image.
    pub wal: Vec<u8>,
    /// The live table files, newest first: identifiers strictly descending.
    pub tables: Vec<TableFile>,
}

/// Keys are non-empty and fit the 32-bit framing; values stay below the
/// tombstone sentinel.
pub open spec fn map_keys_wf(m: Map<Seq<u8>, Option<Seq<u8>>>) -> bool {
    forall|k: Seq<u8>| #[trigger] m.contains_key(k) ==> 1 <= k.len() <= u32::MAX && (m[k] is Some
        ==> m[k]->Some_0.len() < u32::MAX)
}

/// The identifiers of a directory's table files.
pub open spec fn dir_ids(d: Directory) -> Seq<u64> {
    d.tables@.map_values(|f: TableFile| f.id)
}

/// A directory that opens without error: the log parses, every table file is
/// valid, and the identifiers descend strictly (newest first).
pub open spec fn dir_wf(d: Directory) -> bool {
    &&& parse_log(d.wal@) is Some
    &&& forall|t: int| 0 <= t < d.tables@.len() ==> table_wf((#[trigger] d.tables@[t]).bytes@)
    &&& forall|i: int, j: int| #![trigger dir_ids(d)[i], dir_ids(d)[j]] 0 <= i < j
        < d.tables@.len() ==> dir_ids(d)[i] > dir_ids(d)[j]
    &&& d.tables@.len() > 0 ==> dir_ids(d)[0] < u64::MAX
}

/// The record map a directory describes: the replayed log over the tables,
/// newest first.
pub open spec fn dir_map(d: Directory) -> Map<Seq<u8>, Option<Seq<u8>>> {
    layered(
        seq![replay(Map::empty(), parse_log(d.wal@)->Some_0)] + d.tables@.map_values(
            |f: TableFile| seq_to_map(table_records(f.bytes@)),
        ),
    )
}

/// The storage engine: coordinates the memtable, the redo log and the sorted
/// tables under one observable mapping.
pub struct Engine {
    memtable: MemTable,
    wal: Wal,
    sstables: Vec<SSTable>,
    threshold: usize,
    next_id: u64,
}

impl Engine {
    /// The live tables, newest first.
    pub closed spec fn tables(self) -> Seq<SSTable> {
        self.sstables@
    }

    /// The memtable's record map.
    pub closed spec fn mem(self) -> Map<Seq<u8>, Option<Seq<u8>>> {
        self.memtable@
    }

    /// The current log image.
    pub closed spec fn wal_bytes(self) -> Seq<u8> {
        self.wal.bytes_spec()
    }

    /// Whether the identifier space is used up; no further table can be
    /// created then.
    pub closed spec fn ids_exhausted(self) -> bool {
        self.next_id == u64::MAX
    }

    /// The memtable's byte-size account.
    pub closed spec fn mem_size(self) -> nat {
        self.memtable.size_spec()
    }

    /// The configured flush threshold.
    pub closed spec fn threshold_spec(self) -> nat {
        self.threshold as nat
    }

    /// The whole store as one record map: the memtable over the tables,
    /// newest first; the newest record for a key decides.
    pub open spec fn full_map(self) -> Map<Seq<u8>, Option<Seq<u8>>> {
        layered(seq![self.mem()] + tables_kv(self.tables()))
    }

    /// The observable mapping: keys whose newest record is a value.
    pub open spec fn kv(self) -> Map<Seq<u8>, Seq<u8>> {
        resolve(self.full_map())
    }

    /// Replay idempotence: at any point, replaying the current log into an
    /// empty memtable reproduces the memtable's content exactly — the log
    /// alone carries every unflushed write.
    pub proof fn lemma_log_replay(self)
        requires
            self.wf(),
        ensures
            parse_log(self.wal_bytes()) is Some,
            replay(Map::empty(), parse_log(self.wal_bytes())->Some_0) == self.mem(),
    {
    }

    /// The representation invariant: a well-formed memtable whose content is
    /// exactly the replay of the log, well-formed tables with strictly
    /// descending identifiers below the next one to mint, and a size account
    /// bounded by the log image.
    pub closed spec fn wf(self) -> bool {
        &&& self.memtable.wf()
        &&& self.memtable.threshold() == self.threshold as nat
        &&& map_keys_wf(self.memtable@)
        &&& parse_log(self.wal.bytes_spec()) is Some
        &&& replay(Map::empty(), parse_log(self.wal.bytes_spec())->Some_0) == self.memtable@
        &&& self.memtable.size_spec() <= self.wal.bytes_spec().len()
        &&& forall|t: int| 0 <= t < self.sstables@.len() ==> (#[trigger] self.sstables@[t]).wf()
        &&& forall|i: int, j: int|
            #![trigger self.sstables@[i], self.sstables@[j]]
            0 <= i < j < self.sstables@.len() ==> self.sstables@[i].id_spec()
                > self.sstables@[j].id_spec()
        &&& forall|t: int| 0 <= t < self.sstables@.len() ==> (
        #[trigger] self.sstables@[t]).id_spec() < self.next_id
    }
}

/// The memtable's size account after a put: a fresh key adds the whole pair,
/// replacing a value moves by the difference of the value lengths, replacing a
/// tombstone adds the new value.
pub open spec fn size_after_put(
    m: Map<Seq<u8>, Option<Seq<u8>>>,
    sz: nat,
    k: Seq<u8>,
    v: Seq<u8>,
) -> int {
    if !m.contains_key(k) {
        sz + k.len() + v.len() as int
    } else if m[k] is Some {
        sz - m[k]->Some_0.len() + v.len()
    } else {
        sz + v.len() as int
    }
}

/// The memtable's size account after a delete: a fresh key adds the key bytes
/// of its tombstone, deleting a value removes the value bytes, re-deleting
/// changes nothing.
pub open spec fn size_after_delete(m: Map<Seq<u8>, Option<Seq<u8>>>, sz: nat, k: Seq<u8>) -> int {
    if !m.contains_key(k) {
        sz + k.len() as int
    } else if m[k] is Some {
        sz - m[k]->Some_0.len()
    } else {
        sz as int
    }
}

/// The mapping run forward by a sequence of operations: a put binds its key, a
/// delete removes it. The engine's `put`, `delete` and `get` follow this run:
/// `put` inserts into `kv`, `delete` removes, `flush` and `compact` leave it
/// unchanged.
pub open spec fn run_kv(m: Map<Seq<u8>, Seq<u8>>, ops: Seq<OpModel>) -> Map<Seq<u8>, Seq<u8>>
    decreases ops.len(),
{
    if ops.len() == 0 {
        m
    } else {
        match ops.last() {
            OpModel::Put { key, value } => run_kv(m, ops.drop_last()).insert(key, value),
            OpModel::Delete { key } => run_kv(m, ops.drop_last()).remove(key),
        }
    }
}

/// Recency: after any run of operations, a key reads as its last operation
/// wrote it — the put value, or absent after a delete — whatever the earlier
/// operations and the starting state.
pub proof fn lemma_recency(m: Map<Seq<u8>, Seq<u8>>, ops: Seq<OpModel>, i: int)
    requires
        0 <= i < ops.len(),
        forall|j: int| i < j < ops.len() ==> op_key(#[trigger] ops[j]) != op_key(ops[i]),
    ensures
        match ops[i] {
            OpModel::Put { key, value } => run_kv(m, ops).contains_key(key) && run_kv(m, ops)[key]
                == value,
            OpModel::Delete { key } => !run_kv(m, ops).contains_key(key),
        },
    decreases ops.len(),
{
    if i == ops.len() - 1 {
    } else {
        assert(forall|j: int| i < j < ops.drop_last().len() ==> op_key(
            #[trigger] ops.drop_last()[j],
        ) != op_key(ops.drop_last()[i]));
        lemma_recency(m, ops.drop_last(), i);
        assert(ops.drop_last()[i] == ops[i]);
        assert(op_key(ops.last()) != op_key(ops[i]));
    }
}

/// Layering a map whose key set gains one binding moves that binding to the
/// layered whole.
proof fn lemma_layered_insert(
    m: Map<Seq<u8>, Option<Seq<u8>>>,
    ts: Seq<Map<Seq<u8>, Option<Seq<u8>>>>,
    k: Seq<u8>,
    v: Option<Seq<u8>>,
)
    ensures
        layered(seq![m.insert(k, v)] + ts) == layered(seq![m] + ts).insert(k, v),
{
    let s1 = seq![m.insert(k, v)] + ts;
    let s2 = seq![m] + ts;
    assert(s1.skip(1) =~= ts);
    assert(s2.skip(1) =~= ts);
    assert(s1[0] == m.insert(k, v));
    assert(s2[0] == m);
    assert(layered(ts).union_prefer_right(m.insert(k, v)) =~= layered(ts).union_prefer_right(
        m,
    ).insert(k, v));
}

/// An empty layer on top changes nothing.
proof fn lemma_layered_cons_empty(ts: Seq<Map<Seq<u8>, Option<Seq<u8>>>>)
    ensures
        layered(seq![Map::<Seq<u8>, Option<Seq<u8>>>::empty()] + ts) == layered(ts),
{
    let s = seq![Map::<Seq<u8>, Option<Seq<u8>>>::empty()] + ts;
    assert(s.skip(1) =~= ts);
    assert(layered(ts).union_prefer_right(Map::empty()) =~= layered(ts));
}

/// Resolving after binding a key to a value binds it in the observable map.
proof fn lemma_resolve_insert(m: Map<Seq<u8>, Option<Seq<u8>>>, k: Seq<u8>, v: Seq<u8>)
    ensures
        resolve(m.insert(k, Some(v))) == resolve(m).insert(k, v),
{
    assert(resolve(m.insert(k, Some(v))) =~= resolve(m).insert(k, v));
}

/// Resolving after binding a key to a tombstone removes it from the
/// observable map.
proof fn lemma_resolve_remove(m: Map<Seq<u8>, Option<Seq<u8>>>, k: Seq<u8>)
    ensures
        resolve(m.insert(k, None)) == resolve(m).remove(k),
{
    assert(resolve(m.insert(k, None)) =~= resolve(m).remove(k));
}

impl Engine {
    /// Opens the store from a directory image: replays the redo log into a
    /// fresh memtable and loads the table files, newest first. A log that does
    /// not parse is a corrupt log; an invalid table file, table identifiers
    /// out of order, or an exhausted identifier space is a corrupt table set.
    #[verifier::rlimit(100)]
    pub fn open(d: Directory, max_memtable_size: usize) -> (r: Result<Engine, Error>)
        ensures
            match r {
                Ok(e) => {
                    &&& dir_wf(d)
                    &&& e.wf()
                    &&& e.full_map() == dir_map(d)
                    &&& e.kv() == resolve(dir_map(d))
                    &&& e.mem() == replay(Map::empty(), parse_log(d.wal@)->Some_0)
                    &&& e.mem_size() <= d.wal@.len()
                    &&& e.threshold_spec() == max_memtable_size as nat
                    &&& e.tables().len() == d.tables@.len()
                    &&& forall|j: int| 0 <= j < d.tables@.len() ==> (
                    #[trigger] e.tables()[j]).id_spec() == d.tables@[j].id
                        && e.tables()[j].bytes_spec() == d.tables@[j].bytes@
                    &&& e.ids_exhausted() ==> d.tables@.len() > 0 && dir_ids(d)[0] == u64::MAX - 1
                },
                Err(Error::CorruptLog) => parse_log(d.wal@) is None,
                Err(Error::CorruptTable) => parse_log(d.wal@) is Some && !dir_wf(d),
                Err(_) => false,
            },
    {
        let Directory { wal: wal_bytes, tables: files } = d;
        let ghost orig = files@;
        let ops = match Wal::recover(wal_bytes.as_slice()) {
            Ok(o) => o,
            Err(e) => {
                return Err(e);
            },
        };
        let ghost ov = entries_view(ops@);
        proof {
            lemma_parse_exact(wal_bytes@);
        }
        // Load and order-check the table files.
        let mut files = files;
        let mut tabs: Vec<SSTable> = Vec::new();
        while files.len() > 0
            invariant
                orig == d.tables@,
                parse_log(d.wal@) is Some,
                tabs@.len() + files@.len() == orig.len(),
                files@ =~= orig.skip(tabs@.len() as int),
                forall|j: int| 0 <= j < tabs@.len() ==> (#[trigger] tabs@[j]).wf(),
                forall|j: int| 0 <= j < tabs@.len() ==> (#[trigger] tabs@[j]).id_spec()
                    == orig[j].id && tabs@[j].bytes_spec() == orig[j].bytes@,
                forall|i: int, j: int|
                    #![trigger tabs@[i], tabs@[j]]
                    0 <= i < j < tabs@.len() ==> tabs@[i].id_spec() > tabs@[j].id_spec(),
            decreases files@.len(),
        {
            let ghost c = tabs@.len() as int;
            let f = files.remove(0);
            proof {
                assert(f == orig[c]);
                assert(files@ =~= orig.skip(c + 1));
            }
            match SSTable::open(f.id, f.bytes) {
                Ok(t) => {
                    if tabs.len() > 0 {
                        let lastidx = tabs.len() - 1;
                        if tabs[lastidx].id() <= t.id() {
                            proof {
                                assert(dir_ids(d)[c - 1] == orig[c - 1].id);
                                assert(dir_ids(d)[c] == orig[c].id);
                                assert(!(dir_ids(d)[c - 1] > dir_ids(d)[c]));
                            }
                            return Err(Error::CorruptTable);
                        }
                    }
                    tabs.push(t);
                },
                Err(e) => {
                    proof {
                        assert(!table_wf(d.tables@[c].bytes@));
                    }
                    return Err(e);
                },
            }
        }
        proof {
            assert(tabs@.len() == orig.len());
        }
        // The next identifier to mint must lie above every live table's.
        let next_id: u64;
        if tabs.len() > 0 {
            let top = tabs[0].id();
            if top == u64::MAX {
                proof {
                    assert(dir_ids(d)[0] == orig[0].id);
                    assert(!(dir_ids(d)[0] < u64::MAX));
                }
                return Err(Error::CorruptTable);
            }
            next_id = top + 1;
        } else {
            next_id = 1;
        }
        proof {
            assert(dir_wf(d)) by {
                assert forall|i: int, j: int|
                    #![trigger dir_ids(d)[i], dir_ids(d)[j]]
                    0 <= i < j < d.tables@.len() implies dir_ids(d)[i] > dir_ids(d)[j] by {
                    assert(dir_ids(d)[i] == orig[i].id && dir_ids(d)[j] == orig[j].id);
                    assert(tabs@[i].id_spec() == orig[i].id && tabs@[j].id_spec() == orig[j].id);
                }
                assert forall|t: int| 0 <= t < d.tables@.len() implies table_wf(
                    (#[trigger] d.tables@[t]).bytes@,
                ) by {
                    tabs@[t].lemma_wf_props();
                }
                if d.tables@.len() > 0 {
                    assert(dir_ids(d)[0] == orig[0].id);
                    assert(tabs@[0].id_spec() == orig[0].id);
                }
            }
        }
        // Replay the log into a fresh memtable.
        let mut memtable = MemTable::new(max_memtable_size);
        let total = wal_bytes.len();
        let mut i: usize = 0;
        proof {
            assert(ov.take(0) =~= Seq::<OpModel>::empty());
            assert(ov.skip(0) =~= ov);
        }
        while i < ops.len()
            invariant
                0 <= i <= ops@.len(),
                ov == entries_view(ops@),
                ov.len() == ops@.len(),
                forall|j: int| 0 <= j < ov.len() ==> op_wf(#[trigger] ov[j]),
                forall|j: int| 0 <= j < ops@.len() ==> (#[trigger] ops@[j])@ == ov[j],
                encode_log(ov).len() == total,
                memtable.wf(),
                memtable.threshold() == max_memtable_size as nat,
                memtable@ == replay(Map::empty(), ov.take(i as int)),
                map_keys_wf(memtable@),
                memtable.size_spec() + encode_log(ov.skip(i as int)).len() <= total,
            decreases ops@.len() - i,
        {
            let ghost oi = ov[i as int];
            proof {
                assert(ov.skip(i as int).len() > 0);
                assert(ov.skip(i as int)[0] == oi);
                assert(ov.skip(i as int).skip(1) =~= ov.skip(i as int + 1));
                assert(encode_log(ov.skip(i as int)) == encode_op(oi) + encode_log(
                    ov.skip(i as int + 1),
                ));
                assert(ov.take(i as int + 1).drop_last() =~= ov.take(i as int));
                assert(ov.take(i as int + 1).last() == oi);
            }
            match &ops[i] {
                WalEntry::Put { key, value } => {
                    let k = crate::bytes::clone_bytes(key);
                    let v = crate::bytes::clone_bytes(value);
                    proof {
                        assert(encode_op(oi).len() >= k@.len() + v@.len());
                    }
                    memtable.put(k, v);
                },
                WalEntry::Delete { key } => {
                    let k = crate::bytes::clone_bytes(key);
                    proof {
                        assert(encode_op(oi).len() >= k@.len());
                    }
                    memtable.delete(k);
                },
            }
            i = i + 1;
        }
        proof {
            assert(ov.take(ops@.len() as int) =~= ov);
        }
        let engine = Engine {
            memtable,
            wal: Wal::open(wal_bytes),
            sstables: tabs,
            threshold: max_memtable_size,
            next_id,
        };
        proof {
            assert(engine.full_map() == dir_map(d)) by {
                assert(tables_kv(engine.tables()) =~= d.tables@.map_values(
                    |f: TableFile| seq_to_map(table_records(f.bytes@)),
                )) by {
                    assert forall|j: int| 0 <= j < orig.len() implies tables_kv(engine.tables())[j]
                        == seq_to_map(table_records(orig[j].bytes@)) by {
                        assert(tables_kv(engine.tables())[j] == engine.tables()[j].kv());
                    }
                }
                assert(seq![engine.mem()] + tables_kv(engine.tables()) =~= seq![replay(
                    Map::empty(),
                    parse_log(d.wal@)->Some_0,
                )] + d.tables@.map_values(|f: TableFile| seq_to_map(table_records(f.bytes@))));
            }
        }
        Ok(engine)
    }

    /// The store's durable state, for the embedding program to persist: the
    /// current log image and the live table files, newest first. Re-opening
    /// from it restores the observable mapping — what the log and the tables
    /// hold together is exactly what the store serves.
    pub fn directory(&self) -> (r: Directory)
        requires
            self.wf(),
        ensures
            dir_wf(r),
            dir_map(r) == self.full_map(),
            r.wal@ == self.wal_bytes(),
            r.tables@.len() == self.tables().len(),
            forall|j: int| 0 <= j < self.tables().len() ==> (#[trigger] r.tables@[j]).id
                == self.tables()[j].id_spec() && r.tables@[j].bytes@
                == self.tables()[j].bytes_spec(),
    {
        let wal = crate::bytes::clone_bytes(self.wal.bytes());
        let mut tables: Vec<TableFile> = Vec::new();
        let mut t: usize = 0;
        while t < self.sstables.len()
            invariant
                0 <= t <= self.sstables@.len(),
                self.wf(),
                tables@.len() == t,
                forall|j: int| 0 <= j < t ==> (#[trigger] tables@[j]).id
                    == self.sstables@[j].id_spec() && tables@[j].bytes@
                    == self.sstables@[j].bytes_spec(),
            decreases self.sstables@.len() - t,
        {
            let id = self.sstables[t].id();
            let bytes = crate::bytes::clone_bytes(self.sstables[t].bytes());
            tables.push(TableFile { id, bytes });
            t = t + 1;
        }
        let r = Directory { wal, tables };
        proof {
            self.lemma_wf_tables();
            assert forall|i: int, j: int|
                #![trigger dir_ids(r)[i], dir_ids(r)[j]]
                0 <= i < j < r.tables@.len() implies dir_ids(r)[i] > dir_ids(r)[j] by {
                assert(dir_ids(r)[i] == r.tables@[i].id && dir_ids(r)[j] == r.tables@[j].id);
            }
            assert(dir_map(r) == self.full_map()) by {
                assert(seq![replay(Map::empty(), parse_log(r.wal@)->Some_0)] + r.tables@.map_values(
                    |f: TableFile| seq_to_map(table_records(f.bytes@)),
                ) =~= seq![self.mem()] + tables_kv(self.tables())) by {
                    assert forall|j: int| 0 <= j < self.tables().len() implies r.tables@.map_values(
                        |f: TableFile| seq_to_map(table_records(f.bytes@)),
                    )[j] == tables_kv(self.tables())[j] by {
                        assert(tables_kv(self.tables())[j] == self.tables()[j].kv());
                    }
                }
            }
        }
        r
    }

    /// Table validity, spelled out of the representation invariant for
    /// callers of `directory`.
    proof fn lemma_wf_tables(&self)
        requires
            self.wf(),
        ensures
            forall|t: int| 0 <= t < self.tables().len() ==> table_wf(
                (#[trigger] self.tables()[t]).bytes_spec(),
            ),
            forall|t: int| 0 <= t < self.tables().len() ==> (#[trigger] self.tables()[t]).kv()
                == seq_to_map(table_records(self.tables()[t].bytes_spec())),
    {
        assert forall|t: int| 0 <= t < self.tables().len() implies table_wf(
            (#[trigger] self.tables()[t]).bytes_spec(),
        ) && self.tables()[t].kv() == seq_to_map(
            table_records(self.tables()[t].bytes_spec()),
        ) by {
            self.sstables@[t].lemma_wf_props();
        }
    }
}

/// A well-formed memtable content whose keys respect the framing limits holds
/// only well-formed records.
proof fn lemma_mem_recs_wf(m: MemTable)
    requires
        m.wf(),
        map_keys_wf(m@),
    ensures
        recs_wf(m.kv_seq()),
{
    m.lemma_wf_sorted();
    lemma_sorted_distinct(m.kv_seq());
    assert forall|i: int| 0 <= i < m.kv_seq().len() implies crate::sstable::rec_wf(
        #[trigger] m.kv_seq()[i],
    ) by {
        lemma_seq_to_map_index(m.kv_seq(), i);
        assert(m@.contains_key(m.kv_seq()[i].0));
    }
}

/// An empty size account means an empty memtable, once keys are non-empty.
proof fn lemma_mem_empty(m: MemTable)
    requires
        m.wf(),
        map_keys_wf(m@),
        m.size_spec() == 0,
    ensures
        m@ == Map::<Seq<u8>, Option<Seq<u8>>>::empty(),
        m.kv_seq() == Seq::<Rec>::empty(),
{
    m.lemma_wf_sorted();
    if m.kv_seq().len() > 0 {
        lemma_sorted_distinct(m.kv_seq());
        lemma_seq_to_map_index(m.kv_seq(), m.kv_seq().len() - 1);
        assert(m@.contains_key(m.kv_seq().last().0));
        assert(seq_size(m.kv_seq()) >= crate::kv::entry_size(m.kv_seq().last()));
    }
    assert(m.kv_seq() =~= Seq::<Rec>::empty());
}

impl Engine {
    /// Merges every live table into one, preserving the observable mapping.
    fn compact_all(&mut self)
        requires
            old(self).wf(),
            old(self).tables().len() > 0,
            !old(self).ids_exhausted(),
        ensures
            final(self).wf(),
            final(self).threshold_spec() == old(self).threshold_spec(),
            final(self).full_map() == old(self).full_map(),
            final(self).kv() == old(self).kv(),
            final(self).mem() == old(self).mem(),
            final(self).wal_bytes() == old(self).wal_bytes(),
            final(self).tables().len() == 1,
    {
        let ghost old_tk = tables_kv(old(self).tables());
        let id = self.next_id;
        match compact(&self.sstables) {
            None => {
                proof {
                    assert(false);
                }
            },
            Some(bytes) => {
                match SSTable::open(id, bytes) {
                    Ok(t) => {
                        self.next_id = id + 1;
                        let mut single: Vec<SSTable> = Vec::new();
                        single.push(t);
                        self.sstables = single;
                        proof {
                            let m = self.memtable@;
                            let merged = self.sstables@[0].kv();
                            assert(merged == layered(old_tk));
                            assert(tables_kv(self.tables()) =~= seq![merged]);
                            assert(layered(seq![m] + seq![merged]) == layered(
                                seq![m] + old_tk,
                            )) by {
                                let s1 = seq![m] + seq![merged];
                                let s2 = seq![m] + old_tk;
                                assert(s1.skip(1) =~= seq![merged]);
                                assert(s2.skip(1) =~= old_tk);
                                assert(layered(seq![merged]) == merged) by {
                                    assert(seq![merged].skip(1) =~= Seq::<
                                        Map<Seq<u8>, Option<Seq<u8>>>,
                                    >::empty());
                                    assert(layered(Seq::<
                                        Map<Seq<u8>, Option<Seq<u8>>>,
                                    >::empty()) == Map::<Seq<u8>, Option<Seq<u8>>>::empty());
                                    assert(Map::<Seq<u8>, Option<Seq<u8>>>::empty()
                                        .union_prefer_right(merged) =~= merged);
                                }
                                assert(s1[0] == m && s2[0] == m);
                            }
                        }
                    },
                    Err(_) => {
                        proof {
                            assert(false);
                        }
                    },
                }
            },
        }
    }

    /// Starts a compaction when the table count has reached the trigger
    /// threshold; an exhausted identifier space leaves the tables untouched,
    /// and the engine stays usable.
    fn check_compaction(&mut self)
        requires
            old(self).wf(),
        ensures
            final(self).wf(),
            final(self).threshold_spec() == old(self).threshold_spec(),
            final(self).full_map() == old(self).full_map(),
            final(self).kv() == old(self).kv(),
            final(self).mem() == old(self).mem(),
            final(self).wal_bytes() == old(self).wal_bytes(),
            old(self).tables().len() >= 1 ==> final(self).tables().len() >= 1,
            old(self).tables().len() < 4 ==> final(self).tables() == old(self).tables(),
            (old(self).tables().len() >= 4 && !old(self).ids_exhausted()) ==> final(
                self).tables().len() == 1,
    {
        if self.sstables.len() < 4 {
            return ;
        }
        if self.next_id == u64::MAX {
            return ;
        }
        self.compact_all();
    }

    /// Materialises the memtable into a new sorted table, installs it at the
    /// front of the table list, truncates the log, and evaluates the
    /// compaction trigger. An empty memtable is a no-op; an exhausted
    /// identifier space fails without touching anything.
    pub fn flush(&mut self) -> (r: Result<(), Error>)
        requires
            old(self).wf(),
        ensures
            final(self).wf(),
            final(self).threshold_spec() == old(self).threshold_spec(),
            final(self).full_map() == old(self).full_map(),
            final(self).kv() == old(self).kv(),
            old(self).mem() == Map::<Seq<u8>, Option<Seq<u8>>>::empty() ==> r is Ok && *final(self)
                == *old(self),
            old(self).mem() != Map::<Seq<u8>, Option<Seq<u8>>>::empty()
                && old(self).ids_exhausted() ==> r == Err::<(), Error>(Error::Io) && *final(self)
                == *old(self),
            (old(self).mem() != Map::<Seq<u8>, Option<Seq<u8>>>::empty()
                && !old(self).ids_exhausted()) ==> (r is Ok && final(self).mem()
                == Map::<Seq<u8>, Option<Seq<u8>>>::empty() && final(self).wal_bytes()
                == Seq::<u8>::empty() && final(self).tables().len() >= 1),
            (old(self).mem() != Map::<Seq<u8>, Option<Seq<u8>>>::empty()
                && !old(self).ids_exhausted() && old(self).tables().len() + 1 < 4) ==> (final(
                self).tables().len()
                == old(self).tables().len() + 1 && final(self).tables()[0].kv() == old(self).mem()
                && final(self).tables().skip(1) == old(self).tables()),
    {
        if self.memtable.approximate_size() == 0 {
            proof {
                lemma_mem_empty(self.memtable);
            }
            return Ok(());
        }
        proof {
            if self.memtable@ == Map::<Seq<u8>, Option<Seq<u8>>>::empty() {
                lemma_mem_size_zero(self.memtable);
            }
        }
        if self.next_id == u64::MAX {
            return Err(Error::Io);
        }
        let id = self.next_id;
        self.next_id = id + 1;
        let builder = SSTableBuilder::new(16);
        proof {
            lemma_mem_recs_wf(self.memtable);
        }
        let (bytes, _meta) = builder.build(&self.memtable);
        let table = match SSTable::open(id, bytes) {
            Ok(t) => t,
            Err(_) => {
                proof {
                    assert(false);
                }
                return Err(Error::Io);
            },
        };
        let ghost old_mem = self.memtable@;
        let ghost old_tk = tables_kv(old(self).tables());
        self.sstables.insert(0, table);
        self.memtable.clear();
        self.wal.truncate();
        proof {
            assert(self.sstables@[0].kv() == old_mem);
            assert(self.full_map() == old(self).full_map()) by {
                let tk2 = tables_kv(self.tables());
                assert(tk2 =~= seq![old_mem] + old_tk) by {
                    assert forall|j: int| 0 <= j < tk2.len() implies tk2[j] == (seq![old_mem]
                        + old_tk)[j] by {
                        assert(tk2[j] == self.sstables@[j].kv());
                        if j > 0 {
                            assert(self.sstables@[j] == old(self).sstables@[j - 1]);
                            assert(old_tk[j - 1] == old(self).sstables@[j - 1].kv());
                        }
                    }
                }
                lemma_layered_cons_empty(tk2);
                assert(seq![self.mem()] + tk2 =~= seq![Map::<Seq<u8>, Option<Seq<u8>>>::empty()]
                    + tk2);
                assert(layered(seq![old_mem] + old_tk) == old(self).full_map());
            }
            assert(parse_log(Seq::<u8>::empty()) == Some(Seq::<OpModel>::empty()));
        }
        self.check_compaction();
        Ok(())
    }

    /// Inserts or updates a key. The record goes to the redo log first, then
    /// to the memtable; a full memtable is flushed. An oversized key or value
    /// is rejected; otherwise the observable mapping gains the binding, and
    /// the call succeeds whenever the identifier space is not exhausted.
    #[verifier::rlimit(100)]
    #[verifier::spinoff_prover]
    pub fn put(&mut self, key: Vec<u8>, value: Vec<u8>) -> (r: Result<(), Error>)
        requires
            old(self).wf(),
            key@.len() >= 1,
        ensures
            final(self).wf(),
            final(self).threshold_spec() == old(self).threshold_spec(),
            key@.len() > u32::MAX || value@.len() >= u32::MAX ==> r == Err::<(), Error>(
                Error::InvalidArgument,
            ) && *final(self) == *old(self),
            key@.len() <= u32::MAX && value@.len() < u32::MAX ==> {
                &&& final(self).full_map() == old(self).full_map().insert(key@, Some(value@))
                &&& final(self).kv() == old(self).kv().insert(key@, value@)
                &&& (r is Ok || r == Err::<(), Error>(Error::Io))
                &&& !old(self).ids_exhausted() ==> r is Ok
                &&& (!old(self).ids_exhausted() && size_after_put(
                    old(self).mem(),
                    old(self).mem_size(),
                    key@,
                    value@,
                ) < old(self).threshold_spec()) ==> (final(self).mem() == old(self).mem().insert(
                    key@,
                    Some(value@),
                ) && final(self).mem_size() == size_after_put(
                    old(self).mem(),
                    old(self).mem_size(),
                    key@,
                    value@,
                ) && final(self).tables() == old(self).tables() && final(self).ids_exhausted()
                    == old(self).ids_exhausted() && final(self).wal_bytes() == old(
                    self).wal_bytes() + encode_op(OpModel::Put { key: key@, value: value@ }))
                &&& (!old(self).ids_exhausted() && size_after_put(
                    old(self).mem(),
                    old(self).mem_size(),
                    key@,
                    value@,
                ) >= old(self).threshold_spec()) ==> (final(self).mem() == Map::<
                    Seq<u8>,
                    Option<Seq<u8>>,
                >::empty() && final(self).wal_bytes() == Seq::<u8>::empty() && final(
                    self).tables().len() >= 1 && (old(self).tables().len() + 1 < 4 ==> final(
                    self).tables().len() == old(self).tables().len() + 1 && final(
                    self).tables()[0].kv() == old(self).mem().insert(key@, Some(value@)) && final(
                    self).tables().skip(1) == old(self).tables()))
            },
    {
        if key.len() > 0xFFFFFFFFusize || value.len() >= 0xFFFFFFFFusize {
            return Err(Error::InvalidArgument);
        }
        self.log_put(key, value);
        if self.memtable.is_full() {
            proof {
                if self.mem() == Map::<Seq<u8>, Option<Seq<u8>>>::empty() {
                    assert(self.mem().contains_key(key@));
                }
            }
            let fr = self.flush();
            match fr {
                Ok(()) => {},
                Err(e) => {
                    return Err(e);
                },
            }
        }
        Ok(())
    }

    /// Appends a put record to the log, then applies it to the memtable: the
    /// write's linearisation point.
    #[verifier::rlimit(100)]
    #[verifier::spinoff_prover]
    fn log_put(&mut self, key: Vec<u8>, value: Vec<u8>)
        requires
            old(self).wf(),
            1 <= key@.len() <= u32::MAX,
            value@.len() < u32::MAX,
        ensures
            final(self).wf(),
            final(self).threshold_spec() == old(self).threshold_spec(),
            final(self).ids_exhausted() == old(self).ids_exhausted(),
            final(self).tables() == old(self).tables(),
            final(self).mem() == old(self).mem().insert(key@, Some(value@)),
            final(self).mem_size() == size_after_put(
                old(self).mem(),
                old(self).mem_size(),
                key@,
                value@,
            ),
            final(self).wal_bytes() == old(self).wal_bytes() + encode_op(
                OpModel::Put { key: key@, value: value@ },
            ),
            final(self).full_map() == old(self).full_map().insert(key@, Some(value@)),
            final(self).kv() == old(self).kv().insert(key@, value@),
    {
        let ghost old_mem = self.memtable@;
        let ghost ops0 = parse_log(self.wal.bytes_spec())->Some_0;
        proof {
            lemma_parse_exact(self.wal.bytes_spec());
        }
        let entry = WalEntry::Put { key, value };
        self.wal.append(&entry);
        let _wal_len = self.wal.bytes().len();
        proof {
            lemma_encode_log_push(ops0, entry@);
            lemma_ops_wf_push(ops0, entry@);
            crate::wal::lemma_wal_roundtrip(ops0.push(entry@));
            assert(ops0.push(entry@).drop_last() =~= ops0);
        }
        match entry {
            WalEntry::Put { key: k2, value: v2 } => {
                proof {
                    assert(encode_op(OpModel::Put { key: k2@, value: v2@ }).len() == 9 + k2@.len()
                        + v2@.len());
                }
                self.memtable.put(k2, v2);
            },
            WalEntry::Delete { .. } => {
                proof {
                    assert(false);
                }
            },
        }
        proof {
            lemma_layered_insert(old_mem, tables_kv(self.tables()), key@, Some(value@));
            lemma_resolve_insert(old(self).full_map(), key@, value@);
        }
    }

    /// Marks a key as deleted. The tombstone goes to the redo log and the
    /// memtable whether or not the key is present: it may live in older
    /// tables. An oversized key is rejected; otherwise the key leaves the
    /// observable mapping.
    #[verifier::rlimit(100)]
    #[verifier::spinoff_prover]
    pub fn delete(&mut self, key: Vec<u8>) -> (r: Result<(), Error>)
        requires
            old(self).wf(),
            key@.len() >= 1,
        ensures
            final(self).wf(),
            final(self).threshold_spec() == old(self).threshold_spec(),
            key@.len() > u32::MAX ==> r == Err::<(), Error>(Error::InvalidArgument) && *final(self)
                == *old(self),
            key@.len() <= u32::MAX ==> {
                &&& final(self).full_map() == old(self).full_map().insert(key@, None)
                &&& final(self).kv() == old(self).kv().remove(key@)
                &&& (r is Ok || r == Err::<(), Error>(Error::Io))
                &&& !old(self).ids_exhausted() ==> r is Ok
                &&& (!old(self).ids_exhausted() && size_after_delete(
                    old(self).mem(),
                    old(self).mem_size(),
                    key@,
                ) < old(self).threshold_spec()) ==> (final(self).mem() == old(self).mem().insert(
                    key@,
                    None,
                ) && final(self).mem_size() == size_after_delete(
                    old(self).mem(),
                    old(self).mem_size(),
                    key@,
                ) && final(self).tables() == old(self).tables() && final(self).ids_exhausted()
                    == old(self).ids_exhausted() && final(self).wal_bytes() == old(
                    self).wal_bytes() + encode_op(OpModel::Delete { key: key@ }))
                &&& (!old(self).ids_exhausted() && size_after_delete(
                    old(self).mem(),
                    old(self).mem_size(),
                    key@,
                ) >= old(self).threshold_spec()) ==> (final(self).mem() == Map::<
                    Seq<u8>,
                    Option<Seq<u8>>,
                >::empty() && final(self).wal_bytes() == Seq::<u8>::empty() && final(
                    self).tables().len() >= 1 && (old(self).tables().len() + 1 < 4 ==> final(
                    self).tables().len() == old(self).tables().len() + 1 && final(
                    self).tables()[0].kv() == old(self).mem().insert(key@, None) && final(
                    self).tables().skip(1) == old(self).tables()))
            },
    {
        if key.len() > 0xFFFFFFFFusize {
            return Err(Error::InvalidArgument);
        }
        self.log_delete(key);
        if self.memtable.is_full() {
            proof {
                if self.mem() == Map::<Seq<u8>, Option<Seq<u8>>>::empty() {
                    assert(self.mem().contains_key(key@));
                }
            }
            let fr = self.flush();
            match fr {
                Ok(()) => {},
                Err(e) => {
                    return Err(e);
                },
            }
        }
        Ok(())
    }

    /// Appends a delete record to the log, then records the tombstone in the
    /// memtable: the write's linearisation point.
    #[verifier::rlimit(100)]
    #[verifier::spinoff_prover]
    fn log_delete(&mut self, key: Vec<u8>)
        requires
            old(self).wf(),
            1 <= key@.len() <= u32::MAX,
        ensures
            final(self).wf(),
            final(self).threshold_spec() == old(self).threshold_spec(),
            final(self).ids_exhausted() == old(self).ids_exhausted(),
            final(self).tables() == old(self).tables(),
            final(self).mem() == old(self).mem().insert(key@, None),
            final(self).mem_size() == size_after_delete(
                old(self).mem(),
                old(self).mem_size(),
                key@,
            ),
            final(self).wal_bytes() == old(self).wal_bytes() + encode_op(
                OpModel::Delete { key: key@ },
            ),
            final(self).full_map() == old(self).full_map().insert(key@, None),
            final(self).kv() == old(self).kv().remove(key@),
    {
        let ghost old_mem = self.memtable@;
        let ghost ops0 = parse_log(self.wal.bytes_spec())->Some_0;
        proof {
            lemma_parse_exact(self.wal.bytes_spec());
        }
        let entry = WalEntry::Delete { key };
        self.wal.append(&entry);
        let _wal_len = self.wal.bytes().len();
        proof {
            lemma_encode_log_push(ops0, entry@);
            lemma_ops_wf_push(ops0, entry@);
            crate::wal::lemma_wal_roundtrip(ops0.push(entry@));
            assert(ops0.push(entry@).drop_last() =~= ops0);
        }
        match entry {
            WalEntry::Delete { key: k2 } => {
                proof {
                    assert(encode_op(OpModel::Delete { key: k2@ }).len() == 5 + k2@.len());
                }
                self.memtable.delete(k2);
            },
            WalEntry::Put { .. } => {
                proof {
                    assert(false);
                }
            },
        }
        proof {
            lemma_layered_insert(old_mem, tables_kv(self.tables()), key@, None);
            lemma_resolve_remove(old(self).full_map(), key@);
        }
    }

    /// Looks a key up: the memtable first, then the tables newest first. The
    /// newest record decides — a tombstone anywhere cuts the search short
    /// with "not found", and no older table's value may surface.
    pub fn get(&self, key: &[u8]) -> (r: Result<Option<Vec<u8>>, Error>)
        requires
            self.wf(),
        ensures
            match r {
                Ok(Some(v)) => self.kv().contains_key(key@) && self.kv()[key@] == v@,
                Ok(None) => !self.kv().contains_key(key@),
                Err(_) => false,
            },
    {
        let ghost ms = seq![self.mem()] + tables_kv(self.tables());
        proof {
            assert(ms[0] == self.mem());
        }
        match self.memtable.get(key) {
            Some(e) => {
                proof {
                    lemma_layered_first(ms, 0, key@);
                }
                match e {
                    Entry::Value(v) => {
                        let out = crate::bytes::clone_bytes(v);
                        return Ok(Some(out));
                    },
                    Entry::Tombstone => {
                        return Ok(None);
                    },
                }
            },
            None => {},
        }
        let mut t: usize = 0;
        while t < self.sstables.len()
            invariant
                0 <= t <= self.sstables@.len(),
                self.wf(),
                ms == seq![self.mem()] + tables_kv(self.tables()),
                ms.len() == 1 + self.sstables@.len(),
                !self.mem().contains_key(key@),
                forall|q: int| 0 <= q < t ==> !(#[trigger] self.sstables@[q]).kv().contains_key(
                    key@,
                ),
            decreases self.sstables@.len() - t,
        {
            match self.sstables[t].get_entry(key) {
                Some(e) => {
                    proof {
                        assert(ms[t + 1] == self.sstables@[t as int].kv());
                        assert forall|q: int| 0 <= q < t + 1 implies !(
                        #[trigger] ms[q]).contains_key(key@) by {
                            if q > 0 {
                                assert(ms[q] == self.sstables@[q - 1].kv());
                            }
                        }
                        lemma_layered_first(ms, t + 1, key@);
                    }
                    match e {
                        Entry::Value(v) => {
                            return Ok(Some(v));
                        },
                        Entry::Tombstone => {
                            return Ok(None);
                        },
                    }
                },
                None => {},
            }
            t = t + 1;
        }
        proof {
            lemma_layered_dom(ms, key@);
            if self.full_map().contains_key(key@) {
                let q = choose|q: int| 0 <= q < ms.len() && (#[trigger] ms[q]).contains_key(key@);
                if q > 0 {
                    assert(ms[q] == self.sstables@[q - 1].kv());
                }
                assert(false);
            }
        }
        Ok(None)
    }

    /// Merges all live tables into one: the administrative compaction. The
    /// observable mapping is untouched; the call fails only when the
    /// identifier space is exhausted while tables remain.
    pub fn compact(&mut self) -> (r: Result<(), Error>)
        requires
            old(self).wf(),
        ensures
            final(self).wf(),
            final(self).threshold_spec() == old(self).threshold_spec(),
            final(self).full_map() == old(self).full_map(),
            final(self).kv() == old(self).kv(),
            old(self).tables().len() == 0 ==> r is Ok && *final(self) == *old(self),
            old(self).tables().len() > 0 && old(self).ids_exhausted() ==> r == Err::<(), Error>(
                Error::Io,
            ) && *final(self) == *old(self),
            (old(self).tables().len() > 0 && !old(self).ids_exhausted()) ==> (r is Ok
                && final(self).tables().len() == 1),
    {
        if self.sstables.len() == 0 {
            return Ok(());
        }
        if self.next_id == u64::MAX {
            return Err(Error::Io);
        }
        self.compact_all();
        Ok(())
    }
}

/// Appending a well-formed operation keeps the whole log well-formed.
proof fn lemma_ops_wf_push(ops: Seq<OpModel>, op: OpModel)
    requires
        forall|i: int| 0 <= i < ops.len() ==> op_wf(#[trigger] ops[i]),
        op_wf(op),
    ensures
        forall|i: int| 0 <= i < ops.push(op).len() ==> op_wf(#[trigger] ops.push(op)[i]),
{
    assert forall|i: int| 0 <= i < ops.push(op).len() implies op_wf(#[trigger] ops.push(op)[i]) by {
        if i < ops.len() {
            assert(ops.push(op)[i] == ops[i]);
        }
    }
}

/// A non-empty memtable content has a positive size account.
proof fn lemma_mem_size_zero(m: MemTable)
    requires
        m.wf(),
        m@ == Map::<Seq<u8>, Option<Seq<u8>>>::empty(),
    ensures
        m.size_spec() == 0,
{
    m.lemma_wf_sorted();
    if m.kv_seq().len() > 0 {
        crate::kv::lemma_seq_to_map_contains(m.kv_seq(), 0);
    }
    assert(m.kv_seq() =~= Seq::<Rec>::empty());
}

} // verus!
