//! The memory-resident ordered buffer: a mapping from byte keys to value
//! records, kept sorted by key, with an exact byte-size account that the
//! engine compares against its flush threshold.

use vstd::prelude::*;

use crate::bytes::{bytes_eq, key_lt, lemma_lex_irrefl, lemma_lex_trans, lex_lt};
use crate::kv::{
    entry_size, keys_sorted, lemma_seq_to_map_absent, lemma_seq_to_map_index,
    lemma_sorted_distinct, lemma_sorted_insert, lemma_sorted_update, seq_size, seq_to_map, Rec,
};

verus! {

/// A record held for a key: a concrete value, or a tombstone marking the key
/// as deleted (the key may still exist in older sorted tables, so the marker
/// itself must be kept).
#[derive(Debug, Clone)]
pub enum Entry {
    /// A concrete byte-string value.
    Value(Vec<u8>),
    /// A deletion marker carrying no payload.
    Tombstone,
}

impl View for Entry {
    type V = Option<Seq<u8>>;

    open spec fn view(&self) -> Option<Seq<u8>> {
        match self {
            Entry::Value(v) => Some(v@),
            Entry::Tombstone => None,
        }
    }
}

impl PartialEq for Entry {
    fn eq(&self, other: &Entry) -> (r: bool) {
        match (self, other) {
            (Entry::Value(a), Entry::Value(b)) => bytes_eq(a.as_slice(), b.as_slice()),
            (Entry::Tombstone, Entry::Tombstone) => true,
            _ => false,
        }
    }
}

impl vstd::std_specs::cmp::PartialEqSpecImpl for Entry {
    open spec fn obeys_eq_spec() -> bool {
        true
    }

    open spec fn eq_spec(&self, other: &Entry) -> bool {
        self@ == other@
    }
}

/// The model of a slice of stored pairs: keys and entries as mathematical
/// sequences.
pub open spec fn pairs_view(s: Seq<(Vec<u8>, Entry)>) -> Seq<Rec> {
    s.map_values(|p: (Vec<u8>, Entry)| (p.0@, p.1@))
}

/// An in-memory ordered map from keys to value records.
///
/// Keys are kept strictly ascending in the lexicographic order, and
/// `approximate_size` equals the sum of all key lengths plus all live value
/// lengths, the account the engine uses to decide when to flush.
pub struct MemTable {
    entries: Vec<(Vec<u8>, Entry)>,
    approximate_size: usize,
    max_size: usize,
}

impl View for MemTable {
    type V = Map<Seq<u8>, Option<Seq<u8>>>;

    open spec fn view(&self) -> Map<Seq<u8>, Option<Seq<u8>>> {
        seq_to_map(self.kv_seq())
    }
}

impl MemTable {
    /// The stored records, sorted by key.
    pub closed spec fn kv_seq(self) -> Seq<Rec> {
        pairs_view(self.entries@)
    }

    /// The configured flush threshold.
    pub closed spec fn threshold(self) -> nat {
        self.max_size as nat
    }

    /// The byte-size account as a mathematical value.
    pub open spec fn size_spec(self) -> nat {
        seq_size(self.kv_seq())
    }

    /// Well-formed: sorted keys and an exact size account.
    pub closed spec fn wf(self) -> bool {
        &&& keys_sorted(self.kv_seq())
        &&& self.approximate_size as nat == seq_size(self.kv_seq())
    }

    /// The stored records are sorted; public face of the representation
    /// invariant.
    pub proof fn lemma_wf_sorted(self)
        requires
            self.wf(),
        ensures
            keys_sorted(self.kv_seq()),
            self@ == seq_to_map(self.kv_seq()),
    {
    }

    /// Creates an empty memtable with the given size threshold in bytes.
    pub fn new(max_size: usize) -> (r: MemTable)
        ensures
            r.wf(),
            r@ == Map::<Seq<u8>, Option<Seq<u8>>>::empty(),
            r.kv_seq() == Seq::<Rec>::empty(),
            r.size_spec() == 0,
            r.threshold() == max_size as nat,
    {
        let r = MemTable { entries: Vec::new(), approximate_size: 0, max_size };
        proof {
            assert(r.kv_seq() =~= Seq::<Rec>::empty());
        }
        r
    }

    /// The least position whose key is not below `key`; all earlier keys are
    /// strictly below it.
    fn lower_bound(&self, key: &[u8]) -> (i: usize)
        requires
            self.wf(),
        ensures
            0 <= i <= self.kv_seq().len(),
            forall|j: int| 0 <= j < i ==> lex_lt(#[trigger] self.kv_seq()[j].0, key@),
            forall|j: int| i <= j < self.kv_seq().len() ==> !lex_lt(
                #[trigger] self.kv_seq()[j].0,
                key@,
            ),
    {
        let ghost s = self.kv_seq();
        let mut lo: usize = 0;
        let mut hi: usize = self.entries.len();
        while lo < hi
            invariant
                0 <= lo <= hi <= s.len(),
                s == self.kv_seq(),
                self.wf(),
                s.len() == self.entries@.len(),
                forall|j: int| 0 <= j < lo ==> lex_lt(#[trigger] s[j].0, key@),
                forall|j: int| hi <= j < s.len() ==> !lex_lt(#[trigger] s[j].0, key@),
            decreases hi - lo,
        {
            let mid = lo + (hi - lo) / 2;
            assert(s[mid as int].0 == self.entries@[mid as int].0@);
            if key_lt(self.entries[mid].0.as_slice(), key) {
                proof {
                    assert forall|j: int| 0 <= j < mid + 1 implies lex_lt(
                        #[trigger] s[j].0,
                        key@,
                    ) by {
                        if j < mid {
                            lemma_lex_trans(s[j].0, s[mid as int].0, key@);
                        }
                    }
                }
                lo = mid + 1;
            } else {
                proof {
                    assert forall|j: int| mid <= j < s.len() implies !lex_lt(
                        #[trigger] s[j].0,
                        key@,
                    ) by {
                        if j > mid && lex_lt(s[j].0, key@) {
                            lemma_lex_trans(s[mid as int].0, s[j].0, key@);
                        }
                    }
                }
                hi = mid;
            }
        }
        lo
    }

    /// Inserts or replaces the record for `key` with the value.
    ///
    /// The size account moves by the whole pair size for a fresh key, by the
    /// difference of the value lengths when a value is replaced, and by the
    /// new value length when a tombstone is replaced.
    pub fn put(&mut self, key: Vec<u8>, value: Vec<u8>)
        requires
            old(self).wf(),
            old(self).size_spec() + key@.len() + value@.len() <= usize::MAX,
        ensures
            final(self).wf(),
            final(self)@ == old(self)@.insert(key@, Some(value@)),
            final(self).threshold() == old(self).threshold(),
            final(self).size_spec() as int == if !old(self)@.contains_key(key@) {
                old(self).size_spec() + key@.len() + value@.len() as int
            } else if old(self)@[key@] is Some {
                old(self).size_spec() - old(self)@[key@]->Some_0.len() + value@.len()
            } else {
                old(self).size_spec() + value@.len() as int
            },
    {
        let ghost s = self.kv_seq();
        proof {
            lemma_sorted_distinct(s);
        }
        let i = self.lower_bound(key.as_slice());
        if i < self.entries.len() && bytes_eq(self.entries[i].0.as_slice(), key.as_slice()) {
            proof {
                lemma_seq_to_map_index(s, i as int);
                lemma_seq_size_part(s, i as int);
            }
            match &self.entries[i].1 {
                Entry::Value(v) => {
                    let vl = v.len();
                    self.approximate_size = self.approximate_size - vl + value.len();
                },
                Entry::Tombstone => {
                    self.approximate_size = self.approximate_size + value.len();
                },
            }
            let ghost r: Rec = (key@, Some(value@));
            self.entries[i] = (key, Entry::Value(value));
            proof {
                assert(self.kv_seq() =~= s.update(i as int, r));
                lemma_sorted_update(s, i as int, r);
            }
        } else {
            proof {
                assert forall|j: int| i <= j < s.len() implies lex_lt(
                    key@,
                    (#[trigger] s[j]).0,
                ) by {
                    lemma_key_above(s, i as int, j, key@);
                }
                if old(self)@.contains_key(key@) {
                    crate::kv::lemma_seq_to_map_domain(s, key@);
                    let w = choose|w: int| 0 <= w < s.len() && (#[trigger] s[w]).0 == key@;
                    lemma_lex_irrefl(key@);
                }
            }
            self.approximate_size = self.approximate_size + key.len() + value.len();
            let ghost r: Rec = (key@, Some(value@));
            self.entries.insert(i, (key, Entry::Value(value)));
            proof {
                assert(self.kv_seq() =~= s.insert(i as int, r));
                lemma_sorted_insert(s, i as int, r);
            }
        }
    }

    /// Looks the key up; `None` means the memtable holds no record for it at
    /// all (older sorted tables may still).
    pub fn get(&self, key: &[u8]) -> (r: Option<&Entry>)
        requires
            self.wf(),
        ensures
            match r {
                Some(e) => self@.contains_key(key@) && e@ == self@[key@],
                None => !self@.contains_key(key@),
            },
    {
        let ghost s = self.kv_seq();
        let i = self.lower_bound(key);
        if i < self.entries.len() && bytes_eq(self.entries[i].0.as_slice(), key) {
            proof {
                lemma_sorted_distinct(s);
                lemma_seq_to_map_index(s, i as int);
            }
            Some(&self.entries[i].1)
        } else {
            proof {
                assert forall|j: int| 0 <= j < s.len() implies (#[trigger] s[j]).0 != key@ by {
                    if j < i {
                        if s[j].0 == key@ {
                            lemma_lex_irrefl(key@);
                        }
                    } else if j > i {
                        lemma_key_above(s, i as int, j, key@);
                        lemma_lex_irrefl(key@);
                    }
                }
                lemma_seq_to_map_absent(s, key@);
            }
            None
        }
    }

    /// Records a tombstone for the key, whether or not a record exists; the
    /// key may live in older sorted tables, so the marker is always kept.
    pub fn delete(&mut self, key: Vec<u8>)
        requires
            old(self).wf(),
            old(self).size_spec() + key@.len() <= usize::MAX,
        ensures
            final(self).wf(),
            final(self)@ == old(self)@.insert(key@, None),
            final(self).threshold() == old(self).threshold(),
            final(self).size_spec() as int == if !old(self)@.contains_key(key@) {
                old(self).size_spec() + key@.len() as int
            } else if old(self)@[key@] is Some {
                old(self).size_spec() - old(self)@[key@]->Some_0.len()
            } else {
                old(self).size_spec() as int
            },
    {
        let ghost s = self.kv_seq();
        proof {
            lemma_sorted_distinct(s);
        }
        let i = self.lower_bound(key.as_slice());
        if i < self.entries.len() && bytes_eq(self.entries[i].0.as_slice(), key.as_slice()) {
            proof {
                lemma_seq_to_map_index(s, i as int);
                lemma_seq_size_part(s, i as int);
            }
            match &self.entries[i].1 {
                Entry::Value(v) => {
                    let vl = v.len();
                    self.approximate_size = self.approximate_size - vl;
                },
                Entry::Tombstone => {},
            }
            let ghost r: Rec = (key@, None);
            self.entries[i] = (key, Entry::Tombstone);
            proof {
                assert(self.kv_seq() =~= s.update(i as int, r));
                lemma_sorted_update(s, i as int, r);
            }
        } else {
            proof {
                assert forall|j: int| i <= j < s.len() implies lex_lt(
                    key@,
                    (#[trigger] s[j]).0,
                ) by {
                    lemma_key_above(s, i as int, j, key@);
                }
                if old(self)@.contains_key(key@) {
                    crate::kv::lemma_seq_to_map_domain(s, key@);
                    let w = choose|w: int| 0 <= w < s.len() && (#[trigger] s[w]).0 == key@;
                    lemma_lex_irrefl(key@);
                }
            }
            self.approximate_size = self.approximate_size + key.len();
            let ghost r: Rec = (key@, None);
            self.entries.insert(i, (key, Entry::Tombstone));
            proof {
                assert(self.kv_seq() =~= s.insert(i as int, r));
                lemma_sorted_insert(s, i as int, r);
            }
        }
    }

    /// True when the size account has reached the configured threshold.
    pub fn is_full(&self) -> (r: bool)
        requires
            self.wf(),
        ensures
            r == (self.size_spec() >= self.threshold()),
    {
        self.approximate_size >= self.max_size
    }

    /// The stored pairs in ascending key order; used by the flush path.
    pub fn iter(&self) -> (r: &Vec<(Vec<u8>, Entry)>)
        ensures
            pairs_view(r@) == self.kv_seq(),
    {
        &self.entries
    }

    /// The byte-size account: every key once plus every live value.
    pub fn approximate_size(&self) -> (r: usize)
        requires
            self.wf(),
        ensures
            r as nat == self.size_spec(),
    {
        self.approximate_size
    }

    /// Empties the table and resets the size account.
    pub fn clear(&mut self)
        ensures
            final(self).wf(),
            final(self)@ == Map::<Seq<u8>, Option<Seq<u8>>>::empty(),
            final(self).kv_seq() == Seq::<Rec>::empty(),
            final(self).size_spec() == 0,
            final(self).threshold() == old(self).threshold(),
    {
        self.entries.clear();
        self.approximate_size = 0;
        proof {
            assert(self.kv_seq() =~= Seq::<Rec>::empty());
        }
    }
}

/// Every record at or past the lower bound of `k`, other than an exact match
/// at the bound itself, has a key strictly above `k`.
proof fn lemma_key_above(s: Seq<Rec>, i: int, j: int, k: Seq<u8>)
    requires
        keys_sorted(s),
        0 <= i <= s.len(),
        i <= j < s.len(),
        forall|p: int| i <= p < s.len() ==> !lex_lt((#[trigger] s[p]).0, k),
        i < s.len() ==> s[i].0 != k,
    ensures
        lex_lt(k, s[j].0),
{
    crate::bytes::lemma_lex_connex(k, s[j].0);
    if j > i {
        if s[j].0 == k {
            assert(lex_lt(s[i].0, s[j].0));
        }
    }
}

/// The size of a sorted sequence covers each of its records.
proof fn lemma_seq_size_part(s: Seq<Rec>, i: int)
    requires
        0 <= i < s.len(),
    ensures
        seq_size(s) >= entry_size(s[i]),
    decreases s.len(),
{
    if i < s.len() - 1 {
        assert(s.drop_last()[i] == s[i]);
        lemma_seq_size_part(s.drop_last(), i);
    }
}

} // verus!
