//! The mathematical model shared by the memtable, the sorted tables and the
//! engine: a record is a key paired with either a value or a tombstone, an
//! ordered structure is a sequence of records sorted strictly by key, and its
//! meaning is the finite map from keys to records.

use vstd::prelude::*;

use crate::bytes::{lemma_lex_asym, lemma_lex_connex, lemma_lex_irrefl, lex_lt};

verus! {

/// One record: a key together with its entry. `Some(v)` is a concrete value,
/// `None` a tombstone (deletion marker).
pub type Rec = (Seq<u8>, Option<Seq<u8>>);

/// The keys of `s` are strictly ascending in the lexicographic order.
pub open spec fn keys_sorted(s: Seq<Rec>) -> bool {
    forall|i: int, j: int| #![trigger s[i], s[j]] 0 <= i < j < s.len() ==> lex_lt(s[i].0, s[j].0)
}

/// No two records of `s` share a key.
pub open spec fn keys_distinct(s: Seq<Rec>) -> bool {
    forall|i: int, j: int| #![trigger s[i], s[j]] 0 <= i < j < s.len() ==> s[i].0 != s[j].0
}

pub proof fn lemma_sorted_distinct(s: Seq<Rec>)
    requires
        keys_sorted(s),
    ensures
        keys_distinct(s),
{
    assert forall|i: int, j: int| #![trigger s[i], s[j]] 0 <= i < j < s.len() implies s[i].0
        != s[j].0 by {
        lemma_lex_irrefl(s[i].0);
    }
}

/// The map described by a sequence of records; a later record for the same key
/// would win, though sorted sequences never repeat a key.
pub open spec fn seq_to_map(s: Seq<Rec>) -> Map<Seq<u8>, Option<Seq<u8>>>
    decreases s.len(),
{
    if s.len() == 0 {
        Map::empty()
    } else {
        seq_to_map(s.drop_last()).insert(s.last().0, s.last().1)
    }
}

/// The number of live bytes a sequence of records accounts for: every key once,
/// plus every concrete value; tombstones carry no value bytes.
pub open spec fn entry_size(r: Rec) -> nat {
    r.0.len() + match r.1 {
        Some(v) => v.len(),
        None => 0nat,
    }
}

pub open spec fn seq_size(s: Seq<Rec>) -> nat
    decreases s.len(),
{
    if s.len() == 0 {
        0nat
    } else {
        seq_size(s.drop_last()) + entry_size(s.last())
    }
}

pub proof fn lemma_seq_to_map_contains(s: Seq<Rec>, i: int)
    requires
        0 <= i < s.len(),
    ensures
        seq_to_map(s).contains_key(s[i].0),
    decreases s.len(),
{
    if i < s.len() - 1 {
        lemma_seq_to_map_contains(s.drop_last(), i);
    }
}

pub proof fn lemma_seq_to_map_absent(s: Seq<Rec>, k: Seq<u8>)
    requires
        forall|i: int| 0 <= i < s.len() ==> (#[trigger] s[i]).0 != k,
    ensures
        !seq_to_map(s).contains_key(k),
    decreases s.len(),
{
    if s.len() > 0 {
        lemma_seq_to_map_absent(s.drop_last(), k);
    }
}

pub proof fn lemma_seq_to_map_index(s: Seq<Rec>, i: int)
    requires
        keys_distinct(s),
        0 <= i < s.len(),
    ensures
        seq_to_map(s).contains_key(s[i].0),
        seq_to_map(s)[s[i].0] == s[i].1,
    decreases s.len(),
{
    if i == s.len() - 1 {
    } else {
        assert(s[i] == s.drop_last()[i]);
        lemma_seq_to_map_index(s.drop_last(), i);
        assert(s.last().0 != s[i].0);
    }
}

/// The domain of the map is exactly the set of keys of the sequence.
pub proof fn lemma_seq_to_map_domain(s: Seq<Rec>, k: Seq<u8>)
    ensures
        seq_to_map(s).contains_key(k) <==> exists|i: int| 0 <= i < s.len() && (#[trigger] s[i]).0
            == k,
{
    if seq_to_map(s).contains_key(k) {
        if forall|i: int| 0 <= i < s.len() ==> (#[trigger] s[i]).0 != k {
            lemma_seq_to_map_absent(s, k);
        }
    } else {
        if exists|i: int| 0 <= i < s.len() && (#[trigger] s[i]).0 == k {
            let i = choose|i: int| 0 <= i < s.len() && (#[trigger] s[i]).0 == k;
            lemma_seq_to_map_contains(s, i);
        }
    }
}

/// Inserting a record whose key splits the sequence at `i` keeps it sorted and
/// inserts the binding into the map.
pub proof fn lemma_sorted_insert(s: Seq<Rec>, i: int, r: Rec)
    requires
        keys_sorted(s),
        0 <= i <= s.len(),
        forall|j: int| 0 <= j < i ==> lex_lt((#[trigger] s[j]).0, r.0),
        forall|j: int| i <= j < s.len() ==> lex_lt(r.0, (#[trigger] s[j]).0),
    ensures
        keys_sorted(s.insert(i, r)),
        seq_to_map(s.insert(i, r)) == seq_to_map(s).insert(r.0, r.1),
        seq_size(s.insert(i, r)) == seq_size(s) + entry_size(r),
    decreases s.len(),
{
    let t = s.insert(i, r);
    assert forall|p: int, q: int| #![trigger t[p], t[q]] 0 <= p < q < t.len() implies lex_lt(
        t[p].0, t[q].0) by {
        if p < i && q < i {
            assert(t[p] == s[p] && t[q] == s[q]);
        } else if p < i && q == i {
            assert(t[p] == s[p]);
        } else if p < i && q > i {
            assert(t[p] == s[p] && t[q] == s[q - 1]);
            if q - 1 < i {
                crate::bytes::lemma_lex_trans(s[p].0, r.0, s[q - 1].0);
            }
        } else if p == i {
            assert(t[q] == s[q - 1]);
        } else {
            assert(t[p] == s[p - 1] && t[q] == s[q - 1]);
        }
    }
    if i == s.len() {
        assert(t.drop_last() =~= s);
        assert(t.last() == r);
    } else {
        assert(t.drop_last() =~= s.drop_last().insert(i, r));
        assert(t.last() == s.last());
        assert(keys_sorted(s.drop_last())) by {
            assert forall|p: int, q: int| #![trigger s.drop_last()[p], s.drop_last()[q]] 0 <= p < q
                < s.drop_last().len() implies lex_lt(s.drop_last()[p].0, s.drop_last()[q].0) by {
                assert(s.drop_last()[p] == s[p] && s.drop_last()[q] == s[q]);
            }
        }
        lemma_sorted_insert(s.drop_last(), i, r);
        assert(r.0 != s.last().0) by {
            lemma_lex_irrefl(r.0);
        }
        assert(seq_to_map(s.drop_last()).insert(r.0, r.1).insert(s.last().0, s.last().1)
            =~= seq_to_map(s.drop_last()).insert(s.last().0, s.last().1).insert(r.0, r.1));
    }
}

/// Replacing the record at `i` by one with the same key keeps the sequence
/// sorted, overwrites the binding, and changes the size by the difference of
/// the two records.
pub proof fn lemma_sorted_update(s: Seq<Rec>, i: int, r: Rec)
    requires
        keys_sorted(s),
        0 <= i < s.len(),
        s[i].0 == r.0,
    ensures
        keys_sorted(s.update(i, r)),
        seq_to_map(s.update(i, r)) == seq_to_map(s).insert(r.0, r.1),
        seq_size(s.update(i, r)) == seq_size(s) - entry_size(s[i]) + entry_size(r),
    decreases s.len(),
{
    let t = s.update(i, r);
    assert forall|p: int, q: int| #![trigger t[p], t[q]] 0 <= p < q < t.len() implies lex_lt(
        t[p].0, t[q].0) by {
        assert(s[p].0 == t[p].0 && s[q].0 == t[q].0);
    }
    if i == s.len() - 1 {
        assert(t.drop_last() =~= s.drop_last());
        assert(t.last() == r);
    } else {
        assert(t.drop_last() =~= s.drop_last().update(i, r));
        assert(t.last() == s.last());
        assert(keys_sorted(s.drop_last())) by {
            assert forall|p: int, q: int| #![trigger s.drop_last()[p], s.drop_last()[q]] 0 <= p < q
                < s.drop_last().len() implies lex_lt(s.drop_last()[p].0, s.drop_last()[q].0) by {
                assert(s.drop_last()[p] == s[p] && s.drop_last()[q] == s[q]);
            }
        }
        lemma_sorted_update(s.drop_last(), i, r);
        assert(r.0 != s.last().0) by {
            assert(lex_lt(s[i].0, s.last().0));
            lemma_lex_irrefl(s.last().0);
        }
        assert(seq_to_map(s.drop_last()).insert(r.0, r.1).insert(s.last().0, s.last().1)
            =~= seq_to_map(s.drop_last()).insert(s.last().0, s.last().1).insert(r.0, r.1));
        assert(s[i] == s.drop_last()[i]);
    }
}

/// Two sorted sequences describing the same map are the same sequence: the
/// sorted form of a mapping is unique.
pub proof fn lemma_sorted_unique(s1: Seq<Rec>, s2: Seq<Rec>)
    requires
        keys_sorted(s1),
        keys_sorted(s2),
        seq_to_map(s1) == seq_to_map(s2),
    ensures
        s1 == s2,
    decreases s1.len(),
{
    lemma_sorted_distinct(s1);
    lemma_sorted_distinct(s2);
    if s1.len() == 0 {
        if s2.len() > 0 {
            lemma_seq_to_map_contains(s2, 0);
        }
        assert(s1 =~= s2);
    } else if s2.len() == 0 {
        lemma_seq_to_map_contains(s1, 0);
    } else {
        let l1 = s1.last();
        let l2 = s2.last();
        assert(l1.0 == l2.0) by {
            lemma_lex_connex(l1.0, l2.0);
            if lex_lt(l1.0, l2.0) {
                // l2's key would have to appear in s1 before its last record,
                // contradicting sortedness.
                lemma_seq_to_map_contains(s2, s2.len() - 1);
                lemma_seq_to_map_domain(s1, l2.0);
                let i = choose|i: int| 0 <= i < s1.len() && (#[trigger] s1[i]).0 == l2.0;
                if i < s1.len() - 1 {
                    assert(lex_lt(s1[i].0, l1.0));
                    lemma_lex_asym(l1.0, l2.0);
                } else {
                    lemma_lex_irrefl(l1.0);
                }
            } else if lex_lt(l2.0, l1.0) {
                lemma_seq_to_map_contains(s1, s1.len() - 1);
                lemma_seq_to_map_domain(s2, l1.0);
                let i = choose|i: int| 0 <= i < s2.len() && (#[trigger] s2[i]).0 == l1.0;
                if i < s2.len() - 1 {
                    assert(lex_lt(s2[i].0, l2.0));
                    lemma_lex_asym(l2.0, l1.0);
                } else {
                    lemma_lex_irrefl(l2.0);
                }
            }
        }
        lemma_seq_to_map_index(s1, s1.len() - 1);
        lemma_seq_to_map_index(s2, s2.len() - 1);
        assert(l1 == l2);
        assert(keys_sorted(s1.drop_last()) && keys_sorted(s2.drop_last())) by {
            assert(forall|i: int| 0 <= i < s1.len() - 1 ==> s1.drop_last()[i] == s1[i]);
            assert(forall|i: int| 0 <= i < s2.len() - 1 ==> s2.drop_last()[i] == s2[i]);
        }
        let m1 = seq_to_map(s1.drop_last());
        let m2 = seq_to_map(s2.drop_last());
        assert forall|k: Seq<u8>| #[trigger] m1.dom().contains(k) implies m2.dom().contains(k)
            && m1[k] == m2[k] by {
            assert(m1.contains_key(k));
            lemma_droplast_binding(s1, s2, k);
        }
        assert forall|k: Seq<u8>| #[trigger] m2.dom().contains(k) implies m1.dom().contains(k) by {
            assert(m2.contains_key(k));
            lemma_droplast_binding(s2, s1, k);
        }
        assert(m1.dom() =~= m2.dom());
        assert(m1 =~= m2);
        lemma_sorted_unique(s1.drop_last(), s2.drop_last());
        assert(s1.len() == s2.len());
        assert forall|i: int| 0 <= i < s1.len() implies s1[i] == s2[i] by {
            if i < s1.len() - 1 {
                assert(s1[i] == s1.drop_last()[i]);
                assert(s2[i] == s2.drop_last()[i]);
            } else {
                assert(s1[i] == l1 && s2[i] == l2);
            }
        }
        assert(s1 =~= s2);
    }
}

/// Helper for `lemma_sorted_unique`: a binding of `s1.drop_last()` also stands
/// in `s2.drop_last()`, given both are sorted with the same last record and
/// equal maps.
proof fn lemma_droplast_binding(s1: Seq<Rec>, s2: Seq<Rec>, k: Seq<u8>)
    requires
        keys_sorted(s1),
        keys_sorted(s2),
        s1.len() > 0,
        s2.len() > 0,
        s1.last() == s2.last(),
        seq_to_map(s1) == seq_to_map(s2),
        seq_to_map(s1.drop_last()).contains_key(k),
    ensures
        seq_to_map(s2.drop_last()).contains_key(k),
        seq_to_map(s1.drop_last())[k] == seq_to_map(s2.drop_last())[k],
{
    lemma_sorted_distinct(s1);
    lemma_sorted_distinct(s2);
    lemma_seq_to_map_domain(s1.drop_last(), k);
    let i = choose|i: int| 0 <= i < s1.drop_last().len() && (#[trigger] s1.drop_last()[i]).0 == k;
    assert(s1.drop_last()[i] == s1[i]);
    assert(k != s1.last().0);
    lemma_seq_to_map_index(s1, i);
    assert(seq_to_map(s2).contains_key(k));
    lemma_seq_to_map_domain(s2, k);
    let j = choose|j: int| 0 <= j < s2.len() && (#[trigger] s2[j]).0 == k;
    assert(j < s2.len() - 1);
    assert(s2.drop_last()[j] == s2[j]);
    lemma_seq_to_map_index(s2, j);
    assert(keys_distinct(s1.drop_last())) by {
        assert(forall|p: int| 0 <= p < s1.len() - 1 ==> s1.drop_last()[p] == s1[p]);
    }
    assert(keys_distinct(s2.drop_last())) by {
        assert(forall|p: int| 0 <= p < s2.len() - 1 ==> s2.drop_last()[p] == s2[p]);
    }
    lemma_seq_to_map_index(s1.drop_last(), i);
    lemma_seq_to_map_index(s2.drop_last(), j);
}

/// The meaning of a stack of record maps, newest first: the first map that
/// holds a key decides its entry.
pub open spec fn layered(ms: Seq<Map<Seq<u8>, Option<Seq<u8>>>>) -> Map<Seq<u8>, Option<Seq<u8>>>
    decreases ms.len(),
{
    if ms.len() == 0 {
        Map::empty()
    } else {
        layered(ms.skip(1)).union_prefer_right(ms[0])
    }
}

/// The observable mapping: keys whose newest record is a concrete value;
/// tombstoned and unknown keys are absent alike.
pub open spec fn resolve(m: Map<Seq<u8>, Option<Seq<u8>>>) -> Map<Seq<u8>, Seq<u8>> {
    Map::new(
        |k: Seq<u8>| m.contains_key(k) && m[k] is Some,
        |k: Seq<u8>| m[k]->Some_0,
    )
}

} // verus!
