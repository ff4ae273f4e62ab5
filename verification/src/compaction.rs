//! The compactor: merges a list of sorted tables, newest first, into one
//! table that holds, for every key present in any input, the newest record.
//! Overwritten versions are dropped; tombstones are kept, since the output of
//! a partial compaction may still shadow older tables.

use vstd::prelude::*;

use crate::bytes::{copy_range, key_lt, lemma_lex_asym, lemma_lex_connex, lemma_lex_irrefl, lemma_lex_trans,
    lex_lt};
use crate::kv::{keys_sorted, layered, lemma_seq_to_map_absent, lemma_seq_to_map_contains,
    lemma_seq_to_map_domain, lemma_seq_to_map_index, lemma_sorted_distinct, seq_to_map, Rec};
use crate::memtable::{pairs_view, Entry};
use crate::sstable::{rec_wf, recs_wf, table_records, table_wf, SSTable, SSTableBuilder};

verus! {

/// The record maps of a list of tables, newest first.
pub open spec fn tables_kv(ts: Seq<SSTable>) -> Seq<Map<Seq<u8>, Option<Seq<u8>>>> {
    ts.map_values(|t: SSTable| t.kv())
}

/// The record sequences of a list of record lists.
pub open spec fn lists_view(ls: Seq<Seq<Rec>>) -> Seq<Map<Seq<u8>, Option<Seq<u8>>>> {
    ls.map_values(|l: Seq<Rec>| seq_to_map(l))
}

/// The number of records not yet consumed by the merge.
pub open spec fn rem_sum(ls: Seq<Seq<Rec>>, cur: Seq<usize>) -> int
    decreases ls.len(),
{
    if ls.len() == 0 {
        0
    } else {
        (ls[0].len() - cur[0]) + rem_sum(ls.skip(1), cur.skip(1))
    }
}

proof fn lemma_rem_sum_nonneg(ls: Seq<Seq<Rec>>, cur: Seq<usize>)
    requires
        cur.len() == ls.len(),
        forall|t: int| 0 <= t < ls.len() ==> #[trigger] cur[t] <= ls[t].len(),
    ensures
        rem_sum(ls, cur) >= 0,
    decreases ls.len(),
{
    if ls.len() > 0 {
        assert(forall|t: int| 0 <= t < ls.skip(1).len() ==> #[trigger] ls.skip(1)[t] == ls[t + 1]);
        assert(forall|t: int| 0 <= t < cur.skip(1).len() ==> #[trigger] cur.skip(1)[t] == cur[t
            + 1]);
        lemma_rem_sum_nonneg(ls.skip(1), cur.skip(1));
    }
}

proof fn lemma_rem_sum_dec(ls: Seq<Seq<Rec>>, cur: Seq<usize>, t: int)
    requires
        cur.len() == ls.len(),
        0 <= t < ls.len(),
        cur[t] < ls[t].len(),
        cur[t] < usize::MAX,
        forall|q: int| 0 <= q < ls.len() ==> #[trigger] cur[q] <= ls[q].len(),
    ensures
        rem_sum(ls, cur.update(t, (cur[t] + 1) as usize)) == rem_sum(ls, cur) - 1,
    decreases t,
{
    let cur2 = cur.update(t, (cur[t] + 1) as usize);
    if t == 0 {
        assert(cur2.skip(1) =~= cur.skip(1));
        assert(cur2[0] == cur[0] + 1);
    } else {
        assert(cur2[0] == cur[0]);
        assert(cur2.skip(1) =~= cur.skip(1).update(t - 1, (cur[t] + 1) as usize));
        assert(forall|q: int| 0 <= q < ls.skip(1).len() ==> #[trigger] ls.skip(1)[q] == ls[q + 1]);
        assert(forall|q: int| 0 <= q < cur.skip(1).len() ==> #[trigger] cur.skip(1)[q] == cur[q
            + 1]);
        lemma_rem_sum_dec(ls.skip(1), cur.skip(1), t - 1);
    }
}

/// A key held by no map above `t` and by map `t` itself gets its layered
/// binding from map `t`.
pub proof fn lemma_layered_first(ms: Seq<Map<Seq<u8>, Option<Seq<u8>>>>, t: int, k: Seq<u8>)
    requires
        0 <= t < ms.len(),
        forall|q: int| 0 <= q < t ==> !(#[trigger] ms[q]).contains_key(k),
        ms[t].contains_key(k),
    ensures
        layered(ms).contains_key(k),
        layered(ms)[k] == ms[t][k],
    decreases t,
{
    assert(forall|q: int| 0 <= q < ms.skip(1).len() ==> #[trigger] ms.skip(1)[q] == ms[q + 1]);
    if t == 0 {
    } else {
        lemma_layered_first(ms.skip(1), t - 1, k);
        assert(!ms[0].contains_key(k));
    }
}

/// A key of the layered map is a key of one of its layers, and conversely.
pub proof fn lemma_layered_dom(ms: Seq<Map<Seq<u8>, Option<Seq<u8>>>>, k: Seq<u8>)
    ensures
        layered(ms).contains_key(k) <==> exists|t: int| 0 <= t < ms.len() && (
        #[trigger] ms[t]).contains_key(k),
    decreases ms.len(),
{
    if ms.len() > 0 {
        lemma_layered_dom(ms.skip(1), k);
        assert(forall|q: int| 0 <= q < ms.skip(1).len() ==> #[trigger] ms.skip(1)[q] == ms[q + 1]);
        if layered(ms).contains_key(k) {
            if ms[0].contains_key(k) {
            } else {
                let t = choose|t: int|
                    0 <= t < ms.skip(1).len() && (#[trigger] ms.skip(1)[t]).contains_key(k);
                assert(ms[t + 1].contains_key(k));
            }
        } else {
            if exists|t: int| 0 <= t < ms.len() && (#[trigger] ms[t]).contains_key(k) {
                let t = choose|t: int| 0 <= t < ms.len() && (#[trigger] ms[t]).contains_key(k);
                if t > 0 {
                    assert(ms.skip(1)[t - 1].contains_key(k));
                }
                assert(false);
            }
        }
    }
}

/// The head of list `b` is at or below the head of list `q`, with ties going
/// to the lower position.
pub open spec fn head_le(ls: Seq<Seq<Rec>>, cur: Seq<usize>, b: int, q: int) -> bool {
    lex_lt(ls[b][cur[b] as int].0, ls[q][cur[q] as int].0) || (ls[b][cur[b] as int].0 == ls[q][
        cur[q] as int].0 && b < q)
}

/// The merge's running state: `out` is sorted, agrees with the layered input
/// wherever it holds a key, covers the key of every consumed record, and no
/// unconsumed record lies below the last emitted key.
pub open spec fn merge_inv(
    ls: Seq<Seq<Rec>>,
    cur: Seq<usize>,
    out: Seq<Rec>,
) -> bool {
    &&& cur.len() == ls.len()
    &&& forall|t: int| 0 <= t < ls.len() ==> #[trigger] cur[t] <= ls[t].len()
    &&& keys_sorted(out)
    &&& recs_wf(out)
    &&& forall|k: Seq<u8>| #[trigger] seq_to_map(out).contains_key(k) ==> layered(
        lists_view(ls),
    ).contains_key(k) && seq_to_map(out)[k] == layered(lists_view(ls))[k]
    &&& forall|t: int, q: int| #![trigger ls[t][q]] 0 <= t < ls.len() && 0 <= q < cur[t]
        ==> seq_to_map(out).contains_key(ls[t][q].0)
    &&& out.len() > 0 ==> forall|t: int, q: int| #![trigger ls[t][q]] 0 <= t < ls.len() && cur[t]
        <= q < ls[t].len() ==> !lex_lt(ls[t][q].0, out.last().0)
}

/// At the chosen minimum, the layered input maps the key to the chosen
/// record's entry.
#[verifier::rlimit(60)]
proof fn lemma_pick_newest(
    ls: Seq<Seq<Rec>>,
    cur: Seq<usize>,
    out: Seq<Rec>,
    t: int,
    k: Seq<u8>,
    e: Option<Seq<u8>>,
)
    requires
        merge_inv(ls, cur, out),
        forall|t2: int| 0 <= t2 < ls.len() ==> keys_sorted(#[trigger] ls[t2]),
        0 <= t < ls.len(),
        cur[t] < ls[t].len(),
        ls[t][cur[t] as int] == (k, e),
        // the chosen record lies strictly above everything emitted
        out.len() > 0 ==> lex_lt(out.last().0, k),
        // no newer table has an unconsumed record with a key at or below `k`
        forall|t2: int| 0 <= t2 < t && #[trigger] cur[t2] < ls[t2].len() ==> lex_lt(
            k,
            ls[t2][cur[t2] as int].0,
        ),
    ensures
        layered(lists_view(ls)).contains_key(k),
        layered(lists_view(ls))[k] == e,
{
    let ms = lists_view(ls);
    assert forall|t2: int| 0 <= t2 < t implies !(#[trigger] ms[t2]).contains_key(k) by {
        assert(ms[t2] == seq_to_map(ls[t2]));
        assert forall|q: int| 0 <= q < ls[t2].len() implies (#[trigger] ls[t2][q]).0 != k by {
            if q < cur[t2] {
                if ls[t2][q].0 == k {
                    assert(seq_to_map(out).contains_key(k));
                    lemma_seq_to_map_domain(out, k);
                    let w = choose|w: int| 0 <= w < out.len() && (#[trigger] out[w]).0 == k;
                    // every key of `out` is at or below the last one, yet the
                    // chosen key lies strictly above it
                    if w < out.len() - 1 {
                        assert(lex_lt(out[w].0, out.last().0));
                        lemma_lex_trans(out.last().0, k, out.last().0);
                        lemma_lex_irrefl(out.last().0);
                    } else {
                        assert(out.last().0 == k);
                        lemma_lex_irrefl(k);
                    }
                }
            } else {
                // unconsumed: at or above this table's head, which is above k
                assert(cur[t2] < ls[t2].len());
                assert(lex_lt(k, ls[t2][cur[t2] as int].0));
                if q == cur[t2] {
                    if ls[t2][q].0 == k {
                        lemma_lex_irrefl(k);
                    }
                } else {
                    assert(lex_lt(ls[t2][cur[t2] as int].0, ls[t2][q].0));
                    if ls[t2][q].0 == k {
                        lemma_lex_trans(k, ls[t2][cur[t2] as int].0, ls[t2][q].0);
                        lemma_lex_irrefl(k);
                    }
                }
            }
        }
        lemma_seq_to_map_absent(ls[t2], k);
    }
    assert(ms[t] == seq_to_map(ls[t]));
    lemma_sorted_distinct(ls[t]);
    lemma_seq_to_map_index(ls[t], cur[t] as int);
    assert(ms[t].contains_key(k) && ms[t][k] == e);
    lemma_layered_first(ms, t, k);
}

/// Merges the tables, newest first, into one table image: for every key
/// present in any input, the output holds the newest record, value or
/// tombstone. `None` only for an empty input list.
pub fn compact(sstables: &Vec<SSTable>) -> (r: Option<Vec<u8>>)
    requires
        forall|t: int| 0 <= t < sstables@.len() ==> (#[trigger] sstables@[t]).wf(),
    ensures
        match r {
            Some(bytes) => {
                &&& sstables@.len() > 0
                &&& table_wf(bytes@)
                &&& seq_to_map(table_records(bytes@)) == layered(tables_kv(sstables@))
            },
            None => sstables@.len() == 0,
        },
{
    if sstables.len() == 0 {
        return None;
    }
    let ghost n = sstables@.len() as int;
    // Materialise every table's records.
    let mut lists: Vec<Vec<(Vec<u8>, Entry)>> = Vec::new();
    let mut t: usize = 0;
    while t < sstables.len()
        invariant
            0 <= t <= sstables@.len(),
            lists@.len() == t,
            forall|q: int| 0 <= q < sstables@.len() ==> (#[trigger] sstables@[q]).wf(),
            forall|q: int| 0 <= q < t ==> pairs_view(#[trigger] lists@[q]@)
                == sstables@[q].records(),
        decreases sstables@.len() - t,
    {
        let mut it = sstables[t].iter();
        let mut recs: Vec<(Vec<u8>, Entry)> = Vec::new();
        proof {
            sstables@[t as int].lemma_wf_props();
        }
        loop
            invariant
                it.wf(),
                it.records() == sstables@[t as int].records(),
                0 <= it.index() <= it.records().len(),
                pairs_view(recs@) == it.records().take(it.index()),
            ensures
                pairs_view(recs@) == sstables@[t as int].records(),
            decreases it.records().len() - it.index(),
        {
            let ghost before = it.index();
            match it.next() {
                Some((k, e)) => {
                    proof {
                        assert(pairs_view(recs@.push((k, e))) =~= pairs_view(recs@).push((k@, e@)));
                        assert(it.records().take(before).push(it.records()[before])
                            =~= it.records().take(before + 1));
                    }
                    recs.push((k, e));
                },
                None => {
                    proof {
                        assert(it.records().take(it.index()) =~= it.records());
                    }
                    break ;
                },
            }
        }
        lists.push(recs);
        t = t + 1;
    }
    let ghost ls = lists@.map_values(|l: Vec<(Vec<u8>, Entry)>| pairs_view(l@));
    proof {
        assert(ls.len() == n);
        assert forall|q: int| 0 <= q < n implies #[trigger] ls[q] == sstables@[q].records() by {
            assert(ls[q] == pairs_view(lists@[q]@));
        }
        assert(lists_view(ls) =~= tables_kv(sstables@)) by {
            assert forall|q: int| 0 <= q < n implies lists_view(ls)[q] == tables_kv(sstables@)[q] by {
                assert(lists_view(ls)[q] == seq_to_map(ls[q]));
                assert(tables_kv(sstables@)[q] == sstables@[q].kv());
            }
        }
        assert forall|q: int| 0 <= q < n implies keys_sorted(#[trigger] ls[q]) && recs_wf(ls[q]) by {
            sstables@[q as int].lemma_wf_props();
        }
    }
    // k-way merge.
    let mut cur: Vec<usize> = Vec::new();
    let mut t2: usize = 0;
    while t2 < lists.len()
        invariant
            0 <= t2 <= lists@.len(),
            cur@.len() == t2,
            forall|q: int| 0 <= q < t2 ==> #[trigger] cur@[q] == 0usize,
        decreases lists@.len() - t2,
    {
        cur.push(0);
        t2 = t2 + 1;
    }
    let mut builder = SSTableBuilder::new(16);
    let mut last_key: Vec<u8> = Vec::new();
    let mut any = false;
    proof {
        lemma_rem_sum_nonneg(ls, cur@);
    }
    loop
        invariant
            cur@.len() == lists@.len(),
            lists@.len() == n,
            ls == lists@.map_values(|l: Vec<(Vec<u8>, Entry)>| pairs_view(l@)),
            forall|q: int| 0 <= q < n ==> #[trigger] ls[q] == pairs_view(lists@[q]@),
            forall|q: int| 0 <= q < n ==> keys_sorted(#[trigger] ls[q]) && recs_wf(ls[q]),
            builder.wf(),
            merge_inv(ls, cur@, builder.records()),
            any == (builder.records().len() > 0),
            any ==> last_key@ == builder.records().last().0,
        ensures
            builder.wf(),
            merge_inv(ls, cur@, builder.records()),
            forall|t3: int| 0 <= t3 < n ==> #[trigger] cur@[t3] == ls[t3].len(),
        decreases rem_sum(ls, cur@),
    {
        // Find the unconsumed head with the smallest key; ties go to the
        // newest table, the one with the smallest position in the list.
        let mut best: usize = 0;
        let mut found = false;
        let mut t3: usize = 0;
        while t3 < lists.len()
            invariant
                0 <= t3 <= lists@.len(),
                cur@.len() == lists@.len(),
                lists@.len() == n,
                forall|q: int| 0 <= q < n ==> #[trigger] ls[q] == pairs_view(lists@[q]@),
                forall|q: int| 0 <= q < n ==> #[trigger] cur@[q] <= ls[q].len(),
                !found ==> forall|q: int| 0 <= q < t3 ==> #[trigger] cur@[q] == ls[q].len(),
                found ==> 0 <= best < t3 <= n && cur@[best as int] < ls[best as int].len(),
                found ==> forall|q: int|
                    0 <= q < t3 && #[trigger] cur@[q] < ls[q].len() && q != best ==> head_le(
                        ls,
                        cur@,
                        best as int,
                        q,
                    ),
            decreases lists@.len() - t3,
        {
            if cur[t3] < lists[t3].len() {
                proof {
                    assert(ls[t3 as int].len() == lists@[t3 as int]@.len());
                }
                if !found {
                    best = t3;
                    found = true;
                } else {
                    let ghost bi = best as int;
                    proof {
                        assert(ls[bi][cur@[bi] as int].0 == lists@[bi]@[cur@[bi] as int].0@);
                        assert(ls[t3 as int][cur@[t3 as int] as int].0 == lists@[t3 as int]@[cur@[
                            t3 as int] as int].0@);
                    }
                    if key_lt(
                        lists[t3][cur[t3]].0.as_slice(),
                        lists[best][cur[best]].0.as_slice(),
                    ) {
                        proof {
                            assert forall|q: int|
                                0 <= q < t3 + 1 && #[trigger] cur@[q] < ls[q].len() && q != t3
                                    as int implies head_le(ls, cur@, t3 as int, q) by {
                                if q != bi {
                                    let kb = ls[bi][cur@[bi] as int].0;
                                    let kq = ls[q][cur@[q] as int].0;
                                    let kt = ls[t3 as int][cur@[t3 as int] as int].0;
                                    if lex_lt(kb, kq) {
                                        lemma_lex_trans(kt, kb, kq);
                                    }
                                }
                            }
                        }
                        best = t3;
                    } else {
                        proof {
                            let kb = ls[bi][cur@[bi] as int].0;
                            let kt = ls[t3 as int][cur@[t3 as int] as int].0;
                            lemma_lex_connex(kb, kt);
                        }
                    }
                }
            }
            t3 = t3 + 1;
        }
        if !found {
            break ;
        }
        let ghost bi = best as int;
        let ghost k = ls[bi][cur@[bi] as int].0;
        let ghost e = ls[bi][cur@[bi] as int].1;
        proof {
            assert(ls[bi][cur@[bi] as int] == (k, e));
            assert(k == lists@[bi]@[cur@[bi] as int].0@);
            assert(e == lists@[bi]@[cur@[bi] as int].1@);
            // the chosen head's key is at or below every other unconsumed head
            assert forall|t2: int|
                0 <= t2 < n && #[trigger] cur@[t2] < ls[t2].len() && t2 != bi implies !lex_lt(
                ls[t2][cur@[t2] as int].0,
                k,
            ) by {
                let kq = ls[t2][cur@[t2] as int].0;
                if lex_lt(k, kq) {
                    lemma_lex_asym(k, kq);
                } else {
                    lemma_lex_irrefl(k);
                }
            }
        }
        let emit = if !any {
            true
        } else {
            key_lt(last_key.as_slice(), lists[best][cur[best]].0.as_slice())
        };
        if emit {
            proof {
                assert forall|t2: int|
                    0 <= t2 < bi && #[trigger] cur@[t2] < ls[t2].len() implies lex_lt(
                    k,
                    ls[t2][cur@[t2] as int].0,
                ) by {
                    let kq = ls[t2][cur@[t2] as int].0;
                    lemma_lex_connex(k, kq);
                    if kq == k {
                        assert(false);
                    }
                    if lex_lt(kq, k) {
                        assert(false);
                    }
                }
                lemma_pick_newest(ls, cur@, builder.records(), bi, k, e);
                assert(rec_wf((k, e)));
            }
            let ghost out_before = builder.records();
            builder.add_record(
                lists[best][cur[best]].0.as_slice(),
                &lists[best][cur[best]].1,
            );
            proof {
                assert(builder.records() == out_before.push((k, e)));
                builder.lemma_wf_sorted();
            }
            let kv = copy_range(
                lists[best][cur[best]].0.as_slice(),
                0,
                lists[best][cur[best]].0.len(),
            );
            last_key = kv;
            any = true;
            proof {
                assert(last_key@ =~= k);
                lemma_emit_inv(ls, cur@, out_before, bi, k, e);
            }
        } else {
            proof {
                lemma_skip_inv(ls, cur@, builder.records(), bi, k, e);
            }
        }
        let ghost cur_before = cur@;
        proof {
            assert(ls[bi].len() == lists@[bi]@.len());
        }
        let c = cur[best];
        cur[best] = c + 1;
        proof {
            assert(cur@ =~= cur_before.update(bi, (c + 1) as usize));
            lemma_rem_sum_dec(ls, cur_before, bi);
            lemma_rem_sum_nonneg(ls, cur@);
        }
    }
    // All inputs consumed: the built mapping is the layered input.
    proof {
        lemma_merge_complete(ls, cur@, builder.records());
        assert(lists_view(ls) == tables_kv(sstables@));
    }
    let out = builder.finish();
    Some(out)
}

/// After the merge has consumed every record, the built mapping equals the
/// layered input.
proof fn lemma_merge_complete(ls: Seq<Seq<Rec>>, cur: Seq<usize>, out: Seq<Rec>)
    requires
        merge_inv(ls, cur, out),
        forall|t: int| 0 <= t < ls.len() ==> #[trigger] cur[t] == ls[t].len(),
    ensures
        seq_to_map(out) == layered(lists_view(ls)),
{
    let m1 = seq_to_map(out);
    let m2 = layered(lists_view(ls));
    assert forall|k: Seq<u8>| #[trigger] m2.dom().contains(k) implies m1.dom().contains(k)
        && m1[k] == m2[k] by {
        assert(m2.contains_key(k));
        lemma_layered_dom(lists_view(ls), k);
        let t = choose|t: int|
            0 <= t < lists_view(ls).len() && (#[trigger] lists_view(ls)[t]).contains_key(k);
        assert(lists_view(ls)[t] == seq_to_map(ls[t]));
        lemma_seq_to_map_domain(ls[t], k);
        let q = choose|q: int| 0 <= q < ls[t].len() && (#[trigger] ls[t][q]).0 == k;
        assert(m1.contains_key(ls[t][q].0));
    }
    assert forall|k: Seq<u8>| #[trigger] m1.dom().contains(k) implies m2.dom().contains(k) by {
        assert(m1.contains_key(k));
    }
    assert(m1.dom() =~= m2.dom());
    assert(m1 =~= m2);
}

/// Emitting the chosen record preserves the merge invariant with its table's
/// cursor advanced.
#[verifier::rlimit(60)]
proof fn lemma_emit_inv(
    ls: Seq<Seq<Rec>>,
    cur: Seq<usize>,
    out: Seq<Rec>,
    t: int,
    k: Seq<u8>,
    e: Option<Seq<u8>>,
)
    requires
        merge_inv(ls, cur, out),
        forall|t2: int| 0 <= t2 < ls.len() ==> keys_sorted(#[trigger] ls[t2]) && recs_wf(ls[t2]),
        0 <= t < ls.len(),
        cur[t] < ls[t].len(),
        ls[t][cur[t] as int] == (k, e),
        out.len() > 0 ==> lex_lt(out.last().0, k),
        layered(lists_view(ls)).contains_key(k),
        layered(lists_view(ls))[k] == e,
        keys_sorted(out.push((k, e))),
        cur[t] < usize::MAX,
        forall|t2: int| 0 <= t2 < ls.len() && #[trigger] cur[t2] < ls[t2].len() && t2 != t
            ==> !lex_lt(ls[t2][cur[t2] as int].0, k),
    ensures
        merge_inv(ls, cur.update(t, (cur[t] + 1) as usize), out.push((k, e))),
{
    let cur2 = cur.update(t, (cur[t] + 1) as usize);
    let out2 = out.push((k, e));
    assert(seq_to_map(out2) == seq_to_map(out).insert(k, e)) by {
        assert(out2.drop_last() =~= out);
        assert(out2.last() == (k, e));
    }
    assert forall|k2: Seq<u8>| #[trigger] seq_to_map(out2).contains_key(k2) implies layered(
        lists_view(ls),
    ).contains_key(k2) && seq_to_map(out2)[k2] == layered(lists_view(ls))[k2] by {
        if k2 != k {
            assert(seq_to_map(out).contains_key(k2));
        }
    }
    assert forall|t2: int, q: int| #![trigger ls[t2][q]] 0 <= t2 < ls.len() && 0 <= q
        < cur2[t2] implies seq_to_map(out2).contains_key(ls[t2][q].0) by {
        if t2 == t && q == cur[t] {
            assert(ls[t2][q].0 == k);
        } else {
            assert(q < cur[t2]);
            assert(seq_to_map(out).contains_key(ls[t2][q].0));
        }
    }
    assert(out2.last() == (k, e));
    assert forall|t2: int, q: int| #![trigger ls[t2][q]] 0 <= t2 < ls.len() && cur2[t2] <= q
        < ls[t2].len() implies !lex_lt(ls[t2][q].0, out2.last().0) by {
        assert(cur[t2] <= q);
        if out.len() > 0 {
            assert(!lex_lt(ls[t2][q].0, out.last().0));
            if lex_lt(ls[t2][q].0, k) {
                if t2 == t {
                    assert(q > cur[t]);
                    assert(lex_lt(k, ls[t2][q].0));
                    lemma_lex_asym(k, ls[t2][q].0);
                } else {
                    lemma_head_below(ls, cur, t2, q, k);
                }
            }
        } else {
            if lex_lt(ls[t2][q].0, k) {
                if t2 == t {
                    assert(q > cur[t]);
                    assert(lex_lt(k, ls[t2][q].0));
                    lemma_lex_asym(k, ls[t2][q].0);
                } else {
                    lemma_head_below(ls, cur, t2, q, k);
                }
            }
        }
    }
}

/// An unconsumed record strictly below a key pulls its table's head strictly
/// below that key too.
proof fn lemma_head_below(ls: Seq<Seq<Rec>>, cur: Seq<usize>, t2: int, q: int, k: Seq<u8>)
    requires
        cur.len() == ls.len(),
        forall|t3: int| 0 <= t3 < ls.len() ==> #[trigger] cur[t3] <= ls[t3].len(),
        forall|t3: int| 0 <= t3 < ls.len() ==> keys_sorted(#[trigger] ls[t3]),
        0 <= t2 < ls.len(),
        cur[t2] <= q < ls[t2].len(),
        lex_lt(ls[t2][q].0, k),
    ensures
        lex_lt(ls[t2][cur[t2] as int].0, k),
{
    let hk = ls[t2][cur[t2] as int].0;
    if q == cur[t2] {
    } else {
        assert(lex_lt(hk, ls[t2][q].0));
        lemma_lex_trans(hk, ls[t2][q].0, k);
    }
}

/// Skipping an already-covered version preserves the merge invariant.
proof fn lemma_skip_inv(
    ls: Seq<Seq<Rec>>,
    cur: Seq<usize>,
    out: Seq<Rec>,
    t: int,
    k: Seq<u8>,
    e: Option<Seq<u8>>,
)
    requires
        merge_inv(ls, cur, out),
        0 <= t < ls.len(),
        cur[t] < ls[t].len(),
        ls[t][cur[t] as int] == (k, e),
        cur[t] < usize::MAX,
        out.len() > 0,
        !lex_lt(out.last().0, k),
    ensures
        merge_inv(ls, cur.update(t, (cur[t] + 1) as usize), out),
{
    let cur2 = cur.update(t, (cur[t] + 1) as usize);
    // the skipped record's key equals the last emitted key, which `out` holds
    assert(!lex_lt(k, out.last().0));
    lemma_lex_connex(k, out.last().0);
    assert(k == out.last().0);
    lemma_seq_to_map_contains(out, out.len() - 1);
    assert forall|t2: int, q: int| #![trigger ls[t2][q]] 0 <= t2 < ls.len() && 0 <= q
        < cur2[t2] implies seq_to_map(out).contains_key(ls[t2][q].0) by {
        if t2 == t && q == cur[t] {
            assert(ls[t2][q].0 == out.last().0);
        } else {
            assert(q < cur[t2]);
        }
    }
}

} // verus!
