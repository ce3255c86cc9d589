//! Folding pending changes into the sorted cache index, evicting entries
//! whose atime falls below the cutoff, and collecting the evicted values
//! so their extents can be freed.

use vstd::prelude::*;
use crate::base::Atime;
use crate::base::IndexEntry;
use crate::base::IndexKey;
use crate::base::IndexValue;
use crate::pending::PendingChange;
use crate::pending::PendingChangeMap;
use crate::pending::pending_keys_sorted;
use crate::pending::spec_get;
use crate::pending::lemma_get_found_pub;
use crate::pending::lemma_get_absent_pub;
use crate::pending::lemma_key_order_total_pub;

verus! {

/// Index entries strictly increasing by key.
pub open spec fn index_sorted(s: Seq<IndexEntry>) -> bool {
    forall|i: int, j: int| #![trigger s[i], s[j]]
        0 <= i < j < s.len() ==> s[i].key.spec_lt(s[j].key)
}

/// The value the index holds for `k`, if any.
pub open spec fn index_get(s: Seq<IndexEntry>, k: IndexKey) -> Option<IndexValue>
    decreases s.len(),
{
    if s.len() == 0 {
        None
    } else if s[0].key == k {
        Some(s[0].value)
    } else {
        index_get(s.skip(1), k)
    }
}

/// The value a key reads as out of the index plus the pending changes.
pub open spec fn eff_seq(
    index: Seq<IndexEntry>,
    pending: Seq<(IndexKey, PendingChange)>,
    k: IndexKey,
) -> Option<IndexValue> {
    match spec_get(pending, k) {
        Some(PendingChange::Insert(v)) => Some(v),
        Some(PendingChange::RemoveThenInsert(v)) => Some(v),
        Some(PendingChange::UpdateAtime(v)) => Some(v),
        Some(PendingChange::Remove) => None,
        None => index_get(index, k),
    }
}

/// What the merged index holds for `k`: the effective value, unless its
/// atime falls below the eviction cutoff.
pub open spec fn merge_target(
    index: Seq<IndexEntry>,
    pending: Seq<(IndexKey, PendingChange)>,
    cutoff: Atime,
    k: IndexKey,
) -> Option<IndexValue> {
    match eff_seq(index, pending, k) {
        Some(v) => if v.atime.0 >= cutoff.0 {
            Some(v)
        } else {
            None
        },
        None => None,
    }
}

/// Every pending change is consistent with the index: an insert is of a
/// key the index lacks; a remove, re-insert or atime update refers to a
/// key the index holds.
pub open spec fn pending_consistent(
    index: Seq<IndexEntry>,
    pending: Seq<(IndexKey, PendingChange)>,
) -> bool {
    forall|a: int| 0 <= a < pending.len() ==> match (#[trigger] pending[a]).1 {
        PendingChange::Insert(_) => index_get(index, pending[a].0) is None,
        _ => index_get(index, pending[a].0) is Some,
    }
}

pub proof fn lemma_index_get_found(s: Seq<IndexEntry>, k: IndexKey, i: int)
    requires
        index_sorted(s),
        0 <= i < s.len(),
        s[i].key == k,
    ensures
        index_get(s, k) == Some(s[i].value),
    decreases s.len(),
{
    if i > 0 {
        assert(s[0].key.spec_lt(s[i].key));
        assert(index_sorted(s.skip(1))) by {
            let t = s.skip(1);
            assert forall|a: int, b: int| #![trigger t[a], t[b]] 0 <= a < b < t.len()
                implies t[a].key.spec_lt(t[b].key) by {
                assert(s[a + 1].key.spec_lt(s[b + 1].key));
            }
        }
        assert(s.skip(1)[i - 1] == s[i]);
        lemma_index_get_found(s.skip(1), k, i - 1);
    }
}

pub proof fn lemma_index_get_absent(s: Seq<IndexEntry>, k: IndexKey)
    requires
        forall|i: int| 0 <= i < s.len() ==> (#[trigger] s[i]).key != k,
    ensures
        index_get(s, k) is None,
    decreases s.len(),
{
    if s.len() > 0 {
        let t = s.skip(1);
        assert(forall|i: int| 0 <= i < t.len() ==> (#[trigger] t[i]).key != k);
        lemma_index_get_absent(t, k);
    }
}

/// Some key effectively reads as `v`.
pub open spec fn value_is_effective(
    index: Seq<IndexEntry>,
    pending: Seq<(IndexKey, PendingChange)>,
    v: IndexValue,
) -> bool {
    exists|k: IndexKey| eff_seq(index, pending, k) == Some(v)
}

/// Look a key up in the sorted in-memory index, as reads do after the
/// chunk holding the key's range is in memory.
pub fn index_lookup(index: &Vec<IndexEntry>, key: IndexKey) -> (r: Option<IndexValue>)
    requires
        index_sorted(index@),
    ensures
        r == index_get(index@, key),
{
    let mut lo: usize = 0;
    let mut hi: usize = index.len();
    while lo < hi
        invariant
            index_sorted(index@),
            lo <= hi <= index@.len(),
            forall|x: int| 0 <= x < lo ==> (#[trigger] index@[x]).key.spec_lt(key),
            forall|x: int| hi <= x < index@.len()
                ==> !(#[trigger] index@[x]).key.spec_lt(key),
        decreases hi - lo,
    {
        let mid = lo + (hi - lo) / 2;
        if index[mid].key.lt(&key) {
            proof {
                assert forall|x: int| 0 <= x <= mid
                    implies (#[trigger] index@[x]).key.spec_lt(key) by {
                    if x < mid {
                        assert(index@[x].key.spec_lt(index@[mid as int].key));
                    }
                }
            }
            lo = mid + 1;
        } else {
            proof {
                assert forall|x: int| mid <= x < index@.len()
                    implies !(#[trigger] index@[x]).key.spec_lt(key) by {
                    if mid < x {
                        assert(index@[mid as int].key.spec_lt(index@[x].key));
                    }
                }
            }
            hi = mid;
        }
    }
    if lo < index.len() && index[lo].key.guid.0 == key.guid.0
        && index[lo].key.block.0 == key.block.0 {
        proof {
            lemma_index_get_found(index@, key, lo as int);
        }
        Some(index[lo].value)
    } else {
        proof {
            assert forall|x: int| 0 <= x < index@.len()
                implies (#[trigger] index@[x]).key != key by {
                if x >= lo {
                    crate::pending::lemma_key_order_total_pub(index@[x].key, key);
                    if x > lo {
                        assert(index@[lo as int].key.spec_lt(index@[x].key));
                        crate::pending::lemma_key_order_total_pub(index@[lo as int].key, key);
                    }
                }
            }
            lemma_index_get_absent(index@, key);
        }
        None
    }
}

/// How many pending changes are removals.
pub open spec fn count_removes(p: Seq<(IndexKey, PendingChange)>) -> int
    decreases p.len(),
{
    if p.len() == 0 {
        0
    } else {
        count_removes(p.drop_last()) + if p.last().1 is Remove {
            1int
        } else {
            0int
        }
    }
}

/// How many pending changes are fresh inserts.
pub open spec fn count_inserts(p: Seq<(IndexKey, PendingChange)>) -> int
    decreases p.len(),
{
    if p.len() == 0 {
        0
    } else {
        count_inserts(p.drop_last()) + if p.last().1 is Insert {
            1int
        } else {
            0int
        }
    }
}

/// Key `k` lies below both unconsumed positions: its fate is decided.
pub open spec fn spec_before(
    index: Seq<IndexEntry>,
    pending: Seq<(IndexKey, PendingChange)>,
    i: int,
    j: int,
    k: IndexKey,
) -> bool {
    &&& (i >= index.len() || k.spec_lt(index[i].key))
    &&& (j >= pending.len() || k.spec_lt(pending[j].0))
}

/// Fold the pending changes into the sorted index, producing the new
/// sorted index and the values evicted below the cutoff.
///
/// The new index reads, at every key, exactly the effective mapping
/// filtered by the cutoff; the free list holds exactly the effective
/// values that fell below it.
pub fn merge_index(
    index: &Vec<IndexEntry>,
    pending: &PendingChangeMap,
    eviction_cutoff: Atime,
) -> (r: (Vec<IndexEntry>, Vec<IndexValue>))
    requires
        index_sorted(index@),
        pending.wf(),
        pending_consistent(index@, pending.entries@),
    ensures
        index_sorted(r.0@),
        forall|k: IndexKey| #[trigger] index_get(r.0@, k)
            == merge_target(index@, pending.entries@, eviction_cutoff, k),
        forall|x: int| 0 <= x < r.1@.len() ==> (#[trigger] r.1@[x]).atime.0 < eviction_cutoff.0,
        forall|x: int| 0 <= x < r.1@.len()
            ==> value_is_effective(index@, pending.entries@, #[trigger] r.1@[x]),
        forall|k: IndexKey| (#[trigger] eff_seq(index@, pending.entries@, k)) is Some
            && eff_seq(index@, pending.entries@, k)->Some_0.atime.0 < eviction_cutoff.0
            ==> r.1@.contains(eff_seq(index@, pending.entries@, k)->Some_0),
        // one output per effective entry: nothing is freed or kept twice
        r.0@.len() + r.1@.len() == index@.len() + count_inserts(pending.entries@)
            - count_removes(pending.entries@),
{
    let ghost pend = pending.entries@;
    let mut new_index: Vec<IndexEntry> = Vec::new();
    let mut free_list: Vec<IndexValue> = Vec::new();
    let mut i: usize = 0;
    let mut j: usize = 0;
    proof {
        assert forall|k: IndexKey| spec_before(index@, pend, 0, 0, k)
            implies (#[trigger] eff_seq(index@, pend, k)) is None by {
            lemma_all_above_absent(index@, pend, 0, 0, k);
        }
        assert(pend.take(0) =~= Seq::<(IndexKey, PendingChange)>::empty());
    }
    while i < index.len() || j < pending.entries.len()
        invariant
            index_sorted(index@),
            pending_keys_sorted(pend),
            pending_consistent(index@, pend),
            pend == pending.entries@,
            i <= index@.len(),
            j <= pend.len(),
            index_sorted(new_index@),
            forall|a: int| 0 <= a < j && i < index@.len()
                ==> (#[trigger] pend[a]).0.spec_lt(index@[i as int].key),
            forall|b: int| 0 <= b < i && j < pend.len()
                ==> (#[trigger] index@[b]).key.spec_lt(pend[j as int].0),
            forall|k: IndexKey| spec_before(index@, pend, i as int, j as int, k)
                ==> #[trigger] index_get(new_index@, k)
                    == merge_target(index@, pend, eviction_cutoff, k),
            forall|k: IndexKey| !spec_before(index@, pend, i as int, j as int, k)
                ==> #[trigger] index_get(new_index@, k) is None,
            forall|e: int| 0 <= e < new_index@.len()
                ==> spec_before(index@, pend, i as int, j as int, (#[trigger] new_index@[e]).key),
            forall|x: int| 0 <= x < free_list@.len()
                ==> (#[trigger] free_list@[x]).atime.0 < eviction_cutoff.0,
            forall|x: int| 0 <= x < free_list@.len()
                ==> value_is_effective(index@, pend, #[trigger] free_list@[x]),
            forall|k: IndexKey| spec_before(index@, pend, i as int, j as int, k)
                && (#[trigger] eff_seq(index@, pend, k)) is Some
                && eff_seq(index@, pend, k)->Some_0.atime.0 < eviction_cutoff.0
                ==> free_list@.contains(eff_seq(index@, pend, k)->Some_0),
            new_index@.len() + free_list@.len() == i + count_inserts(pend.take(j as int))
                - count_removes(pend.take(j as int)),
        decreases index@.len() - i + pend.len() - j,
    {
        let take_pending: bool = if i >= index.len() {
            true
        } else if j >= pending.entries.len() {
            false
        } else {
            pending.entries[j].0.lt(&index[i].key)
        };
        let ghost pre_new = new_index@;
        let ghost pre_free = free_list@;
        let ghost pre_i = i as int;
        let ghost pre_j = j as int;
        if take_pending {
            let (pk, pc) = pending.entries[j];
            proof {
                lemma_get_found_pub(pend, pk, pre_j);
                // the index holds nothing for this key
                assert forall|b: int| 0 <= b < index@.len()
                    implies (#[trigger] index@[b]).key != pk by {
                    if pre_i < index@.len() {
                        if b < pre_i {
                            assert(index@[b].key.spec_lt(pend[pre_j].0));
                        } else {
                            if b > pre_i {
                                assert(index@[pre_i].key.spec_lt(index@[b].key));
                            }
                            assert(pk.spec_lt(index@[pre_i].key));
                        }
                    } else {
                        assert(index@[b].key.spec_lt(pend[pre_j].0));
                    }
                }
                lemma_index_get_absent(index@, pk);
            }
            let v = match pc {
                PendingChange::Insert(v) => v,
                _ => {
                    proof {
                        assert(pend[pre_j].1 == pc);
                        assert(index_get(index@, pend[pre_j].0) is Some);
                        assert(false);
                    }
                    IndexValue {
                        location: crate::base::DiskLocation { offset: 0 },
                        size: 0,
                        atime: Atime(0),
                    }
                },
            };
            if v.atime.0 >= eviction_cutoff.0 {
                new_index.push(IndexEntry { key: pk, value: v });
            } else {
                free_list.push(v);
            }
            j = j + 1;
            proof {
                lemma_emit_one(
                    index@, pend, eviction_cutoff, pre_new, new_index@, pre_free, free_list@,
                    pre_i, pre_j, pre_i, pre_j + 1, pk, Some(v),
                );
                assert(pend.take(pre_j + 1).drop_last() =~= pend.take(pre_j));
                assert(pend.take(pre_j + 1).last() == pend[pre_j]);
            }
        } else if j < pending.entries.len() && index[i].key.guid.0 == pending.entries[j].0.guid.0
            && index[i].key.block.0 == pending.entries[j].0.block.0 {
            // the pending change replaces or removes this index entry
            let (pk, pc) = pending.entries[j];
            proof {
                assert(pend[pre_j].0 == index@[pre_i].key);
                lemma_get_found_pub(pend, pk, pre_j);
            }
            match pc {
                PendingChange::Remove => {
                    i = i + 1;
                    j = j + 1;
                    proof {
                        lemma_emit_one(
                            index@, pend, eviction_cutoff, pre_new, new_index@, pre_free,
                            free_list@, pre_i, pre_j, pre_i + 1, pre_j + 1, pk, None,
                        );
                        assert(pend.take(pre_j + 1).drop_last() =~= pend.take(pre_j));
                        assert(pend.take(pre_j + 1).last() == pend[pre_j]);
                    }
                },
                PendingChange::Insert(_) => {
                    proof {
                        lemma_index_get_found(index@, pk, pre_i);
                        assert(pend[pre_j].1 == pc);
                        assert(false);
                    }
                },
                PendingChange::RemoveThenInsert(v) | PendingChange::UpdateAtime(v) => {
                    if v.atime.0 >= eviction_cutoff.0 {
                        new_index.push(IndexEntry { key: pk, value: v });
                    } else {
                        free_list.push(v);
                    }
                    i = i + 1;
                    j = j + 1;
                    proof {
                        lemma_emit_one(
                            index@, pend, eviction_cutoff, pre_new, new_index@, pre_free,
                            free_list@, pre_i, pre_j, pre_i + 1, pre_j + 1, pk, Some(v),
                        );
                        assert(pend.take(pre_j + 1).drop_last() =~= pend.take(pre_j));
                        assert(pend.take(pre_j + 1).last() == pend[pre_j]);
                    }
                },
            }
        } else {
            // no pending change for this index entry
            let entry = index[i];
            proof {
                if pre_j < pend.len() {
                    lemma_key_order_total_pub(index@[pre_i].key, pend[pre_j].0);
                }
                assert forall|a: int| 0 <= a < pend.len()
                    implies (#[trigger] pend[a]).0 != entry.key by {
                    if a < pre_j {
                        assert(pend[a].0.spec_lt(index@[pre_i].key));
                    } else {
                        if a > pre_j {
                            assert(pend[pre_j].0.spec_lt(pend[a].0));
                        }
                        assert(index@[pre_i].key.spec_lt(pend[pre_j].0));
                    }
                }
                lemma_get_absent_pub(pend, entry.key);
                lemma_index_get_found(index@, entry.key, pre_i);
            }
            let v = entry.value;
            if v.atime.0 >= eviction_cutoff.0 {
                new_index.push(entry);
            } else {
                free_list.push(v);
            }
            i = i + 1;
            proof {
                lemma_emit_one(
                    index@, pend, eviction_cutoff, pre_new, new_index@, pre_free, free_list@,
                    pre_i, pre_j, pre_i + 1, pre_j, entry.key, Some(v),
                );
            }
        }
    }
    proof {
        assert(pend.take(pend.len() as int) =~= pend);
    }
    (new_index, free_list)
}

/// A key decided while both positions are at the start, or lying in the
/// gap between consumed entries, reads as nothing from either side.
proof fn lemma_all_above_absent(
    index: Seq<IndexEntry>,
    pending: Seq<(IndexKey, PendingChange)>,
    i: int,
    j: int,
    k: IndexKey,
)
    requires
        index_sorted(index),
        pending_keys_sorted(pending),
        i == 0,
        j == 0,
        spec_before(index, pending, i, j, k),
    ensures
        eff_seq(index, pending, k) is None,
{
    assert forall|b: int| 0 <= b < index.len() implies (#[trigger] index[b]).key != k by {
        if b > 0 {
            assert(index[0].key.spec_lt(index[b].key));
        }
        assert(k.spec_lt(index[0].key));
    }
    lemma_index_get_absent(index, k);
    assert forall|a: int| 0 <= a < pending.len() implies (#[trigger] pending[a]).0 != k by {
        if a > 0 {
            assert(pending[0].0.spec_lt(pending[a].0));
        }
        assert(k.spec_lt(pending[0].0));
    }
    lemma_get_absent_pub(pending, k);
}

/// One key decided: extend the decided region past `k0`, which reads as
/// `emitted` (appended to the new index when kept, to the free list when
/// evicted, absent when removed). Keys newly decided other than `k0` lie
/// in the gap between consecutive entries and read as nothing.
#[verifier::spinoff_prover]
proof fn lemma_emit_one(
    index: Seq<IndexEntry>,
    pending: Seq<(IndexKey, PendingChange)>,
    cutoff: Atime,
    pre_new: Seq<IndexEntry>,
    post_new: Seq<IndexEntry>,
    pre_free: Seq<IndexValue>,
    post_free: Seq<IndexValue>,
    i0: int,
    j0: int,
    i1: int,
    j1: int,
    k0: IndexKey,
    emitted: Option<IndexValue>,
)
    requires
        index_sorted(index),
        pending_keys_sorted(pending),
        0 <= i0 <= i1 <= index.len(),
        0 <= j0 <= j1 <= pending.len(),
        i1 - i0 <= 1,
        j1 - j0 <= 1,
        i1 > i0 || j1 > j0,
        i1 > i0 ==> index[i0].key == k0,
        j1 > j0 ==> pending[j0].0 == k0,
        i1 == i0 && i0 < index.len() ==> k0.spec_lt(index[i0].key),
        j1 == j0 && j0 < pending.len() ==> k0.spec_lt(pending[j0].0),
        // consumed entries lie below the other side's position
        forall|a: int| 0 <= a < j0 && i0 < index.len()
            ==> (#[trigger] pending[a]).0.spec_lt(index[i0].key),
        forall|b: int| 0 <= b < i0 && j0 < pending.len()
            ==> (#[trigger] index[b]).key.spec_lt(pending[j0].0),
        // what k0 effectively reads as
        eff_seq(index, pending, k0) == emitted,
        // invariant before the step
        index_sorted(pre_new),
        forall|k: IndexKey| spec_before(index, pending, i0, j0, k)
            ==> #[trigger] index_get(pre_new, k) == merge_target(index, pending, cutoff, k),
        forall|k: IndexKey| !spec_before(index, pending, i0, j0, k)
            ==> #[trigger] index_get(pre_new, k) is None,
        forall|e: int| 0 <= e < pre_new.len()
            ==> spec_before(index, pending, i0, j0, (#[trigger] pre_new[e]).key),
        forall|x: int| 0 <= x < pre_free.len()
            ==> (#[trigger] pre_free[x]).atime.0 < cutoff.0,
        forall|x: int| 0 <= x < pre_free.len()
            ==> value_is_effective(index, pending, #[trigger] pre_free[x]),
        forall|k: IndexKey| spec_before(index, pending, i0, j0, k)
            && (#[trigger] eff_seq(index, pending, k)) is Some
            && eff_seq(index, pending, k)->Some_0.atime.0 < cutoff.0
            ==> pre_free.contains(eff_seq(index, pending, k)->Some_0),
        // how the outputs changed
        post_new == match emitted {
            Some(v) => if v.atime.0 >= cutoff.0 {
                pre_new.push(IndexEntry { key: k0, value: v })
            } else {
                pre_new
            },
            None => pre_new,
        },
        post_free == match emitted {
            Some(v) => if v.atime.0 < cutoff.0 {
                pre_free.push(v)
            } else {
                pre_free
            },
            None => pre_free,
        },
    ensures
        index_sorted(post_new),
        forall|a: int| 0 <= a < j1 && i1 < index.len()
            ==> (#[trigger] pending[a]).0.spec_lt(index[i1].key),
        forall|b: int| 0 <= b < i1 && j1 < pending.len()
            ==> (#[trigger] index[b]).key.spec_lt(pending[j1].0),
        forall|k: IndexKey| spec_before(index, pending, i1, j1, k)
            ==> #[trigger] index_get(post_new, k) == merge_target(index, pending, cutoff, k),
        forall|k: IndexKey| !spec_before(index, pending, i1, j1, k)
            ==> #[trigger] index_get(post_new, k) is None,
        forall|e: int| 0 <= e < post_new.len()
            ==> spec_before(index, pending, i1, j1, (#[trigger] post_new[e]).key),
        forall|x: int| 0 <= x < post_free.len()
            ==> (#[trigger] post_free[x]).atime.0 < cutoff.0,
        forall|x: int| 0 <= x < post_free.len()
            ==> value_is_effective(index, pending, #[trigger] post_free[x]),
        forall|k: IndexKey| spec_before(index, pending, i1, j1, k)
            && (#[trigger] eff_seq(index, pending, k)) is Some
            && eff_seq(index, pending, k)->Some_0.atime.0 < cutoff.0
            ==> post_free.contains(eff_seq(index, pending, k)->Some_0),
{
    assert(!spec_before(index, pending, i0, j0, k0));
    // positions advance: the cross bounds carry over
    assert forall|a: int| 0 <= a < j1 && i1 < index.len()
        implies (#[trigger] pending[a]).0.spec_lt(index[i1].key) by {
        if a < j0 {
            assert(pending[a].0.spec_lt(index[i0].key));
            if i1 > i0 {
                assert(index[i0].key.spec_lt(index[i1].key));
            }
        } else {
            assert(a == j0 && j1 > j0);
            if i1 > i0 {
                assert(index[i0].key == k0 && pending[j0].0 == k0);
                assert(index[i0].key.spec_lt(index[i1].key));
            } else {
                assert(k0.spec_lt(index[i0].key));
            }
        }
    }
    assert forall|b: int| 0 <= b < i1 && j1 < pending.len()
        implies (#[trigger] index[b]).key.spec_lt(pending[j1].0) by {
        if b < i0 {
            assert(index[b].key.spec_lt(pending[j0].0));
            if j1 > j0 {
                assert(pending[j0].0.spec_lt(pending[j1].0));
            }
        } else {
            assert(b == i0 && i1 > i0);
            if j1 > j0 {
                assert(pending[j0].0.spec_lt(pending[j1].0));
            } else {
                assert(k0.spec_lt(pending[j0].0));
            }
        }
    }
    // everything decided before stays decided
    assert forall|k: IndexKey| spec_before(index, pending, i0, j0, k)
        implies spec_before(index, pending, i1, j1, k) by {
        if i1 < index.len() && i1 > i0 {
            assert(index[i0].key.spec_lt(index[i1].key));
        }
        if j1 < pending.len() && j1 > j0 {
            assert(pending[j0].0.spec_lt(pending[j1].0));
        }
    }
    assert(spec_before(index, pending, i1, j1, k0)) by {
        if i1 < index.len() {
            if i1 > i0 {
                assert(index[i0].key.spec_lt(index[i1].key));
            }
        }
        if j1 < pending.len() {
            if j1 > j0 {
                assert(pending[j0].0.spec_lt(pending[j1].0));
            }
        }
    }
    // a key newly decided and different from k0 reads as nothing
    assert forall|k: IndexKey| spec_before(index, pending, i1, j1, k)
        && !spec_before(index, pending, i0, j0, k) && k != k0
        implies eff_seq(index, pending, k) is None by {
        lemma_key_order_total_pub(k0, k);
        assert(k0.spec_lt(k)) by {
            if k.spec_lt(k0) {
                if i0 < index.len() {
                    if i1 > i0 {
                    } else {
                        assert(k0.spec_lt(index[i0].key));
                    }
                }
                if j0 < pending.len() {
                    if j1 > j0 {
                    } else {
                        assert(k0.spec_lt(pending[j0].0));
                    }
                }
                assert(spec_before(index, pending, i0, j0, k));
            }
        }
        assert forall|b: int| 0 <= b < index.len() implies (#[trigger] index[b]).key != k by {
            if b < i1 {
                if b < i0 {
                    if j0 < pending.len() {
                        assert(index[b].key.spec_lt(pending[j0].0));
                        if j1 > j0 {
                            assert(pending[j0].0 == k0);
                        } else {
                            assert(k0.spec_lt(pending[j0].0));
                            assert(!spec_before(index, pending, i0, j0, k));
                            // k is not below index[i0] or not below pending[j0]
                            if i0 < index.len() && !k.spec_lt(index[i0].key) {
                                if b < i0 {
                                    assert(index[b].key.spec_lt(index[i0].key));
                                }
                                lemma_key_order_total_pub(k, index[i0].key);
                            } else {
                                lemma_key_order_total_pub(k, pending[j0].0);
                            }
                        }
                        lemma_key_order_total_pub(index[b].key, k);
                        if k.spec_lt(index[b].key) {
                            // then k < pending[j0].0 and k < index[i0].key,
                            // contradicting !before(i0, j0, k)
                            assert(index[b].key.spec_lt(pending[j0].0) || j1 > j0);
                        }
                    } else {
                        // j0 == pending.len(): before fails only on index side
                        assert(!k.spec_lt(index[i0].key) || i0 >= index.len());
                        assert(b < i0 ==> index[b].key.spec_lt(index[i0].key) || b == i0);
                    }
                } else {
                    assert(b == i0);
                    assert(index[i0].key == k0);
                }
            } else {
                if b > i1 || i1 < index.len() {
                    if b > i1 {
                        assert(index[i1].key.spec_lt(index[b].key) || b == i1);
                    }
                    assert(k.spec_lt(index[i1].key));
                }
            }
            lemma_lt_asymmetric(index[b].key, k);
        }
        lemma_index_get_absent(index, k);
        assert forall|a: int| 0 <= a < pending.len() implies (#[trigger] pending[a]).0 != k by {
            if a < j1 {
                if a < j0 {
                    if i0 < index.len() {
                        assert(pending[a].0.spec_lt(index[i0].key));
                        if i1 > i0 {
                            assert(index[i0].key == k0);
                        } else {
                            assert(k0.spec_lt(index[i0].key));
                        }
                    }
                } else {
                    assert(a == j0);
                    assert(pending[j0].0 == k0);
                }
            } else {
                if a > j1 {
                    assert(pending[j1].0.spec_lt(pending[a].0));
                }
                assert(k.spec_lt(pending[j1].0));
            }
            lemma_lt_asymmetric(pending[a].0, k);
        }
        lemma_get_absent_pub(pending, k);
    }
    let kept = emitted matches Some(v) && v.atime.0 >= cutoff.0;
    if kept {
        let v = emitted->Some_0;
        let e = IndexEntry { key: k0, value: v };
        assert forall|x: int| 0 <= x < pre_new.len()
            implies (#[trigger] pre_new[x]).key.spec_lt(k0) by {
            lemma_key_order_total_pub(pre_new[x].key, k0);
            if pre_new[x].key == k0 {
                assert(spec_before(index, pending, i0, j0, k0));
            }
            if k0.spec_lt(pre_new[x].key) {
                assert(spec_before(index, pending, i0, j0, pre_new[x].key));
                assert(spec_before(index, pending, i0, j0, k0));
            }
        }
        assert(index_sorted(post_new)) by {
            assert forall|a: int, b: int| #![trigger post_new[a], post_new[b]]
                0 <= a < b < post_new.len()
                implies post_new[a].key.spec_lt(post_new[b].key) by {
                if b < pre_new.len() {
                    assert(post_new[a] == pre_new[a]);
                    assert(post_new[b] == pre_new[b]);
                } else {
                    assert(post_new[b] == e);
                    assert(post_new[a] == pre_new[a]);
                }
            }
        }
        assert forall|k: IndexKey| spec_before(index, pending, i1, j1, k)
            implies #[trigger] index_get(post_new, k)
                == merge_target(index, pending, cutoff, k) by {
            if k == k0 {
                assert forall|x: int| 0 <= x < pre_new.len()
                    implies (#[trigger] pre_new[x]).key != k0 by {
                    lemma_lt_asymmetric(pre_new[x].key, k0);
                }
                lemma_index_get_snoc_found(pre_new, e);
            } else {
                lemma_index_get_snoc_other(pre_new, e, k);
                if !spec_before(index, pending, i0, j0, k) {
                    assert(eff_seq(index, pending, k) is None);
                }
            }
        }
        assert forall|k: IndexKey| !spec_before(index, pending, i1, j1, k)
            implies #[trigger] index_get(post_new, k) is None by {
            assert(k != k0);
            lemma_index_get_snoc_other(pre_new, e, k);
            assert(!spec_before(index, pending, i0, j0, k));
        }
        assert forall|e2: int| 0 <= e2 < post_new.len()
            implies spec_before(index, pending, i1, j1, (#[trigger] post_new[e2]).key) by {
            if e2 < pre_new.len() {
                assert(post_new[e2] == pre_new[e2]);
            } else {
                assert(post_new[e2] == e);
            }
        }
    } else {
        assert(post_new == pre_new);
        assert forall|k: IndexKey| spec_before(index, pending, i1, j1, k)
            implies #[trigger] index_get(post_new, k)
                == merge_target(index, pending, cutoff, k) by {
            if k == k0 {
                assert(index_get(pre_new, k0) is None);
            } else if !spec_before(index, pending, i0, j0, k) {
                assert(eff_seq(index, pending, k) is None);
                assert(index_get(pre_new, k) is None);
            }
        }
    }
    // the free list
    let evicted = emitted matches Some(v) && v.atime.0 < cutoff.0;
    assert forall|k: IndexKey| spec_before(index, pending, i1, j1, k)
        && (#[trigger] eff_seq(index, pending, k)) is Some
        && eff_seq(index, pending, k)->Some_0.atime.0 < cutoff.0
        implies post_free.contains(eff_seq(index, pending, k)->Some_0) by {
        let v = eff_seq(index, pending, k)->Some_0;
        if spec_before(index, pending, i0, j0, k) {
            assert(pre_free.contains(v));
            let x = choose|x: int| 0 <= x < pre_free.len() && pre_free[x] == v;
            assert(post_free[x] == v);
        } else {
            assert(k == k0);
            assert(post_free == pre_free.push(v));
            assert(post_free[post_free.len() - 1] == v);
        }
    }
    if evicted {
        let v = emitted->Some_0;
        assert forall|x: int| 0 <= x < post_free.len()
            implies value_is_effective(index, pending, #[trigger] post_free[x]) by {
            if x < pre_free.len() {
                assert(post_free[x] == pre_free[x]);
            } else {
                assert(post_free[x] == v);
                assert(eff_seq(index, pending, k0) == Some(v));
            }
        }
    }
}

proof fn lemma_lt_asymmetric(a: IndexKey, b: IndexKey)
    requires
        a.spec_lt(b) || b.spec_lt(a),
    ensures
        a != b,
{
}

proof fn lemma_index_get_snoc_found(s: Seq<IndexEntry>, e: IndexEntry)
    requires
        forall|x: int| 0 <= x < s.len() ==> (#[trigger] s[x]).key != e.key,
    ensures
        index_get(s.push(e), e.key) == Some(e.value),
    decreases s.len(),
{
    if s.len() == 0 {
        assert(s.push(e)[0] == e);
    } else {
        assert(s.push(e)[0] == s[0]);
        assert(s.push(e).skip(1) =~= s.skip(1).push(e));
        assert(forall|x: int| 0 <= x < s.skip(1).len()
            ==> (#[trigger] s.skip(1)[x]).key != e.key);
        lemma_index_get_snoc_found(s.skip(1), e);
    }
}

proof fn lemma_index_get_snoc_other(s: Seq<IndexEntry>, e: IndexEntry, k: IndexKey)
    requires
        k != e.key,
    ensures
        index_get(s.push(e), k) == index_get(s, k),
    decreases s.len(),
{
    if s.len() == 0 {
        assert(s.push(e).len() == 1);
        assert(s.push(e)[0] == e);
        assert(s.push(e)[0].key != k);
        assert(index_get(s.push(e), k) == index_get(s.push(e).skip(1), k));
        assert(s.push(e).skip(1) =~= Seq::<IndexEntry>::empty());
        assert(index_get(s.push(e), k) is None);
        assert(index_get(s, k) is None);
    } else {
        assert(s.push(e)[0] == s[0]);
        if s[0].key != k {
            assert(index_get(s.push(e), k) == index_get(s.push(e).skip(1), k));
            assert(s.push(e).skip(1) =~= s.skip(1).push(e));
            lemma_index_get_snoc_other(s.skip(1), e, k);
            assert(index_get(s, k) == index_get(s.skip(1), k));
        } else {
            assert(s.push(e)[0].key == k);
            assert(index_get(s.push(e), k) == Some(s[0].value));
            assert(index_get(s, k) == Some(s[0].value));
        }
    }
}


/// Looking a key up in a concatenation: the front answers first.
proof fn lemma_index_get_concat(a: Seq<IndexEntry>, b: Seq<IndexEntry>, k: IndexKey)
    ensures
        index_get(a + b, k) == match index_get(a, k) {
            Some(v) => Some(v),
            None => index_get(b, k),
        },
    decreases a.len(),
{
    if a.len() == 0 {
        assert(a + b =~= b);
    } else {
        assert((a + b)[0] == a[0]);
        if a[0].key == k {
            assert(index_get(a + b, k) == Some(a[0].value));
        } else {
            assert((a + b).skip(1) =~= a.skip(1) + b);
            lemma_index_get_concat(a.skip(1), b, k);
        }
    }
}

/// A merge interrupted and resumed from the saved last key completes to
/// the same index as a crash-free run: the prefix written before the
/// interruption answers every key at or below the last key exactly as
/// the full merge would, the resumed remainder answers every key above
/// it, and together they answer every key as the full merge does.
pub proof fn lemma_merge_resume_completes(
    index: Seq<IndexEntry>,
    pending: Seq<(IndexKey, PendingChange)>,
    cutoff: Atime,
    last_key: IndexKey,
    prefix: Seq<IndexEntry>,
    rest: Seq<IndexEntry>,
)
    requires
        index_sorted(prefix),
        index_sorted(rest),
        forall|e: int| 0 <= e < prefix.len() ==> (#[trigger] prefix[e]).key.spec_le(last_key),
        forall|e: int| 0 <= e < rest.len() ==> last_key.spec_lt((#[trigger] rest[e]).key),
        forall|k: IndexKey| k.spec_le(last_key)
            ==> #[trigger] index_get(prefix, k) == merge_target(index, pending, cutoff, k),
        forall|k: IndexKey| last_key.spec_lt(k) ==> #[trigger] index_get(prefix, k) is None,
        forall|k: IndexKey| last_key.spec_lt(k)
            ==> #[trigger] index_get(rest, k) == merge_target(index, pending, cutoff, k),
        forall|k: IndexKey| k.spec_le(last_key) ==> #[trigger] index_get(rest, k) is None,
    ensures
        index_sorted(prefix + rest),
        forall|k: IndexKey| #[trigger] index_get(prefix + rest, k)
            == merge_target(index, pending, cutoff, k),
{
    let whole = prefix + rest;
    assert forall|i: int, j: int| #![trigger whole[i], whole[j]] 0 <= i < j < whole.len()
        implies whole[i].key.spec_lt(whole[j].key) by {
        if j < prefix.len() {
            assert(whole[i] == prefix[i]);
            assert(whole[j] == prefix[j]);
        } else if i >= prefix.len() {
            assert(whole[i] == rest[i - prefix.len()]);
            assert(whole[j] == rest[j - prefix.len()]);
        } else {
            assert(whole[i] == prefix[i]);
            assert(whole[j] == rest[j - prefix.len()]);
            assert(prefix[i].key.spec_le(last_key));
            assert(last_key.spec_lt(rest[j - prefix.len()].key));
        }
    }
    assert forall|k: IndexKey| #[trigger] index_get(whole, k)
        == merge_target(index, pending, cutoff, k) by {
        lemma_index_get_concat(prefix, rest, k);
        crate::pending::lemma_key_order_total_pub(k, last_key);
        if k.spec_le(last_key) {
            assert(index_get(prefix, k) == merge_target(index, pending, cutoff, k));
            if index_get(prefix, k) is None {
                assert(index_get(rest, k) is None);
            }
        } else {
            assert(last_key.spec_lt(k));
            assert(index_get(prefix, k) is None);
            assert(index_get(rest, k) == merge_target(index, pending, cutoff, k));
        }
    }
}

} // verus!
