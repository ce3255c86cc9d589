//! Pending changes to the cache index: the per-key state machine, the
//! operation-log replay that reconstructs it after a crash, and the proof
//! that the replayed state presents the same effective mapping as the log.

use vstd::prelude::*;
use crate::base::IndexKey;
use crate::base::IndexValue;

verus! {

/// A not-yet-merged mutation of one key, relative to the on-disk index.
/// The four variants are the four reachable states of the pair
/// (present in index, present in operation log).
#[derive(Debug, Copy, Clone, PartialEq, Eq, Structural)]
pub enum PendingChange {
    Insert(IndexValue),
    UpdateAtime(IndexValue),
    Remove,
    RemoveThenInsert(IndexValue),
}

/// One durable record of the operation log. Atime updates are not logged;
/// they are reconstructed as part of the index entry they touch.
#[derive(Debug, Copy, Clone, PartialEq, Eq, Structural)]
pub enum OperationLogEntry {
    Insert(IndexKey, IndexValue),
    Remove(IndexKey, IndexValue),
}

/// Keys strictly increasing.
pub open spec fn pending_keys_sorted(s: Seq<(IndexKey, PendingChange)>) -> bool {
    forall|i: int, j: int| #![trigger s[i], s[j]]
        0 <= i < j < s.len() ==> s[i].0.spec_lt(s[j].0)
}

/// The change recorded for `k`, if any.
pub open spec fn spec_get(s: Seq<(IndexKey, PendingChange)>, k: IndexKey) -> Option<PendingChange>
    decreases s.len(),
{
    if s.len() == 0 {
        None
    } else if s[0].0 == k {
        Some(s[0].1)
    } else {
        spec_get(s.skip(1), k)
    }
}

/// The pending changes, keyed and sorted by `IndexKey`.
#[derive(Debug, Clone)]
pub struct PendingChangeMap {
    pub entries: Vec<(IndexKey, PendingChange)>,
}

impl PendingChangeMap {
    pub open spec fn wf(&self) -> bool {
        pending_keys_sorted(self.entries@)
    }

    /// The map as a mathematical function from keys to changes.
    pub open spec fn as_map(&self) -> Map<IndexKey, PendingChange> {
        Map::new(
            |k: IndexKey| spec_get(self.entries@, k) is Some,
            |k: IndexKey| spec_get(self.entries@, k)->Some_0,
        )
    }

    pub fn new() -> (r: PendingChangeMap)
        ensures
            r.wf(),
            r.entries@.len() == 0,
            r.as_map() =~= Map::<IndexKey, PendingChange>::empty(),
    {
        let r = PendingChangeMap { entries: Vec::new() };
        proof {
            assert forall|k: IndexKey| !(spec_get(r.entries@, k) is Some) by {}
        }
        r
    }

    /// The first position whose key is not below `k`.
    fn position(&self, k: &IndexKey) -> (r: usize)
        requires
            self.wf(),
        ensures
            r <= self.entries@.len(),
            forall|i: int| 0 <= i < r ==> (#[trigger] self.entries@[i]).0.spec_lt(*k),
            forall|i: int| r <= i < self.entries@.len()
                ==> !(#[trigger] self.entries@[i]).0.spec_lt(*k),
    {
        let mut lo: usize = 0;
        let mut hi: usize = self.entries.len();
        while lo < hi
            invariant
                self.wf(),
                lo <= hi <= self.entries@.len(),
                forall|i: int| 0 <= i < lo ==> (#[trigger] self.entries@[i]).0.spec_lt(*k),
                forall|i: int| hi <= i < self.entries@.len()
                    ==> !(#[trigger] self.entries@[i]).0.spec_lt(*k),
            decreases hi - lo,
        {
            let mid = lo + (hi - lo) / 2;
            if self.entries[mid].0.lt(k) {
                proof {
                    assert forall|i: int| 0 <= i <= mid
                        implies (#[trigger] self.entries@[i]).0.spec_lt(*k) by {
                        if i < mid {
                            assert(self.entries@[i].0.spec_lt(self.entries@[mid as int].0));
                        }
                    }
                }
                lo = mid + 1;
            } else {
                proof {
                    assert forall|i: int| mid <= i < self.entries@.len()
                        implies !(#[trigger] self.entries@[i]).0.spec_lt(*k) by {
                        if mid < i {
                            assert(self.entries@[mid as int].0.spec_lt(self.entries@[i].0));
                        }
                    }
                }
                hi = mid;
            }
        }
        lo
    }

    /// The change recorded for `k`, if any.
    pub fn get(&self, k: &IndexKey) -> (r: Option<PendingChange>)
        requires
            self.wf(),
        ensures
            r == spec_get(self.entries@, *k),
    {
        proof {
            lemma_get_by_position(self.entries@, *k);
        }
        let pos = self.position(k);
        if pos < self.entries.len() && self.entries[pos].0.guid.0 == k.guid.0
            && self.entries[pos].0.block.0 == k.block.0 {
            proof {
                lemma_get_found(self.entries@, *k, pos as int);
            }
            Some(self.entries[pos].1)
        } else {
            proof {
                lemma_get_absent(self.entries@, *k);
            }
            None
        }
    }

    /// Record `pc` for `k`, replacing any earlier change.
    pub fn set(&mut self, k: IndexKey, pc: PendingChange)
        requires
            old(self).wf(),
        ensures
            final(self).wf(),
            spec_get(final(self).entries@, k) == Some(pc),
            forall|k2: IndexKey| k2 != k
                ==> #[trigger] spec_get(final(self).entries@, k2)
                    == spec_get(old(self).entries@, k2),
            final(self).as_map() =~= old(self).as_map().insert(k, pc),
    {
        let pos = self.position(&k);
        let ghost pre = self.entries@;
        if pos < self.entries.len() && self.entries[pos].0.guid.0 == k.guid.0
            && self.entries[pos].0.block.0 == k.block.0 {
            self.entries.set(pos, (k, pc));
            proof {
                lemma_sorted_update(pre, pos as int, k, pc);
                lemma_get_after_update(pre, pos as int, k, pc);
            }
        } else {
            self.entries.insert(pos, (k, pc));
            proof {
                lemma_sorted_insert_at(pre, pos as int, k, pc);
                lemma_get_after_insert(pre, pos as int, k, pc);
            }
        }
        proof {
            assert(final(self).as_map() =~= old(self).as_map().insert(k, pc));
        }
    }

    /// Drop any change recorded for `k`.
    pub fn remove_key(&mut self, k: &IndexKey)
        requires
            old(self).wf(),
        ensures
            final(self).wf(),
            spec_get(final(self).entries@, *k) is None,
            forall|k2: IndexKey| k2 != *k
                ==> #[trigger] spec_get(final(self).entries@, k2)
                    == spec_get(old(self).entries@, k2),
            final(self).as_map() =~= old(self).as_map().remove(*k),
    {
        let pos = self.position(k);
        let ghost pre = self.entries@;
        if pos < self.entries.len() && self.entries[pos].0.guid.0 == k.guid.0
            && self.entries[pos].0.block.0 == k.block.0 {
            self.entries.remove(pos);
            proof {
                lemma_sorted_remove_at(pre, pos as int);
                lemma_get_after_remove(pre, pos as int, *k);
            }
        } else {
            proof {
                lemma_get_by_position(pre, *k);
                lemma_get_absent(pre, *k);
            }
        }
        proof {
            assert(final(self).as_map() =~= old(self).as_map().remove(*k));
        }
    }

    pub fn len(&self) -> (r: usize)
        ensures
            r == self.entries@.len(),
    {
        self.entries.len()
    }
}

/// One step of replaying the operation log over the pending-change map.
/// `None` marks a log that no correct run can produce: an insert over a
/// live change, or a remove of a removed key.
pub open spec fn spec_replay_step(
    m: Map<IndexKey, PendingChange>,
    op: OperationLogEntry,
) -> Option<Map<IndexKey, PendingChange>> {
    match op {
        OperationLogEntry::Insert(k, v) => {
            if m.contains_key(k) {
                if m[k] is Remove {
                    Some(m.insert(k, PendingChange::RemoveThenInsert(v)))
                } else {
                    None
                }
            } else {
                Some(m.insert(k, PendingChange::Insert(v)))
            }
        },
        OperationLogEntry::Remove(k, _v) => {
            if m.contains_key(k) {
                match m[k] {
                    PendingChange::Insert(_) => Some(m.remove(k)),
                    PendingChange::RemoveThenInsert(_) => Some(
                        m.insert(k, PendingChange::Remove),
                    ),
                    _ => None,
                }
            } else {
                Some(m.insert(k, PendingChange::Remove))
            }
        },
    }
}

/// Replay of a whole operation log, starting from no pending changes.
pub open spec fn spec_replay_pending(ops: Seq<OperationLogEntry>) -> Option<
    Map<IndexKey, PendingChange>,
>
    decreases ops.len(),
{
    if ops.len() == 0 {
        Some(Map::empty())
    } else {
        match spec_replay_pending(ops.drop_last()) {
            None => None,
            Some(m) => spec_replay_step(m, ops.last()),
        }
    }
}

/// Rebuild the pending changes from the operation log read at open.
/// `None` exactly where the log holds a transition no correct run writes.
pub fn load_operation_log(operation_log: &Vec<OperationLogEntry>) -> (r: Option<PendingChangeMap>)
    ensures
        match r {
            Some(pm) => {
                &&& pm.wf()
                &&& spec_replay_pending(operation_log@) == Some(pm.as_map())
            },
            None => spec_replay_pending(operation_log@) is None,
        },
{
    let mut pm = PendingChangeMap::new();
    let mut i: usize = 0;
    proof {
        assert(operation_log@.take(0) =~= Seq::<OperationLogEntry>::empty());
    }
    while i < operation_log.len()
        invariant
            i <= operation_log@.len(),
            pm.wf(),
            spec_replay_pending(operation_log@.take(i as int)) == Some(pm.as_map()),
        decreases operation_log@.len() - i,
    {
        proof {
            assert(operation_log@.take(i + 1).drop_last() =~= operation_log@.take(i as int));
            assert(operation_log@.take(i + 1).last() == operation_log@[i as int]);
        }
        match operation_log[i] {
            OperationLogEntry::Insert(key, value) => {
                match pm.get(&key) {
                    Some(PendingChange::Remove) => {
                        pm.set(key, PendingChange::RemoveThenInsert(value));
                    },
                    Some(_) => {
                        proof {
                            lemma_replay_prefix_none(operation_log@, i as int);
                        }
                        return None;
                    },
                    None => {
                        pm.set(key, PendingChange::Insert(value));
                    },
                }
            },
            OperationLogEntry::Remove(key, _value) => {
                match pm.get(&key) {
                    Some(PendingChange::Insert(_)) => {
                        pm.remove_key(&key);
                    },
                    Some(PendingChange::RemoveThenInsert(_)) => {
                        pm.set(key, PendingChange::Remove);
                    },
                    Some(_) => {
                        proof {
                            lemma_replay_prefix_none(operation_log@, i as int);
                        }
                        return None;
                    },
                    None => {
                        pm.set(key, PendingChange::Remove);
                    },
                }
            },
        }
        i = i + 1;
    }
    proof {
        assert(operation_log@.take(operation_log@.len() as int) =~= operation_log@);
    }
    Some(pm)
}

proof fn lemma_replay_prefix_none(ops: Seq<OperationLogEntry>, i: int)
    requires
        0 <= i < ops.len(),
        spec_replay_pending(ops.take(i + 1)) is None,
    ensures
        spec_replay_pending(ops) is None,
    decreases ops.len() - i,
{
    if i + 1 < ops.len() {
        assert(ops.take(i + 2).drop_last() =~= ops.take(i + 1));
        lemma_replay_prefix_none(ops, i + 1);
    } else {
        assert(ops.take(i + 1) =~= ops);
    }
}

/// The value a key reads as, given the on-disk index and one pending
/// change: the pending change wins; otherwise the index decides.
pub open spec fn effective_value(
    index: Map<IndexKey, IndexValue>,
    pending: Option<PendingChange>,
    k: IndexKey,
) -> Option<IndexValue> {
    match pending {
        Some(PendingChange::Insert(v)) => Some(v),
        Some(PendingChange::RemoveThenInsert(v)) => Some(v),
        Some(PendingChange::UpdateAtime(v)) => Some(v),
        Some(PendingChange::Remove) => None,
        None => if index.contains_key(k) {
            Some(index[k])
        } else {
            None
        },
    }
}

/// One operation applied directly to the effective mapping. `None` where
/// the operation contradicts it: an insert of a live key, or a remove of
/// an absent one.
pub open spec fn spec_apply_step(
    m: Map<IndexKey, IndexValue>,
    pending_view: Map<IndexKey, PendingChange>,
    op: OperationLogEntry,
) -> Option<Map<IndexKey, IndexValue>> {
    match op {
        OperationLogEntry::Insert(k, v) => {
            if m.contains_key(k) {
                None
            } else {
                Some(m.insert(k, v))
            }
        },
        OperationLogEntry::Remove(k, _v) => {
            if m.contains_key(k) {
                Some(m.remove(k))
            } else {
                None
            }
        },
    }
}

/// The operation log applied to the effective mapping that the index
/// alone presents.
pub open spec fn spec_apply_log(
    index: Map<IndexKey, IndexValue>,
    ops: Seq<OperationLogEntry>,
) -> Option<Map<IndexKey, IndexValue>>
    decreases ops.len(),
{
    if ops.len() == 0 {
        Some(index)
    } else {
        match spec_apply_log(index, ops.drop_last()) {
            None => None,
            Some(m) => spec_apply_step(m, Map::empty(), ops.last()),
        }
    }
}

/// A map read as an optional value at one key.
pub open spec fn map_lookup(m: Map<IndexKey, IndexValue>, k: IndexKey) -> Option<IndexValue> {
    if m.contains_key(k) {
        Some(m[k])
    } else {
        None
    }
}

/// A pending-change map read at one key.
pub open spec fn pending_lookup(m: Map<IndexKey, PendingChange>, k: IndexKey) -> Option<
    PendingChange,
> {
    if m.contains_key(k) {
        Some(m[k])
    } else {
        None
    }
}

/// A replayed pending map never holds an atime update: those are not
/// logged.
proof fn lemma_replay_no_update_atime(ops: Seq<OperationLogEntry>)
    requires
        spec_replay_pending(ops) is Some,
    ensures
        forall|k: IndexKey| spec_replay_pending(ops)->Some_0.contains_key(k)
            ==> !((#[trigger] spec_replay_pending(ops)->Some_0[k]) is UpdateAtime),
    decreases ops.len(),
{
    if ops.len() > 0 {
        lemma_replay_no_update_atime(ops.drop_last());
    }
}

/// The effective mapping after a crash equals the log replayed over the
/// index: reconstructing pending changes from the operation log loses
/// nothing. Holds of every log the apply semantics accepts.
pub proof fn lemma_effective_equals_replay(
    index: Map<IndexKey, IndexValue>,
    ops: Seq<OperationLogEntry>,
)
    requires
        spec_apply_log(index, ops) is Some,
    ensures
        spec_replay_pending(ops) is Some,
        forall|k: IndexKey| #[trigger] effective_value(
            index,
            pending_lookup(spec_replay_pending(ops)->Some_0, k),
            k,
        ) == map_lookup(spec_apply_log(index, ops)->Some_0, k),
        forall|k: IndexKey| #[trigger] pending_lookup(spec_replay_pending(ops)->Some_0, k)
            matches Some(pc) && pc is Insert ==> !index.contains_key(k),
    decreases ops.len(),
{
    if ops.len() > 0 {
        lemma_effective_equals_replay(index, ops.drop_last());
        lemma_replay_no_update_atime(ops.drop_last());
        let pm0 = spec_replay_pending(ops.drop_last())->Some_0;
        let eff0 = spec_apply_log(index, ops.drop_last())->Some_0;
        let op = ops.last();
        match op {
            OperationLogEntry::Insert(k, v) => {
                assert(effective_value(index, pending_lookup(pm0, k), k)
                    == map_lookup(eff0, k));
                assert(map_lookup(eff0, k) is None);
                assert(pending_lookup(pm0, k) is Some ==> pm0[k] is Remove);
                let pm1 = spec_replay_step(pm0, op)->Some_0;
                let eff1 = spec_apply_log(index, ops)->Some_0;
                assert(eff1 == eff0.insert(k, v));
                assert forall|k2: IndexKey| #[trigger] effective_value(
                    index,
                    pending_lookup(pm1, k2),
                    k2,
                ) == map_lookup(eff1, k2) by {
                    if k2 != k {
                        assert(pending_lookup(pm1, k2) == pending_lookup(pm0, k2));
                        assert(effective_value(index, pending_lookup(pm0, k2), k2)
                            == map_lookup(eff0, k2));
                    }
                }
                assert forall|k2: IndexKey| #[trigger] pending_lookup(pm1, k2)
                    matches Some(pc) && pc is Insert implies !index.contains_key(k2) by {
                    if k2 != k {
                        assert(pending_lookup(pm1, k2) == pending_lookup(pm0, k2));
                    } else {
                        if pm1[k] is Insert {
                            assert(pending_lookup(pm0, k) is None);
                            assert(effective_value(index, pending_lookup(pm0, k), k) is None);
                        }
                    }
                }
            },
            OperationLogEntry::Remove(k, _v) => {
                assert(effective_value(index, pending_lookup(pm0, k), k)
                    == map_lookup(eff0, k));
                assert(map_lookup(eff0, k) is Some);
                let pm1 = spec_replay_step(pm0, op)->Some_0;
                let eff1 = spec_apply_log(index, ops)->Some_0;
                assert(eff1 == eff0.remove(k));
                assert(spec_replay_step(pm0, op) is Some) by {
                    if pending_lookup(pm0, k) is Some {
                        assert(!(pm0[k] is UpdateAtime));
                        assert(!(pm0[k] is Remove));
                    }
                }
                assert forall|k2: IndexKey| #[trigger] effective_value(
                    index,
                    pending_lookup(pm1, k2),
                    k2,
                ) == map_lookup(eff1, k2) by {
                    if k2 != k {
                        assert(pending_lookup(pm1, k2) == pending_lookup(pm0, k2));
                        assert(effective_value(index, pending_lookup(pm0, k2), k2)
                            == map_lookup(eff0, k2));
                    } else {
                        if pending_lookup(pm0, k) matches Some(pc0) && pc0 is Insert {
                            assert(!index.contains_key(k));
                            assert(pending_lookup(pm1, k) is None);
                        }
                    }
                }
                assert forall|k2: IndexKey| #[trigger] pending_lookup(pm1, k2)
                    matches Some(pc) && pc is Insert implies !index.contains_key(k2) by {
                    if k2 != k {
                        assert(pending_lookup(pm1, k2) == pending_lookup(pm0, k2));
                    }
                }
            },
        }
    }
}

/// Where a sorted entry sequence holds `k` at position `i`, `spec_get`
/// finds exactly that entry.
pub proof fn lemma_get_found_pub(s: Seq<(IndexKey, PendingChange)>, k: IndexKey, i: int)
    requires
        pending_keys_sorted(s),
        0 <= i < s.len(),
        s[i].0 == k,
    ensures
        spec_get(s, k) == Some(s[i].1),
{
    lemma_get_by_position(s, k);
}

/// Where no entry holds `k`, `spec_get` finds nothing.
pub proof fn lemma_get_absent_pub(s: Seq<(IndexKey, PendingChange)>, k: IndexKey)
    requires
        forall|i: int| 0 <= i < s.len() ==> (#[trigger] s[i]).0 != k,
    ensures
        spec_get(s, k) is None,
{
    lemma_get_absent(s, k);
}

/// The key order is total.
pub proof fn lemma_key_order_total_pub(a: IndexKey, b: IndexKey)
    ensures
        a == b || a.spec_lt(b) || b.spec_lt(a),
{
}

proof fn lemma_get_by_position(s: Seq<(IndexKey, PendingChange)>, k: IndexKey)
    requires
        pending_keys_sorted(s),
    ensures
        forall|i: int| 0 <= i < s.len() && (#[trigger] s[i]).0 == k ==> spec_get(s, k) == Some(s[i].1),
    decreases s.len(),
{
    if s.len() > 0 {
        let t = s.skip(1);
        assert(pending_keys_sorted(t)) by {
            assert forall|i: int, j: int| #![trigger t[i], t[j]] 0 <= i < j < t.len()
                implies t[i].0.spec_lt(t[j].0) by {
                assert(s[i + 1].0.spec_lt(s[j + 1].0));
            }
        }
        lemma_get_by_position(t, k);
        assert forall|i: int| 0 <= i < s.len() && (#[trigger] s[i]).0 == k
            implies spec_get(s, k) == Some(s[i].1) by {
            if i > 0 {
                assert(s[0].0.spec_lt(s[i].0));
                assert(t[i - 1] == s[i]);
            }
        }
    }
}

proof fn lemma_get_found(s: Seq<(IndexKey, PendingChange)>, k: IndexKey, i: int)
    requires
        pending_keys_sorted(s),
        0 <= i < s.len(),
        s[i].0 == k,
    ensures
        spec_get(s, k) == Some(s[i].1),
{
    lemma_get_by_position(s, k);
}

proof fn lemma_get_absent(s: Seq<(IndexKey, PendingChange)>, k: IndexKey)
    requires
        forall|i: int| 0 <= i < s.len() ==> (#[trigger] s[i]).0 != k,
    ensures
        spec_get(s, k) is None,
    decreases s.len(),
{
    if s.len() > 0 {
        let t = s.skip(1);
        assert(forall|i: int| 0 <= i < t.len() ==> (#[trigger] t[i]).0 != k);
        lemma_get_absent(t, k);
    }
}

proof fn lemma_sorted_update(s: Seq<(IndexKey, PendingChange)>, i: int, k: IndexKey, pc: PendingChange)
    requires
        pending_keys_sorted(s),
        0 <= i < s.len(),
        s[i].0 == k,
    ensures
        pending_keys_sorted(s.update(i, (k, pc))),
{
    let t = s.update(i, (k, pc));
    assert forall|a: int, b: int| #![trigger t[a], t[b]] 0 <= a < b < t.len()
        implies t[a].0.spec_lt(t[b].0) by {
        assert(s[a].0.spec_lt(s[b].0));
    }
}

proof fn lemma_sorted_insert_at(
    s: Seq<(IndexKey, PendingChange)>,
    pos: int,
    k: IndexKey,
    pc: PendingChange,
)
    requires
        pending_keys_sorted(s),
        0 <= pos <= s.len(),
        forall|i: int| 0 <= i < pos ==> (#[trigger] s[i]).0.spec_lt(k),
        forall|i: int| pos <= i < s.len() ==> !(#[trigger] s[i]).0.spec_lt(k),
        forall|i: int| pos <= i < s.len() ==> (#[trigger] s[i]).0 != k,
    ensures
        pending_keys_sorted(s.insert(pos, (k, pc))),
{
    let t = s.insert(pos, (k, pc));
    assert forall|a: int, b: int| #![trigger t[a], t[b]] 0 <= a < b < t.len()
        implies t[a].0.spec_lt(t[b].0) by {
        let a0 = if a < pos { a } else { a - 1 };
        let b0 = if b < pos { b } else { b - 1 };
        if a == pos {
            assert(t[b] == s[b - 1]);
            lemma_key_order_total(k, s[b - 1].0);
        } else if b == pos {
            assert(t[a] == s[a]);
        } else {
            assert(t[a] == s[a0]);
            assert(t[b] == s[b0]);
            if a < pos && b > pos {
                if a0 < b0 {
                } else {
                    assert(a0 == b0);
                    assert(s[a0].0.spec_lt(k) && !s[b0].0.spec_lt(k));
                }
            }
        }
    }
}

proof fn lemma_sorted_remove_at(s: Seq<(IndexKey, PendingChange)>, pos: int)
    requires
        pending_keys_sorted(s),
        0 <= pos < s.len(),
    ensures
        pending_keys_sorted(s.remove(pos)),
{
    let t = s.remove(pos);
    assert forall|a: int, b: int| #![trigger t[a], t[b]] 0 <= a < b < t.len()
        implies t[a].0.spec_lt(t[b].0) by {
        let a0 = if a < pos { a } else { a + 1 };
        let b0 = if b < pos { b } else { b + 1 };
        assert(t[a] == s[a0]);
        assert(t[b] == s[b0]);
    }
}

/// Two keys are equal, or one is below the other.
proof fn lemma_key_order_total(a: IndexKey, b: IndexKey)
    ensures
        a == b || a.spec_lt(b) || b.spec_lt(a),
{
}

proof fn lemma_get_after_update(
    s: Seq<(IndexKey, PendingChange)>,
    i: int,
    k: IndexKey,
    pc: PendingChange,
)
    requires
        pending_keys_sorted(s),
        0 <= i < s.len(),
        s[i].0 == k,
    ensures
        spec_get(s.update(i, (k, pc)), k) == Some(pc),
        forall|k2: IndexKey| k2 != k
            ==> #[trigger] spec_get(s.update(i, (k, pc)), k2) == spec_get(s, k2),
    decreases s.len(),
{
    let t = s.update(i, (k, pc));
    lemma_sorted_update(s, i, k, pc);
    lemma_get_found(t, k, i);
    assert forall|k2: IndexKey| k2 != k
        implies #[trigger] spec_get(t, k2) == spec_get(s, k2) by {
        lemma_get_other(s, t, k2);
    }
}

/// Two sequences whose entries agree except at keys equal to some set
/// still agree on `spec_get` at any key where the entries line up.
proof fn lemma_get_other(
    s: Seq<(IndexKey, PendingChange)>,
    t: Seq<(IndexKey, PendingChange)>,
    k2: IndexKey,
)
    requires
        s.len() == t.len(),
        forall|i: int| 0 <= i < s.len() && (#[trigger] s[i]).0 == k2 ==> t[i] == s[i],
        forall|i: int| 0 <= i < s.len() && (#[trigger] t[i]).0 == k2 ==> t[i] == s[i],
    ensures
        spec_get(t, k2) == spec_get(s, k2),
    decreases s.len(),
{
    if s.len() > 0 {
        if s[0].0 == k2 || t[0].0 == k2 {
            assert(t[0] == s[0]);
        } else {
            assert(forall|i: int| 0 <= i < s.skip(1).len() && (#[trigger] s.skip(1)[i]).0 == k2
                ==> t.skip(1)[i] == s.skip(1)[i]);
            assert(forall|i: int| 0 <= i < s.skip(1).len() && (#[trigger] t.skip(1)[i]).0 == k2
                ==> t.skip(1)[i] == s.skip(1)[i]);
            lemma_get_other(s.skip(1), t.skip(1), k2);
        }
    }
}

proof fn lemma_get_after_insert(
    s: Seq<(IndexKey, PendingChange)>,
    pos: int,
    k: IndexKey,
    pc: PendingChange,
)
    requires
        pending_keys_sorted(s),
        0 <= pos <= s.len(),
        forall|i: int| 0 <= i < pos ==> (#[trigger] s[i]).0.spec_lt(k),
        forall|i: int| pos <= i < s.len() ==> !(#[trigger] s[i]).0.spec_lt(k),
        forall|i: int| 0 <= i < s.len() ==> (#[trigger] s[i]).0 != k,
    ensures
        spec_get(s.insert(pos, (k, pc)), k) == Some(pc),
        forall|k2: IndexKey| k2 != k
            ==> #[trigger] spec_get(s.insert(pos, (k, pc)), k2) == spec_get(s, k2),
    decreases s.len(), pos,
{
    let t = s.insert(pos, (k, pc));
    if pos == 0 {
        assert(t[0] == (k, pc));
        assert(t.skip(1) =~= s);
        assert forall|k2: IndexKey| k2 != k
            implies #[trigger] spec_get(t, k2) == spec_get(s, k2) by {
            assert(t[0].0 == k);
            assert(spec_get(t, k2) == spec_get(t.skip(1), k2));
        }
    } else {
        assert(t[0] == s[0]);
        assert(t.skip(1) =~= s.skip(1).insert(pos - 1, (k, pc)));
        let s1 = s.skip(1);
        assert(pending_keys_sorted(s1)) by {
            assert forall|i: int, j: int| #![trigger s1[i], s1[j]] 0 <= i < j < s1.len()
                implies s1[i].0.spec_lt(s1[j].0) by {
                assert(s[i + 1].0.spec_lt(s[j + 1].0));
            }
        }
        assert(forall|i: int| 0 <= i < pos - 1 ==> (#[trigger] s1[i]).0.spec_lt(k));
        assert(forall|i: int| pos - 1 <= i < s1.len() ==> !(#[trigger] s1[i]).0.spec_lt(k));
        assert(forall|i: int| 0 <= i < s1.len() ==> (#[trigger] s1[i]).0 != k);
        lemma_get_after_insert(s1, pos - 1, k, pc);
        assert(s[0].0.spec_lt(k));
        assert(s[0].0 != k);
        assert(spec_get(t, k) == spec_get(t.skip(1), k));
        assert forall|k2: IndexKey| k2 != k
            implies #[trigger] spec_get(t, k2) == spec_get(s, k2) by {
            if t[0].0 == k2 {
                assert(spec_get(t, k2) == Some(t[0].1));
                assert(spec_get(s, k2) == Some(s[0].1));
            } else {
                assert(spec_get(t, k2) == spec_get(t.skip(1), k2));
                assert(spec_get(s, k2) == spec_get(s.skip(1), k2));
            }
        }
    }
}

proof fn lemma_get_after_remove(s: Seq<(IndexKey, PendingChange)>, pos: int, k: IndexKey)
    requires
        pending_keys_sorted(s),
        0 <= pos < s.len(),
        s[pos].0 == k,
    ensures
        spec_get(s.remove(pos), k) is None,
        forall|k2: IndexKey| k2 != k
            ==> #[trigger] spec_get(s.remove(pos), k2) == spec_get(s, k2),
    decreases s.len(), pos,
{
    let t = s.remove(pos);
    lemma_sorted_remove_at(s, pos);
    if pos == 0 {
        assert(t =~= s.skip(1));
        assert forall|i: int| 0 <= i < t.len() implies (#[trigger] t[i]).0 != k by {
            assert(s[0].0.spec_lt(s[i + 1].0));
        }
        lemma_get_absent(t, k);
        assert forall|k2: IndexKey| k2 != k
            implies #[trigger] spec_get(t, k2) == spec_get(s, k2) by {
            assert(s[0].0 == k);
            assert(spec_get(s, k2) == spec_get(s.skip(1), k2));
        }
    } else {
        assert(t[0] == s[0]);
        assert(t.skip(1) =~= s.skip(1).remove(pos - 1));
        let s1 = s.skip(1);
        assert(pending_keys_sorted(s1)) by {
            assert forall|i: int, j: int| #![trigger s1[i], s1[j]] 0 <= i < j < s1.len()
                implies s1[i].0.spec_lt(s1[j].0) by {
                assert(s[i + 1].0.spec_lt(s[j + 1].0));
            }
        }
        assert(s1[pos - 1].0 == k);
        lemma_get_after_remove(s1, pos - 1, k);
        assert(s[0].0.spec_lt(k));
        assert(s[0].0 != k);
        assert(spec_get(t, k) == spec_get(t.skip(1), k));
        assert forall|k2: IndexKey| k2 != k
            implies #[trigger] spec_get(t, k2) == spec_get(s, k2) by {
            if t[0].0 == k2 {
                assert(spec_get(t, k2) == Some(t[0].1));
                assert(spec_get(s, k2) == Some(s[0].1));
            } else {
                assert(spec_get(t, k2) == spec_get(t.skip(1), k2));
                assert(spec_get(s, k2) == spec_get(s.skip(1), k2));
            }
        }
    }
}

} // verus!
