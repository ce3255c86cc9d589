//! The cache's runtime state machine: the lookup decision over pending
//! changes, merging state and the index, and the per-key transitions
//! that inserts, removals and atime promotions make. Device I/O stays
//! with the caller; every transition here is on plain values.

use vstd::prelude::*;
use crate::base::Atime;
use crate::base::IndexKey;
use crate::base::IndexValue;
use crate::histogram::AtimeHistogramPhys;
use crate::histogram::bucket_sum;
use crate::pending::OperationLogEntry;
use crate::pending::PendingChange;
use crate::pending::PendingChangeMap;
use crate::pending::spec_get;

verus! {

/// The value a pending change presents, if any: a removal reads as
/// absent, everything else as its value.
pub open spec fn spec_pc_value(pc: PendingChange) -> Option<IndexValue> {
    match pc {
        PendingChange::Insert(v) => Some(v),
        PendingChange::RemoveThenInsert(v) => Some(v),
        PendingChange::UpdateAtime(v) => Some(v),
        PendingChange::Remove => None,
    }
}

/// What a lookup decides, before any device read: the current pending
/// changes win; during a merge the snapshotted old pending changes and
/// the index answer only above the eviction cutoff.
pub open spec fn spec_lookup_value(
    pending: Seq<(IndexKey, PendingChange)>,
    old_pending: Option<Seq<(IndexKey, PendingChange)>>,
    eviction_cutoff: Option<Atime>,
    index_value: Option<IndexValue>,
    key: IndexKey,
) -> Option<IndexValue> {
    match spec_get(pending, key) {
        Some(pc) => spec_pc_value(pc),
        None => {
            let fallthrough = match old_pending {
                Some(op) => match spec_get(op, key) {
                    Some(pc) => spec_pc_value(pc),
                    None => index_value,
                },
                None => index_value,
            };
            match fallthrough {
                Some(v) => match eviction_cutoff {
                    Some(cutoff) => if v.atime.0 >= cutoff.0 {
                        Some(v)
                    } else {
                        None
                    },
                    None => Some(v),
                },
                None => None,
            }
        },
    }
}

/// The lookup decision: consult the current pending changes, then (while
/// a merge runs) the snapshotted old pending changes under the eviction
/// cutoff, then the index value under the cutoff.
pub fn lookup_value(
    pending: &PendingChangeMap,
    old_pending: Option<&PendingChangeMap>,
    eviction_cutoff: Option<Atime>,
    index_value: Option<IndexValue>,
    key: IndexKey,
) -> (r: Option<IndexValue>)
    requires
        pending.wf(),
        old_pending matches Some(op) ==> op.wf(),
    ensures
        r == spec_lookup_value(
            pending.entries@,
            match old_pending {
                Some(op) => Some(op.entries@),
                None => None,
            },
            eviction_cutoff,
            index_value,
            key,
        ),
{
    if let Some(pc) = pending.get(&key) {
        return match pc {
            PendingChange::Insert(v) => Some(v),
            PendingChange::RemoveThenInsert(v) => Some(v),
            PendingChange::UpdateAtime(v) => Some(v),
            PendingChange::Remove => None,
        };
    }
    let fallthrough = match old_pending {
        Some(op) => match op.get(&key) {
            Some(PendingChange::Insert(v)) => Some(v),
            Some(PendingChange::RemoveThenInsert(v)) => Some(v),
            Some(PendingChange::UpdateAtime(v)) => Some(v),
            Some(PendingChange::Remove) => None,
            None => index_value,
        },
        None => index_value,
    };
    match fallthrough {
        Some(v) => match eviction_cutoff {
            Some(cutoff) => if v.atime.0 >= cutoff.0 {
                Some(v)
            } else {
                None
            },
            None => Some(v),
        },
        None => None,
    }
}

/// Whether a merge is due: enough pending changes, or the live bytes
/// reached the high-water mark.
pub fn merge_due(pending_len: usize, max_pending: usize, hist_sum: u64, high_water: u64) -> (r:
    bool)
    ensures
        r == (pending_len >= max_pending || hist_sum >= high_water),
{
    pending_len >= max_pending || hist_sum >= high_water
}

/// The mutable cache state the transitions touch: the pending changes,
/// the not-yet-flushed operation log records, the histogram of live
/// bytes, and the atime clock.
#[derive(Debug)]
pub struct ZettaCacheState {
    pub pending_changes: PendingChangeMap,
    pub operation_log: Vec<OperationLogEntry>,
    pub atime_histogram: AtimeHistogramPhys,
    pub atime: Atime,
}

impl ZettaCacheState {
    pub open spec fn wf(&self) -> bool {
        self.pending_changes.wf()
    }

    pub fn new(first: Atime) -> (r: ZettaCacheState)
        ensures
            r.wf(),
            r.pending_changes.entries@.len() == 0,
            r.operation_log@.len() == 0,
            r.atime == first,
            r.atime_histogram.wf(),
            bucket_sum(r.atime_histogram.buckets()) == 0,
    {
        ZettaCacheState {
            pending_changes: PendingChangeMap::new(),
            operation_log: Vec::new(),
            atime_histogram: AtimeHistogramPhys::new(first),
            atime: first,
        }
    }

    /// Remove a key from the cache: cancel a pending insert outright,
    /// downgrade a re-insert or atime update to a removal, or record a
    /// fresh removal of an index entry; and log it. A key already
    /// pending removal has nothing left to remove.
    pub fn remove_from_index(&mut self, key: IndexKey, value: IndexValue)
        requires
            old(self).wf(),
            spec_get(old(self).pending_changes.entries@, key) != Some(PendingChange::Remove),
            // the histogram counts this live value
            old(self).atime_histogram.wf(),
            value.atime.0 >= old(self).atime_histogram.spec_first().0,
            value.atime.0 - old(self).atime_histogram.spec_first().0
                < old(self).atime_histogram.buckets().len(),
            value.atime.0 - old(self).atime_histogram.spec_first().0 < usize::MAX,
            old(self).atime_histogram.buckets()[
                value.atime.0 - old(self).atime_histogram.spec_first().0
            ] >= value.size,
        ensures
            final(self).wf(),
            // the key now reads as absent from the pending changes
            spec_get(final(self).pending_changes.entries@, key) == match spec_get(
                old(self).pending_changes.entries@,
                key,
            ) {
                Some(PendingChange::Insert(_)) => None::<PendingChange>,
                _ => Some(PendingChange::Remove),
            },
            forall|k2: IndexKey| k2 != key
                ==> #[trigger] spec_get(final(self).pending_changes.entries@, k2)
                    == spec_get(old(self).pending_changes.entries@, k2),
            final(self).operation_log@
                == old(self).operation_log@.push(OperationLogEntry::Remove(key, value)),
            final(self).atime_histogram.wf(),
            bucket_sum(final(self).atime_histogram.buckets())
                == bucket_sum(old(self).atime_histogram.buckets()) - value.size,
            final(self).atime == old(self).atime,
    {
        match self.pending_changes.get(&key) {
            Some(PendingChange::Insert(_)) => {
                // the log holds an insert for a key absent from the
                // index: nothing will be found once it is dropped
                self.pending_changes.remove_key(&key);
            },
            Some(PendingChange::RemoveThenInsert(_)) => {
                self.pending_changes.set(key, PendingChange::Remove);
            },
            Some(PendingChange::UpdateAtime(_)) => {
                self.pending_changes.set(key, PendingChange::Remove);
            },
            Some(PendingChange::Remove) => {
                proof {
                    assert(false);
                }
            },
            None => {
                self.pending_changes.set(key, PendingChange::Remove);
            },
        }
        self.atime_histogram.remove(value);
        self.operation_log.push(OperationLogEntry::Remove(key, value));
    }

    /// Record an insertion: a fresh key becomes a pending insert, a key
    /// pending removal becomes a remove-then-insert; and log it.
    pub fn insert_to_index(&mut self, key: IndexKey, value: IndexValue)
        requires
            old(self).wf(),
            match spec_get(old(self).pending_changes.entries@, key) {
                Some(pc) => pc is Remove,
                None => true,
            },
            old(self).atime_histogram.wf(),
            value.atime.0 >= old(self).atime_histogram.spec_first().0,
            value.atime.0 < u64::MAX,
            value.atime.0 - old(self).atime_histogram.spec_first().0 < usize::MAX,
            bucket_sum(old(self).atime_histogram.buckets()) + value.size <= u64::MAX,
        ensures
            final(self).wf(),
            spec_get(final(self).pending_changes.entries@, key) == Some(
                match spec_get(old(self).pending_changes.entries@, key) {
                    Some(_) => PendingChange::RemoveThenInsert(value),
                    None => PendingChange::Insert(value),
                },
            ),
            forall|k2: IndexKey| k2 != key
                ==> #[trigger] spec_get(final(self).pending_changes.entries@, k2)
                    == spec_get(old(self).pending_changes.entries@, k2),
            final(self).operation_log@
                == old(self).operation_log@.push(OperationLogEntry::Insert(key, value)),
            final(self).atime_histogram.wf(),
            bucket_sum(final(self).atime_histogram.buckets())
                == bucket_sum(old(self).atime_histogram.buckets()) + value.size,
            final(self).atime == old(self).atime,
    {
        match self.pending_changes.get(&key) {
            Some(PendingChange::Remove) => {
                self.pending_changes.set(key, PendingChange::RemoveThenInsert(value));
            },
            Some(_) => {
                proof {
                    assert(false);
                }
            },
            None => {
                self.pending_changes.set(key, PendingChange::Insert(value));
            },
        }
        self.atime_histogram.insert(value);
        self.operation_log.push(OperationLogEntry::Insert(key, value));
    }

    /// The metadata region grows downward over old data: a value whose
    /// location fell below the metadata boundary was overwritten. Such a
    /// lookup is a hard miss, and the entry is removed on the spot.
    /// The boundary to pass is the metadata region's end — the extent
    /// allocator's last valid offset — not its start: everything below
    /// it belongs to metadata now.
    pub fn hard_miss_if_overwritten(
        &mut self,
        key: IndexKey,
        value: IndexValue,
        last_valid_offset: u64,
    ) -> (r: bool)
        requires
            old(self).wf(),
            spec_get(old(self).pending_changes.entries@, key) != Some(PendingChange::Remove),
            old(self).atime_histogram.wf(),
            value.atime.0 >= old(self).atime_histogram.spec_first().0,
            value.atime.0 - old(self).atime_histogram.spec_first().0
                < old(self).atime_histogram.buckets().len(),
            value.atime.0 - old(self).atime_histogram.spec_first().0 < usize::MAX,
            old(self).atime_histogram.buckets()[
                value.atime.0 - old(self).atime_histogram.spec_first().0
            ] >= value.size,
        ensures
            final(self).wf(),
            r == (value.location.offset < last_valid_offset),
            !r ==> *final(self) == *old(self),
            r ==> {
                &&& spec_get(final(self).pending_changes.entries@, key) == match spec_get(
                    old(self).pending_changes.entries@,
                    key,
                ) {
                    Some(PendingChange::Insert(_)) => None::<PendingChange>,
                    _ => Some(PendingChange::Remove),
                }
                &&& final(self).operation_log@
                    == old(self).operation_log@.push(OperationLogEntry::Remove(key, value))
            },
    {
        if value.location.offset < last_valid_offset {
            self.remove_from_index(key, value);
            true
        } else {
            false
        }
    }

    /// A cache hit promotes the entry to the current atime: the
    /// histogram moves its bytes, and the pending change keeps its kind
    /// with the promoted value; a key only in the index gains an atime
    /// update. Not logged: atime updates are reconstructible.
    pub fn promote_atime(&mut self, key: IndexKey, value: IndexValue) -> (r: IndexValue)
        requires
            old(self).wf(),
            spec_get(old(self).pending_changes.entries@, key)
                != Some(PendingChange::Remove),
            match spec_get(old(self).pending_changes.entries@, key) {
                Some(pc) => spec_pc_value(pc) == Some(value),
                None => true,
            },
            old(self).atime_histogram.wf(),
            value.atime.0 >= old(self).atime_histogram.spec_first().0,
            old(self).atime.0 >= old(self).atime_histogram.spec_first().0,
            old(self).atime.0 < u64::MAX,
            value.atime.0 - old(self).atime_histogram.spec_first().0
                < old(self).atime_histogram.buckets().len(),
            value.atime.0 - old(self).atime_histogram.spec_first().0 < usize::MAX,
            old(self).atime.0 - old(self).atime_histogram.spec_first().0 < usize::MAX,
            old(self).atime_histogram.buckets()[
                value.atime.0 - old(self).atime_histogram.spec_first().0
            ] >= value.size,
            bucket_sum(old(self).atime_histogram.buckets()) <= u64::MAX - value.size,
        ensures
            final(self).wf(),
            r == (IndexValue { atime: old(self).atime, ..value }),
            value.atime == old(self).atime ==> *final(self) == *old(self),
            value.atime != old(self).atime ==> {
                &&& spec_get(final(self).pending_changes.entries@, key) == Some(
                    match spec_get(old(self).pending_changes.entries@, key) {
                        Some(PendingChange::Insert(_)) => PendingChange::Insert(r),
                        Some(PendingChange::RemoveThenInsert(_)) =>
                            PendingChange::RemoveThenInsert(r),
                        _ => PendingChange::UpdateAtime(r),
                    },
                )
                &&& forall|k2: IndexKey| k2 != key
                    ==> #[trigger] spec_get(final(self).pending_changes.entries@, k2)
                        == spec_get(old(self).pending_changes.entries@, k2)
                &&& bucket_sum(final(self).atime_histogram.buckets())
                    == bucket_sum(old(self).atime_histogram.buckets())
                &&& final(self).operation_log@ == old(self).operation_log@
            },
            final(self).atime == old(self).atime,
            final(self).atime_histogram.wf(),
    {
        if value.atime.0 == self.atime.0 {
            return value;
        }
        let promoted = IndexValue { location: value.location, size: value.size, atime: self.atime };
        self.atime_histogram.remove(value);
        self.atime_histogram.insert(promoted);
        match self.pending_changes.get(&key) {
            Some(PendingChange::Insert(_)) => {
                self.pending_changes.set(key, PendingChange::Insert(promoted));
            },
            Some(PendingChange::RemoveThenInsert(_)) => {
                self.pending_changes.set(key, PendingChange::RemoveThenInsert(promoted));
            },
            Some(PendingChange::UpdateAtime(_)) => {
                self.pending_changes.set(key, PendingChange::UpdateAtime(promoted));
            },
            Some(PendingChange::Remove) => {
                proof {
                    assert(false);
                }
            },
            None => {
                self.pending_changes.set(key, PendingChange::UpdateAtime(promoted));
            },
        }
        promoted
    }
}

} // verus!
