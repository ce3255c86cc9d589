//! The cache state machine: the lookup decision cascade and the per-key
//! transitions, checked against the operation log they emit.

use zettacore::base::Atime;
use zettacore::base::BlockId;
use zettacore::base::DiskLocation;
use zettacore::base::IndexKey;
use zettacore::base::IndexValue;
use zettacore::base::PoolGuid;
use zettacore::cache::lookup_value;
use zettacore::cache::ZettaCacheState;
use zettacore::pending::load_operation_log;
use zettacore::pending::PendingChange;
use zettacore::pending::PendingChangeMap;

fn key(block: u64) -> IndexKey {
    IndexKey { guid: PoolGuid(1), block: BlockId(block) }
}

fn value(offset: u64, size: u32, atime: u64) -> IndexValue {
    IndexValue { location: DiskLocation { offset }, size, atime: Atime(atime) }
}

#[test]
fn lookup_prefers_pending_then_old_then_index() {
    let mut pending = PendingChangeMap::new();
    pending.set(key(1), PendingChange::Insert(value(0, 512, 50)));
    pending.set(key(2), PendingChange::Remove);
    let mut old_pending = PendingChangeMap::new();
    old_pending.set(key(3), PendingChange::Insert(value(512, 512, 10)));
    old_pending.set(key(4), PendingChange::Insert(value(1024, 512, 60)));

    let cutoff = Some(Atime(40));
    // current pending wins, cutoff does not apply to it
    assert_eq!(
        lookup_value(&pending, Some(&old_pending), cutoff, None, key(1)),
        Some(value(0, 512, 50))
    );
    assert_eq!(lookup_value(&pending, Some(&old_pending), cutoff, None, key(2)), None);
    // the merge snapshot answers under the cutoff: atime 10 reads absent
    assert_eq!(lookup_value(&pending, Some(&old_pending), cutoff, None, key(3)), None);
    assert_eq!(
        lookup_value(&pending, Some(&old_pending), cutoff, None, key(4)),
        Some(value(1024, 512, 60))
    );
    // the index answers last, under the cutoff too
    assert_eq!(
        lookup_value(&pending, Some(&old_pending), cutoff, Some(value(2048, 512, 45)), key(5)),
        Some(value(2048, 512, 45))
    );
    assert_eq!(
        lookup_value(&pending, Some(&old_pending), cutoff, Some(value(2048, 512, 30)), key(5)),
        None
    );
    // without a merge there is no cutoff
    assert_eq!(
        lookup_value(&pending, None, None, Some(value(2048, 512, 30)), key(5)),
        Some(value(2048, 512, 30))
    );
}

#[test]
fn transitions_emit_a_replayable_log() {
    let mut state = ZettaCacheState::new(Atime(0));
    let v1 = value(0, 512, 1);
    let v2 = value(512, 256, 2);
    state.insert_to_index(key(1), v1);
    state.insert_to_index(key(2), v2);
    // key 2 is evicted again; key 3 was only ever in the index, its
    // bytes counted when the histogram was built from the index
    state.remove_from_index(key(2), v2);
    let v3 = value(1024, 128, 1);
    state.atime_histogram.insert(v3);
    state.remove_from_index(key(3), v3);

    assert_eq!(state.pending_changes.get(&key(1)), Some(PendingChange::Insert(v1)));
    assert_eq!(state.pending_changes.get(&key(2)), None);
    assert_eq!(state.pending_changes.get(&key(3)), Some(PendingChange::Remove));
    assert_eq!(state.atime_histogram.sum(), 512);

    // replaying the log this state wrote reproduces the pending changes
    let replayed = load_operation_log(&state.operation_log).unwrap();
    assert_eq!(replayed.get(&key(1)), Some(PendingChange::Insert(v1)));
    assert_eq!(replayed.get(&key(2)), None);
    assert_eq!(replayed.get(&key(3)), Some(PendingChange::Remove));
}

#[test]
fn metadata_overwrite_is_a_hard_miss() {
    let mut state = ZettaCacheState::new(Atime(0));
    let v = value(100, 512, 1);
    state.insert_to_index(key(1), v);
    // the metadata region has grown past offset 100: hard miss, removed
    assert!(state.hard_miss_if_overwritten(key(1), v, 4096));
    assert_eq!(state.pending_changes.get(&key(1)), None);
    // a value past the boundary stays
    let w = value(8192, 128, 1);
    state.insert_to_index(key(2), w);
    assert!(!state.hard_miss_if_overwritten(key(2), w, 4096));
    assert_eq!(state.pending_changes.get(&key(2)), Some(PendingChange::Insert(w)));
}

#[test]
fn merge_trigger_thresholds() {
    assert!(zettacore::cache::merge_due(50_000, 50_000, 0, 1_000));
    assert!(zettacore::cache::merge_due(0, 50_000, 1_000, 1_000));
    assert!(!zettacore::cache::merge_due(49_999, 50_000, 999, 1_000));
}

#[test]
fn atime_promotion_moves_histogram_bytes() {
    let mut state = ZettaCacheState::new(Atime(0));
    let v = value(0, 512, 1);
    state.insert_to_index(key(1), v);
    state.atime = Atime(9);
    let promoted = state.promote_atime(key(1), v);
    assert_eq!(promoted.atime.0, 9);
    assert_eq!(
        state.pending_changes.get(&key(1)),
        Some(PendingChange::Insert(promoted))
    );
    assert_eq!(state.atime_histogram.sum(), 512);
    // a key known only to the index gains an atime update
    let w = value(2048, 128, 3);
    state.atime_histogram.insert(w);
    let promoted2 = state.promote_atime(key(7), w);
    assert_eq!(
        state.pending_changes.get(&key(7)),
        Some(PendingChange::UpdateAtime(promoted2))
    );
    // the promotion is not logged: only inserts and removes are durable
    assert_eq!(state.operation_log.len(), 1);
}
