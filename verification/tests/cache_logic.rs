//! The cache's pending-change machinery: operation-log replay, the index
//! merge with eviction, and the atime histogram.

use zettacore::base::Atime;
use zettacore::base::BlockId;
use zettacore::base::DiskLocation;
use zettacore::base::IndexEntry;
use zettacore::base::IndexKey;
use zettacore::base::IndexValue;
use zettacore::histogram::AtimeHistogramPhys;
use zettacore::merge::merge_index;
use zettacore::pending::load_operation_log;
use zettacore::pending::OperationLogEntry;
use zettacore::pending::PendingChange;
use zettacore::pending::PendingChangeMap;

fn key(guid: u64, block: u64) -> IndexKey {
    IndexKey { guid: zettacore::base::PoolGuid(guid), block: BlockId(block) }
}

fn value(offset: u64, size: u32, atime: u64) -> IndexValue {
    IndexValue { location: DiskLocation { offset }, size, atime: Atime(atime) }
}

#[test]
fn replay_builds_pending_states() {
    let k1 = key(1, 10);
    let k2 = key(1, 20);
    let k3 = key(1, 30);
    let log = vec![
        // k1: insert only
        OperationLogEntry::Insert(k1, value(0, 512, 5)),
        // k2: remove of an index entry, then re-insert
        OperationLogEntry::Remove(k2, value(100, 512, 1)),
        OperationLogEntry::Insert(k2, value(200, 512, 6)),
        // k3: insert then remove cancels out
        OperationLogEntry::Insert(k3, value(300, 512, 2)),
        OperationLogEntry::Remove(k3, value(300, 512, 2)),
    ];
    let pm = load_operation_log(&log).unwrap();
    assert_eq!(pm.get(&k1), Some(PendingChange::Insert(value(0, 512, 5))));
    assert_eq!(
        pm.get(&k2),
        Some(PendingChange::RemoveThenInsert(value(200, 512, 6)))
    );
    assert_eq!(pm.get(&k3), None);
}

#[test]
fn replay_rejects_double_insert() {
    let k1 = key(1, 10);
    let log = vec![
        OperationLogEntry::Insert(k1, value(0, 512, 5)),
        OperationLogEntry::Insert(k1, value(64, 512, 6)),
    ];
    assert!(load_operation_log(&log).is_none());
}

#[test]
fn replay_rejects_double_remove() {
    let k1 = key(1, 10);
    let log = vec![
        OperationLogEntry::Remove(k1, value(0, 512, 5)),
        OperationLogEntry::Remove(k1, value(0, 512, 5)),
    ];
    assert!(load_operation_log(&log).is_none());
}

#[test]
fn merge_folds_pending_changes_with_eviction() {
    // index holds four keys at atimes 10, 35, 50, 90
    let index = vec![
        IndexEntry { key: key(1, 1), value: value(0, 512, 10) },
        IndexEntry { key: key(1, 2), value: value(512, 512, 35) },
        IndexEntry { key: key(1, 3), value: value(1024, 512, 50) },
        IndexEntry { key: key(1, 4), value: value(1536, 512, 90) },
    ];
    let mut pending = PendingChangeMap::new();
    // a new insert below the cutoff: evicted straight away
    pending.set(key(1, 0), PendingChange::Insert(value(4096, 512, 12)));
    // key 2 was touched recently: survives with the new atime
    pending.set(key(1, 2), PendingChange::UpdateAtime(value(512, 512, 95)));
    // key 3 removed
    pending.set(key(1, 3), PendingChange::Remove);

    let (new_index, free_list) = merge_index(&index, &pending, Atime(40));

    let keys: Vec<u64> = new_index.iter().map(|e| e.key.block.0).collect();
    // key 0 evicted (atime 12 < 40), key 1 evicted (10 < 40), key 2 kept
    // with atime 95, key 3 removed, key 4 kept
    assert_eq!(keys, vec![2, 4]);
    assert_eq!(new_index[0].value.atime.0, 95);
    assert_eq!(new_index[1].value.atime.0, 90);
    // the evicted values' extents are handed back for freeing
    assert_eq!(free_list.len(), 2);
    assert!(free_list.contains(&value(4096, 512, 12)));
    assert!(free_list.contains(&value(0, 512, 10)));
}

#[test]
fn merge_without_cutoff_keeps_everything() {
    let index = vec![
        IndexEntry { key: key(1, 1), value: value(0, 512, 10) },
    ];
    let mut pending = PendingChangeMap::new();
    pending.set(key(1, 5), PendingChange::Insert(value(512, 256, 20)));
    let (new_index, free_list) = merge_index(&index, &pending, Atime(0));
    assert_eq!(new_index.len(), 2);
    assert_eq!(new_index[0].key.block.0, 1);
    assert_eq!(new_index[1].key.block.0, 5);
    assert_eq!(free_list.len(), 0);
}

#[test]
fn index_lookup_finds_exact_keys() {
    let index = vec![
        IndexEntry { key: key(1, 1), value: value(0, 512, 10) },
        IndexEntry { key: key(1, 5), value: value(512, 512, 20) },
        IndexEntry { key: key(2, 0), value: value(1024, 512, 30) },
    ];
    assert_eq!(
        zettacore::merge::index_lookup(&index, key(1, 5)),
        Some(value(512, 512, 20))
    );
    assert_eq!(
        zettacore::merge::index_lookup(&index, key(2, 0)),
        Some(value(1024, 512, 30))
    );
    assert_eq!(zettacore::merge::index_lookup(&index, key(1, 2)), None);
    assert_eq!(zettacore::merge::index_lookup(&index, key(3, 1)), None);
}

#[test]
fn summary_lookup_matches_the_flat_index() {
    let log = zettacore::block_based_log::BlockBasedLogWithSummary {
        chunks: vec![
            vec![
                IndexEntry { key: key(1, 1), value: value(0, 512, 10) },
                IndexEntry { key: key(1, 4), value: value(512, 512, 11) },
            ],
            vec![
                IndexEntry { key: key(1, 9), value: value(1024, 512, 12) },
                IndexEntry { key: key(2, 0), value: value(1536, 512, 13) },
            ],
        ],
        summary: vec![key(1, 1), key(1, 9)],
    };
    assert_eq!(log.lookup_by_key(key(1, 1)), Some(value(0, 512, 10)));
    assert_eq!(log.lookup_by_key(key(1, 4)), Some(value(512, 512, 11)));
    assert_eq!(log.lookup_by_key(key(1, 9)), Some(value(1024, 512, 12)));
    assert_eq!(log.lookup_by_key(key(2, 0)), Some(value(1536, 512, 13)));
    // below the first chunk, in a gap, and past the end
    assert_eq!(log.lookup_by_key(key(1, 0)), None);
    assert_eq!(log.lookup_by_key(key(1, 5)), None);
    assert_eq!(log.lookup_by_key(key(3, 0)), None);
}

#[test]
fn histogram_tracks_bytes_per_atime() {
    let mut h = AtimeHistogramPhys::new(Atime(0));
    h.insert(value(0, 100, 3));
    h.insert(value(0, 50, 3));
    h.insert(value(0, 200, 7));
    assert_eq!(h.sum(), 350);
    h.remove(value(0, 50, 3));
    assert_eq!(h.sum(), 300);
    // the smallest atime whose suffix covers 200 bytes is 7; covering
    // 250 requires dipping into atime 3
    assert_eq!(h.atime_for_target_size(200).0, 7);
    assert_eq!(h.atime_for_target_size(201).0, 3);
    // more than everything: the start of the histogram
    assert_eq!(h.atime_for_target_size(1000).0, 0);
}

#[test]
fn histogram_reset_first_discards_older_buckets() {
    let mut h = AtimeHistogramPhys::new(Atime(0));
    h.insert(value(0, 100, 1));
    h.insert(value(0, 100, 5));
    h.reset_first(Atime(3));
    assert_eq!(h.first().0, 3);
    assert_eq!(h.sum(), 100);
}
