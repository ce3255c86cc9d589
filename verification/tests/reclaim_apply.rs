//! Applying a reclaim round in syncing context, and rebuilding allocator
//! state at open.

use zettacore::base::BlockId;
use zettacore::base::ObjectId;
use zettacore::base::PoolGuid;
use zettacore::base::ReclaimLogId;
use zettacore::base::Txg;
use zettacore::checkpoint::checkpoint_location;
use zettacore::base::DiskLocation;
use zettacore::base::Extent;
use zettacore::object_block_map::ObjectBlockMap;
use zettacore::object_block_map::ObjectBlockMapEntry;
use zettacore::object_block_map::StorageObjectLogEntry;
use zettacore::pool::PoolSyncingState;
use zettacore::reclaim::ObjectSize;
use zettacore::reclaim::ObjectSizeLogEntry;
use zettacore::reclaim::PendingFreesLogEntry;
use zettacore::reclaim::ReclaimInfo;
use zettacore::slab::rebuild_slab;
use zettacore::slab::condense_window;
use zettacore::slab::BitmapSlab;
use zettacore::space_map::SpaceMapExtent;

#[test]
fn reclaim_round_applies_to_stats_and_map() {
    // two half-freed objects were consolidated into object 1; object 2
    // is deleted, ten blocks of 512 bytes went away
    let guid = PoolGuid(11);
    let mut state = PoolSyncingState::create(guid);
    state.syncing_txg = Some(Txg(3));
    state.stats.blocks_count = 20;
    state.stats.blocks_bytes = 10240;
    state.stats.pending_frees_count = 10;
    state.stats.pending_frees_bytes = 5120;
    state.stats.objects_count = 2;

    let mut obm = ObjectBlockMap {
        map: vec![
            ObjectBlockMapEntry { object: ObjectId(1), block: BlockId(0) },
            ObjectBlockMapEntry { object: ObjectId(2), block: BlockId(10) },
        ],
        next_block: BlockId(20),
    };
    let mut reclaim = ReclaimInfo::new_single();
    for i in 0..10u64 {
        reclaim.log_free(PendingFreesLogEntry { block: BlockId(i * 2), size: 512 }, &obm);
    }
    assert_eq!(reclaim.logs[0].pending_free_bytes, 5120);

    state.apply_reclaim_result(
        &mut obm,
        &mut reclaim,
        ReclaimLogId(0),
        vec![ObjectSize { object: ObjectId(1), num_blocks: 10, num_bytes: 5120 }],
        vec![ObjectId(2)],
        Vec::new(),
        10,
        5120,
    );

    // the scenario's accounting: one object gone, ten blocks, 5120 bytes
    assert_eq!(state.stats.objects_count, 1);
    assert_eq!(state.stats.blocks_count, 10);
    assert_eq!(state.stats.blocks_bytes, 5120);
    assert_eq!(state.stats.pending_frees_count, 0);
    assert_eq!(state.stats.pending_frees_bytes, 0);
    // the deleted object left the map and queued for deletion
    assert_eq!(obm.len(), 1);
    assert_eq!(obm.block_to_object(BlockId(15)).0, 1);
    assert_eq!(state.objects_to_delete, vec![ObjectId(2)]);
    assert_eq!(
        state.storage_object_log,
        vec![StorageObjectLogEntry::Free { object: ObjectId(2) }]
    );
    // the round's log was rebuilt from the (empty) remainder
    assert_eq!(reclaim.logs[0].pending_frees.len(), 0);
    assert_eq!(reclaim.logs[0].pending_free_bytes, 0);
    assert_eq!(
        reclaim.logs[0].object_sizes,
        vec![
            ObjectSizeLogEntry::Freed { object: ObjectId(2) },
            ObjectSizeLogEntry::Exists(ObjectSize {
                object: ObjectId(1),
                num_blocks: 10,
                num_bytes: 5120,
            }),
        ]
    );
}

#[test]
fn slab_rebuilds_from_gated_ops() {
    // two slots allocated, one of them freed again
    let ops = vec![
        (true, SpaceMapExtent { offset: 0, size: 1024 }),
        (false, SpaceMapExtent { offset: 512, size: 512 }),
    ];
    let slab = rebuild_slab(0, 8 * 512, 512, &ops).unwrap();
    assert!(!slab.allocatable.contains(0));
    assert!(slab.allocatable.contains(1));
    assert!(slab.allocatable.contains(7));
    assert_eq!(slab.allocatable.len(), 7);
}

#[test]
fn slab_rebuild_rejects_double_alloc() {
    let ops = vec![
        (true, SpaceMapExtent { offset: 0, size: 512 }),
        (true, SpaceMapExtent { offset: 0, size: 512 }),
    ];
    assert!(rebuild_slab(0, 8 * 512, 512, &ops).is_none());
}

#[test]
fn slab_rebuild_rejects_misaligned_extent() {
    let ops = vec![(true, SpaceMapExtent { offset: 100, size: 512 })];
    assert!(rebuild_slab(0, 8 * 512, 512, &ops).is_none());
}

#[test]
fn condense_window_advances_and_rotates() {
    let slabs = vec![
        BitmapSlab::new_slab(0, 2 * 512, 512),
        BitmapSlab::new_slab(1024, 2 * 512, 512),
        BitmapSlab::new_slab(2048, 2 * 512, 512),
    ];
    let (entries, next, rotated) = condense_window(&slabs, 0, 2);
    assert_eq!(entries.len(), 2);
    assert_eq!(next, 2);
    assert!(!rotated);
    let (entries2, next2, rotated2) = condense_window(&slabs, 2, 2);
    assert_eq!(entries2.len(), 1);
    assert_eq!(next2, 3);
    assert!(rotated2);
}

#[test]
fn checkpoint_ring_placement() {
    let last = Extent { location: DiskLocation { offset: 4096 }, size: 512 };
    // fits right after the last checkpoint
    assert_eq!(
        checkpoint_location(last, 512, 4096, 8192),
        Some(DiskLocation { offset: 4608 })
    );
    // too large for the tail: wraps to the ring's start
    assert_eq!(
        checkpoint_location(last, 4000, 4096, 8192),
        Some(DiskLocation { offset: 4096 })
    );
    // larger than the whole ring: nowhere
    assert_eq!(checkpoint_location(last, 5000, 4096, 8192), None);
}
