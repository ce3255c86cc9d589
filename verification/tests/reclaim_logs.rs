//! The reclaim machinery: hash routing, the extendible-log split, and
//! the removal of freed blocks from a data object.

use zettacore::base::BlockId;
use zettacore::base::ObjectId;
use zettacore::base::PoolGuid;
use zettacore::base::Txg;
use zettacore::data_object::DataObjectPhys;
use zettacore::object_block_map::ObjectBlockMap;
use zettacore::object_block_map::ObjectBlockMapEntry;
use zettacore::reclaim::PendingFreesLogEntry;
use zettacore::reclaim::ReclaimInfo;
use zettacore::reclaim::get_object_sizes;
use zettacore::reclaim::remove_free_blocks;
use zettacore::reclaim::ObjectSize;
use zettacore::reclaim::ObjectSizeLogEntry;
use zettacore::reclaim_table::reverse16;
use zettacore::reclaim_table::OBJECTS_PER_LOG;

/// A block map of `n` objects, ten blocks each.
fn obm_of(n: u64) -> ObjectBlockMap {
    let mut map = Vec::new();
    for i in 0..n {
        map.push(ObjectBlockMapEntry { object: ObjectId(i + 1), block: BlockId(i * 10) });
    }
    ObjectBlockMap { map, next_block: BlockId(n * 10) }
}

#[test]
fn bit_reversal_matches_std() {
    for v in [0u16, 1, 2, 0x8000, 0xffff, 0x1234, 0xabcd, 999] {
        assert_eq!(reverse16(v), v.reverse_bits());
    }
}

#[test]
fn log_id_matches_hash_formula() {
    let mut info = ReclaimInfo::new_single();
    let obm = obm_of(4000);
    // grow the table twice so the hash actually selects slots
    info.split_reclaim_log(zettacore::base::ReclaimLogId(0), &obm);
    info.split_reclaim_log(zettacore::base::ReclaimLogId(0), &obm);
    let table_bits = info.indirect_table.table_bits;
    assert_eq!(table_bits, 2);
    for object in [1u64, 1024, 2048, 39999] {
        let id = info.get_log_id(ObjectId(object));
        let hash = ((object / OBJECTS_PER_LOG) % 65536) as u16;
        let slot = (hash.reverse_bits() >> (16 - table_bits)) as usize;
        assert_eq!(id, info.indirect_table.log_ids[slot]);
    }
}

#[test]
fn frees_route_to_their_object_log() {
    let mut info = ReclaimInfo::new_single();
    let obm = obm_of(10);
    let id = info.log_free(PendingFreesLogEntry { block: BlockId(35), size: 512 }, &obm);
    assert_eq!(id.0, 0);
    assert_eq!(info.logs[0].pending_frees.len(), 1);
    assert_eq!(info.logs[0].pending_free_bytes, 512);
    assert_eq!(info.logs[0].pending_frees[0].block.0, 35);
}

#[test]
fn split_deals_frees_between_halves() {
    let mut info = ReclaimInfo::new_single();
    // 2000 objects spanning two object groups, one free in each
    let obm = obm_of(2000);
    for i in 0..2000u64 {
        info.log_free(PendingFreesLogEntry { block: BlockId(i * 10), size: 512 }, &obm);
    }
    assert_eq!(info.logs[0].pending_frees.len(), 2000);
    assert!(info.logs[0].pending_frees.len() > 100);

    let new_id = info.split_reclaim_log(zettacore::base::ReclaimLogId(0), &obm);
    assert_eq!(info.logs.len(), 2);
    assert_eq!(new_id.0, 1);
    assert_eq!(info.indirect_table.table_bits, 1);
    assert_eq!(info.indirect_table.log_ids.len(), 2);
    // nothing lost: the two halves hold all 2000 frees between them
    let a = info.logs[0].pending_frees.len();
    let b = info.logs[1].pending_frees.len();
    assert_eq!(a + b, 2000);
    assert_eq!(
        info.logs[0].pending_free_bytes + info.logs[1].pending_free_bytes,
        2000 * 512
    );
    // the objects partition by their hashed group: objects 1..=1023 are
    // group 0 and stay; objects 1024..=2000 are group 1 and move
    assert_eq!(a, 1023);
    assert_eq!(b, 977);
    // a fresh free routes to the half its object's hash selects
    for block in [5u64, 10245] {
        let before_a = info.logs[0].pending_frees.len();
        let before_b = info.logs[1].pending_frees.len();
        let id = info.log_free(PendingFreesLogEntry { block: BlockId(block), size: 1 }, &obm);
        if id.0 == 0 {
            assert_eq!(info.logs[0].pending_frees.len(), before_a + 1);
        } else {
            assert_eq!(info.logs[1].pending_frees.len(), before_b + 1);
        }
        let expected = info.get_log_id(obm.block_to_object(BlockId(block)));
        assert_eq!(id, expected);
    }
}

#[test]
fn object_sizes_fold_keeps_latest_and_drops_freed() {
    let entries = vec![
        ObjectSizeLogEntry::Exists(ObjectSize { object: ObjectId(2), num_blocks: 10, num_bytes: 5120 }),
        ObjectSizeLogEntry::Exists(ObjectSize { object: ObjectId(1), num_blocks: 4, num_bytes: 2048 }),
        // object 2 rewritten smaller after a reclaim round
        ObjectSizeLogEntry::Exists(ObjectSize { object: ObjectId(2), num_blocks: 5, num_bytes: 2560 }),
        ObjectSizeLogEntry::Exists(ObjectSize { object: ObjectId(3), num_blocks: 1, num_bytes: 512 }),
        ObjectSizeLogEntry::Freed { object: ObjectId(1) },
    ];
    let sizes = get_object_sizes(&entries).unwrap();
    assert_eq!(sizes.len(), 2);
    assert_eq!(sizes[0], ObjectSize { object: ObjectId(2), num_blocks: 5, num_bytes: 2560 });
    assert_eq!(sizes[1], ObjectSize { object: ObjectId(3), num_blocks: 1, num_bytes: 512 });
}

#[test]
fn object_sizes_fold_rejects_freeing_absent_object() {
    let entries = vec![ObjectSizeLogEntry::Freed { object: ObjectId(9) }];
    assert!(get_object_sizes(&entries).is_none());
}

#[test]
fn pick_largest_selects_most_free_bytes() {
    let mut info = ReclaimInfo::new_single();
    let obm = obm_of(2000);
    for i in 0..200u64 {
        info.log_free(PendingFreesLogEntry { block: BlockId(i * 10), size: 512 }, &obm);
    }
    info.split_reclaim_log(zettacore::base::ReclaimLogId(0), &obm);
    let best = info.pick_largest_log();
    let other = zettacore::base::ReclaimLogId(1 - best.0);
    assert!(
        info.logs[best.0 as usize].pending_free_bytes
            >= info.logs[other.0 as usize].pending_free_bytes
    );
}

#[test]
fn removing_frees_halves_an_object() {
    // an object of ten 512-byte blocks; five get freed
    let mut obj = DataObjectPhys::new(PoolGuid(1), ObjectId(1), BlockId(0), Txg(1));
    for i in 0..10u8 {
        obj.append_block(vec![i; 512]);
    }
    assert_eq!(obj.blocks_size, 5120);
    let frees: Vec<PendingFreesLogEntry> = (0..5u64)
        .map(|i| PendingFreesLogEntry { block: BlockId(i * 2), size: 512 })
        .collect();
    let (count, bytes) = remove_free_blocks(&mut obj, &frees);
    assert_eq!(count, 5);
    assert_eq!(bytes, 2560);
    assert_eq!(obj.blocks_len(), 5);
    assert_eq!(obj.blocks_size, 2560);
    // freed blocks read as absent; the others keep their bytes
    assert!(obj.get_block(BlockId(0)).is_none());
    assert!(obj.get_block(BlockId(4)).is_none());
    assert_eq!(obj.get_block(BlockId(1)).unwrap(), &vec![1u8; 512]);
    assert_eq!(obj.get_block(BlockId(9)).unwrap(), &vec![9u8; 512]);
}

#[test]
fn data_object_verify_checks_consistency() {
    let mut obj = DataObjectPhys::new(PoolGuid(1), ObjectId(1), BlockId(0), Txg(1));
    obj.append_block(vec![1u8; 64]);
    obj.append_block(vec![2u8; 64]);
    assert!(obj.verify());
    obj.blocks_size = 100;
    assert!(!obj.verify());
    obj.blocks_size = 128;
    obj.min_txg = Txg(5);
    assert!(!obj.verify());
}

#[test]
fn fetched_object_identity_is_checked() {
    let mut obj = DataObjectPhys::new(PoolGuid(1), ObjectId(3), BlockId(0), Txg(1));
    obj.append_block(vec![1u8; 64]);
    // the right key passes; a wrong pool or object id does not
    assert!(obj.verify_fetched(PoolGuid(1), ObjectId(3)));
    assert!(!obj.verify_fetched(PoolGuid(2), ObjectId(3)));
    assert!(!obj.verify_fetched(PoolGuid(1), ObjectId(4)));
    // a consistency breach fails even under the right key
    obj.blocks_size = 1;
    assert!(!obj.verify_fetched(PoolGuid(1), ObjectId(3)));
}

#[test]
fn removing_a_free_twice_counts_once() {
    // a crashed reclaim already removed the block: the repeat run skips
    // it without losing anything
    let mut obj = DataObjectPhys::new(PoolGuid(1), ObjectId(1), BlockId(0), Txg(1));
    obj.append_block(vec![1u8; 64]);
    obj.append_block(vec![2u8; 64]);
    let frees = vec![PendingFreesLogEntry { block: BlockId(0), size: 64 }];
    let (count1, bytes1) = remove_free_blocks(&mut obj, &frees);
    assert_eq!((count1, bytes1), (1, 64));
    let (count2, bytes2) = remove_free_blocks(&mut obj, &frees);
    assert_eq!((count2, bytes2), (0, 0));
    assert_eq!(obj.blocks_len(), 1);
}
