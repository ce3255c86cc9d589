//! The basic write cycle of a pool, and the repeat-commit rule.

use zettacore::base::BlockId;
use zettacore::base::ObjectId;
use zettacore::base::PoolGuid;
use zettacore::base::Txg;
use zettacore::object_block_map::ObjectBlockMap;
use zettacore::pool::PoolSyncingState;

#[test]
fn basic_write_cycle() {
    let guid = PoolGuid(42);
    let mut state = PoolSyncingState::create(guid);
    let mut obm = ObjectBlockMap { map: Vec::new(), next_block: BlockId(0) };

    state.begin_txg(Txg(1), &obm);
    state.write_block(BlockId(0), vec![0x41u8; 100]);
    state.write_block(BlockId(1), vec![0x42u8; 100]);
    state.write_unordered_to_pending_object(None);
    let put = state.initiate_flush_object(&mut obm).unwrap();

    // the object to PUT holds exactly the two blocks' bytes
    assert_eq!(put.get_block(BlockId(0)).unwrap(), &vec![0x41u8; 100]);
    assert_eq!(put.get_block(BlockId(1)).unwrap(), &vec![0x42u8; 100]);
    assert_eq!(put.blocks_len(), 2);
    assert_eq!(put.blocks_size, 200);
    assert_eq!(put.object.0, 1);
    assert_eq!(put.min_block.0, 0);
    assert_eq!(put.next_block.0, 2);

    let (stats, ub) = state.end_txg(vec![1, 2, 3], vec![4, 5]);
    assert_eq!(stats.blocks_count, 2);
    assert_eq!(stats.blocks_bytes, 200);
    assert_eq!(stats.objects_count, 1);
    let ub = ub.unwrap();
    assert_eq!(ub.txg.0, 1);
    assert_eq!(ub.next_block.0, 2);
    assert_eq!(state.last_txg.0, 1);

    // the block map covers both blocks through the new object
    assert_eq!(obm.block_to_object(BlockId(0)).0, 1);
    assert_eq!(obm.block_to_object(BlockId(1)).0, 1);
}

#[test]
fn end_txg_twice_is_noop() {
    let guid = PoolGuid(7);
    let mut state = PoolSyncingState::create(guid);
    let mut obm = ObjectBlockMap { map: Vec::new(), next_block: BlockId(0) };

    state.begin_txg(Txg(1), &obm);
    state.write_block(BlockId(0), vec![0x55u8; 10]);
    state.write_unordered_to_pending_object(None);
    state.initiate_flush_object(&mut obm).unwrap();
    let (stats1, ub1) = state.end_txg(vec![9, 9], vec![8]);
    assert!(ub1.is_some());

    // the kernel re-sends the same commit: nothing changes
    let (stats2, ub2) = state.end_txg(vec![9, 9], vec![8]);
    assert!(ub2.is_none());
    assert_eq!(stats1, stats2);
    assert_eq!(state.last_txg.0, 1);
    assert!(state.syncing_txg.is_none());
}

#[test]
fn writes_drain_in_block_order() {
    let guid = PoolGuid(3);
    let mut state = PoolSyncingState::create(guid);
    let obm = ObjectBlockMap { map: Vec::new(), next_block: BlockId(0) };

    state.begin_txg(Txg(1), &obm);
    // arrive out of order: 1 first, then 0, then 3 (a gap before 3)
    state.write_block(BlockId(1), vec![0x11u8; 4]);
    state.write_unordered_to_pending_object(None);
    assert_eq!(state.next_block().0, 0);

    state.write_block(BlockId(0), vec![0x10u8; 4]);
    state.write_block(BlockId(3), vec![0x13u8; 4]);
    state.write_unordered_to_pending_object(None);
    // blocks 0 and 1 drained; 3 waits for 2
    assert_eq!(state.next_block().0, 2);

    state.write_block(BlockId(2), vec![0x12u8; 4]);
    state.write_unordered_to_pending_object(None);
    assert_eq!(state.next_block().0, 4);
}

#[test]
fn resume_adopts_recovered_object() {
    // the kernel resends writes after a crash; listing found the object
    // that already holds them; while resuming no pending object is open
    let guid = PoolGuid(5);
    let mut obm = ObjectBlockMap { map: Vec::new(), next_block: BlockId(0) };
    let mut state = PoolSyncingState::create(guid);
    state.syncing_txg = Some(Txg(2));
    state.write_block(BlockId(0), vec![0x41u8; 100]);
    state.write_block(BlockId(1), vec![0x42u8; 100]);

    // the recovered object spans blocks [0, 2)
    state.adopt_recovered_object(ObjectId(1), BlockId(0), BlockId(2), 2, 200, &mut obm);
    assert_eq!(state.stats.objects_count, 1);
    assert_eq!(state.stats.blocks_count, 2);
    assert_eq!(state.stats.blocks_bytes, 200);
    assert_eq!(obm.block_to_object(BlockId(1)).0, 1);
    assert_eq!(state.next_block().0, 2);

    // the buffered writes it covers complete without a new object
    state.discard_covered_writes(BlockId(2));
    assert_eq!(state.pending_unordered_writes.len(), 0);
}

#[test]
fn resent_write_replaces_its_buffer() {
    let guid = PoolGuid(6);
    let mut state = PoolSyncingState::create(guid);
    let obm = ObjectBlockMap { map: Vec::new(), next_block: BlockId(0) };
    state.begin_txg(Txg(1), &obm);
    state.write_block(BlockId(1), vec![1u8; 4]);
    // the kernel re-sends the block with fresh bytes before it drains
    state.write_block(BlockId(1), vec![2u8; 4]);
    state.write_block(BlockId(0), vec![0u8; 4]);
    state.write_unordered_to_pending_object(None);
    assert_eq!(state.next_block().0, 2);
    match &state.pending_object {
        zettacore::pool::PendingObjectState::Pending(phys) => {
            assert_eq!(phys.get_block(BlockId(1)).unwrap(), &vec![2u8; 4]);
        },
        _ => panic!("the pending object should be open"),
    }
}

#[test]
fn feature_refcounts_travel_in_the_uberblock() {
    let guid = PoolGuid(8);
    let mut state = PoolSyncingState::create(guid);
    let obm = ObjectBlockMap { map: Vec::new(), next_block: BlockId(0) };
    let flag = zettacore::features::FeatureFlag {
        name: "com.example:batching".to_string(),
        required: zettacore::features::RequiredLevel::Optional,
    };
    state.enable_feature(flag);
    let name = "com.example:batching".to_string();
    assert!(state.feature_is_enabled(&name));
    assert!(!state.feature_is_active(&name));
    state.feature_increment_refcount(&name);
    state.feature_increment_refcount(&name);
    state.feature_decrement_refcount(&name);
    assert!(state.feature_is_active(&name));

    state.begin_txg(Txg(1), &obm);
    state.write_unordered_to_pending_object(None);
    // an empty txg still commits; the uberblock carries the features
    let (_stats, ub) = state.end_txg(vec![1], vec![2]);
    let ub = ub.unwrap();
    assert_eq!(ub.features.len(), 1);
    assert_eq!(ub.features[0].0.name, "com.example:batching");
    assert_eq!(ub.features[0].1, 1);
    assert!(state.feature_is_enabled(&name));
}

#[test]
fn flush_up_to_block_limit() {
    let guid = PoolGuid(4);
    let mut state = PoolSyncingState::create(guid);
    let obm = ObjectBlockMap { map: Vec::new(), next_block: BlockId(0) };

    state.begin_txg(Txg(1), &obm);
    state.write_block(BlockId(0), vec![1u8; 4]);
    state.write_block(BlockId(1), vec![2u8; 4]);
    state.write_unordered_to_pending_object(Some(BlockId(1)));
    // only block 0 moved: the limit stops the drain at block 1
    assert_eq!(state.next_block().0, 1);
}
