//! The smaller agent pieces: feature checks, identifiers, the lease
//! rule, the block-map replay, generation-gated space maps, and the
//! object-based log accounting.

use zettacore::base::Atime;
use zettacore::base::BlockId;
use zettacore::base::ObjectId;
use zettacore::base::PoolGuid;
use zettacore::base::Txg;
use zettacore::features::check_features;
use zettacore::features::get_feature;
use zettacore::features::FeatureFlag;
use zettacore::features::RequiredLevel;
use zettacore::heartbeat::lease_timed_out;
use zettacore::object_based_log::ObjectBasedLog;
use zettacore::object_block_map::ObjectBlockMap;
use zettacore::object_block_map::StorageObjectLogEntry;
use zettacore::space_map::replay_gated;
use zettacore::space_map::MarkGenerationEntry;
use zettacore::space_map::SlabId;
use zettacore::space_map::SpaceMapEntry;
use zettacore::space_map::SpaceMapExtent;
use zettacore::zcachedb::DumpStructuresOptions;
use zettacore::From64;

fn flag(name: &str, required: RequiredLevel) -> FeatureFlag {
    FeatureFlag { name: name.to_string(), required }
}

#[test]
fn no_features_are_supported_yet() {
    assert!(get_feature("com.example:anything").is_none());
}

#[test]
fn check_features_accepts_optional() {
    let flags = vec![flag("a", RequiredLevel::Optional)];
    assert!(check_features(flags, false).is_ok());
}

#[test]
fn check_features_rejects_required_for_read() {
    let flags = vec![
        flag("a", RequiredLevel::Optional),
        flag("b", RequiredLevel::RequiredForRead),
        flag("c", RequiredLevel::RequiredForWrite),
    ];
    let err = check_features(flags, false).unwrap_err();
    let names: Vec<&str> = err.features.iter().map(|f| f.name.as_str()).collect();
    assert_eq!(names, vec!["b", "c"]);
    assert!(!err.readonly);
}

#[test]
fn check_features_readonly_passes_write_features() {
    let flags = vec![flag("c", RequiredLevel::RequiredForWrite)];
    assert!(check_features(flags, true).is_ok());
    let flags2 = vec![
        flag("b", RequiredLevel::RequiredForRead),
        flag("c", RequiredLevel::RequiredForWrite),
    ];
    let err = check_features(flags2, true).unwrap_err();
    assert_eq!(err.features.len(), 1);
    assert_eq!(err.features[0].name, "b");
}

#[test]
fn lease_times_out_only_after_duration() {
    assert!(!lease_timed_out(None, 1000, 10));
    assert!(!lease_timed_out(Some(995), 1000, 10));
    assert!(lease_timed_out(Some(990), 1000, 10));
    assert!(lease_timed_out(Some(0), 1000, 10));
}

#[test]
fn identifier_successors() {
    assert_eq!(BlockId(4).next().0, 5);
    assert_eq!(ObjectId(7).next().0, 8);
    assert_eq!(Txg(3).checked_sub(1), Some(Txg(2)));
    assert_eq!(Txg(3).checked_sub(4), None);
    assert_eq!(usize::from64(123u64), 123usize);
}

#[test]
fn dump_options_builders() {
    let opts = DumpStructuresOptions::new().defaults(false).spacemaps(true);
    assert!(!opts.dump_defaults);
    assert!(opts.dump_spacemaps);
}

#[test]
fn block_map_replay_and_lookup() {
    let entries = vec![
        StorageObjectLogEntry::Alloc { object: ObjectId(1), min_block: BlockId(0) },
        StorageObjectLogEntry::Alloc { object: ObjectId(2), min_block: BlockId(10) },
        StorageObjectLogEntry::Alloc { object: ObjectId(3), min_block: BlockId(25) },
        StorageObjectLogEntry::Free { object: ObjectId(2) },
    ];
    let m = ObjectBlockMap::load(&entries, BlockId(40)).unwrap();
    assert_eq!(m.len(), 2);
    // object 2's range folded into object 1's coverage
    assert_eq!(m.block_to_object(BlockId(0)).0, 1);
    assert_eq!(m.block_to_object(BlockId(24)).0, 1);
    assert_eq!(m.block_to_object(BlockId(25)).0, 3);
    assert_eq!(m.block_to_object(BlockId(39)).0, 3);
    assert_eq!(m.object_to_min_block(ObjectId(3)), Some(BlockId(25)));
    assert_eq!(m.object_to_next_block(ObjectId(3)), Some(BlockId(40)));
    assert_eq!(m.object_to_min_block(ObjectId(2)), None);
    assert_eq!(m.last_object().0, 3);
}

#[test]
fn block_map_replay_rejects_double_free() {
    let entries = vec![
        StorageObjectLogEntry::Alloc { object: ObjectId(1), min_block: BlockId(0) },
        StorageObjectLogEntry::Free { object: ObjectId(1) },
        StorageObjectLogEntry::Free { object: ObjectId(1) },
    ];
    assert!(ObjectBlockMap::load(&entries, BlockId(10)).is_none());
}

#[test]
fn spacemap_generation_gating() {
    let slab = SlabId(0);
    let entries = vec![
        // generation 0 history
        SpaceMapEntry::Alloc(SpaceMapExtent { offset: 0, size: 512 }),
        SpaceMapEntry::Free(SpaceMapExtent { offset: 0, size: 512 }),
        // condensation bumps the generation; history above is dead
        SpaceMapEntry::MarkGeneration(MarkGenerationEntry { slab_id: slab, generation: 1 }),
        SpaceMapEntry::Alloc(SpaceMapExtent { offset: 1024, size: 512 }),
    ];
    // replaying for a slab at generation 1 sees only the condensed state
    let ops = replay_gated(&entries, 1);
    assert_eq!(ops.len(), 1);
    assert_eq!(ops[0], (true, SpaceMapExtent { offset: 1024, size: 512 }));
    // a slab still at generation 0 sees only its own history
    let ops0 = replay_gated(&entries, 0);
    assert_eq!(ops0.len(), 2);
    assert_eq!(ops0[0].0, true);
    assert_eq!(ops0[1].0, false);
}

#[test]
fn object_based_log_accounting() {
    let mut log: ObjectBasedLog<u64> = ObjectBasedLog::create(PoolGuid(9));
    log.append(10);
    log.append(20);
    let chunk = log.initiate_flush(Txg(1));
    assert_eq!(chunk.chunk, 0);
    assert_eq!(chunk.entries, vec![10, 20]);
    assert_eq!(log.num_chunks, 1);
    assert_eq!(log.num_entries, 2);
    log.flush_complete();
    assert_eq!(log.num_flushed_chunks, 1);
    log.clear();
    assert_eq!(log.generation, 1);
    assert_eq!(log.num_chunks, 0);
    assert_eq!(log.num_entries, 0);
}
