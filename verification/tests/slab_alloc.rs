//! The bitmap slab: allocation order, the free discipline, and the
//! condensed space-map form replayed under generation gating.

use zettacore::slab::BitmapSlab;
use zettacore::space_map::replay_gated;
use zettacore::space_map::MarkGenerationEntry;
use zettacore::space_map::SlabId;
use zettacore::space_map::SpaceMapEntry;
use zettacore::space_map::SpaceMapExtent;

#[test]
fn slab_allocates_lowest_slot_first() {
    let mut slab = BitmapSlab::new_slab(4096, 8 * 512, 512);
    assert_eq!(slab.total_slots, 8);
    let a = slab.allocate(512).unwrap();
    assert_eq!(a.location.offset, 4096);
    assert_eq!(a.size, 512);
    let b = slab.allocate(100).unwrap();
    assert_eq!(b.location.offset, 4096 + 512);
    // a freed slot is not reused before the flush; the next slot is
    slab.free_slot(0);
    let c = slab.allocate(512).unwrap();
    assert_eq!(c.location.offset, 4096 + 2 * 512);
}

#[test]
fn slab_exhausts_and_returns_none() {
    let mut slab = BitmapSlab::new_slab(0, 2 * 512, 512);
    assert!(slab.allocate(512).is_some());
    assert!(slab.allocate(512).is_some());
    assert!(slab.allocate(512).is_none());
}

#[test]
fn condensed_slab_replays_to_its_allocation_set() {
    let mut slab = BitmapSlab::new_slab(0, 8 * 512, 512);
    // allocate slots 0..4, free slot 1: slots 0, 1, 2, 3 are still
    // "allocated" (slot 1 only returns to service at the flush)
    for _ in 0..4 {
        slab.allocate(512).unwrap();
    }
    slab.free_slot(1);
    let condensed = slab.condense_entries();
    // one run covering slots 0..4
    assert_eq!(condensed.len(), 1);
    assert_eq!(
        condensed[0],
        SpaceMapEntry::Alloc(SpaceMapExtent { offset: 0, size: 4 * 512 })
    );

    // replaying stale history, the generation bump, and the condensed
    // records under gating yields exactly the condensed records
    let mut log: Vec<SpaceMapEntry> = vec![
        SpaceMapEntry::Alloc(SpaceMapExtent { offset: 0, size: 512 }),
        SpaceMapEntry::Free(SpaceMapExtent { offset: 0, size: 512 }),
        SpaceMapEntry::Alloc(SpaceMapExtent { offset: 3 * 512, size: 512 }),
        SpaceMapEntry::MarkGeneration(MarkGenerationEntry {
            slab_id: SlabId(0),
            generation: 1,
        }),
    ];
    log.extend(condensed.iter().cloned());
    let ops = replay_gated(&log, 1);
    assert_eq!(ops.len(), 1);
    assert_eq!(ops[0], (true, SpaceMapExtent { offset: 0, size: 4 * 512 }));
}
