//! The bucket-level block allocator: size-to-bucket selection, the
//! rotating cursor over a bucket's slabs, free-slab conversion, and
//! routing of frees by address.

use zettacore::block_allocator::BlockAllocator;
use zettacore::block_allocator::SlabBucket;
use zettacore::base::Extent;
use zettacore::base::DiskLocation;

fn fresh_allocator() -> BlockAllocator {
    BlockAllocator {
        slabs: Vec::new(),
        free_slab_offsets: vec![8192, 4096, 0],
        buckets: vec![
            SlabBucket { max_size: 512, slab_indexes: Vec::new(), cursor: 0 },
            SlabBucket { max_size: 2048, slab_indexes: Vec::new(), cursor: 0 },
        ],
        slab_size: 4096,
    }
}

#[test]
fn allocation_converts_a_free_slab_for_its_bucket() {
    let mut ba = fresh_allocator();
    // a 300-byte request lands in the 512 bucket: one slab formatted
    let e = ba.allocate(300).unwrap();
    assert_eq!(e.location.offset, 0);
    assert_eq!(e.size, 512);
    assert_eq!(ba.slabs.len(), 1);
    assert_eq!(ba.buckets[0].slab_indexes, vec![0]);
    assert_eq!(ba.free_slab_offsets, vec![8192, 4096]);
    // the next fits in the same slab
    let e2 = ba.allocate(512).unwrap();
    assert_eq!(e2.location.offset, 512);
    // a larger request converts another slab for the 2048 bucket
    let e3 = ba.allocate(1000).unwrap();
    assert_eq!(e3.location.offset, 4096);
    assert_eq!(e3.size, 2048);
    assert_eq!(ba.slabs.len(), 2);
}

#[test]
fn allocation_fails_without_bucket_or_free_slab() {
    let mut ba = fresh_allocator();
    // no bucket reaches 3000 bytes
    assert!(ba.allocate(3000).is_none());
    // exhaust the 2048 bucket: each slab holds two slots, three slabs
    for _ in 0..6 {
        assert!(ba.allocate(2048).is_some());
    }
    assert!(ba.free_slab_offsets.is_empty());
    assert!(ba.allocate(2048).is_none());
}

#[test]
fn frees_route_to_the_owning_slab() {
    let mut ba = fresh_allocator();
    let e = ba.allocate(512).unwrap();
    assert!(ba.free(e));
    assert!(ba.slabs[0].freeing.contains(0));
    // a second free of the same slot is refused
    assert!(!ba.free(e));
    // an address nobody owns is refused
    assert!(!ba.free(Extent { location: DiskLocation { offset: 999_999 }, size: 512 }));
}
