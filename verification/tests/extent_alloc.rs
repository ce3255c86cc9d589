//! The metadata extent allocator and its range trees: coalescing,
//! splitting, largest-run allocation, and deferred reuse of frees.

use zettacore::base::DiskLocation;
use zettacore::base::Extent;
use zettacore::extent_allocator::ExtentAllocator;
use zettacore::extent_allocator::ExtentAllocatorPhys;
use zettacore::range_tree::RangeTree;

fn extent(offset: u64, size: u64) -> Extent {
    Extent { location: DiskLocation { offset }, size }
}

#[test]
fn range_tree_coalesces_adjacent_runs() {
    let mut t = RangeTree::new();
    t.add(0, 10);
    t.add(20, 10);
    assert_eq!(t.segments, vec![(0, 10), (20, 10)]);
    // the gap closes: all three merge into one run
    t.add(10, 10);
    assert_eq!(t.segments, vec![(0, 30)]);
    assert_eq!(t.space(), 30);
}

#[test]
fn range_tree_remove_splits_a_run() {
    let mut t = RangeTree::new();
    t.add(0, 30);
    t.remove(10, 5);
    assert_eq!(t.segments, vec![(0, 10), (15, 15)]);
    assert_eq!(t.space(), 25);
    // removing a whole run drops it
    t.remove(0, 10);
    assert_eq!(t.segments, vec![(15, 15)]);
    // head and tail removals shrink in place
    t.remove(15, 5);
    assert_eq!(t.segments, vec![(20, 10)]);
    t.remove(25, 5);
    assert_eq!(t.segments, vec![(20, 5)]);
}

#[test]
fn extent_allocator_allocates_largest_run() {
    let mut ea = ExtentAllocator::open(ExtentAllocatorPhys {
        first_valid_offset: 1024,
        last_valid_offset: 1024 + 100,
    });
    // claims leave two free runs of sizes 30 and 20
    ea.claim(extent(1024 + 30, 40));
    ea.claim(extent(1024 + 90, 10));
    ea.claim(extent(1024 + 70, 10));
    assert_eq!(ea.allocatable.segments, vec![(1024, 30), (1024 + 80, 10)]);
    // the largest run wins, capped at max
    let e = ea.allocate(1, 25).unwrap();
    assert_eq!(e.location.offset, 1024);
    assert_eq!(e.size, 25);
    // nothing reaches a min above every run
    assert!(ea.allocate(50, 100).is_none());
}

#[test]
fn freed_extents_return_only_at_checkpoint() {
    let mut ea = ExtentAllocator::open(ExtentAllocatorPhys {
        first_valid_offset: 0,
        last_valid_offset: 100,
    });
    ea.claim(extent(0, 100));
    assert!(ea.allocate(1, 10).is_none());
    // a free is deferred: still not allocatable
    ea.free(extent(40, 20));
    assert!(ea.allocate(1, 10).is_none());
    assert_eq!(ea.freeing.segments, vec![(40, 20)]);
    // the checkpoint completes: the run comes back
    ea.checkpoint_done();
    assert_eq!(ea.freeing.segments.len(), 0);
    let e = ea.allocate(1, 10).unwrap();
    assert_eq!(e.location.offset, 40);
    assert_eq!(e.size, 10);
}
