//! The metadata extent allocator: free runs of the metadata region as a
//! range tree, frees deferred in a second tree until the checkpoint that
//! makes them safe to reuse. It has no on-disk form: at open the region
//! starts whole and every extent recorded in persistent logs is claimed
//! back out.

use vstd::prelude::*;
use crate::base::DiskLocation;
use crate::base::Extent;
use crate::range_tree::RangeTree;
use crate::range_tree::rt_covered;
use crate::range_tree::rt_space;
use crate::range_tree::rt_wf;

verus! {

/// The metadata region's bounds: offsets in `[first, last)` belong to it.
#[derive(Debug, Copy, Clone, PartialEq, Eq, Structural)]
pub struct ExtentAllocatorPhys {
    pub first_valid_offset: u64,
    pub last_valid_offset: u64,
}

/// Free runs plus the runs released this checkpoint, which stay out of
/// service until the checkpoint completes.
#[derive(Debug)]
pub struct ExtentAllocator {
    pub allocatable: RangeTree,
    pub freeing: RangeTree,
    pub phys: ExtentAllocatorPhys,
}

impl ExtentAllocator {
    pub open spec fn wf(&self) -> bool {
        &&& self.allocatable.wf()
        &&& self.freeing.wf()
        &&& forall|x: u64| rt_covered(self.allocatable.segments@, x)
            ==> !rt_covered(self.freeing.segments@, x)
        &&& forall|x: u64| rt_covered(self.allocatable.segments@, x)
            ==> self.phys.first_valid_offset <= x < self.phys.last_valid_offset
        &&& forall|x: u64| rt_covered(self.freeing.segments@, x)
            ==> self.phys.first_valid_offset <= x < self.phys.last_valid_offset
    }

    /// Open over a whole region: everything in it is free; persistent
    /// logs then claim their extents back out.
    pub fn open(phys: ExtentAllocatorPhys) -> (r: ExtentAllocator)
        requires
            phys.first_valid_offset <= phys.last_valid_offset,
        ensures
            r.wf(),
            r.phys == phys,
            forall|x: u64| rt_covered(r.allocatable.segments@, x)
                == (phys.first_valid_offset <= x < phys.last_valid_offset),
            forall|x: u64| !rt_covered(r.freeing.segments@, x),
            rt_space(r.allocatable.segments@)
                == phys.last_valid_offset - phys.first_valid_offset,
    {
        let mut allocatable = RangeTree::new();
        allocatable.add(
            phys.first_valid_offset,
            phys.last_valid_offset - phys.first_valid_offset,
        );
        ExtentAllocator { allocatable, freeing: RangeTree::new(), phys }
    }

    /// Take a known-used extent out of the free runs, as replaying a
    /// persistent log does at open.
    pub fn claim(&mut self, extent: Extent)
        requires
            old(self).wf(),
            extent.size > 0 ==> extent.location.offset + extent.size <= u64::MAX,
            forall|x: u64| extent.location.offset <= x < extent.location.offset + extent.size
                ==> rt_covered(old(self).allocatable.segments@, x),
        ensures
            final(self).wf(),
            final(self).phys == old(self).phys,
            final(self).freeing == old(self).freeing,
            forall|x: u64| rt_covered(final(self).allocatable.segments@, x)
                == (rt_covered(old(self).allocatable.segments@, x)
                    && !(extent.location.offset <= x
                        < extent.location.offset + extent.size)),
            rt_space(final(self).allocatable.segments@)
                == rt_space(old(self).allocatable.segments@) - extent.size,
    {
        self.allocatable.remove(extent.location.offset, extent.size);
    }

    /// Allocate from the largest free run, capped at `max`. Nothing is
    /// returned when even the largest run is below `min`: the caller
    /// treats that as fatal, as silently overwriting metadata would
    /// corrupt the cache.
    pub fn allocate(&mut self, min: u64, max: u64) -> (r: Option<Extent>)
        requires
            old(self).wf(),
            min > 0,
            min <= max,
        ensures
            final(self).wf(),
            final(self).phys == old(self).phys,
            final(self).freeing == old(self).freeing,
            r is None ==> {
                &&& forall|i: int| 0 <= i < old(self).allocatable.segments@.len()
                    ==> (#[trigger] old(self).allocatable.segments@[i]).1 < min
                &&& *final(self) == *old(self)
            },
            r matches Some(e) ==> {
                // the source run is a largest free run
                &&& exists|i: int| 0 <= i < old(self).allocatable.segments@.len()
                    && (#[trigger] old(self).allocatable.segments@[i]).0
                        == e.location.offset
                    && old(self).allocatable.segments@[i].1 >= e.size
                    && (forall|j: int| 0 <= j < old(self).allocatable.segments@.len()
                        ==> (#[trigger] old(self).allocatable.segments@[j]).1
                            <= old(self).allocatable.segments@[i].1)
                    && e.size == if old(self).allocatable.segments@[i].1 <= max {
                        old(self).allocatable.segments@[i].1
                    } else {
                        max
                    }
                &&& e.size >= min
                &&& forall|x: u64| rt_covered(final(self).allocatable.segments@, x)
                    == (rt_covered(old(self).allocatable.segments@, x)
                        && !(e.location.offset <= x < e.location.offset + e.size))
                &&& rt_space(final(self).allocatable.segments@)
                    == rt_space(old(self).allocatable.segments@) - e.size
            },
    {
        let n = self.allocatable.segments.len();
        if n == 0 {
            return None;
        }
        let mut best: usize = 0;
        let mut k: usize = 1;
        while k < n
            invariant
                n == self.allocatable.segments@.len(),
                best < n,
                k <= n,
                forall|j: int| 0 <= j < k
                    ==> (#[trigger] self.allocatable.segments@[j]).1
                        <= self.allocatable.segments@[best as int].1,
            decreases n - k,
        {
            if self.allocatable.segments[k].1 > self.allocatable.segments[best].1 {
                best = k;
            }
            k = k + 1;
        }
        let seg = self.allocatable.segments[best];
        if seg.1 < min {
            return None;
        }
        let size = if seg.1 <= max {
            seg.1
        } else {
            max
        };
        proof {
            assert(seg.1 > 0 && seg.0 + seg.1 <= u64::MAX);
            assert forall|x: u64| seg.0 <= x < seg.0 + size
                implies rt_covered(self.allocatable.segments@, x) by {
                assert(self.allocatable.segments@[best as int].0 <= x
                    < self.allocatable.segments@[best as int].0
                        + self.allocatable.segments@[best as int].1);
            }
        }
        self.allocatable.remove(seg.0, size);
        Some(Extent { location: DiskLocation { offset: seg.0 }, size })
    }

    /// Release an extent: it joins the freeing runs and returns to
    /// service only once the checkpoint that no longer references it is
    /// durable.
    pub fn free(&mut self, extent: Extent)
        requires
            old(self).wf(),
            extent.size > 0 ==> extent.location.offset + extent.size <= u64::MAX,
            forall|x: u64| extent.location.offset <= x < extent.location.offset + extent.size
                ==> !rt_covered(old(self).freeing.segments@, x)
                    && !rt_covered(old(self).allocatable.segments@, x)
                    && old(self).phys.first_valid_offset <= x
                    && x < old(self).phys.last_valid_offset,
        ensures
            final(self).wf(),
            final(self).phys == old(self).phys,
            final(self).allocatable == old(self).allocatable,
            forall|x: u64| rt_covered(final(self).freeing.segments@, x)
                == (rt_covered(old(self).freeing.segments@, x)
                    || (extent.location.offset <= x
                        < extent.location.offset + extent.size)),
            rt_space(final(self).freeing.segments@)
                == rt_space(old(self).freeing.segments@) + extent.size,
    {
        self.freeing.add(extent.location.offset, extent.size);
        proof {
            assert forall|x: u64| rt_covered(self.allocatable.segments@, x)
                implies !rt_covered(self.freeing.segments@, x) by {
                if rt_covered(self.freeing.segments@, x) {
                    assert(rt_covered(old(self).freeing.segments@, x)
                        || (extent.location.offset <= x
                            < extent.location.offset + extent.size));
                }
            }
            assert forall|x: u64| rt_covered(self.freeing.segments@, x)
                implies self.phys.first_valid_offset <= x
                    < self.phys.last_valid_offset by {
                assert(rt_covered(old(self).freeing.segments@, x)
                    || (extent.location.offset <= x
                        < extent.location.offset + extent.size));
            }
        }
    }

    /// The checkpoint is durable: everything freed during it becomes
    /// allocatable again.
    pub fn checkpoint_done(&mut self)
        requires
            old(self).wf(),
        ensures
            final(self).wf(),
            final(self).phys == old(self).phys,
            forall|x: u64| rt_covered(final(self).allocatable.segments@, x)
                == (rt_covered(old(self).allocatable.segments@, x)
                    || rt_covered(old(self).freeing.segments@, x)),
            forall|x: u64| !rt_covered(final(self).freeing.segments@, x),
            rt_space(final(self).allocatable.segments@)
                == rt_space(old(self).allocatable.segments@)
                    + rt_space(old(self).freeing.segments@),
    {
        let mut moved = RangeTree::new();
        std::mem::swap(&mut moved, &mut self.freeing);
        let ghost fsegs = moved.segments@;
        let ghost alloc0 = self.allocatable.segments@;
        let n = moved.segments.len();
        let mut i: usize = 0;
        proof {
            assert(fsegs.take(0) =~= Seq::<(u64, u64)>::empty());
        }
        while i < n
            invariant
                i <= n == fsegs.len(),
                moved.segments@ == fsegs,
                rt_wf(fsegs),
                self.allocatable.wf(),
                self.freeing.segments@.len() == 0,
                self.phys == old(self).phys,
                forall|x: u64| rt_covered(alloc0, x)
                    ==> old(self).phys.first_valid_offset <= x
                        < old(self).phys.last_valid_offset,
                forall|x: u64| rt_covered(fsegs, x)
                    ==> old(self).phys.first_valid_offset <= x
                        < old(self).phys.last_valid_offset,
                forall|x: u64| rt_covered(alloc0, x) ==> !rt_covered(fsegs, x),
                forall|x: u64| rt_covered(self.allocatable.segments@, x)
                    == (rt_covered(alloc0, x) || rt_covered(fsegs.take(i as int), x)),
                rt_space(self.allocatable.segments@)
                    == rt_space(alloc0) + rt_space(fsegs.take(i as int)),
            decreases n - i,
        {
            let (seg_start, seg_size) = moved.segments[i];
            proof {
                assert(fsegs[i as int].1 > 0 && fsegs[i as int].0 + fsegs[i as int].1
                    <= u64::MAX);
                assert forall|x: u64| seg_start <= x < seg_start + seg_size
                    implies !rt_covered(self.allocatable.segments@, x) by {
                    assert(fsegs[i as int].0 <= x
                        < fsegs[i as int].0 + fsegs[i as int].1);
                    assert(rt_covered(fsegs, x));
                    if rt_covered(fsegs.take(i as int), x) {
                        let j = choose|j: int| 0 <= j < fsegs.take(i as int).len()
                            && (#[trigger] fsegs.take(i as int)[j]).0 <= x
                                < fsegs.take(i as int)[j].0 + fsegs.take(i as int)[j].1;
                        assert(fsegs[j].0 + fsegs[j].1 < fsegs[i as int].0);
                    }
                }
            }
            self.allocatable.add(seg_start, seg_size);
            i = i + 1;
            proof {
                assert(fsegs.take(i as int).drop_last() =~= fsegs.take(i - 1));
                assert(fsegs.take(i as int).last() == fsegs[i - 1]);
                assert forall|x: u64| rt_covered(fsegs.take(i as int), x)
                    == (rt_covered(fsegs.take(i - 1), x)
                        || (fsegs[i - 1].0 <= x < fsegs[i - 1].0 + fsegs[i - 1].1)) by {
                    if rt_covered(fsegs.take(i as int), x) {
                        let j = choose|j: int| 0 <= j < fsegs.take(i as int).len()
                            && (#[trigger] fsegs.take(i as int)[j]).0 <= x
                                < fsegs.take(i as int)[j].0 + fsegs.take(i as int)[j].1;
                        if j < i - 1 {
                            assert(fsegs.take(i - 1)[j].0 <= x
                                < fsegs.take(i - 1)[j].0 + fsegs.take(i - 1)[j].1);
                        }
                    }
                    if rt_covered(fsegs.take(i - 1), x) {
                        let j = choose|j: int| 0 <= j < fsegs.take(i - 1).len()
                            && (#[trigger] fsegs.take(i - 1)[j]).0 <= x
                                < fsegs.take(i - 1)[j].0 + fsegs.take(i - 1)[j].1;
                        assert(fsegs.take(i as int)[j].0 <= x
                            < fsegs.take(i as int)[j].0 + fsegs.take(i as int)[j].1);
                    }
                    if fsegs[i - 1].0 <= x < fsegs[i - 1].0 + fsegs[i - 1].1 {
                        assert(fsegs.take(i as int)[i - 1].0 <= x
                            < fsegs.take(i as int)[i - 1].0
                                + fsegs.take(i as int)[i - 1].1);
                    }
                }
            }
        }
        proof {
            assert(fsegs.take(n as int) =~= fsegs);
            assert forall|x: u64| !rt_covered(self.freeing.segments@, x) by {}
            assert forall|x: u64| rt_covered(self.allocatable.segments@, x)
                implies self.phys.first_valid_offset <= x
                    < self.phys.last_valid_offset by {
                assert(rt_covered(alloc0, x) || rt_covered(fsegs, x));
            }
        }
    }
}

} // verus!
