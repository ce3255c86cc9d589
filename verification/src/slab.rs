//! A bitmap-based slab of the cache block allocator: fixed-size slots
//! tracked in roaring bitmaps, with the allocate/free discipline and the
//! condensed form written at checkpoint.

use vstd::prelude::*;
use crate::base::DiskLocation;
use crate::base::Extent;
use crate::bitmap::bitmap_contains;
use crate::bitmap::bitmap_insert;
use crate::bitmap::bitmap_insert_range;
use crate::bitmap::bitmap_min;
use crate::bitmap::bitmap_new;
use crate::bitmap::bits_of;
use crate::space_map::SpaceMapEntry;
use crate::space_map::SpaceMapOp;
use crate::space_map::SpaceMapExtent;

verus! {

/// The least element of a non-empty set of slots.
pub open spec fn spec_set_min(s: Set<u32>) -> u32 {
    choose|m: u32| s.contains(m) && forall|x: u32| s.contains(x) ==> m <= x
}

/// Slots of one slab: `allocatable` may be handed out, `allocating` was
/// handed out since the last flush, `freeing` was given back since the
/// last flush and becomes allocatable again at the flush.
#[derive(Debug)]
pub struct BitmapSlab {
    pub allocatable: roaring::RoaringBitmap,
    pub allocating: roaring::RoaringBitmap,
    pub freeing: roaring::RoaringBitmap,
    pub total_slots: u32,
    pub slot_size: u32,
    pub slab_offset: u64,
}

impl BitmapSlab {
    pub open spec fn wf(&self) -> bool {
        &&& self.slot_size >= 1
        &&& self.total_slots * self.slot_size <= u32::MAX
        &&& self.slab_offset + (self.total_slots as int) * (self.slot_size as int) <= u64::MAX
        &&& forall|x: u32| bits_of(&self.allocatable).contains(x) ==> x < self.total_slots
        &&& forall|x: u32| bits_of(&self.allocating).contains(x) ==> x < self.total_slots
        &&& forall|x: u32| bits_of(&self.freeing).contains(x) ==> x < self.total_slots
        // a slot being freed is not allocatable and not being allocated
        &&& forall|x: u32| bits_of(&self.freeing).contains(x)
            ==> !bits_of(&self.allocatable).contains(x)
        &&& forall|x: u32| bits_of(&self.freeing).contains(x)
            ==> !bits_of(&self.allocating).contains(x)
        // a slot being allocated is no longer allocatable
        &&& forall|x: u32| bits_of(&self.allocating).contains(x)
            ==> !bits_of(&self.allocatable).contains(x)
    }

    /// A slot is allocated when it is not free for hand-out.
    pub open spec fn spec_allocated(&self, slot: u32) -> bool {
        slot < self.total_slots && !bits_of(&self.allocatable).contains(slot)
    }

    /// The device offset of a slot.
    pub open spec fn spec_offset(&self, slot: u32) -> int {
        self.slab_offset + (slot as int) * (self.slot_size as int)
    }

    /// A fresh slab: every whole slot is allocatable.
    pub fn new_slab(slab_offset: u64, slab_size: u32, block_size: u32) -> (r: BitmapSlab)
        requires
            block_size >= 1,
            slab_offset + slab_size <= u64::MAX,
        ensures
            r.wf(),
            r.slab_offset == slab_offset,
            r.slot_size == block_size,
            r.total_slots == slab_size / block_size,
            forall|x: u32| bits_of(&r.allocatable).contains(x) <==> x < r.total_slots,
            bits_of(&r.allocating) =~= Set::<u32>::empty(),
            bits_of(&r.freeing) =~= Set::<u32>::empty(),
    {
        let free_slots = slab_size / block_size;
        let mut allocatable = bitmap_new();
        if free_slots > 0 {
            bitmap_insert_range(&mut allocatable, 0, free_slots);
        }
        proof {
            vstd::arithmetic::div_mod::lemma_fundamental_div_mod(
                slab_size as int,
                block_size as int,
            );
            vstd::arithmetic::div_mod::lemma_mod_bound(slab_size as int, block_size as int);
            assert(free_slots * block_size <= slab_size) by (nonlinear_arith)
                requires
                    slab_size == block_size * (slab_size as int / block_size as int)
                        + slab_size as int % block_size as int,
                    free_slots == slab_size as int / block_size as int,
                    slab_size as int % block_size as int >= 0,
            ;
        }
        let r = BitmapSlab {
            allocatable,
            allocating: bitmap_new(),
            freeing: bitmap_new(),
            total_slots: free_slots,
            slot_size: block_size,
            slab_offset,
        };
        r
    }

    /// Hand out the lowest allocatable slot, or nothing when the slab is
    /// exhausted. The slot moves from `allocatable` to `allocating`.
    #[verifier::rlimit(100)]
    #[verifier::spinoff_prover]
    pub fn allocate(&mut self, size: u32) -> (r: Option<Extent>)
        requires
            old(self).wf(),
            size <= old(self).slot_size,
        ensures
            final(self).wf(),
            final(self).total_slots == old(self).total_slots,
            final(self).slot_size == old(self).slot_size,
            final(self).slab_offset == old(self).slab_offset,
            bits_of(&final(self).freeing) == bits_of(&old(self).freeing),
            r is None ==> {
                &&& bits_of(&old(self).allocatable) =~= Set::<u32>::empty()
                &&& *final(self) == *old(self)
            },
            // the extent handed out is the lowest allocatable slot
            r matches Some(e) ==> ({
                let slot = spec_set_min(bits_of(&old(self).allocatable));
                &&& bits_of(&old(self).allocatable).contains(slot)
                &&& bits_of(&final(self).allocatable)
                    == bits_of(&old(self).allocatable).remove(slot)
                &&& bits_of(&final(self).allocating)
                    == bits_of(&old(self).allocating).insert(slot)
                &&& e.location.offset == old(self).spec_offset(slot)
                &&& e.size == old(self).slot_size
                &&& final(self).spec_allocated(slot)
            }),
    {
        let slot = match bitmap_min(&self.allocatable) {
            Some(slot) => slot,
            None => {
                return None;
            },
        };
        let inserted = bitmap_insert(&mut self.allocating, slot);
        proof {
            assert(inserted);
        }
        crate::bitmap::bitmap_remove(&mut self.allocatable, slot);
        proof {
            assert(slot < self.total_slots);
            assert((slot as int) * (self.slot_size as int)
                <= (self.total_slots as int) * (self.slot_size as int))
                by (nonlinear_arith)
                requires
                    slot < self.total_slots,
                    self.slot_size >= 1,
            ;
        }
        let offset = self.slab_offset + (slot as u64) * (self.slot_size as u64);
        let e = Extent { location: DiskLocation { offset }, size: self.slot_size as u64 };
        proof {
            let m = spec_set_min(bits_of(&old(self).allocatable));
            assert(bits_of(&old(self).allocatable).contains(slot)
                && forall|x: u32| bits_of(&old(self).allocatable).contains(x) ==> slot <= x);
            assert(bits_of(&old(self).allocatable).contains(m)
                && forall|x: u32| bits_of(&old(self).allocatable).contains(x) ==> m <= x);
            assert(m == slot);
        }
        Some(e)
    }

    /// Give a slot back: it joins `freeing` and becomes allocatable only
    /// at the next flush. Freeing an allocatable or already-freeing slot
    /// is a double free and is ruled out.
    pub fn free_slot(&mut self, slot: u32)
        requires
            old(self).wf(),
            slot < old(self).total_slots,
            !bits_of(&old(self).allocatable).contains(slot),
            !bits_of(&old(self).freeing).contains(slot),
        ensures
            final(self).wf(),
            bits_of(&final(self).freeing) == bits_of(&old(self).freeing).insert(slot),
            bits_of(&final(self).allocatable) == bits_of(&old(self).allocatable),
            bits_of(&final(self).allocating)
                == bits_of(&old(self).allocating).remove(slot),
            final(self).total_slots == old(self).total_slots,
            final(self).slot_size == old(self).slot_size,
            final(self).slab_offset == old(self).slab_offset,
    {
        // an allocation not yet flushed that is freed again simply
        // leaves the allocating set: the same checkpoint sees neither
        crate::bitmap::bitmap_remove(&mut self.allocating, slot);
        bitmap_insert(&mut self.freeing, slot);
    }

    /// The condensed form of the slab: one `Alloc` record per run of
    /// consecutive allocated slots. Replayed after a generation bump,
    /// these records alone rebuild the slab's live allocation set.
    pub fn condense_entries(&self) -> (r: Vec<SpaceMapEntry>)
        requires
            self.wf(),
        ensures
            spec_condensed_for(self, r@),
    {
        let runs = self.allocated_ranges();
        let mut out: Vec<SpaceMapEntry> = Vec::new();
        let mut i: usize = 0;
        while i < runs.len()
            invariant
                self.wf(),
                i <= runs@.len(),
                out@.len() == i,
                forall|x: int| 0 <= x < runs@.len() ==> {
                    let rr = #[trigger] runs@[x];
                    &&& rr.0 <= rr.1 < self.total_slots
                    &&& forall|s: u32| rr.0 <= s <= rr.1 ==> self.spec_allocated(s)
                },
                forall|x: int| 0 <= x < i ==> ((#[trigger] out@[x]) matches
                    SpaceMapEntry::Alloc(e) && {
                        let rr = runs@[x];
                        &&& e.offset == self.spec_offset(rr.0)
                        &&& e.size == (rr.1 - rr.0 + 1) * self.slot_size
                    }),
            decreases runs@.len() - i,
        {
            let (first, last) = runs[i];
            proof {
                lemma_slot_arith(self, first, last);
            }
            let offset = self.slab_offset + (first as u64) * (self.slot_size as u64);
            let size = ((last - first) as u64 + 1) * (self.slot_size as u64);
            out.push(SpaceMapEntry::Alloc(SpaceMapExtent { offset, size }));
            i = i + 1;
        }
        proof {
            assert forall|slot: u32| self.spec_allocated(slot)
                implies exists|x: int| 0 <= x < out@.len() && ((#[trigger] out@[x]) matches
                    SpaceMapEntry::Alloc(e)
                    && e.offset <= self.spec_offset(slot)
                    && self.spec_offset(slot) + self.slot_size <= e.offset + e.size) by {
                let x = choose|x: int| 0 <= x < runs@.len()
                    && (#[trigger] runs@[x]).0 <= slot <= runs@[x].1;
                lemma_slot_arith(self, runs@[x].0, runs@[x].1);
                lemma_slot_within_run(self, runs@[x].0, runs@[x].1, slot);
                assert(out@[x] matches SpaceMapEntry::Alloc(e)
                    && e.offset <= self.spec_offset(slot)
                    && self.spec_offset(slot) + self.slot_size <= e.offset + e.size);
            }
            assert forall|i2: int| 0 <= i2 < out@.len() implies ((#[trigger] out@[i2]) matches
                SpaceMapEntry::Alloc(e) && exists|first: u32, last: u32|
                    #[trigger] run_matches(self, e, first, last)) by {
                let rr = runs@[i2];
                assert(out@[i2] matches SpaceMapEntry::Alloc(e)
                    && e.offset == self.spec_offset(rr.0)
                    && e.size == (rr.1 - rr.0 + 1) * self.slot_size);
                assert(out@[i2] matches SpaceMapEntry::Alloc(e)
                    && run_matches(self, e, rr.0, rr.1));
            }
        }
        out
    }

    /// The maximal runs of allocated slots.
    fn allocated_ranges(&self) -> (r: Vec<(u32, u32)>)
        requires
            self.wf(),
        ensures
            forall|x: int| 0 <= x < r@.len() ==> {
                let rr = #[trigger] r@[x];
                &&& rr.0 <= rr.1 < self.total_slots
                &&& forall|s: u32| rr.0 <= s <= rr.1 ==> self.spec_allocated(s)
            },
            forall|slot: u32| self.spec_allocated(slot)
                ==> exists|x: int| 0 <= x < r@.len()
                    && (#[trigger] r@[x]).0 <= slot <= r@[x].1,
    {
        let mut out: Vec<(u32, u32)> = Vec::new();
        let mut current: Option<u32> = None;
        let mut slot: u32 = 0;
        while slot < self.total_slots
            invariant
                self.wf(),
                slot <= self.total_slots,
                current matches Some(first) ==> first < slot
                    && (forall|s: u32| first <= s < slot ==> self.spec_allocated(s)),
                forall|x: int| 0 <= x < out@.len() ==> {
                    let rr = #[trigger] out@[x];
                    &&& rr.0 <= rr.1 < self.total_slots
                    &&& forall|s: u32| rr.0 <= s <= rr.1 ==> self.spec_allocated(s)
                },
                forall|s: u32| s < slot && self.spec_allocated(s)
                    ==> ((exists|x: int| 0 <= x < out@.len()
                        && (#[trigger] out@[x]).0 <= s <= out@[x].1)
                        || (current matches Some(first) && first <= s)),
            decreases self.total_slots - slot,
        {
            let allocated = !bitmap_contains(&self.allocatable, slot);
            let ghost pre_out = out@;
            let ghost pre_cur = current;
            let ghost pre_slot = slot;
            match (current, allocated) {
                (None, true) => {
                    current = Some(slot);
                },
                (Some(first), false) => {
                    out.push((first, slot - 1));
                    current = None;
                },
                _ => {
                },
            }
            slot = slot + 1;
            proof {
                assert forall|s: u32| s < slot && self.spec_allocated(s)
                    implies ((exists|x: int| 0 <= x < out@.len()
                        && (#[trigger] out@[x]).0 <= s <= out@[x].1)
                        || (current matches Some(first) && first <= s)) by {
                    if s < pre_slot {
                        if exists|x: int| 0 <= x < pre_out.len()
                            && (#[trigger] pre_out[x]).0 <= s <= pre_out[x].1 {
                            let x = choose|x: int| 0 <= x < pre_out.len()
                                && (#[trigger] pre_out[x]).0 <= s <= pre_out[x].1;
                            assert(out@[x] == pre_out[x]);
                        } else {
                            // the open run covered it; it either stays
                            // open or was just closed into the last entry
                            let first = pre_cur->Some_0;
                            assert(first <= s);
                            if out@.len() > pre_out.len() {
                                assert(out@[pre_out.len() as int]
                                    == (first, (pre_slot - 1) as u32));
                            }
                        }
                    } else {
                        // s is the slot just examined, and it is allocated
                        assert(s == pre_slot);
                        match pre_cur {
                            Some(first) => {
                                assert(current == Some(first));
                            },
                            None => {
                                assert(current == Some(pre_slot));
                            },
                        }
                    }
                }
            }
        }
        if let Some(first) = current {
            let ghost pre_out = out@;
            out.push((first, self.total_slots - 1));
            proof {
                assert forall|s: u32| self.spec_allocated(s)
                    implies exists|x: int| 0 <= x < out@.len()
                        && (#[trigger] out@[x]).0 <= s <= out@[x].1 by {
                    if exists|x: int| 0 <= x < pre_out.len()
                        && (#[trigger] pre_out[x]).0 <= s <= pre_out[x].1 {
                        let x = choose|x: int| 0 <= x < pre_out.len()
                            && (#[trigger] pre_out[x]).0 <= s <= pre_out[x].1;
                        assert(out@[x] == pre_out[x]);
                    } else {
                        assert(out@[out@.len() - 1] == (first, (self.total_slots - 1) as u32));
                    }
                }
            }
        }
        out
    }
}

/// The record `e` is the whole run `[first, last]` of allocated slots.
pub open spec fn run_matches(slab: &BitmapSlab, e: SpaceMapExtent, first: u32, last: u32) -> bool {
    &&& first <= last < slab.total_slots
    &&& e.offset == slab.spec_offset(first)
    &&& e.size == (last - first + 1) * slab.slot_size
    &&& forall|s: u32| first <= s <= last ==> slab.spec_allocated(s)
}

/// Offsets and sizes of a run stay within the slab and the machine.
proof fn lemma_slot_arith(slab: &BitmapSlab, first: u32, last: u32)
    requires
        slab.wf(),
        first <= last < slab.total_slots,
    ensures
        slab.spec_offset(first) + (last - first + 1) * slab.slot_size
            <= slab.slab_offset + (slab.total_slots as int) * (slab.slot_size as int),
        (last - first + 1) * slab.slot_size <= u32::MAX,
        (first as int) * (slab.slot_size as int) >= 0,
{
    assert((first as int) * (slab.slot_size as int) + (last - first + 1) * slab.slot_size
        == (last + 1) * slab.slot_size) by (nonlinear_arith);
    assert((last + 1) * slab.slot_size <= (slab.total_slots as int) * (slab.slot_size as int))
        by (nonlinear_arith)
        requires
            last + 1 <= slab.total_slots,
            slab.slot_size >= 1,
    ;
    assert((last - first + 1) * slab.slot_size
        <= (slab.total_slots as int) * (slab.slot_size as int)) by (nonlinear_arith)
        requires
            0 <= last - first + 1 <= slab.total_slots,
            slab.slot_size >= 1,
    ;
    vstd::arithmetic::mul::lemma_mul_nonnegative(first as int, slab.slot_size as int);
}

/// A slot inside a run lies inside the run's byte extent.
proof fn lemma_slot_within_run(slab: &BitmapSlab, first: u32, last: u32, slot: u32)
    requires
        slab.wf(),
        first <= slot <= last < slab.total_slots,
    ensures
        slab.spec_offset(first) <= slab.spec_offset(slot),
        slab.spec_offset(slot) + slab.slot_size
            <= slab.spec_offset(first) + (last - first + 1) * slab.slot_size,
{
    assert((first as int) * (slab.slot_size as int) <= (slot as int) * (slab.slot_size as int))
        by (nonlinear_arith)
        requires
            first <= slot,
            slab.slot_size >= 1,
    ;
    assert((slot as int) * (slab.slot_size as int) + slab.slot_size
        <= (first as int) * (slab.slot_size as int) + (last - first + 1) * slab.slot_size)
        by (nonlinear_arith)
        requires
            slot <= last,
            slab.slot_size >= 1,
    ;
}


/// `entries` is a condensed form of the slab: all allocations, each a
/// whole run of allocated slots, together covering every allocated slot.
pub open spec fn spec_condensed_for(slab: &BitmapSlab, entries: Seq<SpaceMapEntry>) -> bool {
    &&& forall|i: int| 0 <= i < entries.len() ==> (#[trigger] entries[i]) is Alloc
    &&& forall|i: int| 0 <= i < entries.len() ==> ((#[trigger] entries[i]) matches
        SpaceMapEntry::Alloc(e) && exists|first: u32, last: u32|
            #[trigger] run_matches(slab, e, first, last))
    &&& forall|slot: u32| slab.spec_allocated(slot)
        ==> exists|i: int| 0 <= i < entries.len() && ((#[trigger] entries[i]) matches
            SpaceMapEntry::Alloc(e)
            && e.offset <= slab.spec_offset(slot)
            && slab.spec_offset(slot) + slab.slot_size <= e.offset + e.size)
}

/// The slots `[first, first + n)`.
pub open spec fn spec_slot_range(first: u32, n: u32) -> Set<u32> {
    Set::new(|x: u32| first <= x && (x as int) < first + n)
}

/// Every slot of a slab.
pub open spec fn spec_full_slots(total: u32) -> Set<u32> {
    Set::new(|x: u32| x < total)
}

/// The slot run an extent denotes within a slab, where it is aligned and
/// in range; nothing where it is not.
pub open spec fn spec_extent_slots(
    e: SpaceMapExtent,
    slab_offset: u64,
    slot_size: u32,
    total: u32,
) -> Option<(u32, u32)> {
    if e.offset >= slab_offset
        && (e.offset - slab_offset) % (slot_size as int) == 0
        && (e.size as int) % (slot_size as int) == 0
        && e.size > 0
        && (e.offset - slab_offset) / (slot_size as int) + (e.size as int) / (slot_size as int)
            <= total
    {
        Some(
            (
                ((e.offset - slab_offset) / (slot_size as int)) as u32,
                ((e.size as int) / (slot_size as int)) as u32,
            ),
        )
    } else {
        None
    }
}

/// The allocatable set after applying gated operations in order: an
/// alloc takes slots that are all allocatable, a free returns slots that
/// are all taken; anything else marks the stream inconsistent.
pub open spec fn spec_import_ops(
    allocatable: Set<u32>,
    ops: Seq<SpaceMapOp>,
    slab_offset: u64,
    slot_size: u32,
    total: u32,
) -> Option<Set<u32>>
    decreases ops.len(),
{
    if ops.len() == 0 {
        Some(allocatable)
    } else {
        let (is_alloc, e) = ops[0];
        match spec_extent_slots(e, slab_offset, slot_size, total) {
            None => None,
            Some((first, n)) => {
                let range = spec_slot_range(first, n);
                if is_alloc {
                    if forall|x: u32| range.contains(x) ==> allocatable.contains(x) {
                        spec_import_ops(
                            allocatable.difference(range),
                            ops.skip(1),
                            slab_offset,
                            slot_size,
                            total,
                        )
                    } else {
                        None
                    }
                } else {
                    if forall|x: u32| range.contains(x) ==> !allocatable.contains(x) {
                        spec_import_ops(
                            allocatable.union(range),
                            ops.skip(1),
                            slab_offset,
                            slot_size,
                            total,
                        )
                    } else {
                        None
                    }
                }
            },
        }
    }
}

/// Rebuild a slab from its generation-gated space-map operations, as the
/// allocator does at open: start fully allocatable and fold each alloc
/// and free in. `None` exactly where the stream is inconsistent: a
/// misaligned or out-of-range extent, a double alloc, or a double free.
#[verifier::rlimit(100)]
#[verifier::spinoff_prover]
pub fn rebuild_slab(
    slab_offset: u64,
    slab_size: u32,
    block_size: u32,
    ops: &Vec<SpaceMapOp>,
) -> (r: Option<BitmapSlab>)
    requires
        block_size >= 1,
        slab_offset + slab_size <= u64::MAX,
    ensures
        ({
            let total = slab_size / block_size;
            let full = spec_full_slots(total as u32);
            match r {
                Some(s) => {
                    &&& s.wf()
                    &&& s.slab_offset == slab_offset
                    &&& s.slot_size == block_size
                    &&& s.total_slots == total
                    &&& spec_import_ops(full, ops@, slab_offset, block_size, total as u32)
                        == Some(bits_of(&s.allocatable))
                    &&& bits_of(&s.allocating) =~= Set::<u32>::empty()
                    &&& bits_of(&s.freeing) =~= Set::<u32>::empty()
                },
                None => spec_import_ops(full, ops@, slab_offset, block_size, total as u32)
                    is None,
            }
        }),
{
    let mut slab = BitmapSlab::new_slab(slab_offset, slab_size, block_size);
    let ghost total = slab.total_slots;
    let ghost full = spec_full_slots(total);
    proof {
        assert(bits_of(&slab.allocatable) =~= full);
        assert(ops@.skip(0) =~= ops@);
    }
    let mut i: usize = 0;
    let n = ops.len();
    while i < n
        invariant
            i <= n == ops@.len(),
            slab.wf(),
            slab.slab_offset == slab_offset,
            slab.slot_size == block_size,
            slab.total_slots == total,
            total == slab_size / block_size,
            block_size >= 1,
            bits_of(&slab.allocating) =~= Set::<u32>::empty(),
            bits_of(&slab.freeing) =~= Set::<u32>::empty(),
            spec_import_ops(
                bits_of(&slab.allocatable),
                ops@.skip(i as int),
                slab_offset,
                block_size,
                total,
            ) == spec_import_ops(spec_full_slots(total), ops@, slab_offset, block_size, total),
        decreases n - i,
    {
        proof {
            assert(ops@.skip(i as int)[0] == ops@[i as int]);
            assert(ops@.skip(i as int).skip(1) =~= ops@.skip(i + 1));
        }
        let (is_alloc, e) = ops[i];
        // the extent must be aligned and lie within the slab
        if e.offset < slab_offset {
            proof {
                assert(spec_extent_slots(e, slab_offset, block_size, total) is None);
                assert(spec_import_ops(
                    bits_of(&slab.allocatable), ops@.skip(i as int), slab_offset, block_size,
                    total,
                ) is None);
            }
            return None;
        }
        let rel = e.offset - slab_offset;
        if rel % (block_size as u64) != 0 || e.size % (block_size as u64) != 0 || e.size == 0 {
            proof {
                assert(spec_extent_slots(e, slab_offset, block_size, total) is None);
                assert(spec_import_ops(
                    bits_of(&slab.allocatable), ops@.skip(i as int), slab_offset, block_size,
                    total,
                ) is None);
            }
            return None;
        }
        let first64 = rel / (block_size as u64);
        let n64 = e.size / (block_size as u64);
        if n64 > slab.total_slots as u64 || first64 > slab.total_slots as u64 - n64 {
            proof {
                assert(first64 + n64 > total);
                assert(spec_extent_slots(e, slab_offset, block_size, total) is None);
                assert(spec_import_ops(
                    bits_of(&slab.allocatable), ops@.skip(i as int), slab_offset, block_size,
                    total,
                ) is None);
            }
            return None;
        }
        let first = first64 as u32;
        let cnt = n64 as u32;
        let ghost range = spec_slot_range(first, cnt);
        proof {
            assert(spec_extent_slots(e, slab_offset, block_size, total)
                == Some((first, cnt)));
        }
        let ghost pre_bits = bits_of(&slab.allocatable);
        let mut j: u32 = 0;
        while j < cnt
            invariant
                j <= cnt,
                first + cnt <= total,
                total == slab_size / block_size,
                block_size >= 1,
                slab.wf(),
                slab.slab_offset == slab_offset,
                slab.slot_size == block_size,
                slab.total_slots == total,
                bits_of(&slab.allocating) =~= Set::<u32>::empty(),
                bits_of(&slab.freeing) =~= Set::<u32>::empty(),
                i < ops@.len(),
                ops@.skip(i as int)[0] == (is_alloc, e),
                ops@.skip(i as int).len() == ops@.len() - i,
                spec_extent_slots(e, slab_offset, block_size, total) == Some((first, cnt)),
                spec_import_ops(pre_bits, ops@.skip(i as int), slab_offset, block_size, total)
                    == spec_import_ops(
                    spec_full_slots(total), ops@, slab_offset, block_size, total,
                ),
                is_alloc ==> {
                    &&& bits_of(&slab.allocatable) =~= pre_bits.difference(
                        Set::new(|x: u32| first <= x && (x as int) < first + j),
                    )
                    &&& forall|x: u32| first <= x && (x as int) < first + j
                        ==> pre_bits.contains(x)
                },
                !is_alloc ==> {
                    &&& bits_of(&slab.allocatable) =~= pre_bits.union(
                        Set::new(|x: u32| first <= x && (x as int) < first + j),
                    )
                    &&& forall|x: u32| first <= x && (x as int) < first + j
                        ==> !pre_bits.contains(x)
                },
            decreases cnt - j,
        {
            let slot = first + j;
            proof {
                assert(first <= slot && (slot as int) < first + cnt);
                assert(spec_slot_range(first, cnt).contains(slot));
            }
            if is_alloc {
                let removed = crate::bitmap::bitmap_remove(&mut slab.allocatable, slot);
                if !removed {
                    proof {
                        assert(!pre_bits.contains(slot));
                        assert(spec_import_ops(
                            pre_bits,
                            ops@.skip(i as int),
                            slab_offset,
                            block_size,
                            total,
                        ) is None);
                    }
                    return None;
                }
                proof {
                    assert(bits_of(&slab.allocatable) =~= pre_bits.difference(
                        Set::new(|x: u32| first <= x && (x as int) < first + j + 1),
                    ));
                    assert(pre_bits.contains(slot));
                }
            } else {
                let inserted = bitmap_insert(&mut slab.allocatable, slot);
                if !inserted {
                    proof {
                        assert(pre_bits.contains(slot));
                        assert(spec_import_ops(
                            pre_bits,
                            ops@.skip(i as int),
                            slab_offset,
                            block_size,
                            total,
                        ) is None);
                    }
                    return None;
                }
                proof {
                    assert(bits_of(&slab.allocatable) =~= pre_bits.union(
                        Set::new(|x: u32| first <= x && (x as int) < first + j + 1),
                    ));
                    assert(!pre_bits.contains(slot));
                }
            }
            j = j + 1;
        }
        proof {
            if is_alloc {
                assert(bits_of(&slab.allocatable) =~= pre_bits.difference(range));
                assert(forall|x: u32| range.contains(x) ==> pre_bits.contains(x));
            } else {
                assert(bits_of(&slab.allocatable) =~= pre_bits.union(range));
                assert(forall|x: u32| range.contains(x) ==> !pre_bits.contains(x));
            }
        }
        i = i + 1;
    }
    proof {
        assert(ops@.skip(n as int) =~= Seq::<SpaceMapOp>::empty());
    }
    Some(slab)
}


/// The slabs a checkpoint condenses this pass: `per_checkpoint` of them
/// starting at the cursor, each rewritten in condensed form for the next
/// spacemap. When the cursor reaches the end, the pass is over and the
/// next spacemap takes over (the rotation), so no old entry is needed:
/// each slab's live entries then sit in exactly one of the two spacemaps.
pub fn condense_window(slabs: &Vec<BitmapSlab>, cursor: usize, per_checkpoint: usize) -> (r: (
    Vec<Vec<SpaceMapEntry>>,
    usize,
    bool,
))
    requires
        cursor <= slabs@.len(),
        cursor + per_checkpoint <= usize::MAX,
        forall|k: int| 0 <= k < slabs@.len() ==> (#[trigger] slabs@[k]).wf(),
    ensures
        ({
            let end = if cursor + per_checkpoint <= slabs@.len() {
                cursor + per_checkpoint
            } else {
                slabs@.len() as int
            };
            &&& r.0@.len() == end - cursor
            &&& r.1 == end
            &&& r.2 == (end == slabs@.len())
            &&& forall|k: int| 0 <= k < r.0@.len()
                ==> spec_condensed_for(&slabs@[cursor + k], (#[trigger] r.0@[k])@)
        }),
{
    let end = if per_checkpoint <= slabs.len() - cursor {
        cursor + per_checkpoint
    } else {
        slabs.len()
    };
    let mut out: Vec<Vec<SpaceMapEntry>> = Vec::new();
    let mut k = cursor;
    while k < end
        invariant
            cursor <= k <= end <= slabs@.len(),
            out@.len() == k - cursor,
            forall|x: int| 0 <= x < slabs@.len() ==> (#[trigger] slabs@[x]).wf(),
            forall|x: int| 0 <= x < out@.len()
                ==> spec_condensed_for(&slabs@[cursor + x], (#[trigger] out@[x])@),
        decreases end - k,
    {
        let entries = slabs[k].condense_entries();
        out.push(entries);
        k = k + 1;
    }
    (out, end, end == slabs.len())
}

} // verus!
