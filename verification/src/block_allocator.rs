//! The cache block allocator over its slabs: allocation sizes map to
//! buckets, each bucket tries its slabs in turn from a rotating cursor,
//! and an exhausted bucket converts a free slab to its size. Frees route
//! by address to the slab that owns the extent.

use vstd::prelude::*;
use crate::base::Extent;
use crate::bitmap::bits_of;
use crate::slab::BitmapSlab;

verus! {

/// One allocation bucket: the slabs serving requests up to `max_size`,
/// and the cursor the next attempt starts from.
#[derive(Debug)]
pub struct SlabBucket {
    pub max_size: u32,
    pub slab_indexes: Vec<usize>,
    pub cursor: usize,
}

/// The allocator: formatted slabs, the offsets of still-free slabs, and
/// the buckets over the formatted ones.
#[derive(Debug)]
pub struct BlockAllocator {
    pub slabs: Vec<BitmapSlab>,
    pub free_slab_offsets: Vec<u64>,
    pub buckets: Vec<SlabBucket>,
    pub slab_size: u32,
}

/// One allocation of `e` happened in slab `i` and no other slab moved.
pub open spec fn spec_served_from(
    pre: Seq<BitmapSlab>,
    post: Seq<BitmapSlab>,
    i: int,
    e: Extent,
) -> bool {
    &&& 0 <= i < post.len()
    &&& pre.len() <= post.len()
    &&& forall|k: int| 0 <= k < pre.len() && k != i ==> #[trigger] post[k] == pre[k]
    &&& exists|slot: u32| {
        &&& #[trigger] post[i].spec_allocated(slot)
        &&& e.location.offset == post[i].spec_offset(slot)
        &&& e.size == post[i].slot_size
    }
}

/// One slot of slab `i` joined its freeing set and no other slab moved.
pub open spec fn spec_freed_into(pre: Seq<BitmapSlab>, post: Seq<BitmapSlab>, i: int) -> bool {
    &&& 0 <= i < post.len()
    &&& pre.len() == post.len()
    &&& forall|k: int| 0 <= k < post.len() && k != i ==> #[trigger] post[k] == pre[k]
    &&& exists|slot: u32| bits_of(&post[i].freeing)
        == bits_of(&pre[i].freeing).insert(slot)
}

impl BlockAllocator {
    pub open spec fn wf(&self) -> bool {
        &&& forall|k: int| 0 <= k < self.slabs@.len() ==> (#[trigger] self.slabs@[k]).wf()
        &&& forall|b: int| 0 <= b < self.buckets@.len() ==> {
            let bk = #[trigger] self.buckets@[b];
            &&& bk.cursor <= bk.slab_indexes@.len()
            &&& bk.max_size >= 1
            &&& bk.max_size <= self.slab_size
            &&& forall|k: int| 0 <= k < bk.slab_indexes@.len() ==> {
                &&& (#[trigger] bk.slab_indexes@[k]) < self.slabs@.len()
                &&& self.slabs@[bk.slab_indexes@[k] as int].slot_size == bk.max_size
            }
        }
        &&& self.slab_size >= 1
        &&& forall|o: int| 0 <= o < self.free_slab_offsets@.len()
            ==> (#[trigger] self.free_slab_offsets@[o]) + self.slab_size <= u64::MAX
    }

    /// The smallest bucket serving `size`, if any: buckets are tried in
    /// order of their limits.
    fn find_bucket(&self, size: u32) -> (r: Option<usize>)
        requires
            self.wf(),
        ensures
            match r {
                Some(b) => {
                    &&& b < self.buckets@.len()
                    &&& self.buckets@[b as int].max_size >= size
                    &&& forall|b2: int| 0 <= b2 < self.buckets@.len()
                        && (#[trigger] self.buckets@[b2]).max_size >= size
                        ==> self.buckets@[b as int].max_size <= self.buckets@[b2].max_size
                },
                None => forall|b2: int| 0 <= b2 < self.buckets@.len()
                    ==> (#[trigger] self.buckets@[b2]).max_size < size,
            },
    {
        let mut bst: Option<usize> = None;
        let mut b: usize = 0;
        while b < self.buckets.len()
            invariant
                self.wf(),
                b <= self.buckets@.len(),
                match bst {
                    Some(x) => {
                        &&& x < b
                        &&& self.buckets@[x as int].max_size >= size
                        &&& forall|b2: int| 0 <= b2 < b
                            && (#[trigger] self.buckets@[b2]).max_size >= size
                            ==> self.buckets@[x as int].max_size
                                <= self.buckets@[b2].max_size
                    },
                    None => forall|b2: int| 0 <= b2 < b
                        ==> (#[trigger] self.buckets@[b2]).max_size < size,
                },
            decreases self.buckets@.len() - b,
        {
            if self.buckets[b].max_size >= size {
                match bst {
                    Some(x) => {
                        if self.buckets[b].max_size < self.buckets[x].max_size {
                            bst = Some(b);
                        }
                    },
                    None => {
                        bst = Some(b);
                    },
                }
            }
            b = b + 1;
        }
        bst
    }

    /// Allocate `request_size` bytes: the smallest fitting bucket tries
    /// its slabs from the cursor onward; when they are all full, a free
    /// slab is formatted to the bucket's size and serves the request.
    /// Nothing comes back only when no bucket fits, or the bucket's
    /// remaining slabs are exhausted and no free slab is left.
    #[verifier::rlimit(100)]
    #[verifier::spinoff_prover]
    pub fn allocate(&mut self, request_size: u32) -> (r: Option<Extent>)
        requires
            old(self).wf(),
            request_size >= 1,
        ensures
            final(self).wf(),
            final(self).slab_size == old(self).slab_size,
            r matches Some(e) ==> {
                &&& e.size >= request_size
                &&& exists|i: int| #[trigger] spec_served_from(
                    old(self).slabs@,
                    final(self).slabs@,
                    i,
                    e,
                )
            },
            r is None ==> {
                &&& final(self).slabs@ == old(self).slabs@
                &&& (forall|b2: int| 0 <= b2 < old(self).buckets@.len()
                    ==> (#[trigger] old(self).buckets@[b2]).max_size < request_size)
                    || old(self).free_slab_offsets@.len() == 0
            },
    {
        let b = match self.find_bucket(request_size) {
            Some(b) => b,
            None => {
                return None;
            },
        };
        let ghost pre_slabs = self.slabs@;
        // try the bucket's slabs from the cursor onward
        let mut cur = self.buckets[b].cursor;
        let n = self.buckets[b].slab_indexes.len();
        while cur < n
            invariant
                self.wf(),
                b < self.buckets@.len(),
                self.buckets@[b as int].max_size >= request_size,
                n == self.buckets@[b as int].slab_indexes@.len(),
                cur <= n,
                self.slabs@ == old(self).slabs@,
                self.buckets@ == old(self).buckets@,
                self.free_slab_offsets@ == old(self).free_slab_offsets@,
                self.slab_size == old(self).slab_size,
                pre_slabs == self.slabs@,
            decreases n - cur,
        {
            let idx = self.buckets[b].slab_indexes[cur];
            let ghost before = self.slabs@;
            let got = self.slabs[idx].allocate(request_size);
            match got {
                Some(e) => {
                    self.buckets[b].cursor = cur;
                    proof {
                        assert(spec_served_from(pre_slabs, self.slabs@, idx as int, e));
                    }
                    return Some(e);
                },
                None => {
                    proof {
                        assert(self.slabs@ =~= before);
                    }
                    cur = cur + 1;
                },
            }
        }
        self.buckets[b].cursor = n;
        // every slab in the bucket is full: format a free slab
        let offset = match self.free_slab_offsets.pop() {
            Some(offset) => offset,
            None => {
                return None;
            },
        };
        let block_size = self.buckets[b].max_size;
        let mut new_slab = BitmapSlab::new_slab(offset, self.slab_size, block_size);
        let ghost ns0 = new_slab;
        proof {
            assert(new_slab.total_slots >= 1) by {
                vstd::arithmetic::div_mod::lemma_fundamental_div_mod(
                    self.slab_size as int,
                    block_size as int,
                );
                vstd::arithmetic::div_mod::lemma_mod_bound(
                    self.slab_size as int,
                    block_size as int,
                );
                assert(self.slab_size as int / block_size as int >= 1) by (nonlinear_arith)
                    requires
                        self.slab_size as int == block_size as int * (self.slab_size as int
                            / block_size as int) + self.slab_size as int % block_size as int,
                        (self.slab_size as int % block_size as int) < block_size as int,
                        block_size as int <= self.slab_size as int,
                        block_size >= 1,
                ;
            }
            assert(bits_of(&new_slab.allocatable).contains(0u32));
        }
        let e = match new_slab.allocate(request_size) {
            Some(e) => e,
            None => {
                proof {
                    assert(false);
                }
                return None;
            },
        };
        let new_index = self.slabs.len();
        self.slabs.push(new_slab);
        self.buckets[b].slab_indexes.push(new_index);
        proof {
            let slot = crate::slab::spec_set_min(bits_of(&ns0.allocatable));
            assert(self.slabs@[new_index as int].spec_allocated(slot));
            assert(spec_served_from(pre_slabs, self.slabs@, new_index as int, e));
        }
        Some(e)
    }

    /// Route a free to the slab owning the address; the slot returns to
    /// service at that slab's next flush.
    pub fn free(&mut self, e: Extent) -> (r: bool)
        requires
            old(self).wf(),
        ensures
            final(self).wf(),
            // true exactly when some slab owns the extent's slot-aligned
            // start and the slot is currently allocated and not already
            // freeing; that slot joins the slab's freeing set
            r ==> exists|i: int| #[trigger] spec_freed_into(
                old(self).slabs@,
                final(self).slabs@,
                i,
            ),
            !r ==> *final(self) == *old(self),
    {
        let mut i: usize = 0;
        let n = self.slabs.len();
        while i < n
            invariant
                self.wf(),
                i <= n == self.slabs@.len(),
                *self == *old(self),
            decreases n - i,
        {
            let s_off = self.slabs[i].slab_offset;
            let s_total = self.slabs[i].total_slots;
            let s_slot = self.slabs[i].slot_size;
            proof {
                assert(self.slabs@[i as int].wf());
                assert((s_total as int) * (s_slot as int) <= u32::MAX);
                assert((s_total as u64) * (s_slot as u64) <= u32::MAX) by (nonlinear_arith)
                    requires
                        (s_total as int) * (s_slot as int) <= u32::MAX,
                ;
            }
            let within = e.location.offset >= s_off
                && e.location.offset < s_off + (s_total as u64) * (s_slot as u64);
            if within {
                let rel = e.location.offset - self.slabs[i].slab_offset;
                if rel % (self.slabs[i].slot_size as u64) != 0 {
                    return false;
                }
                let slot64 = rel / (self.slabs[i].slot_size as u64);
                proof {
                    assert(slot64 < self.slabs@[i as int].total_slots as u64) by {
                        let ss = self.slabs@[i as int].slot_size as int;
                        let ts = self.slabs@[i as int].total_slots as int;
                        vstd::arithmetic::div_mod::lemma_fundamental_div_mod(rel as int, ss);
                        assert(rel < ts * ss) by (nonlinear_arith)
                            requires
                                rel < (ts as int) * (ss as int),
                        ;
                        assert(rel as int / ss < ts) by (nonlinear_arith)
                            requires
                                ss >= 1,
                                rel as int == ss * (rel as int / ss) + rel as int % ss,
                                0 <= rel as int % ss,
                                rel < ts * ss,
                        ;
                    }
                }
                let slot = slot64 as u32;
                let allocated = !crate::bitmap::bitmap_contains(
                    &self.slabs[i].allocatable,
                    slot,
                );
                let already = crate::bitmap::bitmap_contains(&self.slabs[i].freeing, slot);
                if !allocated || already {
                    return false;
                }
                let ghost pre = self.slabs@;
                self.slabs[i].free_slot(slot);
                proof {
                    assert(forall|k: int| 0 <= k < self.slabs@.len() && k != i as int
                        ==> (#[trigger] self.slabs@[k]) == pre[k]);
                    assert(bits_of(&self.slabs@[i as int].freeing)
                        == bits_of(&pre[i as int].freeing).insert(slot));
                    assert(spec_freed_into(old(self).slabs@, self.slabs@, i as int));
                }
                return true;
            }
            i = i + 1;
        }
        false
    }
}

} // verus!
