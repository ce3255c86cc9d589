//! The reclaim engine's bookkeeping: pending-free logs behind the
//! extendible hash table, routing of frees, removal of freed blocks from
//! a data object, and the trigger rule for a reclaim round.

use vstd::prelude::*;
use crate::base::BlockId;
use crate::base::ObjectId;
use crate::base::ReclaimLogId;
use crate::data_object::DataObjectPhys;
use crate::data_object::blocks_sorted;
use crate::data_object::spec_block_get;
use crate::data_object::spec_blocks_size;
use crate::object_block_map::ObjectBlockMap;
use crate::object_block_map::spec_block_to_object;
use crate::reclaim_table::ReclaimIndirectTable;
use crate::reclaim_table::RECLAIM_TABLE_MAX_BITS;
use crate::reclaim_table::p2;
use crate::reclaim_table::spec_table_slot;

verus! {

/// One block to reclaim, with its size.
#[derive(Debug, Copy, Clone, PartialEq, Eq, Structural)]
pub struct PendingFreesLogEntry {
    pub block: BlockId,
    pub size: u32,
}

/// The last recorded size of a data object.
#[derive(Debug, Copy, Clone, PartialEq, Eq, Structural)]
pub struct ObjectSize {
    pub object: ObjectId,
    pub num_blocks: u32,
    pub num_bytes: u32,
}

#[derive(Debug, Copy, Clone, PartialEq, Eq, Structural)]
pub enum ObjectSizeLogEntry {
    Exists(ObjectSize),
    Freed { object: ObjectId },
}

/// One reclaim log: the pending frees and object sizes of the objects
/// that hash to it, under its local depth and prefix.
#[derive(Debug)]
pub struct ReclaimLog {
    pub id: ReclaimLogId,
    pub reclaim_busy: bool,
    pub num_bits: u8,
    pub prefix: u16,
    pub pending_frees: Vec<PendingFreesLogEntry>,
    pub pending_free_bytes: u64,
    pub object_sizes: Vec<ObjectSizeLogEntry>,
}

pub open spec fn spec_frees_bytes(s: Seq<PendingFreesLogEntry>) -> int
    decreases s.len(),
{
    if s.len() == 0 {
        0
    } else {
        s[0].size + spec_frees_bytes(s.skip(1))
    }
}

/// The log an object selects in a table.
pub open spec fn spec_lookup(table: ReclaimIndirectTable, object: ObjectId) -> ReclaimLogId {
    table.log_ids@[spec_table_slot(object, table.table_bits as nat)]
}

/// The extendible hash structure: a table of `2^table_bits` slots over a
/// flat vector of logs, each slot pointing at the log whose prefix it
/// extends.
#[derive(Debug)]
pub struct ReclaimInfo {
    pub indirect_table: ReclaimIndirectTable,
    pub logs: Vec<ReclaimLog>,
}

impl ReclaimInfo {
    pub open spec fn wf(&self) -> bool {
        &&& self.indirect_table.wf()
        &&& 1 <= self.logs@.len() <= 65536
        &&& forall|k: int| 0 <= k < self.logs@.len()
            ==> (#[trigger] self.logs@[k]).id.0 == k
        &&& forall|k: int| 0 <= k < self.logs@.len() ==> {
            &&& (#[trigger] self.logs@[k]).num_bits <= self.indirect_table.table_bits
            &&& self.logs@[k].prefix < p2(self.logs@[k].num_bits as nat)
        }
        &&& forall|s: int| 0 <= s < self.indirect_table.log_ids@.len()
            ==> (#[trigger] self.indirect_table.log_ids@[s]).0 < self.logs@.len()
        &&& forall|s: int| 0 <= s < self.indirect_table.log_ids@.len() ==> {
            let lg = self.logs@[(#[trigger] self.indirect_table.log_ids@[s]).0 as int];
            &&& lg.num_bits <= self.indirect_table.table_bits
            &&& s / p2((self.indirect_table.table_bits - lg.num_bits) as nat) as int
                == lg.prefix
        }
    }

    /// A single log covering every object.
    pub fn new_single() -> (r: ReclaimInfo)
        ensures
            r.wf(),
            r.logs@.len() == 1,
            r.logs@[0].pending_frees@.len() == 0,
            r.logs@[0].object_sizes@.len() == 0,
            r.logs@[0].pending_free_bytes == 0,
    {
        let table = ReclaimIndirectTable::new_single();
        let mut logs: Vec<ReclaimLog> = Vec::new();
        logs.push(ReclaimLog {
            id: ReclaimLogId(0),
            reclaim_busy: false,
            num_bits: 0,
            prefix: 0,
            pending_frees: Vec::new(),
            pending_free_bytes: 0,
            object_sizes: Vec::new(),
        });
        let r = ReclaimInfo { indirect_table: table, logs };
        proof {
            assert forall|s: int| 0 <= s < r.indirect_table.log_ids@.len() implies {
                let lg = r.logs@[(#[trigger] r.indirect_table.log_ids@[s]).0 as int];
                &&& lg.num_bits <= r.indirect_table.table_bits
                &&& s / p2((r.indirect_table.table_bits - lg.num_bits) as nat) as int
                    == lg.prefix
            } by {
                assert(s == 0);
                assert(p2(0) == 1);
            }
            assert(p2(0) == 1);
        }
        r
    }

    /// The log covering `object`.
    pub fn get_log_id(&self, object: ObjectId) -> (r: ReclaimLogId)
        requires
            self.wf(),
        ensures
            r == spec_lookup(self.indirect_table, object),
            r.0 < self.logs@.len(),
    {
        self.indirect_table.lookup(object)
    }

    /// Route one free to the log covering its object, and account it.
    pub fn log_free(
        &mut self,
        ent: PendingFreesLogEntry,
        object_block_map: &ObjectBlockMap,
    ) -> (r: ReclaimLogId)
        requires
            old(self).wf(),
            object_block_map.wf(),
            ent.block.0 < object_block_map.spec_next_block().0,
            exists|i: int| 0 <= i < object_block_map.entries().len()
                && (#[trigger] object_block_map.entries()[i]).block.0 <= ent.block.0,
            forall|k: int| 0 <= k < old(self).logs@.len()
                ==> (#[trigger] old(self).logs@[k]).pending_free_bytes + ent.size <= u64::MAX,
        ensures
            final(self).wf(),
            r == spec_lookup(
                final(self).indirect_table,
                spec_block_to_object(object_block_map.entries(), ent.block),
            ),
            final(self).indirect_table == old(self).indirect_table,
            final(self).logs@.len() == old(self).logs@.len(),
            final(self).logs@[r.0 as int].pending_frees@
                == old(self).logs@[r.0 as int].pending_frees@.push(ent),
            final(self).logs@[r.0 as int].pending_free_bytes
                == old(self).logs@[r.0 as int].pending_free_bytes + ent.size,
            forall|k: int| 0 <= k < old(self).logs@.len() && k != r.0 as int
                ==> #[trigger] final(self).logs@[k] == old(self).logs@[k],
    {
        let object = object_block_map.block_to_object(ent.block);
        let id = self.get_log_id(object);
        let idx = id.as_index();
        let lg = &mut self.logs[idx];
        lg.pending_frees.push(ent);
        lg.pending_free_bytes = lg.pending_free_bytes + ent.size as u64;
        id
    }

    /// The log holding the most pending free bytes: the one a reclaim
    /// round drains first.
    pub fn pick_largest_log(&self) -> (r: ReclaimLogId)
        requires
            self.wf(),
        ensures
            r.0 < self.logs@.len(),
            forall|k: int| 0 <= k < self.logs@.len()
                ==> (#[trigger] self.logs@[k]).pending_free_bytes
                    <= self.logs@[r.0 as int].pending_free_bytes,
    {
        let mut best: usize = 0;
        let mut k: usize = 1;
        while k < self.logs.len()
            invariant
                best < k <= self.logs@.len() || (best == 0 && k <= self.logs@.len()),
                best < self.logs@.len(),
                k <= self.logs@.len(),
                forall|x: int| 0 <= x < k
                    ==> (#[trigger] self.logs@[x]).pending_free_bytes
                        <= self.logs@[best as int].pending_free_bytes,
            decreases self.logs@.len() - k,
        {
            if self.logs[k].pending_free_bytes > self.logs[best].pending_free_bytes {
                best = k;
            }
            k = k + 1;
        }
        proof {
            assert(self.logs@[best as int].id.0 == best);
        }
        self.logs[best].id
    }
}

/// Whether a reclaim round is due: enough pending free bytes relative to
/// the live bytes, and enough pending free blocks.
///
/// `highwater_pct` is a percentage: the round starts once
/// `pending_frees_bytes * 100 >= blocks_bytes * highwater_pct`.
pub fn reclaim_needed(
    pending_frees_bytes: u64,
    pending_frees_count: u64,
    blocks_bytes: u64,
    highwater_pct: u64,
    min_blocks: u64,
) -> (r: bool)
    requires
        blocks_bytes * highwater_pct <= u64::MAX,
        pending_frees_bytes * 100 <= u64::MAX,
    ensures
        r == (pending_frees_bytes * 100 >= blocks_bytes * highwater_pct
            && pending_frees_count >= min_blocks),
{
    pending_frees_bytes * 100 >= blocks_bytes * highwater_pct
        && pending_frees_count >= min_blocks
}

/// Blocks surviving the removal of `frees`, in order.
pub open spec fn spec_remove_frees(
    s: Seq<(BlockId, Vec<u8>)>,
    frees: Seq<PendingFreesLogEntry>,
) -> Seq<(BlockId, Vec<u8>)>
    decreases s.len(),
{
    if s.len() == 0 {
        Seq::empty()
    } else if spec_freed(frees, s.last().0) {
        spec_remove_frees(s.drop_last(), frees)
    } else {
        spec_remove_frees(s.drop_last(), frees).push(s.last())
    }
}

/// Some free names this block.
pub open spec fn spec_freed(frees: Seq<PendingFreesLogEntry>, b: BlockId) -> bool {
    exists|x: int| 0 <= x < frees.len() && (#[trigger] frees[x]).block == b
}

/// Reclaim never loses or duplicates a block: after removal, a freed
/// block reads as absent, and every other block reads exactly as before.
pub proof fn lemma_removed_blocks_read_absent(
    s: Seq<(BlockId, Vec<u8>)>,
    frees: Seq<PendingFreesLogEntry>,
    b: BlockId,
)
    requires
        blocks_sorted(s),
    ensures
        spec_block_get(spec_remove_frees(s, frees), b) == if spec_freed(frees, b) {
            None
        } else {
            spec_block_get(s, b)
        },
    decreases s.len(),
{
    if s.len() == 0 {
    } else {
        let d = s.drop_last();
        assert(blocks_sorted(d)) by {
            assert forall|i: int, j: int| #![trigger d[i], d[j]] 0 <= i < j < d.len()
                implies d[i].0.0 < d[j].0.0 by {
                assert(s[i].0.0 < s[j].0.0);
            }
        }
        lemma_removed_blocks_read_absent(d, frees, b);
        let last = s.last();
        if spec_freed(frees, last.0) {
            if b == last.0 {
                // the last block is freed; it must not reappear from the rest
                assert(spec_block_get(spec_remove_frees(d, frees), b) == if spec_freed(
                    frees,
                    b,
                ) {
                    None
                } else {
                    spec_block_get(d, b)
                });
            } else {
                assert(spec_block_get(s, b) == spec_block_get(d, b)) by {
                    lemma_get_drop_last_other(s, b);
                }
            }
        } else {
            let r0 = spec_remove_frees(d, frees);
            if b == last.0 {
                assert forall|x: int| 0 <= x < r0.len()
                    implies (#[trigger] r0[x]).0 != b by {
                    lemma_remove_frees_subset(d, frees, x);
                }
                lemma_get_snoc_found_blocks(r0, last);
                assert(spec_block_get(s, b) == Some(last.1@)) by {
                    lemma_get_last_of_sorted(s);
                }
            } else {
                lemma_get_snoc_other_blocks(r0, last, b);
                assert(spec_block_get(s, b) == spec_block_get(d, b)) by {
                    lemma_get_drop_last_other(s, b);
                }
            }
        }
    }
}

/// Every surviving entry was present before, with its block above any
/// earlier survivor (order is kept).
proof fn lemma_remove_frees_subset(
    s: Seq<(BlockId, Vec<u8>)>,
    frees: Seq<PendingFreesLogEntry>,
    x: int,
)
    requires
        0 <= x < spec_remove_frees(s, frees).len(),
    ensures
        exists|i: int| 0 <= i < s.len() && s[i] == spec_remove_frees(s, frees)[x],
    decreases s.len(),
{
    if s.len() > 0 {
        let d = s.drop_last();
        if spec_freed(frees, s.last().0) {
            lemma_remove_frees_subset(d, frees, x);
            let i = choose|i: int| 0 <= i < d.len() && d[i] == spec_remove_frees(d, frees)[x];
            assert(s[i] == d[i]);
        } else {
            if x < spec_remove_frees(d, frees).len() {
                lemma_remove_frees_subset(d, frees, x);
                let i = choose|i: int| 0 <= i < d.len() && d[i] == spec_remove_frees(d, frees)[x];
                assert(s[i] == d[i]);
            } else {
                assert(spec_remove_frees(s, frees)[x] == s.last());
                assert(s[s.len() - 1] == s.last());
            }
        }
    }
}

proof fn lemma_get_drop_last_other(s: Seq<(BlockId, Vec<u8>)>, b: BlockId)
    requires
        s.len() > 0,
        s.last().0 != b,
    ensures
        spec_block_get(s, b) == spec_block_get(s.drop_last(), b),
    decreases s.len(),
{
    if s.len() == 1 {
        assert(s.drop_last() =~= Seq::<(BlockId, Vec<u8>)>::empty());
    } else {
        assert(s[0] == s.drop_last()[0]);
        if s[0].0 != b {
            assert(s.skip(1).drop_last() =~= s.drop_last().skip(1));
            assert(s.skip(1).last() == s.last());
            lemma_get_drop_last_other(s.skip(1), b);
        }
    }
}

proof fn lemma_get_last_of_sorted(s: Seq<(BlockId, Vec<u8>)>)
    requires
        blocks_sorted(s),
        s.len() > 0,
    ensures
        spec_block_get(s, s.last().0) == Some(s.last().1@),
    decreases s.len(),
{
    if s.len() == 1 {
    } else {
        assert(s[0].0.0 < s.last().0.0);
        assert(blocks_sorted(s.skip(1))) by {
            let t = s.skip(1);
            assert forall|i: int, j: int| #![trigger t[i], t[j]] 0 <= i < j < t.len()
                implies t[i].0.0 < t[j].0.0 by {
                assert(s[i + 1].0.0 < s[j + 1].0.0);
            }
        }
        assert(s.skip(1).last() == s.last());
        lemma_get_last_of_sorted(s.skip(1));
    }
}

proof fn lemma_get_snoc_found_blocks(s: Seq<(BlockId, Vec<u8>)>, e: (BlockId, Vec<u8>))
    requires
        forall|x: int| 0 <= x < s.len() ==> (#[trigger] s[x]).0 != e.0,
    ensures
        spec_block_get(s.push(e), e.0) == Some(e.1@),
    decreases s.len(),
{
    if s.len() == 0 {
        assert(s.push(e)[0] == e);
    } else {
        assert(s.push(e)[0] == s[0]);
        assert(s.push(e).skip(1) =~= s.skip(1).push(e));
        assert(forall|x: int| 0 <= x < s.skip(1).len() ==> (#[trigger] s.skip(1)[x]).0 != e.0);
        lemma_get_snoc_found_blocks(s.skip(1), e);
    }
}

proof fn lemma_get_snoc_other_blocks(s: Seq<(BlockId, Vec<u8>)>, e: (BlockId, Vec<u8>), b: BlockId)
    requires
        b != e.0,
    ensures
        spec_block_get(s.push(e), b) == spec_block_get(s, b),
    decreases s.len(),
{
    if s.len() == 0 {
        assert(s.push(e)[0] == e);
        assert(s.push(e)[0].0 != b);
        assert(spec_block_get(s.push(e), b) == spec_block_get(s.push(e).skip(1), b));
        assert(s.push(e).skip(1) =~= Seq::<(BlockId, Vec<u8>)>::empty());
    } else {
        assert(s.push(e)[0] == s[0]);
        if s[0].0 != b {
            assert(spec_block_get(s.push(e), b) == spec_block_get(s.push(e).skip(1), b));
            assert(s.push(e).skip(1) =~= s.skip(1).push(e));
            lemma_get_snoc_other_blocks(s.skip(1), e, b);
            assert(spec_block_get(s, b) == spec_block_get(s.skip(1), b));
        } else {
            assert(spec_block_get(s.push(e), b) == Some(s[0].1@));
            assert(spec_block_get(s, b) == Some(s[0].1@));
        }
    }
}

/// Whether any of `frees` names `block`.
fn frees_contain(frees: &Vec<PendingFreesLogEntry>, block: BlockId) -> (r: bool)
    ensures
        r == spec_freed(frees@, block),
{
    let mut x: usize = 0;
    while x < frees.len()
        invariant
            x <= frees@.len(),
            forall|y: int| 0 <= y < x ==> (#[trigger] frees@[y]).block != block,
        decreases frees@.len() - x,
    {
        if frees[x].block.0 == block.0 {
            return true;
        }
        x = x + 1;
    }
    false
}

/// Remove the freed blocks from a data object, keeping its accounting
/// exact. A block already absent (a prior reclaim round crashed after
/// rewriting the object) is skipped without effect; every free ends with
/// its block absent either way.
pub fn remove_free_blocks(obj: &mut DataObjectPhys, frees: &Vec<PendingFreesLogEntry>) -> (r: (
    u64,
    u64,
))
    requires
        old(obj).wf(),
        forall|x: int| 0 <= x < frees@.len() ==> match spec_block_get(
            old(obj).blocks@,
            (#[trigger] frees@[x]).block,
        ) {
            Some(v) => v.len() == frees@[x].size,
            None => true,
        },
    ensures
        final(obj).wf(),
        final(obj).blocks@ == spec_remove_frees(old(obj).blocks@, frees@),
        final(obj).guid == old(obj).guid,
        final(obj).object == old(obj).object,
        final(obj).min_block == old(obj).min_block,
        final(obj).next_block == old(obj).next_block,
        final(obj).min_txg == old(obj).min_txg,
        final(obj).max_txg == old(obj).max_txg,
        // nothing is lost or duplicated: removed counts are exact
        r.0 == old(obj).blocks@.len() - final(obj).blocks@.len(),
        r.1 == old(obj).blocks_size - final(obj).blocks_size,
        forall|b: BlockId| spec_freed(frees@, b)
            ==> #[trigger] spec_block_get(final(obj).blocks@, b) is None,
{
    let ghost pre = obj.blocks@;
    let mut kept: Vec<(BlockId, Vec<u8>)> = Vec::new();
    let mut kept_size: u32 = 0;
    let mut removed_count: u64 = 0;
    let mut removed_bytes: u64 = 0;
    let mut i: usize = 0;
    let n = obj.blocks.len();
    let mut rest: Vec<(BlockId, Vec<u8>)> = Vec::new();
    std::mem::swap(&mut rest, &mut obj.blocks);
    proof {
        assert(pre.take(0) =~= Seq::<(BlockId, Vec<u8>)>::empty());
        lemma_blocks_size_take(pre, 0);
    }
    while i < n
        invariant
            i <= n == pre.len(),
            rest@ == pre.skip(i as int),
            kept@ == spec_remove_frees(pre.take(i as int), frees@),
            kept_size == spec_blocks_size(kept@),
            spec_blocks_size(pre) <= u32::MAX,
            removed_count == i - kept@.len(),
            removed_bytes == spec_blocks_size(pre.take(i as int)) - kept_size,
            forall|x: int| 0 <= x < frees@.len() ==> match spec_block_get(
                pre,
                (#[trigger] frees@[x]).block,
            ) {
                Some(v) => v.len() == frees@[x].size,
                None => true,
            },
        decreases n - i,
    {
        proof {
            assert(pre.take(i + 1).drop_last() =~= pre.take(i as int));
            assert(pre.take(i + 1).last() == pre[i as int]);
            assert(rest@[0] == pre[i as int]);
            lemma_blocks_size_take_step(pre, i as int);
        }
        let (b, data) = rest.remove(0);
        let dlen = data.len();
        if frees_contain(frees, b) {
            removed_count = removed_count + 1;
            proof {
                lemma_blocks_size_bound(pre, i as int);
            }
            removed_bytes = removed_bytes + dlen as u64;
        } else {
            proof {
                lemma_blocks_size_bound(pre, i as int);
                crate::data_object::lemma_blocks_size_snoc_pub(kept@, (b, data));
            }
            kept.push((b, data));
            kept_size = kept_size + dlen as u32;
        }
        i = i + 1;
    }
    proof {
        assert(pre.take(n as int) =~= pre);
    }
    obj.blocks = kept;
    obj.blocks_size = kept_size;
    proof {
        lemma_remove_frees_sorted(pre, frees@);
        assert forall|x: int| 0 <= x < obj.blocks@.len()
            implies obj.min_block.0 <= (#[trigger] obj.blocks@[x]).0.0 < obj.next_block.0 by {
            lemma_remove_frees_subset(pre, frees@, x);
        }
        assert forall|b: BlockId| spec_freed(frees@, b)
            implies #[trigger] spec_block_get(obj.blocks@, b) is None by {
            lemma_removed_blocks_read_absent(pre, frees@, b);
        }
    }
    (removed_count, removed_bytes)
}

proof fn lemma_remove_frees_sorted(s: Seq<(BlockId, Vec<u8>)>, frees: Seq<PendingFreesLogEntry>)
    requires
        blocks_sorted(s),
    ensures
        blocks_sorted(spec_remove_frees(s, frees)),
        spec_remove_frees(s, frees).len() <= s.len(),
        spec_blocks_size(spec_remove_frees(s, frees)) <= spec_blocks_size(s),
    decreases s.len(),
{
    crate::data_object::lemma_blocks_size_nonneg_pub(s);
    if s.len() > 0 {
        let d = s.drop_last();
        assert(blocks_sorted(d)) by {
            assert forall|i: int, j: int| #![trigger d[i], d[j]] 0 <= i < j < d.len()
                implies d[i].0.0 < d[j].0.0 by {
                assert(s[i].0.0 < s[j].0.0);
            }
        }
        lemma_remove_frees_sorted(d, frees);
        crate::data_object::lemma_blocks_size_drop_last_pub(s);
        if !spec_freed(frees, s.last().0) {
            let r0 = spec_remove_frees(d, frees);
            let r1 = r0.push(s.last());
            assert forall|i: int, j: int| #![trigger r1[i], r1[j]] 0 <= i < j < r1.len()
                implies r1[i].0.0 < r1[j].0.0 by {
                if j < r0.len() {
                    assert(r1[i] == r0[i]);
                    assert(r1[j] == r0[j]);
                } else {
                    assert(r1[j] == s.last());
                    assert(r1[i] == r0[i]);
                    lemma_remove_frees_subset(d, frees, i);
                    let w = choose|w: int| 0 <= w < d.len() && d[w] == r0[i];
                    assert(s[w] == d[w]);
                    assert(s[w].0.0 < s[s.len() - 1].0.0);
                }
            }
            crate::data_object::lemma_blocks_size_snoc_pub(r0, s.last());
        }
    }
}

/// `spec_blocks_size` over a prefix, for the removal loop's accounting.
proof fn lemma_blocks_size_take(s: Seq<(BlockId, Vec<u8>)>, i: int)
    requires
        0 <= i <= s.len(),
    ensures
        spec_blocks_size(s.take(i)) >= 0,
{
    crate::data_object::lemma_blocks_size_nonneg_pub(s.take(i));
}

proof fn lemma_blocks_size_take_step(s: Seq<(BlockId, Vec<u8>)>, i: int)
    requires
        0 <= i < s.len(),
    ensures
        spec_blocks_size(s.take(i + 1)) == spec_blocks_size(s.take(i)) + s[i].1@.len(),
{
    assert(s.take(i + 1) =~= s.take(i).push(s[i]));
    crate::data_object::lemma_blocks_size_snoc_pub(s.take(i), s[i]);
}

proof fn lemma_blocks_size_bound(s: Seq<(BlockId, Vec<u8>)>, i: int)
    requires
        0 <= i < s.len(),
    ensures
        spec_blocks_size(s.take(i)) + s[i].1@.len() <= spec_blocks_size(s),
    decreases s.len(),
{
    crate::data_object::lemma_blocks_size_nonneg_pub(s.skip(i + 1));
    assert(s =~= s.take(i + 1) + s.skip(i + 1));
    lemma_blocks_size_concat(s.take(i + 1), s.skip(i + 1));
    lemma_blocks_size_take_step(s, i);
}

proof fn lemma_blocks_size_concat(a: Seq<(BlockId, Vec<u8>)>, b: Seq<(BlockId, Vec<u8>)>)
    ensures
        spec_blocks_size(a + b) == spec_blocks_size(a) + spec_blocks_size(b),
    decreases a.len(),
{
    if a.len() == 0 {
        assert(a + b =~= b);
    } else {
        assert((a + b).skip(1) =~= a.skip(1) + b);
        assert((a + b)[0] == a[0]);
        lemma_blocks_size_concat(a.skip(1), b);
    }
}


/// The object an `ObjectSizeLogEntry` speaks of.
pub open spec fn size_entry_object(e: ObjectSizeLogEntry) -> ObjectId {
    match e {
        ObjectSizeLogEntry::Exists(os) => os.object,
        ObjectSizeLogEntry::Freed { object } => object,
    }
}

proof fn lemma_frees_bytes_concat(a: Seq<PendingFreesLogEntry>, b: Seq<PendingFreesLogEntry>)
    ensures
        spec_frees_bytes(a + b) == spec_frees_bytes(a) + spec_frees_bytes(b),
    decreases a.len(),
{
    if a.len() == 0 {
        assert(a + b =~= b);
    } else {
        assert((a + b).skip(1) =~= a.skip(1) + b);
        assert((a + b)[0] == a[0]);
        lemma_frees_bytes_concat(a.skip(1), b);
    }
}

proof fn lemma_frees_bytes_nonneg(s: Seq<PendingFreesLogEntry>)
    ensures
        spec_frees_bytes(s) >= 0,
    decreases s.len(),
{
    if s.len() > 0 {
        lemma_frees_bytes_nonneg(s.skip(1));
    }
}

proof fn lemma_frees_bytes_take_step(s: Seq<PendingFreesLogEntry>, x: int)
    requires
        0 <= x < s.len(),
    ensures
        spec_frees_bytes(s.take(x + 1)) == spec_frees_bytes(s.take(x)) + s[x].size,
        spec_frees_bytes(s.take(x + 1)) <= spec_frees_bytes(s),
{
    assert(s.take(x + 1) =~= s.take(x) + seq![s[x]]);
    lemma_frees_bytes_concat(s.take(x), seq![s[x]]);
    assert(spec_frees_bytes(seq![s[x]]) == s[x].size) by {
        assert(seq![s[x]].skip(1) =~= Seq::<PendingFreesLogEntry>::empty());
        assert(spec_frees_bytes(seq![s[x]])
            == s[x].size + spec_frees_bytes(seq![s[x]].skip(1)));
    }
    assert(s =~= s.take(x + 1) + s.skip(x + 1));
    lemma_frees_bytes_concat(s.take(x + 1), s.skip(x + 1));
    lemma_frees_bytes_nonneg(s.skip(x + 1));
}

impl ReclaimInfo {
    /// Split an overfull reclaim log: deepen its prefix, grow the table
    /// if it has no sibling slots left, create the sibling log, and deal
    /// the log's records out between the two by their hash.
    ///
    /// Objects that routed to this log still route to it or to its new
    /// sibling; the records partition accordingly, none lost.
    #[verifier::rlimit(100)]
    #[verifier::spinoff_prover]
    pub fn split_reclaim_log(&mut self, log_id: ReclaimLogId, obm: &ObjectBlockMap) -> (new_id:
        ReclaimLogId)
        requires
            old(self).wf(),
            obm.wf(),
            log_id.0 < old(self).logs@.len(),
            old(self).logs@.len() < 65536,
            old(self).logs@[log_id.0 as int].num_bits < RECLAIM_TABLE_MAX_BITS,
            !old(self).logs@[log_id.0 as int].reclaim_busy,
            forall|x: int| 0 <= x < old(self).logs@[log_id.0 as int].pending_frees@.len() ==> {
                let e = #[trigger] old(self).logs@[log_id.0 as int].pending_frees@[x];
                &&& e.block.0 < obm.spec_next_block().0
                &&& exists|i: int| 0 <= i < obm.entries().len()
                    && (#[trigger] obm.entries()[i]).block.0 <= e.block.0
                &&& spec_lookup(
                    old(self).indirect_table,
                    spec_block_to_object(obm.entries(), e.block),
                ) == log_id
            },
            forall|x: int| 0 <= x < old(self).logs@[log_id.0 as int].object_sizes@.len()
                ==> spec_lookup(
                    old(self).indirect_table,
                    size_entry_object(
                        #[trigger] old(self).logs@[log_id.0 as int].object_sizes@[x],
                    ),
                ) == log_id,
            old(self).logs@[log_id.0 as int].pending_free_bytes == spec_frees_bytes(
                old(self).logs@[log_id.0 as int].pending_frees@,
            ),
        ensures
            final(self).wf(),
            new_id.0 == old(self).logs@.len(),
            final(self).logs@.len() == old(self).logs@.len() + 1,
            // objects that routed here still route to one of the halves
            forall|o: ObjectId| #[trigger] spec_lookup(old(self).indirect_table, o) == log_id
                ==> spec_lookup(final(self).indirect_table, o) == log_id
                    || spec_lookup(final(self).indirect_table, o) == new_id,
            // the two halves
            final(self).logs@[log_id.0 as int].num_bits
                == old(self).logs@[log_id.0 as int].num_bits + 1,
            final(self).logs@[new_id.0 as int].num_bits
                == old(self).logs@[log_id.0 as int].num_bits + 1,
            // the split log keeps the even prefix; its sibling takes the odd
            final(self).logs@[log_id.0 as int].prefix
                == old(self).logs@[log_id.0 as int].prefix * 2,
            final(self).logs@[new_id.0 as int].prefix
                == old(self).logs@[log_id.0 as int].prefix * 2 + 1,
            final(self).logs@[log_id.0 as int].id == log_id,
            final(self).logs@[new_id.0 as int].id == new_id,
            final(self).indirect_table.table_bits == if old(self).logs@[log_id.0 as int].num_bits
                == old(self).indirect_table.table_bits {
                old(self).indirect_table.table_bits + 1
            } else {
                old(self).indirect_table.table_bits as int
            },
            // the records partition, none lost
            final(self).logs@[log_id.0 as int].pending_frees@.len()
                + final(self).logs@[new_id.0 as int].pending_frees@.len()
                == old(self).logs@[log_id.0 as int].pending_frees@.len(),
            final(self).logs@[log_id.0 as int].pending_free_bytes
                + final(self).logs@[new_id.0 as int].pending_free_bytes
                == old(self).logs@[log_id.0 as int].pending_free_bytes,
            final(self).logs@[log_id.0 as int].object_sizes@.len()
                + final(self).logs@[new_id.0 as int].object_sizes@.len()
                == old(self).logs@[log_id.0 as int].object_sizes@.len(),
            // each record sits in the half its hash selects
            forall|x: int| 0 <= x < final(self).logs@[log_id.0 as int].pending_frees@.len()
                ==> spec_lookup(
                    final(self).indirect_table,
                    spec_block_to_object(
                        obm.entries(),
                        (#[trigger] final(self).logs@[log_id.0 as int].pending_frees@[x]).block,
                    ),
                ) == log_id,
            forall|x: int| 0 <= x < final(self).logs@[new_id.0 as int].pending_frees@.len()
                ==> spec_lookup(
                    final(self).indirect_table,
                    spec_block_to_object(
                        obm.entries(),
                        (#[trigger] final(self).logs@[new_id.0 as int].pending_frees@[x]).block,
                    ),
                ) == new_id,
            // untouched logs keep their records
            forall|k: int| 0 <= k < old(self).logs@.len() && k != log_id.0 as int
                ==> (#[trigger] final(self).logs@[k]).pending_frees@
                    == old(self).logs@[k].pending_frees@
                    && final(self).logs@[k].object_sizes@ == old(self).logs@[k].object_sizes@,
    {
        let idx = log_id.as_index();
        let log_bits = self.logs[idx].num_bits;
        let log_prefix = self.logs[idx].prefix;
        let ghost table0 = self.indirect_table;
        let ghost tb0 = table0.table_bits as nat;
        let grew = self.indirect_table.table_bits == log_bits;
        if grew {
            self.indirect_table.grow_table();
        }
        let ghost table_g = self.indirect_table;
        let ghost tb1 = table_g.table_bits as nat;
        proof {
            crate::reclaim_table::lemma_p2_pos((log_bits + 1) as nat);
            assert(p2((log_bits + 1) as nat) == 2 * p2(log_bits as nat));
            assert(log_prefix < p2(log_bits as nat));
            crate::reclaim_table::lemma_p2_monotone((log_bits + 1) as nat, 16);
            assert(p2(16) == 65536) by {
                reveal_with_fuel(p2, 17);
            }
        }
        let new_prefix: u16 = log_prefix * 2 + 1;
        let new_log_id = ReclaimLogId(self.logs.len() as u16);
        self.logs[idx].num_bits = log_bits + 1;
        self.logs[idx].prefix = log_prefix * 2;
        self.indirect_table.update_siblings(log_bits + 1, new_prefix, new_log_id);
        let ghost table1 = self.indirect_table;
        proof {
            lemma_split_table(table0, table_g, table1, log_bits, log_prefix, log_id, new_log_id, grew);
        }
        let mut orig_frees: Vec<PendingFreesLogEntry> = Vec::new();
        std::mem::swap(&mut orig_frees, &mut self.logs[idx].pending_frees);
        let ghost all_frees = orig_frees@;
        let ghost total_bytes = self.logs@[idx as int].pending_free_bytes;
        self.logs[idx].pending_free_bytes = 0;
        let mut orig_sizes: Vec<ObjectSizeLogEntry> = Vec::new();
        std::mem::swap(&mut orig_sizes, &mut self.logs[idx].object_sizes);
        let ghost all_sizes = orig_sizes@;
        self.logs.push(ReclaimLog {
            id: new_log_id,
            reclaim_busy: false,
            num_bits: log_bits + 1,
            prefix: new_prefix,
            pending_frees: Vec::new(),
            pending_free_bytes: 0,
            object_sizes: Vec::new(),
        });
        proof {
            lemma_split_wf(
                *old(self), table0, table_g, table1, *self, log_bits, log_prefix, log_id,
                new_log_id, grew,
            );
        }
        let ghost mid = *self;
        // deal the frees out between the two halves
        let mut x: usize = 0;
        let n = orig_frees.len();
        proof {
            assert(all_frees.take(0) =~= Seq::<PendingFreesLogEntry>::empty());
            lemma_frees_bytes_nonneg(all_frees);
        }
        while x < n
            invariant
                self.wf(),
                mid.wf(),
                *self == (ReclaimInfo { logs: self.logs, ..mid }),
                self.logs@.len() == mid.logs@.len(),
                forall|k: int| 0 <= k < self.logs@.len() && k != idx as int
                    && k != new_log_id.0 as int ==> #[trigger] self.logs@[k] == mid.logs@[k],
                self.logs@[idx as int] == (ReclaimLog {
                    pending_frees: self.logs@[idx as int].pending_frees,
                    pending_free_bytes: self.logs@[idx as int].pending_free_bytes,
                    ..mid.logs@[idx as int]
                }),
                self.logs@[new_log_id.0 as int] == (ReclaimLog {
                    pending_frees: self.logs@[new_log_id.0 as int].pending_frees,
                    pending_free_bytes: self.logs@[new_log_id.0 as int].pending_free_bytes,
                    ..mid.logs@[new_log_id.0 as int]
                }),
                idx == log_id.0 as int,
                new_log_id.0 as int == self.logs@.len() - 1,
                idx < self.logs@.len() - 1,
                x <= n == all_frees.len(),
                orig_frees@ == all_frees,
                obm.wf(),
                self.indirect_table == table1,
                forall|y: int| 0 <= y < all_frees.len() ==> {
                    let e = #[trigger] all_frees[y];
                    &&& e.block.0 < obm.spec_next_block().0
                    &&& exists|i: int| 0 <= i < obm.entries().len()
                        && (#[trigger] obm.entries()[i]).block.0 <= e.block.0
                    &&& spec_lookup(table0, spec_block_to_object(obm.entries(), e.block))
                        == log_id
                },
                forall|o: ObjectId| #[trigger] spec_lookup(table0, o) == log_id
                    ==> spec_lookup(table1, o) == log_id || spec_lookup(table1, o) == new_log_id,
                self.logs@[idx as int].pending_frees@.len()
                    + self.logs@[new_log_id.0 as int].pending_frees@.len() == x,
                self.logs@[idx as int].pending_free_bytes
                    + self.logs@[new_log_id.0 as int].pending_free_bytes
                    == spec_frees_bytes(all_frees.take(x as int)),
                spec_frees_bytes(all_frees) == total_bytes,
                total_bytes <= u64::MAX,
                forall|y: int| 0 <= y < self.logs@[idx as int].pending_frees@.len()
                    ==> spec_lookup(
                        table1,
                        spec_block_to_object(
                            obm.entries(),
                            (#[trigger] self.logs@[idx as int].pending_frees@[y]).block,
                        ),
                    ) == log_id,
                forall|y: int| 0 <= y < self.logs@[new_log_id.0 as int].pending_frees@.len()
                    ==> spec_lookup(
                        table1,
                        spec_block_to_object(
                            obm.entries(),
                            (#[trigger] self.logs@[new_log_id.0 as int].pending_frees@[y]).block,
                        ),
                    ) == new_log_id,
            decreases n - x,
        {
            let e = orig_frees[x];
            proof {
                lemma_frees_bytes_take_step(all_frees, x as int);
                lemma_frees_bytes_nonneg(all_frees.take(x as int));
            }
            let o = obm.block_to_object(e.block);
            let id1 = self.indirect_table.lookup(o);
            proof {
                assert(spec_lookup(table0, spec_block_to_object(obm.entries(), e.block))
                    == log_id);
                assert(spec_lookup(table1, o) == log_id || spec_lookup(table1, o) == new_log_id);
            }
            if id1.0 == log_id.0 {
                let lg = &mut self.logs[idx];
                lg.pending_frees.push(e);
                lg.pending_free_bytes = lg.pending_free_bytes + e.size as u64;
            } else {
                let nidx = new_log_id.as_index();
                let lg = &mut self.logs[nidx];
                lg.pending_frees.push(e);
                lg.pending_free_bytes = lg.pending_free_bytes + e.size as u64;
            }
            x = x + 1;
        }
        proof {
            assert(all_frees.take(n as int) =~= all_frees);
        }
        // deal the object sizes out
        let mut y: usize = 0;
        let m = orig_sizes.len();
        let ghost mid2 = *self;
        while y < m
            invariant
                self.wf(),
                mid2.wf(),
                *self == (ReclaimInfo { logs: self.logs, ..mid2 }),
                self.logs@.len() == mid2.logs@.len(),
                forall|k: int| 0 <= k < self.logs@.len() && k != idx as int
                    && k != new_log_id.0 as int ==> #[trigger] self.logs@[k] == mid2.logs@[k],
                self.logs@[idx as int] == (ReclaimLog {
                    object_sizes: self.logs@[idx as int].object_sizes,
                    ..mid2.logs@[idx as int]
                }),
                self.logs@[new_log_id.0 as int] == (ReclaimLog {
                    object_sizes: self.logs@[new_log_id.0 as int].object_sizes,
                    ..mid2.logs@[new_log_id.0 as int]
                }),
                idx == log_id.0 as int,
                new_log_id.0 as int == self.logs@.len() - 1,
                idx < self.logs@.len() - 1,
                y <= m == all_sizes.len(),
                orig_sizes@ == all_sizes,
                self.indirect_table == table1,
                forall|z: int| 0 <= z < all_sizes.len()
                    ==> spec_lookup(table0, size_entry_object(#[trigger] all_sizes[z]))
                        == log_id,
                forall|o: ObjectId| #[trigger] spec_lookup(table0, o) == log_id
                    ==> spec_lookup(table1, o) == log_id || spec_lookup(table1, o) == new_log_id,
                self.logs@[idx as int].object_sizes@.len()
                    + self.logs@[new_log_id.0 as int].object_sizes@.len() == y,
            decreases m - y,
        {
            let e = orig_sizes[y];
            let o = match e {
                ObjectSizeLogEntry::Exists(os) => os.object,
                ObjectSizeLogEntry::Freed { object } => object,
            };
            let id1 = self.indirect_table.lookup(o);
            proof {
                assert(spec_lookup(table0, size_entry_object(all_sizes[y as int])) == log_id);
            }
            if id1.0 == log_id.0 {
                self.logs[idx].object_sizes.push(e);
            } else {
                let nidx = new_log_id.as_index();
                self.logs[nidx].object_sizes.push(e);
            }
            y = y + 1;
        }
        new_log_id
    }
}

/// The split structure is well formed again: every slot still names a
/// log whose prefix it extends.
#[verifier::rlimit(100)]
#[verifier::spinoff_prover]
proof fn lemma_split_wf(
    pre: ReclaimInfo,
    table0: ReclaimIndirectTable,
    table_g: ReclaimIndirectTable,
    table1: ReclaimIndirectTable,
    post: ReclaimInfo,
    log_bits: u8,
    log_prefix: u16,
    log_id: ReclaimLogId,
    new_log_id: ReclaimLogId,
    grew: bool,
)
    requires
        pre.wf(),
        pre.indirect_table == table0,
        log_id.0 < pre.logs@.len(),
        pre.logs@.len() < 65536,
        pre.logs@[log_id.0 as int].num_bits == log_bits,
        pre.logs@[log_id.0 as int].prefix == log_prefix,
        log_bits < RECLAIM_TABLE_MAX_BITS,
        log_prefix < p2(log_bits as nat),
        grew == (table0.table_bits == log_bits),
        grew ==> {
            &&& table_g.table_bits == table0.table_bits + 1
            &&& table_g.wf()
            &&& forall|i: int| 0 <= i < table_g.log_ids@.len()
                ==> #[trigger] table_g.log_ids@[i] == table0.log_ids@[i / 2]
        },
        !grew ==> table_g == table0,
        table1.wf(),
        table1.table_bits == table_g.table_bits,
        table1.log_ids@.len() == table_g.log_ids@.len(),
        forall|i: int| 0 <= i < table1.log_ids@.len()
            ==> #[trigger] table1.log_ids@[i] == if i / p2(
                (table_g.table_bits - (log_bits + 1)) as nat,
            ) as int == log_prefix * 2 + 1 {
                new_log_id
            } else {
                table_g.log_ids@[i]
            },
        new_log_id.0 == pre.logs@.len(),
        post.indirect_table == table1,
        post.logs@.len() == pre.logs@.len() + 1,
        forall|k: int| 0 <= k < pre.logs@.len() && k != log_id.0 as int ==> {
            &&& (#[trigger] post.logs@[k]).id == pre.logs@[k].id
            &&& post.logs@[k].num_bits == pre.logs@[k].num_bits
            &&& post.logs@[k].prefix == pre.logs@[k].prefix
        },
        post.logs@[log_id.0 as int].id == log_id,
        post.logs@[log_id.0 as int].num_bits == log_bits + 1,
        post.logs@[log_id.0 as int].prefix == log_prefix * 2,
        post.logs@[new_log_id.0 as int].id == new_log_id,
        post.logs@[new_log_id.0 as int].num_bits == log_bits + 1,
        post.logs@[new_log_id.0 as int].prefix == log_prefix * 2 + 1,
    ensures
        post.wf(),
{
    let tb0 = table0.table_bits as nat;
    let tb1 = table1.table_bits as nat;
    let lb = log_bits as nat;
    let lp = log_prefix as int;
    assert(p2((lb + 1) as nat) == 2 * p2(lb));
    // per-log metadata clauses
    assert forall|k: int| 0 <= k < post.logs@.len() implies {
        &&& (#[trigger] post.logs@[k]).id.0 == k
        &&& post.logs@[k].num_bits <= post.indirect_table.table_bits
        &&& post.logs@[k].prefix < p2(post.logs@[k].num_bits as nat)
    } by {
        if k == log_id.0 as int || k == new_log_id.0 as int {
            if grew {
            } else {
                assert(pre.logs@[log_id.0 as int].num_bits < table0.table_bits);
            }
        } else {
            assert(pre.logs@[k].id.0 == k);
        }
    }
    // slot bounds and slot-prefix consistency
    assert forall|s: int| 0 <= s < table1.log_ids@.len() implies {
        &&& (#[trigger] table1.log_ids@[s]).0 < post.logs@.len()
        &&& {
            let lg = post.logs@[table1.log_ids@[s].0 as int];
            &&& lg.num_bits <= table1.table_bits
            &&& s / p2((table1.table_bits - lg.num_bits) as nat) as int == lg.prefix
        }
    } by {
        let sibling = s / p2((table_g.table_bits - (log_bits + 1)) as nat) as int
            == log_prefix * 2 + 1;
        crate::reclaim_table::lemma_p2_pos((tb1 - (lb + 1)) as nat);
        if sibling {
            assert(table1.log_ids@[s] == new_log_id);
        } else {
            assert(table1.log_ids@[s] == table_g.log_ids@[s]);
            let val = table_g.log_ids@[s];
            if grew {
                assert(table_g.log_ids@[s] == table0.log_ids@[s / 2]);
                assert(0 <= s / 2 < table0.log_ids@.len()) by {
                    assert(table_g.log_ids@.len() == p2(tb1));
                    assert(p2(tb1) == 2 * p2(tb0));
                }
                let val0 = table0.log_ids@[s / 2];
                assert(val == val0);
                let lg0 = pre.logs@[val0.0 as int];
                assert((s / 2) / p2((tb0 - lg0.num_bits as nat) as nat) as int == lg0.prefix);
                if val0 == log_id {
                    // tb0 == lb here, so the old slot is the prefix itself
                    assert(tb0 == lb);
                    assert(p2((tb0 - lb) as nat) == 1);
                    vstd::arithmetic::div_mod::lemma_div_basics(s / 2);
                    assert(s / 2 == lp);
                    assert(p2((tb1 - (lb + 1)) as nat) == 1);
                    vstd::arithmetic::div_mod::lemma_div_basics(s);
                    vstd::arithmetic::div_mod::lemma_fundamental_div_mod(s, 2);
                    assert(s == 2 * lp || s == 2 * lp + 1);
                    assert(s != 2 * lp + 1);
                    assert(s / p2((tb1 - (lb + 1)) as nat) as int == s);
                    assert(post.logs@[val0.0 as int].num_bits == log_bits + 1);
                    assert(post.logs@[val0.0 as int].prefix == 2 * lp);
                } else {
                    let nb = lg0.num_bits as nat;
                    assert(nb <= tb0);
                    crate::reclaim_table::lemma_p2_pos((tb0 - nb) as nat);
                    vstd::arithmetic::div_mod::lemma_div_denominator(
                        s,
                        2,
                        p2((tb0 - nb) as nat) as int,
                    );
                    assert(2 * p2((tb0 - nb) as nat) == p2((tb1 - nb) as nat));
                    assert(s / p2((tb1 - nb) as nat) as int
                        == (s / 2) / p2((tb0 - nb) as nat) as int);
                    assert(post.logs@[val0.0 as int].num_bits == lg0.num_bits);
                    assert(post.logs@[val0.0 as int].prefix == lg0.prefix);
                }
            } else {
                let lg0 = pre.logs@[val.0 as int];
                assert(s / p2((tb0 - lg0.num_bits as nat) as nat) as int == lg0.prefix);
                if val == log_id {
                    let q = s / p2((tb1 - (lb + 1)) as nat) as int;
                    crate::reclaim_table::lemma_p2_pos((tb1 - (lb + 1)) as nat);
                    vstd::arithmetic::div_mod::lemma_div_denominator(
                        s,
                        p2((tb1 - (lb + 1)) as nat) as int,
                        2,
                    );
                    assert(p2((tb1 - (lb + 1)) as nat) * 2 == p2((tb0 - lb) as nat)) by {
                        assert((tb1 - (lb + 1)) as nat + 1 == (tb0 - lb) as nat);
                        assert(p2((tb1 - (lb + 1)) as nat + 1)
                            == 2 * p2((tb1 - (lb + 1)) as nat));
                        assert(p2((tb1 - (lb + 1)) as nat) * 2
                            == 2 * p2((tb1 - (lb + 1)) as nat)) by (nonlinear_arith);
                    }
                    assert(q / 2 == s / p2((tb0 - lb) as nat) as int);
                    assert(q / 2 == lp);
                    vstd::arithmetic::div_mod::lemma_fundamental_div_mod(q, 2);
                    assert(q == 2 * lp || q == 2 * lp + 1);
                    assert(q != 2 * lp + 1);
                    assert(post.logs@[val.0 as int].num_bits == log_bits + 1);
                    assert(post.logs@[val.0 as int].prefix == 2 * lp);
                } else {
                    assert(post.logs@[val.0 as int].num_bits == lg0.num_bits);
                    assert(post.logs@[val.0 as int].prefix == lg0.prefix);
                }
            }
        }
    }
}

/// After growing the table and pointing the sibling slots at the new log,
/// every object that routed to the split log routes to it or its sibling,
/// and the slot-to-prefix invariant holds again.
#[verifier::rlimit(100)]
#[verifier::spinoff_prover]
proof fn lemma_split_table(
    table0: ReclaimIndirectTable,
    table_g: ReclaimIndirectTable,
    table1: ReclaimIndirectTable,
    log_bits: u8,
    log_prefix: u16,
    log_id: ReclaimLogId,
    new_log_id: ReclaimLogId,
    grew: bool,
)
    requires
        table0.wf(),
        table_g.wf(),
        table1.wf(),
        log_bits < RECLAIM_TABLE_MAX_BITS,
        log_prefix < p2(log_bits as nat),
        grew == (table0.table_bits == log_bits),
        grew ==> {
            &&& table_g.table_bits == table0.table_bits + 1
            &&& forall|i: int| 0 <= i < table_g.log_ids@.len()
                ==> #[trigger] table_g.log_ids@[i] == table0.log_ids@[i / 2]
        },
        !grew ==> table_g == table0,
        !grew ==> log_bits < table0.table_bits,
        table1.table_bits == table_g.table_bits,
        table1.log_ids@.len() == table_g.log_ids@.len(),
        forall|i: int| 0 <= i < table1.log_ids@.len()
            ==> #[trigger] table1.log_ids@[i] == if i / p2(
                (table_g.table_bits - (log_bits + 1)) as nat,
            ) as int == log_prefix * 2 + 1 {
                new_log_id
            } else {
                table_g.log_ids@[i]
            },
    ensures
        forall|o: ObjectId| #[trigger] spec_lookup(table0, o) == log_id
            ==> spec_lookup(table1, o) == log_id || spec_lookup(table1, o) == new_log_id,
{
    let tb0 = table0.table_bits as nat;
    let tb1 = table1.table_bits as nat;
    assert forall|o: ObjectId| #[trigger] spec_lookup(table0, o) == log_id
        implies spec_lookup(table1, o) == log_id || spec_lookup(table1, o) == new_log_id by {
        crate::reclaim_table::lemma_hash_range(o);
        crate::reclaim_table::lemma_slot_in_range(crate::reclaim_table::spec_object_hash(o), tb0);
        crate::reclaim_table::lemma_slot_in_range(crate::reclaim_table::spec_object_hash(o), tb1);
        let s0 = spec_table_slot(o, tb0);
        let s1 = spec_table_slot(o, tb1);
        if grew {
            crate::reclaim_table::lemma_slot_refines(o, tb0);
            assert(s0 == s1 / 2);
            assert(table_g.log_ids@[s1] == table0.log_ids@[s1 / 2]);
            assert(table_g.log_ids@[s1] == log_id);
        } else {
            assert(s0 == s1);
            assert(table_g.log_ids@[s1] == log_id);
        }
        assert(table1.log_ids@[s1] == if s1 / p2((tb1 - (log_bits + 1)) as nat) as int
            == log_prefix * 2 + 1 {
            new_log_id
        } else {
            table_g.log_ids@[s1]
        });
    }
}


/// Entries strictly increasing by object.
pub open spec fn sizes_sorted(s: Seq<ObjectSize>) -> bool {
    forall|i: int, j: int| #![trigger s[i], s[j]]
        0 <= i < j < s.len() ==> s[i].object.0 < s[j].object.0
}

/// The number of entries whose object is below `object`; also the
/// position of `object` itself if present.
pub open spec fn spec_size_pos(s: Seq<ObjectSize>, object: ObjectId) -> int
    decreases s.len(),
{
    if s.len() == 0 {
        0
    } else if s.last().object.0 < object.0 {
        s.len() as int
    } else {
        spec_size_pos(s.drop_last(), object)
    }
}

/// Fold one object-size record into the sorted set: a size upserts its
/// object, a free removes it; freeing an absent object is inconsistent.
pub open spec fn spec_sizes_step(s: Seq<ObjectSize>, e: ObjectSizeLogEntry) -> Option<
    Seq<ObjectSize>,
> {
    match e {
        ObjectSizeLogEntry::Exists(os) => {
            let pos = spec_size_pos(s, os.object);
            if pos < s.len() && s[pos].object == os.object {
                Some(s.update(pos, os))
            } else {
                Some(s.insert(pos, os))
            }
        },
        ObjectSizeLogEntry::Freed { object } => {
            let pos = spec_size_pos(s, object);
            if pos < s.len() && s[pos].object == object {
                Some(s.remove(pos))
            } else {
                None
            }
        },
    }
}

/// Replay of a whole object-size log.
pub open spec fn spec_sizes_replay(entries: Seq<ObjectSizeLogEntry>) -> Option<Seq<ObjectSize>>
    decreases entries.len(),
{
    if entries.len() == 0 {
        Some(Seq::empty())
    } else {
        match spec_sizes_replay(entries.drop_last()) {
            None => None,
            Some(s) => spec_sizes_step(s, entries.last()),
        }
    }
}

proof fn lemma_size_pos_props(s: Seq<ObjectSize>, object: ObjectId)
    requires
        sizes_sorted(s),
    ensures
        0 <= spec_size_pos(s, object) <= s.len(),
        forall|k: int| 0 <= k < spec_size_pos(s, object)
            ==> (#[trigger] s[k]).object.0 < object.0,
        forall|k: int| spec_size_pos(s, object) <= k < s.len()
            ==> (#[trigger] s[k]).object.0 >= object.0,
    decreases s.len(),
{
    if s.len() > 0 {
        let d = s.drop_last();
        assert(forall|k: int| 0 <= k < d.len() ==> #[trigger] d[k] == s[k]);
        assert(sizes_sorted(d)) by {
            assert forall|i: int, j: int| #![trigger d[i], d[j]] 0 <= i < j < d.len()
                implies d[i].object.0 < d[j].object.0 by {
                assert(s[i].object.0 < s[j].object.0);
            }
        }
        lemma_size_pos_props(d, object);
        if s.last().object.0 < object.0 {
            assert forall|k: int| 0 <= k < s.len()
                implies (#[trigger] s[k]).object.0 < object.0 by {
                assert(k < s.len() - 1 ==> s[k].object.0 < s[s.len() - 1].object.0);
            }
        } else {
            let pos = spec_size_pos(s, object);
            assert(pos == spec_size_pos(d, object));
            assert forall|k: int| 0 <= k < pos
                implies (#[trigger] s[k]).object.0 < object.0 by {
                assert(d[k].object.0 < object.0);
            }
            assert forall|k: int| pos <= k < s.len()
                implies (#[trigger] s[k]).object.0 >= object.0 by {
                if k < s.len() - 1 {
                    assert(d[k].object.0 >= object.0);
                }
            }
        }
    }
}

proof fn lemma_sizes_sorted_update(s: Seq<ObjectSize>, pos: int, os: ObjectSize)
    requires
        sizes_sorted(s),
        0 <= pos < s.len(),
        s[pos].object == os.object,
    ensures
        sizes_sorted(s.update(pos, os)),
{
    let t = s.update(pos, os);
    assert forall|i: int, j: int| #![trigger t[i], t[j]] 0 <= i < j < t.len()
        implies t[i].object.0 < t[j].object.0 by {
        assert(s[i].object.0 < s[j].object.0);
    }
}

proof fn lemma_sizes_sorted_insert(s: Seq<ObjectSize>, pos: int, os: ObjectSize)
    requires
        sizes_sorted(s),
        0 <= pos <= s.len(),
        forall|k: int| 0 <= k < pos ==> (#[trigger] s[k]).object.0 < os.object.0,
        forall|k: int| pos <= k < s.len() ==> (#[trigger] s[k]).object.0 > os.object.0,
    ensures
        sizes_sorted(s.insert(pos, os)),
{
    let t = s.insert(pos, os);
    assert forall|i: int, j: int| #![trigger t[i], t[j]] 0 <= i < j < t.len()
        implies t[i].object.0 < t[j].object.0 by {
        let i0 = if i < pos { i } else { i - 1 };
        let j0 = if j < pos { j } else { j - 1 };
        if i == pos {
            assert(t[j] == s[j - 1]);
        } else if j == pos {
            assert(t[i] == s[i]);
        } else {
            assert(t[i] == s[i0]);
            assert(t[j] == s[j0]);
            if i < pos && j > pos && i0 == j0 {
                assert(s[i0].object.0 < os.object.0);
                assert(s[j0].object.0 > os.object.0);
            }
        }
    }
}

proof fn lemma_sizes_sorted_remove(s: Seq<ObjectSize>, pos: int)
    requires
        sizes_sorted(s),
        0 <= pos < s.len(),
    ensures
        sizes_sorted(s.remove(pos)),
{
    let t = s.remove(pos);
    assert forall|i: int, j: int| #![trigger t[i], t[j]] 0 <= i < j < t.len()
        implies t[i].object.0 < t[j].object.0 by {
        let i0 = if i < pos { i } else { i + 1 };
        let j0 = if j < pos { j } else { j + 1 };
        assert(t[i] == s[i0]);
        assert(t[j] == s[j0]);
    }
}

proof fn lemma_sizes_replay_none(entries: Seq<ObjectSizeLogEntry>, i: int)
    requires
        0 <= i < entries.len(),
        spec_sizes_replay(entries.take(i + 1)) is None,
    ensures
        spec_sizes_replay(entries) is None,
    decreases entries.len() - i,
{
    if i + 1 < entries.len() {
        assert(entries.take(i + 2).drop_last() =~= entries.take(i + 1));
        lemma_sizes_replay_none(entries, i + 1);
    } else {
        assert(entries.take(i + 1) =~= entries);
    }
}

/// The position of `object` among sorted sizes.
fn size_position(sizes: &Vec<ObjectSize>, object: ObjectId) -> (r: usize)
    requires
        sizes_sorted(sizes@),
    ensures
        r == spec_size_pos(sizes@, object),
        r <= sizes@.len(),
{
    proof {
        lemma_size_pos_props(sizes@, object);
    }
    let mut lo: usize = 0;
    let mut hi: usize = sizes.len();
    while lo < hi
        invariant
            sizes_sorted(sizes@),
            lo <= hi <= sizes@.len(),
            forall|k: int| 0 <= k < lo ==> (#[trigger] sizes@[k]).object.0 < object.0,
            forall|k: int| hi <= k < sizes@.len()
                ==> (#[trigger] sizes@[k]).object.0 >= object.0,
        decreases hi - lo,
    {
        let mid = lo + (hi - lo) / 2;
        if sizes[mid].object.0 < object.0 {
            proof {
                assert forall|k: int| 0 <= k <= mid
                    implies (#[trigger] sizes@[k]).object.0 < object.0 by {
                    assert(k < mid ==> sizes@[k].object.0 < sizes@[mid as int].object.0);
                }
            }
            lo = mid + 1;
        } else {
            proof {
                assert forall|k: int| mid <= k < sizes@.len()
                    implies (#[trigger] sizes@[k]).object.0 >= object.0 by {
                    assert(mid < k ==> sizes@[mid as int].object.0 < sizes@[k].object.0);
                }
            }
            hi = mid;
        }
    }
    proof {
        let q = spec_size_pos(sizes@, object);
        if (lo as int) < q {
            assert(sizes@[lo as int].object.0 < object.0);
        }
        if q < lo as int {
            assert(sizes@[q].object.0 < object.0);
        }
    }
    lo
}

/// Replay an object-size log into the sorted set of live object sizes:
/// the latest record for each object wins, freed objects leave. `None`
/// exactly where the log frees an object it does not hold.
pub fn get_object_sizes(entries: &Vec<ObjectSizeLogEntry>) -> (r: Option<Vec<ObjectSize>>)
    ensures
        match r {
            Some(sizes) => {
                &&& spec_sizes_replay(entries@) == Some(sizes@)
                &&& sizes_sorted(sizes@)
            },
            None => spec_sizes_replay(entries@) is None,
        },
{
    let mut sizes: Vec<ObjectSize> = Vec::new();
    let mut i: usize = 0;
    proof {
        assert(entries@.take(0) =~= Seq::<ObjectSizeLogEntry>::empty());
    }
    while i < entries.len()
        invariant
            i <= entries@.len(),
            spec_sizes_replay(entries@.take(i as int)) == Some(sizes@),
            sizes_sorted(sizes@),
        decreases entries@.len() - i,
    {
        proof {
            assert(entries@.take(i + 1).drop_last() =~= entries@.take(i as int));
            assert(entries@.take(i + 1).last() == entries@[i as int]);
        }
        match entries[i] {
            ObjectSizeLogEntry::Exists(os) => {
                let ghost pre = sizes@;
                let pos = size_position(&sizes, os.object);
                proof {
                    lemma_size_pos_props(pre, os.object);
                }
                if pos < sizes.len() && sizes[pos].object.0 == os.object.0 {
                    sizes.set(pos, os);
                    proof {
                        lemma_sizes_sorted_update(pre, pos as int, os);
                    }
                } else {
                    sizes.insert(pos, os);
                    proof {
                        lemma_sizes_sorted_insert(pre, pos as int, os);
                    }
                }
            },
            ObjectSizeLogEntry::Freed { object } => {
                let ghost pre = sizes@;
                let pos = size_position(&sizes, object);
                proof {
                    lemma_size_pos_props(pre, object);
                }
                if pos < sizes.len() && sizes[pos].object.0 == object.0 {
                    sizes.remove(pos);
                    proof {
                        lemma_sizes_sorted_remove(pre, pos as int);
                    }
                } else {
                    proof {
                        lemma_sizes_replay_none(entries@, i as int);
                    }
                    return None;
                }
            },
        }
        i = i + 1;
    }
    proof {
        assert(entries@.take(entries@.len() as int) =~= entries@);
    }
    Some(sizes)
}

} // verus!
