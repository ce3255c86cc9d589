//! The per-pool syncing state machine: the TXG lifecycle, batching of
//! writes into data objects, accounting, and the reclaim trigger. All
//! cloud I/O stays with the caller: functions hand back the objects and
//! records to persist.

use vstd::prelude::*;
use crate::base::BlockId;
use crate::base::ObjectId;
use crate::base::PoolGuid;
use crate::base::Txg;
use crate::data_object::DataObjectPhys;
use crate::features::FeatureFlag;
use crate::data_object::spec_block_get;
use crate::object_block_map::ObjectBlockMap;
use crate::object_block_map::StorageObjectLogEntry;
use crate::reclaim::PendingFreesLogEntry;
use crate::reclaim::ReclaimInfo;
use crate::reclaim::spec_lookup;

verus! {

/// Running totals of a pool, reported at the end of every TXG.
#[derive(Debug, Copy, Clone, PartialEq, Eq, Structural)]
pub struct PoolStatsPhys {
    pub blocks_count: u64,
    pub blocks_bytes: u64,
    pub pending_frees_count: u64,
    pub pending_frees_bytes: u64,
    pub objects_count: u64,
}

impl PoolStatsPhys {
    pub fn zeroed() -> (r: PoolStatsPhys)
        ensures
            r.blocks_count == 0,
            r.blocks_bytes == 0,
            r.pending_frees_count == 0,
            r.pending_frees_bytes == 0,
            r.objects_count == 0,
    {
        PoolStatsPhys {
            blocks_count: 0,
            blocks_bytes: 0,
            pending_frees_count: 0,
            pending_frees_bytes: 0,
            objects_count: 0,
        }
    }
}

/// Whether a data object is open for writes this TXG.
#[derive(Debug)]
pub enum PendingObjectState {
    Pending(DataObjectPhys),
    NotPending(BlockId),
}

impl PendingObjectState {
    pub open spec fn spec_next_block(&self) -> BlockId {
        match self {
            PendingObjectState::Pending(phys) => phys.next_block,
            PendingObjectState::NotPending(next_block) => *next_block,
        }
    }

    pub open spec fn spec_is_pending(&self) -> bool {
        self is Pending
    }

    pub fn next_block(&self) -> (r: BlockId)
        ensures
            r == self.spec_next_block(),
    {
        match self {
            PendingObjectState::Pending(phys) => phys.next_block,
            PendingObjectState::NotPending(next_block) => *next_block,
        }
    }

    pub fn is_pending(&self) -> (r: bool)
        ensures
            r == self.spec_is_pending(),
    {
        match self {
            PendingObjectState::Pending(..) => true,
            PendingObjectState::NotPending(..) => false,
        }
    }
}

/// The root record written per TXG, handed back by `end_txg` for the
/// caller to persist before the super object.
#[derive(Debug)]
pub struct UberblockPhys {
    pub guid: PoolGuid,
    pub txg: Txg,
    pub next_block: BlockId,
    pub obsolete_objects: Vec<ObjectId>,
    pub zfs_uberblock: Vec<u8>,
    pub zfs_config: Vec<u8>,
    pub stats: PoolStatsPhys,
    pub features: Vec<(FeatureFlag, u64)>,
}

/// The bytes the open pending object holds for `b`, if it is open and
/// holds the block.
pub open spec fn pending_block_get(po: &PendingObjectState, b: BlockId) -> Option<Seq<u8>> {
    match po {
        PendingObjectState::Pending(phys) => spec_block_get(phys.blocks@, b),
        PendingObjectState::NotPending(..) => None,
    }
}

/// The progress record of a pool being destroyed, persisted so a
/// restarted agent can resume the deletion where it stopped. The start
/// time is seconds since the epoch.
#[derive(Debug, Copy, Clone, PartialEq, Eq, Structural)]
pub struct PoolDestroyingPhys {
    pub start_time: u64,
    pub total_data_objects: u64,
    pub destroyed_objects: u64,
}

/// The data buffered for `block` among the unordered pending writes.
pub open spec fn spec_unordered_get(s: Seq<(BlockId, Vec<u8>)>, b: BlockId) -> Option<Seq<u8>>
    decreases s.len(),
{
    if s.len() == 0 {
        None
    } else if s[0].0 == b {
        Some(s[0].1@)
    } else {
        spec_unordered_get(s.skip(1), b)
    }
}

/// State mutated while syncing one TXG.
#[derive(Debug)]
pub struct PoolSyncingState {
    pub guid: PoolGuid,
    pub storage_object_log: Vec<StorageObjectLogEntry>,
    pub pending_object: PendingObjectState,
    pub pending_unordered_writes: Vec<(BlockId, Vec<u8>)>,
    pub last_txg: Txg,
    pub syncing_txg: Option<Txg>,
    pub stats: PoolStatsPhys,
    pub objects_to_delete: Vec<ObjectId>,
    pub last_ub: Option<(Vec<u8>, Vec<u8>)>,
    pub features: Vec<(FeatureFlag, u64)>,
}

impl PoolSyncingState {
    /// Buffered blocks are distinct and not yet part of the pending
    /// object.
    pub open spec fn wf(&self) -> bool {
        &&& forall|i: int, j: int| #![trigger self.pending_unordered_writes@[i], self.pending_unordered_writes@[j]]
            0 <= i < j < self.pending_unordered_writes@.len()
                ==> self.pending_unordered_writes@[i].0 != self.pending_unordered_writes@[j].0
        &&& forall|i: int| 0 <= i < self.pending_unordered_writes@.len()
            ==> (#[trigger] self.pending_unordered_writes@[i]).0.0
                >= self.pending_object.spec_next_block().0
        &&& (self.pending_object matches PendingObjectState::Pending(phys) ==> phys.wf())
        &&& features_distinct(self.features@)
    }

    /// A fresh pool: nothing written, nothing syncing.
    pub fn create(guid: PoolGuid) -> (r: PoolSyncingState)
        ensures
            r.wf(),
            r.guid == guid,
            r.last_txg.0 == 0,
            r.syncing_txg is None,
            !r.pending_object.spec_is_pending(),
            r.pending_object.spec_next_block().0 == 0,
            r.pending_unordered_writes@.len() == 0,
            r.stats == (PoolStatsPhys {
                blocks_count: 0,
                blocks_bytes: 0,
                pending_frees_count: 0,
                pending_frees_bytes: 0,
                objects_count: 0,
            }),
            r.objects_to_delete@.len() == 0,
            r.last_ub is None,
            r.features@.len() == 0,
    {
        PoolSyncingState {
            guid,
            storage_object_log: Vec::new(),
            pending_object: PendingObjectState::NotPending(BlockId(0)),
            pending_unordered_writes: Vec::new(),
            last_txg: Txg(0),
            syncing_txg: None,
            stats: PoolStatsPhys::zeroed(),
            objects_to_delete: Vec::new(),
            last_ub: None,
            features: Vec::new(),
        }
    }

    pub fn next_block(&self) -> (r: BlockId)
        ensures
            r == self.pending_object.spec_next_block(),
    {
        self.pending_object.next_block()
    }

    /// Open a TXG: a fresh pending object starts right past the last
    /// known data object.
    pub fn begin_txg(&mut self, txg: Txg, object_block_map: &ObjectBlockMap)
        requires
            old(self).wf(),
            old(self).syncing_txg is None,
            txg.0 > old(self).last_txg.0,
            !old(self).pending_object.spec_is_pending(),
            object_block_map.entries().len() > 0
                ==> object_block_map.entries().last().object.0 < u64::MAX,
        ensures
            final(self).wf(),
            final(self).syncing_txg == Some(txg),
            final(self).pending_object matches PendingObjectState::Pending(phys) && {
                &&& phys.next_block == old(self).pending_object.spec_next_block()
                &&& phys.min_block == old(self).pending_object.spec_next_block()
                &&& phys.blocks@.len() == 0
                &&& phys.min_txg == txg
                &&& phys.max_txg == txg
                &&& phys.guid == old(self).guid
                &&& (object_block_map.entries().len() == 0 ==> phys.object.0 == 1)
                &&& (object_block_map.entries().len() > 0
                    ==> phys.object.0 == object_block_map.entries().last().object.0 + 1)
            },
            final(self).last_txg == old(self).last_txg,
            final(self).stats == old(self).stats,
            final(self).pending_unordered_writes@ == old(self).pending_unordered_writes@,
            final(self).guid == old(self).guid,
            final(self).last_ub == old(self).last_ub,
            final(self).objects_to_delete@ == old(self).objects_to_delete@,
            final(self).storage_object_log@ == old(self).storage_object_log@,
            final(self).features@ == old(self).features@,
    {
        self.syncing_txg = Some(txg);
        let last = object_block_map.last_object();
        let next = self.pending_object.next_block();
        self.pending_object = PendingObjectState::Pending(
            DataObjectPhys::new(self.guid, last.next(), next, txg),
        );
    }

    /// Buffer one block write. Blocks may arrive in any order at or past
    /// the pool's next block; a block sent again replaces its buffer.
    pub fn write_block(&mut self, block: BlockId, data: Vec<u8>)
        requires
            old(self).wf(),
            old(self).syncing_txg is Some,
            block.0 >= old(self).pending_object.spec_next_block().0,
        ensures
            final(self).wf(),
            spec_unordered_get(final(self).pending_unordered_writes@, block) == Some(data@),
            forall|b: BlockId| b != block
                ==> #[trigger] spec_unordered_get(final(self).pending_unordered_writes@, b)
                    == spec_unordered_get(old(self).pending_unordered_writes@, b),
            final(self).pending_unordered_writes@.len()
                <= old(self).pending_unordered_writes@.len() + 1,
            spec_unordered_total(final(self).pending_unordered_writes@)
                <= spec_unordered_total(old(self).pending_unordered_writes@) + data@.len(),
            *final(self) == (PoolSyncingState {
                pending_unordered_writes: final(self).pending_unordered_writes,
                ..*old(self)
            }),
    {
        let ghost before = self.pending_unordered_writes@;
        let stale = self.take_unordered(block);
        proof {
            if stale is Some {
                let i = choose|i: int| {
                    &&& 0 <= i < before.len()
                    &&& (#[trigger] before[i]).0 == block
                    &&& self.pending_unordered_writes@ == before.remove(i)
                };
                lemma_unordered_total_remove(before, i);
            }
            lemma_unordered_total_nonneg(self.pending_unordered_writes@);
            lemma_unordered_total_nonneg(before);
        }
        let _ = stale;
        let ghost pre = self.pending_unordered_writes@;
        self.pending_unordered_writes.push((block, data));
        proof {
            lemma_unordered_distinct_push(pre, self.pending_unordered_writes@[pre.len() as int]);
            lemma_unordered_get_snoc(pre, self.pending_unordered_writes@[pre.len() as int]);
            assert(self.pending_unordered_writes@ =~= pre
                + seq![self.pending_unordered_writes@[pre.len() as int]]);
            lemma_unordered_total_concat(
                pre,
                seq![self.pending_unordered_writes@[pre.len() as int]],
            );
            assert(spec_unordered_total(
                seq![self.pending_unordered_writes@[pre.len() as int]],
            ) == data@.len()) by {
                let single = seq![self.pending_unordered_writes@[pre.len() as int]];
                assert(single.skip(1) =~= Seq::<(BlockId, Vec<u8>)>::empty());
                assert(spec_unordered_total(single)
                    == single[0].1@.len() + spec_unordered_total(single.skip(1)));
            }
        }
    }

    /// Move buffered writes into the pending object while the next
    /// consecutive block is buffered, up to `block_limit` when given.
    /// Every moved block lands in the object with exactly its bytes.
    pub fn write_unordered_to_pending_object(&mut self, block_limit: Option<BlockId>)
        requires
            old(self).wf(),
            old(self).syncing_txg is Some,
            old(self).pending_object.spec_next_block().0
                + old(self).pending_unordered_writes@.len() <= u64::MAX,
            old(self).pending_object matches PendingObjectState::Pending(phys)
                ==> phys.blocks_size + spec_unordered_total(
                    old(self).pending_unordered_writes@,
                ) <= u32::MAX,
        ensures
            final(self).wf(),
            *final(self) == (PoolSyncingState {
                pending_object: final(self).pending_object,
                pending_unordered_writes: final(self).pending_unordered_writes,
                ..*old(self)
            }),
            final(self).pending_object.spec_is_pending()
                == old(self).pending_object.spec_is_pending(),
            final(self).pending_object.spec_next_block().0
                >= old(self).pending_object.spec_next_block().0,
            // every moved block reads back as the buffered bytes
            forall|b: BlockId| old(self).pending_object.spec_next_block().0 <= b.0
                < final(self).pending_object.spec_next_block().0
                ==> #[trigger] pending_block_get(&final(self).pending_object, b)
                    == spec_unordered_get(old(self).pending_unordered_writes@, b),
            // blocks not moved stay buffered unchanged
            forall|b: BlockId| b.0 >= final(self).pending_object.spec_next_block().0
                ==> #[trigger] spec_unordered_get(final(self).pending_unordered_writes@, b)
                    == spec_unordered_get(old(self).pending_unordered_writes@, b),
            // the object itself is only ever appended to
            (old(self).pending_object matches PendingObjectState::Pending(p0)
                && final(self).pending_object matches PendingObjectState::Pending(p1)
                && p1.guid == p0.guid && p1.object == p0.object
                && p1.min_block == p0.min_block && p1.min_txg == p0.min_txg
                && p1.max_txg == p0.max_txg)
                || !old(self).pending_object.spec_is_pending(),
            // one block moved per position: the counts line up
            (old(self).pending_object matches PendingObjectState::Pending(p0)
                && final(self).pending_object matches PendingObjectState::Pending(p1)
                && p1.blocks@.len() == p0.blocks@.len()
                    + (p1.next_block.0 - p0.next_block.0)
                && final(self).pending_unordered_writes@.len()
                    == old(self).pending_unordered_writes@.len()
                        - (p1.next_block.0 - p0.next_block.0))
                || !old(self).pending_object.spec_is_pending(),
            // nothing was invented: every moved position was buffered
            forall|b: BlockId| old(self).pending_object.spec_next_block().0 <= b.0
                < final(self).pending_object.spec_next_block().0
                ==> #[trigger] spec_unordered_get(
                    old(self).pending_unordered_writes@,
                    b,
                ) is Some,
            // the drain is complete: it stops only at the limit or at a
            // gap in the buffered blocks
            final(self).pending_object matches PendingObjectState::Pending(phys)
                ==> match block_limit {
                    Some(l) => phys.next_block == l || spec_unordered_get(
                        final(self).pending_unordered_writes@,
                        phys.next_block,
                    ) is None,
                    None => spec_unordered_get(
                        final(self).pending_unordered_writes@,
                        phys.next_block,
                    ) is None,
                },
    {
        if !self.pending_object.is_pending() {
            return;
        }
        loop
            invariant
                self.wf(),
                self.syncing_txg is Some,
                self.pending_object.spec_is_pending(),
                old(self).pending_object.spec_is_pending(),
                (old(self).pending_object matches PendingObjectState::Pending(p0)
                    && self.pending_object matches PendingObjectState::Pending(p1)
                    && p1.guid == p0.guid && p1.object == p0.object
                    && p1.min_block == p0.min_block && p1.min_txg == p0.min_txg
                    && p1.max_txg == p0.max_txg
                    && p1.blocks@.len() == p0.blocks@.len()
                        + (p1.next_block.0 - p0.next_block.0)
                    && self.pending_unordered_writes@.len()
                        == old(self).pending_unordered_writes@.len()
                            - (p1.next_block.0 - p0.next_block.0)),
                self.pending_object.spec_next_block().0
                    >= old(self).pending_object.spec_next_block().0,
                self.pending_object.spec_next_block().0
                    + self.pending_unordered_writes@.len() <= u64::MAX,
                (self.pending_object matches PendingObjectState::Pending(phys)
                    ==> phys.blocks_size + spec_unordered_total(
                        self.pending_unordered_writes@,
                    ) <= u32::MAX),
                *self == (PoolSyncingState {
                    pending_object: self.pending_object,
                    pending_unordered_writes: self.pending_unordered_writes,
                    ..*old(self)
                }),
                forall|b: BlockId| old(self).pending_object.spec_next_block().0 <= b.0
                    < self.pending_object.spec_next_block().0
                    ==> #[trigger] pending_block_get(&self.pending_object, b)
                        == spec_unordered_get(old(self).pending_unordered_writes@, b),
                forall|b: BlockId| b.0 >= self.pending_object.spec_next_block().0
                    ==> #[trigger] spec_unordered_get(self.pending_unordered_writes@, b)
                        == spec_unordered_get(old(self).pending_unordered_writes@, b),
                forall|b: BlockId| old(self).pending_object.spec_next_block().0 <= b.0
                    < self.pending_object.spec_next_block().0
                    ==> #[trigger] spec_unordered_get(
                        old(self).pending_unordered_writes@,
                        b,
                    ) is Some,
            ensures
                self.pending_object matches PendingObjectState::Pending(phys)
                    ==> match block_limit {
                        Some(l) => phys.next_block == l || spec_unordered_get(
                            self.pending_unordered_writes@,
                            phys.next_block,
                        ) is None,
                        None => spec_unordered_get(
                            self.pending_unordered_writes@,
                            phys.next_block,
                        ) is None,
                    },
            decreases self.pending_unordered_writes@.len(),
        {
            let next = self.pending_object.next_block();
            if let Some(limit) = block_limit {
                if next.0 == limit.0 {
                    break;
                }
            }
            let ghost before = *self;
            let found = self.take_unordered(next);
            match found {
                None => {
                    break;
                },
                Some(data) => {
                    proof {
                        let i = choose|i: int| {
                            &&& 0 <= i < before.pending_unordered_writes@.len()
                            &&& (#[trigger] before.pending_unordered_writes@[i]).0 == next
                            &&& before.pending_unordered_writes@[i].1@ == data@
                            &&& self.pending_unordered_writes@
                                == before.pending_unordered_writes@.remove(i)
                        };
                        lemma_unordered_total_remove(before.pending_unordered_writes@, i);
                        lemma_unordered_total_nonneg(self.pending_unordered_writes@);
                    }
                    let mut taken = PendingObjectState::NotPending(BlockId(0));
                    std::mem::swap(&mut taken, &mut self.pending_object);
                    match taken {
                        PendingObjectState::Pending(phys) => {
                            let mut phys = phys;
                            let ghost pre_blocks = phys.blocks@;
                            phys.append_block(data);
                            self.pending_object = PendingObjectState::Pending(phys);
                            proof {
                                lemma_unordered_none_absent(
                                    self.pending_unordered_writes@,
                                    next,
                                );
                                assert forall|x: int| 0 <= x
                                    < self.pending_unordered_writes@.len()
                                    implies (#[trigger] self.pending_unordered_writes@[x]).0.0
                                        >= self.pending_object.spec_next_block().0 by {
                                    assert(self.pending_unordered_writes@[x].0 != next);
                                }
                                assert forall|b: BlockId|
                                    old(self).pending_object.spec_next_block().0 <= b.0
                                    < self.pending_object.spec_next_block().0
                                    implies #[trigger] pending_block_get(
                                        &self.pending_object,
                                        b,
                                    ) == spec_unordered_get(
                                        old(self).pending_unordered_writes@,
                                        b,
                                    ) by {
                                    if b.0 < next.0 {
                                        crate::data_object::lemma_block_get_snoc_other_pub(
                                            pre_blocks,
                                            (next, data),
                                            b,
                                        );
                                        assert(pending_block_get(&before.pending_object, b)
                                            == spec_unordered_get(
                                            old(self).pending_unordered_writes@,
                                            b,
                                        ));
                                    } else {
                                        assert(b == next);
                                        assert(spec_unordered_get(
                                            before.pending_unordered_writes@,
                                            next,
                                        ) == Some(data@));
                                        assert(spec_unordered_get(
                                            before.pending_unordered_writes@,
                                            next,
                                        ) == spec_unordered_get(
                                            old(self).pending_unordered_writes@,
                                            next,
                                        ));
                                    }
                                }
                            }
                        },
                        PendingObjectState::NotPending(nb) => {
                            self.pending_object = PendingObjectState::NotPending(nb);
                            proof {
                                assert(false);
                            }
                        },
                    }
                },
            }
        }
    }

    /// Remove and return the buffered bytes for `block`, if any.
    fn take_unordered(&mut self, block: BlockId) -> (r: Option<Vec<u8>>)
        requires
            old(self).wf(),
        ensures
            final(self).wf(),
            *final(self) == (PoolSyncingState {
                pending_unordered_writes: final(self).pending_unordered_writes,
                ..*old(self)
            }),
            match r {
                Some(v) => {
                    &&& spec_unordered_get(old(self).pending_unordered_writes@, block)
                        == Some(v@)
                    &&& spec_unordered_get(final(self).pending_unordered_writes@, block) is None
                    &&& final(self).pending_unordered_writes@.len()
                        == old(self).pending_unordered_writes@.len() - 1
                    &&& forall|b: BlockId| b != block
                        ==> #[trigger] spec_unordered_get(
                            final(self).pending_unordered_writes@,
                            b,
                        ) == spec_unordered_get(old(self).pending_unordered_writes@, b)
                    &&& exists|i: int| {
                        &&& 0 <= i < old(self).pending_unordered_writes@.len()
                        &&& (#[trigger] old(self).pending_unordered_writes@[i]).0 == block
                        &&& old(self).pending_unordered_writes@[i].1@ == v@
                        &&& final(self).pending_unordered_writes@
                            == old(self).pending_unordered_writes@.remove(i)
                    }
                },
                None => {
                    &&& spec_unordered_get(old(self).pending_unordered_writes@, block) is None
                    &&& final(self).pending_unordered_writes@
                        == old(self).pending_unordered_writes@
                },
            },
    {
        let ghost pre = self.pending_unordered_writes@;
        let mut i: usize = 0;
        while i < self.pending_unordered_writes.len()
            invariant
                self.wf(),
                *self == *old(self),
                pre == self.pending_unordered_writes@,
                i <= pre.len(),
                forall|x: int| 0 <= x < i ==> (#[trigger] pre[x]).0 != block,
            decreases pre.len() - i,
        {
            if self.pending_unordered_writes[i].0.0 == block.0 {
                let (_b, data) = self.pending_unordered_writes.remove(i);
                proof {
                    lemma_unordered_get_at(pre, block, i as int);
                    lemma_unordered_remove(pre, i as int);
                    let t = self.pending_unordered_writes@;
                    assert forall|x: int, y: int| #![trigger t[x], t[y]] 0 <= x < y < t.len()
                        implies t[x].0 != t[y].0 by {
                        let x0 = if x < i { x } else { x + 1 };
                        let y0 = if y < i { y } else { y + 1 };
                        assert(t[x] == pre[x0]);
                        assert(t[y] == pre[y0]);
                    }
                    assert forall|x: int| 0 <= x < t.len()
                        implies (#[trigger] t[x]).0.0
                            >= self.pending_object.spec_next_block().0 by {
                        let x0 = if x < i { x } else { x + 1 };
                        assert(t[x] == pre[x0]);
                    }
                }
                return Some(data);
            }
            i = i + 1;
        }
        proof {
            lemma_unordered_get_absent(pre, block);
        }
        None
    }

    /// Close out the pending object: account it, record it in the block
    /// map and the storage object log, and hand it back for the PUT.
    /// An empty pending object stays open and nothing is returned.
    pub fn initiate_flush_object(&mut self, object_block_map: &mut ObjectBlockMap) -> (r: Option<
        DataObjectPhys,
    >)
        requires
            old(self).wf(),
            old(self).syncing_txg is Some,
            old(self).pending_object matches PendingObjectState::Pending(phys) && {
                &&& phys.min_block == old(object_block_map).spec_next_block()
                &&& (old(object_block_map).entries().len() > 0
                    ==> phys.object.0 > old(object_block_map).entries().last().object.0)
                &&& phys.object.0 < u64::MAX
            },
            old(object_block_map).wf(),
            old(self).stats.objects_count < u64::MAX,
            old(self).pending_object matches PendingObjectState::Pending(phys) ==> {
                &&& old(self).stats.blocks_bytes + phys.blocks_size <= u64::MAX
                &&& old(self).stats.blocks_count + phys.blocks@.len() <= u64::MAX
            },
        ensures
            final(self).wf(),
            final(object_block_map).wf(),
            // a flush is owed exactly when the pending object holds blocks
            (r is None) == (old(self).pending_object matches PendingObjectState::Pending(phys)
                && phys.blocks@.len() == 0),
            match r {
                Some(phys) => {
                    &&& old(self).pending_object == PendingObjectState::Pending(phys)
                    &&& phys.blocks@.len() > 0
                    &&& final(self).stats.objects_count == old(self).stats.objects_count + 1
                    &&& final(self).stats.blocks_bytes
                        == old(self).stats.blocks_bytes + phys.blocks_size
                    &&& final(self).stats.blocks_count
                        == old(self).stats.blocks_count + phys.blocks@.len()
                    &&& final(self).stats.pending_frees_count
                        == old(self).stats.pending_frees_count
                    &&& final(self).stats.pending_frees_bytes
                        == old(self).stats.pending_frees_bytes
                    &&& final(object_block_map).entries()
                        == old(object_block_map).entries().push(
                        crate::object_block_map::ObjectBlockMapEntry {
                            object: phys.object,
                            block: phys.min_block,
                        },
                    )
                    &&& final(object_block_map).spec_next_block() == phys.next_block
                    &&& final(self).storage_object_log@
                        == old(self).storage_object_log@.push(
                        StorageObjectLogEntry::Alloc {
                            object: phys.object,
                            min_block: phys.min_block,
                        },
                    )
                    &&& final(self).pending_object matches PendingObjectState::Pending(np) && {
                        &&& np.object.0 == phys.object.0 + 1
                        &&& np.min_block == phys.next_block
                        &&& np.next_block == phys.next_block
                        &&& np.blocks@.len() == 0
                    }
                    &&& final(self).pending_unordered_writes@
                        == old(self).pending_unordered_writes@
                    &&& final(self).last_txg == old(self).last_txg
                    &&& final(self).syncing_txg == old(self).syncing_txg
                    &&& final(self).last_ub == old(self).last_ub
                },
                None => {
                    &&& *final(self) == *old(self)
                    &&& *final(object_block_map) == *old(object_block_map)
                },
            },
    {
        let txg = match self.syncing_txg {
            Some(t) => t,
            None => {
                proof {
                    assert(false);
                }
                return None;
            },
        };
        let is_empty = match &self.pending_object {
            PendingObjectState::Pending(phys) => phys.is_empty(),
            PendingObjectState::NotPending(..) => true,
        };
        if is_empty {
            return None;
        }
        let next = self.pending_object.next_block();
        let mut taken = PendingObjectState::NotPending(next);
        std::mem::swap(&mut taken, &mut self.pending_object);
        let phys = match taken {
            PendingObjectState::Pending(phys) => phys,
            PendingObjectState::NotPending(..) => {
                proof {
                    assert(false);
                }
                return None;
            },
        };
        self.stats.objects_count = self.stats.objects_count + 1;
        self.stats.blocks_bytes = self.stats.blocks_bytes + phys.blocks_size as u64;
        let blocks_len = phys.blocks_len();
        self.stats.blocks_count = self.stats.blocks_count + blocks_len as u64;
        object_block_map.insert(phys.object, phys.min_block, phys.next_block);
        self.storage_object_log.push(StorageObjectLogEntry::Alloc {
            object: phys.object,
            min_block: phys.min_block,
        });
        self.pending_object = PendingObjectState::Pending(
            DataObjectPhys::new(self.guid, ObjectId(phys.object.0 + 1), phys.next_block, txg),
        );
        Some(phys)
    }

    /// Adopt a data object recovered by listing after a crash: it starts
    /// exactly at the pool's next block, so its blocks are already
    /// durable. Accounting and the block map take it as if it had been
    /// flushed here; no pending object is open while resuming.
    pub fn adopt_recovered_object(
        &mut self,
        object: ObjectId,
        min_block: BlockId,
        next_block: BlockId,
        blocks_len: u32,
        blocks_size: u32,
        object_block_map: &mut ObjectBlockMap,
    )
        requires
            old(self).wf(),
            old(self).syncing_txg is Some,
            !old(self).pending_object.spec_is_pending(),
            min_block == old(self).pending_object.spec_next_block(),
            min_block.0 < next_block.0,
            object_block_map.wf() && old(object_block_map).wf(),
            min_block == old(object_block_map).spec_next_block(),
            old(object_block_map).entries().len() > 0
                ==> object.0 > old(object_block_map).entries().last().object.0,
            old(self).stats.objects_count < u64::MAX,
            old(self).stats.blocks_bytes + blocks_size <= u64::MAX,
            old(self).stats.blocks_count + blocks_len <= u64::MAX,
            forall|i: int| 0 <= i < old(self).pending_unordered_writes@.len()
                ==> (#[trigger] old(self).pending_unordered_writes@[i]).0.0 >= next_block.0,
        ensures
            final(self).wf(),
            final(object_block_map).wf(),
            final(self).stats.objects_count == old(self).stats.objects_count + 1,
            final(self).stats.blocks_count == old(self).stats.blocks_count + blocks_len,
            final(self).stats.blocks_bytes == old(self).stats.blocks_bytes + blocks_size,
            final(self).pending_object == PendingObjectState::NotPending(next_block),
            final(object_block_map).entries() == old(object_block_map).entries().push(
                crate::object_block_map::ObjectBlockMapEntry { object, block: min_block },
            ),
            final(object_block_map).spec_next_block() == next_block,
            final(self).storage_object_log@ == old(self).storage_object_log@.push(
                StorageObjectLogEntry::Alloc { object, min_block },
            ),
            final(self).pending_unordered_writes@ == old(self).pending_unordered_writes@,
            final(self).last_txg == old(self).last_txg,
            final(self).syncing_txg == old(self).syncing_txg,
    {
        self.stats.objects_count = self.stats.objects_count + 1;
        self.stats.blocks_count = self.stats.blocks_count + blocks_len as u64;
        self.stats.blocks_bytes = self.stats.blocks_bytes + blocks_size as u64;
        object_block_map.insert(object, min_block, next_block);
        self.storage_object_log.push(StorageObjectLogEntry::Alloc { object, min_block });
        self.pending_object = PendingObjectState::NotPending(next_block);
    }

    /// Drop buffered writes whose blocks a recovered object already
    /// covers: they are durable and complete without a new object.
    pub fn discard_covered_writes(&mut self, upto: BlockId)
        requires
            old(self).wf(),
        ensures
            final(self).wf(),
            *final(self) == (PoolSyncingState {
                pending_unordered_writes: final(self).pending_unordered_writes,
                ..*old(self)
            }),
            forall|b: BlockId| b.0 < upto.0
                ==> #[trigger] spec_unordered_get(final(self).pending_unordered_writes@, b)
                    is None,
            forall|b: BlockId| b.0 >= upto.0
                ==> #[trigger] spec_unordered_get(final(self).pending_unordered_writes@, b)
                    == spec_unordered_get(old(self).pending_unordered_writes@, b),
    {
        let ghost pre = self.pending_unordered_writes@;
        let mut kept: Vec<(BlockId, Vec<u8>)> = Vec::new();
        let mut rest: Vec<(BlockId, Vec<u8>)> = Vec::new();
        std::mem::swap(&mut rest, &mut self.pending_unordered_writes);
        let n = rest.len();
        let mut i: usize = 0;
        proof {
            assert(pre.take(0) =~= Seq::<(BlockId, Vec<u8>)>::empty());
        }
        while i < n
            invariant
                i <= n == pre.len(),
                rest@ == pre.skip(i as int),
                kept@ == spec_keep_from(pre.take(i as int), upto),
            decreases n - i,
        {
            proof {
                assert(pre.take(i + 1).drop_last() =~= pre.take(i as int));
                assert(pre.take(i + 1).last() == pre[i as int]);
                assert(rest@[0] == pre[i as int]);
            }
            let (b, data) = rest.remove(0);
            if b.0 >= upto.0 {
                kept.push((b, data));
            }
            i = i + 1;
        }
        proof {
            assert(pre.take(n as int) =~= pre);
        }
        self.pending_unordered_writes = kept;
        proof {
            lemma_keep_from_props(pre, upto);
            let t = self.pending_unordered_writes@;
            assert forall|x: int| 0 <= x < t.len()
                implies (#[trigger] t[x]).0.0
                    >= self.pending_object.spec_next_block().0 by {
                lemma_keep_from_subset(pre, upto, x);
            }
        }
    }

    /// Route one freed block to its reclaim log and account it.
    pub fn free_block(
        &mut self,
        block: BlockId,
        size: u32,
        object_block_map: &ObjectBlockMap,
        reclaim: &mut ReclaimInfo,
    )
        requires
            old(self).wf(),
            old(self).syncing_txg is Some,
            block.0 < old(self).pending_object.spec_next_block().0,
            old(reclaim).wf(),
            object_block_map.wf(),
            block.0 < object_block_map.spec_next_block().0,
            exists|i: int| 0 <= i < object_block_map.entries().len()
                && (#[trigger] object_block_map.entries()[i]).block.0 <= block.0,
            forall|k: int| 0 <= k < old(reclaim).logs@.len()
                ==> (#[trigger] old(reclaim).logs@[k]).pending_free_bytes + size <= u64::MAX,
            old(self).stats.pending_frees_count < u64::MAX,
            old(self).stats.pending_frees_bytes + size <= u64::MAX,
        ensures
            final(self).wf(),
            final(reclaim).wf(),
            final(self).stats.pending_frees_count == old(self).stats.pending_frees_count + 1,
            final(self).stats.pending_frees_bytes == old(self).stats.pending_frees_bytes + size,
            final(self).stats.blocks_count == old(self).stats.blocks_count,
            final(self).stats.blocks_bytes == old(self).stats.blocks_bytes,
            final(self).stats.objects_count == old(self).stats.objects_count,
            ({
                let id = spec_lookup(
                    final(reclaim).indirect_table,
                    crate::object_block_map::spec_block_to_object(
                        object_block_map.entries(),
                        block,
                    ),
                );
                &&& final(reclaim).logs@[id.0 as int].pending_frees@
                    == old(reclaim).logs@[id.0 as int].pending_frees@.push(
                    PendingFreesLogEntry { block, size },
                )
                &&& forall|k: int| 0 <= k < old(reclaim).logs@.len() && k != id.0 as int
                    ==> #[trigger] final(reclaim).logs@[k] == old(reclaim).logs@[k]
            }),
    {
        let ent = PendingFreesLogEntry { block, size };
        reclaim.log_free(ent, object_block_map);
        self.stats.pending_frees_count = self.stats.pending_frees_count + 1;
        self.stats.pending_frees_bytes = self.stats.pending_frees_bytes + size as u64;
    }

    /// Apply a completed reclaim round back in syncing context: account
    /// the processed frees, drop the deleted objects from the block map,
    /// record them in the storage object log and the round's size log,
    /// queue them for deletion after this TXG, rebuild the round's
    /// pending-frees log from the unprocessed remainder, and record the
    /// rewritten objects' new sizes.
    #[verifier::rlimit(100)]
    pub fn apply_reclaim_result(
        &mut self,
        object_block_map: &mut ObjectBlockMap,
        reclaim: &mut ReclaimInfo,
        log_id: crate::base::ReclaimLogId,
        rewritten: Vec<crate::reclaim::ObjectSize>,
        deleted: Vec<ObjectId>,
        remainder: Vec<PendingFreesLogEntry>,
        freed_count: u64,
        freed_bytes: u64,
    )
        requires
            old(self).wf(),
            old(object_block_map).wf(),
            old(reclaim).wf(),
            log_id.0 < old(reclaim).logs@.len(),
            // the stats cover what the round processed
            old(self).stats.blocks_count >= freed_count,
            old(self).stats.blocks_bytes >= freed_bytes,
            old(self).stats.pending_frees_count >= freed_count,
            old(self).stats.pending_frees_bytes >= freed_bytes,
            old(self).stats.objects_count >= deleted@.len(),
            // the remainder is exactly what the round left unprocessed
            old(reclaim).logs@[log_id.0 as int].pending_free_bytes >= freed_bytes,
            old(reclaim).logs@[log_id.0 as int].pending_free_bytes - freed_bytes
                == crate::reclaim::spec_frees_bytes(remainder@),
            // every deleted object is in the block map, in order
            spec_remove_objects(old(object_block_map).entries(), deleted@) is Some,
        ensures
            final(self).wf(),
            final(object_block_map).wf(),
            final(reclaim).wf(),
            // the stats decrease by exactly the processed frees
            final(self).stats.blocks_count == old(self).stats.blocks_count - freed_count,
            final(self).stats.blocks_bytes == old(self).stats.blocks_bytes - freed_bytes,
            final(self).stats.pending_frees_count
                == old(self).stats.pending_frees_count - freed_count,
            final(self).stats.pending_frees_bytes
                == old(self).stats.pending_frees_bytes - freed_bytes,
            final(self).stats.objects_count
                == old(self).stats.objects_count - deleted@.len(),
            // deleted objects leave the map, enter the log, and queue
            final(object_block_map).entries()
                == spec_remove_objects(old(object_block_map).entries(), deleted@)->Some_0,
            final(object_block_map).spec_next_block()
                == old(object_block_map).spec_next_block(),
            final(self).storage_object_log@ == old(self).storage_object_log@
                + spec_free_entries(deleted@),
            final(self).objects_to_delete@ == old(self).objects_to_delete@ + deleted@,
            // the round's log is rebuilt from exactly the remainder
            final(reclaim).logs@[log_id.0 as int].pending_frees@ == remainder@,
            final(reclaim).logs@[log_id.0 as int].pending_free_bytes
                == old(reclaim).logs@[log_id.0 as int].pending_free_bytes - freed_bytes,
            final(reclaim).logs@[log_id.0 as int].object_sizes@
                == old(reclaim).logs@[log_id.0 as int].object_sizes@
                    + spec_freed_size_entries(deleted@) + spec_exists_size_entries(rewritten@),
            !final(reclaim).logs@[log_id.0 as int].reclaim_busy,
            forall|k: int| 0 <= k < old(reclaim).logs@.len() && k != log_id.0 as int
                ==> #[trigger] final(reclaim).logs@[k] == old(reclaim).logs@[k],
            final(reclaim).indirect_table == old(reclaim).indirect_table,
            // nothing else of the pool state moves
            final(self).pending_object == old(self).pending_object,
            final(self).pending_unordered_writes@ == old(self).pending_unordered_writes@,
            final(self).last_txg == old(self).last_txg,
            final(self).syncing_txg == old(self).syncing_txg,
            final(self).last_ub == old(self).last_ub,
    {
        self.stats.blocks_count = self.stats.blocks_count - freed_count;
        self.stats.blocks_bytes = self.stats.blocks_bytes - freed_bytes;
        self.stats.pending_frees_count = self.stats.pending_frees_count - freed_count;
        self.stats.pending_frees_bytes = self.stats.pending_frees_bytes - freed_bytes;
        let idx = log_id.as_index();
        let ghost obm0 = object_block_map.entries();
        let ghost del = deleted@;
        proof {
            assert(del.skip(0) =~= del);
        }
        let mut x: usize = 0;
        let n = deleted.len();
        while x < n
            invariant
                x <= n == del.len(),
                deleted@ == del,
                old(object_block_map).spec_next_block()
                    == object_block_map.spec_next_block(),
                object_block_map.wf(),
                spec_remove_objects(object_block_map.entries(), del.skip(x as int))
                    == spec_remove_objects(obm0, del),
                spec_remove_objects(obm0, del) is Some,
                self.stats.objects_count >= n - x,
                *self == (PoolSyncingState {
                    stats: self.stats,
                    storage_object_log: self.storage_object_log,
                    objects_to_delete: self.objects_to_delete,
                    ..*old(self)
                }),
                self.stats.blocks_count == old(self).stats.blocks_count - freed_count,
                self.stats.blocks_bytes == old(self).stats.blocks_bytes - freed_bytes,
                self.stats.pending_frees_count
                    == old(self).stats.pending_frees_count - freed_count,
                self.stats.pending_frees_bytes
                    == old(self).stats.pending_frees_bytes - freed_bytes,
                self.stats.objects_count == old(self).stats.objects_count - x,
                self.storage_object_log@ == old(self).storage_object_log@
                    + spec_free_entries(del.take(x as int)),
                self.objects_to_delete@ == old(self).objects_to_delete@
                    + del.take(x as int),
                reclaim.wf(),
                reclaim.indirect_table == old(reclaim).indirect_table,
                reclaim.logs@.len() == old(reclaim).logs@.len(),
                idx == log_id.0 as int,
                idx < reclaim.logs@.len(),
                forall|k: int| 0 <= k < reclaim.logs@.len() && k != idx as int
                    ==> #[trigger] reclaim.logs@[k] == old(reclaim).logs@[k],
                reclaim.logs@[idx as int] == (crate::reclaim::ReclaimLog {
                    object_sizes: reclaim.logs@[idx as int].object_sizes,
                    ..old(reclaim).logs@[idx as int]
                }),
                reclaim.logs@[idx as int].object_sizes@
                    == old(reclaim).logs@[idx as int].object_sizes@
                        + spec_freed_size_entries(del.take(x as int)),
            decreases n - x,
        {
            let o = deleted[x];
            proof {
                assert(del.skip(x as int)[0] == o);
                assert(del.skip(x as int).skip(1) =~= del.skip(x + 1));
                assert(del.take(x + 1) =~= del.take(x as int).push(o));
                assert(spec_free_entries(del.take(x + 1))
                    =~= spec_free_entries(del.take(x as int)).push(
                    StorageObjectLogEntry::Free { object: o },
                ));
                assert(spec_freed_size_entries(del.take(x + 1))
                    =~= spec_freed_size_entries(del.take(x as int)).push(
                    crate::reclaim::ObjectSizeLogEntry::Freed { object: o },
                ));
            }
            let removed = object_block_map.remove(o);
            proof {
                assert(removed);
            }
            self.storage_object_log.push(StorageObjectLogEntry::Free { object: o });
            self.objects_to_delete.push(o);
            self.stats.objects_count = self.stats.objects_count - 1;
            reclaim.logs[idx].object_sizes.push(
                crate::reclaim::ObjectSizeLogEntry::Freed { object: o },
            );
            x = x + 1;
        }
        proof {
            assert(del.skip(n as int) =~= Seq::<ObjectId>::empty());
            assert(del.take(n as int) =~= del);
        }
        // rebuild the pending-frees log from the remainder
        let lg = &mut reclaim.logs[idx];
        lg.pending_frees = remainder;
        lg.pending_free_bytes = lg.pending_free_bytes - freed_bytes;
        lg.reclaim_busy = false;
        // record the rewritten objects' new sizes
        let ghost log_mid = reclaim.logs@[idx as int];
        let ghost sizes_mid = reclaim.logs@[idx as int].object_sizes@;
        let m = rewritten.len();
        let ghost rw = rewritten@;
        let mut y: usize = 0;
        while y < m
            invariant
                y <= m == rw.len(),
                rewritten@ == rw,
                idx < reclaim.logs@.len(),
                reclaim.logs@[idx as int].object_sizes@
                    == sizes_mid + spec_exists_size_entries(rw.take(y as int)),
                *reclaim == (ReclaimInfo { logs: reclaim.logs, ..*old(reclaim) }),
                reclaim.logs@.len() == old(reclaim).logs@.len(),
                forall|k: int| 0 <= k < reclaim.logs@.len() && k != idx as int
                    ==> #[trigger] reclaim.logs@[k] == old(reclaim).logs@[k],
                reclaim.logs@[idx as int] == (crate::reclaim::ReclaimLog {
                    object_sizes: reclaim.logs@[idx as int].object_sizes,
                    ..log_mid
                }),
            decreases m - y,
        {
            proof {
                assert(rw.take(y + 1) =~= rw.take(y as int).push(rw[y as int]));
                assert(spec_exists_size_entries(rw.take(y + 1))
                    =~= spec_exists_size_entries(rw.take(y as int)).push(
                    crate::reclaim::ObjectSizeLogEntry::Exists(rw[y as int]),
                ));
            }
            let os = rewritten[y];
            reclaim.logs[idx].object_sizes.push(
                crate::reclaim::ObjectSizeLogEntry::Exists(os),
            );
            y = y + 1;
        }
        proof {
            assert(rw.take(m as int) =~= rw);
        }
    }

    /// Record that the kernel enabled a feature; a feature already known
    /// stays at its refcount.
    pub fn enable_feature(&mut self, flag: FeatureFlag)
        requires
            old(self).wf(),
        ensures
            final(self).wf(),
            *final(self) == (PoolSyncingState { features: final(self).features, ..*old(self) }),
            spec_feature_get(old(self).features@, flag.name@) is Some
                ==> final(self).features@ == old(self).features@,
            spec_feature_get(old(self).features@, flag.name@) is None
                ==> final(self).features@ == old(self).features@.push((flag, 0)),
            spec_feature_get(final(self).features@, flag.name@) is Some,
            forall|n: Seq<char>| n != flag.name@
                ==> #[trigger] spec_feature_get(final(self).features@, n)
                    == spec_feature_get(old(self).features@, n),
    {
        let ghost pre = self.features@;
        let mut i: usize = 0;
        while i < self.features.len()
            invariant
                self.wf(),
                i <= pre.len(),
                pre == self.features@,
                *self == *old(self),
                forall|x: int| 0 <= x < i ==> (#[trigger] pre[x]).0.name@ != flag.name@,
            decreases pre.len() - i,
        {
            if self.features[i].0.name == flag.name {
                proof {
                    lemma_feature_get_at(pre, i as int);
                }
                return;
            }
            i = i + 1;
        }
        proof {
            lemma_feature_get_absent(pre, flag.name@);
            assert forall|n: Seq<char>| n != flag.name@
                implies #[trigger] spec_feature_get(pre.push((flag, 0u64)), n)
                    == spec_feature_get(pre, n) by {
                lemma_feature_get_snoc(pre, (flag, 0u64), n);
            }
            lemma_feature_get_snoc(pre, (flag, 0u64), flag.name@);
        }
        self.features.push((flag, 0));
        proof {
            assert forall|a: int, b: int|
                #![trigger self.features@[a], self.features@[b]]
                0 <= a < b < self.features@.len()
                implies self.features@[a].0.name@ != self.features@[b].0.name@ by {
                if b < pre.len() {
                    assert(self.features@[a] == pre[a]);
                    assert(self.features@[b] == pre[b]);
                } else {
                    assert(self.features@[a] == pre[a]);
                }
            }
        }
    }

    /// Whether a feature is known to this pool.
    pub fn feature_is_enabled(&self, name: &String) -> (r: bool)
        requires
            self.wf(),
        ensures
            r == (spec_feature_get(self.features@, name@) is Some),
    {
        let mut i: usize = 0;
        while i < self.features.len()
            invariant
                i <= self.features@.len(),
                forall|x: int| 0 <= x < i ==> (#[trigger] self.features@[x]).0.name@ != name@,
            decreases self.features@.len() - i,
        {
            if self.features[i].0.name == *name {
                proof {
                    lemma_feature_get_at(self.features@, i as int);
                }
                return true;
            }
            i = i + 1;
        }
        proof {
            lemma_feature_get_absent(self.features@, name@);
        }
        false
    }

    /// Whether a feature is actively in use: its refcount is positive.
    pub fn feature_is_active(&self, name: &String) -> (r: bool)
        requires
            self.wf(),
        ensures
            r == (spec_feature_get(self.features@, name@) matches Some(c) && c > 0),
    {
        let mut i: usize = 0;
        while i < self.features.len()
            invariant
                i <= self.features@.len(),
                forall|x: int| 0 <= x < i ==> (#[trigger] self.features@[x]).0.name@ != name@,
            decreases self.features@.len() - i,
        {
            if self.features[i].0.name == *name {
                proof {
                    lemma_feature_get_at(self.features@, i as int);
                }
                return self.features[i].1 > 0;
            }
            i = i + 1;
        }
        proof {
            lemma_feature_get_absent(self.features@, name@);
        }
        false
    }

    /// Raise an enabled feature's refcount by one.
    pub fn feature_increment_refcount(&mut self, name: &String)
        requires
            old(self).wf(),
            spec_feature_get(old(self).features@, name@) matches Some(c) && c < u64::MAX,
        ensures
            final(self).wf(),
            *final(self) == (PoolSyncingState { features: final(self).features, ..*old(self) }),
            spec_feature_get(final(self).features@, name@)
                == Some((spec_feature_get(old(self).features@, name@)->Some_0 + 1) as u64),
            forall|n: Seq<char>| n != name@
                ==> #[trigger] spec_feature_get(final(self).features@, n)
                    == spec_feature_get(old(self).features@, n),
    {
        self.feature_add_refcount(name, true);
    }

    /// Lower an active feature's refcount by one.
    pub fn feature_decrement_refcount(&mut self, name: &String)
        requires
            old(self).wf(),
            spec_feature_get(old(self).features@, name@) matches Some(c) && c > 0,
        ensures
            final(self).wf(),
            *final(self) == (PoolSyncingState { features: final(self).features, ..*old(self) }),
            spec_feature_get(final(self).features@, name@)
                == Some((spec_feature_get(old(self).features@, name@)->Some_0 - 1) as u64),
            forall|n: Seq<char>| n != name@
                ==> #[trigger] spec_feature_get(final(self).features@, n)
                    == spec_feature_get(old(self).features@, n),
    {
        self.feature_add_refcount(name, false);
    }

    fn feature_add_refcount(&mut self, name: &String, up: bool)
        requires
            old(self).wf(),
            up ==> (spec_feature_get(old(self).features@, name@) matches Some(c)
                && c < u64::MAX),
            !up ==> (spec_feature_get(old(self).features@, name@) matches Some(c) && c > 0),
        ensures
            final(self).wf(),
            *final(self) == (PoolSyncingState { features: final(self).features, ..*old(self) }),
            up ==> spec_feature_get(final(self).features@, name@)
                == Some((spec_feature_get(old(self).features@, name@)->Some_0 + 1) as u64),
            !up ==> spec_feature_get(final(self).features@, name@)
                == Some((spec_feature_get(old(self).features@, name@)->Some_0 - 1) as u64),
            forall|n: Seq<char>| n != name@
                ==> #[trigger] spec_feature_get(final(self).features@, n)
                    == spec_feature_get(old(self).features@, n),
    {
        let ghost pre = self.features@;
        let mut i: usize = 0;
        while i < self.features.len()
            invariant
                self.wf(),
                i <= pre.len(),
                pre == self.features@,
                *self == *old(self),
                up ==> (spec_feature_get(pre, name@) matches Some(c) && c < u64::MAX),
                !up ==> (spec_feature_get(pre, name@) matches Some(c) && c > 0),
                forall|x: int| 0 <= x < i ==> (#[trigger] pre[x]).0.name@ != name@,
            decreases pre.len() - i,
        {
            if self.features[i].0.name == *name {
                proof {
                    lemma_feature_get_at(pre, i as int);
                }
                let (flag, count) = self.features.remove(i);
                let updated = if up {
                    count + 1
                } else {
                    count - 1
                };
                self.features.insert(i, (flag, updated));
                proof {
                    assert(self.features@ =~= pre.update(i as int, (pre[i as int].0, updated)));
                    assert forall|n: Seq<char>|
                        #![trigger spec_feature_get(self.features@, n)]
                        true implies (if n == pre[i as int].0.name@ {
                        spec_feature_get(self.features@, n) == Some(updated)
                    } else {
                        spec_feature_get(self.features@, n) == spec_feature_get(pre, n)
                    }) by {
                        lemma_feature_get_update(pre, i as int, updated, n);
                    }
                    assert forall|a: int, b: int|
                        #![trigger self.features@[a], self.features@[b]]
                        0 <= a < b < self.features@.len()
                        implies self.features@[a].0.name@ != self.features@[b].0.name@ by {
                        assert(pre[a].0.name@ != pre[b].0.name@);
                    }
                }
                return;
            }
            i = i + 1;
        }
        proof {
            lemma_feature_get_absent(pre, name@);
            assert(false);
        }
    }

    /// Close a TXG. On the first call the uberblock to persist is handed
    /// back, the obsolete objects are released for deletion, and the TXG
    /// advances. A repeat of the last closed TXG with the same uberblock
    /// and config is a no-op: the state is returned untouched.
    pub fn end_txg(&mut self, zfs_uberblock: Vec<u8>, zfs_config: Vec<u8>) -> (r: (
        PoolStatsPhys,
        Option<UberblockPhys>,
    ))
        requires
            old(self).wf(),
            old(self).pending_unordered_writes@.len() == 0,
            old(self).syncing_txg is None ==> {
                &&& old(self).last_ub matches Some(p) && p.0@ == zfs_uberblock@
                    && p.1@ == zfs_config@
                &&& !old(self).pending_object.spec_is_pending()
            },
            old(self).syncing_txg is Some
                ==> (old(self).pending_object matches PendingObjectState::Pending(phys)
                    && phys.blocks@.len() == 0),
        ensures
            final(self).wf(),
            r.0 == old(self).stats,
            // calling again for an already-synced TXG changes nothing
            old(self).syncing_txg is None ==> {
                &&& *final(self) == *old(self)
                &&& r.1 is None
            },
            old(self).syncing_txg is Some ==> {
                &&& final(self).last_txg == old(self).syncing_txg->0
                &&& final(self).syncing_txg is None
                &&& !final(self).pending_object.spec_is_pending()
                &&& final(self).pending_object.spec_next_block()
                    == old(self).pending_object.spec_next_block()
                &&& final(self).stats == old(self).stats
                &&& final(self).objects_to_delete@.len() == 0
                &&& final(self).last_ub matches Some(p) && p.0@ == zfs_uberblock@
                    && p.1@ == zfs_config@
                &&& final(self).features@ == old(self).features@
                &&& r.1 matches Some(ub) && {
                    &&& ub.guid == old(self).guid
                    &&& ub.txg == old(self).syncing_txg->0
                    &&& ub.next_block == old(self).pending_object.spec_next_block()
                    &&& ub.obsolete_objects@ == old(self).objects_to_delete@
                    &&& ub.zfs_uberblock@ == zfs_uberblock@
                    &&& ub.zfs_config@ == zfs_config@
                    &&& ub.stats == old(self).stats
                    &&& ub.features@ == old(self).features@
                }
            },
    {
        let txg = match self.syncing_txg {
            Some(t) => t,
            None => {
                return (self.stats, None);
            },
        };
        let next = self.pending_object.next_block();
        self.pending_object = PendingObjectState::NotPending(next);
        let mut obsolete: Vec<ObjectId> = Vec::new();
        std::mem::swap(&mut obsolete, &mut self.objects_to_delete);
        let features = copy_features(&self.features);
        let ub = UberblockPhys {
            guid: self.guid,
            txg,
            next_block: next,
            obsolete_objects: obsolete,
            zfs_uberblock,
            zfs_config,
            stats: self.stats,
            features,
        };
        let mut ub_copy: Vec<u8> = Vec::new();
        let mut cfg_copy: Vec<u8> = Vec::new();
        copy_bytes(&ub.zfs_uberblock, &mut ub_copy);
        copy_bytes(&ub.zfs_config, &mut cfg_copy);
        self.last_ub = Some((ub_copy, cfg_copy));
        self.last_txg = txg;
        self.syncing_txg = None;
        (self.stats, Some(ub))
    }
}

/// A field-for-field copy of the feature list, for the uberblock.
fn copy_features(src: &Vec<(FeatureFlag, u64)>) -> (r: Vec<(FeatureFlag, u64)>)
    ensures
        r@ == src@,
{
    let mut out: Vec<(FeatureFlag, u64)> = Vec::new();
    let mut i: usize = 0;
    while i < src.len()
        invariant
            i <= src@.len(),
            out@ =~= src@.take(i as int),
        decreases src@.len() - i,
    {
        let flag = FeatureFlag {
            name: src[i].0.name.clone(),
            required: src[i].0.required,
        };
        let count = src[i].1;
        proof {
            assert(flag == src@[i as int].0);
        }
        out.push((flag, count));
        proof {
            assert(out@ =~= src@.take(i + 1));
        }
        i = i + 1;
    }
    proof {
        assert(src@.take(src@.len() as int) =~= src@);
    }
    out
}


/// Block counts of the live data objects: `(blocks_len, blocks_size)`
/// per object.
pub open spec fn spec_tally_blocks(objs: Seq<(u64, u64)>) -> int
    decreases objs.len(),
{
    if objs.len() == 0 {
        0
    } else {
        spec_tally_blocks(objs.drop_last()) + objs.last().0
    }
}

pub open spec fn spec_tally_bytes(objs: Seq<(u64, u64)>) -> int
    decreases objs.len(),
{
    if objs.len() == 0 {
        0
    } else {
        spec_tally_bytes(objs.drop_last()) + objs.last().1
    }
}

/// The stats a pool reports are the sums over its live data objects:
/// as many objects as the block map holds, and their blocks and bytes
/// summed.
pub open spec fn pool_accounting(stats: PoolStatsPhys, objs: Seq<(u64, u64)>) -> bool {
    &&& stats.objects_count == objs.len()
    &&& stats.blocks_count == spec_tally_blocks(objs)
    &&& stats.blocks_bytes == spec_tally_bytes(objs)
}

/// Flushing a data object keeps the accounting: the stats move by
/// exactly the object's own blocks and bytes, as `initiate_flush_object`
/// and `adopt_recovered_object` ensure.
pub proof fn lemma_accounting_after_flush(
    stats0: PoolStatsPhys,
    stats1: PoolStatsPhys,
    objs: Seq<(u64, u64)>,
    blocks: u64,
    bytes: u64,
)
    requires
        pool_accounting(stats0, objs),
        stats1.objects_count == stats0.objects_count + 1,
        stats1.blocks_count == stats0.blocks_count + blocks,
        stats1.blocks_bytes == stats0.blocks_bytes + bytes,
    ensures
        pool_accounting(stats1, objs.push((blocks, bytes))),
{
    assert(objs.push((blocks, bytes)).drop_last() =~= objs);
}

/// Applying a reclaim round keeps the accounting: where the round's
/// freed tallies are exactly the blocks and bytes that left the live
/// objects (what `remove_free_blocks` counts), the stats'
/// decrements — what `apply_reclaim_result` ensures — land on the sums
/// over the objects that remain.
pub proof fn lemma_accounting_after_reclaim(
    stats0: PoolStatsPhys,
    stats1: PoolStatsPhys,
    objs: Seq<(u64, u64)>,
    kept: Seq<(u64, u64)>,
    freed_count: u64,
    freed_bytes: u64,
    deleted_count: int,
)
    requires
        pool_accounting(stats0, objs),
        kept.len() == objs.len() - deleted_count,
        spec_tally_blocks(kept) == spec_tally_blocks(objs) - freed_count,
        spec_tally_bytes(kept) == spec_tally_bytes(objs) - freed_bytes,
        stats1.objects_count == stats0.objects_count - deleted_count,
        stats1.blocks_count == stats0.blocks_count - freed_count,
        stats1.blocks_bytes == stats0.blocks_bytes - freed_bytes,
    ensures
        pool_accounting(stats1, kept),
{
}

fn copy_bytes(src: &Vec<u8>, dst: &mut Vec<u8>)
    requires
        old(dst)@.len() == 0,
    ensures
        final(dst)@ == src@,
{
    let mut i: usize = 0;
    while i < src.len()
        invariant
            i <= src@.len(),
            dst@ =~= src@.take(i as int),
        decreases src@.len() - i,
    {
        let b = src[i];
        dst.push(b);
        proof {
            assert(dst@ =~= src@.take(i + 1));
        }
        i = i + 1;
    }
    proof {
        assert(src@.take(src@.len() as int) =~= src@);
    }
}

/// The refcount recorded for a feature name, if any.
pub open spec fn spec_feature_get(s: Seq<(FeatureFlag, u64)>, name: Seq<char>) -> Option<u64>
    decreases s.len(),
{
    if s.len() == 0 {
        None
    } else if s[0].0.name@ == name {
        Some(s[0].1)
    } else {
        spec_feature_get(s.skip(1), name)
    }
}

/// Feature names occur at most once.
pub open spec fn features_distinct(s: Seq<(FeatureFlag, u64)>) -> bool {
    forall|i: int, j: int| #![trigger s[i], s[j]]
        0 <= i < j < s.len() ==> s[i].0.name@ != s[j].0.name@
}

proof fn lemma_feature_get_at(s: Seq<(FeatureFlag, u64)>, i: int)
    requires
        0 <= i < s.len(),
        forall|x: int| 0 <= x < i ==> (#[trigger] s[x]).0.name@ != s[i].0.name@,
    ensures
        spec_feature_get(s, s[i].0.name@) == Some(s[i].1),
    decreases i,
{
    if i > 0 {
        assert(s.skip(1)[i - 1] == s[i]);
        assert(forall|x: int| 0 <= x < i - 1
            ==> (#[trigger] s.skip(1)[x]).0.name@ != s.skip(1)[i - 1].0.name@);
        lemma_feature_get_at(s.skip(1), i - 1);
    }
}

proof fn lemma_feature_get_absent(s: Seq<(FeatureFlag, u64)>, name: Seq<char>)
    requires
        forall|x: int| 0 <= x < s.len() ==> (#[trigger] s[x]).0.name@ != name,
    ensures
        spec_feature_get(s, name) is None,
    decreases s.len(),
{
    if s.len() > 0 {
        assert(forall|x: int| 0 <= x < s.skip(1).len()
            ==> (#[trigger] s.skip(1)[x]).0.name@ != name);
        lemma_feature_get_absent(s.skip(1), name);
    }
}

proof fn lemma_feature_get_update(s: Seq<(FeatureFlag, u64)>, i: int, count: u64, name2: Seq<char>)
    requires
        features_distinct(s),
        0 <= i < s.len(),
    ensures
        ({
            let t = s.update(i, (s[i].0, count));
            if name2 == s[i].0.name@ {
                spec_feature_get(t, name2) == Some(count)
            } else {
                spec_feature_get(t, name2) == spec_feature_get(s, name2)
            }
        }),
    decreases i,
{
    let t = s.update(i, (s[i].0, count));
    if i == 0 {
        assert(t[0] == (s[0].0, count));
        if name2 != s[0].0.name@ {
            assert(t.skip(1) =~= s.skip(1));
        }
    } else {
        assert(t[0] == s[0]);
        assert(t.skip(1) =~= s.skip(1).update(i - 1, (s.skip(1)[i - 1].0, count)));
        assert(s.skip(1)[i - 1] == s[i]);
        assert(features_distinct(s.skip(1))) by {
            assert forall|a: int, b: int| #![trigger s.skip(1)[a], s.skip(1)[b]]
                0 <= a < b < s.skip(1).len()
                implies s.skip(1)[a].0.name@ != s.skip(1)[b].0.name@ by {
                assert(s[a + 1].0.name@ != s[b + 1].0.name@);
            }
        }
        lemma_feature_get_update(s.skip(1), i - 1, count, name2);
        if s[0].0.name@ == name2 {
            assert(spec_feature_get(t, name2) == Some(s[0].1));
            assert(s[0].0.name@ != s[i].0.name@);
        }
    }
}

proof fn lemma_feature_get_snoc(s: Seq<(FeatureFlag, u64)>, e: (FeatureFlag, u64), name2: Seq<char>)
    ensures
        name2 != e.0.name@
            ==> spec_feature_get(s.push(e), name2) == spec_feature_get(s, name2),
        (name2 == e.0.name@ && spec_feature_get(s, name2) is None)
            ==> spec_feature_get(s.push(e), name2) == Some(e.1),
    decreases s.len(),
{
    if s.len() == 0 {
        assert(s.push(e)[0] == e);
        assert(s.push(e).skip(1) =~= Seq::<(FeatureFlag, u64)>::empty());
        if e.0.name@ != name2 {
            assert(spec_feature_get(s.push(e), name2)
                == spec_feature_get(s.push(e).skip(1), name2));
        }
    } else {
        assert(s.push(e)[0] == s[0]);
        if s[0].0.name@ != name2 {
            assert(s.push(e).skip(1) =~= s.skip(1).push(e));
            lemma_feature_get_snoc(s.skip(1), e, name2);
            assert(spec_feature_get(s, name2) == spec_feature_get(s.skip(1), name2));
        } else {
            assert(spec_feature_get(s.push(e), name2) == Some(s[0].1));
            assert(spec_feature_get(s, name2) == Some(s[0].1));
        }
    }
}

/// The block map after removing each deleted object in turn; `None`
/// where a deleted object is not in the map.
pub open spec fn spec_remove_objects(
    s: Seq<crate::object_block_map::ObjectBlockMapEntry>,
    deleted: Seq<ObjectId>,
) -> Option<Seq<crate::object_block_map::ObjectBlockMapEntry>>
    decreases deleted.len(),
{
    if deleted.len() == 0 {
        Some(s)
    } else {
        let pos = crate::object_block_map::spec_object_insert_pos(s, deleted[0]);
        if pos < s.len() && s[pos].object == deleted[0] {
            spec_remove_objects(s.remove(pos), deleted.skip(1))
        } else {
            None
        }
    }
}

/// Deleted objects as storage-object-log records, in order.
pub open spec fn spec_free_entries(deleted: Seq<ObjectId>) -> Seq<StorageObjectLogEntry> {
    deleted.map_values(|o: ObjectId| StorageObjectLogEntry::Free { object: o })
}

/// Deleted objects as object-size-log records, in order.
pub open spec fn spec_freed_size_entries(deleted: Seq<ObjectId>) -> Seq<
    crate::reclaim::ObjectSizeLogEntry,
> {
    deleted.map_values(|o: ObjectId| crate::reclaim::ObjectSizeLogEntry::Freed { object: o })
}

/// Rewritten objects' sizes as object-size-log records, in order.
pub open spec fn spec_exists_size_entries(rewritten: Seq<crate::reclaim::ObjectSize>) -> Seq<
    crate::reclaim::ObjectSizeLogEntry,
> {
    rewritten.map_values(
        |os: crate::reclaim::ObjectSize| crate::reclaim::ObjectSizeLogEntry::Exists(os),
    )
}

/// The buffered writes at or past `upto`, in order.
pub open spec fn spec_keep_from(s: Seq<(BlockId, Vec<u8>)>, upto: BlockId) -> Seq<(BlockId, Vec<u8>)>
    decreases s.len(),
{
    if s.len() == 0 {
        Seq::empty()
    } else if s.last().0.0 >= upto.0 {
        spec_keep_from(s.drop_last(), upto).push(s.last())
    } else {
        spec_keep_from(s.drop_last(), upto)
    }
}

proof fn lemma_keep_from_subset(s: Seq<(BlockId, Vec<u8>)>, upto: BlockId, x: int)
    requires
        0 <= x < spec_keep_from(s, upto).len(),
    ensures
        exists|x0: int| 0 <= x0 < s.len() && s[x0] == spec_keep_from(s, upto)[x],
        spec_keep_from(s, upto)[x].0.0 >= upto.0,
    decreases s.len(),
{
    if s.len() > 0 {
        let d = s.drop_last();
        if s.last().0.0 >= upto.0 && x == spec_keep_from(d, upto).len() {
            assert(spec_keep_from(s, upto)[x] == s.last());
            assert(s[s.len() - 1] == s.last());
        } else {
            lemma_keep_from_subset(d, upto, x);
            let x0 = choose|x0: int| 0 <= x0 < d.len() && d[x0] == spec_keep_from(d, upto)[x];
            assert(s[x0] == d[x0]);
        }
    }
}

/// The kept entries answer exactly the lookups at or past `upto`.
proof fn lemma_keep_from_props(s: Seq<(BlockId, Vec<u8>)>, upto: BlockId)
    requires
        forall|a: int, b: int| #![trigger s[a], s[b]] 0 <= a < b < s.len() ==> s[a].0 != s[b].0,
    ensures
        forall|x: int, y: int|
            #![trigger spec_keep_from(s, upto)[x], spec_keep_from(s, upto)[y]]
            0 <= x < y < spec_keep_from(s, upto).len()
                ==> spec_keep_from(s, upto)[x].0 != spec_keep_from(s, upto)[y].0,
        forall|b: BlockId| b.0 >= upto.0
            ==> #[trigger] spec_unordered_get(spec_keep_from(s, upto), b)
                == spec_unordered_get(s, b),
        forall|b: BlockId| b.0 < upto.0
            ==> #[trigger] spec_unordered_get(spec_keep_from(s, upto), b) is None,
    decreases s.len(),
{
    if s.len() == 0 {
    } else {
        let d = s.drop_last();
        assert(forall|a: int, b: int| #![trigger d[a], d[b]] 0 <= a < b < d.len()
            ==> d[a].0 != d[b].0) by {
            assert forall|a: int, b: int| #![trigger d[a], d[b]] 0 <= a < b < d.len()
                implies d[a].0 != d[b].0 by {
                assert(s[a].0 != s[b].0);
            }
        }
        lemma_keep_from_props(d, upto);
        let k = spec_keep_from(s, upto);
        let kd = spec_keep_from(d, upto);
        if s.last().0.0 >= upto.0 {
            assert(k == kd.push(s.last()));
            assert forall|x: int, y: int| #![trigger k[x], k[y]] 0 <= x < y < k.len()
                implies k[x].0 != k[y].0 by {
                if y < kd.len() {
                    assert(k[x] == kd[x] && k[y] == kd[y]);
                } else {
                    assert(k[y] == s.last());
                    assert(k[x] == kd[x]);
                    lemma_keep_from_subset(d, upto, x);
                    let x0 = choose|x0: int| 0 <= x0 < d.len() && d[x0] == kd[x];
                    assert(s[x0] == d[x0]);
                    assert(s[x0].0 != s[s.len() - 1].0);
                }
            }
            assert forall|b: BlockId| b.0 >= upto.0
                implies #[trigger] spec_unordered_get(k, b) == spec_unordered_get(s, b) by {
                lemma_unordered_get_snoc_any(kd, s.last(), b);
                lemma_unordered_get_drop_last_any(s, b);
                if b == s.last().0 {
                    assert forall|x: int| 0 <= x < kd.len()
                        implies (#[trigger] kd[x]).0 != b by {
                        lemma_keep_from_subset(d, upto, x);
                        let x0 = choose|x0: int| 0 <= x0 < d.len() && d[x0] == kd[x];
                        assert(s[x0] == d[x0]);
                        assert(s[x0].0 != s[s.len() - 1].0);
                    }
                    lemma_unordered_get_absent(kd, b);
                    assert forall|x: int| 0 <= x < d.len()
                        implies (#[trigger] d[x]).0 != b by {
                        assert(s[x] == d[x]);
                        assert(s[x].0 != s[s.len() - 1].0);
                    }
                    lemma_unordered_get_absent(d, b);
                }
            }
            assert forall|b: BlockId| b.0 < upto.0
                implies #[trigger] spec_unordered_get(k, b) is None by {
                lemma_unordered_get_snoc_any(kd, s.last(), b);
            }
        } else {
            assert(k == kd);
            assert forall|b: BlockId| b.0 >= upto.0
                implies #[trigger] spec_unordered_get(k, b) == spec_unordered_get(s, b) by {
                lemma_unordered_get_drop_last_any(s, b);
            }
        }
    }
}

/// Appending an entry changes only its own block's lookup.
proof fn lemma_unordered_get_snoc_any(
    s: Seq<(BlockId, Vec<u8>)>,
    e: (BlockId, Vec<u8>),
    b: BlockId,
)
    ensures
        b != e.0 ==> spec_unordered_get(s.push(e), b) == spec_unordered_get(s, b),
        b == e.0 && spec_unordered_get(s, b) is None
            ==> spec_unordered_get(s.push(e), b) == Some(e.1@),
    decreases s.len(),
{
    if s.len() == 0 {
        assert(s.push(e)[0] == e);
        assert(s.push(e).skip(1) =~= Seq::<(BlockId, Vec<u8>)>::empty());
        if e.0 != b {
            assert(spec_unordered_get(s.push(e), b)
                == spec_unordered_get(s.push(e).skip(1), b));
        }
    } else {
        assert(s.push(e)[0] == s[0]);
        if s[0].0 != b {
            assert(s.push(e).skip(1) =~= s.skip(1).push(e));
            lemma_unordered_get_snoc_any(s.skip(1), e, b);
            assert(spec_unordered_get(s, b) == spec_unordered_get(s.skip(1), b));
        } else {
            assert(spec_unordered_get(s.push(e), b) == Some(s[0].1@));
            assert(spec_unordered_get(s, b) == Some(s[0].1@));
        }
    }
}

/// Dropping the last entry changes only its own block's lookup, where
/// blocks are distinct.
proof fn lemma_unordered_get_drop_last_any(s: Seq<(BlockId, Vec<u8>)>, b: BlockId)
    requires
        s.len() > 0,
        forall|a: int, c: int| #![trigger s[a], s[c]] 0 <= a < c < s.len() ==> s[a].0 != s[c].0,
    ensures
        b != s.last().0
            ==> spec_unordered_get(s, b) == spec_unordered_get(s.drop_last(), b),
        b == s.last().0 ==> spec_unordered_get(s, b) == Some(s.last().1@),
    decreases s.len(),
{
    if s.len() == 1 {
        assert(s.drop_last() =~= Seq::<(BlockId, Vec<u8>)>::empty());
        assert(s[0] == s.last());
        if b == s.last().0 {
            assert(spec_unordered_get(s, b) == Some(s[0].1@));
        } else {
            assert(spec_unordered_get(s, b) == spec_unordered_get(s.skip(1), b));
            assert(s.skip(1) =~= Seq::<(BlockId, Vec<u8>)>::empty());
        }
    } else {
        assert(s.drop_last()[0] == s[0]);
        if s[0].0 == b {
            assert(spec_unordered_get(s, b) == Some(s[0].1@));
            assert(spec_unordered_get(s.drop_last(), b) == Some(s[0].1@));
            assert(s[0].0 != s[s.len() - 1].0);
        } else {
            let t = s.skip(1);
            assert(forall|a: int, c: int| #![trigger t[a], t[c]] 0 <= a < c < t.len()
                ==> t[a].0 != t[c].0) by {
                assert forall|a: int, c: int| #![trigger t[a], t[c]] 0 <= a < c < t.len()
                    implies t[a].0 != t[c].0 by {
                    assert(s[a + 1].0 != s[c + 1].0);
                }
            }
            assert(t.last() == s.last());
            lemma_unordered_get_drop_last_any(t, b);
            assert(s.drop_last().skip(1) =~= t.drop_last());
            assert(spec_unordered_get(s, b) == spec_unordered_get(t, b));
            assert(spec_unordered_get(s.drop_last(), b)
                == spec_unordered_get(t.drop_last(), b));
        }
    }
}

/// Total bytes buffered among the unordered writes.
pub open spec fn spec_unordered_total(s: Seq<(BlockId, Vec<u8>)>) -> int
    decreases s.len(),
{
    if s.len() == 0 {
        0
    } else {
        s[0].1@.len() + spec_unordered_total(s.skip(1))
    }
}

proof fn lemma_unordered_none_absent(s: Seq<(BlockId, Vec<u8>)>, b: BlockId)
    requires
        spec_unordered_get(s, b) is None,
    ensures
        forall|x: int| 0 <= x < s.len() ==> (#[trigger] s[x]).0 != b,
    decreases s.len(),
{
    if s.len() > 0 {
        lemma_unordered_none_absent(s.skip(1), b);
        assert forall|x: int| 0 <= x < s.len() implies (#[trigger] s[x]).0 != b by {
            if x > 0 {
                assert(s.skip(1)[x - 1] == s[x]);
            }
        }
    }
}

proof fn lemma_unordered_total_nonneg(s: Seq<(BlockId, Vec<u8>)>)
    ensures
        spec_unordered_total(s) >= 0,
    decreases s.len(),
{
    if s.len() > 0 {
        lemma_unordered_total_nonneg(s.skip(1));
    }
}

proof fn lemma_unordered_total_concat(a: Seq<(BlockId, Vec<u8>)>, b: Seq<(BlockId, Vec<u8>)>)
    ensures
        spec_unordered_total(a + b) == spec_unordered_total(a) + spec_unordered_total(b),
    decreases a.len(),
{
    if a.len() == 0 {
        assert(a + b =~= b);
    } else {
        assert((a + b).skip(1) =~= a.skip(1) + b);
        assert((a + b)[0] == a[0]);
        lemma_unordered_total_concat(a.skip(1), b);
    }
}

proof fn lemma_unordered_total_remove(s: Seq<(BlockId, Vec<u8>)>, i: int)
    requires
        0 <= i < s.len(),
    ensures
        spec_unordered_total(s.remove(i)) == spec_unordered_total(s) - s[i].1@.len(),
{
    assert(s =~= s.take(i) + seq![s[i]] + s.skip(i + 1));
    assert(s.remove(i) =~= s.take(i) + s.skip(i + 1));
    lemma_unordered_total_concat(s.take(i) + seq![s[i]], s.skip(i + 1));
    lemma_unordered_total_concat(s.take(i), seq![s[i]]);
    lemma_unordered_total_concat(s.take(i), s.skip(i + 1));
    assert(spec_unordered_total(seq![s[i]]) == s[i].1@.len()) by {
        assert(seq![s[i]].skip(1) =~= Seq::<(BlockId, Vec<u8>)>::empty());
        assert(spec_unordered_total(seq![s[i]])
            == s[i].1@.len() + spec_unordered_total(seq![s[i]].skip(1)));
    }
}

proof fn lemma_unordered_distinct_push(s: Seq<(BlockId, Vec<u8>)>, e: (BlockId, Vec<u8>))
    requires
        spec_unordered_get(s, e.0) is None,
    ensures
        forall|x: int| 0 <= x < s.len() ==> (#[trigger] s[x]).0 != e.0,
    decreases s.len(),
{
    if s.len() > 0 {
        assert(s[0].0 != e.0);
        lemma_unordered_distinct_push(s.skip(1), e);
        assert forall|x: int| 0 <= x < s.len() implies (#[trigger] s[x]).0 != e.0 by {
            if x > 0 {
                assert(s.skip(1)[x - 1] == s[x]);
            }
        }
    }
}

proof fn lemma_unordered_get_snoc(s: Seq<(BlockId, Vec<u8>)>, e: (BlockId, Vec<u8>))
    requires
        forall|x: int| 0 <= x < s.len() ==> (#[trigger] s[x]).0 != e.0,
    ensures
        spec_unordered_get(s.push(e), e.0) == Some(e.1@),
        forall|b: BlockId| b != e.0
            ==> #[trigger] spec_unordered_get(s.push(e), b) == spec_unordered_get(s, b),
    decreases s.len(),
{
    if s.len() == 0 {
        assert(s.push(e)[0] == e);
        assert(s.push(e).skip(1) =~= Seq::<(BlockId, Vec<u8>)>::empty());
        assert forall|b: BlockId| b != e.0
            implies #[trigger] spec_unordered_get(s.push(e), b) == spec_unordered_get(s, b) by {
            assert(spec_unordered_get(s.push(e), b)
                == spec_unordered_get(s.push(e).skip(1), b));
        }
    } else {
        assert(s.push(e)[0] == s[0]);
        assert(s.push(e).skip(1) =~= s.skip(1).push(e));
        assert(forall|x: int| 0 <= x < s.skip(1).len() ==> (#[trigger] s.skip(1)[x]).0 != e.0);
        lemma_unordered_get_snoc(s.skip(1), e);
        assert forall|b: BlockId| b != e.0
            implies #[trigger] spec_unordered_get(s.push(e), b) == spec_unordered_get(s, b) by {
            if s[0].0 != b {
                assert(spec_unordered_get(s.push(e), b)
                    == spec_unordered_get(s.skip(1).push(e), b));
                assert(spec_unordered_get(s, b) == spec_unordered_get(s.skip(1), b));
            }
        }
    }
}

proof fn lemma_unordered_get_at(s: Seq<(BlockId, Vec<u8>)>, b: BlockId, i: int)
    requires
        0 <= i < s.len(),
        s[i].0 == b,
        forall|x: int| 0 <= x < i ==> (#[trigger] s[x]).0 != b,
    ensures
        spec_unordered_get(s, b) == Some(s[i].1@),
    decreases i,
{
    if i > 0 {
        assert(s[0].0 != b);
        assert(s.skip(1)[i - 1] == s[i]);
        assert(forall|x: int| 0 <= x < i - 1 ==> (#[trigger] s.skip(1)[x]).0 != b);
        lemma_unordered_get_at(s.skip(1), b, i - 1);
    }
}

proof fn lemma_unordered_get_absent(s: Seq<(BlockId, Vec<u8>)>, b: BlockId)
    requires
        forall|x: int| 0 <= x < s.len() ==> (#[trigger] s[x]).0 != b,
    ensures
        spec_unordered_get(s, b) is None,
    decreases s.len(),
{
    if s.len() > 0 {
        assert(forall|x: int| 0 <= x < s.skip(1).len() ==> (#[trigger] s.skip(1)[x]).0 != b);
        lemma_unordered_get_absent(s.skip(1), b);
    }
}

proof fn lemma_unordered_remove(s: Seq<(BlockId, Vec<u8>)>, i: int)
    requires
        0 <= i < s.len(),
        forall|x: int, y: int| #![trigger s[x], s[y]] 0 <= x < y < s.len() ==> s[x].0 != s[y].0,
    ensures
        spec_unordered_get(s.remove(i), s[i].0) is None,
        forall|b: BlockId| b != s[i].0
            ==> #[trigger] spec_unordered_get(s.remove(i), b) == spec_unordered_get(s, b),
    decreases s.len(),
{
    let t = s.remove(i);
    assert forall|x: int| 0 <= x < t.len() implies (#[trigger] t[x]).0 != s[i].0 by {
        if x < i {
            assert(t[x] == s[x]);
        } else {
            assert(t[x] == s[x + 1]);
        }
    }
    lemma_unordered_get_absent(t, s[i].0);
    assert forall|b: BlockId| b != s[i].0
        implies #[trigger] spec_unordered_get(t, b) == spec_unordered_get(s, b) by {
        lemma_unordered_remove_other(s, i, b);
    }
}

proof fn lemma_unordered_remove_other(s: Seq<(BlockId, Vec<u8>)>, i: int, b: BlockId)
    requires
        0 <= i < s.len(),
        b != s[i].0,
    ensures
        spec_unordered_get(s.remove(i), b) == spec_unordered_get(s, b),
    decreases s.len(),
{
    let t = s.remove(i);
    if i == 0 {
        assert(t =~= s.skip(1));
    } else {
        assert(t[0] == s[0]);
        if s[0].0 != b {
            assert(t.skip(1) =~= s.skip(1).remove(i - 1));
            assert(s.skip(1)[i - 1] == s[i]);
            lemma_unordered_remove_other(s.skip(1), i - 1, b);
        } else {
            assert(spec_unordered_get(t, b) == Some(t[0].1@));
            assert(spec_unordered_get(s, b) == Some(s[0].1@));
        }
    }
}

} // verus!
