//! Crash consistency of the TXG commit: the super object is the
//! linearization point. `end_txg` writes the new uberblock first and
//! only then the super object naming its TXG; reopening after a crash
//! reads the super object and follows it to an uberblock.

use vstd::prelude::*;
use crate::base::DiskLocation;
use crate::base::Extent;
use crate::base::Txg;

verus! {

/// The durable objects of one pool that the commit touches: the super
/// object's `last_txg` and the uberblocks by TXG, as abstract contents.
pub struct DurablePool {
    pub last_txg: Txg,
    pub uberblocks: Map<u64, Seq<u8>>,
}

impl DurablePool {
    /// The super object names an uberblock that exists.
    pub open spec fn wf(&self) -> bool {
        self.uberblocks.contains_key(self.last_txg.0)
    }

    /// What reopening reads: the uberblock the super object names.
    pub open spec fn reopen(&self) -> (Txg, Seq<u8>) {
        (self.last_txg, self.uberblocks[self.last_txg.0])
    }
}

/// Where the next checkpoint lands in the ring buffer: right after the
/// last one when it fits before the ring's end, else back at the ring's
/// start; nowhere when it cannot fit in the ring at all.
pub fn checkpoint_location(last: Extent, need: u64, ring_start: u64, ring_end: u64) -> (r: Option<
    DiskLocation,
>)
    requires
        ring_start <= ring_end,
        ring_start <= last.location.offset,
        last.location.offset + last.size <= ring_end,
    ensures
        need > ring_end - ring_start ==> r is None,
        need <= ring_end - ring_start ==> (r matches Some(loc) && {
            let next = last.location.offset + last.size;
            if next + need <= ring_end {
                loc.offset == next
            } else {
                loc.offset == ring_start
            }
        }),
{
    if need > ring_end - ring_start {
        return None;
    }
    let next = last.location.offset + last.size;
    if ring_end - next >= need {
        Some(DiskLocation { offset: next })
    } else {
        Some(DiskLocation { offset: ring_start })
    }
}

/// Where a crash interrupts the commit of `txg`.
pub enum CommitCrash {
    BeforeUberblock,
    AfterUberblock,
    AfterSuper,
}

/// The durable state a crash leaves behind: the uberblock PUT lands
/// first, the super PUT second, each atomic on its own.
pub open spec fn spec_crashed_state(
    pre: DurablePool,
    txg: Txg,
    ub: Seq<u8>,
    crash: CommitCrash,
) -> DurablePool {
    match crash {
        CommitCrash::BeforeUberblock => pre,
        CommitCrash::AfterUberblock => DurablePool {
            last_txg: pre.last_txg,
            uberblocks: pre.uberblocks.insert(txg.0, ub),
        },
        CommitCrash::AfterSuper => DurablePool {
            last_txg: txg,
            uberblocks: pre.uberblocks.insert(txg.0, ub),
        },
    }
}

/// Across any crash point during the commit, reopening reproduces either
/// the pre-TXG or the post-TXG state exactly: whichever uberblock the
/// super object names is intact.
pub proof fn lemma_commit_crash_consistent(
    pre: DurablePool,
    txg: Txg,
    ub: Seq<u8>,
    crash: CommitCrash,
)
    requires
        pre.wf(),
        txg.0 > pre.last_txg.0,
    ensures
        spec_crashed_state(pre, txg, ub, crash).wf(),
        spec_crashed_state(pre, txg, ub, crash).reopen() == pre.reopen()
            || spec_crashed_state(pre, txg, ub, crash).reopen() == (txg, ub),
{
    match crash {
        CommitCrash::BeforeUberblock => {
        },
        CommitCrash::AfterUberblock => {
            assert(pre.last_txg.0 != txg.0);
        },
        CommitCrash::AfterSuper => {
        },
    }
}

} // verus!
