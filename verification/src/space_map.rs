//! Space-map records and their generation-gated replay. A slab's history
//! is invalidated wholesale by bumping its generation: entries recorded
//! under an older generation are ignored when the log is replayed.

use vstd::prelude::*;
use crate::base::DiskLocation;
use crate::base::Extent;

verus! {

#[derive(Debug, Copy, Clone, PartialEq, Eq, Structural, Hash)]
pub struct SlabId(pub u64);

#[derive(Debug, Copy, Clone, PartialEq, Eq, Structural)]
pub struct SpaceMapExtent {
    pub offset: u64,
    pub size: u64,
}

#[derive(Debug, Copy, Clone, PartialEq, Eq, Structural)]
pub struct MarkGenerationEntry {
    pub slab_id: SlabId,
    pub generation: u64,
}

#[derive(Debug, Copy, Clone, PartialEq, Eq, Structural)]
pub enum SpaceMapEntry {
    Alloc(SpaceMapExtent),
    Free(SpaceMapExtent),
    MarkGeneration(MarkGenerationEntry),
}

/// A space map: the log of allocation records covering one region of
/// the device. The records accumulate here in order; `replay_gated`
/// over these entries is exactly the recorded history, so what a slab
/// flushes or condenses into the map is what a later open replays.
#[derive(Debug)]
pub struct SpaceMap {
    pub entries: Vec<SpaceMapEntry>,
    pub coverage: SpaceMapExtent,
    pub alloc_entries: u64,
}

impl SpaceMap {
    pub fn new(offset: u64, size: u64) -> (r: SpaceMap)
        ensures
            r.entries@.len() == 0,
            r.coverage == (SpaceMapExtent { offset, size }),
            r.alloc_entries == 0,
    {
        SpaceMap {
            entries: Vec::new(),
            coverage: SpaceMapExtent { offset, size },
            alloc_entries: 0,
        }
    }

    /// Record an allocation; a zero-sized one leaves no record.
    pub fn record_alloc(&mut self, offset: u64, size: u64)
        requires
            old(self).alloc_entries < u64::MAX,
        ensures
            size != 0 ==> {
                &&& final(self).entries@ == old(self).entries@.push(
                    SpaceMapEntry::Alloc(SpaceMapExtent { offset, size }),
                )
                &&& final(self).alloc_entries == old(self).alloc_entries + 1
            },
            size == 0 ==> *final(self) == *old(self),
            final(self).coverage == old(self).coverage,
    {
        if size != 0 {
            self.entries.push(SpaceMapEntry::Alloc(SpaceMapExtent { offset, size }));
            self.alloc_entries = self.alloc_entries + 1;
        }
    }

    /// Record a free; a zero-sized one leaves no record.
    pub fn free(&mut self, offset: u64, size: u64)
        ensures
            size != 0 ==> final(self).entries@ == old(self).entries@.push(
                SpaceMapEntry::Free(SpaceMapExtent { offset, size }),
            ),
            size == 0 ==> *final(self) == *old(self),
            final(self).coverage == old(self).coverage,
            final(self).alloc_entries == old(self).alloc_entries,
    {
        if size != 0 {
            self.entries.push(SpaceMapEntry::Free(SpaceMapExtent { offset, size }));
        }
    }

    /// Bump a slab's generation: every earlier record of that slab is
    /// dead to a replay at the new generation.
    pub fn mark_generation(&mut self, slab_id: SlabId, generation: u64)
        ensures
            final(self).entries@ == old(self).entries@.push(
                SpaceMapEntry::MarkGeneration(MarkGenerationEntry { slab_id, generation }),
            ),
            final(self).coverage == old(self).coverage,
            final(self).alloc_entries == old(self).alloc_entries,
    {
        self.entries.push(
            SpaceMapEntry::MarkGeneration(MarkGenerationEntry { slab_id, generation }),
        );
    }

    pub fn get_coverage(&self) -> (r: Extent)
        ensures
            r.location.offset == self.coverage.offset,
            r.size == self.coverage.size,
    {
        Extent {
            location: DiskLocation { offset: self.coverage.offset },
            size: self.coverage.size,
        }
    }

    pub fn get_total_entries(&self) -> (r: usize)
        ensures
            r == self.entries@.len(),
    {
        self.entries.len()
    }

    pub fn get_alloc_entries(&self) -> (r: u64)
        ensures
            r == self.alloc_entries,
    {
        self.alloc_entries
    }
}

/// An allocation-set operation that passed the generation filter:
/// `true` allocates the extent, `false` frees it.
pub type SpaceMapOp = (bool, SpaceMapExtent);

/// The generation current after replaying `entries` for one slab,
/// starting from generation zero.
pub open spec fn spec_gen_after(entries: Seq<SpaceMapEntry>) -> u64
    decreases entries.len(),
{
    if entries.len() == 0 {
        0
    } else {
        match entries.last() {
            SpaceMapEntry::MarkGeneration(m) => m.generation,
            _ => spec_gen_after(entries.drop_last()),
        }
    }
}

/// The operations that apply to a slab whose recorded generation is
/// `slab_gen`: an alloc or free counts only while the replayed
/// generation matches.
pub open spec fn spec_gated_ops(entries: Seq<SpaceMapEntry>, slab_gen: u64) -> Seq<SpaceMapOp>
    decreases entries.len(),
{
    if entries.len() == 0 {
        Seq::empty()
    } else {
        let rest = spec_gated_ops(entries.drop_last(), slab_gen);
        match entries.last() {
            SpaceMapEntry::MarkGeneration(_) => rest,
            SpaceMapEntry::Alloc(e) => if spec_gen_after(entries.drop_last()) == slab_gen {
                rest.push((true, e))
            } else {
                rest
            },
            SpaceMapEntry::Free(e) => if spec_gen_after(entries.drop_last()) == slab_gen {
                rest.push((false, e))
            } else {
                rest
            },
        }
    }
}

/// Replay a slab's space-map entries under generation gating: exactly
/// the operations recorded at the slab's live generation survive.
pub fn replay_gated(entries: &Vec<SpaceMapEntry>, slab_gen: u64) -> (r: Vec<SpaceMapOp>)
    ensures
        r@ == spec_gated_ops(entries@, slab_gen),
{
    let mut out: Vec<SpaceMapOp> = Vec::new();
    let mut cur: u64 = 0;
    let mut i: usize = 0;
    proof {
        assert(entries@.take(0) =~= Seq::<SpaceMapEntry>::empty());
    }
    while i < entries.len()
        invariant
            i <= entries@.len(),
            cur == spec_gen_after(entries@.take(i as int)),
            out@ == spec_gated_ops(entries@.take(i as int), slab_gen),
        decreases entries@.len() - i,
    {
        proof {
            assert(entries@.take(i + 1).drop_last() =~= entries@.take(i as int));
            assert(entries@.take(i + 1).last() == entries@[i as int]);
        }
        match entries[i] {
            SpaceMapEntry::MarkGeneration(m) => {
                cur = m.generation;
            },
            SpaceMapEntry::Alloc(e) => {
                if cur == slab_gen {
                    out.push((true, e));
                }
            },
            SpaceMapEntry::Free(e) => {
                if cur == slab_gen {
                    out.push((false, e));
                }
            },
        }
        i = i + 1;
    }
    proof {
        assert(entries@.take(entries@.len() as int) =~= entries@);
    }
    out
}

/// Which of the two spacemaps a dirty slab flushes to: slabs already
/// condensed this pass (below the cursor) flush to the next spacemap,
/// the rest still to the current one.
pub fn flushes_to_next_spacemap(slab: SlabId, next_slab_to_condense: SlabId) -> (r: bool)
    ensures
        r == (slab.0 < next_slab_to_condense.0),
{
    slab.0 < next_slab_to_condense.0
}

/// The operations a mark-free record run contributes, unconditionally.
pub open spec fn spec_plain_ops(entries: Seq<SpaceMapEntry>) -> Seq<SpaceMapOp>
    decreases entries.len(),
{
    if entries.len() == 0 {
        Seq::empty()
    } else {
        let rest = spec_plain_ops(entries.drop_last());
        match entries.last() {
            SpaceMapEntry::MarkGeneration(_) => rest,
            SpaceMapEntry::Alloc(e) => rest.push((true, e)),
            SpaceMapEntry::Free(e) => rest.push((false, e)),
        }
    }
}

/// Generation gating discards a slab's history wholesale: where the
/// condensed records follow a generation bump to `g`, and nothing before
/// the bump was recorded at `g`, replaying the whole log yields exactly
/// the records written after the bump. Replaying the spacemaps with
/// gating therefore reproduces the slab's live allocation set: the
/// condensed records are that set.
pub proof fn lemma_condense_discards_history(
    history: Seq<SpaceMapEntry>,
    g: u64,
    condensed: Seq<SpaceMapEntry>,
)
    requires
        g != 0,
        forall|i: int| 0 <= i < history.len()
            ==> ((#[trigger] history[i]) matches SpaceMapEntry::MarkGeneration(m)
                ==> m.generation != g),
        forall|i: int| 0 <= i < condensed.len()
            ==> !((#[trigger] condensed[i]) is MarkGeneration),
    ensures
        spec_gated_ops(
            history + seq![
                SpaceMapEntry::MarkGeneration(MarkGenerationEntry {
                    slab_id: SlabId(0),
                    generation: g,
                }),
            ] + condensed,
            g,
        ) == spec_plain_ops(condensed),
{
    let mark = SpaceMapEntry::MarkGeneration(MarkGenerationEntry {
        slab_id: SlabId(0),
        generation: g,
    });
    let pre = history + seq![mark];
    lemma_history_ignored(history, g);
    assert(spec_gated_ops(pre, g) =~= Seq::<SpaceMapOp>::empty()) by {
        assert(pre.drop_last() =~= history);
        assert(pre.last() == mark);
    }
    assert(spec_gen_after(pre) == g) by {
        assert(pre.drop_last() =~= history);
        assert(pre.last() == mark);
    }
    lemma_tail_applies(pre, condensed, g);
    assert(pre + condensed =~= history + seq![mark] + condensed);
    assert(Seq::<SpaceMapOp>::empty() + spec_plain_ops(condensed)
        =~= spec_plain_ops(condensed));
}

/// Records written while the generation never matched contribute nothing.
proof fn lemma_history_ignored(history: Seq<SpaceMapEntry>, g: u64)
    requires
        g != 0,
        forall|i: int| 0 <= i < history.len()
            ==> ((#[trigger] history[i]) matches SpaceMapEntry::MarkGeneration(m)
                ==> m.generation != g),
    ensures
        spec_gated_ops(history, g) =~= Seq::<SpaceMapOp>::empty(),
        spec_gen_after(history) != g,
    decreases history.len(),
{
    if history.len() > 0 {
        let d = history.drop_last();
        assert(forall|i: int| 0 <= i < d.len()
            ==> ((#[trigger] d[i]) matches SpaceMapEntry::MarkGeneration(m)
                ==> m.generation != g));
        lemma_history_ignored(d, g);
        assert(history[history.len() - 1] == history.last());
    }
}

/// A mark-free tail after a matching generation all applies.
proof fn lemma_tail_applies(pre: Seq<SpaceMapEntry>, tail: Seq<SpaceMapEntry>, g: u64)
    requires
        spec_gen_after(pre) == g,
        forall|i: int| 0 <= i < tail.len() ==> !((#[trigger] tail[i]) is MarkGeneration),
    ensures
        spec_gated_ops(pre + tail, g) == spec_gated_ops(pre, g) + spec_plain_ops(tail),
        spec_gen_after(pre + tail) == g,
    decreases tail.len(),
{
    if tail.len() == 0 {
        assert(pre + tail =~= pre);
        assert(spec_gated_ops(pre, g) + spec_plain_ops(tail) =~= spec_gated_ops(pre, g));
    } else {
        let d = tail.drop_last();
        assert(forall|i: int| 0 <= i < d.len() ==> !((#[trigger] d[i]) is MarkGeneration));
        lemma_tail_applies(pre, d, g);
        assert((pre + tail).drop_last() =~= pre + d);
        assert((pre + tail).last() == tail.last());
        assert(tail[tail.len() - 1] == tail.last());
        match tail.last() {
            SpaceMapEntry::MarkGeneration(_) => {
                assert(false);
            },
            SpaceMapEntry::Alloc(e) => {
                assert(spec_gated_ops(pre + tail, g)
                    == (spec_gated_ops(pre, g) + spec_plain_ops(d)).push((true, e)));
                assert(spec_gated_ops(pre, g) + spec_plain_ops(tail)
                    =~= (spec_gated_ops(pre, g) + spec_plain_ops(d)).push((true, e)));
            },
            SpaceMapEntry::Free(e) => {
                assert(spec_gated_ops(pre + tail, g)
                    == (spec_gated_ops(pre, g) + spec_plain_ops(d)).push((false, e)));
                assert(spec_gated_ops(pre, g) + spec_plain_ops(tail)
                    =~= (spec_gated_ops(pre, g) + spec_plain_ops(d)).push((false, e)));
            },
        }
    }
}

} // verus!
