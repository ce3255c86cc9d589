//! The block-to-object index of a pool: a sorted map from each data
//! object to the first block it may hold, rebuilt by replaying the storage
//! object log.

use vstd::prelude::*;
use crate::base::BlockId;
use crate::base::ObjectId;

verus! {

/// One entry of the storage object log.
#[derive(Debug, Copy, Clone, PartialEq, Eq, Structural)]
pub enum StorageObjectLogEntry {
    Alloc { object: ObjectId, min_block: BlockId },
    Free { object: ObjectId },
}

#[derive(Debug, Copy, Clone, PartialEq, Eq, Structural)]
pub struct ObjectBlockMapEntry {
    pub object: ObjectId,
    pub block: BlockId,
}

/// Entries strictly increasing in both object id and first block.
pub open spec fn entries_sorted(s: Seq<ObjectBlockMapEntry>) -> bool {
    forall|i: int, j: int| #![trigger s[i], s[j]]
        0 <= i < j < s.len()
            ==> s[i].object.0 < s[j].object.0 && s[i].block.0 < s[j].block.0
}

/// Entry `i` covers block `b`: it is the entry with the greatest first
/// block not exceeding `b`.
pub open spec fn is_covering(s: Seq<ObjectBlockMapEntry>, b: BlockId, i: int) -> bool {
    &&& 0 <= i < s.len()
    &&& s[i].block.0 <= b.0
    &&& (i == s.len() - 1 || s[i + 1].block.0 > b.0)
}

/// Insert one `Alloc` record into a sorted entry sequence, checking that
/// its first block falls strictly between the neighbours'; `None` on any
/// violation (duplicate object, or block out of order).
pub open spec fn spec_insert_setup(
    s: Seq<ObjectBlockMapEntry>,
    object: ObjectId,
    block: BlockId,
) -> Option<Seq<ObjectBlockMapEntry>> {
    let pos = spec_object_insert_pos(s, object);
    if pos < s.len() && s[pos].object == object {
        None
    } else if pos > 0 && s[pos - 1].block.0 >= block.0 {
        None
    } else if pos < s.len() && s[pos].block.0 <= block.0 {
        None
    } else {
        Some(s.insert(pos, ObjectBlockMapEntry { object, block }))
    }
}

/// The number of entries whose object id is below `object`.
pub open spec fn spec_object_insert_pos(s: Seq<ObjectBlockMapEntry>, object: ObjectId) -> int
    decreases s.len(),
{
    if s.len() == 0 {
        0
    } else if s.last().object.0 < object.0 {
        s.len() as int
    } else {
        spec_object_insert_pos(s.drop_last(), object)
    }
}

/// Replay of the storage object log into the sorted entry sequence;
/// `None` where the log is inconsistent (a free of an absent object, a
/// duplicate allocation, or blocks out of order).
pub open spec fn spec_replay(entries: Seq<StorageObjectLogEntry>) -> Option<Seq<ObjectBlockMapEntry>>
    decreases entries.len(),
{
    if entries.len() == 0 {
        Some(Seq::empty())
    } else {
        match spec_replay(entries.drop_last()) {
            None => None,
            Some(s) => match entries.last() {
                StorageObjectLogEntry::Alloc { object, min_block } => {
                    spec_insert_setup(s, object, min_block)
                },
                StorageObjectLogEntry::Free { object } => {
                    let pos = spec_object_insert_pos(s, object);
                    if pos < s.len() && s[pos].object == object {
                        Some(s.remove(pos))
                    } else {
                        None
                    }
                },
            },
        }
    }
}

/// In-memory map from data objects to the first block each may hold.
/// `block_to_object(b)` is the entry with the greatest first block `<= b`.
#[derive(Debug, Clone)]
pub struct ObjectBlockMap {
    pub map: Vec<ObjectBlockMapEntry>,
    pub next_block: BlockId,
}

impl ObjectBlockMap {
    pub open spec fn entries(&self) -> Seq<ObjectBlockMapEntry> {
        self.map@
    }

    pub open spec fn spec_next_block(&self) -> BlockId {
        self.next_block
    }

    pub open spec fn wf(&self) -> bool {
        &&& entries_sorted(self.map@)
        &&& forall|i: int| 0 <= i < self.map@.len() ==> #[trigger] self.map@[i].block.0 < self.next_block.0
    }

    /// Build the map by replaying the storage object log. Returns `None`
    /// exactly where the log is inconsistent.
    pub fn load(entries: &Vec<StorageObjectLogEntry>, next_block: BlockId) -> (r: Option<
        ObjectBlockMap,
    >)
        ensures
            match r {
                Some(m) => {
                    &&& spec_replay(entries@) == Some(m.map@)
                    &&& m.next_block == next_block
                    &&& entries_sorted(m.map@)
                    &&& (forall|i: int| 0 <= i < m.map@.len()
                            ==> #[trigger] m.map@[i].block.0 < next_block.0) ==> m.wf()
                },
                None => spec_replay(entries@) is None,
            },
    {
        let mut map: Vec<ObjectBlockMapEntry> = Vec::new();
        let mut i: usize = 0;
        proof {
            assert(entries@.take(0) =~= Seq::<StorageObjectLogEntry>::empty());
        }
        while i < entries.len()
            invariant
                i <= entries@.len(),
                spec_replay(entries@.take(i as int)) == Some(map@),
                entries_sorted(map@),
            decreases entries@.len() - i,
        {
            let ghost prefix = entries@.take(i as int);
            proof {
                assert(entries@.take(i + 1).drop_last() =~= prefix);
                assert(entries@.take(i + 1).last() == entries@[i as int]);
            }
            match entries[i] {
                StorageObjectLogEntry::Alloc { object, min_block } => {
                    if !Self::insert_setup(&mut map, object, min_block) {
                        proof {
                            lemma_replay_extends_none(entries@, i as int);
                        }
                        return None;
                    }
                },
                StorageObjectLogEntry::Free { object } => {
                    let pos = Self::object_position(&map, object);
                    if pos < map.len() && map[pos].object.0 == object.0 {
                        map.remove(pos);
                        proof {
                            lemma_sorted_remove(old_map_at_remove(prefix), pos as int);
                        }
                    } else {
                        proof {
                            lemma_replay_extends_none(entries@, i as int);
                        }
                        return None;
                    }
                },
            }
            i = i + 1;
        }
        proof {
            assert(entries@.take(entries@.len() as int) =~= entries@);
        }
        Some(ObjectBlockMap { map, next_block })
    }

    /// The number of entries whose object id is below `object`; also the
    /// position of `object` itself if present.
    fn object_position(map: &Vec<ObjectBlockMapEntry>, object: ObjectId) -> (r: usize)
        requires
            entries_sorted(map@),
        ensures
            r == spec_object_insert_pos(map@, object),
            r <= map@.len(),
            forall|k: int| 0 <= k < r ==> #[trigger] map@[k].object.0 < object.0,
            forall|k: int| r <= k < map@.len() ==> #[trigger] map@[k].object.0 >= object.0,
    {
        proof {
            lemma_object_insert_pos_props(map@, object);
        }
        let mut lo: usize = 0;
        let mut hi: usize = map.len();
        while lo < hi
            invariant
                entries_sorted(map@),
                lo <= hi <= map@.len(),
                forall|k: int| 0 <= k < lo ==> #[trigger] map@[k].object.0 < object.0,
                forall|k: int| hi <= k < map@.len() ==> #[trigger] map@[k].object.0 >= object.0,
            decreases hi - lo,
        {
            let mid = lo + (hi - lo) / 2;
            if map[mid].object.0 < object.0 {
                proof {
                    assert forall|k: int| 0 <= k <= mid
                        implies (#[trigger] map@[k]).object.0 < object.0 by {
                        assert(k < mid ==> map@[k].object.0 < map@[mid as int].object.0);
                    }
                }
                lo = mid + 1;
            } else {
                proof {
                    assert forall|k: int| mid <= k < map@.len()
                        implies (#[trigger] map@[k]).object.0 >= object.0 by {
                        assert(mid < k ==> map@[mid as int].object.0 < map@[k].object.0);
                    }
                }
                hi = mid;
            }
        }
        proof {
            lemma_object_insert_pos_unique(map@, object, lo as int);
        }
        lo
    }

    /// Insert an allocation record found while replaying the log; entries
    /// may arrive in any order. Returns false (leaving the map unchanged)
    /// where the record contradicts its neighbours.
    pub fn insert_setup(
        map: &mut Vec<ObjectBlockMapEntry>,
        object: ObjectId,
        first_block: BlockId,
    ) -> (ok: bool)
        requires
            entries_sorted(old(map)@),
        ensures
            entries_sorted(final(map)@),
            match spec_insert_setup(old(map)@, object, first_block) {
                Some(s) => ok && final(map)@ == s,
                None => !ok && final(map)@ == old(map)@,
            },
    {
        let pos = Self::object_position(map, object);
        if pos < map.len() && map[pos].object.0 == object.0 {
            return false;
        }
        if pos > 0 && map[pos - 1].block.0 >= first_block.0 {
            return false;
        }
        if pos < map.len() && map[pos].block.0 <= first_block.0 {
            return false;
        }
        let ghost pre = map@;
        map.insert(pos, ObjectBlockMapEntry { object, block: first_block });
        proof {
            lemma_sorted_insert(pre, pos as int, ObjectBlockMapEntry { object, block: first_block });
        }
        true
    }

    /// After setup, new objects are appended: greater than every existing
    /// object, starting exactly at the recorded next block.
    pub fn insert(&mut self, object: ObjectId, first_block: BlockId, next_block: BlockId)
        requires
            old(self).wf(),
            first_block == old(self).spec_next_block(),
            first_block.0 < next_block.0,
            old(self).entries().len() > 0
                ==> object.0 > old(self).entries().last().object.0,
        ensures
            final(self).wf(),
            final(self).entries() == old(self).entries().push(
                ObjectBlockMapEntry { object, block: first_block },
            ),
            final(self).spec_next_block() == next_block,
    {
        self.map.push(ObjectBlockMapEntry { object, block: first_block });
        self.next_block = next_block;
    }

    /// Remove a deleted object from the map.
    pub fn remove(&mut self, object: ObjectId) -> (removed: bool)
        requires
            old(self).wf(),
        ensures
            final(self).wf(),
            final(self).spec_next_block() == old(self).spec_next_block(),
            ({
                let pos = spec_object_insert_pos(old(self).entries(), object);
                if pos < old(self).entries().len() && old(self).entries()[pos].object == object {
                    removed && final(self).entries() == old(self).entries().remove(pos)
                } else {
                    !removed && final(self).entries() == old(self).entries()
                }
            }),
    {
        let pos = Self::object_position(&self.map, object);
        if pos < self.map.len() && self.map[pos].object.0 == object.0 {
            let ghost pre = self.map@;
            self.map.remove(pos);
            proof {
                lemma_sorted_remove(pre, pos as int);
            }
            true
        } else {
            false
        }
    }

    /// The object whose block range covers `block`.
    pub fn block_to_object(&self, block: BlockId) -> (r: ObjectId)
        requires
            self.wf(),
            block.0 < self.spec_next_block().0,
            exists|i: int| 0 <= i < self.entries().len()
                && #[trigger] self.entries()[i].block.0 <= block.0,
        ensures
            exists|i: int| is_covering(self.entries(), block, i)
                && r == self.entries()[i].object,
            r == spec_block_to_object(self.entries(), block),
    {
        let mut lo: usize = 0;
        let mut hi: usize = self.map.len();
        proof {
            let w = choose|i: int| 0 <= i < self.entries().len()
                && #[trigger] self.entries()[i].block.0 <= block.0;
            if w != 0 {
                assert(self.map@[0].block.0 < self.map@[w].block.0);
            }
        }
        while hi - lo > 1
            invariant
                lo < hi <= self.map@.len(),
                entries_sorted(self.map@),
                self.map@[lo as int].block.0 <= block.0,
                hi < self.map@.len() ==> self.map@[hi as int].block.0 > block.0,
            decreases hi - lo,
        {
            let mid = lo + (hi - lo) / 2;
            if self.map[mid].block.0 <= block.0 {
                lo = mid;
            } else {
                hi = mid;
            }
        }
        proof {
            assert(is_covering(self.entries(), block, lo as int));
            let w = choose|i: int| is_covering(self.entries(), block, i);
            lemma_block_coverage_unique(self.entries(), block, lo as int, w);
        }
        self.map[lo].object
    }

    /// The first block that may be held by `object`.
    pub fn object_to_min_block(&self, object: ObjectId) -> (r: Option<BlockId>)
        requires
            self.wf(),
        ensures
            ({
                let pos = spec_object_insert_pos(self.entries(), object);
                if pos < self.entries().len() && self.entries()[pos].object == object {
                    r == Some(self.entries()[pos].block)
                } else {
                    r is None
                }
            }),
    {
        let pos = Self::object_position(&self.map, object);
        if pos < self.map.len() && self.map[pos].object.0 == object.0 {
            Some(self.map[pos].block)
        } else {
            None
        }
    }

    /// The first block past `object`'s range: the next object's first
    /// block, or the pool's next block where `object` is the last.
    pub fn object_to_next_block(&self, object: ObjectId) -> (r: Option<BlockId>)
        requires
            self.wf(),
        ensures
            ({
                let pos = spec_object_insert_pos(self.entries(), object);
                if pos < self.entries().len() && self.entries()[pos].object == object {
                    if pos + 1 < self.entries().len() {
                        r == Some(self.entries()[pos + 1].block)
                    } else {
                        r == Some(self.spec_next_block())
                    }
                } else {
                    r is None
                }
            }),
    {
        let pos = Self::object_position(&self.map, object);
        if pos < self.map.len() && self.map[pos].object.0 == object.0 {
            if pos + 1 < self.map.len() {
                Some(self.map[pos + 1].block)
            } else {
                Some(self.next_block)
            }
        } else {
            None
        }
    }

    /// The greatest object in the map, or object 0 where the map is empty.
    pub fn last_object(&self) -> (r: ObjectId)
        ensures
            self.entries().len() == 0 ==> r.0 == 0,
            self.entries().len() > 0 ==> r == self.entries().last().object,
    {
        if self.map.len() == 0 {
            ObjectId(0)
        } else {
            self.map[self.map.len() - 1].object
        }
    }

    pub fn len(&self) -> (r: usize)
        ensures
            r == self.entries().len(),
    {
        self.map.len()
    }

    pub fn is_empty(&self) -> (r: bool)
        ensures
            r == (self.entries().len() == 0),
    {
        self.map.len() == 0
    }
}

/// The object covering `b`, as a mathematical function.
pub open spec fn spec_block_to_object(s: Seq<ObjectBlockMapEntry>, b: BlockId) -> ObjectId {
    s[choose|i: int| is_covering(s, b, i)].object
}

/// Block coverage is unique: no block is covered by two entries.
pub proof fn lemma_block_coverage_unique(s: Seq<ObjectBlockMapEntry>, b: BlockId, i: int, j: int)
    requires
        entries_sorted(s),
        is_covering(s, b, i),
        is_covering(s, b, j),
    ensures
        i == j,
{
    if i < j {
        assert(i + 1 < j ==> s[i + 1].block.0 < s[j].block.0);
        assert(s[i + 1].block.0 <= b.0);
    }
    if j < i {
        assert(j + 1 < i ==> s[j + 1].block.0 < s[i].block.0);
        assert(s[j + 1].block.0 <= b.0);
    }
}

/// The covering entry is exactly the one whose range `[block, next)` holds
/// `b`, where `next` is the next entry's first block.
pub proof fn lemma_covering_range(s: Seq<ObjectBlockMapEntry>, b: BlockId, i: int)
    requires
        entries_sorted(s),
        is_covering(s, b, i),
    ensures
        s[i].block.0 <= b.0,
        i + 1 < s.len() ==> b.0 < s[i + 1].block.0,
{
}

proof fn lemma_object_insert_pos_props(s: Seq<ObjectBlockMapEntry>, object: ObjectId)
    requires
        entries_sorted(s),
    ensures
        0 <= spec_object_insert_pos(s, object) <= s.len(),
        forall|k: int| 0 <= k < spec_object_insert_pos(s, object)
            ==> #[trigger] s[k].object.0 < object.0,
        forall|k: int| spec_object_insert_pos(s, object) <= k < s.len()
            ==> #[trigger] s[k].object.0 >= object.0,
    decreases s.len(),
{
    if s.len() > 0 {
        let d = s.drop_last();
        assert(forall|k: int| 0 <= k < d.len() ==> #[trigger] d[k] == s[k]);
        assert(entries_sorted(d)) by {
            assert forall|i: int, j: int| #![trigger d[i], d[j]] 0 <= i < j < d.len()
                implies d[i].object.0 < d[j].object.0 && d[i].block.0 < d[j].block.0 by {
                assert(s[i].object.0 < s[j].object.0 && s[i].block.0 < s[j].block.0);
            }
        }
        lemma_object_insert_pos_props(d, object);
        if s.last().object.0 < object.0 {
            assert forall|k: int| 0 <= k < s.len() implies (#[trigger] s[k]).object.0 < object.0 by {
                assert(k < s.len() - 1 ==> s[k].object.0 < s[s.len() - 1].object.0);
            }
        } else {
            let pos = spec_object_insert_pos(s, object);
            assert(pos == spec_object_insert_pos(d, object));
            assert forall|k: int| 0 <= k < pos implies (#[trigger] s[k]).object.0 < object.0 by {
                assert(d[k].object.0 < object.0);
            }
            assert forall|k: int| pos <= k < s.len() implies (#[trigger] s[k]).object.0 >= object.0 by {
                if k < s.len() - 1 {
                    assert(d[k].object.0 >= object.0);
                }
            }
        }
    }
}

proof fn lemma_object_insert_pos_unique(s: Seq<ObjectBlockMapEntry>, object: ObjectId, p: int)
    requires
        entries_sorted(s),
        0 <= p <= s.len(),
        forall|k: int| 0 <= k < p ==> #[trigger] s[k].object.0 < object.0,
        forall|k: int| p <= k < s.len() ==> #[trigger] s[k].object.0 >= object.0,
    ensures
        p == spec_object_insert_pos(s, object),
{
    lemma_object_insert_pos_props(s, object);
    let q = spec_object_insert_pos(s, object);
    if p < q {
        assert(s[p].object.0 < object.0);
    }
    if q < p {
        assert(s[q].object.0 < object.0);
    }
}

proof fn lemma_sorted_insert(s: Seq<ObjectBlockMapEntry>, pos: int, e: ObjectBlockMapEntry)
    requires
        entries_sorted(s),
        0 <= pos <= s.len(),
        forall|k: int| 0 <= k < pos ==> #[trigger] s[k].object.0 < e.object.0 && s[k].block.0 < e.block.0,
        forall|k: int| pos <= k < s.len() ==> #[trigger] s[k].object.0 > e.object.0 && s[k].block.0 > e.block.0,
    ensures
        entries_sorted(s.insert(pos, e)),
{
    let t = s.insert(pos, e);
    assert forall|i: int, j: int| 0 <= i < j < t.len()
        implies #[trigger] t[i].object.0 < #[trigger] t[j].object.0 && t[i].block.0 < t[j].block.0 by {
        if i < pos {
            assert(t[i] == s[i]);
        } else if i == pos {
            assert(t[i] == e);
        } else {
            assert(t[i] == s[i - 1]);
        }
        if j < pos {
            assert(t[j] == s[j]);
        } else if j == pos {
            assert(t[j] == e);
        } else {
            assert(t[j] == s[j - 1]);
        }
    }
}

proof fn lemma_sorted_remove(s: Seq<ObjectBlockMapEntry>, pos: int)
    requires
        entries_sorted(s),
        0 <= pos < s.len(),
    ensures
        entries_sorted(s.remove(pos)),
{
    let t = s.remove(pos);
    assert forall|i: int, j: int| 0 <= i < j < t.len()
        implies #[trigger] t[i].object.0 < #[trigger] t[j].object.0 && t[i].block.0 < t[j].block.0 by {
        let i0 = if i < pos { i } else { i + 1 };
        let j0 = if j < pos { j } else { j + 1 };
        assert(t[i] == s[i0]);
        assert(t[j] == s[j0]);
    }
}

/// Helper naming the entry sequence replayed from a log prefix.
pub open spec fn old_map_at_remove(prefix: Seq<StorageObjectLogEntry>) -> Seq<ObjectBlockMapEntry> {
    spec_replay(prefix)->Some_0
}

proof fn lemma_replay_extends_none(entries: Seq<StorageObjectLogEntry>, i: int)
    requires
        0 <= i < entries.len(),
        spec_replay(entries.take(i + 1)) is None,
    ensures
        spec_replay(entries) is None,
    decreases entries.len() - i,
{
    if i + 1 < entries.len() {
        assert(entries.take(i + 2).drop_last() =~= entries.take(i + 1));
        lemma_replay_extends_none(entries, i + 1);
    } else {
        assert(entries.take(i + 1) =~= entries);
    }
}

} // verus!
