//! A data object: one cloud object holding a consecutive batch of blocks,
//! with its accounting fields.

use vstd::prelude::*;
use crate::base::BlockId;
use crate::base::ObjectId;
use crate::base::PoolGuid;
use crate::base::Txg;

verus! {

/// Blocks strictly increasing by id.
pub open spec fn blocks_sorted(s: Seq<(BlockId, Vec<u8>)>) -> bool {
    forall|i: int, j: int| #![trigger s[i], s[j]]
        0 <= i < j < s.len() ==> s[i].0.0 < s[j].0.0
}

/// The data stored for `block`, if any.
pub open spec fn spec_block_get(s: Seq<(BlockId, Vec<u8>)>, block: BlockId) -> Option<Seq<u8>>
    decreases s.len(),
{
    if s.len() == 0 {
        None
    } else if s[0].0 == block {
        Some(s[0].1@)
    } else {
        spec_block_get(s.skip(1), block)
    }
}

/// Total bytes held.
pub open spec fn spec_blocks_size(s: Seq<(BlockId, Vec<u8>)>) -> int
    decreases s.len(),
{
    if s.len() == 0 {
        0
    } else {
        s[0].1@.len() + spec_blocks_size(s.skip(1))
    }
}

/// One batched cloud object: blocks in `[min_block, next_block)`, written
/// over TXGs `[min_txg, max_txg]`.
#[derive(Debug)]
pub struct DataObjectPhys {
    pub guid: PoolGuid,
    pub object: ObjectId,
    pub blocks_size: u32,
    pub min_block: BlockId,
    pub next_block: BlockId,
    pub min_txg: Txg,
    pub max_txg: Txg,
    pub blocks: Vec<(BlockId, Vec<u8>)>,
}

impl DataObjectPhys {
    pub open spec fn wf(&self) -> bool {
        &&& blocks_sorted(self.blocks@)
        &&& self.min_block.0 <= self.next_block.0
        &&& self.min_txg.0 <= self.max_txg.0
        &&& forall|i: int| 0 <= i < self.blocks@.len()
            ==> self.min_block.0 <= (#[trigger] self.blocks@[i]).0.0 < self.next_block.0
        &&& self.blocks_size == spec_blocks_size(self.blocks@)
    }

    pub fn new(guid: PoolGuid, object: ObjectId, next_block: BlockId, txg: Txg) -> (r:
        DataObjectPhys)
        ensures
            r.wf(),
            r.guid == guid,
            r.object == object,
            r.min_block == next_block,
            r.next_block == next_block,
            r.min_txg == txg,
            r.max_txg == txg,
            r.blocks@.len() == 0,
            r.blocks_size == 0,
    {
        DataObjectPhys {
            guid,
            object,
            blocks_size: 0,
            min_block: next_block,
            next_block,
            min_txg: txg,
            max_txg: txg,
            blocks: Vec::new(),
        }
    }

    /// Append the next consecutive block.
    pub fn append_block(&mut self, data: Vec<u8>)
        requires
            old(self).wf(),
            old(self).next_block.0 < u64::MAX,
            data@.len() <= u32::MAX,
            old(self).blocks_size + data@.len() <= u32::MAX,
        ensures
            final(self).wf(),
            final(self).blocks@ == old(self).blocks@.push((old(self).next_block, data)),
            final(self).next_block.0 == old(self).next_block.0 + 1,
            final(self).blocks_size == old(self).blocks_size + data@.len(),
            final(self).min_block == old(self).min_block,
            final(self).guid == old(self).guid,
            final(self).object == old(self).object,
            final(self).min_txg == old(self).min_txg,
            final(self).max_txg == old(self).max_txg,
            spec_block_get(final(self).blocks@, old(self).next_block) == Some(data@),
    {
        let ghost pre = self.blocks@;
        let block = self.next_block;
        let len = data.len();
        self.blocks.push((block, data));
        self.blocks_size = self.blocks_size + len as u32;
        self.next_block = BlockId(self.next_block.0 + 1);
        proof {
            lemma_blocks_size_snoc(pre, self.blocks@[pre.len() as int]);
            assert forall|i: int, j: int| #![trigger self.blocks@[i], self.blocks@[j]]
                0 <= i < j < self.blocks@.len()
                implies self.blocks@[i].0.0 < self.blocks@[j].0.0 by {
                if j < pre.len() {
                    assert(self.blocks@[i] == pre[i]);
                    assert(self.blocks@[j] == pre[j]);
                } else {
                    assert(self.blocks@[i] == pre[i]);
                }
            }
            lemma_block_get_snoc_found(pre, self.blocks@[pre.len() as int]);
        }
    }

    /// The bytes stored for `block`.
    pub fn get_block(&self, block: BlockId) -> (r: Option<&Vec<u8>>)
        ensures
            match r {
                Some(v) => spec_block_get(self.blocks@, block) == Some(v@),
                None => spec_block_get(self.blocks@, block) is None,
            },
    {
        let mut i: usize = 0;
        while i < self.blocks.len()
            invariant
                i <= self.blocks@.len(),
                forall|x: int| 0 <= x < i ==> (#[trigger] self.blocks@[x]).0 != block,
            decreases self.blocks@.len() - i,
        {
            if self.blocks[i].0.0 == block.0 {
                proof {
                    lemma_block_get_at(self.blocks@, block, i as int);
                }
                return Some(&self.blocks[i].1);
            }
            i = i + 1;
        }
        proof {
            lemma_block_get_absent(self.blocks@, block);
        }
        None
    }

    /// The pure consistency checks made when an object is fetched:
    /// exactly the well-formedness this type maintains.
    pub fn verify(&self) -> (r: bool)
        ensures
            r == self.wf(),
    {
        if self.min_block.0 > self.next_block.0 || self.min_txg.0 > self.max_txg.0 {
            return false;
        }
        let ghost whole = self.blocks@;
        let mut sum: u64 = 0;
        let mut i: usize = 0;
        proof {
            assert(whole.take(0) =~= Seq::<(BlockId, Vec<u8>)>::empty());
        }
        while i < self.blocks.len()
            invariant
                i <= whole.len(),
                whole == self.blocks@,
                self.min_block.0 <= self.next_block.0,
                self.min_txg.0 <= self.max_txg.0,
                sum == spec_blocks_size(whole.take(i as int)),
                sum <= u32::MAX,
                forall|a: int, b: int| #![trigger whole[a], whole[b]] 0 <= a < b < i
                    ==> whole[a].0.0 < whole[b].0.0,
                forall|a: int| 0 <= a < i
                    ==> self.min_block.0 <= (#[trigger] whole[a]).0.0 < self.next_block.0,
            decreases whole.len() - i,
        {
            proof {
                lemma_blocks_size_prefix_bound(whole, i as int);
                assert(whole.take(i + 1) =~= whole.take(i as int).push(whole[i as int]));
                lemma_blocks_size_snoc(whole.take(i as int), whole[i as int]);
            }
            let entry_block = self.blocks[i].0;
            if entry_block.0 < self.min_block.0 || entry_block.0 >= self.next_block.0 {
                return false;
            }
            if i > 0 && self.blocks[i - 1].0.0 >= entry_block.0 {
                proof {
                    assert(!blocks_sorted(whole));
                }
                return false;
            }
            let len = self.blocks[i].1.len();
            if len > u32::MAX as usize || sum + len as u64 > u32::MAX as u64 {
                // more bytes than the counter can hold: the recorded
                // size cannot match
                proof {
                    assert(spec_blocks_size(whole) > u32::MAX);
                }
                return false;
            }
            sum = sum + len as u64;
            i = i + 1;
            proof {
                assert forall|a: int, b: int| #![trigger whole[a], whole[b]] 0 <= a < b < i
                    implies whole[a].0.0 < whole[b].0.0 by {
                    if b == i - 1 && a < b - 1 {
                        assert(whole[a].0.0 < whole[b - 1].0.0);
                    }
                }
            }
        }
        proof {
            assert(whole.take(whole.len() as int) =~= whole);
        }
        sum == self.blocks_size as u64
    }

    /// The full check made on a fetched object: it is the object that
    /// was asked for — the recorded pool and object id equal the
    /// requested ones — and its contents are consistent.
    pub fn verify_fetched(&self, guid: PoolGuid, object: ObjectId) -> (r: bool)
        ensures
            r == (self.guid == guid && self.object == object && self.wf()),
    {
        if self.guid.0 != guid.0 || self.object.0 != object.0 {
            return false;
        }
        self.verify()
    }

    pub fn blocks_len(&self) -> (r: usize)
        ensures
            r == self.blocks@.len(),
    {
        self.blocks.len()
    }

    pub fn is_empty(&self) -> (r: bool)
        ensures
            r == (self.blocks@.len() == 0),
    {
        self.blocks.len() == 0
    }

    /// Recompute the byte total from the contents.
    pub fn calculate_blocks_size(&self) -> (r: u32)
        requires
            spec_blocks_size(self.blocks@) <= u32::MAX,
        ensures
            r == spec_blocks_size(self.blocks@),
    {
        let mut total: u32 = 0;
        let mut i: usize = self.blocks.len();
        proof {
            assert(self.blocks@.skip(i as int) =~= Seq::<(BlockId, Vec<u8>)>::empty());
        }
        while i > 0
            invariant
                i <= self.blocks@.len(),
                spec_blocks_size(self.blocks@) <= u32::MAX,
                total == spec_blocks_size(self.blocks@.skip(i as int)),
            decreases i,
        {
            proof {
                lemma_blocks_size_unfold(self.blocks@, i - 1);
                lemma_blocks_size_skip_le(self.blocks@, i - 1);
                lemma_blocks_size_nonneg(self.blocks@.skip(i as int));
                assert(self.blocks@[i - 1].1@.len() <= u32::MAX);
            }
            let entry_len = self.blocks[i - 1].1.len();
            total = total + entry_len as u32;
            i = i - 1;
        }
        proof {
            assert(self.blocks@.skip(0) =~= self.blocks@);
        }
        total
    }
}

proof fn lemma_blocks_size_concat_local(a: Seq<(BlockId, Vec<u8>)>, b: Seq<(BlockId, Vec<u8>)>)
    ensures
        spec_blocks_size(a + b) == spec_blocks_size(a) + spec_blocks_size(b),
    decreases a.len(),
{
    if a.len() == 0 {
        assert(a + b =~= b);
    } else {
        assert((a + b).skip(1) =~= a.skip(1) + b);
        assert((a + b)[0] == a[0]);
        lemma_blocks_size_concat_local(a.skip(1), b);
    }
}

/// A prefix and its next element never exceed the whole.
proof fn lemma_blocks_size_prefix_bound(s: Seq<(BlockId, Vec<u8>)>, i: int)
    requires
        0 <= i < s.len(),
    ensures
        spec_blocks_size(s.take(i)) + s[i].1@.len() <= spec_blocks_size(s),
        spec_blocks_size(s.take(i)) >= 0,
{
    assert(s =~= s.take(i + 1) + s.skip(i + 1));
    lemma_blocks_size_concat_local(s.take(i + 1), s.skip(i + 1));
    assert(s.take(i + 1) =~= s.take(i).push(s[i]));
    lemma_blocks_size_snoc(s.take(i), s[i]);
    lemma_blocks_size_nonneg(s.skip(i + 1));
    lemma_blocks_size_nonneg(s.take(i));
}

/// A block just appended reads back as exactly the bytes appended.
pub proof fn lemma_write_then_read(obj: DataObjectPhys, pre: Seq<(BlockId, Vec<u8>)>, b: BlockId, data: Vec<u8>)
    requires
        blocks_sorted(pre),
        forall|i: int| 0 <= i < pre.len() ==> (#[trigger] pre[i]).0.0 < b.0,
        obj.blocks@ == pre.push((b, data)),
    ensures
        spec_block_get(obj.blocks@, b) == Some(data@),
{
    let e = (b, data);
    assert forall|i: int| 0 <= i < pre.len() implies (#[trigger] pre[i]).0 != b by {}
    lemma_block_get_snoc_found(pre, e);
}

proof fn lemma_block_get_at(s: Seq<(BlockId, Vec<u8>)>, block: BlockId, i: int)
    requires
        0 <= i < s.len(),
        s[i].0 == block,
        forall|x: int| 0 <= x < i ==> (#[trigger] s[x]).0 != block,
    ensures
        spec_block_get(s, block) == Some(s[i].1@),
    decreases i,
{
    if i > 0 {
        assert(s[0].0 != block);
        assert(s.skip(1)[i - 1] == s[i]);
        assert(forall|x: int| 0 <= x < i - 1 ==> (#[trigger] s.skip(1)[x]).0 != block);
        lemma_block_get_at(s.skip(1), block, i - 1);
    }
}

proof fn lemma_block_get_absent(s: Seq<(BlockId, Vec<u8>)>, block: BlockId)
    requires
        forall|x: int| 0 <= x < s.len() ==> (#[trigger] s[x]).0 != block,
    ensures
        spec_block_get(s, block) is None,
    decreases s.len(),
{
    if s.len() > 0 {
        assert(forall|x: int| 0 <= x < s.skip(1).len() ==> (#[trigger] s.skip(1)[x]).0 != block);
        lemma_block_get_absent(s.skip(1), block);
    }
}

proof fn lemma_block_get_snoc_found(s: Seq<(BlockId, Vec<u8>)>, e: (BlockId, Vec<u8>))
    requires
        forall|x: int| 0 <= x < s.len() ==> (#[trigger] s[x]).0 != e.0,
    ensures
        spec_block_get(s.push(e), e.0) == Some(e.1@),
    decreases s.len(),
{
    if s.len() == 0 {
        assert(s.push(e)[0] == e);
    } else {
        assert(s.push(e)[0] == s[0]);
        assert(s.push(e).skip(1) =~= s.skip(1).push(e));
        assert(forall|x: int| 0 <= x < s.skip(1).len() ==> (#[trigger] s.skip(1)[x]).0 != e.0);
        lemma_block_get_snoc_found(s.skip(1), e);
    }
}

proof fn lemma_blocks_size_nonneg(s: Seq<(BlockId, Vec<u8>)>)
    ensures
        spec_blocks_size(s) >= 0,
    decreases s.len(),
{
    if s.len() > 0 {
        lemma_blocks_size_nonneg(s.skip(1));
    }
}

proof fn lemma_blocks_size_unfold(s: Seq<(BlockId, Vec<u8>)>, i: int)
    requires
        0 <= i < s.len(),
    ensures
        spec_blocks_size(s.skip(i)) == s[i].1@.len() + spec_blocks_size(s.skip(i + 1)),
{
    assert(s.skip(i).skip(1) =~= s.skip(i + 1));
    assert(s.skip(i)[0] == s[i]);
}

proof fn lemma_blocks_size_skip_le(s: Seq<(BlockId, Vec<u8>)>, i: int)
    requires
        0 <= i <= s.len(),
    ensures
        spec_blocks_size(s.skip(i)) <= spec_blocks_size(s),
    decreases i,
{
    if i > 0 {
        lemma_blocks_size_skip_le(s, i - 1);
        lemma_blocks_size_unfold(s, i - 1);
        lemma_blocks_size_nonneg(s.skip(i));
    } else {
        assert(s.skip(0) =~= s);
    }
}

proof fn lemma_blocks_size_snoc(s: Seq<(BlockId, Vec<u8>)>, e: (BlockId, Vec<u8>))
    ensures
        spec_blocks_size(s.push(e)) == spec_blocks_size(s) + e.1@.len(),
    decreases s.len(),
{
    if s.len() == 0 {
        assert(s.push(e)[0] == e);
        assert(s.push(e).skip(1) =~= Seq::<(BlockId, Vec<u8>)>::empty());
        assert(spec_blocks_size(s.push(e))
            == e.1@.len() + spec_blocks_size(s.push(e).skip(1)));
    } else {
        assert(s.push(e)[0] == s[0]);
        assert(s.push(e).skip(1) =~= s.skip(1).push(e));
        lemma_blocks_size_snoc(s.skip(1), e);
        assert(spec_blocks_size(s.push(e))
            == s[0].1@.len() + spec_blocks_size(s.push(e).skip(1)));
        assert(spec_blocks_size(s) == s[0].1@.len() + spec_blocks_size(s.skip(1)));
    }
}

/// Appending a block leaves every other block's bytes unchanged.
pub proof fn lemma_block_get_snoc_other_pub(
    s: Seq<(BlockId, Vec<u8>)>,
    e: (BlockId, Vec<u8>),
    b: BlockId,
)
    requires
        b != e.0,
    ensures
        spec_block_get(s.push(e), b) == spec_block_get(s, b),
    decreases s.len(),
{
    if s.len() == 0 {
        assert(s.push(e)[0] == e);
        assert(s.push(e)[0].0 != b);
        assert(spec_block_get(s.push(e), b) == spec_block_get(s.push(e).skip(1), b));
        assert(s.push(e).skip(1) =~= Seq::<(BlockId, Vec<u8>)>::empty());
    } else {
        assert(s.push(e)[0] == s[0]);
        if s[0].0 != b {
            assert(spec_block_get(s.push(e), b) == spec_block_get(s.push(e).skip(1), b));
            assert(s.push(e).skip(1) =~= s.skip(1).push(e));
            lemma_block_get_snoc_other_pub(s.skip(1), e, b);
            assert(spec_block_get(s, b) == spec_block_get(s.skip(1), b));
        } else {
            assert(spec_block_get(s.push(e), b) == Some(s[0].1@));
            assert(spec_block_get(s, b) == Some(s[0].1@));
        }
    }
}

/// Appending one block adds exactly its bytes.
pub proof fn lemma_blocks_size_snoc_pub(s: Seq<(BlockId, Vec<u8>)>, e: (BlockId, Vec<u8>))
    ensures
        spec_blocks_size(s.push(e)) == spec_blocks_size(s) + e.1@.len(),
{
    lemma_blocks_size_snoc(s, e);
}

pub proof fn lemma_blocks_size_nonneg_pub(s: Seq<(BlockId, Vec<u8>)>)
    ensures
        spec_blocks_size(s) >= 0,
{
    lemma_blocks_size_nonneg(s);
}

/// Dropping the last block subtracts exactly its bytes.
pub proof fn lemma_blocks_size_drop_last_pub(s: Seq<(BlockId, Vec<u8>)>)
    requires
        s.len() > 0,
    ensures
        spec_blocks_size(s) == spec_blocks_size(s.drop_last()) + s.last().1@.len(),
{
    assert(s =~= s.drop_last().push(s.last()));
    lemma_blocks_size_snoc(s.drop_last(), s.last());
}

} // verus!
