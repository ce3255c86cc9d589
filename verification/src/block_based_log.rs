//! The chunked form of the sorted cache index: entries stored in
//! fixed-size chunks with a summary of each chunk's first key. A lookup
//! binary-searches the summary for the right chunk, then searches within
//! it — and reads exactly what the flattened index holds.

use vstd::prelude::*;
use crate::base::IndexEntry;
use crate::base::IndexKey;
use crate::base::IndexValue;
use crate::merge::index_get;
use crate::merge::index_lookup;
use crate::merge::index_sorted;
use crate::merge::lemma_index_get_absent;

verus! {

/// All chunks laid end to end.
pub open spec fn spec_flat(chunks: Seq<Vec<IndexEntry>>) -> Seq<IndexEntry>
    decreases chunks.len(),
{
    if chunks.len() == 0 {
        Seq::empty()
    } else {
        spec_flat(chunks.drop_last()) + chunks.last()@
    }
}

/// The sorted index in chunks, with each chunk's first key summarized.
#[derive(Debug)]
pub struct BlockBasedLogWithSummary {
    pub chunks: Vec<Vec<IndexEntry>>,
    pub summary: Vec<IndexKey>,
}

impl BlockBasedLogWithSummary {
    pub open spec fn wf(&self) -> bool {
        &&& self.summary@.len() == self.chunks@.len()
        &&& forall|c: int| 0 <= c < self.chunks@.len()
            ==> (#[trigger] self.chunks@[c])@.len() > 0
        &&& forall|c: int| 0 <= c < self.chunks@.len()
            ==> (#[trigger] self.summary@[c]) == self.chunks@[c]@[0].key
        &&& index_sorted(spec_flat(self.chunks@))
    }

    /// Look a key up through the summary: find the last chunk whose
    /// first key is at or below it, then search that chunk. The answer
    /// is exactly the flattened index's.
    #[verifier::rlimit(100)]
    #[verifier::spinoff_prover]
    pub fn lookup_by_key(&self, key: IndexKey) -> (r: Option<IndexValue>)
        requires
            self.wf(),
        ensures
            r == index_get(spec_flat(self.chunks@), key),
    {
        // binary search the summary for the last first-key <= key
        let mut lo: usize = 0;
        let mut hi: usize = self.summary.len();
        proof {
            lemma_flat_props(self.chunks@);
        }
        while lo < hi
            invariant
                self.wf(),
                lo <= hi <= self.summary@.len(),
                forall|c: int| 0 <= c < lo ==> (#[trigger] self.summary@[c]).spec_le(key),
                forall|c: int| hi <= c < self.summary@.len()
                    ==> key.spec_lt(#[trigger] self.summary@[c]),
            decreases hi - lo,
        {
            let mid = lo + (hi - lo) / 2;
            if self.summary[mid].le(&key) {
                proof {
                    lemma_flat_props(self.chunks@);
                    assert forall|c: int| 0 <= c <= mid
                        implies (#[trigger] self.summary@[c]).spec_le(key) by {
                        if c < mid {
                            lemma_chunk_order(self.chunks@, c, mid as int);
                        }
                    }
                }
                lo = mid + 1;
            } else {
                proof {
                    lemma_flat_props(self.chunks@);
                    assert forall|c: int| mid <= c < self.summary@.len()
                        implies key.spec_lt(#[trigger] self.summary@[c]) by {
                        if mid < c {
                            lemma_chunk_order(self.chunks@, mid as int, c);
                        }
                        crate::pending::lemma_key_order_total_pub(self.summary@[mid as int], key);
                    }
                }
                hi = mid;
            }
        }
        if lo == 0 {
            // the key lies below every chunk's first key
            proof {
                lemma_flat_props(self.chunks@);
                assert forall|e: int| 0 <= e < spec_flat(self.chunks@).len()
                    implies (#[trigger] spec_flat(self.chunks@)[e]).key != key by {
                    if self.chunks@.len() > 0 {
                        assert(spec_flat(self.chunks@)[0].key == self.summary@[0]);
                        if e > 0 {
                            assert(spec_flat(self.chunks@)[0].key.spec_lt(
                                spec_flat(self.chunks@)[e].key,
                            ));
                        }
                    }
                }
                lemma_index_get_absent(spec_flat(self.chunks@), key);
            }
            return None;
        }
        let c = lo - 1;
        proof {
            lemma_flat_props(self.chunks@);
            assert(self.summary@[c as int].spec_le(key));
            assert(self.chunks@[c as int]@[0].key.spec_le(key));
            if c + 1 < self.chunks@.len() {
                assert(key.spec_lt(self.summary@[c + 1]));
            }
            assert(index_sorted(self.chunks@[c as int]@));
        }
        let r = index_lookup(&self.chunks[c], key);
        proof {
            lemma_lookup_in_chunk(self.chunks@, c as int, key);
        }
        r
    }
}

/// Where each flattened entry lives, and the order between chunks.
proof fn lemma_flat_props(chunks: Seq<Vec<IndexEntry>>)
    requires
        index_sorted(spec_flat(chunks)),
    ensures
        forall|c: int| 0 <= c < chunks.len()
            ==> #[trigger] spec_chunk_start(chunks, c) + chunks[c]@.len()
                <= spec_flat(chunks).len(),
        forall|c: int, e: int| #![trigger chunks[c]@[e]]
            0 <= c < chunks.len() && 0 <= e < chunks[c]@.len()
                ==> spec_flat(chunks)[spec_chunk_start(chunks, c) + e] == chunks[c]@[e],
        spec_flat(chunks).len() == spec_chunk_start(chunks, chunks.len() as int),
        forall|c: int| 0 <= c < chunks.len()
            ==> index_sorted((#[trigger] chunks[c])@),
    decreases chunks.len(),
{
    if chunks.len() > 0 {
        let d = chunks.drop_last();
        assert(index_sorted(spec_flat(d))) by {
            let f = spec_flat(chunks);
            let fd = spec_flat(d);
            assert(forall|e: int| 0 <= e < fd.len() ==> #[trigger] fd[e] == f[e]);
            assert forall|i: int, j: int| #![trigger fd[i], fd[j]] 0 <= i < j < fd.len()
                implies fd[i].key.spec_lt(fd[j].key) by {
                assert(f[i].key.spec_lt(f[j].key));
            }
        }
        lemma_flat_props(d);
        assert forall|c: int, e: int| #![trigger chunks[c]@[e]]
            0 <= c < chunks.len() && 0 <= e < chunks[c]@.len()
            implies spec_flat(chunks)[spec_chunk_start(chunks, c) + e] == chunks[c]@[e] by {
            if c < chunks.len() - 1 {
                assert(d[c] == chunks[c]);
                lemma_chunk_start_agree(d, chunks, c);
                assert(spec_chunk_start(d, c) + d[c]@.len() <= spec_flat(d).len());
                assert(spec_flat(d)[spec_chunk_start(d, c) + e] == d[c]@[e]);
                assert(spec_flat(chunks) == spec_flat(d) + chunks.last()@);
                assert(0 <= spec_chunk_start(d, c) + e < spec_flat(d).len()) by {
                    lemma_chunk_start_nonneg(d, c);
                }
                assert((spec_flat(d) + chunks.last()@)[spec_chunk_start(d, c) + e]
                    == spec_flat(d)[spec_chunk_start(d, c) + e]);
                assert(spec_flat(chunks)[spec_chunk_start(chunks, c) + e]
                    == spec_flat(d)[spec_chunk_start(d, c) + e]);
            } else {
                lemma_chunk_start_agree(d, chunks, c);
                assert(spec_chunk_start(chunks, c) == spec_chunk_start(d, c));
                assert(spec_chunk_start(d, d.len() as int) == spec_flat(d).len());
                assert(spec_flat(chunks) == spec_flat(d) + chunks.last()@);
                assert(spec_flat(chunks)[spec_flat(d).len() + e] == chunks.last()@[e]);
            }
        }
        assert(spec_flat(chunks).len() == spec_chunk_start(chunks, chunks.len() as int)) by {
            lemma_chunk_start_agree(d, chunks, chunks.len() - 1);
        }
        assert forall|c: int| 0 <= c < chunks.len()
            implies #[trigger] spec_chunk_start(chunks, c) + chunks[c]@.len()
                <= spec_flat(chunks).len() by {
            if c < chunks.len() - 1 {
                lemma_chunk_start_agree(d, chunks, c);
                assert(spec_chunk_start(d, c) + d[c]@.len() <= spec_flat(d).len());
                assert(d[c] == chunks[c]);
            } else {
                lemma_chunk_start_agree(d, chunks, c);
                assert(spec_chunk_start(d, d.len() as int) == spec_flat(d).len());
            }
        }
        assert forall|c: int| 0 <= c < chunks.len()
            implies index_sorted((#[trigger] chunks[c])@) by {
            if c == chunks.len() - 1 {
                let f = spec_flat(chunks);
                let s = chunks[c]@;
                let base = spec_chunk_start(chunks, c);
                assert forall|i: int, j: int| #![trigger s[i], s[j]] 0 <= i < j < s.len()
                    implies s[i].key.spec_lt(s[j].key) by {
                    assert(f[base + i] == s[i]);
                    assert(f[base + j] == s[j]);
                    assert(f[base + i].key.spec_lt(f[base + j].key));
                }
            } else {
                assert(d[c] == chunks[c]);
            }
        }
    }
}

/// Prefix-equal chunk lists agree on their starts.
proof fn lemma_chunk_start_agree(a: Seq<Vec<IndexEntry>>, b: Seq<Vec<IndexEntry>>, c: int)
    requires
        0 <= c,
        c <= a.len(),
        c <= b.len(),
        forall|k: int| 0 <= k < c ==> #[trigger] a[k] == b[k],
    ensures
        spec_chunk_start(a, c) == spec_chunk_start(b, c),
    decreases c,
{
    if c > 0 {
        lemma_chunk_start_agree(a, b, c - 1);
    }
}

/// Entries flattened before chunk `c`.
pub open spec fn spec_chunk_start(chunks: Seq<Vec<IndexEntry>>, c: int) -> int
    decreases c,
{
    if c <= 0 {
        0
    } else {
        spec_chunk_start(chunks, c - 1) + chunks[c - 1]@.len()
    }
}

/// First keys ascend with their chunks.
proof fn lemma_chunk_order(chunks: Seq<Vec<IndexEntry>>, c1: int, c2: int)
    requires
        index_sorted(spec_flat(chunks)),
        0 <= c1 < c2 < chunks.len(),
        forall|c: int| 0 <= c < chunks.len() ==> (#[trigger] chunks[c])@.len() > 0,
    ensures
        chunks[c1]@[0].key.spec_lt(chunks[c2]@[0].key),
{
    lemma_flat_props(chunks);
    lemma_chunk_start_monotone(chunks, c1, c2);
    let f = spec_flat(chunks);
    let p1 = spec_chunk_start(chunks, c1);
    let p2 = spec_chunk_start(chunks, c2);
    assert(f[p1] == chunks[c1]@[0]);
    assert(f[p2] == chunks[c2]@[0]);
    assert(f[p1].key.spec_lt(f[p2].key));
}

proof fn lemma_chunk_start_monotone(chunks: Seq<Vec<IndexEntry>>, c1: int, c2: int)
    requires
        0 <= c1 < c2 <= chunks.len(),
        forall|c: int| 0 <= c < chunks.len() ==> (#[trigger] chunks[c])@.len() > 0,
    ensures
        spec_chunk_start(chunks, c1) + chunks[c1]@.len() <= spec_chunk_start(chunks, c2),
        spec_chunk_start(chunks, c1) >= 0,
    decreases c2 - c1,
{
    if c1 + 1 < c2 {
        lemma_chunk_start_monotone(chunks, c1 + 1, c2);
    }
    lemma_chunk_start_nonneg(chunks, c1);
}

proof fn lemma_chunk_start_nonneg(chunks: Seq<Vec<IndexEntry>>, c: int)
    requires
        c <= chunks.len(),
    ensures
        spec_chunk_start(chunks, c) >= 0,
    decreases c,
{
    if c > 0 {
        lemma_chunk_start_nonneg(chunks, c - 1);
    }
}

/// A key at or past chunk `c`'s first key and before chunk `c + 1`'s
/// reads the same from chunk `c` as from the whole flattened index.
proof fn lemma_lookup_in_chunk(chunks: Seq<Vec<IndexEntry>>, c: int, key: IndexKey)
    requires
        index_sorted(spec_flat(chunks)),
        forall|c2: int| 0 <= c2 < chunks.len() ==> (#[trigger] chunks[c2])@.len() > 0,
        0 <= c < chunks.len(),
        chunks[c]@[0].key.spec_le(key),
        c + 1 < chunks.len() ==> key.spec_lt(chunks[c + 1]@[0].key),
    ensures
        index_get(spec_flat(chunks), key) == index_get(chunks[c]@, key),
{
    lemma_flat_props(chunks);
    let f = spec_flat(chunks);
    let base = spec_chunk_start(chunks, c);
    lemma_chunk_start_nonneg(chunks, c);
    // entries outside chunk c never hold the key
    assert forall|e: int| (0 <= e < base
        || base + chunks[c]@.len() <= e < f.len())
        implies (#[trigger] f[e]).key != key by {
        if e < base {
            // before the chunk: strictly below its first key
            assert(f[e].key.spec_lt(f[base].key));
            assert(f[base] == chunks[c]@[0]);
            crate::pending::lemma_key_order_total_pub(f[e].key, key);
            if key.spec_lt(f[e].key) {
            }
        } else {
            // past the chunk: at or past the next chunk's first key
            assert(c + 1 < chunks.len()) by {
                lemma_chunk_start_monotone(chunks, c, chunks.len() as int);
                if c + 1 == chunks.len() {
                    assert(f.len() == spec_chunk_start(chunks, c + 1));
                    assert(spec_chunk_start(chunks, c + 1) == base + chunks[c]@.len());
                }
            }
            let nbase = spec_chunk_start(chunks, c + 1);
            assert(nbase == base + chunks[c]@.len());
            assert(f[nbase] == chunks[c + 1]@[0]);
            assert(e >= nbase);
            if e > nbase {
                assert(f[nbase].key.spec_lt(f[e].key));
            }
            crate::pending::lemma_key_order_total_pub(f[e].key, key);
            if f[e].key.spec_lt(key) {
                assert(key.spec_lt(chunks[c + 1]@[0].key));
            }
        }
    }
    lemma_get_restricted(f, base, chunks[c]@, key);
}

/// A lookup whose key occurs nowhere outside a window answers from the
/// window alone.
proof fn lemma_get_restricted(
    f: Seq<IndexEntry>,
    base: int,
    chunk: Seq<IndexEntry>,
    key: IndexKey,
)
    requires
        0 <= base,
        base + chunk.len() <= f.len(),
        forall|e: int| 0 <= e < chunk.len() ==> #[trigger] chunk[e] == f[base + e],
        forall|e: int| (0 <= e < base || base + chunk.len() <= e < f.len())
            ==> (#[trigger] f[e]).key != key,
    ensures
        index_get(f, key) == index_get(chunk, key),
    decreases f.len(),
{
    if f.len() == 0 {
        assert(chunk =~= Seq::<IndexEntry>::empty());
    } else if base > 0 {
        assert(f[0].key != key);
        let f1 = f.skip(1);
        assert(forall|e: int| 0 <= e < chunk.len() ==> #[trigger] chunk[e] == f1[base - 1 + e]);
        assert forall|e: int| (0 <= e < base - 1 || base - 1 + chunk.len() <= e < f1.len())
            implies (#[trigger] f1[e]).key != key by {
            assert(f1[e] == f[e + 1]);
        }
        lemma_get_restricted(f1, base - 1, chunk, key);
    } else {
        // base == 0: the window is a prefix
        if chunk.len() == 0 {
            assert forall|e: int| 0 <= e < f.len() implies (#[trigger] f[e]).key != key by {}
            lemma_index_get_absent(f, key);
        } else {
            assert(chunk[0] == f[0]);
            if f[0].key == key {
            } else {
                let f1 = f.skip(1);
                let c1 = chunk.skip(1);
                assert(forall|e: int| 0 <= e < c1.len()
                    ==> #[trigger] c1[e] == f1[e]);
                assert forall|e: int| (0 <= e < 0 || c1.len() <= e < f1.len())
                    implies (#[trigger] f1[e]).key != key by {
                    assert(f1[e] == f[e + 1]);
                }
                lemma_get_restricted(f1, 0, c1, key);
            }
        }
    }
}

} // verus!
