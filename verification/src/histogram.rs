//! Access-time histogram: per-atime byte counts over the live cache
//! contents, used to pick the eviction cutoff for a target cache size.

use vstd::prelude::*;
use crate::base::Atime;
use crate::base::IndexValue;

verus! {

/// Sum of a sequence of bucket counts, as an unbounded integer.
pub open spec fn bucket_sum(s: Seq<u64>) -> int
    decreases s.len(),
{
    if s.len() == 0 {
        0
    } else {
        s[0] + bucket_sum(s.skip(1))
    }
}

/// Sum of the buckets from index `i` (inclusive) to the end.
pub open spec fn suffix_sum(s: Seq<u64>, i: int) -> int {
    bucket_sum(s.skip(i))
}

/// The mathematical histogram: bucket counts as unbounded integers.
pub open spec fn abs_buckets(s: Seq<u64>) -> Seq<int> {
    s.map_values(|v: u64| v as int)
}

/// One insertion into the mathematical histogram: extend with zero buckets
/// as needed, then add `size` to bucket `idx`.
pub open spec fn model_insert(s: Seq<int>, idx: int, size: int) -> Seq<int> {
    let extended = if idx < s.len() {
        s
    } else {
        s + Seq::new((idx + 1 - s.len()) as nat, |_j: int| 0)
    };
    extended.update(idx, extended[idx] + size)
}

pub open spec fn int_sum(s: Seq<int>) -> int
    decreases s.len(),
{
    if s.len() == 0 {
        0
    } else {
        s[0] + int_sum(s.skip(1))
    }
}

/// Total size of a set of live entries.
pub open spec fn live_size(values: Seq<IndexValue>) -> int
    decreases values.len(),
{
    if values.len() == 0 {
        0
    } else {
        values[0].size + live_size(values.skip(1))
    }
}

/// The mathematical histogram built by inserting each entry of `values`
/// into an initially empty histogram that starts at atime `first`.
pub open spec fn model_hist_of(values: Seq<IndexValue>, first: u64) -> Seq<int>
    decreases values.len(),
{
    if values.len() == 0 {
        Seq::empty()
    } else {
        model_insert(
            model_hist_of(values.drop_last(), first),
            values.last().atime.0 - first,
            values.last().size as int,
        )
    }
}

proof fn lemma_int_sum_update(s: Seq<int>, i: int, delta: int)
    requires
        0 <= i < s.len(),
    ensures
        int_sum(s.update(i, s[i] + delta)) == int_sum(s) + delta,
    decreases s.len(),
{
    if i == 0 {
        assert(s.update(0, s[0] + delta).skip(1) =~= s.skip(1));
    } else {
        assert(s.update(i, s[i] + delta).skip(1) =~= s.skip(1).update(i - 1, s.skip(1)[i - 1] + delta));
        lemma_int_sum_update(s.skip(1), i - 1, delta);
    }
}

proof fn lemma_int_sum_zeros(n: nat)
    ensures
        int_sum(Seq::new(n, |_j: int| 0)) == 0,
    decreases n,
{
    if n > 0 {
        assert(Seq::new(n, |_j: int| 0int).skip(1) =~= Seq::new((n - 1) as nat, |_j: int| 0));
        lemma_int_sum_zeros((n - 1) as nat);
    }
}

proof fn lemma_int_sum_concat(a: Seq<int>, b: Seq<int>)
    ensures
        int_sum(a + b) == int_sum(a) + int_sum(b),
    decreases a.len(),
{
    if a.len() == 0 {
        assert(a + b =~= b);
    } else {
        assert((a + b).skip(1) =~= a.skip(1) + b);
        lemma_int_sum_concat(a.skip(1), b);
    }
}

/// One insertion adds exactly its size to the histogram total.
proof fn lemma_model_insert_sum(s: Seq<int>, idx: int, size: int)
    requires
        0 <= idx,
    ensures
        int_sum(model_insert(s, idx, size)) == int_sum(s) + size,
{
    if idx < s.len() {
        lemma_int_sum_update(s, idx, size);
    } else {
        let zeros = Seq::new((idx + 1 - s.len()) as nat, |_j: int| 0);
        let extended = s + zeros;
        lemma_int_sum_concat(s, zeros);
        lemma_int_sum_zeros((idx + 1 - s.len()) as nat);
        lemma_int_sum_update(extended, idx, size);
        assert(extended[idx] == 0);
    }
}

/// After inserting every live entry, the histogram total equals the total
/// size of the live entries.
pub proof fn lemma_histogram_counts_live_bytes(values: Seq<IndexValue>, first: u64)
    requires
        forall|i: int| 0 <= i < values.len() ==> #[trigger] values[i].atime.0 >= first,
    ensures
        int_sum(model_hist_of(values, first)) == live_size(values),
    decreases values.len(),
{
    if values.len() > 0 {
        lemma_histogram_counts_live_bytes(values.drop_last(), first);
        lemma_model_insert_sum(
            model_hist_of(values.drop_last(), first),
            values.last().atime.0 - first,
            values.last().size as int,
        );
        lemma_live_size_drop_last(values);
    }
}

proof fn lemma_live_size_drop_last(values: Seq<IndexValue>)
    requires
        values.len() > 0,
    ensures
        live_size(values) == live_size(values.drop_last()) + values.last().size,
    decreases values.len(),
{
    if values.len() == 1 {
        assert(values.skip(1) =~= Seq::<IndexValue>::empty());
        assert(values.drop_last() =~= Seq::<IndexValue>::empty());
    } else {
        assert(values.skip(1).drop_last() =~= values.drop_last().skip(1));
        assert(values.skip(1).last() == values.last());
        lemma_live_size_drop_last(values.skip(1));
    }
}

/// Per-atime byte counts. Bucket `i` counts the bytes of live entries whose
/// atime is `first + i`.
#[derive(Debug, Clone)]
pub struct AtimeHistogramPhys {
    pub histogram: Vec<u64>,
    pub first: Atime,
}

impl AtimeHistogramPhys {
    pub open spec fn buckets(&self) -> Seq<u64> {
        self.histogram@
    }

    pub open spec fn spec_first(&self) -> Atime {
        self.first
    }

    /// Histogram totals stay within `u64`, and atime arithmetic cannot wrap.
    pub open spec fn wf(&self) -> bool {
        &&& bucket_sum(self.histogram@) <= u64::MAX
        &&& self.first.0 + self.histogram@.len() <= u64::MAX
    }

    pub fn new(first: Atime) -> (r: AtimeHistogramPhys)
        ensures
            r.buckets() =~= Seq::<u64>::empty(),
            r.spec_first() == first,
            r.wf(),
    {
        AtimeHistogramPhys { histogram: Vec::new(), first }
    }

    pub fn first(&self) -> (r: Atime)
        ensures
            r == self.spec_first(),
    {
        self.first
    }

    /// Reset the start to a later atime, discarding older buckets.
    /// Requests to reset to an earlier atime are ignored.
    pub fn reset_first(&mut self, new_first: Atime)
        requires
            old(self).wf(),
            new_first.0 > old(self).spec_first().0
                ==> new_first.0 - old(self).spec_first().0 <= old(self).buckets().len(),
        ensures
            final(self).wf(),
            new_first.0 <= old(self).spec_first().0 ==> *final(self) == *old(self),
            new_first.0 > old(self).spec_first().0 ==> {
                &&& final(self).spec_first() == new_first
                &&& final(self).buckets()
                    =~= old(self).buckets().skip(new_first.0 - old(self).spec_first().0)
            },
    {
        if new_first.0 <= self.first.0 {
            return;
        }
        let delta: usize = (new_first.0 - self.first.0) as usize;
        let mut rest: Vec<u64> = Vec::new();
        let mut i: usize = delta;
        proof {
            lemma_bucket_sum_skip_le(self.histogram@, delta as int);
        }
        while i < self.histogram.len()
            invariant
                delta <= i <= self.histogram@.len(),
                rest@ =~= self.histogram@.subrange(delta as int, i as int),
            decreases self.histogram@.len() - i,
        {
            rest.push(self.histogram[i]);
            i = i + 1;
        }
        assert(rest@ =~= self.histogram@.skip(delta as int));
        self.histogram = rest;
        self.first = new_first;
    }

    /// The smallest atime such that the live bytes at that atime and above
    /// reach `target_size`; the start of the histogram if even the whole
    /// histogram does not.
    pub fn atime_for_target_size(&self, target_size: u64) -> (r: Atime)
        requires
            self.wf(),
        ensures
            self.spec_first().0 <= r.0,
            r.0 - self.spec_first().0 <= self.buckets().len(),
            forall|j: int|
                r.0 - self.spec_first().0 < j < self.buckets().len()
                    ==> suffix_sum(self.buckets(), j) < target_size,
            r.0 > self.spec_first().0
                ==> suffix_sum(self.buckets(), r.0 - self.spec_first().0) >= target_size,
    {
        let mut remaining = target_size;
        let mut index = self.histogram.len();
        proof {
            assert(self.histogram@.skip(index as int) =~= Seq::<u64>::empty());
        }
        while index > 0
            invariant
                self.wf(),
                index <= self.histogram@.len(),
                remaining == target_size - suffix_sum(self.histogram@, index as int),
                forall|j: int|
                    index <= j < self.histogram@.len()
                        ==> suffix_sum(self.histogram@, j) < target_size,
            decreases index,
        {
            let bytes = self.histogram[index - 1];
            proof {
                lemma_suffix_sum_unfold(self.histogram@, index - 1);
                lemma_bucket_sum_skip_le(self.histogram@, index - 1);
            }
            if remaining <= bytes {
                return Atime(self.first.0 + (index as u64 - 1));
            }
            remaining = remaining - bytes;
            index = index - 1;
        }
        self.first
    }

    pub fn insert(&mut self, value: IndexValue)
        requires
            old(self).wf(),
            value.atime.0 >= old(self).spec_first().0,
            value.atime.0 < u64::MAX,
            value.atime.0 - old(self).spec_first().0 < usize::MAX,
            bucket_sum(old(self).buckets()) + value.size <= u64::MAX,
        ensures
            final(self).wf(),
            final(self).spec_first() == old(self).spec_first(),
            abs_buckets(final(self).buckets()) =~= model_insert(
                abs_buckets(old(self).buckets()),
                value.atime.0 - old(self).spec_first().0,
                value.size as int,
            ),
            bucket_sum(final(self).buckets()) == bucket_sum(old(self).buckets()) + value.size,
    {
        let ghost pre = self.histogram@;
        let index: usize = (value.atime.0 - self.first.0) as usize;
        if self.histogram.len() <= index {
            while self.histogram.len() <= index
                invariant
                    self.first == old(self).first,
                    pre.len() <= self.histogram@.len() <= index + 1,
                    self.histogram@ =~= pre + Seq::new(
                        (self.histogram@.len() - pre.len()) as nat,
                        |_j: int| 0u64,
                    ),
                decreases index + 1 - self.histogram@.len(),
            {
                self.histogram.push(0);
            }
        }
        let ghost extended = self.histogram@;
        proof {
            assert(extended =~= pre + extended.skip(pre.len() as int));
            lemma_bucket_sum_concat(pre, extended.skip(pre.len() as int));
            lemma_bucket_sum_zeros(extended.skip(pre.len() as int));
            lemma_bucket_at_most_sum(extended, index as int);
        }
        let updated = self.histogram[index] + value.size as u64;
        self.histogram.set(index, updated);
        proof {
            lemma_bucket_sum_update(extended, index as int, value.size as int);
            let idx = value.atime.0 - self.first.0;
            let m0 = abs_buckets(pre);
            let mext = if idx < pre.len() {
                m0
            } else {
                m0 + Seq::new((idx + 1 - pre.len()) as nat, |_j: int| 0int)
            };
            assert(index == idx);
            assert forall|j: int| 0 <= j < extended.len()
                implies abs_buckets(extended)[j] == mext[j] by {
                if j >= pre.len() {
                    assert(extended[j] == 0u64);
                    assert(mext[j] == 0int);
                }
            }
            assert(abs_buckets(extended) =~= mext);
            assert forall|j: int| 0 <= j < self.histogram@.len()
                implies abs_buckets(self.histogram@)[j]
                    == mext.update(idx, mext[idx] + value.size as int)[j] by {
                assert(self.histogram@[j] == if j == idx {
                    (extended[idx] + value.size as u64) as u64
                } else {
                    extended[j]
                });
            }
            assert(abs_buckets(self.histogram@)
                =~= mext.update(idx, mext[idx] + value.size as int));
        }
    }

    pub fn remove(&mut self, value: IndexValue)
        requires
            old(self).wf(),
            value.atime.0 >= old(self).spec_first().0,
            value.atime.0 - old(self).spec_first().0 < old(self).buckets().len(),
            value.atime.0 - old(self).spec_first().0 < usize::MAX,
            old(self).buckets()[value.atime.0 - old(self).spec_first().0] >= value.size,
        ensures
            final(self).wf(),
            final(self).spec_first() == old(self).spec_first(),
            final(self).buckets() =~= old(self).buckets().update(
                value.atime.0 - old(self).spec_first().0,
                (old(self).buckets()[value.atime.0 - old(self).spec_first().0] - value.size) as u64,
            ),
            bucket_sum(final(self).buckets()) == bucket_sum(old(self).buckets()) - value.size,
    {
        let index: usize = (value.atime.0 - self.first.0) as usize;
        proof {
            assert(index == value.atime.0 - self.first.0);
            lemma_bucket_sum_nonneg(self.histogram@);
            lemma_bucket_sum_update(self.histogram@, index as int, -(value.size as int));
        }
        let updated = self.histogram[index] - value.size as u64;
        self.histogram.set(index, updated);
    }

    pub fn clear(&mut self)
        ensures
            final(self).wf(),
            final(self).buckets() =~= Seq::<u64>::empty(),
            final(self).spec_first() == old(self).spec_first(),
    {
        self.histogram.clear();
    }

    /// Total bytes counted by the histogram.
    pub fn sum(&self) -> (r: u64)
        requires
            self.wf(),
        ensures
            r == bucket_sum(self.buckets()),
    {
        let mut total: u64 = 0;
        let mut i: usize = self.histogram.len();
        proof {
            assert(self.histogram@.skip(i as int) =~= Seq::<u64>::empty());
        }
        while i > 0
            invariant
                self.wf(),
                i <= self.histogram@.len(),
                total == suffix_sum(self.histogram@, i as int),
            decreases i,
        {
            proof {
                lemma_suffix_sum_unfold(self.histogram@, i - 1);
                lemma_bucket_sum_skip_le(self.histogram@, i - 1);
                lemma_bucket_sum_nonneg(self.histogram@.skip(i as int));
            }
            total = total + self.histogram[i - 1];
            i = i - 1;
        }
        proof {
            assert(self.histogram@.skip(0) =~= self.histogram@);
        }
        total
    }
}

proof fn lemma_bucket_sum_nonneg(s: Seq<u64>)
    ensures
        bucket_sum(s) >= 0,
    decreases s.len(),
{
    if s.len() > 0 {
        lemma_bucket_sum_nonneg(s.skip(1));
    }
}

/// `suffix_sum(s, i) == s[i] + suffix_sum(s, i + 1)`.
proof fn lemma_suffix_sum_unfold(s: Seq<u64>, i: int)
    requires
        0 <= i < s.len(),
    ensures
        suffix_sum(s, i) == s[i] + suffix_sum(s, i + 1),
{
    assert(s.skip(i).skip(1) =~= s.skip(i + 1));
    assert(s.skip(i)[0] == s[i]);
}

/// Dropping a prefix cannot increase the sum.
proof fn lemma_bucket_sum_skip_le(s: Seq<u64>, i: int)
    requires
        0 <= i <= s.len(),
    ensures
        bucket_sum(s.skip(i)) <= bucket_sum(s),
    decreases i,
{
    if i > 0 {
        lemma_bucket_sum_skip_le(s, i - 1);
        lemma_suffix_sum_unfold(s, i - 1);
        lemma_bucket_sum_nonneg(s.skip(i));
    } else {
        assert(s.skip(0) =~= s);
    }
}

proof fn lemma_bucket_sum_concat(a: Seq<u64>, b: Seq<u64>)
    ensures
        bucket_sum(a + b) == bucket_sum(a) + bucket_sum(b),
    decreases a.len(),
{
    if a.len() == 0 {
        assert(a + b =~= b);
    } else {
        assert((a + b).skip(1) =~= a.skip(1) + b);
        lemma_bucket_sum_concat(a.skip(1), b);
    }
}

proof fn lemma_bucket_sum_zeros(s: Seq<u64>)
    requires
        forall|i: int| 0 <= i < s.len() ==> s[i] == 0,
    ensures
        bucket_sum(s) == 0,
    decreases s.len(),
{
    if s.len() > 0 {
        lemma_bucket_sum_zeros(s.skip(1));
    }
}

proof fn lemma_bucket_at_most_sum(s: Seq<u64>, i: int)
    requires
        0 <= i < s.len(),
    ensures
        s[i] <= bucket_sum(s),
    decreases i,
{
    if i == 0 {
        lemma_bucket_sum_nonneg(s.skip(1));
    } else {
        lemma_bucket_at_most_sum(s.skip(1), i - 1);
        lemma_bucket_sum_nonneg(s);
        assert(s.skip(1)[i - 1] == s[i]);
    }
}

proof fn lemma_bucket_sum_update(s: Seq<u64>, i: int, delta: int)
    requires
        0 <= i < s.len(),
        0 <= s[i] + delta <= u64::MAX,
    ensures
        bucket_sum(s.update(i, (s[i] + delta) as u64)) == bucket_sum(s) + delta,
    decreases s.len(),
{
    if i == 0 {
        assert(s.update(0, (s[0] + delta) as u64).skip(1) =~= s.skip(1));
    } else {
        assert(s.update(i, (s[i] + delta) as u64).skip(1)
            =~= s.skip(1).update(i - 1, (s.skip(1)[i - 1] + delta) as u64));
        lemma_bucket_sum_update(s.skip(1), i - 1, delta);
    }
}

} // verus!
