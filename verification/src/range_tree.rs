//! A set of disjoint byte ranges kept as maximal runs: the free-space
//! structure behind the extent allocator. Adding a run coalesces it with
//! its neighbours; removing one may split a run in two.

use vstd::prelude::*;

verus! {

/// `x` lies in one of the runs.
pub open spec fn rt_covered(s: Seq<(u64, u64)>, x: u64) -> bool {
    exists|i: int| 0 <= i < s.len() && (#[trigger] s[i]).0 <= x < s[i].0 + s[i].1
}

/// Total bytes covered.
pub open spec fn rt_space(s: Seq<(u64, u64)>) -> int
    decreases s.len(),
{
    if s.len() == 0 {
        0
    } else {
        rt_space(s.drop_last()) + s.last().1
    }
}

/// Runs are non-empty, in ascending order, and maximal: a gap of at
/// least one byte separates consecutive runs.
pub open spec fn rt_wf(s: Seq<(u64, u64)>) -> bool {
    &&& forall|i: int| 0 <= i < s.len()
        ==> (#[trigger] s[i]).1 > 0 && s[i].0 + s[i].1 <= u64::MAX
    &&& forall|i: int, j: int| #![trigger s[i], s[j]]
        0 <= i < j < s.len() ==> s[i].0 + s[i].1 < s[j].0
}

/// Free runs of a region, sorted and coalesced.
#[derive(Debug)]
pub struct RangeTree {
    pub segments: Vec<(u64, u64)>,
}

impl RangeTree {
    pub open spec fn wf(&self) -> bool {
        rt_wf(self.segments@)
    }

    pub fn new() -> (r: RangeTree)
        ensures
            r.wf(),
            r.segments@.len() == 0,
            forall|x: u64| !rt_covered(r.segments@, x),
    {
        RangeTree { segments: Vec::new() }
    }

    /// The number of runs starting below `start`.
    fn position(&self, start: u64) -> (r: usize)
        requires
            self.wf(),
        ensures
            r <= self.segments@.len(),
            forall|i: int| 0 <= i < r ==> (#[trigger] self.segments@[i]).0 < start,
            forall|i: int| r <= i < self.segments@.len()
                ==> (#[trigger] self.segments@[i]).0 >= start,
    {
        let mut lo: usize = 0;
        let mut hi: usize = self.segments.len();
        while lo < hi
            invariant
                self.wf(),
                lo <= hi <= self.segments@.len(),
                forall|i: int| 0 <= i < lo ==> (#[trigger] self.segments@[i]).0 < start,
                forall|i: int| hi <= i < self.segments@.len()
                    ==> (#[trigger] self.segments@[i]).0 >= start,
            decreases hi - lo,
        {
            let mid = lo + (hi - lo) / 2;
            if self.segments[mid].0 < start {
                proof {
                    assert forall|i: int| 0 <= i <= mid
                        implies (#[trigger] self.segments@[i]).0 < start by {
                        if i < mid {
                            assert(self.segments@[i].0 + self.segments@[i].1
                                < self.segments@[mid as int].0);
                        }
                    }
                }
                lo = mid + 1;
            } else {
                proof {
                    assert forall|i: int| mid <= i < self.segments@.len()
                        implies (#[trigger] self.segments@[i]).0 >= start by {
                        if mid < i {
                            assert(self.segments@[mid as int].0
                                + self.segments@[mid as int].1 < self.segments@[i].0);
                        }
                    }
                }
                hi = mid;
            }
        }
        lo
    }

    /// Total bytes covered.
    pub fn space(&self) -> (r: u64)
        requires
            self.wf(),
            rt_space(self.segments@) <= u64::MAX,
        ensures
            r == rt_space(self.segments@),
    {
        let mut total: u64 = 0;
        let mut i: usize = 0;
        proof {
            assert(self.segments@.take(0) =~= Seq::<(u64, u64)>::empty());
            lemma_rt_space_nonneg(self.segments@);
        }
        while i < self.segments.len()
            invariant
                self.wf(),
                i <= self.segments@.len(),
                rt_space(self.segments@) <= u64::MAX,
                total == rt_space(self.segments@.take(i as int)),
            decreases self.segments@.len() - i,
        {
            proof {
                assert(self.segments@.take(i + 1).drop_last()
                    =~= self.segments@.take(i as int));
                assert(self.segments@.take(i + 1).last() == self.segments@[i as int]);
                lemma_rt_space_prefix_bound(self.segments@, i as int);
            }
            total = total + self.segments[i].1;
            i = i + 1;
        }
        proof {
            assert(self.segments@.take(self.segments@.len() as int) =~= self.segments@);
        }
        total
    }

    /// Add a run that overlaps nothing, merging it with an adjacent run
    /// on either side so runs stay maximal.
    #[verifier::rlimit(100)]
    #[verifier::spinoff_prover]
    pub fn add(&mut self, start: u64, size: u64)
        requires
            old(self).wf(),
            size > 0 ==> start + size <= u64::MAX,
            forall|x: u64| start <= x < start + size ==> !rt_covered(old(self).segments@, x),
        ensures
            final(self).wf(),
            forall|x: u64| rt_covered(final(self).segments@, x)
                == (rt_covered(old(self).segments@, x) || (start <= x < start + size)),
            rt_space(final(self).segments@) == rt_space(old(self).segments@) + size,
    {
        if size == 0 {
            proof {
                assert forall|x: u64| rt_covered(self.segments@, x)
                    == (rt_covered(old(self).segments@, x) || (start <= x < start + size))
                    by {}
            }
            return;
        }
        let pos = self.position(start);
        let ghost pre = self.segments@;
        proof {
            lemma_add_position_facts(pre, start, size, pos as int);
        }
        let left_adj = pos > 0 && {
            let l = self.segments[pos - 1];
            l.0 + l.1 == start
        };
        let right_adj = pos < self.segments.len() && start + size == self.segments[pos].0;
        if left_adj && right_adj {
            let l = self.segments[pos - 1];
            let rseg = self.segments[pos];
            self.segments.set(pos - 1, (l.0, l.1 + size + rseg.1));
            self.segments.remove(pos);
            proof {
                lemma_rt_space_update(pre, pos - 1, (l.0, (l.1 + size + rseg.1) as u64));
                lemma_rt_space_remove(pre.update(pos - 1, (l.0, (l.1 + size + rseg.1) as u64)), pos as int);
                lemma_add_merged_both(pre, start, size, pos as int, self.segments@);
            }
        } else if left_adj {
            let l = self.segments[pos - 1];
            self.segments.set(pos - 1, (l.0, l.1 + size));
            proof {
                lemma_rt_space_update(pre, pos - 1, (l.0, (l.1 + size) as u64));
                lemma_add_merged_left(pre, start, size, pos as int, self.segments@);
            }
        } else if right_adj {
            let rseg = self.segments[pos];
            self.segments.set(pos, (start, size + rseg.1));
            proof {
                lemma_rt_space_update(pre, pos as int, (start, (size + rseg.1) as u64));
                lemma_add_merged_right(pre, start, size, pos as int, self.segments@);
            }
        } else {
            self.segments.insert(pos, (start, size));
            proof {
                lemma_rt_space_insert(pre, pos as int, (start, size));
                lemma_add_inserted(pre, start, size, pos as int, self.segments@);
            }
        }
    }

    /// Remove a fully covered run; the run it lies in shrinks, or splits
    /// where the removal leaves both of its ends.
    #[verifier::rlimit(100)]
    #[verifier::spinoff_prover]
    pub fn remove(&mut self, start: u64, size: u64)
        requires
            old(self).wf(),
            size > 0 ==> start + size <= u64::MAX,
            forall|x: u64| start <= x < start + size ==> rt_covered(old(self).segments@, x),
        ensures
            final(self).wf(),
            forall|x: u64| rt_covered(final(self).segments@, x)
                == (rt_covered(old(self).segments@, x) && !(start <= x < start + size)),
            rt_space(final(self).segments@) == rt_space(old(self).segments@) - size,
    {
        if size == 0 {
            proof {
                assert forall|x: u64| rt_covered(self.segments@, x)
                    == (rt_covered(old(self).segments@, x) && !(start <= x < start + size))
                    by {}
            }
            return;
        }
        let ghost pre = self.segments@;
        let pos = self.position(start);
        // the run containing `start` is the one just before or at `pos`
        proof {
            assert(rt_covered(pre, start));
        }
        let ghost w = choose|i: int| 0 <= i < pre.len()
            && (#[trigger] pre[i]).0 <= start < pre[i].0 + pre[i].1;
        proof {
            if !(pos < pre.len() && pre[pos as int].0 == start) {
                // no run starts at `start`, so the covering run starts
                // below it and `pos` cannot be zero
                assert(pre[w].0 <= start);
                if pre[w].0 == start {
                    assert(w >= pos);
                    if w > pos && pos < pre.len() {
                        assert(pre[pos as int].0 + pre[pos as int].1 < pre[w].0);
                        assert(pre[pos as int].0 >= start);
                        assert(false);
                    }
                    assert(false);
                }
                assert(pre[w].0 < start);
                assert(w < pos);
                assert(pos > 0);
            }
        }
        let idx = if pos < self.segments.len() && self.segments[pos].0 == start {
            pos
        } else {
            pos - 1
        };
        proof {
            lemma_remove_position_facts(pre, start, size, pos as int, w, idx as int);
        }
        let seg = self.segments[idx];
        let head = start - seg.0;
        let tail = (seg.0 + seg.1) - (start + size);
        if head == 0 && tail == 0 {
            self.segments.remove(idx);
            proof {
                lemma_rt_space_remove(pre, idx as int);
                lemma_remove_whole(pre, start, size, idx as int, self.segments@);
            }
        } else if head == 0 {
            self.segments.set(idx, (start + size, tail));
            proof {
                lemma_rt_space_update(pre, idx as int, ((start + size) as u64, tail));
                lemma_remove_head(pre, start, size, idx as int, self.segments@);
            }
        } else if tail == 0 {
            self.segments.set(idx, (seg.0, head));
            proof {
                lemma_rt_space_update(pre, idx as int, (seg.0, head));
                lemma_remove_tail(pre, start, size, idx as int, self.segments@);
            }
        } else {
            self.segments.set(idx, (seg.0, head));
            self.segments.insert(idx + 1, (start + size, tail));
            proof {
                lemma_rt_space_update(pre, idx as int, (seg.0, head));
                lemma_rt_space_insert(
                    pre.update(idx as int, (seg.0, head)),
                    idx + 1,
                    ((start + size) as u64, tail),
                );
                lemma_remove_split(pre, start, size, idx as int, self.segments@);
            }
        }
    }
}

proof fn lemma_rt_space_nonneg(s: Seq<(u64, u64)>)
    ensures
        rt_space(s) >= 0,
    decreases s.len(),
{
    if s.len() > 0 {
        lemma_rt_space_nonneg(s.drop_last());
    }
}

proof fn lemma_rt_space_prefix_bound(s: Seq<(u64, u64)>, i: int)
    requires
        0 <= i < s.len(),
    ensures
        rt_space(s.take(i)) + s[i].1 <= rt_space(s),
        rt_space(s.take(i)) >= 0,
    decreases s.len(),
{
    lemma_rt_space_nonneg(s.take(i));
    if i == s.len() - 1 {
        assert(s.take(i) =~= s.drop_last());
        lemma_rt_space_nonneg(s.drop_last());
    } else {
        assert(s.drop_last().take(i) =~= s.take(i));
        assert(s.drop_last()[i] == s[i]);
        lemma_rt_space_prefix_bound(s.drop_last(), i);
    }
}

proof fn lemma_rt_space_update(s: Seq<(u64, u64)>, i: int, e: (u64, u64))
    requires
        0 <= i < s.len(),
    ensures
        rt_space(s.update(i, e)) == rt_space(s) - s[i].1 + e.1,
    decreases s.len(),
{
    if i == s.len() - 1 {
        assert(s.update(i, e).drop_last() =~= s.drop_last());
        assert(s.update(i, e).last() == e);
    } else {
        assert(s.update(i, e).drop_last() =~= s.drop_last().update(i, e));
        assert(s.update(i, e).last() == s.last());
        lemma_rt_space_update(s.drop_last(), i, e);
    }
}

proof fn lemma_rt_space_insert(s: Seq<(u64, u64)>, i: int, e: (u64, u64))
    requires
        0 <= i <= s.len(),
    ensures
        rt_space(s.insert(i, e)) == rt_space(s) + e.1,
    decreases s.len(),
{
    if i == s.len() {
        assert(s.insert(i, e).drop_last() =~= s);
        assert(s.insert(i, e).last() == e);
    } else {
        assert(s.insert(i, e).drop_last() =~= s.drop_last().insert(i, e));
        assert(s.insert(i, e).last() == s.last());
        lemma_rt_space_insert(s.drop_last(), i, e);
    }
}

proof fn lemma_rt_space_remove(s: Seq<(u64, u64)>, i: int)
    requires
        0 <= i < s.len(),
    ensures
        rt_space(s.remove(i)) == rt_space(s) - s[i].1,
    decreases s.len(),
{
    if i == s.len() - 1 {
        assert(s.remove(i) =~= s.drop_last());
    } else {
        assert(s.remove(i).drop_last() =~= s.drop_last().remove(i));
        assert(s.remove(i).last() == s.last());
        lemma_rt_space_remove(s.drop_last(), i);
    }
}

/// What the insert position means for an overlap-free run: the left
/// neighbour ends at or before `start`, the right neighbour starts at or
/// past the run's end.
proof fn lemma_add_position_facts(s: Seq<(u64, u64)>, start: u64, size: u64, pos: int)
    requires
        rt_wf(s),
        size > 0,
        start + size <= u64::MAX,
        forall|x: u64| start <= x < start + size ==> !rt_covered(s, x),
        0 <= pos <= s.len(),
        forall|i: int| 0 <= i < pos ==> (#[trigger] s[i]).0 < start,
        forall|i: int| pos <= i < s.len() ==> (#[trigger] s[i]).0 >= start,
    ensures
        pos > 0 ==> s[pos - 1].0 + s[pos - 1].1 <= start,
        pos < s.len() ==> s[pos].0 >= start + size,
{
    if pos > 0 {
        if s[pos - 1].0 + s[pos - 1].1 > start {
            assert(s[pos - 1].0 <= start < s[pos - 1].0 + s[pos - 1].1);
            assert(rt_covered(s, start));
        }
    }
    if pos < s.len() {
        if s[pos].0 < start + size {
            assert(s[pos].0 <= s[pos].0 < s[pos].0 + s[pos].1);
            assert(start <= s[pos].0 < start + size);
            assert(rt_covered(s, s[pos].0));
        }
    }
}

/// The run containing `start` also contains the whole removed run, and
/// `idx` names it.
proof fn lemma_remove_position_facts(
    s: Seq<(u64, u64)>,
    start: u64,
    size: u64,
    pos: int,
    w: int,
    idx: int,
)
    requires
        rt_wf(s),
        size > 0,
        start + size <= u64::MAX,
        forall|x: u64| start <= x < start + size ==> rt_covered(s, x),
        0 <= pos <= s.len(),
        forall|i: int| 0 <= i < pos ==> (#[trigger] s[i]).0 < start,
        forall|i: int| pos <= i < s.len() ==> (#[trigger] s[i]).0 >= start,
        0 <= w < s.len(),
        s[w].0 <= start < s[w].0 + s[w].1,
        idx == if pos < s.len() && s[pos].0 == start {
            pos
        } else {
            pos - 1
        },
    ensures
        0 <= idx < s.len(),
        idx == w,
        s[idx].0 <= start,
        start + size <= s[idx].0 + s[idx].1,
{
    // the covering run is unique and sits just before or at `pos`
    if s[w].0 == start {
        assert(w >= pos || w < pos);
        if w < pos {
            assert(s[w].0 < start);
        }
        if w > pos {
            assert(s[w].0 >= start);
            if pos < s.len() {
                assert(s[pos].0 + s[pos].1 < s[w].0);
            }
        }
        assert(w == pos);
    } else {
        assert(s[w].0 < start);
        assert(w < pos);
        if w < pos - 1 {
            assert(s[w].0 + s[w].1 < s[pos - 1].0);
            assert(s[pos - 1].0 < start);
            assert(!(s[w].0 <= start < s[w].0 + s[w].1));
        }
        assert(w == pos - 1);
        if pos < s.len() && s[pos].0 == start {
            assert(s[w].0 + s[w].1 < s[pos].0);
            assert(!(start < s[w].0 + s[w].1));
        }
        assert(idx == w);
    }
    // the removed run cannot poke past the covering run's end
    if start + size > s[idx].0 + s[idx].1 {
        let y = (s[idx].0 + s[idx].1) as u64;
        assert(start <= y < start + size);
        assert(rt_covered(s, y));
        let j = choose|j: int| 0 <= j < s.len() && (#[trigger] s[j]).0 <= y < s[j].0 + s[j].1;
        if j < idx {
            assert(s[j].0 + s[j].1 < s[idx].0);
        }
        if j > idx {
            assert(s[idx].0 + s[idx].1 < s[j].0);
        }
        assert(false);
    }
}


/// Merging with both neighbours: one run now spans left, run, right.
#[verifier::rlimit(100)]
#[verifier::spinoff_prover]
proof fn lemma_add_merged_both(
    pre: Seq<(u64, u64)>,
    start: u64,
    size: u64,
    pos: int,
    post: Seq<(u64, u64)>,
)
    requires
        rt_wf(pre),
        size > 0,
        start + size <= u64::MAX,
        0 < pos < pre.len(),
        forall|i: int| 0 <= i < pos ==> (#[trigger] pre[i]).0 < start,
        forall|i: int| pos <= i < pre.len() ==> (#[trigger] pre[i]).0 >= start,
        pre[pos - 1].0 + pre[pos - 1].1 == start,
        start + size == pre[pos].0,
        post == pre.update(
            pos - 1,
            (pre[pos - 1].0, (pre[pos - 1].1 + size + pre[pos].1) as u64),
        ).remove(pos),
    ensures
        rt_wf(post),
        forall|x: u64| rt_covered(post, x)
            == (rt_covered(pre, x) || (start <= x < start + size)),
{
    let l = pre[pos - 1];
    let r = pre[pos];
    let m = (l.0, (l.1 + size + r.1) as u64);
    assert(l.1 + size + r.1 <= u64::MAX);
    assert(forall|j: int| 0 <= j < pos - 1 ==> #[trigger] post[j] == pre[j]);
    assert(post[pos - 1] == m);
    assert(forall|j: int| pos <= j < post.len() ==> #[trigger] post[j] == pre[j + 1]);
    assert(rt_wf(post)) by {
        assert forall|i: int, j: int| #![trigger post[i], post[j]] 0 <= i < j < post.len()
            implies post[i].0 + post[i].1 < post[j].0 by {
            let i0 = if i < pos { i } else { i + 1 };
            let j0 = if j < pos { j } else { j + 1 };
            if i == pos - 1 {
                assert(pre[pos].0 + pre[pos].1 < pre[j0].0);
            } else {
                assert(pre[i0].0 + pre[i0].1 < pre[j0].0);
            }
        }
        assert forall|i: int| 0 <= i < post.len()
            implies (#[trigger] post[i]).1 > 0 && post[i].0 + post[i].1 <= u64::MAX by {
            if i != pos - 1 {
                let i0 = if i < pos { i } else { i + 1 };
                assert(post[i] == pre[i0]);
            }
        }
    }
    assert forall|x: u64| rt_covered(post, x)
        == (rt_covered(pre, x) || (start <= x < start + size)) by {
        if rt_covered(post, x) {
            let j = choose|j: int| 0 <= j < post.len()
                && (#[trigger] post[j]).0 <= x < post[j].0 + post[j].1;
            if j == pos - 1 {
                if x < start {
                    assert(l.0 <= x < l.0 + l.1);
                    assert(rt_covered(pre, x));
                } else if x < start + size {
                } else {
                    assert(r.0 <= x < r.0 + r.1);
                    assert(rt_covered(pre, x));
                }
            } else {
                let j0 = if j < pos { j } else { j + 1 };
                assert(pre[j0].0 <= x < pre[j0].0 + pre[j0].1);
                assert(rt_covered(pre, x));
            }
        }
        if rt_covered(pre, x) {
            let j = choose|j: int| 0 <= j < pre.len()
                && (#[trigger] pre[j]).0 <= x < pre[j].0 + pre[j].1;
            if j == pos - 1 || j == pos {
                assert(post[pos - 1].0 <= x < post[pos - 1].0 + post[pos - 1].1);
            } else if j < pos - 1 {
                assert(post[j].0 <= x < post[j].0 + post[j].1);
            } else {
                assert(post[j - 1] == pre[j]);
                assert(post[j - 1].0 <= x < post[j - 1].0 + post[j - 1].1);
            }
        }
        if start <= x < start + size {
            assert(post[pos - 1].0 <= x < post[pos - 1].0 + post[pos - 1].1);
        }
    }
}

/// Merging with the left neighbour only.
#[verifier::rlimit(100)]
#[verifier::spinoff_prover]
proof fn lemma_add_merged_left(
    pre: Seq<(u64, u64)>,
    start: u64,
    size: u64,
    pos: int,
    post: Seq<(u64, u64)>,
)
    requires
        rt_wf(pre),
        size > 0,
        start + size <= u64::MAX,
        0 < pos <= pre.len(),
        forall|i: int| 0 <= i < pos ==> (#[trigger] pre[i]).0 < start,
        forall|i: int| pos <= i < pre.len() ==> (#[trigger] pre[i]).0 >= start,
        pre[pos - 1].0 + pre[pos - 1].1 == start,
        pos < pre.len() ==> pre[pos].0 >= start + size,
        pos < pre.len() ==> pre[pos].0 != start + size,
        post == pre.update(pos - 1, (pre[pos - 1].0, (pre[pos - 1].1 + size) as u64)),
    ensures
        rt_wf(post),
        forall|x: u64| rt_covered(post, x)
            == (rt_covered(pre, x) || (start <= x < start + size)),
{
    let l = pre[pos - 1];
    let m = (l.0, (l.1 + size) as u64);
    assert(l.1 + size <= u64::MAX);
    assert(rt_wf(post)) by {
        assert forall|i: int, j: int| #![trigger post[i], post[j]] 0 <= i < j < post.len()
            implies post[i].0 + post[i].1 < post[j].0 by {
            if i == pos - 1 {
                assert(post[j] == pre[j]);
                assert(j >= pos);
                assert(pre[j].0 >= start + size);
                assert(j > pos ==> pre[pos].0 + pre[pos].1 < pre[j].0);
            } else {
                assert(post[i] == pre[i]);
                if j != pos - 1 {
                    assert(post[j] == pre[j]);
                } else {
                    assert(pre[i].0 + pre[i].1 < pre[pos - 1].0);
                }
            }
        }
        assert forall|i: int| 0 <= i < post.len()
            implies (#[trigger] post[i]).1 > 0 && post[i].0 + post[i].1 <= u64::MAX by {
            if i != pos - 1 {
                assert(post[i] == pre[i]);
            }
        }
    }
    assert forall|x: u64| rt_covered(post, x)
        == (rt_covered(pre, x) || (start <= x < start + size)) by {
        if rt_covered(post, x) {
            let j = choose|j: int| 0 <= j < post.len()
                && (#[trigger] post[j]).0 <= x < post[j].0 + post[j].1;
            if j == pos - 1 {
                if x < start {
                    assert(l.0 <= x < l.0 + l.1);
                    assert(rt_covered(pre, x));
                }
            } else {
                assert(pre[j].0 <= x < pre[j].0 + pre[j].1);
                assert(rt_covered(pre, x));
            }
        }
        if rt_covered(pre, x) {
            let j = choose|j: int| 0 <= j < pre.len()
                && (#[trigger] pre[j]).0 <= x < pre[j].0 + pre[j].1;
            if j == pos - 1 {
                assert(post[pos - 1].0 <= x < post[pos - 1].0 + post[pos - 1].1);
            } else {
                assert(post[j] == pre[j]);
                assert(post[j].0 <= x < post[j].0 + post[j].1);
            }
        }
        if start <= x < start + size {
            assert(post[pos - 1].0 <= x < post[pos - 1].0 + post[pos - 1].1);
        }
    }
}

/// Merging with the right neighbour only.
#[verifier::rlimit(100)]
#[verifier::spinoff_prover]
proof fn lemma_add_merged_right(
    pre: Seq<(u64, u64)>,
    start: u64,
    size: u64,
    pos: int,
    post: Seq<(u64, u64)>,
)
    requires
        rt_wf(pre),
        size > 0,
        start + size <= u64::MAX,
        0 <= pos < pre.len(),
        forall|i: int| 0 <= i < pos ==> (#[trigger] pre[i]).0 < start,
        forall|i: int| pos <= i < pre.len() ==> (#[trigger] pre[i]).0 >= start,
        pos > 0 ==> pre[pos - 1].0 + pre[pos - 1].1 <= start,
        pos > 0 ==> pre[pos - 1].0 + pre[pos - 1].1 != start,
        start + size == pre[pos].0,
        post == pre.update(pos, (start, (size + pre[pos].1) as u64)),
    ensures
        rt_wf(post),
        forall|x: u64| rt_covered(post, x)
            == (rt_covered(pre, x) || (start <= x < start + size)),
{
    let r = pre[pos];
    let m = (start, (size + r.1) as u64);
    assert(size + r.1 <= u64::MAX);
    assert(rt_wf(post)) by {
        assert forall|i: int, j: int| #![trigger post[i], post[j]] 0 <= i < j < post.len()
            implies post[i].0 + post[i].1 < post[j].0 by {
            if j == pos {
                assert(post[i] == pre[i]);
                assert(pre[i].0 + pre[i].1 < start);
            } else if i == pos {
                assert(post[j] == pre[j]);
                assert(pre[pos].0 + pre[pos].1 < pre[j].0);
            } else {
                assert(post[i] == pre[i]);
                assert(post[j] == pre[j]);
            }
        }
        assert forall|i: int| 0 <= i < post.len()
            implies (#[trigger] post[i]).1 > 0 && post[i].0 + post[i].1 <= u64::MAX by {
            if i != pos {
                assert(post[i] == pre[i]);
            }
        }
    }
    assert forall|x: u64| rt_covered(post, x)
        == (rt_covered(pre, x) || (start <= x < start + size)) by {
        if rt_covered(post, x) {
            let j = choose|j: int| 0 <= j < post.len()
                && (#[trigger] post[j]).0 <= x < post[j].0 + post[j].1;
            if j == pos {
                if x >= start + size {
                    assert(r.0 <= x < r.0 + r.1);
                    assert(rt_covered(pre, x));
                }
            } else {
                assert(pre[j].0 <= x < pre[j].0 + pre[j].1);
                assert(rt_covered(pre, x));
            }
        }
        if rt_covered(pre, x) {
            let j = choose|j: int| 0 <= j < pre.len()
                && (#[trigger] pre[j]).0 <= x < pre[j].0 + pre[j].1;
            if j == pos {
                assert(post[pos].0 <= x < post[pos].0 + post[pos].1);
            } else {
                assert(post[j] == pre[j]);
                assert(post[j].0 <= x < post[j].0 + post[j].1);
            }
        }
        if start <= x < start + size {
            assert(post[pos].0 <= x < post[pos].0 + post[pos].1);
        }
    }
}

/// No neighbour touches the run: it becomes its own segment.
#[verifier::rlimit(100)]
#[verifier::spinoff_prover]
proof fn lemma_add_inserted(
    pre: Seq<(u64, u64)>,
    start: u64,
    size: u64,
    pos: int,
    post: Seq<(u64, u64)>,
)
    requires
        rt_wf(pre),
        size > 0,
        start + size <= u64::MAX,
        0 <= pos <= pre.len(),
        forall|i: int| 0 <= i < pos ==> (#[trigger] pre[i]).0 < start,
        forall|i: int| pos <= i < pre.len() ==> (#[trigger] pre[i]).0 >= start,
        pos > 0 ==> pre[pos - 1].0 + pre[pos - 1].1 <= start,
        pos > 0 ==> pre[pos - 1].0 + pre[pos - 1].1 != start,
        pos < pre.len() ==> pre[pos].0 >= start + size,
        pos < pre.len() ==> pre[pos].0 != start + size,
        post == pre.insert(pos, (start, size)),
    ensures
        rt_wf(post),
        forall|x: u64| rt_covered(post, x)
            == (rt_covered(pre, x) || (start <= x < start + size)),
{
    assert(forall|j: int| 0 <= j < pos ==> #[trigger] post[j] == pre[j]);
    assert(post[pos] == (start, size));
    assert(forall|j: int| pos < j < post.len() ==> #[trigger] post[j] == pre[j - 1]);
    assert(rt_wf(post)) by {
        assert forall|i: int, j: int| #![trigger post[i], post[j]] 0 <= i < j < post.len()
            implies post[i].0 + post[i].1 < post[j].0 by {
            let i0 = if i < pos { i } else { i - 1 };
            let j0 = if j < pos { j } else { j - 1 };
            if i == pos {
                assert(post[j] == pre[j - 1]);
                assert(j - 1 >= pos);
                assert(j - 1 > pos ==> pre[pos].0 + pre[pos].1 < pre[j - 1].0);
            } else if j == pos {
                assert(post[i] == pre[i]);
            } else {
                assert(post[i] == pre[i0]);
                assert(post[j] == pre[j0]);
                if i < pos && j > pos && i0 == j0 {
                    assert(pre[i0].0 < start);
                    assert(pre[j0].0 >= start);
                }
            }
        }
        assert forall|i: int| 0 <= i < post.len()
            implies (#[trigger] post[i]).1 > 0 && post[i].0 + post[i].1 <= u64::MAX by {
            if i != pos {
                let i0 = if i < pos { i } else { i - 1 };
                assert(post[i] == pre[i0]);
            }
        }
    }
    assert forall|x: u64| rt_covered(post, x)
        == (rt_covered(pre, x) || (start <= x < start + size)) by {
        if rt_covered(post, x) {
            let j = choose|j: int| 0 <= j < post.len()
                && (#[trigger] post[j]).0 <= x < post[j].0 + post[j].1;
            if j != pos {
                let j0 = if j < pos { j } else { j - 1 };
                assert(pre[j0].0 <= x < pre[j0].0 + pre[j0].1);
                assert(rt_covered(pre, x));
            }
        }
        if rt_covered(pre, x) {
            let j = choose|j: int| 0 <= j < pre.len()
                && (#[trigger] pre[j]).0 <= x < pre[j].0 + pre[j].1;
            if j < pos {
                assert(post[j].0 <= x < post[j].0 + post[j].1);
            } else {
                assert(post[j + 1] == pre[j]);
                assert(post[j + 1].0 <= x < post[j + 1].0 + post[j + 1].1);
            }
        }
        if start <= x < start + size {
            assert(post[pos].0 <= x < post[pos].0 + post[pos].1);
        }
    }
}


/// The removed run is the whole segment.
#[verifier::rlimit(100)]
#[verifier::spinoff_prover]
proof fn lemma_remove_whole(
    pre: Seq<(u64, u64)>,
    start: u64,
    size: u64,
    idx: int,
    post: Seq<(u64, u64)>,
)
    requires
        rt_wf(pre),
        size > 0,
        0 <= idx < pre.len(),
        pre[idx].0 == start,
        pre[idx].0 + pre[idx].1 == start + size,
        post == pre.remove(idx),
    ensures
        rt_wf(post),
        forall|x: u64| rt_covered(post, x)
            == (rt_covered(pre, x) && !(start <= x < start + size)),
{
    assert(forall|j: int| 0 <= j < idx ==> #[trigger] post[j] == pre[j]);
    assert(forall|j: int| idx <= j < post.len() ==> #[trigger] post[j] == pre[j + 1]);
    assert(rt_wf(post)) by {
        assert forall|i: int, j: int| #![trigger post[i], post[j]] 0 <= i < j < post.len()
            implies post[i].0 + post[i].1 < post[j].0 by {
            let i0 = if i < idx { i } else { i + 1 };
            let j0 = if j < idx { j } else { j + 1 };
            assert(pre[i0].0 + pre[i0].1 < pre[j0].0);
        }
        assert forall|i: int| 0 <= i < post.len()
            implies (#[trigger] post[i]).1 > 0 && post[i].0 + post[i].1 <= u64::MAX by {
            let i0 = if i < idx { i } else { i + 1 };
            assert(post[i] == pre[i0]);
        }
    }
    assert forall|x: u64| rt_covered(post, x)
        == (rt_covered(pre, x) && !(start <= x < start + size)) by {
        if rt_covered(post, x) {
            let j = choose|j: int| 0 <= j < post.len()
                && (#[trigger] post[j]).0 <= x < post[j].0 + post[j].1;
            let j0 = if j < idx { j } else { j + 1 };
            assert(pre[j0].0 <= x < pre[j0].0 + pre[j0].1);
            assert(rt_covered(pre, x));
            if start <= x < start + size {
                // x would lie in two distinct segments
                if j0 < idx {
                    assert(pre[j0].0 + pre[j0].1 < pre[idx].0);
                } else {
                    assert(pre[idx].0 + pre[idx].1 < pre[j0].0);
                }
            }
        }
        if rt_covered(pre, x) && !(start <= x < start + size) {
            let j = choose|j: int| 0 <= j < pre.len()
                && (#[trigger] pre[j]).0 <= x < pre[j].0 + pre[j].1;
            assert(j != idx);
            if j < idx {
                assert(post[j].0 <= x < post[j].0 + post[j].1);
            } else {
                assert(post[j - 1] == pre[j]);
                assert(post[j - 1].0 <= x < post[j - 1].0 + post[j - 1].1);
            }
        }
    }
}

/// The removed run is the segment's head: the tail survives.
#[verifier::rlimit(100)]
#[verifier::spinoff_prover]
proof fn lemma_remove_head(
    pre: Seq<(u64, u64)>,
    start: u64,
    size: u64,
    idx: int,
    post: Seq<(u64, u64)>,
)
    requires
        rt_wf(pre),
        size > 0,
        0 <= idx < pre.len(),
        pre[idx].0 == start,
        start + size < pre[idx].0 + pre[idx].1,
        post == pre.update(
            idx,
            ((start + size) as u64, (pre[idx].0 + pre[idx].1 - (start + size)) as u64),
        ),
    ensures
        rt_wf(post),
        forall|x: u64| rt_covered(post, x)
            == (rt_covered(pre, x) && !(start <= x < start + size)),
{
    assert(rt_wf(post)) by {
        assert forall|i: int, j: int| #![trigger post[i], post[j]] 0 <= i < j < post.len()
            implies post[i].0 + post[i].1 < post[j].0 by {
            if i != idx {
                assert(post[i] == pre[i]);
            }
            if j != idx {
                assert(post[j] == pre[j]);
            }
            assert(pre[i].0 + pre[i].1 < pre[j].0);
        }
        assert forall|i: int| 0 <= i < post.len()
            implies (#[trigger] post[i]).1 > 0 && post[i].0 + post[i].1 <= u64::MAX by {
            if i != idx {
                assert(post[i] == pre[i]);
            }
        }
    }
    assert forall|x: u64| rt_covered(post, x)
        == (rt_covered(pre, x) && !(start <= x < start + size)) by {
        if rt_covered(post, x) {
            let j = choose|j: int| 0 <= j < post.len()
                && (#[trigger] post[j]).0 <= x < post[j].0 + post[j].1;
            if j == idx {
                assert(pre[idx].0 <= x < pre[idx].0 + pre[idx].1);
                assert(rt_covered(pre, x));
            } else {
                assert(pre[j].0 <= x < pre[j].0 + pre[j].1);
                assert(rt_covered(pre, x));
                if start <= x < start + size {
                    if j < idx {
                        assert(pre[j].0 + pre[j].1 < pre[idx].0);
                    } else {
                        assert(pre[idx].0 + pre[idx].1 < pre[j].0);
                    }
                }
            }
        }
        if rt_covered(pre, x) && !(start <= x < start + size) {
            let j = choose|j: int| 0 <= j < pre.len()
                && (#[trigger] pre[j]).0 <= x < pre[j].0 + pre[j].1;
            if j == idx {
                assert(post[idx].0 <= x < post[idx].0 + post[idx].1);
            } else {
                assert(post[j] == pre[j]);
                assert(post[j].0 <= x < post[j].0 + post[j].1);
            }
        }
    }
}

/// The removed run is the segment's tail: the head survives.
#[verifier::rlimit(100)]
#[verifier::spinoff_prover]
proof fn lemma_remove_tail(
    pre: Seq<(u64, u64)>,
    start: u64,
    size: u64,
    idx: int,
    post: Seq<(u64, u64)>,
)
    requires
        rt_wf(pre),
        size > 0,
        0 <= idx < pre.len(),
        pre[idx].0 < start,
        pre[idx].0 + pre[idx].1 == start + size,
        post == pre.update(idx, (pre[idx].0, (start - pre[idx].0) as u64)),
    ensures
        rt_wf(post),
        forall|x: u64| rt_covered(post, x)
            == (rt_covered(pre, x) && !(start <= x < start + size)),
{
    assert(rt_wf(post)) by {
        assert forall|i: int, j: int| #![trigger post[i], post[j]] 0 <= i < j < post.len()
            implies post[i].0 + post[i].1 < post[j].0 by {
            if i != idx {
                assert(post[i] == pre[i]);
            }
            if j != idx {
                assert(post[j] == pre[j]);
            }
            assert(pre[i].0 + pre[i].1 < pre[j].0);
        }
        assert forall|i: int| 0 <= i < post.len()
            implies (#[trigger] post[i]).1 > 0 && post[i].0 + post[i].1 <= u64::MAX by {
            if i != idx {
                assert(post[i] == pre[i]);
            }
        }
    }
    assert forall|x: u64| rt_covered(post, x)
        == (rt_covered(pre, x) && !(start <= x < start + size)) by {
        if rt_covered(post, x) {
            let j = choose|j: int| 0 <= j < post.len()
                && (#[trigger] post[j]).0 <= x < post[j].0 + post[j].1;
            if j == idx {
                assert(pre[idx].0 <= x < pre[idx].0 + pre[idx].1);
                assert(rt_covered(pre, x));
            } else {
                assert(pre[j].0 <= x < pre[j].0 + pre[j].1);
                assert(rt_covered(pre, x));
                if start <= x < start + size {
                    if j < idx {
                        assert(pre[j].0 + pre[j].1 < pre[idx].0);
                    } else {
                        assert(pre[idx].0 + pre[idx].1 < pre[j].0);
                    }
                }
            }
        }
        if rt_covered(pre, x) && !(start <= x < start + size) {
            let j = choose|j: int| 0 <= j < pre.len()
                && (#[trigger] pre[j]).0 <= x < pre[j].0 + pre[j].1;
            if j == idx {
                assert(post[idx].0 <= x < post[idx].0 + post[idx].1);
            } else {
                assert(post[j] == pre[j]);
                assert(post[j].0 <= x < post[j].0 + post[j].1);
            }
        }
    }
}

/// The removed run lies strictly inside the segment: it splits in two.
#[verifier::rlimit(100)]
#[verifier::spinoff_prover]
proof fn lemma_remove_split(
    pre: Seq<(u64, u64)>,
    start: u64,
    size: u64,
    idx: int,
    post: Seq<(u64, u64)>,
)
    requires
        rt_wf(pre),
        size > 0,
        0 <= idx < pre.len(),
        pre[idx].0 < start,
        start + size < pre[idx].0 + pre[idx].1,
        post == pre.update(idx, (pre[idx].0, (start - pre[idx].0) as u64)).insert(
            idx + 1,
            ((start + size) as u64, (pre[idx].0 + pre[idx].1 - (start + size)) as u64),
        ),
    ensures
        rt_wf(post),
        forall|x: u64| rt_covered(post, x)
            == (rt_covered(pre, x) && !(start <= x < start + size)),
{
    let head = (pre[idx].0, (start - pre[idx].0) as u64);
    let tail = ((start + size) as u64, (pre[idx].0 + pre[idx].1 - (start + size)) as u64);
    assert(forall|j: int| 0 <= j < idx ==> #[trigger] post[j] == pre[j]);
    assert(post[idx] == head);
    assert(post[idx + 1] == tail);
    assert(forall|j: int| idx + 1 < j < post.len() ==> #[trigger] post[j] == pre[j - 1]);
    assert(rt_wf(post)) by {
        assert forall|i: int, j: int| #![trigger post[i], post[j]] 0 <= i < j < post.len()
            implies post[i].0 + post[i].1 < post[j].0 by {
            if j == idx {
                assert(post[i] == pre[i]);
                assert(pre[i].0 + pre[i].1 < pre[idx].0);
            } else if i == idx && j == idx + 1 {
            } else if j == idx + 1 {
                assert(post[i] == pre[i]);
                assert(pre[i].0 + pre[i].1 < pre[idx].0);
            } else if i == idx || i == idx + 1 {
                assert(post[j] == pre[j - 1]);
                assert(pre[idx].0 + pre[idx].1 < pre[j - 1].0);
            } else {
                let i0 = if i < idx { i } else { i - 1 };
                let j0 = if j < idx { j } else { j - 1 };
                assert(post[i] == pre[i0]);
                assert(post[j] == pre[j0]);
                assert(pre[i0].0 + pre[i0].1 < pre[j0].0);
            }
        }
        assert forall|i: int| 0 <= i < post.len()
            implies (#[trigger] post[i]).1 > 0 && post[i].0 + post[i].1 <= u64::MAX by {
            if i != idx && i != idx + 1 {
                let i0 = if i < idx { i } else { i - 1 };
                assert(post[i] == pre[i0]);
            }
        }
    }
    assert forall|x: u64| rt_covered(post, x)
        == (rt_covered(pre, x) && !(start <= x < start + size)) by {
        if rt_covered(post, x) {
            let j = choose|j: int| 0 <= j < post.len()
                && (#[trigger] post[j]).0 <= x < post[j].0 + post[j].1;
            if j == idx || j == idx + 1 {
                assert(pre[idx].0 <= x < pre[idx].0 + pre[idx].1);
                assert(rt_covered(pre, x));
            } else {
                let j0 = if j < idx { j } else { j - 1 };
                assert(pre[j0].0 <= x < pre[j0].0 + pre[j0].1);
                assert(rt_covered(pre, x));
                if start <= x < start + size {
                    if j0 < idx {
                        assert(pre[j0].0 + pre[j0].1 < pre[idx].0);
                    } else {
                        assert(pre[idx].0 + pre[idx].1 < pre[j0].0);
                    }
                }
            }
        }
        if rt_covered(pre, x) && !(start <= x < start + size) {
            let j = choose|j: int| 0 <= j < pre.len()
                && (#[trigger] pre[j]).0 <= x < pre[j].0 + pre[j].1;
            if j == idx {
                if x < start {
                    assert(post[idx].0 <= x < post[idx].0 + post[idx].1);
                } else {
                    assert(post[idx + 1].0 <= x < post[idx + 1].0 + post[idx + 1].1);
                }
            } else if j < idx {
                assert(post[j].0 <= x < post[j].0 + post[j].1);
            } else {
                assert(post[j + 1] == pre[j]);
                assert(post[j + 1].0 <= x < post[j + 1].0 + post[j + 1].1);
            }
        }
    }
}

} // verus!
