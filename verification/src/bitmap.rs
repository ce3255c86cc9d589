//! Range iteration over a roaring bitmap: the bitmap itself is the
//! outside crate's; grouping its set bits into maximal runs is verified
//! here against the bitmap's contents.

use vstd::prelude::*;

verus! {

#[verifier::external_type_specification]
#[verifier::external_body]
pub struct ExRoaringBitmap(roaring::RoaringBitmap);

/// The set bits a roaring bitmap holds.
pub uninterp spec fn bits_of(b: &roaring::RoaringBitmap) -> Set<u32>;

/// Relies on RoaringBitmap::new: a fresh bitmap holds no bits.
#[verifier::external_body]
pub(crate) fn bitmap_new() -> (r: roaring::RoaringBitmap)
    ensures
        bits_of(&r) =~= Set::<u32>::empty(),
{
    roaring::RoaringBitmap::new()
}

/// Relies on RoaringBitmap::insert: sets one bit; true where it was
/// absent.
#[verifier::external_body]
pub(crate) fn bitmap_insert(b: &mut roaring::RoaringBitmap, value: u32) -> (r: bool)
    ensures
        bits_of(final(b)) == bits_of(old(b)).insert(value),
        r == !bits_of(old(b)).contains(value),
{
    b.insert(value)
}

/// Relies on RoaringBitmap::insert_range: sets every bit in
/// `[start, end)`. Only proper ranges are admitted: the crate's
/// empty-range handling is version-dependent edge territory this
/// library never needs.
#[verifier::external_body]
pub(crate) fn bitmap_insert_range(b: &mut roaring::RoaringBitmap, start: u32, end: u32)
    requires
        start < end,
    ensures
        bits_of(final(b)) == bits_of(old(b)).union(
            Set::new(|x: u32| start <= x < end),
        ),
{
    b.insert_range(start..end);
}

/// Relies on RoaringBitmap::remove: clears one bit; true where it was
/// set.
#[verifier::external_body]
pub(crate) fn bitmap_remove(b: &mut roaring::RoaringBitmap, value: u32) -> (r: bool)
    ensures
        bits_of(final(b)) == bits_of(old(b)).remove(value),
        r == bits_of(old(b)).contains(value),
{
    b.remove(value)
}

/// Relies on RoaringBitmap::contains.
#[verifier::external_body]
pub(crate) fn bitmap_contains(b: &roaring::RoaringBitmap, value: u32) -> (r: bool)
    ensures
        r == bits_of(b).contains(value),
{
    b.contains(value)
}

/// Relies on RoaringBitmap::min: the least set bit, if any.
#[verifier::external_body]
pub(crate) fn bitmap_min(b: &roaring::RoaringBitmap) -> (r: Option<u32>)
    ensures
        match r {
            Some(m) => bits_of(b).contains(m) && forall|x: u32| bits_of(b).contains(x)
                ==> m <= x,
            None => bits_of(b) =~= Set::<u32>::empty(),
        },
{
    b.min()
}

/// Relies on RoaringBitmap::iter: yields exactly the set bits, in
/// strictly ascending order.
#[verifier::external_body]
pub(crate) fn bitmap_to_vec(b: &roaring::RoaringBitmap) -> (r: Vec<u32>)
    ensures
        forall|i: int, j: int| #![trigger r@[i], r@[j]] 0 <= i < j < r@.len()
            ==> r@[i] < r@[j],
        forall|i: int| 0 <= i < r@.len() ==> bits_of(b).contains(#[trigger] r@[i]),
        forall|x: u32| bits_of(b).contains(x) ==> r@.contains(x),
{
    b.iter().collect()
}

/// `x` lies in one of the inclusive ranges.
pub open spec fn in_ranges(ranges: Seq<(u32, u32)>, x: u32) -> bool {
    exists|i: int| 0 <= i < ranges.len() && (#[trigger] ranges[i]).0 <= x <= ranges[i].1
}

/// Covered by the closed ranges or the still-open run.
pub open spec fn run_covered(out: Seq<(u32, u32)>, cur: Option<(u32, u32)>, x: u32) -> bool {
    in_ranges(out, x) || (cur matches Some(c) && c.0 <= x <= c.1)
}

/// Membership in a pushed sequence.
proof fn lemma_contains_push(s: Seq<u32>, e: u32, x: u32)
    ensures
        s.push(e).contains(x) <==> (s.contains(x) || e == x),
{
    if s.contains(x) {
        let y = choose|y: int| 0 <= y < s.len() && s[y] == x;
        assert(s.push(e)[y] == x);
    }
    if e == x {
        assert(s.push(e)[s.len() as int] == x);
    }
    if s.push(e).contains(x) {
        let y = choose|y: int| 0 <= y < s.push(e).len() && s.push(e)[y] == x;
        if y < s.len() {
            assert(s[y] == x);
        }
    }
}

/// Coverage by a pushed range.
proof fn lemma_in_ranges_push(s: Seq<(u32, u32)>, r: (u32, u32), x: u32)
    ensures
        in_ranges(s.push(r), x) <==> (in_ranges(s, x) || (r.0 <= x <= r.1)),
{
    if in_ranges(s, x) {
        let w = choose|w: int| 0 <= w < s.len() && (#[trigger] s[w]).0 <= x <= s[w].1;
        assert(s.push(r)[w] == s[w]);
    }
    if r.0 <= x <= r.1 {
        assert(s.push(r)[s.len() as int] == r);
    }
    if in_ranges(s.push(r), x) {
        let w = choose|w: int| 0 <= w < s.push(r).len()
            && (#[trigger] s.push(r)[w]).0 <= x <= s.push(r)[w].1;
        if w < s.len() {
            assert(s[w] == s.push(r)[w]);
        }
    }
}

/// Group a strictly ascending value sequence into maximal runs of
/// consecutive values, as inclusive `(first, last)` pairs.
fn ranges_of_sorted(v: &Vec<u32>) -> (r: Vec<(u32, u32)>)
    requires
        forall|i: int, j: int| #![trigger v@[i], v@[j]] 0 <= i < j < v@.len() ==> v@[i] < v@[j],
    ensures
        forall|i: int| 0 <= i < r@.len() ==> (#[trigger] r@[i]).0 <= r@[i].1,
        forall|x: u32| in_ranges(r@, x) <==> v@.contains(x),
        forall|i: int| 0 <= i < r@.len() - 1
            ==> (#[trigger] r@[i]).1 + 1 < r@[i + 1].0,
{
    let mut out: Vec<(u32, u32)> = Vec::new();
    let mut current: Option<(u32, u32)> = None;
    let mut i: usize = 0;
    proof {
        assert(v@.take(0) =~= Seq::<u32>::empty());
    }
    while i < v.len()
        invariant
            i <= v@.len(),
            forall|a: int, b: int| #![trigger v@[a], v@[b]] 0 <= a < b < v@.len()
                ==> v@[a] < v@[b],
            forall|x: int| 0 <= x < out@.len() ==> (#[trigger] out@[x]).0 <= out@[x].1,
            forall|x: int| 0 <= x < out@.len() - 1
                ==> (#[trigger] out@[x]).1 + 1 < out@[x + 1].0,
            current matches Some(c) ==> c.0 <= c.1,
            current matches Some(c)
                ==> (out@.len() > 0 ==> out@.last().1 + 1 < c.0),
            forall|x: u32| #[trigger] run_covered(out@, current, x)
                <==> v@.take(i as int).contains(x),
            current matches Some(c) ==> i > 0 && c.1 == v@[i - 1],
            i > 0 ==> current is Some,
        decreases v@.len() - i,
    {
        let slot = v[i];
        let ghost pre_out = out@;
        let ghost pre_cur = current;
        match current {
            Some((first, last)) => {
                proof {
                    assert(v@[i - 1] < v@[i as int]);
                }
                if slot == last + 1 {
                    current = Some((first, slot));
                } else {
                    out.push((first, last));
                    current = Some((slot, slot));
                }
            },
            None => {
                current = Some((slot, slot));
            },
        }
        i = i + 1;
        proof {
            assert(v@.take(i as int) =~= v@.take(i - 1).push(v@[i - 1]));
            assert forall|x: u32| #[trigger] run_covered(out@, current, x)
                <==> v@.take(i as int).contains(x) by {
                lemma_contains_push(v@.take(i - 1), v@[i - 1], x);
                assert(run_covered(pre_out, pre_cur, x)
                    <==> v@.take(i - 1).contains(x));
                if out@.len() > pre_out.len() {
                    lemma_in_ranges_push(pre_out, pre_cur->Some_0, x);
                }
            }
            if pre_cur is None && pre_out.len() > 0 {
                // a closed range would cover a value seen before the
                // first one: impossible
                assert(pre_out[0].0 <= pre_out[0].1);
                assert(in_ranges(pre_out, pre_out[0].0));
                assert(run_covered(pre_out, pre_cur, pre_out[0].0));
                assert(v@.take(i - 1).contains(pre_out[0].0));
                assert(false);
            }
        }
    }
    proof {
        assert(v@.take(v@.len() as int) =~= v@);
    }
    let ghost fin_cur = current;
    if let Some((first, last)) = current {
        let ghost pre_out = out@;
        out.push((first, last));
        proof {
            assert forall|x: u32| in_ranges(out@, x) <==> v@.contains(x) by {
                lemma_in_ranges_push(pre_out, (first, last), x);
                assert(run_covered(pre_out, fin_cur, x) <==> v@.contains(x));
            }
        }
    } else {
        proof {
            assert forall|x: u32| in_ranges(out@, x) <==> v@.contains(x) by {
                assert(run_covered(out@, fin_cur, x) <==> v@.contains(x));
            }
        }
    }
    out
}

/// The maximal runs of set bits of a bitmap, as inclusive ranges: every
/// covered value is a set bit and every set bit is covered.
pub fn iter_ranges(bitmap: &roaring::RoaringBitmap) -> (r: Vec<(u32, u32)>)
    ensures
        forall|i: int| 0 <= i < r@.len() ==> (#[trigger] r@[i]).0 <= r@[i].1,
        forall|x: u32| in_ranges(r@, x) <==> bits_of(bitmap).contains(x),
        // ranges ascend and are maximal: never adjacent, never overlapping
        forall|i: int| 0 <= i < r@.len() - 1
            ==> (#[trigger] r@[i]).1 + 1 < r@[i + 1].0,
{
    let v = bitmap_to_vec(bitmap);
    let r = ranges_of_sorted(&v);
    proof {
        assert forall|x: u32| in_ranges(r@, x) implies bits_of(bitmap).contains(x) by {
            let y = choose|y: int| 0 <= y < v@.len() && #[trigger] v@[y] == x;
            assert(bits_of(bitmap).contains(v@[y]));
        }
    }
    r
}

} // verus!
