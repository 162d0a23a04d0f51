//! Selection utility: in-place rank selection (quickselect) over a sequence
//! of points, partitioning by one coordinate axis.
//!
//! `kth_smallest` reorders the points so that the point whose coordinate on
//! the chosen axis is the `k`-th smallest lands at the returned index, with
//! every strictly smaller coordinate to its left and every greater-or-equal
//! coordinate to its right.

use vstd::prelude::*;
use vstd::multiset::Multiset;
use vstd::seq_lib::lemma_multiset_commutative;

use crate::kdtree::Error;

verus! {

/// The coordinate views of a sequence of points.
pub open spec fn views_of(s: Seq<Vec<i32>>) -> Seq<Seq<i32>> {
    s.map_values(|p: Vec<i32>| p@)
}

/// Predicate on points: the coordinate on `axis` is strictly below `v`.
pub open spec fn below(axis: int, v: i32) -> spec_fn(Seq<i32>) -> bool {
    |p: Seq<i32>| p[axis] < v
}

/// Predicate on points: the coordinate on `axis` is at most `v`.
pub open spec fn at_most(axis: int, v: i32) -> spec_fn(Seq<i32>) -> bool {
    |p: Seq<i32>| p[axis] <= v
}

/// How many points of `s`, counted as a multiset, lie strictly below `v` on
/// `axis`. Together with `count_le` this pins down order statistics: `v` is
/// the `k`-th smallest coordinate of `s` on `axis` exactly when
/// `count_lt(s, axis, v) < k <= count_le(s, axis, v)`.
pub open spec fn count_lt(s: Seq<Seq<i32>>, axis: int, v: i32) -> int {
    s.to_multiset().filter(below(axis, v)).len() as int
}

/// How many points of `s`, counted as a multiset, lie at or below `v` on
/// `axis`.
pub open spec fn count_le(s: Seq<Seq<i32>>, axis: int, v: i32) -> int {
    s.to_multiset().filter(at_most(axis, v)).len() as int
}

/// Counting distributes over concatenation.
pub proof fn lemma_count_concat(a: Seq<Seq<i32>>, b: Seq<Seq<i32>>, axis: int, v: i32)
    ensures
        count_lt(a + b, axis, v) == count_lt(a, axis, v) + count_lt(b, axis, v),
        count_le(a + b, axis, v) == count_le(a, axis, v) + count_le(b, axis, v),
{
    broadcast use vstd::multiset::group_multiset_axioms;

    lemma_multiset_commutative(a, b);
    let ma = a.to_multiset();
    let mb = b.to_multiset();
    assert((a + b).to_multiset().filter(below(axis, v)) =~= ma.filter(below(axis, v)).add(
        mb.filter(below(axis, v)),
    ));
    assert((a + b).to_multiset().filter(at_most(axis, v)) =~= ma.filter(at_most(axis, v)).add(
        mb.filter(at_most(axis, v)),
    ));
}

/// Both counts are bounded by the number of points, and the strict count
/// never exceeds the non-strict one.
pub proof fn lemma_count_bounds(s: Seq<Seq<i32>>, axis: int, v: i32)
    ensures
        0 <= count_lt(s, axis, v) <= count_le(s, axis, v) <= s.len(),
{
    broadcast use vstd::multiset::group_multiset_axioms;
    broadcast use vstd::seq_lib::group_to_multiset_ensures;

    let m = s.to_multiset();
    let mlt = m.filter(below(axis, v));
    let mle = m.filter(at_most(axis, v));
    assert(mlt.subset_of(mle));
    assert(mle.sub(mlt).len() == mle.len() - mlt.len());
    assert(mle.subset_of(m));
    assert(m.sub(mle).len() == m.len() - mle.len());
    assert(m.len() == s.len());
}

/// If every point of `s` is at or above `v` on `axis`, none is strictly
/// below it.
pub proof fn lemma_count_all_ge(s: Seq<Seq<i32>>, axis: int, v: i32)
    requires
        forall|i: int| 0 <= i < s.len() ==> coord_seq(s, i, axis) >= v,
    ensures
        count_lt(s, axis, v) == 0,
{
    broadcast use vstd::multiset::group_multiset_axioms;
    broadcast use vstd::seq_lib::group_to_multiset_ensures;

    let m = s.to_multiset();
    let mlt = m.filter(below(axis, v));
    assert forall|p: Seq<i32>| true implies #[trigger] mlt.count(p) == 0 by {
        if below(axis, v)(p) {
            if m.count(p) > 0 {
                assert(s.contains(p));
                let i = choose|i: int| 0 <= i < s.len() && s[i] == p;
                assert(coord_seq(s, i, axis) >= v);
                assert(false);
            }
        }
    }
    assert(mlt =~= Multiset::empty());
    vstd::multiset::lemma_multiset_empty_len(mlt);
}

/// If every point of `s` is at or below `v` on `axis`, all of them are
/// counted by `count_le`.
pub proof fn lemma_count_all_le(s: Seq<Seq<i32>>, axis: int, v: i32)
    requires
        forall|i: int| 0 <= i < s.len() ==> coord_seq(s, i, axis) <= v,
    ensures
        count_le(s, axis, v) == s.len(),
{
    broadcast use vstd::multiset::group_multiset_axioms;
    broadcast use vstd::seq_lib::group_to_multiset_ensures;

    let m = s.to_multiset();
    let mle = m.filter(at_most(axis, v));
    assert forall|p: Seq<i32>| true implies #[trigger] mle.count(p) == m.count(p) by {
        if !at_most(axis, v)(p) {
            if m.count(p) > 0 {
                assert(s.contains(p));
                let i = choose|i: int| 0 <= i < s.len() && s[i] == p;
                assert(coord_seq(s, i, axis) <= v);
                assert(false);
            }
        }
    }
    assert(mle =~= m);
    assert(m.len() == s.len());
}

/// Coordinate `axis` of element `i` of a sequence of point views.
pub open spec fn coord_seq(s: Seq<Seq<i32>>, i: int, axis: int) -> i32 {
    s[i][axis]
}

/// Counting over a one-point sequence.
pub proof fn lemma_count_singleton(p: Seq<i32>, axis: int, v: i32)
    ensures
        count_lt(seq![p], axis, v) == if p[axis] < v { 1int } else { 0int },
        count_le(seq![p], axis, v) == if p[axis] <= v { 1int } else { 0int },
{
    broadcast use vstd::multiset::group_multiset_axioms;
    broadcast use vstd::seq_lib::group_to_multiset_ensures;

    let s = seq![p];
    assert(s =~= Seq::<Seq<i32>>::empty().push(p));
    assert(Seq::<Seq<i32>>::empty().to_multiset().len() == 0);
    vstd::multiset::lemma_multiset_empty_len(Seq::<Seq<i32>>::empty().to_multiset());
    assert(s.to_multiset() =~= Multiset::empty().insert(p));
    let m = s.to_multiset();
    if p[axis] < v {
        assert(m.filter(below(axis, v)) =~= Multiset::empty().insert(p));
    } else {
        assert(m.filter(below(axis, v)) =~= Multiset::empty());
        vstd::multiset::lemma_multiset_empty_len(m.filter(below(axis, v)));
    }
    if p[axis] <= v {
        assert(m.filter(at_most(axis, v)) =~= Multiset::empty().insert(p));
    } else {
        assert(m.filter(at_most(axis, v)) =~= Multiset::empty());
        vstd::multiset::lemma_multiset_empty_len(m.filter(at_most(axis, v)));
    }
    assert(Multiset::<Seq<i32>>::empty().insert(p).len() == 1);
}

/// A pointwise property of the points of `s1` carries over to any sequence
/// holding the same multiset of points.
pub proof fn lemma_ms_pointwise_transfer(
    s1: Seq<Seq<i32>>,
    s2: Seq<Seq<i32>>,
    f: spec_fn(Seq<i32>) -> bool,
)
    requires
        s1.to_multiset() == s2.to_multiset(),
        forall|i: int| 0 <= i < s1.len() ==> f(#[trigger] s1[i]),
    ensures
        forall|i: int| 0 <= i < s2.len() ==> f(#[trigger] s2[i]),
{
    broadcast use vstd::seq_lib::group_to_multiset_ensures;

    assert forall|i: int| 0 <= i < s2.len() implies f(s2[i]) by {
        assert(s2.contains(s2[i]));
        assert(s1.to_multiset().count(s2[i]) > 0);
        assert(s1.contains(s2[i]));
        let j = choose|j: int| 0 <= j < s1.len() && s1[j] == s2[i];
        assert(f(s1[j]));
    }
}

/// Swapping two positions inside a window leaves the window's multiset of
/// points unchanged, and every position outside the two swapped ones keeps
/// its point.
pub proof fn lemma_swap_window_multiset(s1: Seq<Seq<i32>>, s2: Seq<Seq<i32>>, lo: int, hi: int, a: int, b: int)
    requires
        0 <= lo <= a <= hi < s1.len(),
        lo <= b <= hi,
        s1.len() == s2.len(),
        s2 == s1.update(a, s1[b]).update(b, s1[a]),
    ensures
        s2.subrange(lo, hi + 1).to_multiset() == s1.subrange(lo, hi + 1).to_multiset(),
{
    broadcast use vstd::multiset::group_multiset_axioms;
    broadcast use vstd::seq_lib::group_to_multiset_ensures;

    let t1 = s1.subrange(lo, hi + 1);
    let t2 = s2.subrange(lo, hi + 1);
    if a == b {
        assert(t2 =~= t1);
    } else {
        assert(t2 =~= t1.update(a - lo, t1[b - lo]).update(b - lo, t1[a - lo]));
        let u = t1.update(a - lo, t1[b - lo]);
        assert(u.to_multiset() == t1.to_multiset().insert(t1[b - lo]).remove(t1[a - lo]));
        assert(u[b - lo] == t1[b - lo]);
        assert(u.update(b - lo, t1[a - lo]).to_multiset() == u.to_multiset().insert(
            t1[a - lo],
        ).remove(t1[b - lo]));
        assert(t1.contains(t1[a - lo]));
        assert(t1.to_multiset().count(t1[a - lo]) > 0);
        assert(t1.contains(t1[b - lo]));
        assert(t1.to_multiset().count(t1[b - lo]) > 0);
        assert(u.update(b - lo, t1[a - lo]).to_multiset() =~= t1.to_multiset());
    }
}

/// Copies a point coordinate by coordinate.
pub(crate) fn clone_point(p: &Vec<i32>) -> (r: Vec<i32>)
    ensures
        r@ == p@,
{
    let mut r: Vec<i32> = Vec::new();
    let mut i: usize = 0;
    while i < p.len()
        invariant
            i <= p@.len(),
            r@ == p@.subrange(0, i as int),
        decreases p@.len() - i,
    {
        r.push(p[i]);
        proof {
            assert(r@ =~= p@.subrange(0, i as int + 1));
        }
        i += 1;
    }
    proof {
        assert(p@.subrange(0, p@.len() as int) =~= p@);
    }
    r
}

/// Exchanges the points at positions `a` and `b`.
pub(crate) fn swap_points(data: &mut Vec<Vec<i32>>, a: usize, b: usize)
    requires
        a < old(data)@.len(),
        b < old(data)@.len(),
    ensures
        final(data)@.len() == old(data)@.len(),
        views_of(final(data)@) == views_of(old(data)@).update(
            a as int,
            views_of(old(data)@)[b as int],
        ).update(b as int, views_of(old(data)@)[a as int]),
        final(data)@[a as int]@ == old(data)@[b as int]@,
        final(data)@[b as int]@ == old(data)@[a as int]@,
        forall|m: int|
            0 <= m < old(data)@.len() && m != a && m != b ==> (#[trigger] final(data)@[m])@ == old(data)@[m]@,
{
    let pa = clone_point(&data[a]);
    let pb = clone_point(&data[b]);
    data[a] = pb;
    data[b] = pa;
    proof {
        assert(views_of(data@) =~= views_of(old(data)@).update(
            a as int,
            views_of(old(data)@)[b as int],
        ).update(b as int, views_of(old(data)@)[a as int]));
    }
}

/// Hoare-style two-pointer partition of the window `[l, r]` around the
/// coordinate of its first point (the pivot): afterwards every point up to
/// the returned index lies at or below the pivot coordinate and every point
/// after it lies at or above it, while the window keeps its multiset of
/// points and everything outside the window stays put.
fn partition(data: &mut Vec<Vec<i32>>, l: usize, r: usize, cut_axis: usize) -> (j: usize)
    requires
        l < r,
        r < old(data)@.len(),
        forall|m: int| l <= m <= r ==> cut_axis < (#[trigger] old(data)@[m])@.len(),
    ensures
        l <= j < r,
        final(data)@.len() == old(data)@.len(),
        forall|m: int|
            0 <= m < old(data)@.len() && !(l <= m <= r) ==> (#[trigger] final(data)@[m])@ == old(data)@[m]@,
        views_of(final(data)@).subrange(l as int, r + 1).to_multiset() == views_of(
            old(data)@,
        ).subrange(l as int, r + 1).to_multiset(),
        forall|m: int| l <= m <= r ==> cut_axis < (#[trigger] final(data)@[m])@.len(),
        forall|m: int|
            l <= m <= j ==> (#[trigger] final(data)@[m])@[cut_axis as int] <= old(data)@[l as int]@[cut_axis as int],
        forall|m: int|
            j < m <= r ==> (#[trigger] final(data)@[m])@[cut_axis as int] >= old(data)@[l as int]@[cut_axis as int],
{
    let p: i32 = data[l][cut_axis];
    let mut hi: usize = r;
    while data[hi][cut_axis] > p
        invariant
            l <= hi <= r,
            r < data@.len(),
            data@ == old(data)@,
            p == old(data)@[l as int]@[cut_axis as int],
            forall|m: int| l <= m <= r ==> cut_axis < (#[trigger] data@[m])@.len(),
            forall|m: int| hi < m <= r ==> (#[trigger] data@[m])@[cut_axis as int] > p,
        decreases hi,
    {
        proof {
            assert(hi != l);
        }
        hi -= 1;
    }
    if hi == l {
        return l;
    }
    let ghost dv0: Seq<Seq<i32>> = views_of(old(data)@);
    swap_points(data, l, hi);
    proof {
        lemma_swap_window_multiset(dv0, views_of(data@), l as int, r as int, l as int, hi as int);
    }
    let mut lo: usize = l + 1;
    hi -= 1;
    loop
        invariant
            l + 1 <= lo <= r,
            l <= hi < r,
            lo <= hi + 2,
            r < data@.len(),
            data@.len() == old(data)@.len(),
            p == old(data)@[l as int]@[cut_axis as int],
            forall|m: int| l <= m <= r ==> cut_axis < (#[trigger] data@[m])@.len(),
            forall|m: int|
                0 <= m < data@.len() && !(l <= m <= r) ==> (#[trigger] data@[m])@ == old(data)@[m]@,
            views_of(data@).subrange(l as int, r + 1).to_multiset() == views_of(
                old(data)@,
            ).subrange(l as int, r + 1).to_multiset(),
            forall|m: int| l <= m < lo ==> (#[trigger] data@[m])@[cut_axis as int] <= p,
            forall|m: int| hi < m <= r ==> (#[trigger] data@[m])@[cut_axis as int] >= p,
            exists|m: int| lo <= m <= r && (#[trigger] data@[m])@[cut_axis as int] >= p,
            exists|m: int| l <= m <= hi && (#[trigger] data@[m])@[cut_axis as int] <= p,
        decreases hi + 2 - lo,
    {
        let ghost lo_anchor: int = lo as int;
        let ghost hi_anchor: int = hi as int;
        while data[lo][cut_axis] < p
            invariant
                lo_anchor <= lo,
                l + 1 <= lo <= r,
                r < data@.len(),
                forall|m: int| l <= m <= r ==> cut_axis < (#[trigger] data@[m])@.len(),
                forall|m: int| l <= m < lo ==> (#[trigger] data@[m])@[cut_axis as int] <= p,
                exists|m: int| lo <= m <= r && (#[trigger] data@[m])@[cut_axis as int] >= p,
            decreases r - lo,
        {
            proof {
                let m = choose|m: int| lo <= m <= r && (#[trigger] data@[m])@[cut_axis as int]
                    >= p;
                assert(m != lo);
            }
            lo += 1;
        }
        while data[hi][cut_axis] > p
            invariant
                hi <= hi_anchor,
                l <= hi < r,
                r < data@.len(),
                forall|m: int| l <= m <= r ==> cut_axis < (#[trigger] data@[m])@.len(),
                forall|m: int| hi < m <= r ==> (#[trigger] data@[m])@[cut_axis as int] >= p,
                exists|m: int| l <= m <= hi && (#[trigger] data@[m])@[cut_axis as int] <= p,
            decreases hi,
        {
            proof {
                let m = choose|m: int| l <= m <= hi && (#[trigger] data@[m])@[cut_axis as int]
                    <= p;
                assert(m != hi);
            }
            hi -= 1;
        }
        if lo >= hi {
            return hi;
        }
        let ghost prev: Seq<Seq<i32>> = views_of(data@);
        swap_points(data, lo, hi);
        proof {
            lemma_swap_window_multiset(
                prev,
                views_of(data@),
                l as int,
                r as int,
                lo as int,
                hi as int,
            );
        }
        lo += 1;
        hi -= 1;
        proof {
            assert((data@[hi + 1])@[cut_axis as int] >= p);
            assert((data@[lo - 1])@[cut_axis as int] <= p);
        }
    }
}

/// The view sequence indexes to the view of the indexed point.
pub broadcast proof fn lemma_views_of_index(s: Seq<Vec<i32>>, m: int)
    requires
        0 <= m < s.len(),
    ensures
        #[trigger] views_of(s)[m] == s[m]@,
{
}

/// Quickselect on the window `[l, r]`: reorders the window so that the point
/// at the returned index carries the `k`-th smallest coordinate (1-based) of
/// the window on `cut_axis`, with no larger coordinate before it and no
/// smaller coordinate after it.
pub fn _quick_select(
    data: &mut Vec<Vec<i32>>,
    l: usize,
    r: usize,
    k: usize,
    cut_axis: usize,
) -> (idx: usize)
    requires
        l <= r,
        r < old(data)@.len(),
        1 <= k,
        k <= r - l + 1,
        forall|m: int| l <= m <= r ==> cut_axis < (#[trigger] old(data)@[m])@.len(),
    ensures
        l <= idx <= r,
        final(data)@.len() == old(data)@.len(),
        forall|m: int|
            0 <= m < old(data)@.len() && !(l <= m <= r) ==> (#[trigger] final(data)@[m])@ == old(data)@[m]@,
        views_of(final(data)@).subrange(l as int, r + 1).to_multiset() == views_of(
            old(data)@,
        ).subrange(l as int, r + 1).to_multiset(),
        forall|m: int| l <= m <= r ==> cut_axis < (#[trigger] final(data)@[m])@.len(),
        forall|m: int|
            l <= m < idx ==> (#[trigger] final(data)@[m])@[cut_axis as int] <= final(data)@[idx as int]@[cut_axis as int],
        forall|m: int|
            idx < m <= r ==> (#[trigger] final(data)@[m])@[cut_axis as int] >= final(data)@[idx as int]@[cut_axis as int],
        count_lt(
            views_of(final(data)@).subrange(l as int, r + 1),
            cut_axis as int,
            final(data)@[idx as int]@[cut_axis as int],
        ) < k,
        k <= count_le(
            views_of(final(data)@).subrange(l as int, r + 1),
            cut_axis as int,
            final(data)@[idx as int]@[cut_axis as int],
        ),
    decreases r - l,
{
    broadcast use lemma_views_of_index;

    if l >= r {
        proof {
            let dv = views_of(data@);
            let v = data@[l as int]@[cut_axis as int];
            assert(dv.subrange(l as int, l + 1) =~= seq![dv[l as int]]);
            lemma_count_singleton(dv[l as int], cut_axis as int, v);
        }
        return l;
    }
    let j = partition(data, l, r, cut_axis);
    let ghost dp: Seq<Vec<i32>> = data@;
    let ghost dvp: Seq<Seq<i32>> = views_of(data@);
    let ghost pv: i32 = old(data)@[l as int]@[cut_axis as int];
    let left_size = j - l + 1;
    if k <= left_size {
        let idx = _quick_select(data, l, j, k, cut_axis);
        proof {
            let dvf = views_of(data@);
            let v = data@[idx as int]@[cut_axis as int];
            let wl = dvf.subrange(l as int, j + 1);
            let wr = dvf.subrange(j + 1, r + 1);
            // the selected coordinate stays at or below the pivot
            assert forall|i: int|
                0 <= i < dvp.subrange(l as int, j + 1).len() implies (#[trigger] dvp.subrange(
                l as int,
                j + 1,
            )[i])[cut_axis as int] <= pv by {
                assert(dvp.subrange(l as int, j + 1)[i] == dp[l + i]@);
            }
            lemma_ms_pointwise_transfer(
                dvp.subrange(l as int, j + 1),
                wl,
                |q: Seq<i32>| q[cut_axis as int] <= pv,
            );
            assert(wl[idx - l] == data@[idx as int]@);
            assert(v <= pv);
            // the far half is at or above the pivot, hence at or above v
            assert forall|m: int| j < m <= r implies (#[trigger] data@[m])@[cut_axis as int]
                >= v by {
                assert(data@[m]@ == dp[m]@);
            }
            // counts over the whole window
            assert(dvf.subrange(l as int, r + 1) =~= wl + wr);
            lemma_count_concat(wl, wr, cut_axis as int, v);
            assert forall|i: int| 0 <= i < wr.len() implies coord_seq(wr, i, cut_axis as int)
                >= v by {
                assert(wr[i] == data@[j + 1 + i]@);
            }
            lemma_count_all_ge(wr, cut_axis as int, v);
            lemma_count_bounds(wr, cut_axis as int, v);
            // the window multiset is preserved end to end
            assert(wr =~= dvp.subrange(j + 1, r + 1));
            assert(dvp.subrange(l as int, r + 1) =~= dvp.subrange(l as int, j + 1) + dvp.subrange(
                j + 1,
                r + 1,
            ));
            lemma_multiset_commutative(wl, wr);
            lemma_multiset_commutative(dvp.subrange(l as int, j + 1), dvp.subrange(j + 1, r + 1));
            assert(views_of(old(data)@).subrange(l as int, r + 1).to_multiset() == dvp.subrange(
                l as int,
                r + 1,
            ).to_multiset());
        }
        idx
    } else {
        let idx = _quick_select(data, j + 1, r, k - left_size, cut_axis);
        proof {
            let dvf = views_of(data@);
            let v = data@[idx as int]@[cut_axis as int];
            let wl = dvf.subrange(l as int, j + 1);
            let wr = dvf.subrange(j + 1, r + 1);
            // the selected coordinate stays at or above the pivot
            assert forall|i: int|
                0 <= i < dvp.subrange(j + 1, r + 1).len() implies (#[trigger] dvp.subrange(
                j + 1,
                r + 1,
            )[i])[cut_axis as int] >= pv by {
                assert(dvp.subrange(j + 1, r + 1)[i] == dp[j + 1 + i]@);
            }
            lemma_ms_pointwise_transfer(
                dvp.subrange(j + 1, r + 1),
                wr,
                |q: Seq<i32>| q[cut_axis as int] >= pv,
            );
            assert(wr[idx - (j + 1)] == data@[idx as int]@);
            assert(v >= pv);
            // the near half is at or below the pivot, hence at or below v
            assert forall|m: int| l <= m <= j implies (#[trigger] data@[m])@[cut_axis as int]
                <= v by {
                assert(data@[m]@ == dp[m]@);
            }
            // counts over the whole window
            assert(dvf.subrange(l as int, r + 1) =~= wl + wr);
            lemma_count_concat(wl, wr, cut_axis as int, v);
            assert forall|i: int| 0 <= i < wl.len() implies coord_seq(wl, i, cut_axis as int)
                <= v by {
                assert(wl[i] == data@[l + i]@);
            }
            lemma_count_all_le(wl, cut_axis as int, v);
            lemma_count_bounds(wl, cut_axis as int, v);
            lemma_count_bounds(wr, cut_axis as int, v);
            // the window multiset is preserved end to end
            assert(wl =~= dvp.subrange(l as int, j + 1));
            assert(dvp.subrange(l as int, r + 1) =~= dvp.subrange(l as int, j + 1) + dvp.subrange(
                j + 1,
                r + 1,
            ));
            lemma_multiset_commutative(wl, wr);
            lemma_multiset_commutative(dvp.subrange(l as int, j + 1), dvp.subrange(j + 1, r + 1));
            assert(views_of(old(data)@).subrange(l as int, r + 1).to_multiset() == dvp.subrange(
                l as int,
                r + 1,
            ).to_multiset());
        }
        idx
    }
}

/// Collapses a run of equal coordinates: moves every point of the window
/// `[l, idx0]` whose coordinate on `cut_axis` lies strictly below that of
/// the point at `idx0` to the front of the window and returns the first
/// position whose coordinate equals it.
pub(crate) fn collapse_ties(data: &mut Vec<Vec<i32>>, l: usize, idx0: usize, cut_axis: usize) -> (w: usize)
    requires
        l <= idx0 < old(data)@.len(),
        forall|m: int| l <= m <= idx0 ==> cut_axis < (#[trigger] old(data)@[m])@.len(),
        forall|m: int|
            l <= m < idx0 ==> (#[trigger] old(data)@[m])@[cut_axis as int] <= old(data)@[idx0 as int]@[cut_axis as int],
    ensures
        l <= w <= idx0,
        final(data)@.len() == old(data)@.len(),
        forall|m: int|
            0 <= m < old(data)@.len() && !(l <= m < idx0) ==> (#[trigger] final(data)@[m])@ == old(data)@[m]@,
        views_of(final(data)@).subrange(l as int, idx0 + 1).to_multiset() == views_of(
            old(data)@,
        ).subrange(l as int, idx0 + 1).to_multiset(),
        forall|m: int| l <= m <= idx0 ==> cut_axis < (#[trigger] final(data)@[m])@.len(),
        forall|m: int|
            l <= m < w ==> (#[trigger] final(data)@[m])@[cut_axis as int] < old(data)@[idx0 as int]@[cut_axis as int],
        forall|m: int|
            w <= m <= idx0 ==> (#[trigger] final(data)@[m])@[cut_axis as int] == old(data)@[idx0 as int]@[cut_axis as int],
{
    let v: i32 = data[idx0][cut_axis];
    let mut w: usize = l;
    let mut m: usize = l;
    while m < idx0
        invariant
            l <= w <= m <= idx0 < data@.len(),
            data@.len() == old(data)@.len(),
            v == old(data)@[idx0 as int]@[cut_axis as int],
            forall|mm: int| l <= mm <= idx0 ==> cut_axis < (#[trigger] data@[mm])@.len(),
            forall|mm: int|
                0 <= mm < data@.len() && !(l <= mm < idx0) ==> (#[trigger] data@[mm])@ == old(data)@[mm]@,
            forall|mm: int| m <= mm < idx0 ==> (#[trigger] data@[mm])@ == old(data)@[mm]@,
            forall|mm: int|
                l <= mm < idx0 ==> (#[trigger] old(data)@[mm])@[cut_axis as int] <= v,
            views_of(data@).subrange(l as int, idx0 + 1).to_multiset() == views_of(
                old(data)@,
            ).subrange(l as int, idx0 + 1).to_multiset(),
            forall|mm: int| l <= mm < w ==> (#[trigger] data@[mm])@[cut_axis as int] < v,
            forall|mm: int| w <= mm < m ==> (#[trigger] data@[mm])@[cut_axis as int] == v,
        decreases idx0 - m,
    {
        if data[m][cut_axis] < v {
            let ghost prev: Seq<Seq<i32>> = views_of(data@);
            swap_points(data, m, w);
            proof {
                lemma_swap_window_multiset(
                    prev,
                    views_of(data@),
                    l as int,
                    idx0 as int,
                    m as int,
                    w as int,
                );
            }
            w += 1;
        }
        m += 1;
    }
    w
}

/// Returns the index of the point holding the `k`-th smallest coordinate
/// (1-based) of `data` on `cut_axis`, after reordering `data` in place so
/// that every point before the returned index lies strictly below that
/// coordinate on `cut_axis` and every point from the returned index on lies
/// at or above it.
///
/// Fails with `Error::InvalidRank` exactly when the rank `k` is `0` or
/// exceeds the number of points; `data` is then left unchanged.
pub fn kth_smallest(data: &mut Vec<Vec<i32>>, k: usize, cut_axis: usize) -> (res: Result<
    usize,
    Error,
>)
    requires
        (1 <= k && k <= old(data)@.len()) ==> (forall|m: int|
            0 <= m < old(data)@.len() ==> cut_axis < (#[trigger] old(data)@[m])@.len()),
    ensures
        match res {
            Result::Err(e) => {
                &&& e == Error::InvalidRank
                &&& (k < 1 || k > old(data)@.len())
                &&& final(data)@ == old(data)@
            },
            Result::Ok(idx) => {
                &&& 1 <= k <= old(data)@.len()
                &&& idx < final(data)@.len()
                &&& final(data)@.len() == old(data)@.len()
                &&& views_of(final(data)@).to_multiset() == views_of(old(data)@).to_multiset()
                &&& forall|m: int|
                    0 <= m < idx ==> (#[trigger] final(data)@[m])@[cut_axis as int] < final(data)@[idx as int]@[cut_axis as int]
                &&& forall|m: int|
                    idx <= m < final(data)@.len() ==> (#[trigger] final(data)@[m])@[cut_axis as int]
                        >= final(data)@[idx as int]@[cut_axis as int]
                &&& count_lt(
                    views_of(old(data)@),
                    cut_axis as int,
                    final(data)@[idx as int]@[cut_axis as int],
                ) < k
                &&& k <= count_le(
                    views_of(old(data)@),
                    cut_axis as int,
                    final(data)@[idx as int]@[cut_axis as int],
                )
            },
        },
{
    broadcast use lemma_views_of_index;

    if k == 0 {
        return Err(Error::InvalidRank);
    }
    let size = data.len();
    if size < k {
        return Err(Error::InvalidRank);
    }
    let idx0 = _quick_select(data, 0, size - 1, k, cut_axis);
    let ghost dq: Seq<Vec<i32>> = data@;
    let w = collapse_ties(data, 0, idx0, cut_axis);
    proof {
        let dvq = views_of(dq);
        let dvf = views_of(data@);
        let v = data@[w as int]@[cut_axis as int];
        assert(data@[idx0 as int]@ == dq[idx0 as int]@);
        assert(v == dq[idx0 as int]@[cut_axis as int]);
        // the whole sequence keeps its multiset of points
        assert(dvq.subrange(0, size as int) =~= dvq);
        assert(dvf.subrange(idx0 + 1, size as int) =~= dvq.subrange(idx0 + 1, size as int));
        assert(dvf =~= dvf.subrange(0, idx0 + 1) + dvf.subrange(idx0 + 1, size as int));
        assert(dvq =~= dvq.subrange(0, idx0 + 1) + dvq.subrange(idx0 + 1, size as int));
        lemma_multiset_commutative(dvf.subrange(0, idx0 + 1), dvf.subrange(idx0 + 1, size as int));
        lemma_multiset_commutative(dvq.subrange(0, idx0 + 1), dvq.subrange(idx0 + 1, size as int));
        assert(dvf.to_multiset() == dvq.to_multiset());
        assert(views_of(old(data)@).subrange(0, size as int) =~= views_of(old(data)@));
        assert(dvq.to_multiset() == views_of(old(data)@).to_multiset());
        // the rank facts carry over: the counts only read the multiset
        assert(count_lt(views_of(old(data)@), cut_axis as int, v) == count_lt(
            dvq,
            cut_axis as int,
            v,
        ));
        assert(k <= count_le(views_of(old(data)@), cut_axis as int, v));
    }
    Ok(w)
}

/// If a sub-window keeps its multiset and every other position of the outer
/// window keeps its point, the outer window keeps its multiset.
pub proof fn lemma_window_chain(s1: Seq<Seq<i32>>, s2: Seq<Seq<i32>>, l: int, r: int, a: int, b: int)
    requires
        0 <= l <= a <= b <= r <= s1.len(),
        s1.len() == s2.len(),
        s2.subrange(a, b).to_multiset() == s1.subrange(a, b).to_multiset(),
        forall|m: int| l <= m < r && !(a <= m < b) ==> s2[m] == s1[m],
    ensures
        s2.subrange(l, r).to_multiset() == s1.subrange(l, r).to_multiset(),
{
    broadcast use vstd::multiset::group_multiset_axioms;

    assert(s1.subrange(l, r) =~= (s1.subrange(l, a) + s1.subrange(a, b)) + s1.subrange(b, r));
    assert(s2.subrange(l, r) =~= (s2.subrange(l, a) + s2.subrange(a, b)) + s2.subrange(b, r));
    assert(s2.subrange(l, a) =~= s1.subrange(l, a));
    assert(s2.subrange(b, r) =~= s1.subrange(b, r));
    lemma_multiset_commutative(s1.subrange(l, a), s1.subrange(a, b));
    lemma_multiset_commutative(s1.subrange(l, a) + s1.subrange(a, b), s1.subrange(b, r));
    lemma_multiset_commutative(s2.subrange(l, a), s2.subrange(a, b));
    lemma_multiset_commutative(s2.subrange(l, a) + s2.subrange(a, b), s2.subrange(b, r));
    assert(s2.subrange(l, r).to_multiset() =~= s1.subrange(l, r).to_multiset());
}

} // verus!
