//! Squared Euclidean distance and the bounded best-k candidate set used by
//! the nearest-neighbor search.

use vstd::prelude::*;
use vstd::multiset::Multiset;

use crate::utils::clone_point;

verus! {

/// Squared Euclidean distance between two points, summed coordinate by
/// coordinate over the mathematical integers.
pub open spec fn dist_sq(p: Seq<i32>, q: Seq<i32>) -> int
    decreases p.len(),
{
    if p.len() == 0 || q.len() == 0 {
        0
    } else {
        (p.last() - q.last()) * (p.last() - q.last()) + dist_sq(p.drop_last(), q.drop_last())
    }
}

/// A square of an integer bounded by `b` in magnitude is bounded by `b * b`.
pub proof fn lemma_sq_bounds(x: int, b: int)
    requires
        -b <= x <= b,
    ensures
        0 <= x * x <= b * b,
{
    assert(0 <= x * x <= b * b) by (nonlinear_arith)
        requires
            -b <= x <= b,
    ;
}

/// Squaring is monotone on the non-negative integers.
pub proof fn lemma_sq_monotone(a: int, b: int)
    requires
        0 <= a <= b,
    ensures
        a * a <= b * b,
{
    assert(a * a <= b * b) by (nonlinear_arith)
        requires
            0 <= a <= b,
    ;
}

/// Squared distances are never negative.
pub proof fn lemma_dist_sq_nonneg(p: Seq<i32>, q: Seq<i32>)
    ensures
        dist_sq(p, q) >= 0,
    decreases p.len(),
{
    if p.len() == 0 || q.len() == 0 {
    } else {
        lemma_sq_bounds(p.last() - q.last(), if p.last() >= q.last() {
            p.last() - q.last()
        } else {
            q.last() - p.last()
        });
        lemma_dist_sq_nonneg(p.drop_last(), q.drop_last());
    }
}

/// The squared distance dominates the squared difference on any single axis.
pub proof fn lemma_dist_sq_ge_axis(p: Seq<i32>, q: Seq<i32>, axis: int)
    requires
        p.len() == q.len(),
        0 <= axis < p.len(),
    ensures
        dist_sq(p, q) >= (p[axis] - q[axis]) * (p[axis] - q[axis]),
    decreases p.len(),
{
    lemma_dist_sq_nonneg(p.drop_last(), q.drop_last());
    if axis == p.len() - 1 {
    } else {
        lemma_dist_sq_ge_axis(p.drop_last(), q.drop_last(), axis);
        lemma_sq_bounds(p.last() - q.last(), if p.last() >= q.last() {
            p.last() - q.last()
        } else {
            q.last() - p.last()
        });
    }
}

/// Computes the squared Euclidean distance between two points of equal
/// dimension. The result is exact: with 32-bit coordinates the sum always
/// fits in 128 bits.
pub(crate) fn distance(p: &Vec<i32>, q: &Vec<i32>) -> (d: u128)
    requires
        p@.len() == q@.len(),
    ensures
        d as int == dist_sq(p@, q@),
{
    let mut acc: u128 = 0;
    let mut i: usize = 0;
    while i < p.len()
        invariant
            i <= p@.len(),
            p@.len() == q@.len(),
            acc as int == dist_sq(p@.subrange(0, i as int), q@.subrange(0, i as int)),
            acc as int <= (i as int) * 0xFFFF_FFFE_0000_0001,
        decreases p@.len() - i,
    {
        let di: i64 = p[i] as i64 - q[i] as i64;
        proof {
            assert(-0xFFFF_FFFF <= di as int <= 0xFFFF_FFFF);
            lemma_sq_bounds(di as int, 0xFFFF_FFFF);
            assert((i as int + 1) * 0xFFFF_FFFE_0000_0001 == (i as int) * 0xFFFF_FFFE_0000_0001
                + 0xFFFF_FFFE_0000_0001);
            assert(i as int + 1 <= 0x1_0000_0000_0000_0000int);
            assert((i as int + 1) * 0xFFFF_FFFE_0000_0001 <= 0x1_0000_0000_0000_0000int
                * 0xFFFF_FFFE_0000_0001) by (nonlinear_arith)
                requires
                    i as int + 1 <= 0x1_0000_0000_0000_0000int,
            ;
            assert(0x1_0000_0000_0000_0000int * 0xFFFF_FFFE_0000_0001
                == 0xFFFF_FFFE_0000_0001_0000_0000_0000_0000int) by (nonlinear_arith);
        }
        let sq: u128 = (di as i128 * di as i128) as u128;
        proof {
            let pp = p@.subrange(0, i as int + 1);
            let qq = q@.subrange(0, i as int + 1);
            assert(pp.drop_last() =~= p@.subrange(0, i as int));
            assert(qq.drop_last() =~= q@.subrange(0, i as int));
            assert(pp.last() == p@[i as int] && qq.last() == q@[i as int]);
            assert(sq as int == (pp.last() - qq.last()) * (pp.last() - qq.last()));
        }
        acc = acc + sq;
        i += 1;
    }
    proof {
        assert(p@.subrange(0, p@.len() as int) =~= p@);
        assert(q@.subrange(0, q@.len() as int) =~= q@);
    }
    acc
}

/// One entry of the search-time candidate set: a stored point together with
/// its squared distance to the query.
pub(crate) struct Candidate {
    pub dist: u128,
    pub point: Vec<i32>,
}

/// The points of a candidate sequence, as coordinate views.
pub(crate) open spec fn cand_points(s: Seq<Candidate>) -> Seq<Seq<i32>> {
    s.map_values(|c: Candidate| c.point@)
}

/// Well-formedness of the candidate set for query `q` and bound `k`: at most
/// `k` entries, each carrying its true squared distance to `q`, ordered by
/// ascending distance (so the worst candidate sits at the end).
pub(crate) open spec fn cands_wf(s: Seq<Candidate>, q: Seq<i32>, k: int) -> bool {
    &&& s.len() <= k
    &&& forall|i: int|
        0 <= i < s.len() ==> (#[trigger] s[i]).dist as int == dist_sq(s[i].point@, q)
    &&& forall|i: int, j: int| 0 <= i <= j < s.len() ==> (#[trigger] s[i]).dist <= (#[trigger] s[j]).dist
}

/// The best-k selection relation: `c` consists of points of `m`, holds
/// `min(k, |m|)` of them, and none of the points of `m` left outside `c`
/// lies closer to `q` than any point of `c`.
pub open spec fn is_k_nearest(
    c: Multiset<Seq<i32>>,
    m: Multiset<Seq<i32>>,
    q: Seq<i32>,
    k: int,
) -> bool {
    &&& c.subset_of(m)
    &&& c.len() == if m.len() <= k {
        m.len() as int
    } else {
        k
    }
    &&& forall|x: Seq<i32>, y: Seq<i32>|
        c.count(x) > 0 && m.sub(c).count(y) > 0 ==> dist_sq(x, q) <= dist_sq(y, q)
}

/// A selection of a selection is a selection: taking the best `k` of a best-k
/// set joined with new points is the same as taking the best `k` of the whole.
pub proof fn lemma_k_nearest_compose(
    a: Multiset<Seq<i32>>,
    m: Multiset<Seq<i32>>,
    b: Multiset<Seq<i32>>,
    n: Multiset<Seq<i32>>,
    q: Seq<i32>,
    k: int,
)
    requires
        k >= 1,
        is_k_nearest(a, m, q, k),
        is_k_nearest(b, a.add(n), q, k),
    ensures
        is_k_nearest(b, m.add(n), q, k),
{
    broadcast use vstd::multiset::group_multiset_axioms;

    assert(b.subset_of(m.add(n)));
    if m.len() <= k {
        assert(a.len() == m.len());
        assert(m.sub(a).len() == m.len() - a.len());
        assert(a.add(n).len() == m.add(n).len());
    } else {
        assert(a.len() == k);
        assert(a.add(n).len() >= k);
        assert(m.add(n).len() >= m.len() > k);
    }
    assert forall|x: Seq<i32>, y: Seq<i32>|
        b.count(x) > 0 && m.add(n).sub(b).count(y) > 0 implies dist_sq(x, q) <= dist_sq(
        y,
        q,
    ) by {
        if a.add(n).sub(b).count(y) > 0 {
        } else {
            assert(b.count(y) >= a.count(y) + n.count(y));
            assert(m.count(y) > a.count(y));
            assert(m.sub(a).count(y) > 0);
            assert(m.sub(a).len() >= m.sub(a).count(y));
            if m.len() <= k {
                assert(m.sub(a).len() == 0);
                assert(false);
            }
            assert(a.len() == k);
            if a.sub(b).len() > 0 {
                let w = a.sub(b).choose();
                assert(a.sub(b).count(w) > 0);
                assert(a.add(n).sub(b).count(w) > 0);
                assert(dist_sq(x, q) <= dist_sq(w, q));
                assert(a.count(w) > 0);
                assert(dist_sq(w, q) <= dist_sq(y, q));
            } else {
                assert forall|v: Seq<i32>| a.count(v) <= b.count(v) by {
                    assert(a.sub(b).count(v) <= a.sub(b).len());
                }
                assert(a.subset_of(b));
                assert(a.add(n).len() >= k);
                assert(b.len() == k);
                assert(b.sub(a).len() == b.len() - a.len());
                assert(b.sub(a).count(x) <= b.sub(a).len());
                assert(a.count(x) >= b.count(x));
                assert(a.count(x) > 0);
                assert(dist_sq(x, q) <= dist_sq(y, q));
            }
        }
    }
}

/// A full candidate set absorbs any batch of points that all lie at least as
/// far from the query as every candidate.
pub proof fn lemma_k_nearest_skip(
    c: Multiset<Seq<i32>>,
    n: Multiset<Seq<i32>>,
    q: Seq<i32>,
    k: int,
)
    requires
        k >= 1,
        c.len() == k,
        forall|x: Seq<i32>, y: Seq<i32>|
            c.count(x) > 0 && n.count(y) > 0 ==> dist_sq(x, q) <= dist_sq(y, q),
    ensures
        is_k_nearest(c, c.add(n), q, k),
{
    broadcast use vstd::multiset::group_multiset_axioms;

    assert(c.add(n).len() == c.len() + n.len());
    assert forall|x: Seq<i32>, y: Seq<i32>|
        c.count(x) > 0 && c.add(n).sub(c).count(y) > 0 implies dist_sq(x, q) <= dist_sq(
        y,
        q,
    ) by {
        assert(n.count(y) > 0);
    }
}

/// A candidate set not yet over its bound is a best-k selection of itself.
pub proof fn lemma_k_nearest_refl(c: Multiset<Seq<i32>>, q: Seq<i32>, k: int)
    requires
        c.len() <= k,
    ensures
        is_k_nearest(c, c, q, k),
{
    broadcast use vstd::multiset::group_multiset_axioms;

    assert(forall|y: Seq<i32>| c.sub(c).count(y) == 0);
}

/// Any point of a well-formed candidate set lies no farther from the query
/// than the last (worst) candidate.
pub(crate) proof fn lemma_cand_dist_bound(s: Seq<Candidate>, q: Seq<i32>, k: int, x: Seq<i32>)
    requires
        cands_wf(s, q, k),
        s.len() > 0,
        cand_points(s).to_multiset().count(x) > 0,
    ensures
        dist_sq(x, q) <= s[s.len() - 1].dist as int,
{
    broadcast use vstd::seq_lib::group_to_multiset_ensures;

    assert(cand_points(s).contains(x));
    let i = choose|i: int| 0 <= i < cand_points(s).len() && cand_points(s)[i] == x;
    assert(s[i].point@ == x);
    assert(s[i].dist <= s[s.len() - 1].dist);
    assert(s[i].dist as int == dist_sq(x, q));
}

/// Inserts a new candidate at its place in the ascending distance order.
fn insert_sorted(
    cands: &mut Vec<Candidate>,
    pt: &Vec<i32>,
    d: u128,
    Ghost(q): Ghost<Seq<i32>>,
    Ghost(k): Ghost<int>,
)
    requires
        cands_wf(old(cands)@, q, k),
        old(cands)@.len() < k,
        d as int == dist_sq(pt@, q),
    ensures
        cands_wf(final(cands)@, q, k),
        final(cands)@.len() == old(cands)@.len() + 1,
        cand_points(final(cands)@).to_multiset() == cand_points(old(cands)@).to_multiset().insert(
            pt@,
        ),
{
    let mut i: usize = 0;
    while i < cands.len() && cands[i].dist <= d
        invariant
            i <= cands@.len(),
            cands@ == old(cands)@,
            forall|j: int| 0 <= j < i ==> (#[trigger] cands@[j]).dist <= d,
        decreases cands@.len() - i,
    {
        i += 1;
    }
    let c = Candidate { dist: d, point: clone_point(pt) };
    cands.insert(i, c);
    proof {
        broadcast use vstd::seq_lib::group_to_multiset_ensures;

        assert(cand_points(cands@) =~= cand_points(old(cands)@).insert(i as int, pt@));
        assert(cand_points(old(cands)@).insert(i as int, pt@).to_multiset() == cand_points(
            old(cands)@,
        ).to_multiset().insert(pt@));
    }
}

/// Offers a point to the candidate set: it is taken in while there is room,
/// and otherwise replaces the worst candidate exactly when it is strictly
/// closer to the query. The result is a best-k selection of the old
/// candidates joined with the offered point.
pub(crate) fn offer(
    cands: &mut Vec<Candidate>,
    pt: &Vec<i32>,
    d: u128,
    k: usize,
    Ghost(q): Ghost<Seq<i32>>,
)
    requires
        k >= 1,
        cands_wf(old(cands)@, q, k as int),
        d as int == dist_sq(pt@, q),
    ensures
        cands_wf(final(cands)@, q, k as int),
        final(cands)@.len() == if old(cands)@.len() + 1 <= k {
            (old(cands)@.len() + 1) as int
        } else {
            k as int
        },
        is_k_nearest(
            cand_points(final(cands)@).to_multiset(),
            cand_points(old(cands)@).to_multiset().insert(pt@),
            q,
            k as int,
        ),
{
    broadcast use vstd::multiset::group_multiset_axioms;
    broadcast use vstd::seq_lib::group_to_multiset_ensures;

    let ghost c0: Multiset<Seq<i32>> = cand_points(old(cands)@).to_multiset();
    proof {
        assert(c0.len() == old(cands)@.len());
    }
    if cands.len() < k {
        insert_sorted(cands, pt, d, Ghost(q), Ghost(k as int));
        proof {
            let c1 = cand_points(cands@).to_multiset();
            assert(c1 == c0.insert(pt@));
            assert(forall|y: Seq<i32>| c0.insert(pt@).sub(c1).count(y) == 0);
            assert(c1.len() == c0.len() + 1);
        }
    } else {
        let worst = cands[cands.len() - 1].dist;
        let ghost cfull: Seq<Candidate> = cands@;
        let ghost lastpt: Seq<i32> = cfull[cfull.len() - 1].point@;
        proof {
            assert(cand_points(cfull) =~= cand_points(cfull.drop_last()).push(lastpt));
            assert(cand_points(cfull).to_multiset() == cand_points(
                cfull.drop_last(),
            ).to_multiset().insert(lastpt));
            assert(worst as int == dist_sq(lastpt, q));
        }
        if d < worst {
            let _dropped = cands.pop();
            proof {
                assert(cands@ =~= cfull.drop_last());
            }
            insert_sorted(cands, pt, d, Ghost(q), Ghost(k as int));
            proof {
                let cmid = cand_points(cfull.drop_last()).to_multiset();
                let c1 = cand_points(cands@).to_multiset();
                let u = c0.insert(pt@);
                assert(c1 == cmid.insert(pt@));
                assert(c0 == cmid.insert(lastpt));
                assert(c1.len() == k);
                assert(u.len() == k + 1);
                assert(c1.subset_of(u));
                assert forall|x: Seq<i32>, y: Seq<i32>|
                    c1.count(x) > 0 && u.sub(c1).count(y) > 0 implies dist_sq(x, q) <= dist_sq(
                    y,
                    q,
                ) by {
                    assert(y == lastpt);
                    if cmid.count(x) > 0 {
                        assert(cand_points(cfull).to_multiset().count(x) > 0);
                        lemma_cand_dist_bound(cfull, q, k as int, x);
                    } else {
                        assert(x == pt@);
                    }
                }
            }
        } else {
            proof {
                let u = c0.insert(pt@);
                assert(cands@.len() == k);
                assert(c0.subset_of(u));
                assert(u.len() == k + 1);
                assert forall|x: Seq<i32>, y: Seq<i32>|
                    c0.count(x) > 0 && u.sub(c0).count(y) > 0 implies dist_sq(x, q) <= dist_sq(
                    y,
                    q,
                ) by {
                    assert(y == pt@);
                    lemma_cand_dist_bound(cfull, q, k as int, x);
                    assert(dist_sq(x, q) <= worst as int);
                }
            }
        }
    }
}

} // verus!
