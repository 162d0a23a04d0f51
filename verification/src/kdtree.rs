//! The spatial partition tree: a binary tree over fixed-dimension points,
//! built by repeated median selection on a cycling coordinate axis, with
//! in-place insertion and branch-and-bound k-nearest-neighbor search.
//!
//! Insertion never rebalances: repeated insertion of monotone coordinates can
//! skew the tree and slow searches down, but every invariant and the search
//! result itself are unaffected.

use vstd::prelude::*;
use vstd::multiset::Multiset;
use vstd::seq_lib::lemma_multiset_commutative;

use crate::knn::Candidate;
use crate::knn::cand_points;
use crate::knn::cands_wf;
use crate::knn::dist_sq;
use crate::knn::distance;
use crate::knn::is_k_nearest;
use crate::knn::lemma_dist_sq_ge_axis;
use crate::knn::lemma_k_nearest_compose;
use crate::knn::lemma_k_nearest_refl;
use crate::knn::lemma_k_nearest_skip;
use crate::knn::lemma_sq_bounds;
use crate::knn::lemma_sq_monotone;
use crate::knn::offer;
use crate::utils::_quick_select;
use crate::utils::clone_point;
use crate::utils::collapse_ties;
use crate::utils::lemma_ms_pointwise_transfer;
use crate::utils::lemma_views_of_index;
use crate::utils::lemma_window_chain;
use crate::utils::views_of;

verus! {

/// The ways an operation on the tree or the selection utility can fail.
#[derive(Debug)]
pub enum Error {
    /// Construction was attempted with zero points.
    EmptyInput,
    /// A search was requested with fewer than one neighbor.
    InvalidK,
    /// The selection utility was given a rank outside `[1, len]`.
    InvalidRank,
    /// A search was requested for more neighbors than the tree holds.
    InsufficientPoints,
    /// A point's length differs from the tree's dimensionality.
    DimensionMismatch,
}

/// A node of the spatial partition tree. Every node owns one stored point,
/// the coordinate axis it partitions on, and its two optional subtrees.
#[derive(Debug, Default, PartialEq)]
pub struct KDTree {
    pub data: Vec<i32>,
    pub cut_axis: usize,
    pub left: Option<Box<KDTree>>,
    pub right: Option<Box<KDTree>>,
}

/// The multiset of (the views of) all points stored in the tree.
pub open spec fn tree_points(t: KDTree) -> Multiset<Seq<i32>>
    decreases t,
{
    opt_points(t.left).insert(t.data@).add(opt_points(t.right))
}

/// The multiset of points of an optional subtree.
pub open spec fn opt_points(o: Option<Box<KDTree>>) -> Multiset<Seq<i32>>
    decreases o,
{
    match o {
        Option::None => Multiset::empty(),
        Option::Some(b) => tree_points(*b),
    }
}

/// Well-formedness of a tree of dimensionality `dim`: every node stores a
/// point of length `dim` and a cut axis below `dim`; every point of the left
/// subtree lies strictly below the node's coordinate on the node's cut axis
/// and every point of the right subtree lies at or above it (the partition
/// property); and each child's cut axis is the parent's plus one, modulo
/// `dim` (the axis-cycling property).
pub open spec fn wf(t: KDTree, dim: nat) -> bool
    decreases t,
{
    &&& t.data@.len() == dim
    &&& (t.cut_axis as nat) < dim
    &&& match t.left {
        Option::None => true,
        Option::Some(l) => {
            &&& wf(*l, dim)
            &&& l.cut_axis as int == ((t.cut_axis + 1) as int) % (dim as int)
            &&& forall|p: Seq<i32>|
                tree_points(*l).count(p) > 0 ==> p[t.cut_axis as int] < t.data@[t.cut_axis as int]
        },
    }
    &&& match t.right {
        Option::None => true,
        Option::Some(r) => {
            &&& wf(*r, dim)
            &&& r.cut_axis as int == ((t.cut_axis + 1) as int) % (dim as int)
            &&& forall|p: Seq<i32>|
                tree_points(*r).count(p) > 0 ==> p[t.cut_axis as int] >= t.data@[t.cut_axis as int]
        },
    }
}

/// A well-formed tree holds at least one point, and every stored point has
/// the tree's dimensionality.
pub proof fn lemma_tree_points_len(t: KDTree, dim: nat)
    requires
        wf(t, dim),
    ensures
        tree_points(t).len() >= 1,
        forall|p: Seq<i32>| tree_points(t).count(p) > 0 ==> p.len() == dim,
    decreases t,
{
    broadcast use vstd::multiset::group_multiset_axioms;

    match t.left {
        Option::None => {}
        Option::Some(l) => {
            lemma_tree_points_len(*l, dim);
        }
    }
    match t.right {
        Option::None => {}
        Option::Some(r) => {
            lemma_tree_points_len(*r, dim);
        }
    }
    assert forall|p: Seq<i32>| tree_points(t).count(p) > 0 implies p.len() == dim by {
        if opt_points(t.left).count(p) == 0 && opt_points(t.right).count(p) == 0 {
            assert(p == t.data@);
        }
    }
    assert(tree_points(t).len() == opt_points(t.left).len() + 1 + opt_points(t.right).len());
}

impl KDTree {
    /// Builds a tree over a non-empty batch of points of equal dimension.
    ///
    /// The tree is constructed recursively: the point with the upper-median
    /// coordinate on the cycling cut axis (collapsed to the leftmost of a
    /// run of equal coordinates) becomes the subtree's root. The root's cut
    /// axis is always `0`. The resulting tree is well-formed and stores
    /// exactly the multiset of input points.
    ///
    /// Fails with `Error::EmptyInput` exactly when `points` is empty.
    pub fn new(points: &[Vec<i32>]) -> (res: Result<KDTree, Error>)
        requires
            forall|i: int|
                0 <= i < points@.len() ==> (#[trigger] points@[i])@.len() == points@[0]@.len(),
            points@.len() > 0 ==> points@[0]@.len() >= 1,
        ensures
            match res {
                Result::Err(e) => e == Error::EmptyInput && points@.len() == 0,
                Result::Ok(t) => {
                    &&& points@.len() > 0
                    &&& wf(t, points@[0]@.len())
                    &&& t.cut_axis == 0
                    &&& tree_points(t) == views_of(points@).to_multiset()
                },
            },
    {
        broadcast use lemma_views_of_index;

        if points.len() == 0 {
            return Err(Error::EmptyInput);
        }
        let n = points.len();
        let mut data: Vec<Vec<i32>> = Vec::new();
        let mut i: usize = 0;
        while i < n
            invariant
                n == points@.len(),
                i <= n,
                data@.len() == i,
                forall|m: int| 0 <= m < i ==> (#[trigger] data@[m])@ == points@[m]@,
            decreases n - i,
        {
            let pref = vstd::slice::slice_index_get(points, i);
            data.push(clone_point(pref));
            i += 1;
        }
        let ghost dim: nat = points@[0]@.len();
        proof {
            assert forall|m: int| 0 <= m < n implies (#[trigger] data@[m])@.len() == dim by {
                assert(data@[m]@ == points@[m]@);
            }
        }
        let ghost d0: Seq<Vec<i32>> = data@;
        let root = Self::build_tree(&mut data, 0, n, 0, Ghost(dim));
        match root {
            Option::Some(b) => {
                proof {
                    assert(views_of(d0).subrange(0, n as int) =~= views_of(d0));
                    assert(views_of(d0) =~= views_of(points@));
                    assert(views_of(data@).subrange(0, n as int) =~= views_of(data@));
                }
                Ok(*b)
            }
            Option::None => {
                proof {
                    assert(false);
                }
                Err(Error::EmptyInput)
            }
        }
    }

    /// Builds the subtree over the window `[l, r)` of `data`, partitioning
    /// on `cut_axis` at this level and cycling the axis below.
    fn build_tree(
        data: &mut Vec<Vec<i32>>,
        l: usize,
        r: usize,
        cut_axis: usize,
        Ghost(dim): Ghost<nat>,
    ) -> (res: Option<Box<KDTree>>)
        requires
            l <= r <= old(data)@.len(),
            dim >= 1,
            cut_axis < dim,
            forall|m: int| l <= m < r ==> (#[trigger] old(data)@[m])@.len() == dim,
        ensures
            final(data)@.len() == old(data)@.len(),
            forall|m: int|
                0 <= m < old(data)@.len() && !(l <= m < r) ==> (#[trigger] final(data)@[m])@ == old(
                    data,
                )@[m]@,
            forall|m: int| l <= m < r ==> (#[trigger] final(data)@[m])@.len() == dim,
            views_of(final(data)@).subrange(l as int, r as int).to_multiset() == views_of(
                old(data)@,
            ).subrange(l as int, r as int).to_multiset(),
            res is Some <==> l < r,
            match res {
                Option::None => true,
                Option::Some(t) => {
                    &&& wf(*t, dim)
                    &&& t.cut_axis == cut_axis
                    &&& tree_points(*t) == views_of(final(data)@).subrange(
                        l as int,
                        r as int,
                    ).to_multiset()
                },
            },
        decreases r - l,
    {
        broadcast use lemma_views_of_index;
        broadcast use vstd::seq_lib::group_to_multiset_ensures;
        broadcast use vstd::multiset::group_multiset_axioms;

        if l >= r {
            return None;
        }
        if r - l == 1 {
            let leaf = KDTree {
                data: clone_point(&data[l]),
                cut_axis,
                left: None,
                right: None,
            };
            proof {
                assert(views_of(data@).subrange(l as int, r as int) =~= Seq::<
                    Seq<i32>,
                >::empty().push(data@[l as int]@));
                assert(opt_points(leaf.left) =~= Multiset::empty());
                assert(opt_points(leaf.right) =~= Multiset::empty());
                assert(Seq::<Seq<i32>>::empty().to_multiset().len() == 0);
                vstd::multiset::lemma_multiset_empty_len(Seq::<Seq<i32>>::empty().to_multiset());
                assert(tree_points(leaf) =~= views_of(data@).subrange(
                    l as int,
                    r as int,
                ).to_multiset());
            }
            return Some(Box::new(leaf));
        }
        let k = (r - l) / 2 + 1;
        let j0 = _quick_select(data, l, r - 1, k, cut_axis);
        let ghost dq: Seq<Vec<i32>> = data@;
        let p = collapse_ties(data, l, j0, cut_axis);
        let ghost dc: Seq<Vec<i32>> = data@;
        let ghost v: i32 = dc[p as int]@[cut_axis as int];
        proof {
            // the window keeps its multiset through selection and collapse
            lemma_window_chain(
                views_of(old(data)@),
                views_of(dq),
                l as int,
                r as int,
                l as int,
                r as int,
            );
            lemma_window_chain(
                views_of(dq),
                views_of(dc),
                l as int,
                r as int,
                l as int,
                j0 + 1,
            );
            // every point of the window still has the tree's dimensionality
            lemma_ms_pointwise_transfer(
                views_of(old(data)@).subrange(l as int, r as int),
                views_of(dc).subrange(l as int, r as int),
                |q: Seq<i32>| q.len() == dim,
            );
            assert forall|m: int| l <= m < r implies (#[trigger] dc[m])@.len() == dim by {
                assert(views_of(dc).subrange(l as int, r as int)[m - l] == dc[m]@);
            }
            // the window is partitioned around position p at value v
            assert(dc[j0 as int]@ == dq[j0 as int]@);
            assert(v == dq[j0 as int]@[cut_axis as int]);
            assert forall|m: int| p < m < r implies (#[trigger] dc[m])@[cut_axis as int] >= v by {
                if m > j0 {
                    assert(dc[m]@ == dq[m]@);
                }
            }
        }
        let root_data = clone_point(&data[p]);
        let dim_e = root_data.len();
        let next_axis = (cut_axis + 1) % dim_e;
        let left = Self::build_tree(data, l, p, next_axis, Ghost(dim));
        let ghost dl: Seq<Vec<i32>> = data@;
        let right = Self::build_tree(data, p + 1, r, next_axis, Ghost(dim));
        let ghost df: Seq<Vec<i32>> = data@;
        let node = KDTree { data: root_data, cut_axis, left, right };
        proof {
            // frames: the pivot and each half are untouched by the other calls
            assert(df[p as int]@ == dc[p as int]@);
            assert forall|m: int| l <= m < p implies (#[trigger] df[m])@ == dl[m]@ by {}
            assert forall|m: int| p < m < r implies (#[trigger] dl[m])@ == dc[m]@ by {}
            // the three pieces of the final window
            let wl = views_of(df).subrange(l as int, p as int);
            let wr = views_of(df).subrange(p + 1, r as int);
            let wfull = views_of(df).subrange(l as int, r as int);
            assert(wfull =~= (wl + Seq::<Seq<i32>>::empty().push(df[p as int]@)) + wr);
            lemma_multiset_commutative(wl, Seq::<Seq<i32>>::empty().push(df[p as int]@));
            lemma_multiset_commutative(wl + Seq::<Seq<i32>>::empty().push(df[p as int]@), wr);
            assert(Seq::<Seq<i32>>::empty().to_multiset().len() == 0);
            vstd::multiset::lemma_multiset_empty_len(Seq::<Seq<i32>>::empty().to_multiset());
            assert(wl =~= views_of(dl).subrange(l as int, p as int));
            assert(opt_points(node.left) == wl.to_multiset());
            assert(opt_points(node.right) == wr.to_multiset());
            assert(tree_points(node) =~= wfull.to_multiset());
            // the window multiset is preserved end to end
            lemma_window_chain(
                views_of(dc),
                views_of(dl),
                l as int,
                r as int,
                l as int,
                p as int,
            );
            lemma_window_chain(
                views_of(dl),
                views_of(df),
                l as int,
                r as int,
                p + 1,
                r as int,
            );
            // the partition property of the new node
            assert forall|m: int| l <= m < p implies (#[trigger] dc[m])@[cut_axis as int] < v by {}
            lemma_ms_pointwise_transfer(
                views_of(dc).subrange(l as int, p as int),
                wl,
                |q: Seq<i32>| q[cut_axis as int] < v,
            );
            assert forall|q: Seq<i32>| opt_points(node.left).count(q) > 0 implies
                q[cut_axis as int] < node.data@[cut_axis as int] by {
                assert(wl.contains(q));
                let i = choose|i: int| 0 <= i < wl.len() && wl[i] == q;
            }
            assert(views_of(dl).subrange(p + 1, r as int) =~= views_of(dc).subrange(
                p + 1,
                r as int,
            ));
            lemma_ms_pointwise_transfer(
                views_of(dc).subrange(p + 1, r as int),
                views_of(dl).subrange(p + 1, r as int),
                |q: Seq<i32>| q[cut_axis as int] >= v,
            );
            lemma_ms_pointwise_transfer(
                views_of(dl).subrange(p + 1, r as int),
                wr,
                |q: Seq<i32>| q[cut_axis as int] >= v,
            );
            assert forall|q: Seq<i32>| opt_points(node.right).count(q) > 0 implies
                q[cut_axis as int] >= node.data@[cut_axis as int] by {
                assert(wr.contains(q));
                let i = choose|i: int| 0 <= i < wr.len() && wr[i] == q;
            }
            assert(wf(node, dim));
        }
        Some(Box::new(node))
    }
}

impl KDTree {
    /// Inserts one point into the tree as a new leaf, walking left where the
    /// point lies strictly below the node's coordinate on the node's cut
    /// axis and right otherwise; the new leaf continues the axis cycle. The
    /// tree is never rebalanced.
    ///
    /// Fails with `Error::DimensionMismatch` exactly when the point's length
    /// differs from the tree's dimensionality; the tree is unchanged then.
    pub fn add(&mut self, point: &Vec<i32>) -> (res: Result<(), Error>)
        requires
            wf(*old(self), old(self).data@.len() as nat),
        ensures
            match res {
                Result::Err(e) => {
                    &&& e == Error::DimensionMismatch
                    &&& point@.len() != old(self).data@.len()
                    &&& *final(self) == *old(self)
                },
                Result::Ok(_) => {
                    &&& point@.len() == old(self).data@.len()
                    &&& wf(*final(self), old(self).data@.len() as nat)
                    &&& final(self).cut_axis == old(self).cut_axis
                    &&& final(self).data@ == old(self).data@
                    &&& tree_points(*final(self)) == tree_points(*old(self)).insert(point@)
                },
            },
    {
        if point.len() != self.data.len() {
            return Err(Error::DimensionMismatch);
        }
        let ghost dim: nat = self.data@.len() as nat;
        self.add_inner(point, Ghost(dim));
        Ok(())
    }

    /// The recursive descent of `add`.
    fn add_inner(&mut self, point: &Vec<i32>, Ghost(dim): Ghost<nat>)
        requires
            wf(*old(self), dim),
            point@.len() == dim,
        ensures
            wf(*final(self), dim),
            final(self).cut_axis == old(self).cut_axis,
            final(self).data@ == old(self).data@,
            tree_points(*final(self)) == tree_points(*old(self)).insert(point@),
        decreases *old(self),
    {
        broadcast use vstd::multiset::group_multiset_axioms;

        let go_left = point[self.cut_axis] < self.data[self.cut_axis];
        if go_left {
            match self.left {
                Option::Some(ref mut node) => {
                    node.add_inner(point, Ghost(dim));
                    proof {
                        assert(tree_points(*self) =~= tree_points(*old(self)).insert(point@));
                    }
                }
                Option::None => {
                    let len = self.data.len();
                    proof {
                        assert(self.cut_axis < len);
                    }
                    let next_axis = (self.cut_axis + 1) % len;
                    self.left = Some(
                        Box::new(
                            KDTree {
                                data: clone_point(point),
                                cut_axis: next_axis,
                                left: None,
                                right: None,
                            },
                        ),
                    );
                    proof {
                        let leaf = *self.left->Some_0;
                        assert(opt_points(leaf.left) =~= Multiset::empty());
                        assert(opt_points(leaf.right) =~= Multiset::empty());
                        assert(tree_points(leaf) =~= Multiset::empty().insert(point@));
                        assert(wf(leaf, dim));
                        assert(tree_points(*self) =~= tree_points(*old(self)).insert(point@));
                    }
                }
            }
        } else {
            match self.right {
                Option::Some(ref mut node) => {
                    node.add_inner(point, Ghost(dim));
                    proof {
                        assert(tree_points(*self) =~= tree_points(*old(self)).insert(point@));
                    }
                }
                Option::None => {
                    let len = self.data.len();
                    proof {
                        assert(self.cut_axis < len);
                    }
                    let next_axis = (self.cut_axis + 1) % len;
                    self.right = Some(
                        Box::new(
                            KDTree {
                                data: clone_point(point),
                                cut_axis: next_axis,
                                left: None,
                                right: None,
                            },
                        ),
                    );
                    proof {
                        let leaf = *self.right->Some_0;
                        assert(opt_points(leaf.left) =~= Multiset::empty());
                        assert(opt_points(leaf.right) =~= Multiset::empty());
                        assert(tree_points(leaf) =~= Multiset::empty().insert(point@));
                        assert(wf(leaf, dim));
                        assert(tree_points(*self) =~= tree_points(*old(self)).insert(point@));
                    }
                }
            }
        }
    }
}

impl KDTree {
    /// Returns the `k` nearest stored points to `point` by squared Euclidean
    /// distance, ordered from nearest to farthest: the result is exactly a
    /// best-k selection of the tree's points (no point left in the tree lies
    /// closer to the query than any returned point), found by a
    /// branch-and-bound traversal that descends into the query's side of
    /// each splitting plane first and skips the far side whenever the plane
    /// itself already lies at least as far away as the current worst
    /// candidate.
    ///
    /// Fails with `Error::InvalidK` when `k` is zero, with
    /// `Error::DimensionMismatch` when the query's length differs from the
    /// tree's dimensionality, and with `Error::InsufficientPoints` when the
    /// tree holds fewer than `k` points.
    pub fn search_knn(&self, point: &Vec<i32>, k: usize) -> (res: Result<Vec<Vec<i32>>, Error>)
        requires
            wf(*self, self.data@.len() as nat),
        ensures
            match res {
                Result::Err(e) => {
                    ||| (e == Error::InvalidK && k < 1)
                    ||| (e == Error::DimensionMismatch && k >= 1 && point@.len()
                        != self.data@.len())
                    ||| (e == Error::InsufficientPoints && k >= 1 && point@.len()
                        == self.data@.len() && tree_points(*self).len() < k)
                },
                Result::Ok(r) => {
                    &&& k >= 1
                    &&& point@.len() == self.data@.len()
                    &&& tree_points(*self).len() >= k
                    &&& r@.len() == k
                    &&& is_k_nearest(
                        views_of(r@).to_multiset(),
                        tree_points(*self),
                        point@,
                        k as int,
                    )
                    &&& forall|i: int, j: int|
                        0 <= i <= j < r@.len() ==> dist_sq((#[trigger] r@[i])@, point@) <= dist_sq(
                            (#[trigger] r@[j])@,
                            point@,
                        )
                },
            },
    {
        broadcast use vstd::multiset::group_multiset_axioms;
        broadcast use vstd::seq_lib::group_to_multiset_ensures;
        broadcast use lemma_views_of_index;

        if k < 1 {
            return Err(Error::InvalidK);
        }
        if point.len() != self.data.len() {
            return Err(Error::DimensionMismatch);
        }
        let ghost dim: nat = self.data@.len() as nat;
        let mut cands: Vec<Candidate> = Vec::new();
        self._search_knn(point, k, &mut cands, Ghost(dim));
        proof {
            assert(cand_points(Seq::<Candidate>::empty()).to_multiset().len() == 0);
            vstd::multiset::lemma_multiset_empty_len(
                cand_points(Seq::<Candidate>::empty()).to_multiset(),
            );
            assert(cand_points(Seq::<Candidate>::empty()).to_multiset().add(tree_points(*self))
                =~= tree_points(*self));
            assert(cand_points(cands@).to_multiset().len() == cands@.len());
        }
        if cands.len() < k {
            return Err(Error::InsufficientPoints);
        }
        let mut res: Vec<Vec<i32>> = Vec::new();
        let mut i: usize = 0;
        while i < cands.len()
            invariant
                i <= cands@.len(),
                res@.len() == i,
                forall|m: int| 0 <= m < i ==> (#[trigger] res@[m])@ == cands@[m].point@,
            decreases cands@.len() - i,
        {
            let cref = &cands[i];
            res.push(clone_point(&cref.point));
            i += 1;
        }
        proof {
            assert(views_of(res@) =~= cand_points(cands@));
            assert forall|a: int, b: int| 0 <= a <= b < res@.len() implies dist_sq(
                (#[trigger] res@[a])@,
                point@,
            ) <= dist_sq((#[trigger] res@[b])@, point@) by {
                assert(cands@[a].dist <= cands@[b].dist);
            }
        }
        Ok(res)
    }

    /// The recursive branch-and-bound descent of `search_knn`: visits this
    /// node and its subtrees, leaving the candidate set a best-k selection
    /// of what it held before joined with this subtree's points.
    fn _search_knn(
        &self,
        point: &Vec<i32>,
        k: usize,
        cands: &mut Vec<Candidate>,
        Ghost(dim): Ghost<nat>,
    )
        requires
            wf(*self, dim),
            point@.len() == dim,
            k >= 1,
            cands_wf(old(cands)@, point@, k as int),
        ensures
            cands_wf(final(cands)@, point@, k as int),
            final(cands)@.len() >= old(cands)@.len(),
            is_k_nearest(
                cand_points(final(cands)@).to_multiset(),
                cand_points(old(cands)@).to_multiset().add(tree_points(*self)),
                point@,
                k as int,
            ),
        decreases *self,
    {
        broadcast use vstd::multiset::group_multiset_axioms;
        broadcast use vstd::seq_lib::group_to_multiset_ensures;

        let ghost q: Seq<i32> = point@;
        let ghost c0: Multiset<Seq<i32>> = cand_points(cands@).to_multiset();
        let d = distance(&self.data, point);
        offer(cands, &self.data, d, k, Ghost(q));
        let ghost c1: Multiset<Seq<i32>> = cand_points(cands@).to_multiset();
        let ghost m1: Multiset<Seq<i32>> = c0.insert(self.data@);
        let axis = self.cut_axis;
        let go_left = point[axis] < self.data[axis];
        if go_left {
            match &self.left {
                Option::Some(node) => {
                    node._search_knn(point, k, cands, Ghost(dim));
                }
                Option::None => {}
            }
        } else {
            match &self.right {
                Option::Some(node) => {
                    node._search_knn(point, k, cands, Ghost(dim));
                }
                Option::None => {}
            }
        }
        let ghost c2: Multiset<Seq<i32>> = cand_points(cands@).to_multiset();
        let ghost near_pts: Multiset<Seq<i32>> = if go_left {
            opt_points(self.left)
        } else {
            opt_points(self.right)
        };
        let ghost far_pts: Multiset<Seq<i32>> = if go_left {
            opt_points(self.right)
        } else {
            opt_points(self.left)
        };
        proof {
            if (go_left && self.left is None) || (!go_left && self.right is None) {
                assert(cand_points(cands@).to_multiset().len() == cands@.len());
                lemma_k_nearest_refl(c2, q, k as int);
                vstd::multiset::lemma_multiset_empty_len(near_pts);
                assert(c2.add(near_pts) =~= c2);
                assert(is_k_nearest(c2, c1.add(near_pts), q, k as int));
            }
            lemma_k_nearest_compose(c1, m1, c2, near_pts, q, k as int);
        }
        let mut go_far: bool = cands.len() < k;
        if !go_far {
            let worst = cands[cands.len() - 1].dist;
            let di: i64 = point[axis] as i64 - self.data[axis] as i64;
            proof {
                assert(-0xFFFF_FFFF <= di as int <= 0xFFFF_FFFF);
                lemma_sq_bounds(di as int, 0xFFFF_FFFF);
            }
            let plane_sq: u128 = (di as i128 * di as i128) as u128;
            if plane_sq < worst {
                go_far = true;
            } else {
                proof {
                    let nv = self.data@[axis as int];
                    let qa = q[axis as int];
                    assert(plane_sq as int == (qa - nv) * (qa - nv));
                    assert(cand_points(cands@).to_multiset().len() == cands@.len());
                    assert(c2.len() == k);
                    assert forall|x: Seq<i32>, y: Seq<i32>|
                        c2.count(x) > 0 && far_pts.count(y) > 0 implies dist_sq(x, q) <= dist_sq(
                        y,
                        q,
                    ) by {
                        crate::knn::lemma_cand_dist_bound(cands@, q, k as int, x);
                        if go_left {
                            let fc = *self.right->Some_0;
                            lemma_tree_points_len(fc, dim);
                            assert(y.len() == dim);
                            assert(y[axis as int] >= nv);
                            lemma_dist_sq_ge_axis(y, q, axis as int);
                            assert(qa < nv);
                            lemma_sq_monotone(nv - qa, y[axis as int] - qa);
                            assert((y[axis as int] - qa) * (y[axis as int] - qa) == (qa - y[
                                axis as int
                            ]) * (qa - y[axis as int])) by (nonlinear_arith);
                            assert((nv - qa) * (nv - qa) == (qa - nv) * (qa - nv))
                                by (nonlinear_arith);
                            assert(dist_sq(y, q) >= plane_sq as int);
                        } else {
                            let fc = *self.left->Some_0;
                            lemma_tree_points_len(fc, dim);
                            assert(y.len() == dim);
                            assert(y[axis as int] < nv);
                            lemma_dist_sq_ge_axis(y, q, axis as int);
                            assert(qa >= nv);
                            lemma_sq_monotone(qa - nv, qa - y[axis as int]);
                            assert((y[axis as int] - qa) * (y[axis as int] - qa) == (qa - y[
                                axis as int
                            ]) * (qa - y[axis as int])) by (nonlinear_arith);
                            assert(dist_sq(y, q) >= plane_sq as int);
                        }
                        assert(dist_sq(x, q) <= worst as int);
                    }
                    lemma_k_nearest_skip(c2, far_pts, q, k as int);
                }
            }
        }
        if go_far {
            if go_left {
                match &self.right {
                    Option::Some(node) => {
                        node._search_knn(point, k, cands, Ghost(dim));
                    }
                    Option::None => {}
                }
            } else {
                match &self.left {
                    Option::Some(node) => {
                        node._search_knn(point, k, cands, Ghost(dim));
                    }
                    Option::None => {}
                }
            }
        }
        let ghost c3: Multiset<Seq<i32>> = cand_points(cands@).to_multiset();
        proof {
            if go_far {
                if (go_left && self.right is None) || (!go_left && self.left is None) {
                    assert(cand_points(cands@).to_multiset().len() == cands@.len());
                    lemma_k_nearest_refl(c3, q, k as int);
                    vstd::multiset::lemma_multiset_empty_len(far_pts);
                    assert(c3.add(far_pts) =~= c3);
                    assert(is_k_nearest(c3, c2.add(far_pts), q, k as int));
                }
            } else {
                assert(c3.add(far_pts) =~= c2.add(far_pts));
                assert(is_k_nearest(c3, c2.add(far_pts), q, k as int));
            }
            lemma_k_nearest_compose(c2, m1.add(near_pts), c3, far_pts, q, k as int);
            assert(m1.add(near_pts).add(far_pts) =~= c0.add(tree_points(*self)));
        }
    }
}

} // verus!
