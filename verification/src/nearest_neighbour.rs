use vstd::prelude::*;

use crate::kd_tree::{opt_all_valid, opt_points, opt_well_formed, KdTreeNode};
use crate::point::{dist_sq, Dimension, Point};
use crate::seq_util::lemma_swap_remove_to_multiset;
use std::cmp::Ordering;
use vstd::multiset::Multiset;

verus! {

broadcast use vstd::seq_lib::group_to_multiset_ensures;

/// A candidate found during a search: a point of the tree paired with its
/// squared Euclidean distance to the query point.
#[derive(Clone, Copy, Debug, PartialEq, Eq, PartialOrd, Ord, Structural)]
pub struct Neighbour {
    pub distance: i64,
    pub point: Point,
}

/// The candidate that a tree point contributes for a given query point.
pub open spec fn neighbour_of(target: Point, p: Point) -> Neighbour {
    Neighbour { distance: dist_sq(target, p) as i64, point: p }
}

/// The candidates that an optional subtree contributes for a query point.
pub open spec fn opt_neighbours(node_opt: Option<Box<KdTreeNode>>, target: Point) -> Multiset<
    Neighbour,
>
    decreases node_opt,
{
    match node_opt {
        None => Multiset::empty(),
        Some(node) => node_neighbours(*node, target),
    }
}

/// The candidates that a subtree contributes for a query point.
pub open spec fn node_neighbours(node: KdTreeNode, target: Point) -> Multiset<Neighbour>
    decreases node,
{
    opt_neighbours(node.left, target).add(opt_neighbours(node.right, target)).insert(
        neighbour_of(target, node.point),
    )
}

/// What it means for `sel` to be a best selection of at most `k` candidates
/// out of `pool`: it is drawn from the pool, it is as large as the pool and
/// `k` allow, and no candidate left behind is closer than a chosen one.
pub open spec fn is_best_k(
    sel: Multiset<Neighbour>,
    pool: Multiset<Neighbour>,
    k: int,
) -> bool {
    &&& sel.subset_of(pool)
    &&& sel.len() == vstd::math::min(k, pool.len() as int)
    &&& forall|a: Neighbour, b: Neighbour|
        sel.count(a) > 0 && pool.sub(sel).count(b) > 0 ==> a.distance <= b.distance
}

/// A selection drawn from a pool and as large as the pool is the pool.
proof fn lemma_subset_same_len(a: Multiset<Neighbour>, b: Multiset<Neighbour>)
    requires
        a.subset_of(b),
        a.len() == b.len(),
    ensures
        a == b,
{
    assert(b.sub(a).len() == 0);
    assert forall|v: Neighbour| a.count(v) == b.count(v) by {
        assert(b.sub(a).count(v) == 0);
    }
    assert(a =~= b);
}

/// A set that is not oversized is a best selection of itself.
proof fn lemma_is_best_k_refl(s: Multiset<Neighbour>, k: int)
    requires
        s.len() <= k,
    ensures
        is_best_k(s, s, k),
{
    assert(s.sub(s).len() == 0);
    assert forall|b: Neighbour| s.sub(s).count(b) == 0 by {}
}

/// A full selection stays best when joined with candidates that are all at
/// least as far as every chosen one.
proof fn lemma_is_best_k_skip(s: Multiset<Neighbour>, extra: Multiset<Neighbour>, k: int)
    requires
        s.len() == k,
        forall|a: Neighbour, b: Neighbour|
            s.count(a) > 0 && extra.count(b) > 0 ==> a.distance <= b.distance,
    ensures
        is_best_k(s, s.add(extra), k),
{
    assert(s.add(extra).sub(s) =~= extra);
}

/// Inserting into a selection that is not full keeps it a best selection of
/// the grown pool.
proof fn lemma_is_best_k_grow(s: Multiset<Neighbour>, n: Neighbour, k: int)
    requires
        s.len() < k,
    ensures
        is_best_k(s.insert(n), s.insert(n), k),
{
    lemma_is_best_k_refl(s.insert(n), k);
}

/// Evicting a worst candidate in favour of a strictly closer one yields a
/// best selection of the grown pool.
proof fn lemma_is_best_k_replace(s: Multiset<Neighbour>, w: Neighbour, n: Neighbour, k: int)
    requires
        s.len() == k,
        s.count(w) > 0,
        forall|x: Neighbour| s.count(x) > 0 ==> x.distance <= w.distance,
        n.distance < w.distance,
    ensures
        is_best_k(s.remove(w).insert(n), s.insert(n), k),
{
    let sel = s.remove(w).insert(n);
    let pool = s.insert(n);
    assert(w != n);
    assert(Multiset::singleton(w).subset_of(s));
    assert(s.remove(w).len() == k - 1);
    assert(sel.len() == k);
    assert(pool.sub(sel) =~= Multiset::singleton(w));
    assert forall|a: Neighbour, b: Neighbour|
        sel.count(a) > 0 && pool.sub(sel).count(b) > 0 implies a.distance <= b.distance by {
        assert(b == w);
        if a != n {
            assert(s.count(a) > 0);
        }
    }
}

/// A full selection stays best when the pool grows by one candidate at least
/// as far as every chosen one.
proof fn lemma_is_best_k_keep(s: Multiset<Neighbour>, n: Neighbour, k: int)
    requires
        s.len() == k,
        forall|x: Neighbour| s.count(x) > 0 ==> x.distance <= n.distance,
    ensures
        is_best_k(s, s.insert(n), k),
{
    lemma_is_best_k_skip(s, Multiset::singleton(n), k);
}

/// Selecting the best of one pool, then the best of that selection joined
/// with a second pool, selects the best of the two pools together.
proof fn lemma_is_best_k_compose(
    s1: Multiset<Neighbour>,
    pool1: Multiset<Neighbour>,
    s2: Multiset<Neighbour>,
    pool2: Multiset<Neighbour>,
    k: int,
)
    requires
        k >= 0,
        is_best_k(s1, pool1, k),
        is_best_k(s2, s1.add(pool2), k),
    ensures
        is_best_k(s2, pool1.add(pool2), k),
{
    let pool = pool1.add(pool2);
    assert forall|v: Neighbour| s2.count(v) <= pool.count(v) by {
        assert(s2.count(v) <= s1.add(pool2).count(v));
        assert(s1.count(v) <= pool1.count(v));
    }
    assert(pool1.sub(s1).len() == pool1.len() - s1.len());
    assert(s2.len() == vstd::math::min(k, pool.len() as int));
    assert forall|x: Neighbour, y: Neighbour|
        s2.count(x) > 0 && pool.sub(s2).count(y) > 0 implies x.distance <= y.distance by {
        if s1.add(pool2).sub(s2).count(y) > 0 {
            assert(x.distance <= y.distance);
        } else {
            assert(pool1.count(y) > s1.count(y));
            assert(pool1.sub(s1).count(y) > 0);
            if s1.len() < k {
                lemma_subset_same_len(s1, pool1);
                assert(false);
            }
            assert(s1.len() == k);
            assert(s2.len() == k);
            if s1.count(x) > 0 {
                assert(x.distance <= y.distance);
            } else {
                if s1.subset_of(s2) {
                    lemma_subset_same_len(s1, s2);
                    assert(false);
                }
                let z = choose|z: Neighbour| s1.count(z) > s2.count(z);
                assert(s1.add(pool2).sub(s2).count(z) > 0);
                assert(x.distance <= z.distance);
                assert(z.distance <= y.distance);
            }
        }
    }
}

/// The largest distance held by a sequence of candidates; zero when empty.
spec fn seq_worst(s: Seq<Neighbour>) -> int
    decreases s.len(),
{
    if s.len() == 0 {
        0
    } else if s.len() == 1 {
        s[0].distance as int
    } else {
        let rest = seq_worst(s.drop_last());
        if s.last().distance as int >= rest {
            s.last().distance as int
        } else {
            rest
        }
    }
}

/// Every candidate's distance is bounded by the worst of the sequence, and
/// some candidate attains it.
proof fn lemma_seq_worst(s: Seq<Neighbour>)
    requires
        s.len() > 0,
    ensures
        forall|i: int| 0 <= i < s.len() ==> s[i].distance <= seq_worst(s),
        exists|i: int| 0 <= i < s.len() && s[i].distance == seq_worst(s),
    decreases s.len(),
{
    if s.len() == 1 {
        assert(s[0].distance == seq_worst(s));
    } else {
        lemma_seq_worst(s.drop_last());
        assert forall|i: int| 0 <= i < s.len() implies s[i].distance <= seq_worst(s) by {
            if i < s.len() - 1 {
                assert(s.drop_last()[i] == s[i]);
            }
        }
        if s.last().distance as int >= seq_worst(s.drop_last()) {
            assert(s[s.len() - 1].distance == seq_worst(s));
        } else {
            let j = choose|j: int|
                0 <= j < s.drop_last().len() && s.drop_last()[j].distance == seq_worst(
                    s.drop_last(),
                );
            assert(s[j].distance == seq_worst(s));
        }
    }
}

/// A bounded candidate set: the current best points found so far, with the
/// worst (largest-distance) candidate available by a scan.
pub struct NeighbourHeap {
    entries: Vec<Neighbour>,
}

impl View for NeighbourHeap {
    type V = Multiset<Neighbour>;

    closed spec fn view(&self) -> Multiset<Neighbour> {
        self.entries@.to_multiset()
    }
}

impl NeighbourHeap {
    /// The largest distance held by the set; zero when the set is empty.
    pub closed spec fn worst(self) -> int {
        seq_worst(self.entries@)
    }

    /// Every held candidate's distance is bounded by the worst one, and some
    /// held candidate attains it.
    pub proof fn lemma_worst(self)
        requires
            self@.len() > 0,
        ensures
            forall|n: Neighbour| self@.count(n) > 0 ==> n.distance <= self.worst(),
            exists|n: Neighbour| self@.count(n) > 0 && n.distance == self.worst(),
    {
        lemma_seq_worst(self.entries@);
        assert forall|n: Neighbour| self@.count(n) > 0 implies n.distance <= self.worst() by {
            assert(self.entries@.contains(n));
        }
        let i = choose|i: int|
            0 <= i < self.entries@.len() && self.entries@[i].distance == seq_worst(self.entries@);
        assert(self.entries@.contains(self.entries@[i]));
        assert(self@.count(self.entries@[i]) > 0);
    }

    pub fn new() -> (heap: Self)
        ensures
            heap@ == Multiset::<Neighbour>::empty(),
    {
        let heap = NeighbourHeap { entries: Vec::new() };
        proof {
            assert(heap@ =~= Multiset::<Neighbour>::empty());
        }
        heap
    }

    pub fn from_vec(entries: Vec<Neighbour>) -> (heap: Self)
        ensures
            heap@ == entries@.to_multiset(),
    {
        NeighbourHeap { entries }
    }

    pub fn into_vec(self) -> (entries: Vec<Neighbour>)
        ensures
            entries@.to_multiset() == self@,
    {
        self.entries
    }

    pub fn len(&self) -> (n: usize)
        ensures
            n == self@.len(),
    {
        self.entries.len()
    }

    fn push(&mut self, neighbour: Neighbour)
        ensures
            final(self)@ == old(self)@.insert(neighbour),
    {
        self.entries.push(neighbour);
        proof {
            assert(self.entries@.to_multiset() =~= old(self).entries@.to_multiset().insert(
                neighbour,
            ));
        }
    }

    /// The worst distance currently held, found by a linear scan.
    fn worst_distance(&self) -> (d: i64)
        requires
            self@.len() > 0,
        ensures
            d as int == self.worst(),
    {
        let n = self.entries.len();
        let mut d = self.entries[0].distance;
        proof {
            assert(self.entries@.take(1).len() == 1);
            assert(self.entries@.take(1)[0] == self.entries@[0]);
        }
        for i in 1..n
            invariant
                1 <= i <= n,
                n == self.entries@.len(),
                d as int == seq_worst(self.entries@.take(i as int)),
        {
            proof {
                assert(self.entries@.take(i + 1).drop_last() =~= self.entries@.take(i as int));
                assert(self.entries@.take(i + 1).last() == self.entries@[i as int]);
            }
            if self.entries[i].distance > d {
                d = self.entries[i].distance;
            }
        }
        proof {
            assert(self.entries@.take(n as int) =~= self.entries@);
        }
        d
    }

    /// Removes and returns a candidate attaining the worst distance.
    fn pop_worst(&mut self) -> (r: Neighbour)
        requires
            old(self)@.len() > 0,
        ensures
            old(self)@.count(r) > 0,
            r.distance as int == old(self).worst(),
            forall|n: Neighbour| old(self)@.count(n) > 0 ==> n.distance <= r.distance,
            final(self)@ == old(self)@.remove(r),
    {
        let ghost s = self.entries@;
        let n = self.entries.len();
        let mut d = self.entries[0].distance;
        let mut wi: usize = 0;
        proof {
            assert(s.take(1).len() == 1);
            assert(s.take(1)[0] == s[0]);
        }
        for i in 1..n
            invariant
                1 <= i <= n,
                n == s.len(),
                self.entries@ == s,
                wi < i,
                d == s[wi as int].distance,
                d as int == seq_worst(s.take(i as int)),
        {
            proof {
                assert(s.take(i + 1).drop_last() =~= s.take(i as int));
                assert(s.take(i + 1).last() == s[i as int]);
            }
            if self.entries[i].distance > d {
                d = self.entries[i].distance;
                wi = i;
            }
        }
        proof {
            assert(s.take(n as int) =~= s);
            lemma_swap_remove_to_multiset(s, wi as int);
            assert(s.contains(s[wi as int]));
            self.lemma_worst();
        }
        self.entries.swap_remove(wi)
    }
}

/// Each candidate a subtree contributes stands for one of the subtree's
/// points, paired with that point's squared distance to the query point,
/// one candidate for each occurrence of the point.
pub proof fn lemma_opt_neighbours_points(node_opt: Option<Box<KdTreeNode>>, target: Point)
    ensures
        forall|n: Neighbour|
            opt_neighbours(node_opt, target).count(n) > 0 ==> n == neighbour_of(target, n.point)
                && opt_points(node_opt).contains(n.point),
        forall|p: Point|
            opt_neighbours(node_opt, target).count(neighbour_of(target, p)) == opt_points(
                node_opt,
            ).count(p),
        opt_neighbours(node_opt, target).len() == opt_points(node_opt).len(),
    decreases node_opt,
{
    match node_opt {
        None => {
        }
        Some(node) => {
            lemma_opt_neighbours_points(node.left, target);
            lemma_opt_neighbours_points(node.right, target);
            assert forall|n: Neighbour|
                opt_neighbours(node_opt, target).count(n) > 0 implies n == neighbour_of(
                target,
                n.point,
            ) && opt_points(node_opt).contains(n.point) by {
                if opt_neighbours(node.left, target).count(n) > 0 {
                    assert(node.points_ms().count(n.point) > 0);
                } else if opt_neighbours(node.right, target).count(n) > 0 {
                    assert(node.points_ms().count(n.point) > 0);
                } else {
                    assert(n == neighbour_of(target, node.point));
                    assert(node.points_ms().count(node.point) > 0);
                }
            }
            assert forall|p: Point|
                opt_neighbours(node_opt, target).count(neighbour_of(target, p)) == opt_points(
                    node_opt,
                ).count(p) by {
                if node.point == p {
                    assert(neighbour_of(target, node.point) == neighbour_of(target, p));
                } else {
                    assert(neighbour_of(target, node.point) != neighbour_of(target, p));
                }
            }
        }
    }
}

/// Every candidate of a subtree whose points all lie at least a given
/// squared distance from the query point is itself at least that far.
proof fn lemma_far_side_bound(node_opt: Option<Box<KdTreeNode>>, target: Point, bound: int)
    requires
        target.valid(),
        opt_all_valid(node_opt),
        forall|p: Point| opt_points(node_opt).contains(p) ==> dist_sq(target, p) >= bound,
    ensures
        forall|n: Neighbour| opt_neighbours(node_opt, target).count(n) > 0 ==> n.distance >= bound,
{
    lemma_opt_neighbours_points(node_opt, target);
    assert forall|n: Neighbour|
        opt_neighbours(node_opt, target).count(n) > 0 implies n.distance >= bound by {
        assert(n == neighbour_of(target, n.point));
        assert(opt_points(node_opt).contains(n.point));
        assert(n.point.valid());
        crate::point::lemma_dist_sq_bounds(target, n.point);
    }
}

/// Whether a candidate at the given distance could still improve the set:
/// either the set is not full, or the candidate beats the current worst.
pub fn is_potential_nearer_neighbour(
    distance: i64,
    k_nearest_neighbours: &NeighbourHeap,
    k: usize,
) -> (r: bool)
    ensures
        r <==> (k_nearest_neighbours@.len() < k || (k_nearest_neighbours@.len() > 0 && (
        distance as int) < k_nearest_neighbours.worst())),
{
    if k_nearest_neighbours.len() < k {
        true
    } else if k_nearest_neighbours.len() > 0 {
        distance < k_nearest_neighbours.worst_distance()
    } else {
        false
    }
}

/// Depth-first branch-and-bound search: visits the near side of each node
/// first, descends into the far side only when it could still hold a closer
/// point than the current worst candidate, and finally admits the node's own
/// point. The candidate set ends up a best selection of at most k
/// candidates out of what it held before plus everything the subtree holds.
pub fn find_k_nearest_neighbours(
    curr_node: &Option<Box<KdTreeNode>>,
    given_point: &Point,
    curr_dimension: &Dimension,
    k_nearest_neighbours: &mut NeighbourHeap,
    k: usize,
)
    requires
        k >= 1,
        given_point.valid(),
        opt_well_formed(*curr_node, *curr_dimension),
        opt_all_valid(*curr_node),
        old(k_nearest_neighbours)@.len() <= k,
    ensures
        is_best_k(
            final(k_nearest_neighbours)@,
            old(k_nearest_neighbours)@.add(opt_neighbours(*curr_node, *given_point)),
            k as int,
        ),
        final(k_nearest_neighbours)@.len() <= k,
    decreases *curr_node,
{
    let ghost h0 = k_nearest_neighbours@;
    let ghost target = *given_point;
    let ghost dim = *curr_dimension;
    if let Some(x) = curr_node {
        let ghost left_nbs = opt_neighbours(x.left, target);
        let ghost right_nbs = opt_neighbours(x.right, target);
        let curr_point = x.point;
        proof {
            assert(x.points_ms().count(curr_point) > 0);
            assert(curr_point.valid());
            assert forall|p: Point| opt_points(x.left).contains(p) implies p.valid() by {
                assert(x.points_ms().count(p) > 0);
            }
            assert forall|p: Point| opt_points(x.right).contains(p) implies p.valid() by {
                assert(x.points_ms().count(p) > 0);
            }
        }
        let node_c = curr_point.get_dimension(curr_dimension);
        let target_c = given_point.get_dimension(curr_dimension);
        let axial = if target_c >= node_c {
            target_c - node_c
        } else {
            node_c - target_c
        };
        proof {
            crate::point::lemma_square_bound(axial as int, crate::point::COORD_ONE as int);
        }
        let axial_sq = axial * axial;
        let next_dimension = curr_dimension.turn();

        match given_point.compare_dimension(&curr_point, curr_dimension) {
            Ordering::Equal | Ordering::Greater => {
                find_k_nearest_neighbours(
                    &x.right,
                    given_point,
                    &next_dimension,
                    k_nearest_neighbours,
                    k,
                );
                let ghost h1 = k_nearest_neighbours@;
                if is_potential_nearer_neighbour(axial_sq, k_nearest_neighbours, k) {
                    find_k_nearest_neighbours(
                        &x.left,
                        given_point,
                        &next_dimension,
                        k_nearest_neighbours,
                        k,
                    );
                    proof {
                        lemma_is_best_k_compose(
                            h1,
                            h0.add(right_nbs),
                            k_nearest_neighbours@,
                            left_nbs,
                            k as int,
                        );
                    }
                } else {
                    proof {
                        k_nearest_neighbours.lemma_worst();
                        assert forall|p: Point| opt_points(x.left).contains(p) implies dist_sq(
                            target,
                            p,
                        ) >= axial_sq by {
                            crate::point::lemma_dist_sq_axis_bound(target, p, dim);
                            crate::point::lemma_square_monotonic(
                                axial as int,
                                target_c - p.spec_dimension(dim),
                            );
                        }
                        lemma_far_side_bound(x.left, target, axial_sq as int);
                        assert(h1.len() == k);
                        lemma_is_best_k_skip(h1, left_nbs, k as int);
                        lemma_is_best_k_compose(h1, h0.add(right_nbs), h1, left_nbs, k as int);
                    }
                }
                proof {
                    assert(h0.add(right_nbs).add(left_nbs) =~= h0.add(left_nbs.add(right_nbs)));
                }
            }
            Ordering::Less => {
                find_k_nearest_neighbours(
                    &x.left,
                    given_point,
                    &next_dimension,
                    k_nearest_neighbours,
                    k,
                );
                let ghost h1 = k_nearest_neighbours@;
                if is_potential_nearer_neighbour(axial_sq, k_nearest_neighbours, k) {
                    find_k_nearest_neighbours(
                        &x.right,
                        given_point,
                        &next_dimension,
                        k_nearest_neighbours,
                        k,
                    );
                    proof {
                        lemma_is_best_k_compose(
                            h1,
                            h0.add(left_nbs),
                            k_nearest_neighbours@,
                            right_nbs,
                            k as int,
                        );
                    }
                } else {
                    proof {
                        k_nearest_neighbours.lemma_worst();
                        assert forall|p: Point| opt_points(x.right).contains(p) implies dist_sq(
                            target,
                            p,
                        ) >= axial_sq by {
                            crate::point::lemma_dist_sq_axis_bound(target, p, dim);
                            crate::point::lemma_square_monotonic(
                                axial as int,
                                p.spec_dimension(dim) - target_c,
                            );
                        }
                        lemma_far_side_bound(x.right, target, axial_sq as int);
                        assert(h1.len() == k);
                        lemma_is_best_k_skip(h1, right_nbs, k as int);
                        lemma_is_best_k_compose(h1, h0.add(left_nbs), h1, right_nbs, k as int);
                    }
                }
                proof {
                    assert(h0.add(left_nbs).add(right_nbs) =~= h0.add(left_nbs.add(right_nbs)));
                }
            }
        }
        let ghost h2 = k_nearest_neighbours@;
        let ghost children_pool = h0.add(left_nbs.add(right_nbs));
        assert(is_best_k(h2, children_pool, k as int));

        let curr_distance = given_point.distance_to(&curr_point);
        let ghost nb = neighbour_of(target, curr_point);
        proof {
            assert(nb.distance == curr_distance);
        }
        if is_potential_nearer_neighbour(curr_distance, k_nearest_neighbours, k) {
            if k_nearest_neighbours.len() >= k {
                let _worst = k_nearest_neighbours.pop_worst();
                k_nearest_neighbours.push(Neighbour { distance: curr_distance, point: curr_point });
                proof {
                    assert(h2.len() == k);
                    lemma_is_best_k_replace(h2, _worst, nb, k as int);
                    lemma_is_best_k_compose(
                        h2,
                        children_pool,
                        k_nearest_neighbours@,
                        Multiset::singleton(nb),
                        k as int,
                    );
                }
            } else {
                k_nearest_neighbours.push(Neighbour { distance: curr_distance, point: curr_point });
                proof {
                    lemma_is_best_k_grow(h2, nb, k as int);
                    lemma_is_best_k_compose(
                        h2,
                        children_pool,
                        k_nearest_neighbours@,
                        Multiset::singleton(nb),
                        k as int,
                    );
                }
            }
        } else {
            proof {
                k_nearest_neighbours.lemma_worst();
                assert(h2.len() == k);
                lemma_is_best_k_keep(h2, nb, k as int);
                lemma_is_best_k_compose(
                    h2,
                    children_pool,
                    h2,
                    Multiset::singleton(nb),
                    k as int,
                );
            }
        }
        proof {
            assert(children_pool.add(Multiset::singleton(nb)) =~= h0.add(
                opt_neighbours(*curr_node, target),
            ));
        }
    } else {
        proof {
            lemma_is_best_k_refl(h0, k as int);
            assert(h0.add(opt_neighbours(*curr_node, target)) =~= h0);
        }
    }
}

/// Whether a candidate lies at or within a given squared distance.
pub open spec fn within(d: int) -> spec_fn(Neighbour) -> bool {
    |n: Neighbour| n.distance <= d
}

/// A best selection holds, at every distance threshold, as many candidates
/// as the pool offers there, up to its own size.
proof fn lemma_best_k_filter_len(
    sel: Multiset<Neighbour>,
    pool: Multiset<Neighbour>,
    k: int,
    d: int,
)
    requires
        is_best_k(sel, pool, k),
    ensures
        sel.filter(within(d)).len() == vstd::math::min(
            pool.filter(within(d)).len() as int,
            sel.len() as int,
        ),
{
    let f = pool.filter(within(d));
    let sf = sel.filter(within(d));
    if exists|y: Neighbour| pool.sub(sel).count(y) > 0 && y.distance <= d {
        let y = choose|y: Neighbour| pool.sub(sel).count(y) > 0 && y.distance <= d;
        assert forall|v: Neighbour| sf.count(v) == sel.count(v) by {
            if sel.count(v) > 0 {
                assert(v.distance <= y.distance);
            }
        }
        assert(sf =~= sel);
        assert forall|v: Neighbour| sel.count(v) <= f.count(v) by {
            if sel.count(v) > 0 {
                assert(v.distance <= y.distance);
                assert(f.count(v) == pool.count(v));
            }
        }
        assert(f.sub(sel).len() == f.len() - sel.len());
    } else {
        assert forall|v: Neighbour| f.count(v) == sf.count(v) by {
            if v.distance <= d {
                assert(pool.sub(sel).count(v) == 0);
                assert(pool.count(v) <= sel.count(v));
            }
        }
        assert(f =~= sf);
        assert forall|v: Neighbour| sf.count(v) <= sel.count(v) by {}
        assert(sel.sub(sf).len() == sel.len() - sf.len());
    }
}

/// Law: up to ties, a best selection is unique. Any two best selections of
/// at most k candidates out of one pool hold the same multiset of
/// distances: at every distance threshold they hold equally many
/// candidates. In particular, searching the same tree twice with the same
/// target and count, or comparing a tree search against an exhaustive scan
/// of the same points, yields the same distances.
pub proof fn lemma_best_k_distances_agree(
    s1: Multiset<Neighbour>,
    s2: Multiset<Neighbour>,
    pool: Multiset<Neighbour>,
    k: int,
    d: int,
)
    requires
        is_best_k(s1, pool, k),
        is_best_k(s2, pool, k),
    ensures
        s1.filter(within(d)).len() == s2.filter(within(d)).len(),
{
    lemma_best_k_filter_len(s1, pool, k, d);
    lemma_best_k_filter_len(s2, pool, k, d);
}

/// Law: a best selection out of a pool no larger than k is the whole pool.
/// Querying with k at or above the number of points returns exactly all of
/// them.
pub proof fn lemma_best_k_returns_all(
    sel: Multiset<Neighbour>,
    pool: Multiset<Neighbour>,
    k: int,
)
    requires
        is_best_k(sel, pool, k),
        pool.len() <= k,
    ensures
        sel == pool,
{
    lemma_subset_same_len(sel, pool);
}

/// Law: a leaf node queried alone returns exactly its point, paired with
/// the squared Euclidean distance from the query point.
pub proof fn lemma_single_point_tree(
    sel: Multiset<Neighbour>,
    node: KdTreeNode,
    target: Point,
    k: int,
)
    requires
        node.left is None,
        node.right is None,
        k >= 1,
        is_best_k(sel, node_neighbours(node, target), k),
    ensures
        sel == Multiset::<Neighbour>::empty().insert(neighbour_of(target, node.point)),
{
    assert(node_neighbours(node, target) =~= Multiset::<Neighbour>::empty().insert(
        neighbour_of(target, node.point),
    ));
    lemma_best_k_returns_all(sel, node_neighbours(node, target), k);
}

/// Law: a best selection out of an empty pool is empty. Searching an absent
/// tree with an empty candidate set returns an empty result for any k.
pub proof fn lemma_best_k_of_empty(sel: Multiset<Neighbour>, k: int)
    requires
        k >= 0,
        is_best_k(sel, Multiset::<Neighbour>::empty(), k),
    ensures
        sel == Multiset::<Neighbour>::empty(),
{
    vstd::multiset::lemma_multiset_empty_len(sel);
    assert(sel =~= Multiset::<Neighbour>::empty());
}

} // verus!
