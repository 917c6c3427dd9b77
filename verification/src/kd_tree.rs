use vstd::prelude::*;

use crate::point::{Dimension, Point, COORD_ONE};
use vstd::multiset::Multiset;
use crate::seq_util::{lemma_filter_to_multiset_count, lemma_swap_remove_to_multiset};
use std::cmp::Ordering;

verus! {

broadcast use vstd::seq_lib::group_to_multiset_ensures;

/// A node of the kd-tree: a pivot point and up to two owned child subtrees.
#[derive(Debug, PartialEq)]
pub struct KdTreeNode {
    pub point: Point,
    pub left: Option<Box<KdTreeNode>>,
    pub right: Option<Box<KdTreeNode>>,
}

/// The points held by an optional subtree.
pub open spec fn opt_points(node_opt: Option<Box<KdTreeNode>>) -> Multiset<Point>
    decreases node_opt,
{
    match node_opt {
        None => Multiset::empty(),
        Some(node) => node.points_ms(),
    }
}

/// Whether an optional subtree satisfies the partition and axis-cycling
/// invariants for the given axis.
pub open spec fn opt_well_formed(node_opt: Option<Box<KdTreeNode>>, dimension: Dimension) -> bool
    decreases node_opt,
{
    match node_opt {
        None => true,
        Some(node) => node.well_formed(dimension),
    }
}

/// Whether every point of an optional subtree is clamped to the unit cube.
pub open spec fn opt_all_valid(node_opt: Option<Box<KdTreeNode>>) -> bool {
    forall|p: Point| opt_points(node_opt).contains(p) ==> p.valid()
}

impl KdTreeNode {
    /// The points held by this subtree: the pivot and those of both children.
    pub open spec fn points_ms(self) -> Multiset<Point>
        decreases self,
    {
        opt_points(self.left).add(opt_points(self.right)).insert(self.point)
    }

    /// The partition invariant, recursively at every depth: at a node built
    /// on axis A, every point of the left subtree lies strictly below the
    /// pivot's axis-A coordinate, every point of the right subtree lies at or
    /// above it, and both children were built on the following axis.
    pub open spec fn well_formed(self, dimension: Dimension) -> bool
        decreases self,
    {
        &&& forall|p: Point|
            opt_points(self.left).contains(p) ==> p.spec_dimension(dimension)
                < self.point.spec_dimension(dimension)
        &&& forall|p: Point|
            opt_points(self.right).contains(p) ==> p.spec_dimension(dimension)
                >= self.point.spec_dimension(dimension)
        &&& opt_well_formed(self.left, dimension.spec_turn())
        &&& opt_well_formed(self.right, dimension.spec_turn())
    }

    /// Whether every point of this subtree is clamped to the unit cube.
    pub open spec fn all_valid(self) -> bool {
        forall|p: Point| self.points_ms().contains(p) ==> p.valid()
    }

    /// The sum of the coordinates of this subtree's points on one axis.
    pub open spec fn coord_total(self, dimension: Dimension) -> int
        decreases self,
    {
        opt_coord_total(self.left, dimension) + opt_coord_total(self.right, dimension)
            + self.point.spec_dimension(dimension)
    }

    /// The rounded-down mean of this subtree's coordinates on one axis:
    /// what the pivot of the subtree was chosen against.
    pub open spec fn subtree_mean(self, dimension: Dimension) -> int {
        self.coord_total(dimension) / (self.points_ms().len() as int)
    }

    /// The pivot heuristic, recursively at every depth: wherever a node has
    /// a child, its own point lies at least as close to the mean of the
    /// subtree's coordinates on the node's axis as every point the subtree
    /// holds, and both children obey the rule on the following axis.
    pub open spec fn pivot_closest_to_mean(self, dimension: Dimension) -> bool
        decreases self,
    {
        &&& ((self.left is Some || self.right is Some) ==> forall|p: Point|
            self.points_ms().contains(p) ==> mean_diff(
                self.point,
                dimension,
                self.subtree_mean(dimension),
            ) <= mean_diff(p, dimension, self.subtree_mean(dimension)))
        &&& (match self.left {
            Some(node) => node.pivot_closest_to_mean(dimension.spec_turn()),
            None => true,
        })
        &&& (match self.right {
            Some(node) => node.pivot_closest_to_mean(dimension.spec_turn()),
            None => true,
        })
    }

    pub fn new(point: Point) -> (node: KdTreeNode)
        ensures
            node == (KdTreeNode { point, left: None, right: None }),
    {
        KdTreeNode { point, left: None, right: None }
    }

    /// Constructs a kd-tree from a vector of `Point` objects, starting the
    /// axis cycle at X. An empty input yields an absent tree, a distinct
    /// state rather than a sentinel point.
    pub fn construct_tree(points: Vec<Point>) -> (tree: Option<Box<KdTreeNode>>)
        requires
            all_valid_seq(points@),
        ensures
            tree is Some <==> points@.len() > 0,
            (match tree {
                Some(t) => {
                    &&& t.points_ms() == points@.to_multiset()
                    &&& t.well_formed(Dimension::X)
                    &&& t.all_valid()
                    &&& t.pivot_closest_to_mean(Dimension::X)
                    &&& t.coord_total(Dimension::X) == coord_sum(points@, Dimension::X)
                    &&& t.coord_total(Dimension::Y) == coord_sum(points@, Dimension::Y)
                    &&& t.coord_total(Dimension::Z) == coord_sum(points@, Dimension::Z)
                    &&& (points@.len() == 1 ==> *t == (KdTreeNode {
                        point: points@[0],
                        left: None,
                        right: None,
                    }))
                    &&& (points@.len() >= 2 ==> t.point == points@[pivot_index(
                        points@,
                        Dimension::X,
                        spec_mean(points@, Dimension::X),
                    )])
                },
                None => true,
            }),
    {
        construct_kd_tree(points, &Dimension::X)
    }
}

/// The sum of the coordinates of an optional subtree's points on one axis.
pub open spec fn opt_coord_total(node_opt: Option<Box<KdTreeNode>>, dimension: Dimension) -> int
    decreases node_opt,
{
    match node_opt {
        None => 0,
        Some(node) => node.coord_total(dimension),
    }
}

/// Every coordinate of a sequence of points is valid.
pub open spec fn all_valid_seq(s: Seq<Point>) -> bool {
    forall|i: int| 0 <= i < s.len() ==> s[i].valid()
}

/// The sum of the coordinates of a point sequence on one axis.
pub open spec fn coord_sum(s: Seq<Point>, dimension: Dimension) -> int
    decreases s.len(),
{
    if s.len() == 0 {
        0
    } else {
        coord_sum(s.drop_last(), dimension) + s.last().spec_dimension(dimension)
    }
}

/// The arithmetic mean of the coordinates on one axis, rounded down;
/// zero for an empty sequence.
pub open spec fn spec_mean(s: Seq<Point>, dimension: Dimension) -> int {
    if s.len() == 0 {
        0
    } else {
        coord_sum(s, dimension) / (s.len() as int)
    }
}

pub fn calculate_mean(points: &Vec<Point>, curr_dimension: &Dimension) -> (mean: i64)
    requires
        all_valid_seq(points@),
    ensures
        mean == spec_mean(points@, *curr_dimension),
        0 <= mean <= COORD_ONE,
{
    if points.is_empty() {
        return 0;
    }
    let mut acc: u128 = 0;
    let n = points.len();
    for i in 0..n
        invariant
            n == points@.len(),
            all_valid_seq(points@),
            acc == coord_sum(points@.take(i as int), *curr_dimension),
            acc as int <= i as int * (COORD_ONE as int),
    {
        proof {
            assert(points@.take(i + 1).drop_last() =~= points@.take(i as int));
            assert(points@.take(i + 1).last() == points@[i as int]);
            assert(points@[i as int].valid());
            vstd::arithmetic::mul::lemma_mul_inequality(i as int, usize::MAX as int, COORD_ONE as int);
            assert((i as int + 1) * (COORD_ONE as int) == i as int * (COORD_ONE as int) + (
            COORD_ONE as int)) by (nonlinear_arith);
        }
        acc = acc + points[i].get_dimension(curr_dimension) as u128;
    }
    proof {
        assert(points@.take(n as int) =~= points@);
        vstd::arithmetic::div_mod::lemma_div_is_ordered(
            acc as int,
            n as int * COORD_ONE as int,
            n as int,
        );
        vstd::arithmetic::div_mod::lemma_div_multiples_vanish(COORD_ONE as int, n as int);
        vstd::arithmetic::div_mod::lemma_div_pos_is_pos(acc as int, n as int);
    }
    (acc / (n as u128)) as i64
}

/// Removing one point takes exactly its coordinate out of the sum.
proof fn lemma_coord_sum_remove(s: Seq<Point>, dimension: Dimension, i: int)
    requires
        0 <= i < s.len(),
    ensures
        coord_sum(s, dimension) == coord_sum(s.remove(i), dimension) + s[i].spec_dimension(
            dimension,
        ),
    decreases s.len(),
{
    if i == s.len() - 1 {
        assert(s.remove(i) =~= s.drop_last());
    } else {
        lemma_coord_sum_remove(s.drop_last(), dimension, i);
        assert(s.remove(i).drop_last() =~= s.drop_last().remove(i));
        assert(s.remove(i).last() == s.last());
    }
}

/// The coordinate sum does not depend on the order of the points: two
/// sequences holding the same multiset of points have the same sum.
proof fn lemma_coord_sum_permutation(s1: Seq<Point>, s2: Seq<Point>, dimension: Dimension)
    requires
        s1.to_multiset() == s2.to_multiset(),
    ensures
        coord_sum(s1, dimension) == coord_sum(s2, dimension),
    decreases s1.len(),
{
    if s1.len() == 0 {
        assert(s2.to_multiset().len() == 0);
    } else {
        let x = s1.last();
        assert(s1.drop_last().push(x) =~= s1);
        assert(s1.drop_last().push(x).to_multiset() =~= s1.drop_last().to_multiset().insert(x));
        assert(s2.to_multiset().count(x) > 0);
        assert(s2.contains(x));
        let i = choose|i: int| 0 <= i < s2.len() && s2[i] == x;
        lemma_coord_sum_remove(s2, dimension, i);
        assert(s2.remove(i).to_multiset() == s2.to_multiset().remove(x));
        assert(s1.drop_last().to_multiset() =~= s2.remove(i).to_multiset());
        lemma_coord_sum_permutation(s1.drop_last(), s2.remove(i), dimension);
    }
}

/// Concatenating two sequences adds their coordinate sums.
proof fn lemma_coord_sum_concat(a: Seq<Point>, b: Seq<Point>, dimension: Dimension)
    ensures
        coord_sum(a + b, dimension) == coord_sum(a, dimension) + coord_sum(b, dimension),
    decreases b.len(),
{
    if b.len() == 0 {
        assert(a + b =~= a);
    } else {
        lemma_coord_sum_concat(a, b.drop_last(), dimension);
        assert((a + b).drop_last() =~= a + b.drop_last());
        assert((a + b).last() == b.last());
    }
}

/// How far a point's coordinate on one axis lies from a given value.
pub open spec fn mean_diff(p: Point, dimension: Dimension, mean: int) -> int {
    vstd::math::abs(p.spec_dimension(dimension) - mean) as int
}

/// The index of the first point whose coordinate on the given axis is
/// closest to the given value: later points replace the running choice only
/// when strictly closer.
pub open spec fn pivot_index(s: Seq<Point>, dimension: Dimension, mean: int) -> int
    decreases s.len(),
{
    if s.len() <= 1 {
        0
    } else {
        let prev = pivot_index(s.drop_last(), dimension, mean);
        if mean_diff(s.last(), dimension, mean) < mean_diff(s[prev], dimension, mean) {
            s.len() - 1
        } else {
            prev
        }
    }
}

/// The index of the first closest point always lies within the sequence.
pub proof fn lemma_pivot_index_in_range(s: Seq<Point>, dimension: Dimension, mean: int)
    requires
        s.len() >= 1,
    ensures
        0 <= pivot_index(s, dimension, mean) < s.len(),
    decreases s.len(),
{
    if s.len() > 1 {
        lemma_pivot_index_in_range(s.drop_last(), dimension, mean);
    }
}

/// The point at the pivot index lies at least as close to the given value
/// as every point of the sequence.
pub proof fn lemma_pivot_index_is_min(s: Seq<Point>, dimension: Dimension, mean: int)
    requires
        s.len() >= 1,
    ensures
        forall|j: int|
            0 <= j < s.len() ==> mean_diff(s[pivot_index(s, dimension, mean)], dimension, mean)
                <= mean_diff(#[trigger] s[j], dimension, mean),
    decreases s.len(),
{
    if s.len() > 1 {
        lemma_pivot_index_in_range(s.drop_last(), dimension, mean);
        lemma_pivot_index_is_min(s.drop_last(), dimension, mean);
        let prev = pivot_index(s.drop_last(), dimension, mean);
        assert(s.drop_last()[prev] == s[prev]);
        assert forall|j: int|
            0 <= j < s.len() implies mean_diff(
            s[pivot_index(s, dimension, mean)],
            dimension,
            mean,
        ) <= mean_diff(#[trigger] s[j], dimension, mean) by {
            if j < s.len() - 1 {
                assert(s.drop_last()[j] == s[j]);
            }
        }
    }
}

/// We calculate the mean and pick the point whose coordinate on the current
/// axis is the closest to it, removing it from the set by swapping the last
/// point into its place.
pub fn get_pivot(points: &mut Vec<Point>, curr_dimension: &Dimension) -> (pivot: Point)
    requires
        old(points)@.len() >= 1,
        all_valid_seq(old(points)@),
    ensures
        ({
            let s = old(points)@;
            let m = spec_mean(s, *curr_dimension);
            let pi = pivot_index(s, *curr_dimension, m);
            &&& pivot == s[pi]
            &&& final(points)@ == s.update(pi, s.last()).drop_last()
            &&& final(points)@.to_multiset() == s.to_multiset().remove(pivot)
            &&& all_valid_seq(final(points)@)
        }),
{
    let ghost s = points@;
    let mean = calculate_mean(points, curr_dimension);
    let mut min_diff: i64 = COORD_ONE + 1;
    let mut mean_index: usize = 0;
    let n = points.len();
    for i in 0..n
        invariant
            n == points@.len(),
            points@ == s,
            all_valid_seq(s),
            0 <= mean <= COORD_ONE,
            mean == spec_mean(s, *curr_dimension),
            i == 0 ==> min_diff == COORD_ONE + 1 && mean_index == 0,
            i > 0 ==> {
                &&& mean_index == pivot_index(s.take(i as int), *curr_dimension, mean as int)
                &&& mean_index < i
                &&& min_diff == mean_diff(s[mean_index as int], *curr_dimension, mean as int)
            },
    {
        proof {
            assert(s.take(i + 1).drop_last() =~= s.take(i as int));
            assert(s.take(i + 1).last() == s[i as int]);
            if i > 0 {
                lemma_pivot_index_in_range(s.take(i as int), *curr_dimension, mean as int);
            }
        }
        let coordinate = points[i].get_dimension(curr_dimension);
        let diff = if coordinate >= mean {
            coordinate - mean
        } else {
            mean - coordinate
        };
        if diff < min_diff {
            min_diff = diff;
            mean_index = i;
        }
    }
    proof {
        assert(s.take(n as int) =~= s);
        lemma_swap_remove_to_multiset(s, mean_index as int);
    }
    let pivot = points.swap_remove(mean_index);
    proof {
        assert forall|j: int| 0 <= j < points@.len() implies points@[j].valid() by {
            assert(points@[j] == s.update(mean_index as int, s.last())[j]);
        }
    }
    pivot
}

/// Whether a point goes to the left group of a partition: its coordinate on
/// the partitioning axis lies strictly below the pivot's.
pub open spec fn left_of(pivot: Point, dimension: Dimension) -> spec_fn(Point) -> bool {
    |p: Point| p.spec_dimension(dimension) < pivot.spec_dimension(dimension)
}

/// Whether a point goes to the right group of a partition: its coordinate on
/// the partitioning axis lies at or above the pivot's.
pub open spec fn right_of(pivot: Point, dimension: Dimension) -> spec_fn(Point) -> bool {
    |p: Point| p.spec_dimension(dimension) >= pivot.spec_dimension(dimension)
}

/// Splits a point set into the closest-to-mean pivot, the points strictly
/// below it on the current axis, and the points at or above it, keeping the
/// iteration order of the set with the last point swapped into the pivot's
/// place.
pub fn partition(points: Vec<Point>, curr_dimension: &Dimension) -> (r: (Point, Vec<Point>, Vec<
    Point,
>))
    requires
        points@.len() >= 1,
        all_valid_seq(points@),
    ensures
        ({
            let s = points@;
            let m = spec_mean(s, *curr_dimension);
            let pi = pivot_index(s, *curr_dimension, m);
            let rest = s.update(pi, s.last()).drop_last();
            &&& r.0 == s[pi]
            &&& r.1@ == rest.filter(left_of(r.0, *curr_dimension))
            &&& r.2@ == rest.filter(right_of(r.0, *curr_dimension))
            &&& r.1@.to_multiset().add(r.2@.to_multiset()) == s.to_multiset().remove(r.0)
            &&& all_valid_seq(r.1@)
            &&& all_valid_seq(r.2@)
        }),
{
    let mut points = points;
    let ghost s = points@;
    let pivot = get_pivot(&mut points, curr_dimension);
    let ghost rest = points@;
    proof {
        lemma_pivot_index_in_range(s, *curr_dimension, spec_mean(s, *curr_dimension));
    }

    let mut left_sub_tree: Vec<Point> = Vec::new();
    let mut right_sub_tree: Vec<Point> = Vec::new();

    let n = points.len();
    for i in 0..n
        invariant
            n == points@.len(),
            points@ == rest,
            all_valid_seq(rest),
            pivot.valid(),
            left_sub_tree@ == rest.take(i as int).filter(left_of(pivot, *curr_dimension)),
            right_sub_tree@ == rest.take(i as int).filter(right_of(pivot, *curr_dimension)),
            all_valid_seq(left_sub_tree@),
            all_valid_seq(right_sub_tree@),
    {
        proof {
            reveal(Seq::filter);
            assert(rest.take(i + 1).drop_last() =~= rest.take(i as int));
            assert(rest.take(i + 1).last() == rest[i as int]);
        }
        match points[i].compare_dimension(&pivot, curr_dimension) {
            Ordering::Equal | Ordering::Greater => right_sub_tree.push(points[i]),
            Ordering::Less => left_sub_tree.push(points[i]),
        }
    }
    proof {
        assert(rest.take(n as int) =~= rest);
        assert forall|x: Point|
            left_sub_tree@.to_multiset().count(x) + right_sub_tree@.to_multiset().count(x)
                == rest.to_multiset().count(x) by {
            lemma_filter_to_multiset_count(rest, left_of(pivot, *curr_dimension), x);
            lemma_filter_to_multiset_count(rest, right_of(pivot, *curr_dimension), x);
        }
        assert(left_sub_tree@.to_multiset().add(right_sub_tree@.to_multiset())
            =~= rest.to_multiset());
    }
    (pivot, left_sub_tree, right_sub_tree)
}

/// Recursively partitions a point set into a tree: no node for an empty set,
/// a leaf for a single point, and otherwise a pivot node over the two groups
/// of a partition, built on the next axis of the cycle.
pub fn construct_kd_tree(points: Vec<Point>, curr_dimension: &Dimension) -> (r: Option<Box<
    KdTreeNode,
>>)
    requires
        all_valid_seq(points@),
    ensures
        r is Some <==> points@.len() > 0,
        (match r {
            Some(t) => {
                &&& t.points_ms() == points@.to_multiset()
                &&& t.well_formed(*curr_dimension)
                &&& t.all_valid()
                &&& t.pivot_closest_to_mean(*curr_dimension)
                &&& t.coord_total(Dimension::X) == coord_sum(points@, Dimension::X)
                &&& t.coord_total(Dimension::Y) == coord_sum(points@, Dimension::Y)
                &&& t.coord_total(Dimension::Z) == coord_sum(points@, Dimension::Z)
                &&& (points@.len() == 1 ==> *t == (KdTreeNode {
                    point: points@[0],
                    left: None,
                    right: None,
                }))
                &&& (points@.len() >= 2 ==> t.point == points@[pivot_index(
                    points@,
                    *curr_dimension,
                    spec_mean(points@, *curr_dimension),
                )])
            },
            None => true,
        }),
    decreases points@.len(),
{
    let ghost s = points@;
    if points.len() == 0 {
        None
    } else if points.len() == 1 {
        let mut points = points;
        let point = points.swap_remove(0);
        let node = KdTreeNode::new(point);
        proof {
            assert(Seq::<Point>::empty().push(point) =~= s);
            assert(Seq::<Point>::empty().push(point).to_multiset() =~= Seq::<
                Point,
            >::empty().to_multiset().insert(point));
            assert(Seq::<Point>::empty().to_multiset() =~= Multiset::<Point>::empty());
            assert(node.points_ms() =~= s.to_multiset());
            assert(s.drop_last().len() == 0);
            assert forall|d2: Dimension| node.coord_total(d2) == coord_sum(s, d2) by {
                assert(coord_sum(s, d2) == coord_sum(s.drop_last(), d2) + point.spec_dimension(d2));
            }
        }
        Some(Box::new(node))
    } else {
        let ghost m = spec_mean(s, *curr_dimension);
        let ghost pi = pivot_index(s, *curr_dimension, m);
        let ghost rest = s.update(pi, s.last()).drop_last();
        let (pivot, left_sub_tree, right_sub_tree) = partition(points, curr_dimension);
        proof {
            lemma_pivot_index_in_range(s, *curr_dimension, m);
            rest.lemma_filter_len(left_of(pivot, *curr_dimension));
            rest.lemma_filter_len(right_of(pivot, *curr_dimension));
        }
        let mut pivot_node = KdTreeNode::new(pivot);
        pivot_node.left = construct_kd_tree(left_sub_tree, &curr_dimension.turn());
        pivot_node.right = construct_kd_tree(right_sub_tree, &curr_dimension.turn());
        proof {
            if left_sub_tree@.len() == 0 {
                assert(opt_points(pivot_node.left) =~= left_sub_tree@.to_multiset());
            }
            if right_sub_tree@.len() == 0 {
                assert(opt_points(pivot_node.right) =~= right_sub_tree@.to_multiset());
            }
            assert(s.contains(s[pi]));
            assert(s.to_multiset().count(pivot) > 0);
            assert(pivot_node.points_ms() =~= s.to_multiset());
            assert forall|p: Point|
                opt_points(pivot_node.left).contains(p) implies p.spec_dimension(*curr_dimension)
                < pivot.spec_dimension(*curr_dimension) by {
                lemma_filter_to_multiset_count(rest, left_of(pivot, *curr_dimension), p);
            }
            assert forall|p: Point|
                opt_points(pivot_node.right).contains(p) implies p.spec_dimension(*curr_dimension)
                >= pivot.spec_dimension(*curr_dimension) by {
                lemma_filter_to_multiset_count(rest, right_of(pivot, *curr_dimension), p);
            }
            assert forall|p: Point| pivot_node.points_ms().contains(p) implies p.valid() by {
                assert(s.to_multiset().count(p) > 0);
                assert(s.contains(p));
            }
            assert forall|d2: Dimension| pivot_node.coord_total(d2) == coord_sum(s, d2) by {
                assert(d2 == Dimension::X || d2 == Dimension::Y || d2 == Dimension::Z);
                if left_sub_tree@.len() == 0 {
                    assert(opt_coord_total(pivot_node.left, d2) == 0);
                    assert(coord_sum(left_sub_tree@, d2) == 0);
                } else {
                    assert(pivot_node.left is Some);
                    assert(opt_coord_total(pivot_node.left, d2) == coord_sum(left_sub_tree@, d2));
                }
                if right_sub_tree@.len() == 0 {
                    assert(opt_coord_total(pivot_node.right, d2) == 0);
                    assert(coord_sum(right_sub_tree@, d2) == 0);
                } else {
                    assert(pivot_node.right is Some);
                    assert(opt_coord_total(pivot_node.right, d2) == coord_sum(right_sub_tree@, d2));
                }
                let joined = left_sub_tree@ + right_sub_tree@;
                lemma_coord_sum_concat(left_sub_tree@, right_sub_tree@, d2);
                crate::seq_util::lemma_concat_to_multiset(left_sub_tree@, right_sub_tree@);
                assert(coord_sum(joined, d2) == coord_sum(left_sub_tree@, d2) + coord_sum(right_sub_tree@, d2));
                assert(joined.push(pivot).drop_last() =~= joined);
                assert(coord_sum(joined.push(pivot), d2) == coord_sum(joined, d2) + pivot.spec_dimension(d2));
                assert(joined.push(pivot).to_multiset() =~= joined.to_multiset().insert(pivot));
                assert(joined.push(pivot).to_multiset() =~= s.to_multiset());
                lemma_coord_sum_permutation(joined.push(pivot), s, d2);
                assert(coord_sum(joined.push(pivot), d2) == coord_sum(s, d2));
                assert(pivot_node.coord_total(d2) == opt_coord_total(pivot_node.left, d2)
                    + opt_coord_total(pivot_node.right, d2) + pivot.spec_dimension(d2));
            }
            assert(pivot_node.points_ms().len() == s.len());
            assert(pivot_node.subtree_mean(*curr_dimension) == m);
            lemma_pivot_index_is_min(s, *curr_dimension, m);
            assert forall|p: Point| pivot_node.points_ms().contains(p) implies mean_diff(
                pivot_node.point,
                *curr_dimension,
                pivot_node.subtree_mean(*curr_dimension),
            ) <= mean_diff(p, *curr_dimension, pivot_node.subtree_mean(*curr_dimension)) by {
                assert(s.to_multiset().count(p) > 0);
                assert(s.contains(p));
                let j = choose|j: int| 0 <= j < s.len() && s[j] == p;
                assert(mean_diff(s[pi], *curr_dimension, m) <= mean_diff(s[j], *curr_dimension, m));
            }
            assert(pivot_node.pivot_closest_to_mean(*curr_dimension));
        }
        Some(Box::new(pivot_node))
    }
}

} // verus!
