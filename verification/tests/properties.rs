use find_closest_points::generate_random_points;
use find_closest_points::kd_tree::KdTreeNode;
use find_closest_points::nearest_neighbour::{
    find_k_nearest_neighbours, Neighbour, NeighbourHeap,
};
use find_closest_points::point::{Dimension, Point, COORD_ONE};

fn search_sorted(points: &Vec<Point>, given_point: &Point, k: usize) -> Vec<Neighbour> {
    let tree = KdTreeNode::construct_tree(points.clone());
    let mut heap = NeighbourHeap::new();
    find_k_nearest_neighbours(&tree, given_point, &Dimension::X, &mut heap, k);
    let mut heap_vec = heap.into_vec();
    heap_vec.sort();
    heap_vec
}

fn brute_force_sorted(points: &Vec<Point>, given_point: &Point) -> Vec<Neighbour> {
    let mut expected = points
        .iter()
        .map(|p| Neighbour {
            distance: given_point.distance_to(p),
            point: *p,
        })
        .collect::<Vec<Neighbour>>();
    expected.sort();
    expected
}

fn distances(neighbours: &[Neighbour]) -> Vec<i64> {
    neighbours.iter().map(|n| n.distance).collect()
}

/// Checks the partition and axis-cycling invariants of a built tree: on the
/// node's axis, every point reachable left lies strictly below the pivot and
/// every point reachable right lies at or above it, recursively with the
/// turned axis; returns the number of points reached.
fn check_partition_invariant(node: &KdTreeNode, dimension: &Dimension) -> usize {
    let pivot_coordinate = node.point.get_dimension(dimension);
    let mut count = 1;
    if let Some(left) = &node.left {
        assert_every_coordinate_below(left, dimension, pivot_coordinate);
        count += check_partition_invariant(left, &dimension.turn());
    }
    if let Some(right) = &node.right {
        assert_every_coordinate_at_least(right, dimension, pivot_coordinate);
        count += check_partition_invariant(right, &dimension.turn());
    }
    count
}

fn assert_every_coordinate_below(node: &KdTreeNode, dimension: &Dimension, bound: i64) {
    assert!(node.point.get_dimension(dimension) < bound);
    if let Some(left) = &node.left {
        assert_every_coordinate_below(left, dimension, bound);
    }
    if let Some(right) = &node.right {
        assert_every_coordinate_below(right, dimension, bound);
    }
}

fn assert_every_coordinate_at_least(node: &KdTreeNode, dimension: &Dimension, bound: i64) {
    assert!(node.point.get_dimension(dimension) >= bound);
    if let Some(left) = &node.left {
        assert_every_coordinate_at_least(left, dimension, bound);
    }
    if let Some(right) = &node.right {
        assert_every_coordinate_at_least(right, dimension, bound);
    }
}

#[test]
fn built_tree_satisfies_partition_invariant() {
    let points = generate_random_points(500);
    let tree = KdTreeNode::construct_tree(points.clone()).unwrap();
    let count = check_partition_invariant(&tree, &Dimension::X);
    assert_eq!(count, points.len());
}

#[test]
fn built_tree_keeps_every_point() {
    let mut points = generate_random_points(200);
    // duplicates are ordinary points and must all be kept
    let duplicate = points[0];
    points.push(duplicate);
    points.push(duplicate);
    let tree = KdTreeNode::construct_tree(points.clone()).unwrap();
    let count = check_partition_invariant(&tree, &Dimension::X);
    assert_eq!(count, points.len());

    // querying for at least as many neighbours as there are points returns
    // every point, duplicates included
    let target = Point::new(500_000, 500_000, 500_000);
    let output = search_sorted(&points, &target, points.len() + 5);
    let expected = brute_force_sorted(&points, &target);
    assert_eq!(output, expected);
}

#[test]
fn query_with_k_exceeding_point_count() {
    let points = vec![
        Point::new(100_000, 100_000, 100_000),
        Point::new(200_000, 200_000, 200_000),
        Point::new(300_000, 300_000, 300_000),
    ];
    let target = Point::new(0, 0, 0);
    let output = search_sorted(&points, &target, 5);
    assert_eq!(output.len(), 3);
    let expected = brute_force_sorted(&points, &target);
    assert_eq!(output, expected);
}

#[test]
fn construct_tree_of_no_points_is_absent() {
    let tree = KdTreeNode::construct_tree(vec![]);
    assert!(tree.is_none());
    let target = Point::new(250_000, 250_000, 250_000);
    let mut heap = NeighbourHeap::new();
    find_k_nearest_neighbours(&tree, &target, &Dimension::X, &mut heap, 4);
    assert_eq!(heap.len(), 0);
}

#[test]
fn empty_tree_query_returns_nothing() {
    let target = Point::new(700_000, 100_000, 900_000);
    let mut heap = NeighbourHeap::new();
    find_k_nearest_neighbours(&None, &target, &Dimension::X, &mut heap, 3);
    assert_eq!(heap.len(), 0);
    assert!(heap.into_vec().is_empty());
}

#[test]
fn single_point_tree_returns_its_point() {
    let p = Point::new(300_000, 400_000, 0);
    let target = Point::new(0, 0, 0);
    let output = search_sorted(&vec![p], &target, 1);
    assert_eq!(output.len(), 1);
    assert_eq!(output[0].point, p);
    // 0.3^2 + 0.4^2 = 0.25, at one million fixed-point units per axis
    assert_eq!(output[0].distance, 250_000_000_000);
    assert_eq!(output[0].distance, target.distance_to(&p));
}

#[test]
fn nearest_of_three_collinear_points() {
    let points = vec![
        Point::new(100_000, 100_000, 100_000),
        Point::new(200_000, 200_000, 200_000),
        Point::new(300_000, 300_000, 300_000),
    ];
    let target = Point::new(0, 0, 0);
    let output = search_sorted(&points, &target, 1);
    assert_eq!(output.len(), 1);
    assert_eq!(output[0].point, Point::new(100_000, 100_000, 100_000));
    // squared distance 3 * 0.1^2 = 0.03, i.e. a distance of about 0.1732
    assert_eq!(output[0].distance, 30_000_000_000);
}

#[test]
fn repeated_queries_return_the_same_set() {
    let points = generate_random_points(300);
    let tree = KdTreeNode::construct_tree(points.clone());
    let target = Point::random();
    let mut first = NeighbourHeap::new();
    find_k_nearest_neighbours(&tree, &target, &Dimension::X, &mut first, 10);
    let mut second = NeighbourHeap::new();
    find_k_nearest_neighbours(&tree, &target, &Dimension::X, &mut second, 10);
    let mut first_vec = first.into_vec();
    let mut second_vec = second.into_vec();
    first_vec.sort();
    second_vec.sort();
    assert_eq!(first_vec, second_vec);
}

#[test]
fn tree_matches_brute_force_over_many_random_trials() {
    for _trial in 0..100 {
        let points = generate_random_points(1000);
        let target = Point::random();
        let output = search_sorted(&points, &target, 10);
        let expected = brute_force_sorted(&points, &target);
        assert_eq!(distances(&output), distances(&expected[0..10]));
    }
}

#[test]
fn generated_points_lie_in_unit_cube() {
    let points = generate_random_points(1000);
    assert_eq!(points.len(), 1000);
    for p in &points {
        assert!(0 <= p.x && p.x <= COORD_ONE);
        assert!(0 <= p.y && p.y <= COORD_ONE);
        assert!(0 <= p.z && p.z <= COORD_ONE);
    }
}

#[test]
fn random_points_vary() {
    // a run of random points cannot all coincide; this would only fail if
    // the coordinate sampling handed back a constant
    let points = generate_random_points(50);
    let first = points[0];
    assert!(points.iter().any(|p| *p != first));
}
