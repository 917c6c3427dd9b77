use find_closest_points::nearest_neighbour::{
    is_potential_nearer_neighbour, Neighbour, NeighbourHeap,
};
use find_closest_points::point::Point;

#[test]
fn less_than_k_neighbours() {
    let neighbours = NeighbourHeap::from_vec(vec![Neighbour {
        distance: 10_000_000_000,
        point: Point::new(100_000, 100_000, 100_000),
    }]);
    let output = is_potential_nearer_neighbour(40_000_000_000, &neighbours, 2);
    assert!(output);
}

#[test]
fn has_k_neighbours_and_is_potential_candidate() {
    let neighbours = NeighbourHeap::from_vec(vec![
        Neighbour {
            distance: 10_000_000_000,
            point: Point::new(100_000, 100_000, 100_000),
        },
        Neighbour {
            distance: 40_000_000_000,
            point: Point::new(200_000, 200_000, 200_000),
        },
    ]);
    let output = is_potential_nearer_neighbour(2_500_000_000, &neighbours, 2);
    assert!(output);
}

#[test]
#[should_panic]
fn has_k_neighbours_and_is_not_potential_candidate() {
    let neighbours = NeighbourHeap::from_vec(vec![
        Neighbour {
            distance: 10_000_000_000,
            point: Point::new(100_000, 100_000, 100_000),
        },
        Neighbour {
            distance: 40_000_000_000,
            point: Point::new(200_000, 200_000, 200_000),
        },
    ]);
    let output = is_potential_nearer_neighbour(44_100_000_000, &neighbours, 2);
    assert!(output);
}
