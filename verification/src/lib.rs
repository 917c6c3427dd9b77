//! Finding the nearest neighbours to a target point in a three-dimensional
//! space amongst a large number of points, using a kd-tree.
//!
//! Points carry fixed-point coordinates clamped to the unit cube. A kd-tree is
//! built over a point set by cycling through the three axes, and a
//! branch-and-bound search over the tree returns the k points closest to a
//! target, measured by squared Euclidean distance.
use vstd::prelude::*;

pub mod kd_tree;
mod seq_util;
pub mod nearest_neighbour;
pub mod point;

use crate::point::Point;

verus! {

/// The number of nearest neighbours that most of the tests ask for.
pub const NUM_OF_NEAREST_NEIGHBOURS: usize = 10;

/// Generates n random points of the unit cube.
pub fn generate_random_points(n: u32) -> (points: Vec<Point>)
    ensures
        points@.len() == n,
        forall|i: int| 0 <= i < points@.len() ==> points@[i].valid(),
{
    let mut points: Vec<Point> = Vec::new();
    for _j in 0..n
        invariant
            points@.len() == _j,
            forall|i: int| 0 <= i < points@.len() ==> points@[i].valid(),
    {
        points.push(Point::random());
    }
    points
}

} // verus!
