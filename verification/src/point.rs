use vstd::prelude::*;
use rand::RngExt;
use std::cmp::Ordering;

verus! {

/// Number of fixed-point units that stand for the coordinate value one.
/// Every coordinate of a clamped point lies in the closed interval
/// `[0, COORD_ONE]`, the fixed-point image of the unit interval.
pub const COORD_ONE: i64 = 1_000_000;

/// A point of the unit cube, with fixed-point coordinates.
#[derive(Clone, Copy, Debug, PartialEq, Eq, PartialOrd, Ord, Structural)]
pub struct Point {
    pub x: i64,
    pub y: i64,
    pub z: i64,
}

/// One of the three coordinate axes a tree level can partition on.
#[derive(Clone, Copy, Debug, PartialEq, Eq, Structural)]
pub enum Dimension {
    X,
    Y,
    Z,
}

/// What clamping a coordinate to the unit interval means.
pub open spec fn spec_clamp(coordinate: int) -> int {
    if coordinate < 0 {
        0
    } else if coordinate > COORD_ONE {
        COORD_ONE as int
    } else {
        coordinate
    }
}

/// The squared Euclidean distance between two points.
pub open spec fn dist_sq(a: Point, b: Point) -> int {
    (a.x - b.x) * (a.x - b.x) + (a.y - b.y) * (a.y - b.y) + (a.z - b.z) * (a.z - b.z)
}

pub fn clamp(coordinate: i64) -> (r: i64)
    ensures
        r == spec_clamp(coordinate as int),
{
    if coordinate < 0 {
        0
    } else if coordinate > COORD_ONE {
        COORD_ONE
    } else {
        coordinate
    }
}

/// Relies on rand::rng and rand::RngExt::random_range: a sample drawn from a
/// nonempty inclusive range lies within that range.
#[verifier::external_body]
fn random_coord() -> (r: i64)
    ensures
        0 <= r <= COORD_ONE,
{
    let mut generator = rand::rng();
    generator.random_range(0..=COORD_ONE)
}

impl Point {
    /// A clamped point: every coordinate lies in the unit interval.
    pub open spec fn valid(self) -> bool {
        &&& 0 <= self.x <= COORD_ONE
        &&& 0 <= self.y <= COORD_ONE
        &&& 0 <= self.z <= COORD_ONE
    }

    /// The coordinate of this point on the given axis.
    pub open spec fn spec_dimension(self, dimension: Dimension) -> i64 {
        match dimension {
            Dimension::X => self.x,
            Dimension::Y => self.y,
            Dimension::Z => self.z,
        }
    }

    pub fn new(x: i64, y: i64, z: i64) -> (p: Point)
        ensures
            p.x == spec_clamp(x as int),
            p.y == spec_clamp(y as int),
            p.z == spec_clamp(z as int),
            p.valid(),
    {
        Point { x: clamp(x), y: clamp(y), z: clamp(z) }
    }

    pub fn random() -> (p: Point)
        ensures
            p.valid(),
    {
        Point::new(random_coord(), random_coord(), random_coord())
    }

    pub fn distance_to(&self, other: &Point) -> (d: i64)
        requires
            self.valid(),
            other.valid(),
        ensures
            d == dist_sq(*self, *other),
            0 <= d <= 3 * COORD_ONE * COORD_ONE,
    {
        proof {
            lemma_square_bound(self.x - other.x, COORD_ONE as int);
            lemma_square_bound(self.y - other.y, COORD_ONE as int);
            lemma_square_bound(self.z - other.z, COORD_ONE as int);
        }
        let dx = self.x - other.x;
        let dy = self.y - other.y;
        let dz = self.z - other.z;
        dx * dx + dy * dy + dz * dz
    }

    pub fn get_dimension(&self, dimension: &Dimension) -> (c: i64)
        ensures
            c == self.spec_dimension(*dimension),
    {
        match dimension {
            Dimension::X => self.x,
            Dimension::Y => self.y,
            Dimension::Z => self.z,
        }
    }

    pub fn compare_dimension(&self, other: &Point, dimension: &Dimension) -> (o: Ordering)
        ensures
            o == Ordering::Less <==> self.spec_dimension(*dimension) < other.spec_dimension(
                *dimension,
            ),
            o == Ordering::Equal <==> self.spec_dimension(*dimension) == other.spec_dimension(
                *dimension,
            ),
            o == Ordering::Greater <==> self.spec_dimension(*dimension) > other.spec_dimension(
                *dimension,
            ),
    {
        let a = self.get_dimension(dimension);
        let b = other.get_dimension(dimension);
        if a < b {
            Ordering::Less
        } else if a == b {
            Ordering::Equal
        } else {
            Ordering::Greater
        }
    }
}

impl Default for Point {
    fn default() -> (p: Point)
        ensures
            p == (Point { x: 0, y: 0, z: 0 }),
    {
        Point { x: 0, y: 0, z: 0 }
    }
}

impl Dimension {
    /// The axis following this one in the cycle X, Y, Z, X.
    pub open spec fn spec_turn(self) -> Dimension {
        match self {
            Dimension::X => Dimension::Y,
            Dimension::Y => Dimension::Z,
            Dimension::Z => Dimension::X,
        }
    }

    pub fn turn(&self) -> (d: Self)
        ensures
            d == self.spec_turn(),
    {
        match self {
            Dimension::X => Dimension::Y,
            Dimension::Y => Dimension::Z,
            Dimension::Z => Dimension::X,
        }
    }
}

/// Squaring preserves the order of non-negative values.
pub proof fn lemma_square_monotonic(a: int, b: int)
    requires
        0 <= a <= b,
    ensures
        a * a <= b * b,
{
    assert(a * a <= b * b) by (nonlinear_arith)
        requires
            0 <= a <= b,
    ;
}

/// The squared distance between two points is at least the squared gap of
/// their coordinates on any single axis, whichever way that gap is taken.
pub proof fn lemma_dist_sq_axis_bound(a: Point, b: Point, dimension: Dimension)
    ensures
        dist_sq(a, b) >= (a.spec_dimension(dimension) - b.spec_dimension(dimension)) * (
        a.spec_dimension(dimension) - b.spec_dimension(dimension)),
        dist_sq(a, b) >= (b.spec_dimension(dimension) - a.spec_dimension(dimension)) * (
        b.spec_dimension(dimension) - a.spec_dimension(dimension)),
{
    assert((a.x - b.x) * (a.x - b.x) >= 0) by (nonlinear_arith);
    assert((a.y - b.y) * (a.y - b.y) >= 0) by (nonlinear_arith);
    assert((a.z - b.z) * (a.z - b.z) >= 0) by (nonlinear_arith);
    let c = a.spec_dimension(dimension) - b.spec_dimension(dimension);
    assert(c * c == (-c) * (-c)) by (nonlinear_arith);
}

/// The squared distance between two clamped points is non-negative and
/// bounded by the squared diagonal of the unit cube.
pub proof fn lemma_dist_sq_bounds(a: Point, b: Point)
    requires
        a.valid(),
        b.valid(),
    ensures
        0 <= dist_sq(a, b) <= 3 * COORD_ONE * COORD_ONE,
{
    lemma_square_bound(a.x - b.x, COORD_ONE as int);
    lemma_square_bound(a.y - b.y, COORD_ONE as int);
    lemma_square_bound(a.z - b.z, COORD_ONE as int);
}

/// A square grows with the magnitude of its root.
pub proof fn lemma_square_bound(a: int, b: int)
    requires
        -b <= a <= b,
    ensures
        0 <= a * a <= b * b,
{
    assert(0 <= a * a <= b * b) by (nonlinear_arith)
        requires
            -b <= a <= b,
    ;
}

} // verus!
