use vstd::prelude::*;

verus! {

/// A planar point with exact integer coordinates.
///
/// The spatial index and the geometric predicates built on it only ever
/// compare, add, subtract and multiply coordinates, so an exact integer
/// domain lets every decision be verified; callers that live in a
/// floating-point world quantize before they enter the library.
/// Coordinates are kept within [-MAX_COORD, MAX_COORD] so that every
/// intermediate product of the geometric primitives fits in 64 bits.
#[derive(Clone, Copy, PartialEq, Eq, Structural, Debug, Hash)]
pub struct Coordinate {
    pub x: i64,
    pub y: i64,
}

/// Largest coordinate magnitude the library accepts.
pub const MAX_COORD: i64 = 0x80_0000;

impl Coordinate {
    /// True when both components have magnitude at most `b`.
    pub open spec fn bounded(self, b: int) -> bool {
        -b <= self.x <= b && -b <= self.y <= b
    }

    /// True when both components are within the accepted range.
    pub open spec fn in_range(self) -> bool {
        self.bounded(MAX_COORD as int)
    }

    pub fn new(x: i64, y: i64) -> (r: Coordinate)
        ensures
            r == (Coordinate { x, y }),
    {
        Coordinate { x, y }
    }

    /// Componentwise difference, the vector from rhs to self.
    pub open spec fn spec_sub(self, rhs: Coordinate) -> Coordinate {
        Coordinate { x: (self.x - rhs.x) as i64, y: (self.y - rhs.y) as i64 }
    }

    pub fn sub(self, rhs: Coordinate) -> (r: Coordinate)
        requires
            self.in_range(),
            rhs.in_range(),
        ensures
            r == self.spec_sub(rhs),
            r.x == self.x - rhs.x,
            r.y == self.y - rhs.y,
            r.bounded(2 * MAX_COORD as int),
    {
        Coordinate { x: self.x - rhs.x, y: self.y - rhs.y }
    }

    /// Cross product of the vectors self and rhs, exactly.
    pub open spec fn spec_cross(self, rhs: Coordinate) -> int {
        self.x * rhs.y - self.y * rhs.x
    }

    /// Dot product of the vectors self and rhs, exactly.
    pub open spec fn spec_dot(self, rhs: Coordinate) -> int {
        self.x * rhs.x + self.y * rhs.y
    }

    pub fn cross(self, rhs: Coordinate) -> (r: i64)
        requires
            self.bounded(4 * MAX_COORD as int),
            rhs.bounded(4 * MAX_COORD as int),
        ensures
            r == self.spec_cross(rhs),
    {
        proof {
            lemma_product_bound(self.x as int, rhs.y as int);
            lemma_product_bound(self.y as int, rhs.x as int);
        }
        self.x * rhs.y - self.y * rhs.x
    }

    pub fn dot(self, rhs: Coordinate) -> (r: i64)
        requires
            self.bounded(4 * MAX_COORD as int),
            rhs.bounded(4 * MAX_COORD as int),
        ensures
            r == self.spec_dot(rhs),
    {
        proof {
            lemma_product_bound(self.x as int, rhs.x as int);
            lemma_product_bound(self.y as int, rhs.y as int);
        }
        self.x * rhs.x + self.y * rhs.y
    }
}

/// Bound on a product of two factors no larger than four times the
/// accepted coordinate range.
pub proof fn lemma_product_bound(a: int, b: int)
    by (nonlinear_arith)
    requires
        -0x400_0000 <= a <= 0x400_0000,
        -0x400_0000 <= b <= 0x400_0000,
    ensures
        -0x10_0000_0000_0000 <= a * b <= 0x10_0000_0000_0000,
{
}

} // verus!
