//! Points of the lattice and the distance between them.

use vstd::prelude::*;
use crate::arith::{rounded_root, rounded_sqrt};

verus! {

/// Lattice units in one unit of length (a pixel, or the machine's unit).
pub const UNITS_PER_ONE: i32 = 100_000;

/// A point of the plane, given by its lattice coordinates.
///
/// Two points are equal when they are the same lattice point: a lattice
/// unit is the distance below which points are not told apart.
#[derive(Copy, Clone, Debug, PartialEq, Eq, Structural)]
pub struct Point {
    pub x: i32,
    pub y: i32,
}

impl Point {
    /// The square of the Euclidean distance to `other`, in lattice units.
    pub open spec fn dist_sq(self, other: Point) -> nat {
        ((self.x - other.x) * (self.x - other.x) + (self.y - other.y) * (self.y - other.y)) as nat
    }

    /// The Euclidean distance to `other`, rounded to the nearest lattice unit.
    pub open spec fn dist(self, other: Point) -> nat {
        rounded_root(self.dist_sq(other))
    }

    pub fn new(x: i32, y: i32) -> (p: Point)
        ensures
            p == (Point { x, y }),
    {
        Point { x, y }
    }

    pub fn origin() -> (p: Point)
        ensures
            p == (Point { x: 0, y: 0 }),
    {
        Point { x: 0, y: 0 }
    }

    /// The exact square of the distance to `other`.
    pub fn distance_squared(&self, other: &Point) -> (d: u128)
        ensures
            d == self.dist_sq(*other),
            d <= 0x1_ffff_fffc_0000_0002,
    {
        let ax: u64 = gap(self.x, other.x);
        let ay: u64 = gap(self.y, other.y);
        assert(ax * ax <= 0xffff_ffff * 0xffff_ffff) by (nonlinear_arith)
            requires
                ax <= 0xffff_ffff,
        ;
        assert(ay * ay <= 0xffff_ffff * 0xffff_ffff) by (nonlinear_arith)
            requires
                ay <= 0xffff_ffff,
        ;
        assert(ax * ax == (self.x - other.x) * (self.x - other.x)) by (nonlinear_arith)
            requires
                ax == self.x - other.x || ax == other.x - self.x,
        ;
        assert(ay * ay == (self.y - other.y) * (self.y - other.y)) by (nonlinear_arith)
            requires
                ay == self.y - other.y || ay == other.y - self.y,
        ;
        (ax as u128) * (ax as u128) + (ay as u128) * (ay as u128)
    }

    /// The distance to `other`, rounded to the nearest lattice unit.
    pub fn distance(&self, other: &Point) -> (d: u64)
        ensures
            d == self.dist(*other),
    {
        let sq: u128 = self.distance_squared(other);
        rounded_sqrt(sq)
    }
}

/// The absolute difference of two coordinates.
pub fn gap(a: i32, b: i32) -> (d: u64)
    ensures
        d == if a <= b { b - a } else { a - b },
{
    if a <= b {
        (b as i64 - a as i64) as u64
    } else {
        (a as i64 - b as i64) as u64
    }
}

/// The distance does not depend on the direction in which it is measured.
pub proof fn lemma_dist_symmetric(a: Point, b: Point)
    ensures
        a.dist_sq(b) == b.dist_sq(a),
        a.dist(b) == b.dist(a),
{
    assert((a.x - b.x) * (a.x - b.x) == (b.x - a.x) * (b.x - a.x)) by (nonlinear_arith);
    assert((a.y - b.y) * (a.y - b.y) == (b.y - a.y) * (b.y - a.y)) by (nonlinear_arith);
}

} // verus!
