//! Rays on the grid, and the signed distance from a point to the root cube.
use vstd::prelude::*;
use crate::grid::{abs, max, min, square, Point, Point3, COORD_LIMIT, HALF_UNIT};
use crate::numeric::{floor_sqrt, isqrt, lemma_product_bound, lemma_square_monotonic};

verus! {

/// Length of a unit direction: a direction holds each component of a unit
/// vector times this.
pub const DIRECTION_UNIT: i64 = 0x4000_0000;

/// How far the squared length of a direction may lie from the square of
/// [`DIRECTION_UNIT`]: one part in 4096.
pub const DIRECTION_SLACK: i64 = 0x1_0000_0000_0000;

/// No ray is followed further than this from its origin, in either sense.
pub const TRAVEL_LIMIT: i64 = 0x4_0000_0000_0000;

/// A half-line: where it starts, and a unit vector along it.
#[derive(Clone, Copy, Debug, PartialEq, Eq, Structural)]
pub struct Ray {
    pub origin: Point3,
    pub direction: Point3,
}

/// Square of the length of `d`.
pub open spec fn length_squared(d: Point) -> int {
    square(d.x) + square(d.y) + square(d.z)
}

/// `d` is a unit direction, to within [`DIRECTION_SLACK`].
pub open spec fn is_unit(d: Point) -> bool {
    abs(length_squared(d) - DIRECTION_UNIT * DIRECTION_UNIT) <= DIRECTION_SLACK
}

/// One coordinate of the point at distance `t` along a ray: `origin` plus
/// `t` times the direction's component, rounded down to the grid.
pub open spec fn travel(origin: int, component: int, t: int) -> int {
    origin + (t * component) / (DIRECTION_UNIT as int)
}

/// The point at distance `t` from `origin` along the unit direction `d`.
pub open spec fn point_at(origin: Point, d: Point, t: int) -> Point {
    Point {
        x: travel(origin.x, d.x, t),
        y: travel(origin.y, d.y, t),
        z: travel(origin.z, d.z, t),
    }
}

/// Signed distance from `p` to the surface of the root cube: negative
/// inside, nothing on the surface, and outside the distance to the nearest
/// point of the cube, rounded down.
pub open spec fn cube_distance(p: Point) -> int {
    let qx = abs(p.x) - HALF_UNIT;
    let qy = abs(p.y) - HALF_UNIT;
    let qz = abs(p.z) - HALF_UNIT;
    floor_sqrt(square(max(qx, 0)) + square(max(qy, 0)) + square(max(qz, 0))) + min(
        max(qx, max(qy, qz)),
        0,
    )
}

/// No component of a unit direction is longer than twice the unit.
pub proof fn lemma_unit_components(d: Point)
    requires
        is_unit(d),
    ensures
        d.within(2 * DIRECTION_UNIT),
{
    lemma_component_bound(d.x, d.y, d.z);
    lemma_component_bound(d.y, d.x, d.z);
    lemma_component_bound(d.z, d.x, d.y);
}

/// Of three numbers whose squares add up to little more than the square of
/// the unit, none is longer than twice the unit.
proof fn lemma_component_bound(a: int, b: int, c: int)
    requires
        a * a + b * b + c * c <= DIRECTION_UNIT * DIRECTION_UNIT + DIRECTION_SLACK,
    ensures
        abs(a) <= 2 * DIRECTION_UNIT,
{
    assert(b * b >= 0 && c * c >= 0) by (nonlinear_arith);
    if abs(a) > 2 * DIRECTION_UNIT {
        lemma_square_monotonic(2 * DIRECTION_UNIT, abs(a));
        assert(abs(a) * abs(a) == a * a) by (nonlinear_arith);
    }
}

/// Distance from `v` to zero.
fn magnitude(v: i64) -> (m: i64)
    requires
        v > i64::MIN,
    ensures
        m == abs(v as int),
{
    if v < 0 {
        -v
    } else {
        v
    }
}

/// Signed distance from `p` to the surface of the root cube.
pub fn distance_to_root_cube(p: &Point3) -> (dist: i64)
    requires
        p@.in_world(),
    ensures
        dist == cube_distance(p@),
        -HALF_UNIT <= dist <= 2 * COORD_LIMIT,
{
    let qx: i64 = magnitude(p.x) - HALF_UNIT;
    let qy: i64 = magnitude(p.y) - HALF_UNIT;
    let qz: i64 = magnitude(p.z) - HALF_UNIT;
    let mx: u128 = if qx > 0 { qx as u128 } else { 0 };
    let my: u128 = if qy > 0 { qy as u128 } else { 0 };
    let mz: u128 = if qz > 0 { qz as u128 } else { 0 };
    proof {
        lemma_square_monotonic(mx as int, COORD_LIMIT as int);
        lemma_square_monotonic(my as int, COORD_LIMIT as int);
        lemma_square_monotonic(mz as int, COORD_LIMIT as int);
        assert(COORD_LIMIT * COORD_LIMIT == 0x4000_0000_0000_0000_0000_0000);
    }
    let sum: u128 = mx * mx + my * my + mz * mz;
    let outside: u64 = isqrt(sum);
    proof {
        if outside > 2 * COORD_LIMIT {
            lemma_square_monotonic(0x1_0000_0000_0000int, outside as int);
            assert(0x1_0000_0000_0000int * 0x1_0000_0000_0000int
                == 0x1_0000_0000_0000_0000_0000_0000int);
        }
    }
    let deepest: i64 = if qx >= qy && qx >= qz {
        qx
    } else if qy >= qz {
        qy
    } else {
        qz
    };
    let inside: i64 = if deepest < 0 { deepest } else { 0 };
    outside as i64 + inside
}

/// The whole number of times that [`DIRECTION_UNIT`] goes into `n`,
/// rounded down.
fn unscale(n: i128) -> (q: i128)
    requires
        -0x10_0000_0000_0000_0000_0000_0000 <= n <= 0x10_0000_0000_0000_0000_0000_0000,
    ensures
        q == (n as int) / (DIRECTION_UNIT as int),
{
    let lifted: u128 = (n + 0x10_0000_0000_0000_0000_0000_0000) as u128;
    let q: u128 = lifted / 0x4000_0000;
    proof {
        assert(0x40_0000_0000_0000_0000int * 0x4000_0000int
            == 0x10_0000_0000_0000_0000_0000_0000int);
        vstd::arithmetic::div_mod::lemma_hoist_over_denominator(
            n as int,
            0x40_0000_0000_0000_0000,
            0x4000_0000,
        );
    }
    q as i128 - 0x40_0000_0000_0000_0000
}

impl Ray {
    /// The origin lies in the world and the direction is a unit vector.
    pub open spec fn valid(&self) -> bool {
        self.origin@.in_world() && is_unit(self.direction@)
    }

    pub fn new(origin: Point3, direction: Point3) -> (ray: Ray)
        ensures
            ray == (Ray { origin, direction }),
    {
        Ray { origin, direction }
    }

    /// Whether the origin lies in the world and the direction is a unit
    /// vector.
    pub fn is_valid(&self) -> (b: bool)
        ensures
            b == self.valid(),
    {
        if !self.origin.is_in_world() {
            return false;
        }
        if !self.direction.is_within(2 * DIRECTION_UNIT) {
            proof {
                if is_unit(self.direction@) {
                    lemma_unit_components(self.direction@);
                }
            }
            return false;
        }
        let dx: i128 = self.direction.x as i128;
        let dy: i128 = self.direction.y as i128;
        let dz: i128 = self.direction.z as i128;
        proof {
            lemma_square_monotonic(abs(dx as int), 2 * DIRECTION_UNIT);
            lemma_square_monotonic(abs(dy as int), 2 * DIRECTION_UNIT);
            lemma_square_monotonic(abs(dz as int), 2 * DIRECTION_UNIT);
            assert(abs(dx as int) * abs(dx as int) == dx * dx) by (nonlinear_arith);
            assert(abs(dy as int) * abs(dy as int) == dy * dy) by (nonlinear_arith);
            assert(abs(dz as int) * abs(dz as int) == dz * dz) by (nonlinear_arith);
        }
        let len2: i128 = dx * dx + dy * dy + dz * dz;
        let unit2: i128 = 0x1000_0000_0000_0000;
        assert(unit2 == DIRECTION_UNIT * DIRECTION_UNIT);
        len2 - unit2 <= DIRECTION_SLACK as i128 && unit2 - len2 <= DIRECTION_SLACK as i128
    }

    /// The point at distance `t` along the ray; behind the origin where `t`
    /// is negative.
    pub fn get_point(&self, t: i64) -> (p: Point3)
        requires
            self.valid(),
            -TRAVEL_LIMIT <= t <= TRAVEL_LIMIT,
        ensures
            p@ == point_at(self.origin@, self.direction@, t as int),
            p@.within(COORD_LIMIT + 2 * TRAVEL_LIMIT + 1),
    {
        proof {
            lemma_unit_components(self.direction@);
        }
        let x = Self::advance(self.origin.x, self.direction.x, t);
        let y = Self::advance(self.origin.y, self.direction.y, t);
        let z = Self::advance(self.origin.z, self.direction.z, t);
        Point3 { x, y, z }
    }

    /// One coordinate of the point at distance `t` along a ray.
    fn advance(origin: i64, component: i64, t: i64) -> (v: i64)
        requires
            -COORD_LIMIT <= origin <= COORD_LIMIT,
            -2 * DIRECTION_UNIT <= component <= 2 * DIRECTION_UNIT,
            -TRAVEL_LIMIT <= t <= TRAVEL_LIMIT,
        ensures
            v == travel(origin as int, component as int, t as int),
            abs(v as int) <= COORD_LIMIT + 2 * TRAVEL_LIMIT + 1,
    {
        proof {
            lemma_product_bound(t as int, component as int, 0x4_0000_0000_0000, 0x8000_0000);
            assert(0x4_0000_0000_0000 * 0x8000_0000 == 0x2_0000_0000_0000_0000_0000int);
        }
        let product: i128 = (t as i128) * (component as i128);
        let moved: i128 = unscale(product);
        (origin as i128 + moved) as i64
    }
}

} // verus!
