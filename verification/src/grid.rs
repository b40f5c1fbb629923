//! The grid on which the octree lives: points, cubes, and the edge of an
//! octant at each depth.
use vstd::prelude::*;
use vstd::arithmetic::power2::{
    lemma2_to64, lemma_pow2_pos, lemma_pow2_strictly_increases, lemma_pow2_unfold, pow2,
};

verus! {

/// Deepest level at which an octant may sit. The root is at depth 0.
pub const MAX_DEPTH: u32 = 30;

/// Grid units to the world unit: the edge of the root cube.
pub const UNIT: i64 = 0x8000_0000;

/// Half the edge of the root cube.
pub const HALF_UNIT: i64 = 0x4000_0000;

/// No coordinate of the world lies further than this from the origin.
pub const COORD_LIMIT: i64 = 0x8000_0000_0000;

/// A point, or a displacement, as mathematics sees it.
pub struct Point {
    pub x: int,
    pub y: int,
    pub z: int,
}

/// A point, or a displacement, in grid units.
#[derive(Clone, Copy, Debug, PartialEq, Eq, Structural)]
pub struct Point3 {
    pub x: i64,
    pub y: i64,
    pub z: i64,
}

impl View for Point3 {
    type V = Point;

    open spec fn view(&self) -> Point {
        Point { x: self.x as int, y: self.y as int, z: self.z as int }
    }
}

pub open spec fn abs(v: int) -> int {
    if v < 0 {
        -v
    } else {
        v
    }
}

pub open spec fn min(a: int, b: int) -> int {
    if a <= b {
        a
    } else {
        b
    }
}

pub open spec fn max(a: int, b: int) -> int {
    if a >= b {
        a
    } else {
        b
    }
}

pub open spec fn square(v: int) -> int {
    v * v
}

impl Point {
    /// No coordinate lies beyond `limit`.
    pub open spec fn within(self, limit: int) -> bool {
        &&& abs(self.x) <= limit
        &&& abs(self.y) <= limit
        &&& abs(self.z) <= limit
    }

    /// The point lies in the world: no coordinate beyond [`COORD_LIMIT`].
    pub open spec fn in_world(self) -> bool {
        self.within(COORD_LIMIT as int)
    }

    /// The point lies in the closed cube of half-edge `half` around `center`.
    pub open spec fn in_box(self, center: Point, half: int) -> bool {
        &&& center.x - half <= self.x <= center.x + half
        &&& center.y - half <= self.y <= center.y + half
        &&& center.z - half <= self.z <= center.z + half
    }

    /// The point lies in the cube of half-edge `half` around `center`, taken
    /// with its high faces and without its low faces. Cubes that share a
    /// face then share no point: a point on the face counts to the lower
    /// of the two.
    pub open spec fn in_cell(self, center: Point, half: int) -> bool {
        &&& center.x - half < self.x <= center.x + half
        &&& center.y - half < self.y <= center.y + half
        &&& center.z - half < self.z <= center.z + half
    }

    /// The point lies on or inside the root cube.
    pub open spec fn in_root_cube(self) -> bool {
        self.within(HALF_UNIT as int)
    }

    /// The point lies on the surface of the root cube.
    pub open spec fn on_root_surface(self) -> bool {
        &&& self.in_root_cube()
        &&& (abs(self.x) == HALF_UNIT || abs(self.y) == HALF_UNIT || abs(self.z) == HALF_UNIT)
    }

    /// Square of the Euclidean distance to `other`.
    pub open spec fn distance_squared(self, other: Point) -> int {
        square(self.x - other.x) + square(self.y - other.y) + square(self.z - other.z)
    }
}

impl Point3 {
    pub fn new(x: i64, y: i64, z: i64) -> (p: Point3)
        ensures
            p == (Point3 { x, y, z }),
    {
        Point3 { x, y, z }
    }

    /// Whether no coordinate lies beyond `limit`.
    pub fn is_within(&self, limit: i64) -> (b: bool)
        requires
            0 <= limit,
        ensures
            b == self@.within(limit as int),
    {
        -limit <= self.x && self.x <= limit && -limit <= self.y && self.y <= limit && -limit
            <= self.z && self.z <= limit
    }

    /// Whether the point lies in the world.
    pub fn is_in_world(&self) -> (b: bool)
        ensures
            b == self@.in_world(),
    {
        self.is_within(COORD_LIMIT)
    }

    /// Whether the point lies on or inside the root cube.
    pub fn is_in_root_cube(&self) -> (b: bool)
        ensures
            b == self@.in_root_cube(),
    {
        self.is_within(HALF_UNIT)
    }
}

/// Edge length of an octant at `depth`, in grid units: the world unit
/// halved `depth` times.
pub open spec fn size_at(depth: nat) -> int
    recommends
        depth <= MAX_DEPTH,
{
    pow2((MAX_DEPTH + 1 - depth) as nat) as int
}

/// Edge length of an octant at `depth`.
pub fn size_of_depth(depth: u32) -> (size: i64)
    requires
        depth <= MAX_DEPTH,
    ensures
        size == size_at(depth as nat),
        2 <= size <= UNIT,
        size % 2 == 0,
{
    let shift: u64 = (MAX_DEPTH + 1 - depth) as u64;
    let size: u64 = 1u64 << shift;
    proof {
        vstd::bits::lemma_u64_pow2_no_overflow(shift as nat);
        vstd::bits::lemma_u64_shl_is_mul(1u64, shift);
        lemma_pow2_unfold(shift as nat);
        lemma_pow2_pos((shift - 1) as nat);
        lemma2_to64();
        if shift < 31 {
            lemma_pow2_strictly_increases(shift as nat, 31);
        }
    }
    size as i64
}

/// The size of an octant times two to the power of its depth is the world
/// unit, and each level is half the size of the level above it.
pub proof fn lemma_size_halves(depth: nat)
    requires
        depth <= MAX_DEPTH,
    ensures
        size_at(depth) * pow2(depth) == UNIT,
        depth < MAX_DEPTH ==> 2 * size_at(depth + 1) == size_at(depth),
        2 <= size_at(depth) <= UNIT,
        size_at(depth) % 2 == 0,
        size_at(0) == UNIT,
{
    let e = (MAX_DEPTH + 1 - depth) as nat;
    vstd::arithmetic::power2::lemma_pow2_adds(e, depth);
    lemma2_to64();
    lemma_pow2_unfold(e);
    lemma_pow2_pos((e - 1) as nat);
    if e < 31 {
        lemma_pow2_strictly_increases(e, 31);
    }
}

} // verus!
