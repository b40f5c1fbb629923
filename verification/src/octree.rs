//! The octree, and what a ray meets first in it.
use vstd::prelude::*;
use crate::color::Color;
use crate::descent::{
    leaf_near, lemma_leaf_holds_point, lemma_leaf_is_node, locate, path_near, path_to,
};
use crate::error::OctreeError;
use crate::grid::{
    abs, lemma_size_halves, max, square, Point, Point3, COORD_LIMIT, HALF_UNIT,
};
use crate::march::{
    exit_distance, lemma_empty_space_is_missed, lemma_march_end, lemma_miss_is_outside, march,
    Outcome, MARCH_REACH,
};
use crate::numeric::{lemma_floor_sqrt_exists, lemma_floor_sqrt_of_square};
use crate::octant::{lemma_sound_octant, node_at, steps, Octant};
use crate::ray::{
    cube_distance, distance_to_root_cube, lemma_unit_components, length_squared, point_at,
    travel, Ray, DIRECTION_UNIT, TRAVEL_LIMIT,
};
use crate::walk::{breadth_first, referents, walk};

verus! {

/// The octree: one root octant, which spans the world unit around the
/// origin, and all that hangs below it.
pub struct Octree {
    pub root: Octant,
}

/// Where a ray met the tree.
pub struct RaycastHit<'a> {
    /// The point of the ray at which the octant was found.
    pub position: Point3,
    /// The octant that was hit.
    pub octant: &'a Octant,
    /// Where the octant sits in the tree: from the root down, the index of
    /// the child to step to at each level. It names the octant for as long
    /// as no octant on the way to it is subdivided anew.
    pub path: Vec<usize>,
}

/// A ray that starts above the top face of the root cube and heads
/// straight down meets a tree that is a single leaf on that face, right
/// below where it started, whatever the colour of the leaf.
pub proof fn lemma_single_leaf_hit_from_above(tree: Octree, ray: Ray)
    requires
        tree.wf(),
        tree.root.leaf(),
        ray.origin@.in_world(),
        abs(ray.origin.x as int) <= HALF_UNIT,
        abs(ray.origin.y as int) <= HALF_UNIT,
        ray.origin.z > HALF_UNIT,
        ray.direction@ == (Point { x: 0, y: 0, z: -(DIRECTION_UNIT as int) }),
    ensures
        ray.valid(),
        tree.cast(ray).hit,
        tree.cast(ray).distance == ray.origin.z - HALF_UNIT,
        point_at(ray.origin@, ray.direction@, tree.cast(ray).distance) == (Point {
            x: ray.origin.x as int,
            y: ray.origin.y as int,
            z: HALF_UNIT as int,
        }),
        point_at(ray.origin@, ray.direction@, tree.cast(ray).distance).on_root_surface(),
        leaf_near(tree.root, point_at(ray.origin@, ray.direction@, tree.cast(ray).distance))
            == tree.root,
{
    let o = ray.origin@;
    let d = ray.direction@;
    let unit = DIRECTION_UNIT as int;
    let gap = o.z - HALF_UNIT;
    assert(length_squared(d) == unit * unit) by {
        assert((-unit) * (-unit) == unit * unit) by (nonlinear_arith);
        assert(0int * 0int == 0);
    }
    assert(cube_distance(o) == gap) by {
        assert(square(0) == 0);
        lemma_floor_sqrt_of_square(gap);
    }
    assert((gap * 0) / unit == 0);
    assert((gap * (-unit)) / unit == -gap) by {
        assert(gap * (-unit) == unit * (-gap)) by (nonlinear_arith);
        vstd::arithmetic::div_mod::lemma_div_multiples_vanish(-gap, unit);
    }
    let p = point_at(o, d, gap);
    assert(p == (Point { x: o.x, y: o.y, z: HALF_UNIT as int }));
    assert(march(tree.root, o, d, gap, gap + MARCH_REACH) == (Outcome {
        distance: gap,
        hit: true,
    }));
}

/// A ray through a subdivided tree that has no visible leaf meets nothing:
/// it goes through the empty space and leaves the root cube.
pub proof fn lemma_nothing_visible_is_missed(tree: Octree, ray: Ray)
    requires
        !tree.root.leaf(),
        forall|path: Seq<int>|
            (#[trigger] node_at(tree.root, path)) matches Some(n) ==> !n.visible(),
    ensures
        !tree.cast(ray).hit,
{
    let o = ray.origin@;
    let d = ray.direction@;
    let first = cube_distance(o);
    assert forall|s: int| first <= s implies !(#[trigger] leaf_near(
        tree.root,
        point_at(o, d, s),
    )).visible() by {
        let p = point_at(o, d, s);
        lemma_leaf_is_node(tree.root, p);
        assert(node_at(tree.root, path_near(tree.root, p)) == Some(leaf_near(tree.root, p)));
    }
    lemma_empty_space_is_missed(tree.root, o, d, first, first + MARCH_REACH);
}

/// A ray that starts beyond a face of the root cube and does not head back
/// towards that face meets nothing, whatever the tree holds.
pub proof fn lemma_heading_away_is_missed(tree: Octree, ray: Ray)
    requires
        ({
            ||| ray.origin.x > HALF_UNIT && ray.direction.x >= 0
            ||| ray.origin.x < -HALF_UNIT && ray.direction.x <= 0
            ||| ray.origin.y > HALF_UNIT && ray.direction.y >= 0
            ||| ray.origin.y < -HALF_UNIT && ray.direction.y <= 0
            ||| ray.origin.z > HALF_UNIT && ray.direction.z >= 0
            ||| ray.origin.z < -HALF_UNIT && ray.direction.z <= 0
        }),
    ensures
        !tree.cast(ray).hit,
        tree.cast(ray).distance == cube_distance(ray.origin@),
{
    let o = ray.origin@;
    let d = ray.direction@;
    let first = cube_distance(o);
    let qx = abs(o.x) - HALF_UNIT;
    let qy = abs(o.y) - HALF_UNIT;
    let qz = abs(o.z) - HALF_UNIT;
    let sum = square(max(qx, 0)) + square(max(qy, 0)) + square(max(qz, 0));
    assert(square(max(qx, 0)) >= 0 && square(max(qy, 0)) >= 0 && square(max(qz, 0)) >= 0)
        by (nonlinear_arith);
    lemma_floor_sqrt_exists(sum);
    assert(first >= 0);
    lemma_keeps_side(o.x, d.x, first);
    lemma_keeps_side(o.y, d.y, first);
    lemma_keeps_side(o.z, d.z, first);
}

/// A ray that goes forward moves no coordinate against its direction.
proof fn lemma_keeps_side(origin: int, component: int, t: int)
    requires
        0 <= t,
    ensures
        component >= 0 ==> travel(origin, component, t) >= origin,
        component <= 0 ==> travel(origin, component, t) <= origin,
{
    if component >= 0 {
        assert(t * component >= 0) by (nonlinear_arith)
            requires
                0 <= t,
                0 <= component,
        ;
    }
    if component <= 0 {
        assert(t * component <= 0) by (nonlinear_arith)
            requires
                0 <= t,
                component <= 0,
        ;
    }
}

/// The colour of a new tree: half green, a quarter opaque.
pub open spec fn default_color() -> Color {
    Color { red: 0, green: 0x3F00_0000, blue: 0, alpha: 0x3E80_0000 }
}

impl Octree {
    /// The tree is sound, and its root spans the world unit around the
    /// origin.
    pub open spec fn wf(&self) -> bool {
        &&& self.root.wf()
        &&& self.root.depth == 0
        &&& self.root.position@ == (Point { x: 0, y: 0, z: 0 })
    }

    /// How the march of `ray` through the tree ends. The march starts at
    /// the signed distance from the origin of the ray to the root cube, and
    /// goes no further than [`MARCH_REACH`] from there.
    pub open spec fn cast(&self, ray: Ray) -> Outcome {
        let start = cube_distance(ray.origin@);
        march(self.root, ray.origin@, ray.direction@, start, start + MARCH_REACH)
    }

    /// A tree of one leaf in the default colour.
    pub fn new() -> (tree: Octree)
        ensures
            tree.wf(),
            tree.root.leaf(),
            tree.root.color == default_color(),
    {
        Octree::with_color(Color::new(0, 0x3F00_0000, 0, 0x3E80_0000))
    }

    /// A tree of one leaf in the given colour.
    pub fn with_color(color: Color) -> (tree: Octree)
        ensures
            tree.wf(),
            tree.root.leaf(),
            tree.root.color == color,
    {
        proof {
            lemma_size_halves(0);
        }
        Octree { root: Octant::new(Point3::new(0, 0, 0), 0, color) }
    }

    /// Whether the tree is sound and its root spans the world unit around
    /// the origin.
    pub fn is_well_formed(&self) -> (b: bool)
        ensures
            b == self.wf(),
    {
        self.root.depth == 0 && self.root.position.x == 0 && self.root.position.y == 0
            && self.root.position.z == 0 && self.root.is_well_formed()
    }

    /// All the octants of the tree, leaves and others alike, breadth first:
    /// the root, then its children in their order, then theirs, and so on.
    pub fn octants(&self) -> (all: Vec<&Octant>)
        ensures
            referents(all@) == breadth_first(self.root),
    {
        walk(&self.root)
    }

    /// Follows `start` through the tree: the distance at which the march
    /// ended, and the leaf that stopped the ray, if one did.
    fn trace<'a>(&'a self, start: &Ray) -> (end: (i64, Option<&'a Octant>))
        requires
            self.wf(),
            start.valid(),
        ensures
            end.0 == self.cast(*start).distance,
            end.1 is Some == self.cast(*start).hit,
            -TRAVEL_LIMIT <= end.0 <= TRAVEL_LIMIT,
            end.1 matches Some(leaf) ==> *leaf == leaf_near(
                self.root,
                point_at(start.origin@, start.direction@, end.0 as int),
            ),
    {
        let first: i64 = distance_to_root_cube(&start.origin);
        let limit: i64 = first + MARCH_REACH;
        let mut t: i64 = first;
        proof {
            lemma_unit_components(start.direction@);
        }
        loop
            invariant
                self.wf(),
                start.valid(),
                start.direction@.within(2 * DIRECTION_UNIT),
                -HALF_UNIT <= first <= 2 * COORD_LIMIT,
                limit == first + MARCH_REACH,
                first <= t <= limit + MARCH_REACH,
                march(self.root, start.origin@, start.direction@, t as int, limit as int)
                    == self.cast(*start),
            decreases limit + MARCH_REACH + 1 - t,
        {
            let p = start.get_point(t);
            if t > limit || !p.is_in_root_cube() {
                return (t, None);
            }
            let leaf = locate(&self.root, &p);
            if self.root.is_leaf() || leaf.is_visible() {
                return (t, Some(leaf));
            }
            proof {
                lemma_sound_octant(*leaf);
            }
            t = t + exit_distance(leaf, &p, &start.direction);
        }
    }

    /// Finds what `ray` meets first in the tree.
    ///
    /// The ray is first brought to the root cube: it is moved along its
    /// direction by the signed distance from its origin to the cube, which
    /// takes it back where the origin lies inside. From there it is marched
    /// through the tree. At each point the leaf nearest to it is looked up,
    /// by stepping at each level to the child whose centre is nearest. A
    /// visible leaf stops the ray, and so does a root that has no children,
    /// visible or not. A leaf that is not visible is empty space: the ray
    /// moves on to where it leaves the cube of that leaf. The march ends
    /// without a hit once the ray is outside the root cube.
    ///
    /// To step to the nearest centre is a shortcut: inside the root cube it
    /// finds the leaf that holds the point, but the one step that brings
    /// the ray to the cube is exact only for a ray that heads straight for
    /// the nearest point of the cube. A ray that reaches the cube at a
    /// slant may be reported to miss it.
    ///
    /// On return the origin of `ray` is the last point that was looked at:
    /// the point of the hit, if there is one. A ray that is not valid is
    /// refused and left as it was.
    pub fn raycast<'a>(&'a self, ray: &mut Ray) -> (r: Result<Option<RaycastHit<'a>>, OctreeError>)
        requires
            self.wf(),
        ensures
            !old(ray).valid() ==> {
                &&& r is Err
                &&& r->Err_0 == OctreeError::InvalidGeometry
                &&& *final(ray) == *old(ray)
            },
            old(ray).valid() ==> {
                let end = self.cast(*old(ray));
                &&& final(ray).direction == old(ray).direction
                &&& final(ray).origin@ == point_at(
                    old(ray).origin@,
                    old(ray).direction@,
                    end.distance,
                )
                &&& r is Ok
                &&& r->Ok_0 is Some == end.hit
                &&& r->Ok_0 matches Some(hit) ==> {
                    &&& hit.position == final(ray).origin
                    &&& *hit.octant == leaf_near(self.root, hit.position@)
                }
            },
            r matches Ok(Some(hit)) ==> {
                &&& steps(hit.path@) == path_near(self.root, hit.position@)
                &&& node_at(self.root, steps(hit.path@)) == Some(*hit.octant)
                &&& hit.position@.in_root_cube()
                &&& hit.position@.in_box(hit.octant.position@, hit.octant.half())
                &&& hit.octant.leaf()
                &&& hit.octant.visible() || self.root.leaf()
            },
            r matches Ok(None) ==> !final(ray).origin@.in_root_cube(),
    {
        if !ray.is_valid() {
            return Err(OctreeError::InvalidGeometry);
        }
        let start: Ray = *ray;
        proof {
            let first = cube_distance(start.origin@);
            let o = start.origin@;
            let d = start.direction@;
            lemma_march_end(self.root, o, d, first, first + MARCH_REACH);
            if point_at(o, d, first).in_root_cube() {
                lemma_miss_is_outside(self.root, o, d, first, first);
            }
            let end = self.cast(start);
            if end.hit {
                lemma_size_halves(0);
                lemma_leaf_is_node(self.root, point_at(o, d, end.distance));
                lemma_leaf_holds_point(self.root, point_at(o, d, end.distance));
            }
        }
        let (distance, found) = self.trace(&start);
        let position = start.get_point(distance);
        ray.origin = position;
        match found {
            None => Ok(None),
            Some(octant) => {
                let path = path_to(&self.root, &position);
                Ok(Some(RaycastHit { position, octant, path }))
            },
        }
    }
}

impl Default for Octree {
    fn default() -> (tree: Octree)
        ensures
            tree.wf(),
            tree.root.leaf(),
            tree.root.color == default_color(),
    {
        Octree::new()
    }
}

} // verus!
