//! The march of a ray through the leaves of the tree: from one leaf that is
//! empty space to the next, until a visible leaf stops the ray or the ray
//! leaves the root cube.
use vstd::prelude::*;
use crate::descent::{leaf_near, lemma_leaf_near};
use crate::grid::{
    abs, max, min, size_of_depth, Point, Point3, COORD_LIMIT, HALF_UNIT, UNIT,
};
use crate::numeric::lemma_square_monotonic;
use crate::octant::{lemma_fitting_cube, Octant};
use crate::ray::{is_unit, lemma_unit_components, point_at, travel, DIRECTION_UNIT};

verus! {

/// How far past the point where it meets the root cube a ray is followed:
/// four edges of the cube, more than twice its diagonal.
pub const MARCH_REACH: i64 = 0x2_0000_0000;

/// How the march of a ray ended.
pub struct Outcome {
    /// Distance along the ray, from its origin, of the last point looked at.
    pub distance: int,
    /// Whether the octant found at that point stopped the ray.
    pub hit: bool,
}

/// How far a ray that stands at coordinate `p` of one axis, inside a cube
/// whose centre has coordinate `center` and whose half-edge is `half`, must
/// go to leave the cube along that axis: to come past the high face where
/// it heads up, onto the low face or past it where it heads down. A point
/// on the face between two cubes counts to the lower one, as it does when
/// the nearest child is picked. `component` is the direction's component
/// along the axis. The distance is rounded up to a whole number of grid
/// units. A ray that does not move along the axis never leaves along it:
/// it is given the whole reach of a march, which also bounds every other
/// answer.
pub open spec fn axis_exit(p: int, center: int, half: int, component: int) -> int {
    if component == 0 {
        MARCH_REACH as int
    } else {
        let gap = if component > 0 {
            center + half - p
        } else {
            p - (center - half)
        };
        min(
            MARCH_REACH as int,
            ((max(gap, 0) + 1) * DIRECTION_UNIT + abs(component) - 1) / abs(component),
        )
    }
}

/// How far a ray that stands at `p` in the cube of `leaf` must go to leave
/// that cube: the least of what it takes along each axis.
pub open spec fn exit_step(leaf: Octant, p: Point, d: Point) -> int {
    let c = leaf.position@;
    let h = leaf.half();
    min(axis_exit(p.x, c.x, h, d.x), min(axis_exit(p.y, c.y, h, d.y), axis_exit(p.z, c.z, h, d.z)))
}

/// A ray always moves on when it leaves a cube, and never by more than the
/// reach of a march.
pub proof fn lemma_exit_step_bounds(leaf: Octant, p: Point, d: Point)
    ensures
        1 <= exit_step(leaf, p, d) <= MARCH_REACH,
{
    let c = leaf.position@;
    let h = leaf.half();
    lemma_axis_exit_bounds(p.x, c.x, h, d.x);
    lemma_axis_exit_bounds(p.y, c.y, h, d.y);
    lemma_axis_exit_bounds(p.z, c.z, h, d.z);
}

/// The distance to leave a cube along an axis is at least one grid unit,
/// and never more than the reach of a march.
pub proof fn lemma_axis_exit_bounds(p: int, center: int, half: int, component: int)
    ensures
        1 <= axis_exit(p, center, half, component) <= MARCH_REACH,
{
    if component != 0 {
        let gap = if component > 0 {
            center + half - p
        } else {
            p - (center - half)
        };
        let size = abs(component);
        let scaled = (max(gap, 0) + 1) * DIRECTION_UNIT;
        vstd::arithmetic::div_mod::lemma_div_is_ordered(size, scaled + size - 1, size);
        vstd::arithmetic::div_mod::lemma_div_basics(size);
    }
}

/// How far a ray must go to leave a cube along one axis.
fn axis_exit_distance(p: i64, center: i64, half: i64, component: i64) -> (t: i64)
    requires
        -COORD_LIMIT <= p <= COORD_LIMIT,
        -COORD_LIMIT <= center <= COORD_LIMIT,
        0 <= half <= HALF_UNIT,
        -2 * DIRECTION_UNIT <= component <= 2 * DIRECTION_UNIT,
    ensures
        t == axis_exit(p as int, center as int, half as int, component as int),
        1 <= t <= MARCH_REACH,
{
    proof {
        lemma_axis_exit_bounds(p as int, center as int, half as int, component as int);
    }
    if component == 0 {
        return MARCH_REACH;
    }
    let gap: i64 = if component > 0 {
        center + half - p
    } else {
        p - (center - half)
    };
    let clamped: u128 = if gap > 0 { gap as u128 } else { 0 };
    let size: u128 = if component > 0 { component as u128 } else { (-component) as u128 };
    let scaled: u128 = (clamped + 1) * 0x4000_0000;
    let q: u128 = (scaled + size - 1) / size;
    if q > MARCH_REACH as u128 {
        MARCH_REACH
    } else {
        q as i64
    }
}

/// How far a ray that stands at `p` in the cube of `leaf` must go to leave
/// that cube.
pub fn exit_distance(leaf: &Octant, p: &Point3, direction: &Point3) -> (step: i64)
    requires
        leaf.fits(),
        p@.in_world(),
        direction@.within(2 * DIRECTION_UNIT),
    ensures
        step == exit_step(*leaf, p@, direction@),
        1 <= step <= MARCH_REACH,
{
    proof {
        lemma_fitting_cube(*leaf);
    }
    let half: i64 = size_of_depth(leaf.depth) / 2;
    let tx = axis_exit_distance(p.x, leaf.position.x, half, direction.x);
    let ty = axis_exit_distance(p.y, leaf.position.y, half, direction.y);
    let tz = axis_exit_distance(p.z, leaf.position.z, half, direction.z);
    if tx <= ty && tx <= tz {
        tx
    } else if ty <= tz {
        ty
    } else {
        tz
    }
}

/// A ray that goes `delta` further along an axis on which it heads up moves
/// up by at least `k` grid units, where `delta` times its component makes up
/// for `k` units.
pub proof fn lemma_travel_up(origin: int, component: int, t: int, delta: int, k: int)
    requires
        delta * component >= k * DIRECTION_UNIT,
    ensures
        travel(origin, component, t + delta) >= travel(origin, component, t) + k,
{
    let before = t * component;
    let after = (t + delta) * component;
    assert(after == before + delta * component) by (nonlinear_arith)
        requires
            before == t * component,
            after == (t + delta) * component,
    ;
    let unit = DIRECTION_UNIT as int;
    assert((before + k * unit) / unit == before / unit + k) by {
        vstd::arithmetic::div_mod::lemma_hoist_over_denominator(before, k, unit as nat);
    }
    vstd::arithmetic::div_mod::lemma_div_is_ordered(before + k * unit, after, unit);
}

/// A ray that goes `delta` further along an axis on which it heads down
/// moves down by at least `k` grid units, where `delta` times its component
/// makes up for `k` units.
pub proof fn lemma_travel_down(origin: int, component: int, t: int, delta: int, k: int)
    requires
        delta * (-component) >= k * DIRECTION_UNIT,
    ensures
        travel(origin, component, t + delta) <= travel(origin, component, t) - k,
{
    let before = t * component;
    let after = (t + delta) * component;
    assert(after == before - delta * (-component)) by (nonlinear_arith)
        requires
            before == t * component,
            after == (t + delta) * component,
    ;
    let unit = DIRECTION_UNIT as int;
    assert((before - k * unit) / unit == before / unit - k) by {
        vstd::arithmetic::div_mod::lemma_hoist_over_denominator(before, -k, unit as nat);
        assert((-k) * unit == -(k * unit)) by (nonlinear_arith);
    }
    vstd::arithmetic::div_mod::lemma_div_is_ordered(after, before - k * unit, unit);
}

/// A whole number of times `size`, rounded up, is no less than what was
/// divided.
pub proof fn lemma_rounded_up(n: int, size: int)
    requires
        0 < size,
        0 <= n,
    ensures
        ((n + size - 1) / size) * size >= n,
        (n + size - 1) / size <= n,
{
    let q = (n + size - 1) / size;
    vstd::arithmetic::div_mod::lemma_fundamental_div_mod(n + size - 1, size);
    vstd::arithmetic::div_mod::lemma_mod_bound(n + size - 1, size);
    assert(size * q == q * size) by (nonlinear_arith);
    if n == 0 {
        vstd::arithmetic::div_mod::lemma_basic_div(n + size - 1, size);
    } else {
        assert(q <= n) by (nonlinear_arith)
            requires
                q * size <= n + size - 1,
                0 < size,
                0 < n,
        ;
    }
}

/// The step that leaves a cube along one axis takes the ray out of the
/// cube: above its high face where the ray heads up, below its low face
/// where it heads down.
pub proof fn lemma_axis_exit_leaves(
    origin: int,
    component: int,
    t: int,
    center: int,
    half: int,
    delta: int,
)
    requires
        component != 0,
        center - half <= travel(origin, component, t) <= center + half,
        delta >= ({
            let p = travel(origin, component, t);
            let gap = if component > 0 {
                center + half - p
            } else {
                p - (center - half)
            };
            ((gap + 1) * DIRECTION_UNIT + abs(component) - 1) / abs(component)
        }),
    ensures
        component > 0 ==> travel(origin, component, t + delta) > center + half,
        component < 0 ==> travel(origin, component, t + delta) < center - half,
{
    let p = travel(origin, component, t);
    let gap = if component > 0 {
        center + half - p
    } else {
        p - (center - half)
    };
    let size = abs(component);
    let scaled = (gap + 1) * DIRECTION_UNIT;
    let least = (scaled + size - 1) / size;
    lemma_rounded_up(scaled, size);
    assert(delta * size >= scaled) by (nonlinear_arith)
        requires
            delta >= least,
            least * size >= scaled,
            size > 0,
    ;
    if component > 0 {
        lemma_travel_up(origin, component, t, delta, gap + 1);
    } else {
        lemma_travel_down(origin, component, t, delta, gap + 1);
    }
}

/// A unit direction has a component of at least half the unit.
pub proof fn lemma_main_component(d: Point)
    requires
        is_unit(d),
    ensures
        2 * abs(d.x) >= DIRECTION_UNIT || 2 * abs(d.y) >= DIRECTION_UNIT || 2 * abs(d.z)
            >= DIRECTION_UNIT,
{
    let half = DIRECTION_UNIT / 2;
    if abs(d.x) <= half && abs(d.y) <= half && abs(d.z) <= half {
        lemma_square_monotonic(abs(d.x), half as int);
        lemma_square_monotonic(abs(d.y), half as int);
        lemma_square_monotonic(abs(d.z), half as int);
        assert(abs(d.x) * abs(d.x) == d.x * d.x) by (nonlinear_arith);
        assert(abs(d.y) * abs(d.y) == d.y * d.y) by (nonlinear_arith);
        assert(abs(d.z) * abs(d.z) == d.z * d.z) by (nonlinear_arith);
        assert(0x2000_0000int * 0x2000_0000int == 0x400_0000_0000_0000int);
        assert(0x4000_0000int * 0x4000_0000int == 0x1000_0000_0000_0000int);
    }
}

/// Along an axis on which the direction has a component of at least half
/// the unit, a ray leaves a cube no larger than the root cube well within
/// the reach of a march.
pub proof fn lemma_main_axis_exit(p: int, center: int, half: int, component: int)
    requires
        2 * abs(component) >= DIRECTION_UNIT,
        abs(component) <= 2 * DIRECTION_UNIT,
        0 <= half <= HALF_UNIT,
        center - half <= p <= center + half,
    ensures
        axis_exit(p, center, half, component) < MARCH_REACH,
{
    let gap = if component > 0 {
        center + half - p
    } else {
        p - (center - half)
    };
    let size = abs(component);
    let scaled = (gap + 1) * 0x4000_0000 + size - 1;
    assert(0 <= gap <= 0x8000_0000);
    assert(0x2000_0000 <= size <= 0x8000_0000);
    assert(scaled / 0x2000_0000 < MARCH_REACH);
    vstd::arithmetic::div_mod::lemma_div_is_ordered_by_denominator(scaled, 0x2000_0000, size);
}

/// The step out of the cube of a leaf takes the ray out of that cube: a
/// march never looks at the same empty leaf twice.
pub proof fn lemma_step_leaves_cube(leaf: Octant, origin: Point, d: Point, t: int)
    requires
        leaf.fits(),
        is_unit(d),
        point_at(origin, d, t).in_box(leaf.position@, leaf.half()),
    ensures
        !point_at(origin, d, t + exit_step(leaf, point_at(origin, d, t), d)).in_box(
            leaf.position@,
            leaf.half(),
        ),
{
    let p = point_at(origin, d, t);
    let c = leaf.position@;
    let h = leaf.half();
    let step = exit_step(leaf, p, d);
    lemma_fitting_cube(leaf);
    lemma_unit_components(d);
    lemma_main_component(d);
    lemma_axis_exit_bounds(p.x, c.x, h, d.x);
    lemma_axis_exit_bounds(p.y, c.y, h, d.y);
    lemma_axis_exit_bounds(p.z, c.z, h, d.z);
    if 2 * abs(d.x) >= DIRECTION_UNIT {
        lemma_main_axis_exit(p.x, c.x, h, d.x);
    } else if 2 * abs(d.y) >= DIRECTION_UNIT {
        lemma_main_axis_exit(p.y, c.y, h, d.y);
    } else {
        lemma_main_axis_exit(p.z, c.z, h, d.z);
    }
    assert(step < MARCH_REACH);
    if step == axis_exit(p.x, c.x, h, d.x) {
        lemma_axis_exit_leaves(origin.x, d.x, t, c.x, h, step);
    } else if step == axis_exit(p.y, c.y, h, d.y) {
        lemma_axis_exit_leaves(origin.y, d.y, t, c.y, h, step);
    } else {
        lemma_axis_exit_leaves(origin.z, d.z, t, c.z, h, step);
    }
}

/// What is left to go of a march that has come to `t` and may go to `limit`.
pub open spec fn march_left(t: int, limit: int) -> int {
    if t <= limit {
        limit + 1 - t
    } else {
        0
    }
}

/// The march of a ray through the tree below `root`, from the point at
/// distance `t` along it.
///
/// The march ends without a hit where the ray has gone past `limit` or the
/// point lies outside the root cube. Otherwise the leaf nearest to the
/// point is looked up. If it is visible, or the root itself is a leaf, the
/// march ends there with a hit. If not, the leaf is empty space: the ray
/// goes on to where it leaves the cube of that leaf, and the march goes on
/// from there.
pub open spec fn march(root: Octant, origin: Point, d: Point, t: int, limit: int) -> Outcome
    decreases march_left(t, limit),
{
    let p = point_at(origin, d, t);
    if t > limit || !p.in_root_cube() {
        Outcome { distance: t, hit: false }
    } else if root.leaf() || leaf_near(root, p).visible() {
        Outcome { distance: t, hit: true }
    } else {
        proof {
            lemma_exit_step_bounds(leaf_near(root, p), p, d);
        }
        march(root, origin, d, t + exit_step(leaf_near(root, p), p, d), limit)
    }
}

/// What the end of a march says of the tree. A march never goes back. A
/// hit lies on or inside the root cube, short of the limit, and at a leaf
/// that is visible unless the root itself is a leaf. A march without a hit
/// ended beyond the limit or outside the root cube.
pub proof fn lemma_march_end(root: Octant, origin: Point, d: Point, t: int, limit: int)
    requires
        root.wf(),
    ensures
        ({
            let end = march(root, origin, d, t, limit);
            let p = point_at(origin, d, end.distance);
            &&& t <= end.distance
            &&& end.hit ==> {
                &&& end.distance <= limit
                &&& p.in_root_cube()
                &&& leaf_near(root, p).leaf()
                &&& root.leaf() || leaf_near(root, p).visible()
            }
            &&& !end.hit ==> end.distance > limit || !p.in_root_cube()
        }),
    decreases march_left(t, limit),
{
    let p = point_at(origin, d, t);
    lemma_leaf_near(root, p);
    if t > limit || !p.in_root_cube() {
    } else if root.leaf() || leaf_near(root, p).visible() {
    } else {
        lemma_exit_step_bounds(leaf_near(root, p), p, d);
        lemma_march_end(root, origin, d, t + exit_step(leaf_near(root, p), p, d), limit);
    }
}

/// A ray that has been inside the root cube is outside it once it has gone
/// further than the reach of a march.
pub proof fn lemma_beyond_reach(origin: Point, d: Point, start: int, t: int)
    requires
        is_unit(d),
        point_at(origin, d, start).in_root_cube(),
        t > start + MARCH_REACH,
    ensures
        !point_at(origin, d, t).in_root_cube(),
{
    lemma_main_component(d);
    lemma_unit_components(d);
    let delta = t - start;
    if 2 * abs(d.x) >= DIRECTION_UNIT {
        lemma_far_along(origin.x, d.x, start, delta);
    } else if 2 * abs(d.y) >= DIRECTION_UNIT {
        lemma_far_along(origin.y, d.y, start, delta);
    } else {
        lemma_far_along(origin.z, d.z, start, delta);
    }
}

/// Along an axis on which the direction has a component of at least half
/// the unit, a ray that goes further than the reach of a march moves by
/// more than two edges of the root cube.
proof fn lemma_far_along(origin: int, component: int, start: int, delta: int)
    requires
        2 * abs(component) >= DIRECTION_UNIT,
        delta > MARCH_REACH,
    ensures
        component > 0 ==> travel(origin, component, start + delta) >= travel(
            origin,
            component,
            start,
        ) + 2 * UNIT,
        component < 0 ==> travel(origin, component, start + delta) <= travel(
            origin,
            component,
            start,
        ) - 2 * UNIT,
{
    let size = abs(component);
    assert(delta * size >= 0x1_0000_0000 * 0x4000_0000) by (nonlinear_arith)
        requires
            delta >= 0x2_0000_0000,
            size >= 0x2000_0000,
    ;
    if component > 0 {
        lemma_travel_up(origin, component, start, delta, 0x1_0000_0000);
    } else {
        lemma_travel_down(origin, component, start, delta, 0x1_0000_0000);
    }
}

/// A march that starts inside the root cube and may go as far as the reach
/// of a march is never cut short: where it ends without a hit, the ray has
/// left the root cube.
pub proof fn lemma_miss_is_outside(
    root: Octant,
    origin: Point,
    d: Point,
    start: int,
    t: int,
)
    requires
        is_unit(d),
        point_at(origin, d, start).in_root_cube(),
        start <= t,
    ensures
        ({
            let end = march(root, origin, d, t, start + MARCH_REACH);
            !end.hit ==> !point_at(origin, d, end.distance).in_root_cube()
        }),
    decreases march_left(t, start + MARCH_REACH),
{
    let limit = start + MARCH_REACH;
    let p = point_at(origin, d, t);
    if t > limit {
        lemma_beyond_reach(origin, d, start, t);
    } else if !p.in_root_cube() {
    } else if root.leaf() || leaf_near(root, p).visible() {
    } else {
        lemma_exit_step_bounds(leaf_near(root, p), p, d);
        lemma_miss_is_outside(
            root,
            origin,
            d,
            start,
            t + exit_step(leaf_near(root, p), p, d),
        );
    }
}

/// A march through a subdivided tree in which no leaf that the ray comes
/// by is visible ends without a hit: empty space never stops a ray.
pub proof fn lemma_empty_space_is_missed(
    root: Octant,
    origin: Point,
    d: Point,
    t: int,
    limit: int,
)
    requires
        !root.leaf(),
        forall|s: int| t <= s ==> !(#[trigger] leaf_near(root, point_at(origin, d, s))).visible(),
    ensures
        !march(root, origin, d, t, limit).hit,
    decreases march_left(t, limit),
{
    let p = point_at(origin, d, t);
    if t > limit || !p.in_root_cube() {
    } else {
        assert(!leaf_near(root, point_at(origin, d, t)).visible());
        lemma_exit_step_bounds(leaf_near(root, p), p, d);
        lemma_empty_space_is_missed(
            root,
            origin,
            d,
            t + exit_step(leaf_near(root, p), p, d),
            limit,
        );
    }
}

} // verus!
