use voxel_octree::color::Color;
use voxel_octree::error::OctreeError;
use voxel_octree::grid::{Point3, COORD_LIMIT, HALF_UNIT, MAX_DEPTH, UNIT};
use voxel_octree::octant::Octant;

fn rgba(red: f32, green: f32, blue: f32, alpha: f32) -> Color {
    Color::new(red.to_bits(), green.to_bits(), blue.to_bits(), alpha.to_bits())
}

fn world(v: i64) -> f64 {
    v as f64 / UNIT as f64
}

fn root_octant() -> Octant {
    Octant::new(Point3::new(0, 0, 0), 0, rgba(0.0, 0.5, 0.0, 0.25))
}

fn children_of(o: &Octant) -> &Vec<Octant> {
    o.children.as_ref().unwrap()
}

#[test]
fn new_octant_is_a_leaf_with_what_it_was_given() {
    let c = rgba(0.1, 0.2, 0.3, 0.4);
    let o = Octant::new(Point3::new(1, -2, 3), 7, c);
    assert!(o.children.is_none());
    assert_eq!(o.color, c);
    assert_eq!(o.position, Point3::new(1, -2, 3));
    assert_eq!(o.depth, 7);
}

#[test]
fn size_is_the_unit_halved_once_per_level() {
    for d in 0..=MAX_DEPTH {
        let o = Octant::new(Point3::new(0, 0, 0), d, rgba(0.0, 0.0, 0.0, 1.0));
        let size = o.get_size().unwrap();
        assert_eq!(size, UNIT >> d);
        assert_eq!(world(size), 1.0 / 2f64.powi(d as i32));
    }
}

#[test]
fn size_of_an_octant_too_deep_is_refused() {
    for d in [MAX_DEPTH + 1, 32, 64, u32::MAX] {
        let o = Octant::new(Point3::new(0, 0, 0), d, rgba(0.0, 0.0, 0.0, 1.0));
        assert_eq!(o.get_size(), Err(OctreeError::InvalidGeometry));
    }
}

#[test]
fn children_report_half_the_size_of_their_parent() {
    let mut o = root_octant();
    for d in 0..MAX_DEPTH {
        assert_eq!(o.depth, d);
        let size = o.get_size().unwrap();
        assert_eq!(o.create_children(), Ok(()));
        for child in children_of(&o) {
            assert_eq!(child.depth, d + 1);
            assert_eq!(child.get_size().unwrap() * 2, size);
            assert_eq!(world(child.get_size().unwrap()), world(size) / 2.0);
        }
        o = o.children.unwrap().pop().unwrap();
    }
    assert_eq!(o.depth, MAX_DEPTH);
    assert_eq!(o.get_size(), Ok(2));
}

#[test]
fn octant_is_a_leaf_or_has_eight_children() {
    let mut o = root_octant();
    assert!(o.is_leaf());
    assert!(o.children.is_none());
    o.create_children().unwrap();
    assert!(!o.is_leaf());
    assert_eq!(children_of(&o).len(), 8);
    for child in children_of(&o) {
        assert!(child.is_leaf());
    }
    o.children.as_mut().unwrap()[3].create_children().unwrap();
    assert!(!children_of(&o)[3].is_leaf());
    assert_eq!(children_of(&children_of(&o)[3]).len(), 8);
    assert!(o.is_well_formed());
}

#[test]
fn children_come_in_the_order_x_then_y_then_z() {
    let mut o = root_octant();
    o.create_children().unwrap();
    let cs = children_of(&o);
    let mut index = 0;
    for x in 0..2 {
        for y in 0..2 {
            for z in 0..2 {
                let expected = (
                    x as f64 * 0.5 - 0.25,
                    y as f64 * 0.5 - 0.25,
                    z as f64 * 0.5 - 0.25,
                );
                let p = cs[index].position;
                assert_eq!((world(p.x), world(p.y), world(p.z)), expected, "child {}", index);
                assert_eq!(index, 4 * x + 2 * y + z);
                index += 1;
            }
        }
    }
    assert_eq!(cs[0].position, Point3::new(-HALF_UNIT / 2, -HALF_UNIT / 2, -HALF_UNIT / 2));
    assert_eq!(cs[1].position, Point3::new(-HALF_UNIT / 2, -HALF_UNIT / 2, HALF_UNIT / 2));
    assert_eq!(cs[2].position, Point3::new(-HALF_UNIT / 2, HALF_UNIT / 2, -HALF_UNIT / 2));
    assert_eq!(cs[4].position, Point3::new(HALF_UNIT / 2, -HALF_UNIT / 2, -HALF_UNIT / 2));
    assert_eq!(cs[7].position, Point3::new(HALF_UNIT / 2, HALF_UNIT / 2, HALF_UNIT / 2));
}

#[test]
fn child_position_agrees_with_create_children() {
    let mut o = Octant::new(Point3::new(1000, -2000, 3000), 20, rgba(0.0, 0.0, 0.0, 1.0));
    o.create_children().unwrap();
    for i in 0..8 {
        assert_eq!(children_of(&o)[i].position, o.child_position(i));
    }
    // depth 21 has an edge of 2^10 grid units
    assert_eq!(o.child_position(0), Point3::new(1000 - 512, -2000 - 512, 3000 - 512));
    assert_eq!(o.child_position(5), Point3::new(1000 + 512, -2000 - 512, 3000 + 512));
}

#[test]
fn children_tile_the_unit_cube() {
    let mut o = root_octant();
    o.create_children().unwrap();
    let cs = children_of(&o);
    // every corner of every child is a point of the 3 x 3 x 3 lattice -0.5, 0, 0.5
    let lattice = [-0.5, 0.0, 0.5];
    let mut volume = 0.0;
    for child in cs {
        let h = world(child.get_size().unwrap()) / 2.0;
        assert_eq!(h, 0.25);
        let p = child.position;
        for (c, name) in [(p.x, "x"), (p.y, "y"), (p.z, "z")] {
            assert!(lattice.contains(&(world(c) - h)), "{} low", name);
            assert!(lattice.contains(&(world(c) + h)), "{} high", name);
        }
        volume += (2.0 * h) * (2.0 * h) * (2.0 * h);
    }
    assert_eq!(volume, 1.0);
    // each of the eight cells between lattice points belongs to exactly one child
    for lx in 0..2 {
        for ly in 0..2 {
            for lz in 0..2 {
                let low = (lattice[lx], lattice[ly], lattice[lz]);
                let owners = cs
                    .iter()
                    .filter(|c| {
                        let h = world(c.get_size().unwrap()) / 2.0;
                        (world(c.position.x) - h, world(c.position.y) - h, world(c.position.z) - h)
                            == low
                    })
                    .count();
                assert_eq!(owners, 1);
            }
        }
    }
    // sample points: each lies in exactly one child, its high faces counted in
    let samples = [-HALF_UNIT + 1, -1, 0, 1, HALF_UNIT / 2, HALF_UNIT - 1, HALF_UNIT];
    for &x in &samples {
        for &y in &samples {
            for &z in &samples {
                let owners = cs
                    .iter()
                    .filter(|c| {
                        let h = c.get_size().unwrap() / 2;
                        let p = c.position;
                        p.x - h < x && x <= p.x + h && p.y - h < y && y <= p.y + h && p.z - h < z
                            && z <= p.z + h
                    })
                    .count();
                assert_eq!(owners, 1, "point {} {} {}", x, y, z);
            }
        }
    }
}

#[test]
fn children_inherit_the_colour() {
    let c = rgba(0.9, 0.8, 0.7, 0.6);
    let mut o = Octant::new(Point3::new(0, 0, 0), 0, c);
    o.create_children().unwrap();
    assert_eq!(o.color, c);
    for child in children_of(&o) {
        assert_eq!(child.color, c);
    }
}

#[test]
fn visibility_of_a_leaf_follows_alpha() {
    let visible = Octant::new(Point3::new(0, 0, 0), 0, rgba(0.0, 0.5, 0.0, 0.25));
    assert!(visible.is_visible());
    let hidden = Octant::new(Point3::new(0, 0, 0), 0, rgba(0.0, 0.5, 0.0, 0.0));
    assert!(!hidden.is_visible());
    let negative = Octant::new(Point3::new(0, 0, 0), 0, rgba(0.0, 0.5, 0.0, -1.0));
    assert!(!negative.is_visible());
}

#[test]
fn octant_with_children_is_never_visible() {
    for alpha in [0.0, 0.25, 1.0] {
        let mut o = Octant::new(Point3::new(0, 0, 0), 0, rgba(1.0, 1.0, 1.0, alpha));
        o.create_children().unwrap();
        assert!(!o.is_visible());
        for child in children_of(&o) {
            assert_eq!(child.is_visible(), alpha > 0.0);
        }
    }
}

#[test]
fn subdivision_is_deterministic() {
    let mut a = root_octant();
    let mut b = root_octant();
    a.create_children().unwrap();
    b.create_children().unwrap();
    let pa: Vec<(Point3, u32)> = children_of(&a).iter().map(|c| (c.position, c.depth)).collect();
    let pb: Vec<(Point3, u32)> = children_of(&b).iter().map(|c| (c.position, c.depth)).collect();
    assert_eq!(pa, pb);
    assert_eq!(pa.len(), 8);
}

#[test]
fn subdividing_again_replaces_the_children() {
    let mut o = root_octant();
    o.create_children().unwrap();
    o.children.as_mut().unwrap()[0].create_children().unwrap();
    o.children.as_mut().unwrap()[5].color = rgba(1.0, 0.0, 0.0, 1.0);
    assert!(!children_of(&o)[0].is_leaf());
    o.create_children().unwrap();
    assert_eq!(children_of(&o).len(), 8);
    for child in children_of(&o) {
        assert!(child.is_leaf());
        assert_eq!(child.color, o.color);
    }
}

#[test]
fn subdividing_at_the_deepest_level_is_refused() {
    let c = rgba(0.0, 0.0, 0.0, 1.0);
    let mut o = Octant::new(Point3::new(5, 5, 5), MAX_DEPTH, c);
    assert_eq!(o.create_children(), Err(OctreeError::InvalidGeometry));
    assert!(o.children.is_none());
    assert_eq!(o.position, Point3::new(5, 5, 5));
    assert_eq!(o.depth, MAX_DEPTH);
    assert_eq!(o.color, c);
    let mut deeper = Octant::new(Point3::new(0, 0, 0), MAX_DEPTH + 1, c);
    assert_eq!(deeper.create_children(), Err(OctreeError::InvalidGeometry));
    let mut last = Octant::new(Point3::new(5, 5, 5), MAX_DEPTH - 1, c);
    assert_eq!(last.create_children(), Ok(()));
    assert_eq!(children_of(&last)[0].position, Point3::new(4, 4, 4));
    assert_eq!(children_of(&last)[7].position, Point3::new(6, 6, 6));
    assert_eq!(children_of(&last)[7].get_size(), Ok(2));
}

#[test]
fn subdividing_outside_the_world_is_refused() {
    let c = rgba(0.0, 0.0, 0.0, 1.0);
    let mut o = Octant::new(Point3::new(COORD_LIMIT, 0, 0), 0, c);
    assert!(!o.is_fitting());
    assert_eq!(o.create_children(), Err(OctreeError::InvalidGeometry));
    assert!(o.children.is_none());
    let mut far = Octant::new(Point3::new(i64::MAX, i64::MIN, 0), 3, c);
    assert_eq!(far.create_children(), Err(OctreeError::InvalidGeometry));
    let mut edge = Octant::new(Point3::new(COORD_LIMIT - HALF_UNIT, 0, 0), 0, c);
    assert!(edge.is_fitting());
    assert_eq!(edge.create_children(), Ok(()));
    assert!(edge.is_well_formed());
}

#[test]
fn refused_subdivision_keeps_the_children() {
    let c = rgba(0.0, 0.0, 0.0, 1.0);
    let mut o = root_octant();
    o.create_children().unwrap();
    o.depth = MAX_DEPTH;
    assert_eq!(o.create_children(), Err(OctreeError::InvalidGeometry));
    assert_eq!(children_of(&o).len(), 8);
    assert_eq!(children_of(&o)[0].depth, 1);
    assert_eq!(children_of(&o)[0].color, rgba(0.0, 0.5, 0.0, 0.25));
    assert_ne!(children_of(&o)[0].color, c);
}

#[test]
fn well_formed_tree_is_recognised() {
    let mut o = root_octant();
    assert!(o.is_well_formed());
    o.create_children().unwrap();
    assert!(o.is_well_formed());
    o.children.as_mut().unwrap()[6].create_children().unwrap();
    assert!(o.is_well_formed());
    // a colour may change freely
    o.children.as_mut().unwrap()[2].color = rgba(1.0, 1.0, 1.0, 0.0);
    assert!(o.is_well_formed());
}

#[test]
fn broken_trees_are_recognised() {
    let mut missing = root_octant();
    missing.create_children().unwrap();
    missing.children.as_mut().unwrap().pop();
    assert!(!missing.is_well_formed());

    let mut empty = root_octant();
    empty.children = Some(Vec::new());
    assert!(!empty.is_well_formed());

    let mut moved = root_octant();
    moved.create_children().unwrap();
    moved.children.as_mut().unwrap()[1].position.x += 1;
    assert!(!moved.is_well_formed());

    let mut swapped = root_octant();
    swapped.create_children().unwrap();
    swapped.children.as_mut().unwrap().swap(0, 7);
    assert!(!swapped.is_well_formed());

    let mut wrong_depth = root_octant();
    wrong_depth.create_children().unwrap();
    wrong_depth.children.as_mut().unwrap()[4].depth = 2;
    assert!(!wrong_depth.is_well_formed());

    let mut deep_fault = root_octant();
    deep_fault.create_children().unwrap();
    deep_fault.children.as_mut().unwrap()[4].create_children().unwrap();
    deep_fault.children.as_mut().unwrap()[4].children.as_mut().unwrap()[0].depth = 9;
    assert!(!deep_fault.is_well_formed());

    let too_deep = Octant::new(Point3::new(0, 0, 0), MAX_DEPTH + 1, rgba(0.0, 0.0, 0.0, 1.0));
    assert!(!too_deep.is_well_formed());
}
