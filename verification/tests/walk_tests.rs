use voxel_octree::color::Color;
use voxel_octree::grid::{Point3, UNIT};
use voxel_octree::octant::Octant;
use voxel_octree::octree::Octree;
use voxel_octree::walk::walk;

fn shade(alpha: f32) -> Color {
    Color::new(0.0f32.to_bits(), 0.5f32.to_bits(), 0.0f32.to_bits(), alpha.to_bits())
}

fn nth(o: &Octant, i: usize) -> &Octant {
    &o.children.as_ref().unwrap()[i]
}

fn nth_mut(o: &mut Octant, i: usize) -> &mut Octant {
    &mut o.children.as_mut().unwrap()[i]
}

fn subdivide_all(o: &mut Octant, levels: u32) {
    if levels == 0 {
        return;
    }
    o.create_children().unwrap();
    for child in o.children.as_mut().unwrap().iter_mut() {
        subdivide_all(child, levels - 1);
    }
}

#[test]
fn walk_of_a_single_leaf_is_the_leaf() {
    let tree = Octree::new();
    let all = tree.octants();
    assert_eq!(all.len(), 1);
    assert!(std::ptr::eq(all[0], &tree.root));
}

#[test]
fn walk_goes_through_the_root_and_then_its_children() {
    let mut tree = Octree::new();
    tree.root.create_children().unwrap();
    let all = tree.octants();
    assert_eq!(all.len(), 9);
    assert!(std::ptr::eq(all[0], &tree.root));
    for i in 0..8 {
        assert!(std::ptr::eq(all[i + 1], nth(&tree.root, i)));
    }
}

#[test]
fn walk_is_breadth_first() {
    let mut tree = Octree::new();
    tree.root.create_children().unwrap();
    nth_mut(&mut tree.root, 5).create_children().unwrap();
    nth_mut(&mut tree.root, 2).create_children().unwrap();
    nth_mut(nth_mut(&mut tree.root, 2), 7).create_children().unwrap();
    let all = tree.octants();
    assert_eq!(all.len(), 1 + 8 + 16 + 8);
    let depths: Vec<u32> = all.iter().map(|o| o.depth).collect();
    let mut sorted = depths.clone();
    sorted.sort();
    assert_eq!(depths, sorted);
    // the second level: the children of child 2, then those of child 5
    for i in 0..8 {
        assert!(std::ptr::eq(all[9 + i], nth(nth(&tree.root, 2), i)));
        assert!(std::ptr::eq(all[17 + i], nth(nth(&tree.root, 5), i)));
        assert!(std::ptr::eq(all[25 + i], nth(nth(nth(&tree.root, 2), 7), i)));
    }
}

#[test]
fn walk_of_a_full_tree_counts_every_octant() {
    let mut tree = Octree::with_color(shade(1.0));
    subdivide_all(&mut tree.root, 3);
    let all = walk(&tree.root);
    assert_eq!(all.len(), 1 + 8 + 64 + 512);
    assert_eq!(all.iter().filter(|o| o.is_leaf()).count(), 512);
    assert_eq!(all.iter().filter(|o| o.is_visible()).count(), 512);
    // the leaves fill the unit cube
    let volume: f64 = all
        .iter()
        .filter(|o| o.is_leaf())
        .map(|o| (o.get_size().unwrap() as f64 / UNIT as f64).powi(3))
        .sum();
    assert_eq!(volume, 1.0);
    // no two octants of a level share a centre
    let mut centres: Vec<(u32, Point3)> = all.iter().map(|o| (o.depth, o.position)).collect();
    centres.sort_by_key(|(d, p)| (*d, p.x, p.y, p.z));
    centres.dedup();
    assert_eq!(centres.len(), all.len());
}

#[test]
fn walk_of_a_subtree_starts_at_its_root() {
    let mut tree = Octree::new();
    subdivide_all(&mut tree.root, 2);
    let sub = nth(&tree.root, 6);
    let all = walk(sub);
    assert_eq!(all.len(), 9);
    assert!(std::ptr::eq(all[0], sub));
    assert!(std::ptr::eq(all[8], nth(sub, 7)));
}

#[test]
fn walk_shows_position_and_size_of_each_octant() {
    let mut tree = Octree::new();
    tree.root.create_children().unwrap();
    let seen: Vec<(f64, f64, f64, f64)> = tree
        .octants()
        .iter()
        .map(|o| {
            let u = UNIT as f64;
            (
                o.position.x as f64 / u,
                o.position.y as f64 / u,
                o.position.z as f64 / u,
                o.get_size().unwrap() as f64 / u,
            )
        })
        .collect();
    assert_eq!(seen[0], (0.0, 0.0, 0.0, 1.0));
    assert_eq!(seen[1], (-0.25, -0.25, -0.25, 0.5));
    assert_eq!(seen[2], (-0.25, -0.25, 0.25, 0.5));
    assert_eq!(seen[8], (0.25, 0.25, 0.25, 0.5));
}
