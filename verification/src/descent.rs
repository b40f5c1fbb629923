//! From a point down the tree to the leaf that holds it, by stepping at each
//! level to the child whose centre is nearest to the point.
use vstd::prelude::*;
use crate::grid::{lemma_size_halves, square, Point, Point3, COORD_LIMIT, MAX_DEPTH};
use crate::numeric::lemma_product_bound;
use crate::octant::{
    cell_index, lemma_child_corners, lemma_fitting_cube, lemma_sound_octant, node_at, steps,
    Octant,
};

verus! {

/// Child `i` is the nearest to `p` by its centre, and the first such in the
/// order of the children.
pub open spec fn is_nearest(children: Seq<Octant>, p: Point, i: int) -> bool {
    &&& 0 <= i < children.len()
    &&& forall|j: int|
        0 <= j < i ==> p.distance_squared(children[i].position@) < p.distance_squared(
            (#[trigger] children[j]).position@,
        )
    &&& forall|j: int|
        i <= j < children.len() ==> p.distance_squared(children[i].position@)
            <= p.distance_squared((#[trigger] children[j]).position@)
}

/// Index of the child nearest to `p`.
pub open spec fn nearest_index(children: Seq<Octant>, p: Point) -> int {
    choose|i: int| is_nearest(children, p, i)
}

/// Only one child is the nearest.
pub proof fn lemma_nearest_unique(children: Seq<Octant>, p: Point, i: int, k: int)
    requires
        is_nearest(children, p, i),
        is_nearest(children, p, k),
    ensures
        i == k,
{
    if i < k {
        assert(p.distance_squared(children[k].position@) < p.distance_squared(
            children[i].position@,
        ));
    } else if k < i {
        assert(p.distance_squared(children[i].position@) < p.distance_squared(
            children[k].position@,
        ));
    }
}

/// The child that passes for the nearest is the one.
pub proof fn lemma_nearest_is(children: Seq<Octant>, p: Point, i: int)
    requires
        is_nearest(children, p, i),
    ensures
        nearest_index(children, p) == i,
{
    lemma_nearest_unique(children, p, i, nearest_index(children, p));
}

/// Square of the distance between two points of the world.
fn distance_squared(a: &Point3, b: &Point3) -> (d: u128)
    requires
        a@.in_world(),
        b@.in_world(),
    ensures
        d == a@.distance_squared(b@),
{
    let dx: i128 = a.x as i128 - b.x as i128;
    let dy: i128 = a.y as i128 - b.y as i128;
    let dz: i128 = a.z as i128 - b.z as i128;
    proof {
        lemma_product_bound(dx as int, dx as int, 2 * COORD_LIMIT, 2 * COORD_LIMIT);
        lemma_product_bound(dy as int, dy as int, 2 * COORD_LIMIT, 2 * COORD_LIMIT);
        lemma_product_bound(dz as int, dz as int, 2 * COORD_LIMIT, 2 * COORD_LIMIT);
        assert(0x1_0000_0000_0000int * 0x1_0000_0000_0000int
            == 0x1_0000_0000_0000_0000_0000_0000int);
        assert(dx * dx >= 0 && dy * dy >= 0 && dz * dz >= 0) by (nonlinear_arith);
    }
    (dx * dx + dy * dy + dz * dz) as u128
}

/// Index of the child whose centre is nearest to `p`; of several that are
/// equally near, the first.
pub fn nearest_child(children: &Vec<Octant>, p: &Point3) -> (index: usize)
    requires
        children@.len() > 0,
        forall|i: int| 0 <= i < children@.len() ==> (#[trigger] children@[i]).position@.in_world(),
        p@.in_world(),
    ensures
        is_nearest(children@, p@, index as int),
        index == nearest_index(children@, p@),
{
    let mut best: usize = 0;
    let mut best_distance: u128 = distance_squared(p, &children[0].position);
    let mut i: usize = 1;
    while i < children.len()
        invariant
            1 <= i <= children@.len(),
            p@.in_world(),
            forall|k: int|
                0 <= k < children@.len() ==> (#[trigger] children@[k]).position@.in_world(),
            is_nearest(children@.take(i as int), p@, best as int),
            best_distance == p@.distance_squared(children@[best as int].position@),
        decreases children@.len() - i,
    {
        let d = distance_squared(p, &children[i].position);
        let ghost before = children@.take(i as int);
        let ghost after = children@.take(i + 1);
        proof {
            assert forall|j: int| 0 <= j < i implies #[trigger] after[j] == before[j] by {}
            assert(after[i as int] == children@[i as int]);
        }
        if d < best_distance {
            proof {
                assert forall|j: int| 0 <= j < i implies p@.distance_squared(
                    after[i as int].position@,
                ) < p@.distance_squared((#[trigger] after[j]).position@) by {
                    assert(after[j] == before[j]);
                    if j < best {
                        assert(p@.distance_squared(before[best as int].position@)
                            < p@.distance_squared(before[j].position@));
                    } else {
                        assert(p@.distance_squared(before[best as int].position@)
                            <= p@.distance_squared(before[j].position@));
                    }
                }
            }
            best = i;
            best_distance = d;
        } else {
            proof {
                assert forall|j: int| 0 <= j < best implies p@.distance_squared(
                    after[best as int].position@,
                ) < p@.distance_squared((#[trigger] after[j]).position@) by {
                    assert(after[j] == before[j]);
                }
                assert forall|j: int| best <= j < i + 1 implies p@.distance_squared(
                    after[best as int].position@,
                ) <= p@.distance_squared((#[trigger] after[j]).position@) by {
                    if j < i {
                        assert(after[j] == before[j]);
                    }
                }
            }
        }
        i = i + 1;
    }
    proof {
        assert(children@.take(i as int) == children@);
        lemma_nearest_is(children@, p@, best as int);
    }
    best
}

/// The leaf reached from `node` by stepping, at each level, to the child
/// nearest to `p`.
pub open spec fn leaf_near(node: Octant, p: Point) -> Octant
    decreases node,
{
    match node.children {
        None => node,
        Some(cs) => {
            let i = nearest_index(cs@, p);
            if 0 <= i < cs@.len() {
                leaf_near(cs@[i], p)
            } else {
                node
            }
        },
    }
}

/// The path from `node` to the leaf that lies nearest to `p`: at each
/// level the index of the child nearest to `p`.
pub open spec fn path_near(node: Octant, p: Point) -> Seq<int>
    decreases node,
{
    match node.children {
        None => Seq::empty(),
        Some(cs) => {
            let i = nearest_index(cs@, p);
            if 0 <= i < cs@.len() {
                seq![i] + path_near(cs@[i], p)
            } else {
                Seq::empty()
            }
        },
    }
}

/// The leaf that lies nearest to `p` is an octant of the tree: the one that
/// the path to it leads to.
pub proof fn lemma_leaf_is_node(node: Octant, p: Point)
    ensures
        node_at(node, path_near(node, p)) == Some(leaf_near(node, p)),
    decreases node,
{
    match node.children {
        None => {},
        Some(cs) => {
            let i = nearest_index(cs@, p);
            if 0 <= i < cs@.len() {
                lemma_leaf_is_node(cs@[i], p);
                let path = seq![i] + path_near(cs@[i], p);
                assert(path.drop_first() =~= path_near(cs@[i], p));
                assert(path[0] == i);
            }
        },
    }
}

/// The leaf of a sound tree that lies nearest to `p` is a leaf, and is
/// itself sound.
pub proof fn lemma_leaf_near(node: Octant, p: Point)
    requires
        node.wf(),
    ensures
        leaf_near(node, p).leaf(),
        leaf_near(node, p).wf(),
        node.leaf() ==> leaf_near(node, p) == node,
    decreases node,
{
    match node.children {
        None => {},
        Some(cs) => {
            let i = nearest_index(cs@, p);
            if 0 <= i < cs@.len() {
                lemma_leaf_near(cs@[i], p);
            } else {
                lemma_nearest_exists(cs@, p, cs@.len() as int);
                assert(cs@.take(cs@.len() as int) == cs@);
            }
        },
    }
}

/// Among any children, as long as there is one, one is the nearest.
pub proof fn lemma_nearest_exists(children: Seq<Octant>, p: Point, n: int)
    requires
        1 <= n <= children.len(),
    ensures
        exists|i: int| is_nearest(children.take(n), p, i),
    decreases n,
{
    let now = children.take(n);
    if n == 1 {
        assert(is_nearest(now, p, 0));
    } else {
        lemma_nearest_exists(children, p, n - 1);
        let before = children.take(n - 1);
        let b = choose|i: int| is_nearest(before, p, i);
        assert forall|j: int| 0 <= j < n - 1 implies #[trigger] now[j] == before[j] by {}
        if p.distance_squared(now[n - 1].position@) < p.distance_squared(before[b].position@) {
            assert forall|j: int| 0 <= j < n - 1 implies p.distance_squared(now[n - 1].position@)
                < p.distance_squared((#[trigger] now[j]).position@) by {
                assert(now[j] == before[j]);
                if j < b {
                    assert(p.distance_squared(before[b].position@) < p.distance_squared(
                        before[j].position@,
                    ));
                } else {
                    assert(p.distance_squared(before[b].position@) <= p.distance_squared(
                        before[j].position@,
                    ));
                }
            }
            assert(is_nearest(now, p, n - 1));
        } else {
            assert forall|j: int| 0 <= j < b implies p.distance_squared(now[b].position@)
                < p.distance_squared((#[trigger] now[j]).position@) by {
                assert(now[j] == before[j]);
            }
            assert forall|j: int| b <= j < n implies p.distance_squared(now[b].position@)
                <= p.distance_squared((#[trigger] now[j]).position@) by {
                if j < n - 1 {
                    assert(now[j] == before[j]);
                }
            }
            assert(is_nearest(now, p, b));
        }
    }
}

/// Of two centres at the same distance `e` below and above a point, the one
/// above is strictly nearer to what lies `a` above that point, the one
/// below is at least as near to what lies below it or on it.
pub proof fn lemma_nearer_side(a: int, e: int)
    requires
        e > 0,
    ensures
        a > 0 ==> square(a - e) < square(a + e),
        a <= 0 ==> square(a + e) <= square(a - e),
{
    assert(square(a + e) - square(a - e) == 4 * (a * e)) by (nonlinear_arith);
    assert(a > 0 ==> a * e > 0) by (nonlinear_arith)
        requires
            e > 0,
    ;
    assert(a <= 0 ==> a * e <= 0) by (nonlinear_arith)
        requires
            e > 0,
    ;
}

/// The child whose centre is nearest to a point is the child on whose side
/// of the parent's centre the point lies along each axis, the lower side
/// where the point is level with the centre. So the shortcut of stepping
/// to the nearest centre finds the child cell that holds the point.
pub proof fn lemma_nearest_is_cell(parent: Octant, p: Point)
    requires
        parent.wf(),
        !parent.leaf(),
    ensures
        is_nearest(parent.children->0@, p, cell_index(parent.position@, p)),
        nearest_index(parent.children->0@, p) == cell_index(parent.position@, p),
{
    let cs = parent.children->0@;
    let c = parent.position@;
    let k = cell_index(c, p);
    let h = parent.half();
    let e = h / 2;
    lemma_sound_octant(parent);
    lemma_fitting_cube(parent);
    lemma_size_halves(parent.depth as nat);
    lemma_size_halves((parent.depth + 1) as nat);
    assert(e > 0 && 2 * e == h);
    lemma_nearer_side(p.x - c.x, e);
    lemma_nearer_side(p.y - c.y, e);
    lemma_nearer_side(p.z - c.z, e);
    assert forall|j: int| 0 <= j < 8 implies {
        let q = (#[trigger] cs[j]).position@;
        &&& q.x == (if j / 4 == 1 { c.x + e } else { c.x - e })
        &&& q.y == (if (j / 2) % 2 == 1 { c.y + e } else { c.y - e })
        &&& q.z == (if j % 2 == 1 { c.z + e } else { c.z - e })
    } by {
        lemma_child_corners(parent, j);
    }
    let near = p.distance_squared(cs[k].position@);
    assert forall|j: int| 0 <= j < 8 implies {
        &&& near <= p.distance_squared((#[trigger] cs[j]).position@)
        &&& j < k ==> near < p.distance_squared(cs[j].position@)
    } by {
        let q = cs[j].position@;
        let n = cs[k].position@;
        assert(p.x - n.x == (if p.x > c.x { p.x - c.x - e } else { p.x - c.x + e }));
        assert(p.y - n.y == (if p.y > c.y { p.y - c.y - e } else { p.y - c.y + e }));
        assert(p.z - n.z == (if p.z > c.z { p.z - c.z - e } else { p.z - c.z + e }));
        assert(p.x - q.x == (if j / 4 == 1 { p.x - c.x - e } else { p.x - c.x + e }));
        assert(p.y - q.y == (if (j / 2) % 2 == 1 { p.y - c.y - e } else { p.y - c.y + e }));
        assert(p.z - q.z == (if j % 2 == 1 { p.z - c.z - e } else { p.z - c.z + e }));
        assert(square(p.x - n.x) <= square(p.x - q.x));
        assert(square(p.y - n.y) <= square(p.y - q.y));
        assert(square(p.z - n.z) <= square(p.z - q.z));
        if j < k {
            if j / 4 != k / 4 {
                assert(square(p.x - n.x) < square(p.x - q.x));
            } else if (j / 2) % 2 != (k / 2) % 2 {
                assert(square(p.y - n.y) < square(p.y - q.y));
            } else {
                assert(square(p.z - n.z) < square(p.z - q.z));
            }
        }
    }
    assert(is_nearest(cs, p, k));
    lemma_nearest_is(cs, p, k);
}

/// The leaf found for a point that lies in the cube of `node` holds the
/// point in its own cube; and holds it in its own cell where the point lies
/// in the cell of `node`.
pub proof fn lemma_leaf_holds_point(node: Octant, p: Point)
    requires
        node.wf(),
        p.in_box(node.position@, node.half()),
    ensures
        p.in_box(leaf_near(node, p).position@, leaf_near(node, p).half()),
        p.in_cell(node.position@, node.half()) ==> p.in_cell(
            leaf_near(node, p).position@,
            leaf_near(node, p).half(),
        ),
    decreases node,
{
    match node.children {
        None => {},
        Some(cs) => {
            lemma_nearest_is_cell(node, p);
            let i = nearest_index(cs@, p);
            lemma_child_corners(node, i);
            lemma_size_halves(node.depth as nat);
            lemma_size_halves((node.depth + 1) as nat);
            assert(cs@[i].half() == node.half() / 2);
            lemma_leaf_holds_point(cs@[i], p);
        },
    }
}

/// The path from `root` to the leaf below it that lies nearest to `p`.
pub fn path_to(root: &Octant, p: &Point3) -> (path: Vec<usize>)
    requires
        root.wf(),
        p@.in_world(),
    ensures
        steps(path@) == path_near(*root, p@),
        node_at(*root, steps(path@)) == Some(leaf_near(*root, p@)),
{
    let mut path: Vec<usize> = Vec::new();
    let mut node: &Octant = root;
    proof {
        assert(steps(path@) =~= Seq::empty());
        assert(Seq::<int>::empty() + path_near(*root, p@) =~= path_near(*root, p@));
        lemma_leaf_is_node(*root, p@);
    }
    loop
        invariant
            node.wf(),
            p@.in_world(),
            steps(path@) + path_near(*node, p@) == path_near(*root, p@),
            node_at(*root, path_near(*root, p@)) == Some(leaf_near(*root, p@)),
        decreases MAX_DEPTH - node.depth,
    {
        match &node.children {
            None => {
                proof {
                    assert(steps(path@) + Seq::<int>::empty() =~= steps(path@));
                }
                return path;
            },
            Some(children) => {
                proof {
                    assert forall|i: int| 0 <= i < children@.len() implies (
                    #[trigger] children@[i]).position@.in_world() by {
                        assert(children@[i].wf());
                        lemma_sound_octant(children@[i]);
                    }
                }
                let index = nearest_child(children, p);
                proof {
                    let below = path_near(children@[index as int], p@);
                    assert(steps(path@.push(index)) =~= steps(path@) + seq![index as int]);
                    assert((steps(path@) + seq![index as int]) + below =~= steps(path@) + (
                    seq![index as int] + below));
                }
                path.push(index);
                node = &children[index];
            },
        }
    }
}

/// The leaf below `root` that lies nearest to `p`, found by stepping at
/// each level to the child whose centre is nearest to `p`.
pub fn locate<'a>(root: &'a Octant, p: &Point3) -> (leaf: &'a Octant)
    requires
        root.wf(),
        p@.in_world(),
    ensures
        *leaf == leaf_near(*root, p@),
        leaf.leaf(),
        leaf.wf(),
{
    let mut node: &'a Octant = root;
    loop
        invariant
            node.wf(),
            p@.in_world(),
            leaf_near(*node, p@) == leaf_near(*root, p@),
        decreases MAX_DEPTH - node.depth,
    {
        match &node.children {
            None => {
                return node;
            },
            Some(children) => {
                proof {
                    assert forall|i: int| 0 <= i < children@.len() implies (
                    #[trigger] children@[i]).position@.in_world() by {
                        assert(children@[i].wf());
                        lemma_sound_octant(children@[i]);
                    }
                }
                let index = nearest_child(children, p);
                node = &children[index];
            },
        }
    }
}

} // verus!
