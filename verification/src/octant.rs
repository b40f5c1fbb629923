//! The node of the octree: its cube, its colour, its children, and how it is
//! subdivided into eight.
use vstd::prelude::*;
use vstd::arithmetic::power2::pow2;
use crate::color::Color;
use crate::error::OctreeError;
use crate::grid::{
    lemma_size_halves, size_at, size_of_depth, Point, Point3, COORD_LIMIT, HALF_UNIT, MAX_DEPTH,
    UNIT,
};

verus! {

/// One node of the octree: a cube, a colour, and either no children or
/// exactly eight.
///
/// `position` is the centre of the cube. Its edge is never stored: it
/// follows from `depth`.
pub struct Octant {
    pub children: Option<Vec<Octant>>,
    pub color: Color,
    pub position: Point3,
    pub depth: u32,
}

/// The children of an octant, in their order; none for a leaf.
pub open spec fn child_seq(o: Octant) -> Seq<Octant> {
    match o.children {
        None => Seq::empty(),
        Some(cs) => cs@,
    }
}

/// The octant that is reached from `root` by stepping, at each level, to
/// the child whose index the path gives next; none where the path leaves
/// the tree.
pub open spec fn node_at(root: Octant, path: Seq<int>) -> Option<Octant>
    decreases path.len(),
{
    if path.len() == 0 {
        Some(root)
    } else if 0 <= path[0] < child_seq(root).len() {
        node_at(child_seq(root)[path[0]], path.drop_first())
    } else {
        None
    }
}

/// A path as mathematics sees it: the index of a child for each level.
pub open spec fn steps(path: Seq<usize>) -> Seq<int> {
    Seq::new(path.len(), |i: int| path[i] as int)
}

/// Where a child sits along one axis, seen from its parent's centre: half a
/// child below it for bit 0, half a child above it for bit 1.
pub open spec fn axis_offset(bit: int, child_size: int) -> int {
    bit * child_size - child_size / 2
}

/// Centre of child `index` of an octant at `depth` centred on `center`.
/// Children are numbered `4x + 2y + z`, each of `x`, `y`, `z` being the bit
/// that picks the low or the high half along its axis.
pub open spec fn child_center(center: Point, depth: nat, index: int) -> Point {
    let child_size = size_at(depth + 1);
    Point {
        x: center.x + axis_offset(index / 4, child_size),
        y: center.y + axis_offset((index / 2) % 2, child_size),
        z: center.z + axis_offset(index % 2, child_size),
    }
}

impl Octant {
    /// Edge length of the cube.
    pub open spec fn size(&self) -> int {
        size_at(self.depth as nat)
    }

    /// Half the edge length of the cube.
    pub open spec fn half(&self) -> int {
        size_at(self.depth as nat) / 2
    }

    /// The cube can be represented: its depth is one the grid resolves, and
    /// all of it lies in the world.
    pub open spec fn fits(&self) -> bool {
        &&& self.depth <= MAX_DEPTH
        &&& self.position@.within(COORD_LIMIT - self.half())
    }

    /// Number of children: none for a leaf.
    pub open spec fn child_count(&self) -> nat {
        match self.children {
            None => 0,
            Some(cs) => cs@.len(),
        }
    }

    /// Whether the octant has no children.
    pub open spec fn leaf(&self) -> bool {
        self.children is None
    }

    /// Whether the octant is a leaf whose colour has a positive alpha.
    pub open spec fn visible(&self) -> bool {
        self.leaf() && self.color.alpha_positive()
    }

    /// The octant is a fresh leaf at place `index` below `parent`.
    pub open spec fn fresh_child_of(&self, parent: Octant, index: int) -> bool {
        &&& self.children is None
        &&& self.color == parent.color
        &&& self.depth == parent.depth + 1
        &&& self.position@ == child_center(parent.position@, parent.depth as nat, index)
    }

    /// The octant is `before` with its children replaced by eight fresh
    /// leaves.
    pub open spec fn subdivision_of(&self, before: Octant) -> bool {
        &&& self.color == before.color
        &&& self.position == before.position
        &&& self.depth == before.depth
        &&& self.children matches Some(cs)
        &&& cs@.len() == 8
        &&& forall|i: int| 0 <= i < 8 ==> (#[trigger] cs@[i]).fresh_child_of(before, i)
    }

    /// The whole tree below and including this octant is sound: every cube
    /// can be represented, every octant is a leaf or has exactly eight
    /// children, and each child sits one level down in its own eighth of
    /// its parent.
    pub open spec fn wf(&self) -> bool
        decreases self,
    {
        &&& self.fits()
        &&& match self.children {
            None => true,
            Some(cs) => {
                &&& cs@.len() == 8
                &&& self.depth < MAX_DEPTH
                &&& forall|i: int|
                    0 <= i < 8 ==> {
                        &&& (#[trigger] cs@[i]).wf()
                        &&& cs@[i].depth == self.depth + 1
                        &&& cs@[i].position@ == child_center(
                            self.position@,
                            self.depth as nat,
                            i,
                        )
                    }
            },
        }
    }

    /// A leaf at `pos` and `depth`.
    pub fn new(pos: Point3, depth: u32, color: Color) -> (o: Octant)
        ensures
            o.children is None,
            o.color == color,
            o.position == pos,
            o.depth == depth,
    {
        Octant { children: None, color, position: pos, depth }
    }

    /// Edge length of the cube in grid units: the world unit halved once
    /// for each level of depth. An octant deeper than the grid resolves has
    /// no size.
    pub fn get_size(&self) -> (r: Result<i64, OctreeError>)
        ensures
            self.depth <= MAX_DEPTH ==> (r matches Ok(s) && s == self.size()),
            self.depth > MAX_DEPTH ==> r == Err::<i64, OctreeError>(OctreeError::InvalidGeometry),
    {
        if self.depth > MAX_DEPTH {
            Err(OctreeError::InvalidGeometry)
        } else {
            Ok(size_of_depth(self.depth))
        }
    }

    /// Whether the octant has no children.
    pub fn is_leaf(&self) -> (b: bool)
        ensures
            b == self.leaf(),
    {
        self.children.is_none()
    }

    /// Whether the octant is a leaf with a positive alpha. An octant with
    /// children is never visible, whatever its colour.
    pub fn is_visible(&self) -> (b: bool)
        ensures
            b == self.visible(),
            !self.leaf() ==> !b,
    {
        if self.is_leaf() {
            self.color.is_alpha_positive()
        } else {
            false
        }
    }

    /// The octant can be given children: it fits, and the grid resolves
    /// one more level below it.
    pub open spec fn can_subdivide(&self) -> bool {
        self.depth < MAX_DEPTH && self.fits()
    }

    /// Replaces whatever children the octant has by eight fresh leaves, one
    /// for each eighth of its cube, in the order `4x + 2y + z`. Each takes
    /// the octant's colour. An octant that cannot be subdivided is left as
    /// it was.
    pub fn create_children(&mut self) -> (r: Result<(), OctreeError>)
        ensures
            old(self).can_subdivide() ==> r is Ok && final(self).subdivision_of(*old(self)),
            !old(self).can_subdivide() ==> r == Err::<(), OctreeError>(
                OctreeError::InvalidGeometry,
            ) && *final(self) == *old(self),
            r is Ok ==> final(self).wf(),
    {
        if self.depth >= MAX_DEPTH || !self.is_fitting() {
            return Err(OctreeError::InvalidGeometry);
        }
        let ghost before = *self;
        let center = self.position;
        let depth = self.depth;
        let color = self.color;
        let child_size = size_of_depth(depth + 1);
        let half = child_size / 2;
        proof {
            lemma_size_halves(depth as nat);
            lemma_size_halves((depth + 1) as nat);
        }
        let mut children: Vec<Octant> = Vec::with_capacity(8);
        for x in 0..2i64
            invariant
                before.can_subdivide(),
                center == before.position,
                depth == before.depth,
                color == before.color,
                child_size == size_at((depth + 1) as nat),
                half == child_size / 2,
                2 * child_size == size_at(depth as nat),
                children@.len() == 4 * x,
                forall|j: int|
                    0 <= j < children@.len() ==> (#[trigger] children@[j]).fresh_child_of(
                        before,
                        j,
                    ),
        {
            for y in 0..2i64
                invariant
                    0 <= x < 2,
                    before.can_subdivide(),
                    center == before.position,
                    depth == before.depth,
                    color == before.color,
                    child_size == size_at((depth + 1) as nat),
                    half == child_size / 2,
                    2 * child_size == size_at(depth as nat),
                    children@.len() == 4 * x + 2 * y,
                    forall|j: int|
                        0 <= j < children@.len() ==> (#[trigger] children@[j]).fresh_child_of(
                            before,
                            j,
                        ),
            {
                for z in 0..2i64
                    invariant
                        0 <= x < 2,
                        0 <= y < 2,
                        before.can_subdivide(),
                        center == before.position,
                        depth == before.depth,
                        color == before.color,
                        child_size == size_at((depth + 1) as nat),
                        half == child_size / 2,
                        2 * child_size == size_at(depth as nat),
                        children@.len() == 4 * x + 2 * y + z,
                        forall|j: int|
                            0 <= j < children@.len() ==> (
                            #[trigger] children@[j]).fresh_child_of(before, j),
                {
                    let ghost index = 4 * x + 2 * y + z;
                    proof {
                        lemma_bit_times(x as int, child_size as int);
                        lemma_bit_times(y as int, child_size as int);
                        lemma_bit_times(z as int, child_size as int);
                    }
                    let pos = Point3::new(
                        center.x + x * child_size - half,
                        center.y + y * child_size - half,
                        center.z + z * child_size - half,
                    );
                    assert(index / 4 == x && (index / 2) % 2 == y && index % 2 == z);
                    children.push(Octant::new(pos, depth + 1, color));
                }
            }
        }
        self.children = Some(children);
        proof {
            let cs = self.children->0;
            assert forall|i: int| 0 <= i < 8 implies (#[trigger] cs@[i]).wf() by {
                assert(cs@[i].fresh_child_of(before, i));
                lemma_child_fits(before, i);
            }
        }
        Ok(())
    }

    /// The octant that `path` leads to from this one: at each level the
    /// child whose index the path gives next. None where the path leaves
    /// the tree.
    pub fn descendant(&self, path: &Vec<usize>) -> (found: Option<&Octant>)
        ensures
            found is Some == node_at(*self, steps(path@)) is Some,
            found matches Some(o) ==> node_at(*self, steps(path@)) == Some(*o),
    {
        let mut node: &Octant = self;
        let mut i: usize = 0;
        proof {
            assert(steps(path@).skip(0) =~= steps(path@));
        }
        while i < path.len()
            invariant
                0 <= i <= path@.len(),
                node_at(*node, steps(path@).skip(i as int)) == node_at(*self, steps(path@)),
            decreases path@.len() - i,
        {
            let ghost rest = steps(path@).skip(i as int);
            proof {
                assert(rest[0] == path@[i as int] as int);
                assert(rest.drop_first() =~= steps(path@).skip(i + 1));
            }
            match &node.children {
                None => {
                    return None;
                },
                Some(children) => {
                    let index = path[i];
                    if index >= children.len() {
                        return None;
                    }
                    node = &children[index];
                },
            }
            i = i + 1;
        }
        Some(node)
    }

    /// Centre of the child at place `index`.
    pub fn child_position(&self, index: usize) -> (pos: Point3)
        requires
            self.can_subdivide(),
            index < 8,
        ensures
            pos@ == child_center(self.position@, self.depth as nat, index as int),
    {
        let child_size = size_of_depth(self.depth + 1);
        let half = child_size / 2;
        proof {
            lemma_size_halves(self.depth as nat);
            lemma_size_halves((self.depth + 1) as nat);
            lemma_bit_times((index / 4) as int, child_size as int);
            lemma_bit_times(((index / 2) % 2) as int, child_size as int);
            lemma_bit_times((index % 2) as int, child_size as int);
        }
        let x: i64 = if index / 4 == 1 { child_size } else { 0 };
        let y: i64 = if (index / 2) % 2 == 1 { child_size } else { 0 };
        let z: i64 = if index % 2 == 1 { child_size } else { 0 };
        Point3::new(
            self.position.x + x - half,
            self.position.y + y - half,
            self.position.z + z - half,
        )
    }

    /// Whether the whole tree below and including this octant is sound.
    pub fn is_well_formed(&self) -> (b: bool)
        ensures
            b == self.wf(),
        decreases self,
    {
        if !self.is_fitting() {
            return false;
        }
        match &self.children {
            None => true,
            Some(children) => {
                if children.len() != 8 || self.depth >= MAX_DEPTH {
                    return false;
                }
                let mut i: usize = 0;
                while i < 8
                    invariant
                        0 <= i <= 8,
                        self.children == Some(*children),
                        children@.len() == 8,
                        self.can_subdivide(),
                        forall|j: int|
                            0 <= j < i ==> {
                                &&& (#[trigger] children@[j]).wf()
                                &&& children@[j].depth == self.depth + 1
                                &&& children@[j].position@ == child_center(
                                    self.position@,
                                    self.depth as nat,
                                    j,
                                )
                            },
                    decreases 8 - i,
                {
                    let child = &children[i];
                    let expected = self.child_position(i);
                    assert(decreases_to!(self => self.children->0@[i as int]));
                    if child.depth != self.depth + 1 || child.position != expected
                        || !child.is_well_formed() {
                        return false;
                    }
                    i = i + 1;
                }
                true
            },
        }
    }

    /// Whether the cube can be represented.
    pub fn is_fitting(&self) -> (b: bool)
        ensures
            b == self.fits(),
    {
        if self.depth > MAX_DEPTH {
            false
        } else {
            let half = size_of_depth(self.depth) / 2;
            self.position.is_within(COORD_LIMIT - half)
        }
    }
}

/// A child of an octant that fits lies within that octant's cube, and so
/// fits as well.
pub proof fn lemma_child_fits(parent: Octant, index: int)
    requires
        parent.can_subdivide(),
        0 <= index < 8,
    ensures
        child_center(parent.position@, parent.depth as nat, index).within(
            COORD_LIMIT - size_at((parent.depth + 1) as nat) / 2,
        ),
        child_center(parent.position@, parent.depth as nat, index).in_box(
            parent.position@,
            parent.half() - size_at((parent.depth + 1) as nat) / 2,
        ),
{
    lemma_size_halves(parent.depth as nat);
    lemma_size_halves((parent.depth + 1) as nat);
    let size = size_at((parent.depth + 1) as nat);
    lemma_bit_times(index / 4, size);
    lemma_bit_times((index / 2) % 2, size);
    lemma_bit_times(index % 2, size);
}

/// The cube of an octant that fits has an even edge of at least two grid
/// units, and its centre lies in the world.
pub proof fn lemma_fitting_cube(o: Octant)
    requires
        o.fits(),
    ensures
        o.position@.in_world(),
        1 <= o.half() <= HALF_UNIT,
        2 * o.half() == o.size(),
{
    lemma_size_halves(o.depth as nat);
}

/// Every octant of a sound tree fits, and is a leaf or has exactly eight
/// children, never some other number.
pub proof fn lemma_sound_octant(o: Octant)
    requires
        o.wf(),
    ensures
        o.fits(),
        o.position@.in_world(),
        o.leaf() != (o.child_count() == 8),
        o.child_count() == 0 || o.child_count() == 8,
{
    lemma_fitting_cube(o);
}

/// Each child of a subdivided octant has half the edge of its parent, and
/// so its own edge times two to the power of its own depth is the world
/// unit again.
pub proof fn lemma_children_half_size(after: Octant, before: Octant, index: int)
    requires
        before.can_subdivide(),
        after.subdivision_of(before),
        0 <= index < 8,
    ensures
        after.children is Some,
        2 * after.children->0@[index].size() == before.size(),
        after.children->0@[index].size() * pow2((before.depth + 1) as nat) == UNIT,
        before.size() * pow2(before.depth as nat) == UNIT,
{
    let child = after.children->0@[index];
    assert(child.fresh_child_of(before, index));
    lemma_size_halves(before.depth as nat);
    lemma_size_halves((before.depth + 1) as nat);
}

/// Subdividing equal octants gives equal children, place by place: the
/// order and the geometry of the children depend on nothing but the
/// octant's own position, depth and colour.
pub proof fn lemma_subdivision_deterministic(a: Octant, b: Octant, a2: Octant, b2: Octant)
    requires
        a.position == b.position,
        a.depth == b.depth,
        a.color == b.color,
        a2.subdivision_of(a),
        b2.subdivision_of(b),
    ensures
        a2.children is Some,
        b2.children is Some,
        a2.children->0@ == b2.children->0@,
        forall|i: int|
            0 <= i < 8 ==> {
                &&& (#[trigger] a2.children->0@[i]).position == b2.children->0@[i].position
                &&& a2.children->0@[i].depth == b2.children->0@[i].depth
            },
{
    let xs = a2.children->0@;
    let ys = b2.children->0@;
    assert forall|i: int| 0 <= i < 8 implies #[trigger] xs[i] == ys[i] by {
        assert(xs[i].fresh_child_of(a, i));
        assert(ys[i].fresh_child_of(b, i));
        assert(xs[i].position@ == ys[i].position@);
        assert(xs[i].position == ys[i].position);
    }
    assert(xs =~= ys);
}

/// Index of the child cell of a cube centred on `center` in which `p`
/// lies: along each axis the high half above the centre, the low half up
/// to and including it.
pub open spec fn cell_index(center: Point, p: Point) -> int {
    (if p.x > center.x { 4int } else { 0 })
        + (if p.y > center.y { 2int } else { 0 })
        + (if p.z > center.z { 1int } else { 0 })
}

/// The eight children of an octant tile its cube: their cells, each taken
/// with its high faces and without its low faces, leave no point of the
/// parent's cell out, take in no point from outside it, and no two of them
/// share a point.
pub proof fn lemma_children_tile(parent: Octant, p: Point)
    requires
        parent.can_subdivide(),
    ensures
        p.in_cell(parent.position@, parent.half()) <==> exists|i: int|
            0 <= i < 8 && p.in_cell(
                #[trigger] child_center(parent.position@, parent.depth as nat, i),
                parent.half() / 2,
            ),
        p.in_cell(parent.position@, parent.half()) ==> p.in_cell(
            child_center(parent.position@, parent.depth as nat, cell_index(parent.position@, p)),
            parent.half() / 2,
        ),
        forall|i: int, j: int|
            0 <= i < 8 && 0 <= j < 8 && p.in_cell(
                #[trigger] child_center(parent.position@, parent.depth as nat, i),
                parent.half() / 2,
            ) && p.in_cell(
                #[trigger] child_center(parent.position@, parent.depth as nat, j),
                parent.half() / 2,
            ) ==> i == j,
{
    let c = parent.position@;
    let d = parent.depth as nat;
    let h = parent.half();
    lemma_size_halves(d);
    lemma_size_halves(d + 1);
    let size = size_at(d + 1);
    assert(size == h);
    assert(size / 2 == h / 2);
    assert(2 * (h / 2) == h);
    assert forall|i: int| 0 <= i < 8 implies {
        let cc = #[trigger] child_center(c, d, i);
        &&& cc.x == (if i / 4 == 1 { c.x + h / 2 } else { c.x - h / 2 })
        &&& cc.y == (if (i / 2) % 2 == 1 { c.y + h / 2 } else { c.y - h / 2 })
        &&& cc.z == (if i % 2 == 1 { c.z + h / 2 } else { c.z - h / 2 })
    } by {
        lemma_bit_times(i / 4, size);
        lemma_bit_times((i / 2) % 2, size);
        lemma_bit_times(i % 2, size);
    }
    if p.in_cell(c, h) {
        let k = cell_index(c, p);
        assert(0 <= k < 8);
        assert(p.in_cell(child_center(c, d, k), h / 2));
    }
}

/// The corners of the children of an octant are the corners, the centre,
/// and the middles of the edges and of the faces of the octant itself: along
/// each axis a child reaches from the low face to the centre, or from the
/// centre to the high face.
pub proof fn lemma_child_corners(parent: Octant, index: int)
    requires
        parent.can_subdivide(),
        0 <= index < 8,
    ensures
        ({
            let c = parent.position@;
            let h = parent.half();
            let cc = child_center(c, parent.depth as nat, index);
            let ch = h / 2;
            &&& 2 * ch == h
            &&& cc.x - ch == (if index / 4 == 1 { c.x } else { c.x - h })
            &&& cc.x + ch == (if index / 4 == 1 { c.x + h } else { c.x })
            &&& cc.y - ch == (if (index / 2) % 2 == 1 { c.y } else { c.y - h })
            &&& cc.y + ch == (if (index / 2) % 2 == 1 { c.y + h } else { c.y })
            &&& cc.z - ch == (if index % 2 == 1 { c.z } else { c.z - h })
            &&& cc.z + ch == (if index % 2 == 1 { c.z + h } else { c.z })
        }),
{
    let d = parent.depth as nat;
    lemma_size_halves(d);
    lemma_size_halves(d + 1);
    let size = size_at(d + 1);
    lemma_bit_times(index / 4, size);
    lemma_bit_times((index / 2) % 2, size);
    lemma_bit_times(index % 2, size);
}

/// Every octant of a sound tree is itself the root of a sound tree, and
/// lies as many levels below the root as the path to it is long.
pub proof fn lemma_node_is_sound(root: Octant, path: Seq<int>)
    requires
        root.wf(),
        node_at(root, path) is Some,
    ensures
        node_at(root, path)->0.wf(),
        node_at(root, path)->0.depth == root.depth + path.len(),
        root.depth + path.len() <= MAX_DEPTH,
        node_at(root, path)->0.leaf() != (node_at(root, path)->0.child_count() == 8),
    decreases path.len(),
{
    if path.len() == 0 {
        lemma_sound_octant(root);
    } else {
        let child = child_seq(root)[path[0]];
        assert(child.wf());
        lemma_node_is_sound(child, path.drop_first());
    }
}

/// A bit times a number is nothing or that number.
pub proof fn lemma_bit_times(bit: int, v: int)
    requires
        0 <= bit <= 1,
    ensures
        bit == 0 ==> bit * v == 0,
        bit == 1 ==> bit * v == v,
{
    if bit == 0 {
        assert(0 * v == 0);
    } else {
        assert(1 * v == v);
    }
}

} // verus!
