//! All the octants of a tree, level after level.
use vstd::prelude::*;
use crate::grid::MAX_DEPTH;
use crate::octant::{child_seq, lemma_node_is_sound, node_at, Octant};

verus! {

/// The children of all the octants of `level`, in the order of their
/// parents: the level below `level`.
pub open spec fn next_level(level: Seq<Octant>) -> Seq<Octant>
    decreases level.len(),
{
    if level.len() == 0 {
        Seq::empty()
    } else {
        next_level(level.drop_last()) + child_seq(level.last())
    }
}

/// The octants of `level` and of the levels below it, level after level, as
/// far as there are any and for no more than `rounds` levels.
pub open spec fn levels_from(level: Seq<Octant>, rounds: nat) -> Seq<Octant>
    decreases rounds,
{
    if rounds == 0 || level.len() == 0 {
        Seq::empty()
    } else {
        level + levels_from(next_level(level), (rounds - 1) as nat)
    }
}

/// All the octants of the tree below and including `root`, breadth first:
/// the root, then its children in their order, then theirs, and so on down
/// to the deepest level that the grid resolves.
pub open spec fn breadth_first(root: Octant) -> Seq<Octant> {
    levels_from(seq![root], (MAX_DEPTH + 1) as nat)
}

/// The octants that a sequence of references refers to.
pub open spec fn referents(refs: Seq<&Octant>) -> Seq<Octant> {
    Seq::new(refs.len(), |i: int| *refs[i])
}

/// The level that lies `k` levels below `level`.
pub open spec fn level_below(level: Seq<Octant>, k: nat) -> Seq<Octant>
    decreases k,
{
    if k == 0 {
        level
    } else {
        level_below(next_level(level), (k - 1) as nat)
    }
}

/// The level below two runs of octants, one after the other, is the level
/// below the first and then the level below the second.
pub proof fn lemma_next_level_concat(a: Seq<Octant>, b: Seq<Octant>)
    ensures
        next_level(a + b) == next_level(a) + next_level(b),
    decreases b.len(),
{
    if b.len() == 0 {
        assert(a + b =~= a);
        assert(next_level(a) + next_level(b) =~= next_level(a));
    } else {
        assert((a + b).drop_last() =~= a + b.drop_last());
        assert((a + b).last() == b.last());
        lemma_next_level_concat(a, b.drop_last());
        assert((next_level(a) + next_level(b.drop_last())) + child_seq(b.last()) =~= next_level(a)
            + (next_level(b.drop_last()) + child_seq(b.last())));
    }
}

/// What lies `k` levels below two runs of octants, one after the other, is
/// what lies `k` levels below the first and then what lies `k` levels below
/// the second.
pub proof fn lemma_level_below_concat(a: Seq<Octant>, b: Seq<Octant>, k: nat)
    ensures
        level_below(a + b, k) == level_below(a, k) + level_below(b, k),
    decreases k,
{
    if k > 0 {
        lemma_next_level_concat(a, b);
        lemma_level_below_concat(next_level(a), next_level(b), (k - 1) as nat);
    }
}

/// The level below a single octant is its children.
pub proof fn lemma_next_level_of_one(o: Octant)
    ensures
        next_level(seq![o]) == child_seq(o),
{
    let one = seq![o];
    assert(one.drop_last() =~= Seq::empty());
    assert(next_level(one.drop_last()) =~= Seq::empty());
    assert(one.last() == o);
    assert(Seq::<Octant>::empty() + child_seq(o) =~= child_seq(o));
}

/// Nothing lies below an empty level.
pub proof fn lemma_level_below_nothing(k: nat)
    ensures
        level_below(Seq::<Octant>::empty(), k) == Seq::<Octant>::empty(),
    decreases k,
{
    if k > 0 {
        lemma_level_below_nothing((k - 1) as nat);
    }
}

/// What lies `k` levels below one of several octants lies `k` levels below
/// them all.
pub proof fn lemma_level_below_one_of(level: Seq<Octant>, i: int, k: nat, n: Octant)
    requires
        0 <= i < level.len(),
        level_below(seq![level[i]], k).contains(n),
    ensures
        level_below(level, k).contains(n),
{
    let before = level.take(i);
    let one = seq![level[i]];
    let after = level.skip(i + 1);
    assert(level =~= (before + one) + after);
    lemma_level_below_concat(before + one, after, k);
    lemma_level_below_concat(before, one, k);
    let m = choose|m: int| 0 <= m < level_below(one, k).len() && level_below(one, k)[m] == n;
    let whole = (level_below(before, k) + level_below(one, k)) + level_below(after, k);
    assert(whole[level_below(before, k).len() + m] == n);
}

/// What lies `k` levels below several octants lies `k` levels below one of
/// them.
pub proof fn lemma_level_below_some_one(level: Seq<Octant>, k: nat, n: Octant) -> (i: int)
    requires
        level_below(level, k).contains(n),
    ensures
        0 <= i < level.len(),
        level_below(seq![level[i]], k).contains(n),
    decreases level.len(),
{
    if level.len() == 0 {
        assert(level =~= Seq::empty());
        lemma_level_below_nothing(k);
        0
    } else {
        let front = level.drop_last();
        let one = seq![level.last()];
        assert(level =~= front + one);
        lemma_level_below_concat(front, one, k);
        let m = choose|m: int| 0 <= m < level_below(level, k).len() && level_below(level, k)[m] == n;
        if m < level_below(front, k).len() {
            assert(level_below(front, k)[m] == n);
            let i = lemma_level_below_some_one(front, k, n);
            assert(front[i] == level[i]);
            i
        } else {
            assert(level_below(one, k)[m - level_below(front, k).len()] == n);
            level.len() - 1
        }
    }
}

/// An octant that a path of `k` steps leads to lies `k` levels below the
/// root.
pub proof fn lemma_node_in_level(root: Octant, path: Seq<int>)
    requires
        node_at(root, path) is Some,
    ensures
        level_below(seq![root], path.len()).contains(node_at(root, path)->0),
    decreases path.len(),
{
    if path.len() == 0 {
        assert(seq![root][0] == root);
    } else {
        let child = child_seq(root)[path[0]];
        lemma_node_in_level(child, path.drop_first());
        lemma_level_below_one_of(
            child_seq(root),
            path[0],
            (path.len() - 1) as nat,
            node_at(root, path)->0,
        );
        lemma_next_level_of_one(root);
    }
}

/// To an octant that lies `k` levels below the root a path of `k` steps
/// leads.
pub proof fn lemma_level_has_path(root: Octant, k: nat, n: Octant) -> (path: Seq<int>)
    requires
        level_below(seq![root], k).contains(n),
    ensures
        path.len() == k,
        node_at(root, path) == Some(n),
    decreases k,
{
    if k == 0 {
        Seq::empty()
    } else {
        lemma_next_level_of_one(root);
        let i = lemma_level_below_some_one(child_seq(root), (k - 1) as nat, n);
        let rest = lemma_level_has_path(child_seq(root)[i], (k - 1) as nat, n);
        let path = seq![i] + rest;
        assert(path.drop_first() =~= rest);
        path
    }
}

/// What lies fewer than `rounds` levels below `level` is among the octants
/// of that many levels from `level` on.
pub proof fn lemma_levels_from_holds(level: Seq<Octant>, rounds: nat, k: nat, n: Octant)
    requires
        k < rounds,
        level_below(level, k).contains(n),
    ensures
        levels_from(level, rounds).contains(n),
    decreases k,
{
    if level.len() == 0 {
        assert(level =~= Seq::empty());
        lemma_level_below_nothing(k);
    } else {
        let rest = levels_from(next_level(level), (rounds - 1) as nat);
        if k == 0 {
            let m = choose|m: int| 0 <= m < level.len() && level[m] == n;
            assert((level + rest)[m] == n);
        } else {
            lemma_levels_from_holds(next_level(level), (rounds - 1) as nat, (k - 1) as nat, n);
            let m = choose|m: int| 0 <= m < rest.len() && rest[m] == n;
            assert((level + rest)[level.len() + m] == n);
        }
    }
}

/// What is among the octants of `rounds` levels from `level` on lies fewer
/// than `rounds` levels below `level`.
pub proof fn lemma_levels_from_level(level: Seq<Octant>, rounds: nat, n: Octant) -> (k: nat)
    requires
        levels_from(level, rounds).contains(n),
    ensures
        k < rounds,
        level_below(level, k).contains(n),
    decreases rounds,
{
    let rest = levels_from(next_level(level), (rounds - 1) as nat);
    let m = choose|m: int|
        0 <= m < levels_from(level, rounds).len() && levels_from(level, rounds)[m] == n;
    if m < level.len() {
        assert(level[m] == n);
        0
    } else {
        assert(rest[m - level.len()] == n);
        let below = lemma_levels_from_level(next_level(level), (rounds - 1) as nat, n);
        below + 1
    }
}

/// The walk of a sound tree leaves no octant out: whatever a path from the
/// root leads to is among the octants walked.
pub proof fn lemma_walk_is_complete(root: Octant, path: Seq<int>)
    requires
        root.wf(),
        node_at(root, path) is Some,
    ensures
        breadth_first(root).contains(node_at(root, path)->0),
{
    lemma_node_is_sound(root, path);
    lemma_node_in_level(root, path);
    lemma_levels_from_holds(
        seq![root],
        (MAX_DEPTH + 1) as nat,
        path.len(),
        node_at(root, path)->0,
    );
}

/// The walk takes in nothing from outside the tree: to each of the octants
/// walked a path from the root leads.
pub proof fn lemma_walk_is_sound(root: Octant, n: Octant) -> (path: Seq<int>)
    requires
        breadth_first(root).contains(n),
    ensures
        node_at(root, path) == Some(n),
{
    let k = lemma_levels_from_level(seq![root], (MAX_DEPTH + 1) as nat, n);
    lemma_level_has_path(root, k, n)
}

/// One more reference refers to one more octant, at the end.
pub proof fn lemma_referents_push(refs: Seq<&Octant>, one: &Octant)
    ensures
        referents(refs.push(one)) == referents(refs).push(*one),
{
    assert(referents(refs.push(one)) =~= referents(refs).push(*one));
}

/// All the octants of the tree below and including `root`, leaves and
/// others alike, breadth first.
pub fn walk<'a>(root: &'a Octant) -> (all: Vec<&'a Octant>)
    ensures
        referents(all@) == breadth_first(*root),
{
    let mut all: Vec<&'a Octant> = Vec::new();
    let mut level: Vec<&'a Octant> = Vec::new();
    level.push(root);
    let mut rounds: u32 = MAX_DEPTH + 1;
    proof {
        assert(referents(level@) =~= seq![*root]);
        assert(referents(all@) + levels_from(referents(level@), rounds as nat) =~= breadth_first(
            *root,
        ));
    }
    while rounds > 0 && level.len() > 0
        invariant
            referents(all@) + levels_from(referents(level@), rounds as nat) == breadth_first(
                *root,
            ),
        decreases rounds,
    {
        let ghost done = referents(all@);
        let ghost here = referents(level@);
        let mut next: Vec<&'a Octant> = Vec::new();
        let mut i: usize = 0;
        proof {
            assert(here.take(0) =~= Seq::empty());
            assert(referents(next@) =~= next_level(here.take(0)));
            assert(referents(all@) =~= done + here.take(0));
        }
        while i < level.len()
            invariant
                0 <= i <= level@.len(),
                here == referents(level@),
                referents(next@) == next_level(here.take(i as int)),
                referents(all@) == done + here.take(i as int),
            decreases level@.len() - i,
        {
            let node: &'a Octant = level[i];
            let ghost above = next_level(here.take(i as int));
            proof {
                assert(here.take(i + 1).drop_last() =~= here.take(i as int));
                assert(here.take(i + 1).last() == *node);
                lemma_referents_push(all@, node);
                assert((done + here.take(i as int)).push(*node) =~= done + here.take(i + 1));
            }
            all.push(node);
            match &node.children {
                None => {
                    proof {
                        assert(above + child_seq(*node) =~= above);
                    }
                },
                Some(children) => {
                    let mut j: usize = 0;
                    proof {
                        assert(above + children@.take(0) =~= above);
                    }
                    while j < children.len()
                        invariant
                            0 <= j <= children@.len(),
                            referents(next@) == above + children@.take(j as int),
                        decreases children@.len() - j,
                    {
                        proof {
                            lemma_referents_push(next@, &children[j as int]);
                            assert((above + children@.take(j as int)).push(children@[j as int])
                                =~= above + children@.take(j + 1));
                        }
                        next.push(&children[j]);
                        j = j + 1;
                    }
                    proof {
                        assert(children@.take(j as int) =~= children@);
                    }
                },
            }
            i = i + 1;
        }
        proof {
            assert(here.take(i as int) =~= here);
            assert((done + here) + levels_from(next_level(here), (rounds - 1) as nat) =~= done + (
            here + levels_from(next_level(here), (rounds - 1) as nat)));
        }
        level = next;
        rounds = rounds - 1;
    }
    proof {
        assert(referents(all@) + Seq::<Octant>::empty() =~= referents(all@));
    }
    all
}

} // verus!
