//! Midpoint rooting: the two ends of a longest path between leaves are found
//! by two searches for a farthest leaf, and the root is moved to the middle
//! of the path between them.

use crate::ancestry::branch_bound;
use crate::ancestry::lemma_ancestor;
use crate::ancestry::lemma_ancestor_add;
use crate::ancestry::lemma_at_level;
use crate::ancestry::lemma_climb_add;
use crate::ancestry::lemma_climb_bound;
use crate::ancestry::lemma_lca_of_ancestor;
use crate::ancestry::lemma_level_bound;
use crate::ancestry::lemma_up;
use crate::lca::among;
use crate::lca::filled_in;
use crate::lca::traverse;
use crate::distance::lemma_ancestor_depth;
use crate::ancestry::lemma_ancestor_trans;
use crate::ancestry::lemma_ancestors_chain;
use crate::ancestry::lemma_lca;
use crate::reroot::lemma_reroot;
use crate::reroot::lemma_reroot_lengths;
use crate::reroot::lemma_subdivide_lengths;
use crate::reroot::lemma_same_metric_trans;
use crate::reroot::lemma_subdivide_above;
use crate::reroot::lemma_subdivide_depth;
use crate::reroot::lemma_subdivide_metric;
use crate::reroot::lemma_subdivide_wf;
use crate::tree::Tree;
use crate::tree::TreeView;
use vstd::prelude::*;

verus! {

/// The two ends that midpoint rooting has found, and the patristic distance
/// between them.
#[derive(Clone, Copy, Debug)]
pub struct Diameter {
    pub first: usize,
    pub second: usize,
    pub length: i128,
}

impl TreeView {
    /// The node reached from `u` by going to the first child, `steps` times
    /// or until there is none.
    pub open spec fn descend(self, u: int, steps: nat) -> int
        decreases steps,
    {
        if steps == 0 || self.nodes[u].children.len() == 0 {
            u
        } else {
            self.descend(self.nodes[u].children[0] as int, (steps - 1) as nat)
        }
    }

    /// The leaf reached from the root by going to the first child each time.
    pub open spec fn first_leaf(self) -> int {
        self.descend(self.root, self.nodes.len())
    }

    /// The traversal of the tree rooted at `s` takes `a` up before any other
    /// leaf of `self` that is as far from `s` as `a`.
    pub open spec fn met_first(self, s: int, a: int) -> bool {
        exists|k: int|
            0 <= k < self.reroot_at(s).visit_order().len() && #[trigger] self.reroot_at(
                s,
            ).visit_order()[k] == a && self.none_as_far(s, a, k)
    }

    /// None of the first `k` nodes that the traversal of the tree rooted at
    /// `s` takes up is a leaf of `self` as far from `s` as `a`.
    pub open spec fn none_as_far(self, s: int, a: int, k: int) -> bool {
        forall|j: int|
            0 <= j < k && self.is_leaf(#[trigger] self.reroot_at(s).visit_order()[j])
                ==> self.patristic(s, self.reroot_at(s).visit_order()[j]) < self.patristic(s, a)
    }

    /// `a` is the leaf farthest from `s`: no leaf is farther from `s`; of
    /// the leaves as far from `s` as `a`, the traversal of the tree rooted at
    /// `s` takes `a` up first; and where no leaf lies at a positive distance
    /// from `s`, `a` is `s` itself.
    pub open spec fn farthest_from(self, s: int, a: int) -> bool {
        &&& self.has(a)
        &&& a == s || (self.is_leaf(a) && self.patristic(s, a) > 0 && self.met_first(s, a))
        &&& forall|x: int| self.is_leaf(x) ==> #[trigger] self.patristic(s, x) <= self.patristic(s, a)
    }

    /// The ends are those of midpoint rooting: the first is a leaf farthest
    /// from the first leaf of the tree, the second a leaf farthest from the
    /// first end, and the length is the distance between the two.
    pub open spec fn diameter_ends(self, ends: Diameter) -> bool {
        &&& self.farthest_from(self.first_leaf(), ends.first as int)
        &&& self.farthest_from(ends.first as int, ends.second as int)
        &&& ends.length == self.patristic(ends.first as int, ends.second as int)
        &&& ends.length >= 0
        &&& ends.length == 0 <==> ends.first == ends.second
    }

    /// The tree has one leaf only.
    pub open spec fn single_leaf(self) -> bool {
        forall|x: int| #[trigger] self.is_leaf(x) ==> x == self.first_leaf()
    }

    /// What midpoint rooting makes of the tree where no leaf lies at a
    /// positive distance from the first end: with one leaf only, the tree as
    /// it is; else the tree with the first end made the root.
    pub open spec fn degenerate_tree(self, ends: Diameter) -> TreeView {
        if self.single_leaf() {
            self
        } else {
            self.reroot_at(ends.first as int)
        }
    }

    /// `d` is the greatest patristic distance between two leaves.
    pub open spec fn is_diameter(self, d: int) -> bool {
        &&& exists|x: int, y: int|
            self.is_leaf(x) && self.is_leaf(y) && #[trigger] self.patristic(x, y) == d
        &&& forall|x: int, y: int|
            self.is_leaf(x) && self.is_leaf(y) ==> #[trigger] self.patristic(x, y) <= d
    }

    /// The lowest branch, on the way from `cur` to the root, at whose upper
    /// end at least `half` of the way up from `b` has been covered: the
    /// branch on which the point lies that is `half` above `b`.
    pub open spec fn cut_above(self, b: int, cur: int, half: int) -> int
        decreases self.level[cur],
        when self.wf() && self.has(cur)
    {
        if cur == self.root || self.depth(b) - self.depth(cur) + self.nodes[cur].length >= half {
            cur
        } else {
            self.cut_above(b, self.up(cur), half)
        }
    }

    /// The tree rooted at the midpoint between the two ends: rooted at the
    /// first end, the branch that holds the point half the length above the
    /// second end is cut there by a new node, and the root moved to that node.
    pub open spec fn midpoint_tree(self, ends: Diameter) -> TreeView {
        let rooted = self.reroot_at(ends.first as int);
        let half = ends.length / 2;
        let c = rooted.cut_above(ends.second as int, ends.second as int, half as int);
        let low = half - (ends.length - rooted.depth(c));
        let high = rooted.nodes[c].length - low;
        rooted.subdivide(c, low as i64, high as i64).reroot_at(self.nodes.len() as int)
    }

    /// `other` is `self` rooted at the midpoint between the two ends: it has
    /// one node more, which is its root and has no name; every other node has
    /// kept its name and its number of edges, and is a leaf exactly if it was
    /// one (the old root apart); no patristic distance has changed; and the
    /// second end lies half the length below the root (rounded down), the
    /// first end the rest of it.
    pub open spec fn midpoint_rooted(self, other: TreeView, ends: Diameter) -> bool {
        &&& other.wf()
        &&& other.nodes.len() == self.nodes.len() + 1
        &&& other.root == self.nodes.len()
        &&& other.nodes[other.root].name is None
        &&& other.nodes[other.root].children.len() == 2
        &&& self.same_metric(other)
        &&& forall|x: int|
            self.has(x) && x != self.root ==> (#[trigger] other.is_leaf(x) <==> self.is_leaf(x))
        &&& other.depth(ends.second as int) == ends.length / 2
        &&& other.depth(ends.first as int) == ends.length - ends.length / 2
        &&& self.lengths_at_least(0) ==> other.lengths_at_least(0)
    }
}

/// From the root, the distance to a node is its depth.
pub(crate) proof fn lemma_root_distance(t: TreeView, x: int)
    requires
        t.wf(),
        t.has(x),
    ensures
        t.patristic(t.root, x) == t.depth(x),
        t.depth(t.root) == 0,
        t.is_ancestor(t.root, x),
{
    lemma_at_level(t, x, 0);
    lemma_lca_of_ancestor(t, t.root, x);
}

/// Trees with the same numbers of edges at their nodes have the same leaves,
/// the two roots apart.
pub(crate) proof fn lemma_same_leaves(t: TreeView, f: TreeView, x: int)
    requires
        t.same_metric(f),
        t.has(x),
        x != t.root,
        x != f.root,
    ensures
        f.is_leaf(x) <==> t.is_leaf(x),
{
    assert(f.degree(x) == t.degree(x));
}

/// Going to the first child each time ends in a leaf.
pub(crate) proof fn lemma_descend(t: TreeView, u: int, steps: nat)
    requires
        t.wf(),
        t.has(u),
        steps + t.level[u] >= t.nodes.len(),
    ensures
        t.is_leaf(t.descend(u, steps)),
    decreases steps,
{
    lemma_level_bound(t, u);
    if t.nodes[u].children.len() > 0 {
        let c = t.nodes[u].children[0] as int;
        assert(t.up(c) == u);
        lemma_up(t, c);
        lemma_descend(t, c, (steps - 1) as nat);
    }
}

/// Where `g` is an ancestor of `a` and of `x` and lies below the lowest
/// common ancestor of `x` and `y`, that node is the lowest common ancestor
/// of `a` and `y` too.
proof fn lemma_lca_other_side(t: TreeView, a: int, x: int, y: int, g: int)
    requires
        t.wf(),
        t.has(y),
        t.is_ancestor(g, a),
        t.is_ancestor(g, x),
        t.level[g] > t.level[t.lca(x, y)],
    ensures
        t.lca(a, y) == t.lca(x, y),
{
    let m = t.lca(x, y);
    let c = t.lca(a, y);
    lemma_lca(t, x, y);
    lemma_lca(t, a, y);
    lemma_ancestors_chain(t, m, g, x);
    lemma_ancestor_trans(t, m, g, a);
    assert(t.is_ancestor(m, c));
    if t.level[c] > t.level[m] {
        if t.level[c] <= t.level[g] {
            lemma_ancestors_chain(t, c, g, a);
            lemma_ancestor_trans(t, c, g, x);
            assert(t.is_ancestor(c, m));
        } else {
            lemma_ancestors_chain(t, g, c, a);
            lemma_ancestor_trans(t, g, c, y);
            assert(t.is_ancestor(g, m));
        }
        assert(false);
    }
    lemma_at_level(t, c, t.level[c] as int);
}

/// Where no branch has a negative length and `a` is at least as deep as
/// `x` and as `y`, one of the two is at least as far from `a` as they are
/// from each other.
proof fn lemma_deepest_reaches(t: TreeView, a: int, x: int, y: int)
    requires
        t.wf(),
        t.lengths_at_least(0),
        t.has(a),
        t.has(x),
        t.has(y),
        t.depth(a) >= t.depth(x),
        t.depth(a) >= t.depth(y),
    ensures
        t.patristic(x, y) <= t.patristic(a, x) || t.patristic(x, y) <= t.patristic(a, y),
{
    let g = t.lca(a, x);
    let m = t.lca(x, y);
    lemma_lca(t, a, x);
    lemma_lca(t, x, y);
    if t.level[g] <= t.level[m] {
        lemma_ancestors_chain(t, g, m, x);
        lemma_ancestor_depth(t, g, m);
    } else {
        lemma_lca_other_side(t, a, x, y, g);
    }
}

/// Where no branch has a negative length, the two ends that midpoint
/// rooting finds are as far apart as any two leaves: their distance is the
/// diameter of the tree.
pub proof fn lemma_ends_are_diameter(t: TreeView, ends: Diameter)
    requires
        t.wf(),
        t.lengths_at_least(0),
        t.diameter_ends(ends),
    ensures
        t.is_diameter(ends.length as int),
{
    let s = t.first_leaf();
    let a = ends.first as int;
    let b = ends.second as int;
    lemma_descend(t, t.root, t.nodes.len());
    let w = t.reroot_at(s);
    lemma_reroot(t, s);
    lemma_reroot_lengths(t, s, 0);
    lemma_root_distance(w, a);
    assert(w.patristic(s, a) == t.patristic(s, a));
    assert forall|x: int, y: int| t.is_leaf(x) && t.is_leaf(y) implies #[trigger] t.patristic(
        x,
        y,
    ) <= ends.length by {
        lemma_root_distance(w, x);
        lemma_root_distance(w, y);
        assert(w.patristic(s, x) == t.patristic(s, x));
        assert(w.patristic(s, y) == t.patristic(s, y));
        assert(t.patristic(s, x) <= t.patristic(s, a));
        assert(t.patristic(s, y) <= t.patristic(s, a));
        lemma_deepest_reaches(w, a, x, y);
        assert(w.patristic(x, y) == t.patristic(x, y));
        assert(w.patristic(a, x) == t.patristic(a, x));
        assert(w.patristic(a, y) == t.patristic(a, y));
        assert(t.patristic(a, x) <= t.patristic(a, b));
        assert(t.patristic(a, y) <= t.patristic(a, b));
    }
    assert(t.is_leaf(a) && t.is_leaf(b) && t.patristic(a, b) == ends.length);
}

/// Midpoint rooting done twice finds the same diameter both times, where no
/// branch has a negative length and the root had not exactly one child.
pub proof fn lemma_midpoint_twice(t: TreeView, first: Diameter, other: TreeView, second: Diameter)
    requires
        t.wf(),
        t.lengths_at_least(0),
        t.nodes[t.root].children.len() != 1,
        t.diameter_ends(first),
        t.midpoint_rooted(other, first),
        other.diameter_ends(second),
    ensures
        second.length == first.length,
{
    lemma_ends_are_diameter(t, first);
    lemma_midpoint_keeps_diameter(t, other, first, first.length as int);
    lemma_ends_are_diameter(other, second);
    let (x, y) = choose|x: int, y: int|
        other.is_leaf(x) && other.is_leaf(y) && #[trigger] other.patristic(x, y) == first.length;
    let (u, v) = choose|u: int, v: int|
        other.is_leaf(u) && other.is_leaf(v) && #[trigger] other.patristic(u, v) == second.length;
    assert(other.patristic(x, y) <= second.length);
    assert(other.patristic(u, v) <= first.length);
}

/// Midpoint rooting keeps the leaves, where the old root had not exactly one
/// child: the new root is no leaf, and every other node is a leaf exactly
/// if it was one.
pub proof fn lemma_midpoint_keeps_leaves(t: TreeView, other: TreeView, ends: Diameter)
    requires
        t.wf(),
        t.midpoint_rooted(other, ends),
        t.nodes[t.root].children.len() != 1,
    ensures
        forall|x: int| #[trigger] other.is_leaf(x) <==> t.is_leaf(x),
{
    assert forall|x: int| #[trigger] other.is_leaf(x) <==> t.is_leaf(x) by {
        if t.has(x) && x != t.root {
            assert(other.is_leaf(x) <==> t.is_leaf(x));
        } else if x == t.root {
            assert(other.degree(x) == t.degree(x));
        }
    }
}

/// Where no branch has a negative length, the lowest common ancestor of `x`
/// with one of `a` and `b` is no deeper than that of `a` and `b`.
proof fn lemma_three_nodes(t: TreeView, x: int, a: int, b: int)
    requires
        t.wf(),
        t.lengths_at_least(0),
        t.has(x),
        t.has(a),
        t.has(b),
    ensures
        t.depth(t.lca(x, a)) <= t.depth(t.lca(a, b)) || t.depth(t.lca(x, b)) <= t.depth(
            t.lca(a, b),
        ),
{
    let g = t.lca(x, a);
    let m = t.lca(a, b);
    lemma_lca(t, x, a);
    lemma_lca(t, a, b);
    if t.level[g] <= t.level[m] {
        lemma_ancestors_chain(t, g, m, a);
        lemma_ancestor_depth(t, g, m);
    } else {
        lemma_lca_other_side(t, x, a, b, g);
    }
}

/// Where no branch has a negative length, no node lies above the root.
proof fn lemma_depth_nonnegative(t: TreeView, x: int)
    requires
        t.wf(),
        t.lengths_at_least(0),
        t.has(x),
    ensures
        t.depth(x) >= 0,
{
    crate::ancestry::lemma_climb_at_least(t, x, t.level[x], 0);
}

/// In a tree rooted at the midpoint between two ends of a diameter `d`, the
/// two ends of any diameter lie on two sides of the root, each at least
/// half of `d` (rounded down) below it and at most the other half.
proof fn lemma_centered(t: TreeView, a: int, b: int, d: int, x: int, y: int)
    requires
        t.wf(),
        t.lengths_at_least(0),
        t.is_diameter(d),
        t.is_leaf(a),
        t.is_leaf(b),
        t.patristic(a, b) == d,
        t.depth(b) == d / 2,
        t.depth(a) == d - d / 2,
        t.is_leaf(x),
        t.is_leaf(y),
        t.patristic(x, y) == d,
    ensures
        d / 2 <= t.depth(x) <= d - d / 2,
        d / 2 <= t.depth(y) <= d - d / 2,
{
    lemma_lca(t, a, b);
    lemma_depth_nonnegative(t, t.lca(a, b));
    assert(t.depth(t.lca(a, b)) == 0);
    assert(t.depth(x) <= d - d / 2) by {
        lemma_three_nodes(t, x, a, b);
        lemma_lca(t, x, a);
        lemma_lca(t, x, b);
        lemma_depth_nonnegative(t, t.lca(x, a));
        lemma_depth_nonnegative(t, t.lca(x, b));
        assert(t.patristic(x, a) <= d);
        assert(t.patristic(x, b) <= d);
    }
    assert(t.depth(y) <= d - d / 2) by {
        lemma_three_nodes(t, y, a, b);
        lemma_lca(t, y, a);
        lemma_lca(t, y, b);
        lemma_depth_nonnegative(t, t.lca(y, a));
        lemma_depth_nonnegative(t, t.lca(y, b));
        assert(t.patristic(y, a) <= d);
        assert(t.patristic(y, b) <= d);
    }
    lemma_lca(t, x, y);
    lemma_depth_nonnegative(t, t.lca(x, y));
}

/// Midpoint rooting done twice leaves the root where it was, but for the
/// one unit that halving an odd diameter loses: where no branch has a
/// negative length and the first root had not exactly one child, the root
/// of the first rooting lies at most one unit below that of the second, and
/// at the same place where the diameter is even.
pub proof fn lemma_midpoint_twice_position(
    t: TreeView,
    first: Diameter,
    once: TreeView,
    second: Diameter,
    twice: TreeView,
)
    requires
        t.wf(),
        t.lengths_at_least(0),
        t.nodes[t.root].children.len() != 1,
        t.diameter_ends(first),
        first.length > 0,
        t.midpoint_rooted(once, first),
        once.diameter_ends(second),
        once.midpoint_rooted(twice, second),
    ensures
        second.length == first.length,
        0 <= twice.depth(once.root) <= 1,
        first.length % 2 == 0 ==> twice.depth(once.root) == 0,
{
    let d = first.length as int;
    let a1 = first.first as int;
    let b1 = first.second as int;
    let a2 = second.first as int;
    let b2 = second.second as int;
    let r1 = once.root;
    lemma_midpoint_twice(t, first, once, second);
    lemma_ends_are_diameter(t, first);
    lemma_ends_are_diameter(once, second);
    lemma_midpoint_keeps_diameter(t, once, first, d);
    lemma_midpoint_keeps_leaves(t, once, first);
    lemma_descend(t, t.root, t.nodes.len());
    lemma_descend(once, once.root, once.nodes.len());
    assert(t.is_leaf(a1) && t.is_leaf(b1));
    assert(once.is_leaf(a2) && once.is_leaf(b2));
    assert(once.patristic(a1, b1) == t.patristic(a1, b1));
    lemma_centered(once, a1, b1, d, a2, b2);
    lemma_root_distance(once, a2);
    lemma_root_distance(once, b2);
    // Seen from the second root, the first root is as far from the two ends
    // as it was.
    assert(twice.patristic(r1, a2) == once.patristic(r1, a2));
    assert(twice.patristic(r1, b2) == once.patristic(r1, b2));
    assert(twice.patristic(a2, b2) == once.patristic(a2, b2));
    lemma_lca(twice, a2, b2);
    lemma_depth_nonnegative(twice, twice.lca(a2, b2));
    lemma_three_nodes(twice, r1, a2, b2);
    lemma_lca(twice, r1, a2);
    lemma_lca(twice, r1, b2);
    lemma_depth_nonnegative(twice, twice.lca(r1, a2));
    lemma_depth_nonnegative(twice, twice.lca(r1, b2));
    lemma_depth_nonnegative(twice, r1);
}

/// Midpoint rooting keeps the diameter: where the old root had not exactly
/// one child (so that it is no leaf afterwards), a number is the greatest
/// patristic distance between two leaves of the rooted tree exactly when it
/// was that of the tree before.
pub proof fn lemma_midpoint_keeps_diameter(t: TreeView, other: TreeView, ends: Diameter, d: int)
    requires
        t.wf(),
        t.midpoint_rooted(other, ends),
        t.nodes[t.root].children.len() != 1,
    ensures
        t.is_diameter(d) <==> other.is_diameter(d),
{
    lemma_midpoint_keeps_leaves(t, other, ends);
    if t.is_diameter(d) {
        let (x, y) = choose|x: int, y: int|
            t.is_leaf(x) && t.is_leaf(y) && #[trigger] t.patristic(x, y) == d;
        assert(other.patristic(x, y) == d);
        assert forall|x: int, y: int| other.is_leaf(x) && other.is_leaf(y) implies #[trigger] other.patristic(
            x,
            y,
        ) <= d by {
            assert(t.patristic(x, y) <= d);
        }
    }
    if other.is_diameter(d) {
        let (x, y) = choose|x: int, y: int|
            other.is_leaf(x) && other.is_leaf(y) && #[trigger] other.patristic(x, y) == d;
        assert(t.patristic(x, y) == other.patristic(x, y));
        assert forall|x: int, y: int| t.is_leaf(x) && t.is_leaf(y) implies #[trigger] t.patristic(
            x,
            y,
        ) <= d by {
            assert(other.patristic(x, y) <= d);
        }
    }
}

/// The leaf reached from the root by going to the first child each time.
fn first_leaf(tree: &Tree) -> (s: usize)
    requires
        tree.wf(),
    ensures
        s == tree@.first_leaf(),
        tree@.has(s as int),
{
    let ghost t = tree@;
    let mut cur = tree.root;
    proof {
        lemma_level_bound(t, cur as int);
        assert(t.nodes[cur as int] == tree.nodes@[cur as int]@);
    }
    while tree.nodes[cur].children.len() > 0
        invariant
            tree.wf(),
            t == tree@,
            t.has(cur as int),
            t.level[cur as int] < t.nodes.len(),
            t.nodes[cur as int] == tree.nodes@[cur as int]@,
            t.first_leaf() == t.descend(cur as int, (t.nodes.len() - t.level[cur as int]) as nat),
        decreases t.nodes.len() - t.level[cur as int],
    {
        let next = tree.nodes[cur].children[0];
        proof {
            assert(t.up(t.nodes[cur as int].children[0] as int) == cur);
            lemma_up(t, next as int);
            lemma_level_bound(t, next as int);
            assert(t.nodes[next as int] == tree.nodes@[next as int]@);
        }
        cur = next;
    }
    cur
}

/// For each node, whether it is a leaf.
fn leaf_flags(tree: &Tree) -> (flags: Vec<bool>)
    ensures
        flags@.len() == tree@.len(),
        forall|x: int| tree@.has(x) ==> #[trigger] flags@[x] == tree@.is_leaf(x),
{
    let mut flags: Vec<bool> = Vec::new();
    let mut i: usize = 0;
    while i < tree.nodes.len()
        invariant
            i <= tree.nodes@.len(),
            flags@.len() == i,
            forall|x: int| 0 <= x < i ==> #[trigger] flags@[x] == tree@.is_leaf(x),
        decreases tree.nodes@.len() - i,
    {
        proof {
            assert(tree@.nodes[i as int] == tree.nodes@[i as int]@);
        }
        flags.push(tree.nodes[i].children.len() == 0);
        i = i + 1;
    }
    flags
}

/// Whether a flag is set for a node other than `s`.
fn flagged_besides(flags: &Vec<bool>, s: usize) -> (found: bool)
    ensures
        found <==> exists|x: int| 0 <= x < flags@.len() && x != s && #[trigger] flags@[x],
{
    let mut i: usize = 0;
    while i < flags.len()
        invariant
            i <= flags@.len(),
            forall|x: int| 0 <= x < i && x != s ==> !#[trigger] flags@[x],
        decreases flags@.len() - i,
    {
        if i != s && flags[i] {
            return true;
        }
        i = i + 1;
    }
    false
}

/// The flagged node that lies deepest below the root, the first such in the
/// order of the traversal; the root itself where no flagged node lies below
/// it at a positive depth.
fn deepest(tree: &Tree, flags: &Vec<bool>) -> (found: (usize, i128))
    requires
        tree.wf(),
        flags@.len() == tree@.len(),
    ensures
        tree@.has(found.0 as int),
        found.1 == tree@.depth(found.0 as int),
        (found.0 == tree@.root && found.1 == 0) || (flags@[found.0 as int] && found.1 > 0),
        forall|x: int| tree@.has(x) && flags@[x] ==> #[trigger] tree@.depth(x) <= found.1,
        forall|j: int|
            0 <= j < tree@.visit_order().len() ==> tree@.has(#[trigger] tree@.visit_order()[j]),
        found.1 > 0 ==> exists|k: int|
            0 <= k < tree@.visit_order().len() && #[trigger] tree@.visit_order()[k] == found.0
                && forall|j: int|
                0 <= j < k && flags@[#[trigger] tree@.visit_order()[j]] ==> tree@.depth(
                    tree@.visit_order()[j],
                ) < found.1,
{
    let ghost t = tree@;
    let walk = traverse(tree);
    let mut best = tree.root;
    let mut best_depth: i128 = 0;
    let mut i: usize = 0;
    let ghost mut at: int = 0;
    let ghost order = t.visit_order();
    proof {
        lemma_root_distance(t, t.root);
        assert forall|j: int| 0 <= j < order.len() implies t.has(#[trigger] order[j]) by {
            assert(order[j] == crate::lca::as_ints(walk.order@)[j]);
            assert(t.has(walk.order@[j] as int));
        }
    }
    while i < walk.order.len()
        invariant
            tree.wf(),
            t == tree@,
            walk.describes(t),
            flags@.len() == t.len(),
            i <= walk.order@.len(),
            t.has(best as int),
            best_depth == t.depth(best as int),
            (best == t.root && best_depth == 0) || (flags@[best as int] && best_depth > 0),
            forall|x: int|
                t.has(x) && flags@[x] && among(walk.order@, i as int, x) ==> #[trigger] t.depth(x)
                    <= best_depth,
            order == t.visit_order(),
            order == crate::lca::as_ints(walk.order@),
            best_depth > 0 ==> 0 <= at < i && order[at] == best && forall|j: int|
                0 <= j < at && flags@[#[trigger] order[j]] ==> t.depth(order[j]) < best_depth,
        decreases walk.order@.len() - i,
    {
        let u = walk.order[i];
        proof {
            assert(t.has(walk.order@[i as int] as int));
            assert(filled_in(t, walk.fill(), u as int));
        }
        let ghost before = best_depth;
        if flags[u] && walk.depth_len[u] > best_depth {
            best = u;
            best_depth = walk.depth_len[u];
            proof {
                at = i as int;
                assert(order[at] == walk.order@[at] as int);
                assert forall|j: int| 0 <= j < at && flags@[#[trigger] order[j]] implies t.depth(
                    order[j],
                ) < best_depth by {
                    assert(order[j] == walk.order@[j] as int);
                    assert(t.has(walk.order@[j] as int));
                    assert(among(walk.order@, i as int, order[j]));
                    assert(t.depth(order[j]) <= before);
                }
            }
        }
        proof {
            assert forall|x: int|
                t.has(x) && flags@[x] && among(
                    walk.order@,
                    i + 1,
                    x,
                ) implies #[trigger] t.depth(x) <= best_depth by {
                if !among(walk.order@, i as int, x) {
                    let j = choose|j: int|
                        0 <= j < i + 1 && j < walk.order@.len() && #[trigger] walk.order@[j] == x;
                    assert(j == i);
                } else {
                    assert(t.depth(x) <= before);
                }
            }
        }
        i = i + 1;
    }
    proof {
        assert forall|x: int| t.has(x) && flags@[x] implies #[trigger] t.depth(x)
            <= best_depth by {
            assert(among(walk.order@, walk.order@.len() as int, x));
        }
    }
    (best, best_depth)
}

/// The leaf farthest from `s`, with its distance, found in a copy of the
/// tree that is rooted at `s`; the copy is handed back too.
fn farthest(tree: &Tree, flags: &Vec<bool>, s: usize) -> (found: (usize, i128, Tree))
    requires
        tree.wf(),
        tree@.has(s as int),
        flags@.len() == tree@.len(),
        forall|x: int| tree@.has(x) ==> #[trigger] flags@[x] == tree@.is_leaf(x),
    ensures
        tree@.farthest_from(s as int, found.0 as int),
        found.1 == tree@.patristic(s as int, found.0 as int),
        found.1 >= 0,
        found.1 == 0 <==> found.0 == s,
        found.2@ == tree@.reroot_at(s as int),
        found.1 == found.2@.depth(found.0 as int),
{
    let mut work = tree.duplicate();
    work.reroot(s);
    let ghost t = tree@;
    let ghost w = work@;
    proof {
        lemma_reroot(t, s as int);
    }
    let (best, best_depth) = deepest(&work, flags);
    proof {
        if best_depth > 0 {
            let order = w.visit_order();
            let k = choose|k: int|
                0 <= k < order.len() && #[trigger] order[k] == best && forall|j: int|
                    0 <= j < k && flags@[#[trigger] order[j]] ==> w.depth(order[j]) < best_depth;
            lemma_root_distance(w, best as int);
            assert(w.patristic(s as int, best as int) == t.patristic(s as int, best as int));
            assert forall|j: int| 0 <= j < k && t.is_leaf(#[trigger] order[j]) implies t.patristic(
                s as int,
                order[j],
            ) < t.patristic(s as int, best as int) by {
                assert(t.has(order[j]));
                assert(flags@[order[j]] == t.is_leaf(order[j]));
                lemma_root_distance(w, order[j]);
                assert(w.patristic(s as int, order[j]) == t.patristic(s as int, order[j]));
            }
            assert(t.none_as_far(s as int, best as int, k));
            assert(t.met_first(s as int, best as int));
        }
        lemma_root_distance(w, best as int);
        assert(w.patristic(s as int, best as int) == t.patristic(s as int, best as int));
        assert forall|x: int| t.is_leaf(x) implies #[trigger] t.patristic(s as int, x)
            <= t.patristic(s as int, best as int) by {
            lemma_root_distance(w, x);
            assert(w.patristic(s as int, x) == t.patristic(s as int, x));
            assert(w.depth(x) <= best_depth);
        }
    }
    (best, best_depth, work)
}

/// The branch on which the midpoint lies, on the way from `b` to the root,
/// and the two lengths into which the midpoint cuts it: the first branch at
/// whose upper end at least half of `span` has been covered.
fn find_split(work: &Tree, b: usize, span: i128) -> (cut: (usize, i64, i64))
    requires
        work.wf(),
        work@.has(b as int),
        span == work@.depth(b as int),
        span > 0,
    ensures
        work@.has(cut.0 as int),
        cut.0 != work@.root,
        work@.is_ancestor(cut.0 as int, b as int),
        cut.1 + cut.2 == work@.nodes[cut.0 as int].length,
        cut.1 >= 0,
        cut.2 >= 0,
        span - work@.depth(cut.0 as int) + cut.1 == span / 2,
        cut.0 == work@.cut_above(b as int, b as int, (span / 2) as int),
{
    let ghost t2 = work@;
    proof {
        lemma_root_distance(t2, b as int);
        lemma_level_bound(t2, b as int);
        lemma_at_level(t2, b as int, t2.level[b as int] as int);
    }
    let half = span / 2;
    let mut cur = b;
    let mut accum: i128 = 0;
    let mut w: i64 = work.nodes[cur].length;
    proof {
        assert(t2.nodes[cur as int] == work.nodes@[cur as int]@);
    }
    while accum + (w as i128) < half
        invariant
            work@ == t2,
            t2.wf(),
            t2.has(b as int),
            t2.has(cur as int),
            t2.is_ancestor(cur as int, b as int),
            span == t2.depth(b as int),
            span > 0,
            half == span / 2,
            accum == span - t2.depth(cur as int),
            accum == 0 || accum < half,
            w == t2.nodes[cur as int].length,
            t2.nodes[cur as int] == work.nodes@[cur as int]@,
            cur as int != t2.root,
            -(t2.level[b as int] - t2.level[cur as int]) * branch_bound() <= accum <= (
            t2.level[b as int] - t2.level[cur as int]) * branch_bound(),
            t2.level[b as int] < t2.nodes.len() <= usize::MAX,
            t2.cut_above(b as int, b as int, half as int) == t2.cut_above(
                b as int,
                cur as int,
                half as int,
            ),
        decreases t2.level[cur as int],
    {
        proof {
            lemma_up(t2, cur as int);
            lemma_root_distance(t2, t2.up(cur as int));
            crate::reroot::lemma_subtree_step(t2, t2.up(cur as int), cur as int);
            crate::ancestry::lemma_ancestor_trans(t2, t2.up(cur as int), cur as int, b as int);
            assert(t2.depth(cur as int) == t2.nodes[cur as int].length + t2.depth(
                t2.up(cur as int),
            ));
            let k = t2.level[b as int] - t2.level[cur as int];
            assert((k + 1) * branch_bound() == k * branch_bound() + branch_bound())
                by (nonlinear_arith);
            assert(-(k + 1) * branch_bound() == -k * branch_bound() - branch_bound())
                by (nonlinear_arith);
            assert(k * branch_bound() <= 0xffff_ffff_ffff_fffe * branch_bound())
                by (nonlinear_arith)
                requires
                    0 <= k <= 0xffff_ffff_ffff_fffe,
            ;
        }
        accum = accum + (w as i128);
        cur = work.nodes[cur].parent.unwrap();
        proof {
            assert(t2.nodes[cur as int] == work.nodes@[cur as int]@);
            assert(t2.depth(cur as int) > 0);
        }
        w = work.nodes[cur].length;
    }
    let low = (half - accum) as i64;
    let high = w - low;
    (cur, low, high)
}

/// Where the branch of `c`, an ancestor of `b`, is cut so that half of the
/// depth of `b` lies below the cut, the new node lies at that half from `b`
/// and at the rest from the root.
proof fn lemma_cut_distances(t: TreeView, b: int, c: int, low: i64, high: i64)
    requires
        t.can_subdivide(c, low, high),
        t.is_ancestor(c, b),
        t.depth(b) - t.depth(c) + low == t.depth(b) / 2,
        low >= 0,
        high >= 0,
    ensures
        t.lengths_at_least(0) ==> t.subdivide(c, low, high).lengths_at_least(0),
        t.subdivide(c, low, high).wf(),
        t.subdivide(c, low, high).nodes.len() == t.nodes.len() + 1,
        t.subdivide(c, low, high).root == t.root,
        t.same_metric(t.subdivide(c, low, high)),
        t.subdivide(c, low, high).patristic(t.nodes.len() as int, b) == t.depth(b) / 2,
        t.subdivide(c, low, high).patristic(t.nodes.len() as int, t.root) == t.depth(b) - t.depth(
            b,
        ) / 2,
        t.subdivide(c, low, high).nodes[t.nodes.len() as int].name is None,
        t.subdivide(c, low, high).degree(t.nodes.len() as int) == 2,
{
    let r = t.nodes.len() as int;
    let s = t.subdivide(c, low, high);
    lemma_up(t, c);
    assert(t.depth(c) == t.nodes[c].length + t.depth(t.up(c)));
    lemma_subdivide_wf(t, c, low, high);
    lemma_subdivide_metric(t, c, low, high);
    lemma_subdivide_depth(t, c, low, high, b);
    lemma_subdivide_above(t, c, low, high, b);
    if t.lengths_at_least(0) {
        lemma_subdivide_lengths(t, c, low, high, 0);
    }
    assert(s.patristic(r, b) == t.depth(b) / 2) by {
        lemma_lca_of_ancestor(s, r, b);
    }
    assert(s.patristic(r, t.root) == t.depth(b) - t.depth(b) / 2) by {
        lemma_root_distance(s, r);
        crate::distance::lemma_patristic_symmetric(s, r, s.root);
    }
}

/// Cutting the branch that `find_split` names and rooting the tree at the
/// new node gives the tree rooted at the midpoint.
proof fn lemma_midpoint_rooted(t0: TreeView, ends: Diameter, c: int, low: i64, high: i64)
    requires
        t0.wf(),
        t0.has(ends.first as int),
        t0.has(ends.second as int),
        t0.nodes.len() < usize::MAX,
        ends.length > 0,
        ends.length == t0.reroot_at(ends.first as int).depth(ends.second as int),
        t0.reroot_at(ends.first as int).has(c),
        c != t0.reroot_at(ends.first as int).root,
        t0.reroot_at(ends.first as int).is_ancestor(c, ends.second as int),
        low + high == t0.reroot_at(ends.first as int).nodes[c].length,
        ends.length - t0.reroot_at(ends.first as int).depth(c) + low == ends.length / 2,
        low >= 0,
        high >= 0,
    ensures
        t0.midpoint_rooted(
            t0.reroot_at(ends.first as int).subdivide(c, low, high).reroot_at(
                t0.nodes.len() as int,
            ),
            ends,
        ),
{
    let a = ends.first as int;
    let b = ends.second as int;
    let r = t0.nodes.len() as int;
    let t2 = t0.reroot_at(a);
    let t3 = t2.subdivide(c, low, high);
    let t4 = t3.reroot_at(r);
    lemma_reroot(t0, a);
    lemma_cut_distances(t2, b, c, low, high);
    lemma_reroot(t3, r);
    if t0.lengths_at_least(0) {
        lemma_reroot_lengths(t0, a, 0);
        lemma_reroot_lengths(t3, r, 0);
    }
    assert(t0.same_metric(t4)) by {
        lemma_same_metric_trans(t0, t2, t3);
        lemma_same_metric_trans(t0, t3, t4);
    }
    assert(t4.depth(b) == ends.length / 2) by {
        lemma_root_distance(t4, b);
        assert(t4.patristic(r, b) == t3.patristic(r, b));
    }
    assert(t4.depth(a) == ends.length - ends.length / 2) by {
        lemma_root_distance(t4, a);
        assert(t4.patristic(r, a) == t3.patristic(r, a));
    }
    assert forall|x: int| t0.has(x) && x != t0.root implies (#[trigger] t4.is_leaf(x)
        <==> t0.is_leaf(x)) by {
        lemma_same_leaves(t0, t4, x);
    }
    assert(t4.nodes[r].name is None) by {
        assert(t4.nodes[r].name == t3.nodes[r].name);
    }
    assert(t4.nodes[r].children.len() == 2) by {
        assert(t4.degree(r) == t3.degree(r));
    }
}

/// The tree that cutting the branch found by `find_split` and rooting at the
/// new node gives is the tree rooted at the midpoint.
proof fn lemma_midpoint_tree(t0: TreeView, ends: Diameter, c: int, low: i64, high: i64)
    requires
        c == t0.reroot_at(ends.first as int).cut_above(
            ends.second as int,
            ends.second as int,
            (ends.length / 2) as int,
        ),
        low + high == t0.reroot_at(ends.first as int).nodes[c].length,
        ends.length - t0.reroot_at(ends.first as int).depth(c) + low == ends.length / 2,
    ensures
        t0.midpoint_tree(ends) == t0.reroot_at(ends.first as int).subdivide(c, low, high).reroot_at(
            t0.nodes.len() as int,
        ),
{
}

/// Moves the root to the midpoint of the path between the two ends of a
/// longest path between leaves. The first end is a leaf farthest from the
/// first leaf of the tree, the second a leaf farthest from the first end;
/// the new root is a new node set on the path between them, at half their
/// distance (rounded down) from the second end. Where no leaf lies at a
/// positive distance from the first end, that end is made the root, unless
/// it is the only leaf: then the tree is left as it is.
pub fn midpoint_root(tree: &mut Tree) -> (ends: Diameter)
    requires
        old(tree).wf(),
        old(tree)@.len() < usize::MAX,
    ensures
        final(tree).wf(),
        old(tree)@.diameter_ends(ends),
        ends.length == 0 ==> final(tree)@ == old(tree)@.degenerate_tree(ends),
        ends.length > 0 ==> final(tree)@ == old(tree)@.midpoint_tree(ends),
        ends.length > 0 ==> old(tree)@.midpoint_rooted(final(tree)@, ends),
{
    let ghost t0 = tree@;
    let flags = leaf_flags(tree);
    let s = first_leaf(tree);
    let (a, _, _) = farthest(tree, &flags, s);
    let (b, span, work) = farthest(tree, &flags, a);
    let mut work = work;
    let ends = Diameter { first: a, second: b, length: span };
    if span == 0 {
        let others = flagged_besides(&flags, s);
        proof {
            lemma_descend(t0, t0.root, t0.nodes.len());
            lemma_reroot(t0, a as int);
            if others {
                let x = choose|x: int| 0 <= x < flags@.len() && x != s && #[trigger] flags@[x];
                assert(t0.is_leaf(x));
            } else {
                assert forall|x: int| #[trigger] t0.is_leaf(x) implies x == t0.first_leaf() by {
                    assert(flags@[x] == t0.is_leaf(x));
                }
            }
        }
        if others {
            *tree = work;
        }
        return ends;
    }
    proof {
        lemma_reroot(t0, a as int);
    }
    let (c, low, high) = find_split(&work, b, span);
    let r = work.split_above(c, low, high);
    work.reroot(r);
    proof {
        lemma_midpoint_rooted(t0, ends, c as int, low, high);
        lemma_midpoint_tree(t0, ends, c as int, low, high);
    }
    *tree = work;
    ends
}

} // verus!
