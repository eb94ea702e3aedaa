//! Moving the root of a tree: the single step that makes a child of the root
//! the new root, the rerooting at any node that is made of such steps, and the
//! proof that neither changes the distance between any two nodes.

use crate::ancestry::lemma_ancestor;
use crate::ancestry::lemma_ancestor_trans;
use crate::ancestry::lemma_ancestors_chain;
use crate::ancestry::lemma_at_level;
use crate::ancestry::lemma_at_level_twice;
use crate::ancestry::lemma_climb_add;
use crate::ancestry::lemma_lca;
use crate::ancestry::lemma_lca_unique;
use crate::ancestry::lemma_meet_level;
use crate::ancestry::lemma_up;
use crate::distance::lemma_patristic_symmetric;
use crate::tree::Node;
use crate::tree::NodeView;
use crate::tree::Tree;
use crate::tree::TreeView;
use vstd::prelude::*;

verus! {

/// The sequence without its entry `v`.
pub open spec fn drop_value(s: Seq<usize>, v: usize) -> Seq<usize> {
    s.remove(s.index_of(v))
}

pub(crate) proof fn lemma_drop_value(s: Seq<usize>, v: usize)
    requires
        s.no_duplicates(),
        s.contains(v),
    ensures
        drop_value(s, v).no_duplicates(),
        drop_value(s, v).len() == s.len() - 1,
        forall|x: usize| #[trigger] drop_value(s, v).contains(x) <==> s.contains(x) && x != v,
{
    let i = s.index_of(v);
    let d = drop_value(s, v);
    assert(0 <= i < s.len() && s[i] == v);
    assert forall|j: int| 0 <= j < d.len() implies #[trigger] d[j] == (if j < i {
        s[j]
    } else {
        s[j + 1]
    }) by {}
    assert forall|x: usize| #[trigger] d.contains(x) <==> s.contains(x) && x != v by {
        if d.contains(x) {
            let j = choose|j: int| 0 <= j < d.len() && d[j] == x;
            if j < i {
                assert(s[j] == x);
            } else {
                assert(s[j + 1] == x);
            }
        }
        if s.contains(x) && x != v {
            let k = choose|k: int| 0 <= k < s.len() && s[k] == x;
            if k < i {
                assert(d[k] == x);
            } else {
                assert(d[k - 1] == x);
            }
        }
    }
}

impl TreeView {
    /// `p` is the parent of `x`.
    pub open spec fn linked(self, x: int, p: int) -> bool {
        self.has(x) && x != self.root && self.up(x) == p
    }

    /// The number of edges that meet in `x`.
    pub open spec fn degree(self, x: int) -> int {
        if x == self.root {
            self.nodes[x].children.len() as int
        } else {
            self.nodes[x].children.len() as int + 1
        }
    }

    /// `c` is a child of the root, so the root can be moved to it.
    pub open spec fn can_rotate(self, c: int) -> bool {
        self.wf() && self.linked(c, self.root)
    }

    /// The tree with the root moved to `c`, a child of the root: the edge
    /// between the two is turned round, with its length, and `c` no longer
    /// has a branch of its own.
    pub open spec fn rotate(self, c: int) -> TreeView {
        let r = self.root;
        TreeView {
            nodes: self.nodes.update(
                r,
                NodeView {
                    name: self.nodes[r].name,
                    length: self.nodes[c].length,
                    parent: Some(c as usize),
                    children: drop_value(self.nodes[r].children, c as usize),
                },
            ).update(
                c,
                NodeView {
                    name: self.nodes[c].name,
                    length: 0,
                    parent: None,
                    children: self.nodes[c].children.insert(0, r as usize),
                },
            ),
            root: c,
            level: Seq::new(
                self.level.len(),
                |x: int|
                    if self.is_ancestor(c, x) {
                        (self.level[x] - 1) as nat
                    } else {
                        self.level[x] + 1
                    },
            ),
        }
    }

    /// Every node of `self` is a node of `other` with the same name and as
    /// many edges, and the patristic distance between any two of them is the
    /// same in both trees.
    pub open spec fn same_metric(self, other: TreeView) -> bool {
        &&& self.nodes.len() <= other.nodes.len()
        &&& forall|x: int| self.has(x) ==> (#[trigger] other.nodes[x]).name == self.nodes[x].name
        &&& forall|x: int| self.has(x) ==> #[trigger] other.degree(x) == self.degree(x)
        &&& forall|u: int, v: int|
            self.has(u) && self.has(v) ==> #[trigger] other.patristic(u, v) == self.patristic(
                u,
                v,
            )
    }

    /// The tree with its root moved to `a`, one edge at a time along the way
    /// from the old root to `a`.
    pub open spec fn reroot_at(self, a: int) -> TreeView
        decreases self.level[a],
        when self.wf() && self.has(a)
    {
        if a == self.root {
            self
        } else {
            self.reroot_at(self.up(a)).rotate(a)
        }
    }

    /// `c` has a parent, and `low` and `high` are lengths that its branch can
    /// be cut into.
    pub open spec fn can_subdivide(self, c: int, low: i64, high: i64) -> bool {
        &&& self.wf()
        &&& self.has(c)
        &&& c != self.root
        &&& self.nodes.len() < usize::MAX
        &&& low + high == self.nodes[c].length
    }

    /// The tree with one node more, unnamed, set on the branch of `c`: at
    /// `low` above `c` and `high` below the parent of `c`, in whose list of
    /// children it takes the place of `c`.
    pub open spec fn subdivide(self, c: int, low: i64, high: i64) -> TreeView {
        let p = self.up(c);
        let n = self.nodes.len() as int;
        TreeView {
            nodes: self.nodes.update(
                c,
                NodeView {
                    name: self.nodes[c].name,
                    length: low,
                    parent: Some(n as usize),
                    children: self.nodes[c].children,
                },
            ).update(
                p,
                NodeView {
                    name: self.nodes[p].name,
                    length: self.nodes[p].length,
                    parent: self.nodes[p].parent,
                    children: self.nodes[p].children.update(
                        self.nodes[p].children.index_of(c as usize),
                        n as usize,
                    ),
                },
            ).push(
                NodeView {
                    name: None,
                    length: high,
                    parent: Some(p as usize),
                    children: seq![c as usize],
                },
            ),
            root: self.root,
            level: Seq::new(
                (self.level.len() + 1) as nat,
                |x: int|
                    if x == n {
                        self.level[c]
                    } else if self.is_ancestor(c, x) {
                        self.level[x] + 1
                    } else {
                        self.level[x]
                    },
            ),
        }
    }
}

/// `c` is an ancestor of `x` exactly when it is `x` itself or an ancestor of
/// the parent of `x`.
pub(crate) proof fn lemma_subtree_step(t: TreeView, c: int, x: int)
    requires
        t.wf(),
        t.has(c),
        t.has(x),
        x != t.root,
    ensures
        t.is_ancestor(c, x) <==> x == c || t.is_ancestor(c, t.up(x)),
{
    lemma_up(t, x);
    lemma_ancestor(t, x, 0);
    if t.level[c] <= t.level[x] - 1 {
        assert(t.ancestor(x, (t.level[x] - t.level[c]) as nat) == t.ancestor(
            t.up(x),
            (t.level[t.up(x)] - t.level[c]) as nat,
        ));
    }
}

/// Moving the root to one of its children leaves one rooted tree.
pub(crate) proof fn lemma_rotate_wf(t: TreeView, c: int)
    requires
        t.can_rotate(c),
    ensures
        t.rotate(c).wf(),
        t.rotate(c).root == c,
        t.rotate(c).nodes.len() == t.nodes.len(),
{
    let r = t.root;
    let n = t.rotate(c);
    lemma_up(t, c);
    lemma_at_level(t, c, t.level[c] as int);
    assert(t.nodes[r].children.contains(c as usize));
    lemma_drop_value(t.nodes[r].children, c as usize);
    assert(!t.is_ancestor(c, r));
    assert forall|u: int| #![trigger n.nodes[u].parent] n.has(u) && u != n.root implies n.nodes[u].parent is Some
        && n.has(n.up(u)) && n.nodes[n.up(u)].children.contains(u as usize) by {
        if u == r {
            assert(n.nodes[c].children[0] == r as usize);
        } else {
            lemma_up(t, u);
            let p = t.up(u);
            assert(t.nodes[p].children.contains(u as usize));
            if p == c {
                let i = choose|i: int|
                    0 <= i < t.nodes[c].children.len() && t.nodes[c].children[i] == u as usize;
                assert(n.nodes[c].children[i + 1] == u as usize);
            }
        }
    }
    assert forall|u: int, i: int| #![trigger n.nodes[u].children[i]] n.has(u) && 0 <= i
        < n.nodes[u].children.len() implies {
        let ch = n.nodes[u].children[i] as int;
        n.has(ch) && ch != n.root && n.up(ch) == u
    } by {
        let ch = n.nodes[u].children[i];
        if u == r {
            assert(drop_value(t.nodes[r].children, c as usize).contains(ch));
            let k = choose|k: int|
                0 <= k < t.nodes[r].children.len() && t.nodes[r].children[k] == ch;
            assert(t.up(t.nodes[r].children[k] as int) == r);
        } else if u == c {
            if i > 0 {
                assert(t.up(t.nodes[c].children[i - 1] as int) == c);
            }
        } else {
            assert(t.up(t.nodes[u].children[i] as int) == u);
        }
    }
    assert forall|u: int| #![trigger n.nodes[u].children] n.has(u) implies n.nodes[u].children.no_duplicates() by {
        assert(t.nodes[u].children.no_duplicates());
        if u == c {
            let old = t.nodes[c].children;
            let new = n.nodes[c].children;
            assert forall|i: int| 0 <= i < old.len() implies old[i] != r as usize by {
                assert(t.up(old[i] as int) == c);
            }
            assert forall|i: int, j: int| 0 <= i < new.len() && 0 <= j < new.len() && i
                != j implies new[i] != new[j] by {
                if i > 0 && j > 0 {
                    assert(old[i - 1] != old[j - 1]);
                }
            }
        }
    }
    assert forall|u: int| #![trigger n.level[u]] n.has(u) && u != n.root implies n.level[u]
        == n.level[n.up(u)] + 1 by {
        if u != r {
            lemma_up(t, u);
            lemma_subtree_step(t, c, u);
        }
    }
}

/// The first steps towards the root are the same before and after the root
/// has moved to `c`: for a node below `c` as long as they stay below `c`, for
/// any other node as far as the old root.
pub(crate) proof fn lemma_rotate_ancestor(t: TreeView, c: int, x: int, k: nat)
    requires
        t.can_rotate(c),
        t.has(x),
        if t.is_ancestor(c, x) {
            k <= t.level[x] - 1
        } else {
            k <= t.level[x]
        },
    ensures
        t.rotate(c).ancestor(x, k) == t.ancestor(x, k),
        t.rotate(c).climb(x, k) == t.climb(x, k),
    decreases k,
{
    if k > 0 {
        lemma_up(t, x);
        lemma_up(t, c);
        lemma_at_level(t, c, t.level[c] as int);
        assert(x != t.root);
        assert(x != c);
        lemma_subtree_step(t, c, x);
        lemma_rotate_ancestor(t, c, t.up(x), (k - 1) as nat);
    }
}

/// After the root has moved to `c`, the nodes below `c` are nearer to the
/// root by the length of the edge that was turned round, and all others are
/// farther from it by that length.
pub(crate) proof fn lemma_rotate_depth(t: TreeView, c: int, x: int)
    requires
        t.can_rotate(c),
        t.has(x),
    ensures
        t.rotate(c).depth(x) == if t.is_ancestor(c, x) {
            t.depth(x) - t.nodes[c].length
        } else {
            t.depth(x) + t.nodes[c].length
        },
{
    let n = t.rotate(c);
    let l = t.level[x];
    lemma_up(t, c);
    if t.is_ancestor(c, x) {
        lemma_rotate_ancestor(t, c, x, (l - 1) as nat);
        lemma_climb_add(t, x, (l - 1) as nat, 1);
        assert(t.climb(c, 1) == t.nodes[c].length + t.climb(t.up(c), 0));
    } else {
        lemma_rotate_ancestor(t, c, x, l);
        lemma_climb_add(n, x, l, 1);
        lemma_ancestor(t, x, l);
        assert(n.climb(t.root, 1) == n.nodes[t.root].length + n.climb(n.up(t.root), 0));
    }
}

/// After the root has moved to `c`, the ancestors of a node are those it had,
/// one level higher for a node below `c` and one level lower for any other.
pub(crate) proof fn lemma_rotate_at_level(t: TreeView, c: int, x: int, j: int)
    requires
        t.can_rotate(c),
        t.has(x),
        0 <= j <= t.rotate(c).level[x],
    ensures
        t.rotate(c).at_level(x, j) == if t.is_ancestor(c, x) {
            t.at_level(x, j + 1)
        } else if j == 0 {
            c
        } else {
            t.at_level(x, j - 1)
        },
{
    let n = t.rotate(c);
    lemma_rotate_wf(t, c);
    if t.is_ancestor(c, x) {
        lemma_rotate_ancestor(t, c, x, (t.level[x] - 1 - j) as nat);
    } else if j == 0 {
        lemma_at_level(n, x, 0);
    } else {
        lemma_rotate_ancestor(t, c, x, (t.level[x] + 1 - j) as nat);
    }
}

/// Moving the root to one of its children changes no patristic distance.
pub(crate) proof fn lemma_rotate_patristic(t: TreeView, c: int, u: int, v: int)
    requires
        t.can_rotate(c),
        t.has(u),
        t.has(v),
    ensures
        t.rotate(c).patristic(u, v) == t.patristic(u, v),
    decreases
            (if !t.is_ancestor(c, u) && t.is_ancestor(c, v) {
                1nat
            } else {
                0nat
            }),
{
    let n = t.rotate(c);
    let m = t.lca(u, v);
    let lm = t.level[m] as int;
    lemma_rotate_wf(t, c);
    lemma_lca(t, u, v);
    lemma_up(t, c);
    lemma_rotate_depth(t, c, u);
    lemma_rotate_depth(t, c, v);
    lemma_rotate_depth(t, c, m);
    lemma_meet_level(n, u, v, 0);
    let mm = n.meet_level(u, v) as int;
    lemma_meet_level(n, u, v, mm);
    if t.is_ancestor(c, u) && t.is_ancestor(c, v) {
        assert(t.is_ancestor(c, m));
        lemma_rotate_at_level(t, c, u, lm - 1);
        lemma_rotate_at_level(t, c, v, lm - 1);
        lemma_rotate_at_level(t, c, u, mm);
        lemma_rotate_at_level(t, c, v, mm);
        lemma_meet_level(t, u, v, mm + 1);
        lemma_lca_unique(n, u, v, m);
    } else if !t.is_ancestor(c, u) && !t.is_ancestor(c, v) {
        if t.is_ancestor(c, m) {
            lemma_ancestor_trans(t, c, m, u);
        }
        lemma_rotate_at_level(t, c, u, lm + 1);
        lemma_rotate_at_level(t, c, v, lm + 1);
        lemma_rotate_at_level(t, c, u, mm);
        lemma_rotate_at_level(t, c, v, mm);
        if mm > 0 {
            lemma_meet_level(t, u, v, mm - 1);
        }
        lemma_lca_unique(n, u, v, m);
    } else if t.is_ancestor(c, u) {
        // The two nodes met at the old root, and meet at the new one now.
        if t.is_ancestor(c, m) {
            lemma_ancestor_trans(t, c, m, v);
        }
        if lm >= 1 {
            lemma_ancestors_chain(t, c, m, u);
        }
        lemma_at_level(t, m, 0);
        lemma_at_level(n, u, 0);
        lemma_at_level(n, v, 0);
        if mm >= 1 {
            lemma_rotate_at_level(t, c, u, mm);
            lemma_rotate_at_level(t, c, v, mm);
            let a = t.at_level(u, mm + 1);
            lemma_at_level(t, u, mm + 1);
            lemma_at_level(t, v, mm - 1);
            lemma_ancestors_chain(t, c, a, u);
            lemma_ancestor_trans(t, c, a, v);
            assert(false);
        }
        lemma_lca_unique(n, u, v, c);
        assert(n.depth(c) == 0);
        assert(t.depth(m) == 0);
    } else {
        lemma_rotate_patristic(t, c, v, u);
        lemma_patristic_symmetric(t, u, v);
        lemma_patristic_symmetric(n, u, v);
    }
}

/// Moving the root to one of its children keeps the nodes, their names, the
/// number of edges at each node and every patristic distance.
pub proof fn lemma_rotate_metric(t: TreeView, c: int)
    requires
        t.can_rotate(c),
    ensures
        t.same_metric(t.rotate(c)),
{
    let n = t.rotate(c);
    let r = t.root;
    lemma_up(t, c);
    assert(t.nodes[r].children.contains(c as usize));
    lemma_drop_value(t.nodes[r].children, c as usize);
    assert forall|u: int, v: int| t.has(u) && t.has(v) implies #[trigger] n.patristic(u, v)
        == t.patristic(u, v) by {
        lemma_rotate_patristic(t, c, u, v);
    }
}

/// Carrying names, edge counts and distances over is transitive.
pub(crate) proof fn lemma_same_metric_trans(a: TreeView, b: TreeView, c: TreeView)
    requires
        a.same_metric(b),
        b.same_metric(c),
    ensures
        a.same_metric(c),
{
    assert forall|x: int| a.has(x) implies (#[trigger] c.nodes[x]).name == a.nodes[x].name by {
        assert(b.nodes[x].name == a.nodes[x].name);
    }
    assert forall|x: int| a.has(x) implies #[trigger] c.degree(x) == a.degree(x) by {
        assert(b.degree(x) == a.degree(x));
    }
    assert forall|u: int, v: int| a.has(u) && a.has(v) implies #[trigger] c.patristic(u, v)
        == a.patristic(u, v) by {
        assert(b.patristic(u, v) == a.patristic(u, v));
    }
}

/// Rerooting at `a` leaves one rooted tree with root `a`, the same nodes,
/// names, edge counts and patristic distances, and it changes no node but
/// the ancestors of `a` and `a` itself.
pub proof fn lemma_reroot(t: TreeView, a: int)
    requires
        t.wf(),
        t.has(a),
    ensures
        t.reroot_at(a).wf(),
        t.reroot_at(a).root == a,
        t.reroot_at(a).nodes.len() == t.nodes.len(),
        t.same_metric(t.reroot_at(a)),
        forall|x: int|
            t.has(x) && !t.is_ancestor(x, a) ==> #[trigger] t.reroot_at(a).nodes[x] == t.nodes[x],
        a != t.root ==> t.reroot_at(t.up(a)).can_rotate(a),
    decreases t.level[a],
{
    if a != t.root {
        lemma_up(t, a);
        let p = t.up(a);
        let mid = t.reroot_at(p);
        lemma_reroot(t, p);
        lemma_at_level(t, a, t.level[a] as int);
        assert(!t.is_ancestor(a, p));
        assert(mid.nodes[a] == t.nodes[a]);
        lemma_rotate_wf(mid, a);
        lemma_rotate_metric(mid, a);
        lemma_same_metric_trans(t, mid, mid.rotate(a));
        lemma_subtree_step(t, p, a);
        assert forall|x: int| t.has(x) && !t.is_ancestor(x, a) implies #[trigger] t.reroot_at(
            a,
        ).nodes[x] == t.nodes[x] by {
            if t.is_ancestor(x, p) {
                lemma_ancestor_trans(t, x, p, a);
            }
            assert(mid.nodes[x] == t.nodes[x]);
        }
    }
}

/// Rerooting keeps every branch at least as long as the shortest was.
pub(crate) proof fn lemma_reroot_lengths(t: TreeView, a: int, low: int)
    requires
        t.wf(),
        t.has(a),
        t.lengths_at_least(low),
    ensures
        t.reroot_at(a).lengths_at_least(low),
    decreases t.level[a],
{
    if a != t.root {
        let p = t.up(a);
        let mid = t.reroot_at(p);
        lemma_up(t, a);
        lemma_reroot(t, p);
        lemma_reroot(t, a);
        lemma_reroot_lengths(t, p, low);
        let r = mid.rotate(a);
        assert forall|u: int| r.has(u) && u != r.root implies (#[trigger] r.nodes[u]).length
            >= low by {
            if u == p {
                assert(mid.nodes[a].length >= low);
            } else {
                assert(mid.nodes[u].length >= low);
            }
        }
    }
}

/// Setting a node on a branch keeps every branch at least as long as the
/// shortest was, where the two parts of the cut branch are that long.
pub(crate) proof fn lemma_subdivide_lengths(t: TreeView, c: int, low: i64, high: i64, least: int)
    requires
        t.can_subdivide(c, low, high),
        t.lengths_at_least(least),
        low >= least,
        high >= least,
    ensures
        t.subdivide(c, low, high).lengths_at_least(least),
{
    let s = t.subdivide(c, low, high);
    lemma_up(t, c);
    assert forall|u: int| s.has(u) && u != s.root implies (#[trigger] s.nodes[u]).length
        >= least by {
        if u != c && u != t.nodes.len() {
            assert(t.nodes[u].length >= least);
        }
    }
}

/// Setting a node on a branch leaves one rooted tree.
pub(crate) proof fn lemma_subdivide_wf(t: TreeView, c: int, low: i64, high: i64)
    requires
        t.can_subdivide(c, low, high),
    ensures
        t.subdivide(c, low, high).wf(),
        t.subdivide(c, low, high).root == t.root,
        t.subdivide(c, low, high).nodes.len() == t.nodes.len() + 1,
{
    let s = t.subdivide(c, low, high);
    let p = t.up(c);
    let r = t.nodes.len() as int;
    lemma_up(t, c);
    lemma_at_level(t, c, t.level[c] as int);
    let kids = t.nodes[p].children;
    assert(kids.contains(c as usize));
    let at = kids.index_of(c as usize);
    assert(0 <= at < kids.len() && kids[at] == c as usize);
    assert(kids.no_duplicates());
    assert(!t.is_ancestor(c, p));
    assert forall|u: int| #![trigger s.nodes[u].parent] s.has(u) && u != s.root implies s.nodes[u].parent is Some
        && s.has(s.up(u)) && s.nodes[s.up(u)].children.contains(u as usize) by {
        if u == r {
            assert(s.nodes[p].children[at] == r as usize);
        } else if u == c {
            assert(s.nodes[r].children[0] == c as usize);
        } else {
            lemma_up(t, u);
            let q = t.up(u);
            assert(t.nodes[q].children.contains(u as usize));
            let k = choose|k: int|
                0 <= k < t.nodes[q].children.len() && t.nodes[q].children[k] == u as usize;
            assert(s.nodes[q].children[k] == u as usize);
        }
    }
    assert forall|u: int, i: int| #![trigger s.nodes[u].children[i]] s.has(u) && 0 <= i
        < s.nodes[u].children.len() implies {
        let ch = s.nodes[u].children[i] as int;
        s.has(ch) && ch != s.root && s.up(ch) == u
    } by {
        if u == r {
        } else if u == p {
            if i != at {
                assert(t.up(kids[i] as int) == p);
                assert(kids[i] != kids[at]);
            }
        } else {
            assert(t.up(t.nodes[u].children[i] as int) == u);
        }
    }
    assert forall|u: int| #![trigger s.nodes[u].children] s.has(u) implies s.nodes[u].children.no_duplicates() by {
        if u == p {
            let new = s.nodes[p].children;
            assert forall|i: int, j: int| 0 <= i < new.len() && 0 <= j < new.len() && i
                != j implies new[i] != new[j] by {
                if i != at {
                    assert(t.has(kids[i] as int));
                }
                if j != at {
                    assert(t.has(kids[j] as int));
                }
                if i != at && j != at {
                    assert(kids[i] != kids[j]);
                }
            }
        } else if u != r {
            assert(t.nodes[u].children.no_duplicates());
        }
    }
    assert forall|u: int| #![trigger s.level[u]] s.has(u) && u != s.root implies s.level[u]
        == s.level[s.up(u)] + 1 by {
        if u != r && u != c {
            lemma_up(t, u);
            lemma_subtree_step(t, c, u);
        }
    }
}

/// The first steps towards the root are the same before and after a node has
/// been set on the branch of `c`: for a node below `c` as far as `c`, for any
/// other node as far as the root.
pub(crate) proof fn lemma_subdivide_ancestor(t: TreeView, c: int, low: i64, high: i64, x: int, k: nat)
    requires
        t.can_subdivide(c, low, high),
        t.has(x),
        if t.is_ancestor(c, x) {
            k <= t.level[x] - t.level[c]
        } else {
            k <= t.level[x]
        },
    ensures
        t.subdivide(c, low, high).ancestor(x, k) == t.ancestor(x, k),
        t.subdivide(c, low, high).climb(x, k) == t.climb(x, k),
    decreases k,
{
    if k > 0 {
        lemma_up(t, x);
        lemma_up(t, c);
        lemma_subtree_step(t, c, x);
        lemma_subdivide_ancestor(t, c, low, high, t.up(x), (k - 1) as nat);
    }
}

/// Setting a node on a branch changes the depth of no node, and the new node
/// is deeper than the parent of `c` by the upper part of the branch.
pub(crate) proof fn lemma_subdivide_depth(t: TreeView, c: int, low: i64, high: i64, x: int)
    requires
        t.can_subdivide(c, low, high),
        t.has(x),
    ensures
        t.subdivide(c, low, high).depth(x) == t.depth(x),
        t.subdivide(c, low, high).depth(t.nodes.len() as int) == t.depth(t.up(c)) + high,
{
    let s = t.subdivide(c, low, high);
    let p = t.up(c);
    let r = t.nodes.len() as int;
    let lc = t.level[c];
    lemma_up(t, c);
    lemma_at_level(t, c, lc as int);
    assert(!t.is_ancestor(c, p));
    lemma_subdivide_ancestor(t, c, low, high, p, t.level[p]);
    assert(s.climb(r, lc) == s.nodes[r].length + s.climb(s.up(r), (lc - 1) as nat));
    if t.is_ancestor(c, x) {
        let k = (t.level[x] - lc) as nat;
        lemma_subdivide_ancestor(t, c, low, high, x, k);
        lemma_climb_add(s, x, k, lc + 1);
        lemma_climb_add(t, x, k, lc);
        assert(s.climb(c, lc + 1) == s.nodes[c].length + s.climb(s.up(c), lc));
        assert(t.climb(c, lc) == t.nodes[c].length + t.climb(t.up(c), (lc - 1) as nat));
    } else {
        lemma_subdivide_ancestor(t, c, low, high, x, t.level[x]);
    }
}

/// After a node has been set on the branch of `c`, a node keeps its
/// ancestors, but that a node below `c` has the new node among them, at the
/// level that `c` had, and those below the new node one level lower.
pub(crate) proof fn lemma_subdivide_at_level(t: TreeView, c: int, low: i64, high: i64, x: int, j: int)
    requires
        t.can_subdivide(c, low, high),
        t.has(x),
        0 <= j <= t.subdivide(c, low, high).level[x],
    ensures
        t.subdivide(c, low, high).at_level(x, j) == if !t.is_ancestor(c, x) || j < t.level[c] {
            t.at_level(x, j)
        } else if j == t.level[c] {
            t.nodes.len() as int
        } else {
            t.at_level(x, j - 1)
        },
{
    let s = t.subdivide(c, low, high);
    let p = t.up(c);
    let r = t.nodes.len() as int;
    let lc = t.level[c] as int;
    let lx = t.level[x] as int;
    lemma_up(t, c);
    lemma_at_level(t, c, lc);
    if !t.is_ancestor(c, x) {
        lemma_subdivide_ancestor(t, c, low, high, x, (lx - j) as nat);
    } else if j > lc {
        lemma_subdivide_ancestor(t, c, low, high, x, (lx + 1 - j) as nat);
    } else {
        let k = (lx - lc) as nat;
        lemma_subdivide_ancestor(t, c, low, high, x, k);
        crate::ancestry::lemma_ancestor_add(s, x, k, (lc + 1 - j) as nat);
        assert(s.ancestor(c, 1) == s.ancestor(s.up(c), 0));
        if j < lc {
            assert(!t.is_ancestor(c, p));
            assert(s.ancestor(c, (lc + 1 - j) as nat) == s.ancestor(r, (lc - j) as nat));
            assert(s.ancestor(r, (lc - j) as nat) == s.ancestor(p, (lc - j - 1) as nat));
            lemma_subdivide_ancestor(t, c, low, high, p, (lc - 1 - j) as nat);
            crate::ancestry::lemma_ancestor_add(t, x, k, 1);
            assert(t.ancestor(c, 1) == t.ancestor(t.up(c), 0));
            lemma_at_level_twice(t, x, lc - 1, j);
        }
    }
}

/// Setting a node on a branch changes no patristic distance between the
/// nodes that were there before.
pub(crate) proof fn lemma_subdivide_patristic(t: TreeView, c: int, low: i64, high: i64, u: int, v: int)
    requires
        t.can_subdivide(c, low, high),
        t.has(u),
        t.has(v),
    ensures
        t.subdivide(c, low, high).patristic(u, v) == t.patristic(u, v),
    decreases
            (if !t.is_ancestor(c, u) && t.is_ancestor(c, v) {
                1nat
            } else {
                0nat
            }),
{
    let s = t.subdivide(c, low, high);
    let m = t.lca(u, v);
    let lm = t.level[m] as int;
    let lc = t.level[c] as int;
    lemma_subdivide_wf(t, c, low, high);
    lemma_lca(t, u, v);
    lemma_up(t, c);
    lemma_subdivide_depth(t, c, low, high, u);
    lemma_subdivide_depth(t, c, low, high, v);
    lemma_subdivide_depth(t, c, low, high, m);
    lemma_meet_level(s, u, v, 0);
    let mm = s.meet_level(u, v) as int;
    lemma_meet_level(s, u, v, mm);
    lemma_subdivide_at_level(t, c, low, high, u, mm);
    lemma_subdivide_at_level(t, c, low, high, v, mm);
    if t.is_ancestor(c, u) && t.is_ancestor(c, v) {
        assert(t.is_ancestor(c, m));
        lemma_subdivide_at_level(t, c, low, high, u, lm + 1);
        lemma_subdivide_at_level(t, c, low, high, v, lm + 1);
        if mm > lc {
            lemma_meet_level(t, u, v, mm - 1);
        }
        lemma_lca_unique(s, u, v, m);
    } else if !t.is_ancestor(c, u) && !t.is_ancestor(c, v) {
        if t.is_ancestor(c, m) {
            lemma_ancestor_trans(t, c, m, u);
        }
        lemma_subdivide_at_level(t, c, low, high, u, lm);
        lemma_subdivide_at_level(t, c, low, high, v, lm);
        lemma_meet_level(t, u, v, mm);
        lemma_lca_unique(s, u, v, m);
    } else if t.is_ancestor(c, u) {
        if t.is_ancestor(c, m) {
            lemma_ancestor_trans(t, c, m, v);
        }
        if lm >= lc {
            lemma_ancestors_chain(t, c, m, u);
        }
        lemma_subdivide_at_level(t, c, low, high, u, lm);
        lemma_subdivide_at_level(t, c, low, high, v, lm);
        if mm > lm {
            lemma_at_level(t, v, mm);
            if mm < lc {
                lemma_meet_level(t, u, v, mm);
            } else if mm > lc {
                let a = t.at_level(u, mm - 1);
                lemma_at_level(t, u, mm - 1);
                lemma_ancestors_chain(t, c, a, u);
                lemma_ancestor_trans(t, c, a, v);
            }
            assert(false);
        }
        lemma_lca_unique(s, u, v, m);
    } else {
        lemma_subdivide_patristic(t, c, low, high, v, u);
        lemma_patristic_symmetric(t, u, v);
        lemma_patristic_symmetric(s, u, v);
    }
}

/// Setting a node on a branch keeps the nodes that were there, with their
/// names, their numbers of edges and the patristic distances between them.
pub proof fn lemma_subdivide_metric(t: TreeView, c: int, low: i64, high: i64)
    requires
        t.can_subdivide(c, low, high),
    ensures
        t.same_metric(t.subdivide(c, low, high)),
{
    let s = t.subdivide(c, low, high);
    lemma_up(t, c);
    assert forall|u: int, v: int| t.has(u) && t.has(v) implies #[trigger] s.patristic(u, v)
        == t.patristic(u, v) by {
        lemma_subdivide_patristic(t, c, low, high, u, v);
    }
}

/// The node set on the branch of `c` is an ancestor of every node below `c`.
pub(crate) proof fn lemma_subdivide_above(t: TreeView, c: int, low: i64, high: i64, y: int)
    requires
        t.can_subdivide(c, low, high),
        t.is_ancestor(c, y),
    ensures
        t.subdivide(c, low, high).is_ancestor(t.nodes.len() as int, y),
{
    lemma_subdivide_at_level(t, c, low, high, y, t.level[c] as int);
}

/// The position of `c` in a list that holds it once.
fn position_of(list: &Vec<usize>, c: usize) -> (pos: usize)
    requires
        list@.contains(c),
        list@.no_duplicates(),
    ensures
        pos < list@.len(),
        pos == list@.index_of(c),
{
    let mut pos: usize = 0;
    let ghost at = list@.index_of(c);
    while list[pos] != c
        invariant
            0 <= at < list@.len(),
            list@[at] == c,
            pos <= at,
        decreases at - pos,
    {
        assert(pos < at < list.len());
        pos = pos + 1;
    }
    assert(list@[pos as int] == c);
    assert(pos == at);
    pos
}

/// A copy of a list of indices.
fn copy_indices(list: &Vec<usize>) -> (copy: Vec<usize>)
    ensures
        copy@ == list@,
{
    let mut copy: Vec<usize> = Vec::new();
    let mut i: usize = 0;
    while i < list.len()
        invariant
            i <= list@.len(),
            copy@ == list@.subrange(0, i as int),
        decreases list@.len() - i,
    {
        copy.push(list[i]);
        assert(copy@ == list@.subrange(0, i + 1));
        i = i + 1;
    }
    assert(list@.subrange(0, i as int) == list@);
    copy
}

impl Tree {
    /// A copy of the tree.
    pub fn duplicate(&self) -> (copy: Tree)
        ensures
            copy@ == self@,
    {
        let mut nodes: Vec<Node> = Vec::new();
        let mut i: usize = 0;
        while i < self.nodes.len()
            invariant
                i <= self.nodes@.len(),
                nodes@.len() == i,
                forall|j: int| 0 <= j < i ==> (#[trigger] nodes@[j])@ == self.nodes@[j]@,
            decreases self.nodes@.len() - i,
        {
            let name = match &self.nodes[i].name {
                Some(s) => Some(s.clone()),
                None => None,
            };
            let children = copy_indices(&self.nodes[i].children);
            nodes.push(
                Node {
                    name,
                    length: self.nodes[i].length,
                    parent: self.nodes[i].parent,
                    children,
                },
            );
            i = i + 1;
        }
        let copy = Tree { nodes, root: self.root, level: Ghost(self.level@) };
        assert(copy@.nodes =~= self@.nodes);
        copy
    }

    /// Moves the root to `c`, one of its children.
    pub fn rotate_root(&mut self, c: usize)
        requires
            old(self)@.can_rotate(c as int),
        ensures
            final(self)@ == old(self)@.rotate(c as int),
            final(self).wf(),
    {
        let ghost t = self@;
        let r = self.root;
        proof {
            lemma_up(t, c as int);
            assert(t.nodes[r as int] == self.nodes@[r as int]@);
            assert(t.nodes[c as int] == self.nodes@[c as int]@);
            assert(t.nodes[r as int].children.contains(c));
            lemma_rotate_wf(t, c as int);
        }
        let pos = position_of(&self.nodes[r].children, c);
        let w = self.nodes[c].length;
        self.nodes[r].children.remove(pos);
        self.nodes[r].parent = Some(c);
        self.nodes[r].length = w;
        self.nodes[c].parent = None;
        self.nodes[c].length = 0;
        self.nodes[c].children.insert(0, r);
        self.root = c;
        self.level = Ghost(t.rotate(c as int).level);
        proof {
            let goal = t.rotate(c as int);
            assert forall|x: int| 0 <= x < goal.nodes.len() implies self@.nodes[x]
                == goal.nodes[x] by {
                assert(self@.nodes[x] == self.nodes@[x]@);
                if x == r {
                    assert(self@.nodes[x].children =~= goal.nodes[x].children);
                } else if x == c {
                    assert(self@.nodes[x].children =~= goal.nodes[x].children);
                } else {
                    assert(t.nodes[x] == old(self).nodes@[x]@);
                }
            }
            assert(self@.nodes =~= goal.nodes);
        }
    }

    /// Moves the root to `target`, one edge at a time along the way from the
    /// root to it.
    pub fn reroot(&mut self, target: usize)
        requires
            old(self).wf(),
            target < old(self)@.len(),
        ensures
            final(self)@ == old(self)@.reroot_at(target as int),
            final(self).wf(),
    {
        let ghost t = self@;
        let mut chain: Vec<usize> = Vec::new();
        let mut cur = target;
        let mut next = self.nodes[cur].parent;
        proof {
            assert(t.nodes[cur as int] == self.nodes@[cur as int]@);
        }
        while next.is_some()
            invariant
                self@ == t,
                t.wf(),
                t.has(target as int),
                t.has(cur as int),
                next == t.nodes[cur as int].parent,
                cur == t.ancestor(target as int, chain@.len()),
                chain@.len() + t.level[cur as int] == t.level[target as int],
                forall|j: int|
                    0 <= j < chain@.len() ==> #[trigger] chain@[j] == t.ancestor(
                        target as int,
                        j as nat,
                    ),
            decreases t.level[cur as int],
        {
            let p = next.unwrap();
            proof {
                lemma_up(t, cur as int);
                crate::ancestry::lemma_ancestor_add(t, target as int, chain@.len(), 1);
                assert(t.ancestor(cur as int, 1) == t.ancestor(t.up(cur as int), 0));
                assert(t.nodes[p as int] == self.nodes@[p as int]@);
            }
            chain.push(cur);
            cur = p;
            next = self.nodes[cur].parent;
        }
        proof {
            lemma_up(t, cur as int);
            assert(cur == t.root);
        }
        let mut i = chain.len();
        while i > 0
            invariant
                t.wf(),
                t.has(target as int),
                i <= chain@.len(),
                chain@.len() == t.level[target as int],
                forall|j: int|
                    0 <= j < chain@.len() ==> #[trigger] chain@[j] == t.ancestor(
                        target as int,
                        j as nat,
                    ),
                self@ == t.reroot_at(t.ancestor(target as int, i as nat)),
            decreases i,
        {
            i = i - 1;
            let c = chain[i];
            proof {
                lemma_ancestor(t, target as int, i as nat);
                lemma_up(t, c as int);
                crate::ancestry::lemma_ancestor_add(t, target as int, i as nat, 1);
                assert(t.ancestor(c as int, 1) == t.ancestor(t.up(c as int), 0));
                lemma_reroot(t, c as int);
            }
            self.rotate_root(c);
        }
        proof {
            lemma_reroot(t, target as int);
        }
    }

    /// Sets a new, unnamed node on the branch of `c`, at `low` above `c` and
    /// `high` below its parent, and returns the index of the new node.
    pub fn split_above(&mut self, c: usize, low: i64, high: i64) -> (r: usize)
        requires
            old(self)@.can_subdivide(c as int, low, high),
        ensures
            final(self)@ == old(self)@.subdivide(c as int, low, high),
            final(self).wf(),
            r == old(self)@.len(),
    {
        let ghost t = self@;
        proof {
            lemma_up(t, c as int);
            assert(t.nodes[c as int] == self.nodes@[c as int]@);
            assert(t.nodes[t.up(c as int)] == self.nodes@[t.up(c as int)]@);
            assert(t.nodes[t.up(c as int)].children.contains(c));
            lemma_subdivide_wf(t, c as int, low, high);
        }
        let p = self.nodes[c].parent.unwrap();
        let r = self.nodes.len();
        let pos = position_of(&self.nodes[p].children, c);
        self.nodes[p].children[pos] = r;
        self.nodes[c].parent = Some(r);
        self.nodes[c].length = low;
        let mut below: Vec<usize> = Vec::new();
        below.push(c);
        self.nodes.push(Node { name: None, length: high, parent: Some(p), children: below });
        self.level = Ghost(t.subdivide(c as int, low, high).level);
        proof {
            let goal = t.subdivide(c as int, low, high);
            assert forall|x: int| 0 <= x < goal.nodes.len() implies self@.nodes[x]
                == goal.nodes[x] by {
                assert(self@.nodes[x] == self.nodes@[x]@);
                if x == r {
                    assert(self@.nodes[x].children =~= goal.nodes[x].children);
                } else if x == p {
                    assert(self@.nodes[x].children =~= goal.nodes[x].children);
                } else if x == c {
                } else {
                    assert(t.nodes[x] == old(self).nodes@[x]@);
                }
            }
            assert(self@.nodes =~= goal.nodes);
        }
        r
    }
}

} // verus!
