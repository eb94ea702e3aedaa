//! Ancestors, levels and lowest common ancestors of a rooted tree, as
//! mathematical functions of its view, with the facts that the rest of the
//! crate builds on.

use crate::tree::TreeView;
use vstd::arithmetic::power2::*;
use vstd::prelude::*;
use vstd::relations::injective_on;
use vstd::set_lib::*;

verus! {

/// The largest absolute value of a branch length.
pub open spec fn branch_bound() -> int {
    0x8000_0000_0000_0000
}

impl TreeView {
    /// The ancestor of `u` that stands at level `j` (for `j` up to the level of `u`).
    pub open spec fn at_level(self, u: int, j: int) -> int {
        self.ancestor(u, (self.level[u] - j) as nat)
    }

    /// The deepest level, not above `j`, at which `u` and `v` have the same ancestor.
    pub open spec fn meet(self, u: int, v: int, j: nat) -> nat
        decreases j,
    {
        if j == 0 {
            0
        } else if self.at_level(u, j as int) == self.at_level(v, j as int) {
            j
        } else {
            self.meet(u, v, (j - 1) as nat)
        }
    }

    /// The level of the deepest node that is an ancestor of both `u` and `v`.
    pub open spec fn meet_level(self, u: int, v: int) -> nat {
        if self.level[u] <= self.level[v] {
            self.meet(u, v, self.level[u])
        } else {
            self.meet(u, v, self.level[v])
        }
    }

    /// The lowest common ancestor: the deepest node that is an ancestor of
    /// both `u` and `v`.
    pub open spec fn lca(self, u: int, v: int) -> int {
        self.at_level(u, self.meet_level(u, v) as int)
    }

    /// The ancestor of `u` that is `2^k` edges above it, if there is one.
    pub open spec fn jump(self, u: int, k: nat) -> Option<int> {
        if pow2(k) <= self.level[u] {
            Some(self.ancestor(u, pow2(k)))
        } else {
            None
        }
    }

    /// Every branch (the root has none) is at least `low` long.
    pub open spec fn lengths_at_least(self, low: int) -> bool {
        forall|u: int| self.has(u) && u != self.root ==> (#[trigger] self.nodes[u]).length >= low
    }

    /// Every branch (the root has none) is at most `high` long.
    pub open spec fn lengths_at_most(self, high: int) -> bool {
        forall|u: int| self.has(u) && u != self.root ==> (#[trigger] self.nodes[u]).length <= high
    }
}

pub(crate) proof fn lemma_up(t: TreeView, u: int)
    requires
        t.wf(),
        t.has(u),
    ensures
        t.has(t.up(u)),
        u == t.root ==> t.up(u) == u && t.level[u] == 0,
        u != t.root ==> t.level[u] == t.level[t.up(u)] + 1 && t.nodes[u].parent == Some(
            t.up(u) as usize,
        ),
{
    if u != t.root {
        assert(t.nodes[u].parent is Some);
        assert(t.level[u] == t.level[t.up(u)] + 1);
    }
}

pub(crate) proof fn lemma_ancestor(t: TreeView, u: int, k: nat)
    requires
        t.wf(),
        t.has(u),
    ensures
        t.has(t.ancestor(u, k)),
        t.level[t.ancestor(u, k)] == if k <= t.level[u] {
            t.level[u] - k
        } else {
            0
        },
        k >= t.level[u] ==> t.ancestor(u, k) == t.root,
    decreases k,
{
    lemma_up(t, u);
    if k > 0 {
        lemma_ancestor(t, t.up(u), (k - 1) as nat);
    } else if t.level[u] == 0 && u != t.root {
        assert(false);
    }
}

pub(crate) proof fn lemma_ancestor_add(t: TreeView, u: int, a: nat, b: nat)
    ensures
        t.ancestor(t.ancestor(u, a), b) == t.ancestor(u, a + b),
    decreases a,
{
    if a > 0 {
        lemma_ancestor_add(t, t.up(u), (a - 1) as nat, b);
    }
}

pub(crate) proof fn lemma_climb_add(t: TreeView, u: int, a: nat, b: nat)
    ensures
        t.climb(u, a + b) == t.climb(u, a) + t.climb(t.ancestor(u, a), b),
    decreases a,
{
    if a > 0 {
        lemma_climb_add(t, t.up(u), (a - 1) as nat, b);
    }
}

/// A climb of `k` edges is at most `k` times the largest branch length, in
/// either direction.
pub(crate) proof fn lemma_climb_bound(t: TreeView, u: int, k: nat)
    requires
        t.wf(),
        t.has(u),
    ensures
        -k * branch_bound() <= t.climb(u, k) <= k * branch_bound(),
    decreases k,
{
    if k > 0 {
        lemma_up(t, u);
        lemma_climb_bound(t, t.up(u), (k - 1) as nat);
        assert(k * branch_bound() == (k - 1) * branch_bound() + branch_bound())
            by (nonlinear_arith);
        assert(-k * branch_bound() == -(k - 1) * branch_bound() - branch_bound())
            by (nonlinear_arith);
    }
}

/// With branch lengths of at least `low`, a climb of `k` edges is at least
/// `k` times `low`.
pub(crate) proof fn lemma_climb_at_least(t: TreeView, u: int, k: nat, low: int)
    requires
        t.wf(),
        t.has(u),
        t.lengths_at_least(low),
        k <= t.level[u],
    ensures
        t.climb(u, k) >= k * low,
    decreases k,
{
    if k > 0 {
        lemma_up(t, u);
        let j = (k - 1) as nat;
        lemma_climb_at_least(t, t.up(u), j, low);
        assert(t.nodes[u].length >= low);
        assert(k * low == j * low + low) by (nonlinear_arith)
            requires
                k == j + 1,
        ;
    } else {
        assert(k * low == 0) by (nonlinear_arith)
            requires
                k == 0,
        ;
    }
}

/// With branch lengths of at most `high`, a climb of `k` edges is at most
/// `k` times `high`.
pub(crate) proof fn lemma_climb_at_most(t: TreeView, u: int, k: nat, high: int)
    requires
        t.wf(),
        t.has(u),
        t.lengths_at_most(high),
        k <= t.level[u],
    ensures
        t.climb(u, k) <= k * high,
    decreases k,
{
    if k > 0 {
        lemma_up(t, u);
        let j = (k - 1) as nat;
        lemma_climb_at_most(t, t.up(u), j, high);
        assert(t.nodes[u].length <= high);
        assert(k * high == j * high + high) by (nonlinear_arith)
            requires
                k == j + 1,
        ;
    } else {
        assert(k * high == 0) by (nonlinear_arith)
            requires
                k == 0,
        ;
    }
}

/// The depth of a node is the depth of any of its ancestors and the climb
/// from the node to that ancestor.
pub(crate) proof fn lemma_depth_split(t: TreeView, a: int, u: int)
    requires
        t.wf(),
        t.is_ancestor(a, u),
    ensures
        t.depth(u) == t.depth(a) + t.climb(u, (t.level[u] - t.level[a]) as nat),
{
    lemma_climb_add(t, u, (t.level[u] - t.level[a]) as nat, t.level[a]);
}

/// The nodes on the way from `u` to the root are all different, so there are
/// fewer levels than nodes.
pub proof fn lemma_level_bound(t: TreeView, u: int)
    requires
        t.wf(),
        t.has(u),
    ensures
        t.level[u] < t.len(),
{
    let l = t.level[u] as int;
    let dom = set_int_range(0, l + 1);
    let f = |j: int| t.ancestor(u, (l - j) as nat);
    let img = dom.map(f);
    let all = set_int_range(0, t.len());
    lemma_int_range(0, l + 1);
    lemma_int_range(0, t.len());
    assert forall|j1: int, j2: int|
        dom.contains(j1) && dom.contains(j2) && #[trigger] f(j1) == #[trigger] f(j2) implies j1
        == j2 by {
        lemma_ancestor(t, u, (l - j1) as nat);
        lemma_ancestor(t, u, (l - j2) as nat);
    }
    assert(injective_on(f, dom));
    lemma_map_size(dom, img, f);
    assert forall|y: int| img.contains(y) implies all.contains(y) by {
        let j = choose|j: int| dom.contains(j) && f(j) == y;
        lemma_ancestor(t, u, (l - j) as nat);
    }
    lemma_len_subset(img, all);
}

pub(crate) proof fn lemma_at_level(t: TreeView, u: int, j: int)
    requires
        t.wf(),
        t.has(u),
        0 <= j <= t.level[u],
    ensures
        t.has(t.at_level(u, j)),
        t.level[t.at_level(u, j)] == j,
        t.is_ancestor(t.at_level(u, j), u),
        j == t.level[u] ==> t.at_level(u, j) == u,
        j == 0 ==> t.at_level(u, j) == t.root,
{
    lemma_ancestor(t, u, (t.level[u] - j) as nat);
}

/// The ancestor at level `i` of the ancestor at level `j` is the ancestor at level `i`.
pub(crate) proof fn lemma_at_level_twice(t: TreeView, u: int, j: int, i: int)
    requires
        t.wf(),
        t.has(u),
        0 <= i <= j <= t.level[u],
    ensures
        t.at_level(t.at_level(u, j), i) == t.at_level(u, i),
{
    lemma_at_level(t, u, j);
    lemma_ancestor_add(t, u, (t.level[u] - j) as nat, (j - i) as nat);
}

/// Being an ancestor is transitive.
pub(crate) proof fn lemma_ancestor_trans(t: TreeView, a: int, b: int, c: int)
    requires
        t.wf(),
        t.is_ancestor(a, b),
        t.is_ancestor(b, c),
    ensures
        t.is_ancestor(a, c),
{
    lemma_at_level_twice(t, c, t.level[b] as int, t.level[a] as int);
}

/// Of two ancestors of one node, the one that is not deeper is an ancestor of the other.
pub(crate) proof fn lemma_ancestors_chain(t: TreeView, a: int, b: int, u: int)
    requires
        t.wf(),
        t.is_ancestor(a, u),
        t.is_ancestor(b, u),
        t.level[a] <= t.level[b],
    ensures
        t.is_ancestor(a, b),
{
    lemma_at_level_twice(t, u, t.level[b] as int, t.level[a] as int);
}

pub(crate) proof fn lemma_meet(t: TreeView, u: int, v: int, j: nat)
    requires
        t.wf(),
        t.has(u),
        t.has(v),
        j <= t.level[u],
        j <= t.level[v],
    ensures
        t.meet(u, v, j) <= j,
        t.at_level(u, t.meet(u, v, j) as int) == t.at_level(v, t.meet(u, v, j) as int),
        forall|i: int|
            t.meet(u, v, j) < i <= j ==> #[trigger] t.at_level(u, i) != t.at_level(v, i),
        t.meet(u, v, j) == t.meet(v, u, j),
    decreases j,
{
    if j == 0 {
        lemma_at_level(t, u, 0);
        lemma_at_level(t, v, 0);
    } else if t.at_level(u, j as int) != t.at_level(v, j as int) {
        lemma_meet(t, u, v, (j - 1) as nat);
    }
}

/// Where two nodes have the same ancestor at one level, they have the same
/// ancestor at every level above it.
pub(crate) proof fn lemma_agree_above(t: TreeView, u: int, v: int, j: int, i: int)
    requires
        t.wf(),
        t.has(u),
        t.has(v),
        0 <= i <= j,
        j <= t.level[u],
        j <= t.level[v],
        t.at_level(u, j) == t.at_level(v, j),
    ensures
        t.at_level(u, i) == t.at_level(v, i),
{
    lemma_at_level_twice(t, u, j, i);
    lemma_at_level_twice(t, v, j, i);
}

/// The two nodes have the same ancestor at level `i` exactly when `i` is not
/// below the level at which they meet.
pub(crate) proof fn lemma_meet_level(t: TreeView, u: int, v: int, i: int)
    requires
        t.wf(),
        t.has(u),
        t.has(v),
        0 <= i <= t.level[u],
        i <= t.level[v],
    ensures
        t.meet_level(u, v) <= t.level[u],
        t.meet_level(u, v) <= t.level[v],
        t.meet_level(u, v) == t.meet_level(v, u),
        t.at_level(u, i) == t.at_level(v, i) <==> i <= t.meet_level(u, v),
{
    let j: nat = if t.level[u] <= t.level[v] {
        t.level[u]
    } else {
        t.level[v]
    };
    lemma_meet(t, u, v, j);
    lemma_meet(t, v, u, j);
    let m = t.meet_level(u, v) as int;
    if i <= m {
        lemma_agree_above(t, u, v, m, i);
    }
}

/// The lowest common ancestor is an ancestor of both nodes, and every node
/// that is an ancestor of both is an ancestor of it.
pub proof fn lemma_lca(t: TreeView, u: int, v: int)
    requires
        t.wf(),
        t.has(u),
        t.has(v),
    ensures
        t.has(t.lca(u, v)),
        t.level[t.lca(u, v)] == t.meet_level(u, v),
        t.is_ancestor(t.lca(u, v), u),
        t.is_ancestor(t.lca(u, v), v),
        t.lca(u, v) == t.lca(v, u),
        forall|a: int|
            t.is_ancestor(a, u) && t.is_ancestor(a, v) ==> #[trigger] t.is_ancestor(
                a,
                t.lca(u, v),
            ),
{
    let m = t.meet_level(u, v) as int;
    lemma_meet_level(t, u, v, 0);
    lemma_meet_level(t, u, v, m);
    lemma_at_level(t, u, m);
    lemma_at_level(t, v, m);
    assert forall|a: int| t.is_ancestor(a, u) && t.is_ancestor(a, v) implies #[trigger] t.is_ancestor(
        a,
        t.lca(u, v),
    ) by {
        lemma_meet_level(t, u, v, t.level[a] as int);
        lemma_at_level_twice(t, u, m, t.level[a] as int);
    }
}

/// A node that is an ancestor of both nodes, and that every common ancestor
/// is an ancestor of, is their lowest common ancestor.
pub(crate) proof fn lemma_lca_unique(t: TreeView, u: int, v: int, c: int)
    requires
        t.wf(),
        t.is_ancestor(c, u),
        t.is_ancestor(c, v),
        t.level[c] >= t.meet_level(u, v),
    ensures
        c == t.lca(u, v),
{
    lemma_meet_level(t, u, v, t.level[c] as int);
}

/// Where `a` is an ancestor of `u`, it is the lowest common ancestor of the two.
pub(crate) proof fn lemma_lca_of_ancestor(t: TreeView, a: int, u: int)
    requires
        t.wf(),
        t.is_ancestor(a, u),
    ensures
        t.lca(a, u) == a,
        t.lca(u, a) == a,
{
    lemma_at_level(t, a, t.level[a] as int);
    lemma_meet_level(t, a, u, t.level[a] as int);
    lemma_lca(t, a, u);
}

/// Two climbs of `p` edges make one of `2p` edges.
proof fn lemma_two_hops(t: TreeView, u: int, p: nat)
    requires
        t.wf(),
        t.has(u),
        p <= t.level[u],
    ensures
        t.has(t.ancestor(u, p)),
        t.level[t.ancestor(u, p)] == t.level[u] - p,
        t.ancestor(t.ancestor(u, p), p) == t.ancestor(u, p + p),
{
    lemma_ancestor(t, u, p);
    lemma_ancestor_add(t, u, p, p);
}

/// The ancestor `2^(k+1)` edges up is the ancestor `2^k` edges up of the
/// ancestor `2^k` edges up.
pub(crate) proof fn lemma_jump_step(t: TreeView, u: int, k: nat)
    requires
        t.wf(),
        t.has(u),
    ensures
        t.jump(u, k + 1) == match t.jump(u, k) {
            Some(mid) => t.jump(mid, k),
            None => None,
        },
        t.jump(u, k) is Some ==> t.has(t.jump(u, k)->0),
{
    let p = pow2(k);
    let q = pow2(k + 1);
    assert(q == p + p) by {
        lemma_pow2_unfold(k + 1);
    }
    if p <= t.level[u] {
        lemma_two_hops(t, u, p);
    }
}

} // verus!
