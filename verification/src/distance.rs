//! The three distances between two nodes, each a function of their lowest
//! common ancestor and of the depths, and the rows of the distance matrix.

use crate::ancestry::branch_bound;
use crate::ancestry::lemma_ancestors_chain;
use crate::ancestry::lemma_at_level;
use crate::ancestry::lemma_climb_at_least;
use crate::ancestry::lemma_climb_at_most;
use crate::ancestry::lemma_climb_bound;
use crate::ancestry::lemma_depth_split;
use crate::ancestry::lemma_lca;
use crate::ancestry::lemma_lca_of_ancestor;
use crate::ancestry::lemma_meet_level;
use crate::lca::LcaData;
use crate::tree::TreeView;
use rayon::iter::IntoParallelRefIterator;
use rayon::iter::ParallelIterator;
use vstd::prelude::*;
use vstd::relations::injective_on;
use vstd::set_lib::*;

verus! {

/// The distance that a matrix holds.
#[derive(Clone, Copy, PartialEq, Eq, Structural, Debug)]
pub enum Metric {
    /// The sum of the branch lengths on the path between two nodes.
    Patristic,
    /// The number of edges on the path between two nodes.
    Topological,
    /// The depth, in branch length, of the lowest common ancestor.
    Lmm,
}

impl TreeView {
    /// The sum of the branch lengths on the path between `u` and `v`.
    pub open spec fn patristic(self, u: int, v: int) -> int {
        self.depth(u) + self.depth(v) - 2 * self.depth(self.lca(u, v))
    }

    /// The number of edges on the path between `u` and `v`.
    pub open spec fn topological(self, u: int, v: int) -> int {
        self.level[u] + self.level[v] - 2 * self.level[self.lca(u, v)]
    }

    /// The depth, in branch length, of the lowest common ancestor of `u` and `v`.
    pub open spec fn lmm(self, u: int, v: int) -> int {
        self.depth(self.lca(u, v))
    }

    /// The entry of the matrix for `u` and `v` under `metric`.
    pub open spec fn cell(self, metric: Metric, u: int, v: int) -> int {
        match metric {
            Metric::Patristic => self.patristic(u, v),
            Metric::Topological => self.topological(u, v),
            Metric::Lmm => self.lmm(u, v),
        }
    }
}

/// The path between two nodes climbs from each of them to their lowest common
/// ancestor: its length is the sum of the two climbs, and its number of edges
/// the sum of the two differences in level.
pub(crate) proof fn lemma_path_split(t: TreeView, u: int, v: int)
    requires
        t.wf(),
        t.has(u),
        t.has(v),
    ensures
        t.level[t.lca(u, v)] <= t.level[u],
        t.level[t.lca(u, v)] <= t.level[v],
        t.patristic(u, v) == t.climb(u, (t.level[u] - t.level[t.lca(u, v)]) as nat) + t.climb(
            v,
            (t.level[v] - t.level[t.lca(u, v)]) as nat,
        ),
        t.topological(u, v) == (t.level[u] - t.level[t.lca(u, v)]) + (t.level[v]
            - t.level[t.lca(u, v)]),
{
    lemma_lca(t, u, v);
    lemma_depth_split(t, t.lca(u, v), u);
    lemma_depth_split(t, t.lca(u, v), v);
}

/// The nodes on the path between two nodes are all different, so the path
/// has fewer edges than the tree has nodes.
pub proof fn lemma_path_bound(t: TreeView, u: int, v: int)
    requires
        t.wf(),
        t.has(u),
        t.has(v),
    ensures
        0 <= t.topological(u, v) < t.len(),
{
    lemma_path_split(t, u, v);
    lemma_lca(t, u, v);
    let m = t.level[t.lca(u, v)] as int;
    let l = t.level[u] - m;
    let r = t.level[v] - m;
    let dom = set_int_range(0, l + r + 1);
    let f = |j: int|
        if j <= l {
            t.at_level(u, m + j)
        } else {
            t.at_level(v, m + (j - l))
        };
    let img = dom.map(f);
    let all = set_int_range(0, t.len());
    lemma_int_range(0, l + r + 1);
    lemma_int_range(0, t.len());
    assert forall|j: int| dom.contains(j) implies t.has(#[trigger] f(j)) && t.level[f(j)] == (if j
        <= l {
        m + j
    } else {
        m + (j - l)
    }) by {
        if j <= l {
            lemma_at_level(t, u, m + j);
        } else {
            lemma_at_level(t, v, m + (j - l));
        }
    }
    assert forall|j1: int, j2: int|
        dom.contains(j1) && dom.contains(j2) && #[trigger] f(j1) == #[trigger] f(j2) implies j1
        == j2 by {
        assert(t.has(f(j1)) && t.has(f(j2)));
        if j1 <= l && j2 > l {
            lemma_meet_level(t, u, v, m + j1);
        } else if j2 <= l && j1 > l {
            lemma_meet_level(t, u, v, m + j2);
        }
    }
    assert(injective_on(f, dom));
    lemma_map_size(dom, img, f);
    assert forall|y: int| img.contains(y) implies all.contains(y) by {
        let j = choose|j: int| dom.contains(j) && f(j) == y;
        assert(t.has(f(j)));
    }
    lemma_len_subset(img, all);
}

/// The lowest common ancestor of a node and itself is that node.
pub proof fn lemma_lca_reflexive(t: TreeView, u: int)
    requires
        t.wf(),
        t.has(u),
    ensures
        t.lca(u, u) == u,
{
    lemma_at_level(t, u, t.level[u] as int);
    lemma_lca_of_ancestor(t, u, u);
}

/// The lowest common ancestor does not depend on the order of the two nodes.
pub proof fn lemma_lca_symmetric(t: TreeView, u: int, v: int)
    requires
        t.wf(),
        t.has(u),
        t.has(v),
    ensures
        t.lca(u, v) == t.lca(v, u),
{
    lemma_lca(t, u, v);
}

/// Where no branch has a negative length, an ancestor is no deeper than its
/// descendant.
pub(crate) proof fn lemma_ancestor_depth(t: TreeView, a: int, u: int)
    requires
        t.wf(),
        t.lengths_at_least(0),
        t.is_ancestor(a, u),
    ensures
        t.depth(a) <= t.depth(u),
{
    lemma_depth_split(t, a, u);
    lemma_climb_at_least(t, u, (t.level[u] - t.level[a]) as nat, 0);
}

/// The lowest common ancestor is never below either node in edges; where no
/// branch has a negative length it is no deeper than either node in branch
/// length; and where one node is an ancestor of the other, it is that node.
pub proof fn lemma_lca_depth(t: TreeView, u: int, v: int)
    requires
        t.wf(),
        t.has(u),
        t.has(v),
    ensures
        t.level[t.lca(u, v)] <= t.level[u],
        t.level[t.lca(u, v)] <= t.level[v],
        t.lengths_at_least(0) ==> t.depth(t.lca(u, v)) <= t.depth(u) && t.depth(t.lca(u, v))
            <= t.depth(v),
        t.is_ancestor(u, v) ==> t.lca(u, v) == u,
        t.is_ancestor(v, u) ==> t.lca(u, v) == v,
{
    lemma_lca(t, u, v);
    if t.lengths_at_least(0) {
        lemma_ancestor_depth(t, t.lca(u, v), u);
        lemma_ancestor_depth(t, t.lca(u, v), v);
    }
    if t.is_ancestor(u, v) {
        lemma_lca_of_ancestor(t, u, v);
    }
    if t.is_ancestor(v, u) {
        lemma_lca_of_ancestor(t, v, u);
    }
}

/// The patristic distance does not depend on the order of the two nodes, and
/// it is zero between a node and itself.
pub proof fn lemma_patristic_symmetric(t: TreeView, u: int, v: int)
    requires
        t.wf(),
        t.has(u),
        t.has(v),
    ensures
        t.patristic(u, v) == t.patristic(v, u),
        t.patristic(u, u) == 0,
{
    lemma_lca(t, u, v);
    lemma_lca_reflexive(t, u);
}

/// Where no branch has a negative length, no patristic distance is negative.
pub proof fn lemma_patristic_nonnegative(t: TreeView, u: int, v: int)
    requires
        t.wf(),
        t.lengths_at_least(0),
        t.has(u),
        t.has(v),
    ensures
        t.patristic(u, v) >= 0,
{
    lemma_path_split(t, u, v);
    let m = t.level[t.lca(u, v)];
    lemma_climb_at_least(t, u, (t.level[u] - m) as nat, 0);
    lemma_climb_at_least(t, v, (t.level[v] - m) as nat, 0);
}

/// Where every branch has a positive length, the patristic distance is zero
/// only between a node and itself.
pub proof fn lemma_patristic_zero(t: TreeView, u: int, v: int)
    requires
        t.wf(),
        t.lengths_at_least(1),
        t.has(u),
        t.has(v),
    ensures
        t.patristic(u, v) == 0 <==> u == v,
{
    lemma_path_split(t, u, v);
    lemma_lca(t, u, v);
    lemma_patristic_symmetric(t, u, v);
    let m = t.level[t.lca(u, v)];
    lemma_climb_at_least(t, u, (t.level[u] - m) as nat, 1);
    lemma_climb_at_least(t, v, (t.level[v] - m) as nat, 1);
    if t.patristic(u, v) == 0 {
        lemma_at_level(t, u, t.level[u] as int);
        lemma_at_level(t, v, t.level[v] as int);
    }
}

/// Where no branch has a negative length, the patristic distance between two
/// nodes is at most the sum of their distances to any third.
pub proof fn lemma_patristic_triangle(t: TreeView, u: int, v: int, w: int)
    requires
        t.wf(),
        t.lengths_at_least(0),
        t.has(u),
        t.has(v),
        t.has(w),
    ensures
        t.patristic(u, w) <= t.patristic(u, v) + t.patristic(v, w),
{
    lemma_lca(t, u, v);
    lemma_lca(t, v, w);
    lemma_lca(t, u, w);
    let a = t.lca(u, v);
    let b = t.lca(v, w);
    let c = t.lca(u, w);
    if t.level[a] <= t.level[b] {
        // `a` is above `b`, hence above `w` too, and so above `c`.
        lemma_ancestors_chain(t, a, b, v);
        crate::ancestry::lemma_ancestor_trans(t, a, b, w);
        assert(t.is_ancestor(a, c));
        lemma_ancestor_depth(t, a, c);
        lemma_ancestor_depth(t, b, v);
    } else {
        lemma_ancestors_chain(t, b, a, v);
        crate::ancestry::lemma_ancestor_trans(t, b, a, u);
        lemma_lca(t, w, u);
        assert(t.is_ancestor(b, t.lca(w, u)));
        lemma_ancestor_depth(t, b, c);
        lemma_ancestor_depth(t, a, v);
    }
}

/// Where every branch has length one, the patristic distance is the
/// topological distance.
pub proof fn lemma_unit_lengths(t: TreeView, u: int, v: int)
    requires
        t.wf(),
        t.lengths_at_least(1),
        t.lengths_at_most(1),
        t.has(u),
        t.has(v),
    ensures
        t.patristic(u, v) == t.topological(u, v),
{
    lemma_path_split(t, u, v);
    let m = t.level[t.lca(u, v)];
    lemma_climb_at_least(t, u, (t.level[u] - m) as nat, 1);
    lemma_climb_at_least(t, v, (t.level[v] - m) as nat, 1);
    lemma_climb_at_most(t, u, (t.level[u] - m) as nat, 1);
    lemma_climb_at_most(t, v, (t.level[v] - m) as nat, 1);
}

/// Whatever the branch lengths, the topological distance is never negative,
/// it does not depend on the order of the two nodes, and it is zero exactly
/// between a node and itself.
pub proof fn lemma_topological(t: TreeView, u: int, v: int)
    requires
        t.wf(),
        t.has(u),
        t.has(v),
    ensures
        t.topological(u, v) >= 0,
        t.topological(u, v) == t.topological(v, u),
        t.topological(u, v) == 0 <==> u == v,
{
    lemma_path_split(t, u, v);
    lemma_lca(t, u, v);
    lemma_lca_reflexive(t, u);
    if t.topological(u, v) == 0 {
        lemma_at_level(t, u, t.level[u] as int);
        lemma_at_level(t, v, t.level[v] as int);
    }
}

impl LcaData {
    /// The patristic distance between `u` and `v`.
    pub fn patristic(&self, u: usize, v: usize) -> (d: i128)
        requires
            self.wf(),
            u < self.tree().len(),
            v < self.tree().len(),
        ensures
            d == self.tree().patristic(u as int, v as int),
    {
        let m = self.mrca(u, v);
        let ghost t = self.tree();
        proof {
            lemma_path_split(t, u as int, v as int);
            lemma_path_bound(t, u as int, v as int);
            lemma_lca(t, u as int, v as int);
            let l = (t.level[u as int] - t.level[m as int]) as nat;
            let r = (t.level[v as int] - t.level[m as int]) as nat;
            lemma_climb_bound(t, u as int, l);
            lemma_climb_bound(t, v as int, r);
            lemma_depth_split(t, m as int, u as int);
            lemma_depth_split(t, m as int, v as int);
            assert(l * branch_bound() + r * branch_bound() <= 0xffff_ffff_ffff_fffe
                * branch_bound()) by (nonlinear_arith)
                requires
                    l + r <= 0xffff_ffff_ffff_fffe,
            ;
            assert(l * branch_bound() >= 0 && r * branch_bound() >= 0) by (nonlinear_arith);
        }
        let a = self.depth_len[u] - self.depth_len[m];
        let b = self.depth_len[v] - self.depth_len[m];
        a + b
    }

    /// The topological distance between `u` and `v`.
    pub fn topological(&self, u: usize, v: usize) -> (d: usize)
        requires
            self.wf(),
            u < self.tree().len(),
            v < self.tree().len(),
        ensures
            d == self.tree().topological(u as int, v as int),
    {
        let m = self.mrca(u, v);
        proof {
            lemma_path_split(self.tree(), u as int, v as int);
            lemma_path_bound(self.tree(), u as int, v as int);
            lemma_lca(self.tree(), u as int, v as int);
        }
        let a = self.depth_top[u] - self.depth_top[m];
        let b = self.depth_top[v] - self.depth_top[m];
        a + b
    }

    /// The depth, in branch length, of the lowest common ancestor of `u` and `v`.
    pub fn lmm(&self, u: usize, v: usize) -> (d: i128)
        requires
            self.wf(),
            u < self.tree().len(),
            v < self.tree().len(),
        ensures
            d == self.tree().lmm(u as int, v as int),
    {
        let m = self.mrca(u, v);
        proof {
            lemma_lca(self.tree(), u as int, v as int);
        }
        self.depth_len[m]
    }

    /// The entry of the matrix for `u` and `v` under `metric`.
    pub fn cell(&self, metric: Metric, u: usize, v: usize) -> (d: i128)
        requires
            self.wf(),
            u < self.tree().len(),
            v < self.tree().len(),
        ensures
            d == self.tree().cell(metric, u as int, v as int),
    {
        match metric {
            Metric::Patristic => self.patristic(u, v),
            Metric::Topological => self.topological(u, v) as i128,
            Metric::Lmm => self.lmm(u, v),
        }
    }
}

/// Every entry of `leaves` is a node of the tree.
pub open spec fn all_nodes(t: TreeView, leaves: Seq<usize>) -> bool {
    forall|j: int| 0 <= j < leaves.len() ==> t.has(#[trigger] leaves[j] as int)
}

/// `row` holds, for each of `leaves` in their order, the entry of the matrix
/// for `leaf` and that node.
pub open spec fn is_row(
    t: TreeView,
    metric: Metric,
    leaf: int,
    leaves: Seq<usize>,
    row: Seq<i128>,
) -> bool {
    &&& row.len() == leaves.len()
    &&& forall|j: int|
        0 <= j < leaves.len() ==> #[trigger] row[j] == t.cell(metric, leaf, leaves[j] as int)
}

/// The entries for `leaf` and each of `leaves`, computed side by side.
///
/// Not proved: this hands the columns to rayon, as
/// `leaves.par_iter().map(..).collect()`. The contract takes from rayon that
/// collecting an indexed parallel iterator into a vector yields one item for
/// each input item, in the order of the input, and that the item is what the
/// mapped function returns for that input; what that function returns is the
/// contract of `cell`.
#[verifier::external_body]
fn par_cells(data: &LcaData, metric: Metric, leaf: usize, leaves: &Vec<usize>) -> (row: Vec<i128>)
    requires
        data.wf(),
        data.tree().has(leaf as int),
        all_nodes(data.tree(), leaves@),
    ensures
        is_row(data.tree(), metric, leaf as int, leaves@, row@),
{
    leaves.par_iter().map(|other: &usize| data.cell(metric, leaf, *other)).collect()
}

impl LcaData {
    /// One row of the distance matrix: the entries for `leaf` and each of
    /// `leaves`, in the order of `leaves`.
    pub fn distance_row(&self, metric: Metric, leaf: usize, leaves: &Vec<usize>) -> (row: Vec<
        i128,
    >)
        requires
            self.wf(),
            self.tree().has(leaf as int),
            all_nodes(self.tree(), leaves@),
        ensures
            is_row(self.tree(), metric, leaf as int, leaves@, row@),
    {
        par_cells(self, metric, leaf, leaves)
    }

    /// The distance matrix of `leaves`: row `i` holds the entries for the
    /// `i`-th of them and each of them, in their order.
    pub fn distance_matrix(&self, metric: Metric, leaves: &Vec<usize>) -> (matrix: Vec<Vec<i128>>)
        requires
            self.wf(),
            all_nodes(self.tree(), leaves@),
        ensures
            matrix@.len() == leaves@.len(),
            forall|i: int|
                0 <= i < leaves@.len() ==> is_row(
                    self.tree(),
                    metric,
                    leaves@[i] as int,
                    leaves@,
                    #[trigger] matrix@[i]@,
                ),
    {
        let mut matrix: Vec<Vec<i128>> = Vec::new();
        let mut i: usize = 0;
        while i < leaves.len()
            invariant
                self.wf(),
                all_nodes(self.tree(), leaves@),
                i <= leaves@.len(),
                matrix@.len() == i,
                forall|k: int|
                    0 <= k < i ==> is_row(
                        self.tree(),
                        metric,
                        leaves@[k] as int,
                        leaves@,
                        #[trigger] matrix@[k]@,
                    ),
            decreases leaves@.len() - i,
        {
            let row = self.distance_row(metric, leaves[i], leaves);
            matrix.push(row);
            i = i + 1;
        }
        matrix
    }
}

} // verus!
