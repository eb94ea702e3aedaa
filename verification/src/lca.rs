//! The ancestor index: for every node its depth in branch length and in edges,
//! and a table of its ancestors at distances that are powers of two, from
//! which the lowest common ancestor of two nodes is found in logarithmic time.

use crate::ancestry::branch_bound;
use crate::ancestry::lemma_ancestor;
use crate::ancestry::lemma_at_level;
use crate::ancestry::lemma_at_level_twice;
use crate::ancestry::lemma_climb_bound;
use crate::ancestry::lemma_jump_step;
use crate::ancestry::lemma_lca;
use crate::ancestry::lemma_lca_of_ancestor;
use crate::ancestry::lemma_level_bound;
use crate::ancestry::lemma_meet_level;
use crate::ancestry::lemma_up;
use crate::tree::Tree;
use crate::tree::TreeView;
use vstd::arithmetic::power2::*;
use vstd::prelude::*;
use vstd::set_lib::*;

verus! {

/// The least `k` with `2^k >= n`.
pub open spec fn ceil_log2(n: nat) -> nat
    decreases n,
{
    if n <= 1 {
        0
    } else {
        1 + ceil_log2((n + 1) / 2)
    }
}

/// `ceil_log2(n)` is the least exponent whose power of two reaches `n`.
pub proof fn lemma_ceil_log2(n: nat)
    ensures
        pow2(ceil_log2(n)) >= n,
        n > 1 ==> pow2((ceil_log2(n) - 1) as nat) < n,
    decreases n,
{
    lemma2_to64();
    if n > 1 {
        let h = (n + 1) / 2;
        lemma_ceil_log2(h);
        lemma_pow2_unfold(ceil_log2(n));
        if h > 1 {
            lemma_pow2_unfold(ceil_log2(h));
        }
    }
}

/// Depths and ancestor jumps of every node of one tree.
pub struct LcaData {
    pub(crate) up: Vec<Vec<Option<usize>>>,
    pub(crate) depth_len: Vec<i128>,
    pub(crate) depth_top: Vec<usize>,
    pub(crate) tree: Ghost<TreeView>,
}

/// Entry `u` of a row of the jump table is the ancestor of `u` that is `2^k`
/// edges above it, or nothing where the root is nearer than that.
pub open spec fn jump_entry(t: TreeView, row: Seq<Option<usize>>, k: nat, u: int) -> bool {
    match row[u] {
        Some(a) => t.jump(u, k) == Some(a as int),
        None => t.jump(u, k) is None,
    }
}

impl LcaData {
    /// The tree that this index was built from.
    pub open(crate) spec fn tree(&self) -> TreeView {
        self.tree@
    }

    /// The index describes its tree: the depths are those of the tree, and
    /// the jump table has `ceil_log2(n) + 1` rows of `n` entries, each the
    /// ancestor that it stands for.
    pub open(crate) spec fn wf(&self) -> bool {
        let t = self.tree@;
        &&& t.wf()
        &&& self.depth_len@.len() == t.len()
        &&& self.depth_top@.len() == t.len()
        &&& forall|u: int| t.has(u) ==> #[trigger] self.depth_top@[u] == t.level[u]
        &&& forall|u: int| t.has(u) ==> #[trigger] self.depth_len@[u] == t.depth(u)
        &&& self.up@.len() == ceil_log2(t.nodes.len()) + 1
        &&& forall|k: int| 0 <= k < self.up@.len() ==> (#[trigger] self.up@[k])@.len() == t.len()
        &&& forall|k: int, u: int|
            0 <= k < self.up@.len() && t.has(u) ==> #[trigger] jump_entry(
                t,
                self.up@[k]@,
                k as nat,
                u,
            )
    }

    /// The sum of the branch lengths between the root and `u`.
    pub fn depth_len(&self, u: usize) -> (d: i128)
        requires
            self.wf(),
            u < self.tree().len(),
        ensures
            d == self.tree().depth(u as int),
    {
        self.depth_len[u]
    }

    /// The number of edges between the root and `u`.
    pub fn depth_top(&self, u: usize) -> (d: usize)
        requires
            self.wf(),
            u < self.tree().len(),
        ensures
            d == self.tree().level[u as int],
    {
        self.depth_top[u]
    }

    /// The number of nodes of the tree.
    pub fn node_count(&self) -> (n: usize)
        requires
            self.wf(),
        ensures
            n == self.tree().len(),
    {
        self.depth_top.len()
    }

    /// The lowest common ancestor of `u` and `v`.
    pub fn mrca(&self, u: usize, v: usize) -> (m: usize)
        requires
            self.wf(),
            u < self.tree().len(),
            v < self.tree().len(),
        ensures
            m == self.tree().lca(u as int, v as int),
    {
        let ghost t = self.tree@;
        if u == v {
            proof {
                lemma_at_level(t, u as int, t.level[u as int] as int);
                lemma_lca_of_ancestor(t, u as int, u as int);
            }
            return u;
        }
        let mut a = u;
        let mut b = v;
        if self.depth_top[a] < self.depth_top[b] {
            a = v;
            b = u;
        }
        let ghost a0 = a as int;
        let ghost b0 = b as int;
        let ghost height = ceil_log2(t.nodes.len());
        let lb = self.depth_top[b];
        let mut x = self.depth_top[a] - lb;
        let mut k: usize = 0;
        proof {
            lemma_lca(t, u as int, v as int);
            lemma_level_bound(t, a0);
            lemma_ceil_log2(t.nodes.len());
            lemma2_to64();
            lemma_at_level(t, a0, t.level[a0] as int);
            assert(x * pow2(0) == x) by (nonlinear_arith)
                requires
                    pow2(0) == 1,
            ;
        }
        while x > 0
            invariant
                self.wf(),
                t == self.tree@,
                t.has(a0),
                t.has(a as int),
                height == ceil_log2(t.nodes.len()),
                t.level[a0] < pow2(height),
                lb <= t.level[a as int] <= t.level[a0],
                t.level[a as int] == lb + x * pow2(k as nat),
                a as int == t.at_level(a0, t.level[a as int] as int),
                k <= height,
                self.up@.len() == height + 1,
            decreases x,
        {
            let ghost p = pow2(k as nat);
            let ghost q = x / 2;
            let ghost r = x % 2;
            proof {
                lemma_pow2_pos(k as nat);
                lemma_pow2_unfold((k + 1) as nat);
                assert(p <= x * p) by (nonlinear_arith)
                    requires
                        x >= 1,
                        p > 0,
                ;
                if k >= height {
                    if k > height {
                        lemma_pow2_strictly_increases(height, k as nat);
                    }
                    assert(false);
                }
                assert(x * p == q * (2 * p) + r * p) by (nonlinear_arith)
                    requires
                        x == 2 * q + r,
                ;
                assert(r * p == if r == 1 {
                    p as int
                } else {
                    0
                }) by (nonlinear_arith)
                    requires
                        r == 0 || r == 1,
                ;
                assert(jump_entry(t, self.up@[k as int]@, k as nat, a as int));
            }
            if x % 2 == 1 {
                let ghost before = a as int;
                proof {
                    lemma_ancestor(t, before, p);
                    lemma_at_level_twice(
                        t,
                        a0,
                        t.level[before] as int,
                        t.level[before] - p,
                    );
                }
                a = self.up[k][a].unwrap();
                assert(t.level[a as int] == t.level[before] - p);
            }
            proof {
                assert(self.up@.len() == self.up.len());
                assert(k < height);
                assert(pow2((k + 1) as nat) == 2 * p);
                assert(t.level[a as int] == lb + q * (2 * p));
            }
            x = x / 2;
            k = k + 1;
        }
        if a == b {
            proof {
                lemma_lca_of_ancestor(t, b0, a0);
            }
            return a;
        }
        let ghost m = t.meet_level(a0, b0) as int;
        let mut k: usize = self.up.len();
        proof {
            lemma_at_level(t, b0, t.level[b0] as int);
            lemma_meet_level(t, a0, b0, t.level[b0] as int);
            lemma_pow2_strictly_increases(height, k as nat);
        }
        while k > 0
            invariant
                self.wf(),
                t == self.tree@,
                t.has(a0),
                t.has(b0),
                t.has(a as int),
                t.has(b as int),
                m == t.meet_level(a0, b0),
                t.level[a as int] == t.level[b as int],
                t.level[a as int] <= t.level[b0] <= t.level[a0],
                a as int == t.at_level(a0, t.level[a as int] as int),
                b as int == t.at_level(b0, t.level[a as int] as int),
                m < t.level[a as int],
                t.level[a as int] - m - 1 < pow2(k as nat),
                k <= self.up@.len(),
            decreases k,
        {
            k = k - 1;
            let ghost p = pow2(k as nat);
            let ghost l = t.level[a as int] as int;
            proof {
                lemma_pow2_unfold((k + 1) as nat);
                assert(jump_entry(t, self.up@[k as int]@, k as nat, a as int));
                assert(jump_entry(t, self.up@[k as int]@, k as nat, b as int));
                if p <= l {
                    lemma_ancestor(t, a as int, p);
                    lemma_ancestor(t, b as int, p);
                    lemma_at_level_twice(t, a0, l, l - p);
                    lemma_at_level_twice(t, b0, l, l - p);
                    lemma_meet_level(t, a0, b0, l - p);
                }
            }
            let ja = self.up[k][a];
            let jb = self.up[k][b];
            match (ja, jb) {
                (Some(au), Some(bu)) => {
                    if au != bu {
                        a = au;
                        b = bu;
                    }
                },
                _ => {},
            }
        }
        proof {
            lemma2_to64();
            let l = t.level[a as int] as int;
            assert(l == m + 1);
            assert(jump_entry(t, self.up@[0]@, 0, a as int));
            lemma_at_level_twice(t, a0, l, m);
        }
        self.up[0][a].unwrap()
    }
}

/// What the traversal has written for each node so far.
pub struct Fill {
    pub depth_len: Seq<i128>,
    pub depth_top: Seq<usize>,
    pub parent: Seq<Option<usize>>,
}

/// The entries of `x` are those of the tree.
pub open spec fn filled_in(t: TreeView, f: Fill, x: int) -> bool {
    &&& f.depth_top[x] == t.level[x]
    &&& f.depth_len[x] == t.depth(x)
    &&& f.parent[x] == t.nodes[x].parent
}

/// `x` has been reached: it waits on the stack or has been taken from it.
spec fn seen(stack: Seq<usize>, done: Set<int>, x: int) -> bool {
    done.contains(x) || exists|i: int| 0 <= i < stack.len() && #[trigger] stack[i] == x
}

/// The state of the traversal between two steps: the root has been reached,
/// any other node has been reached exactly when its parent has been taken
/// from the stack, no node waits twice, and every node reached has its entries.
spec fn dfs_inv(t: TreeView, stack: Seq<usize>, done: Set<int>, f: Fill) -> bool {
    &&& f.depth_len.len() == t.len()
    &&& f.depth_top.len() == t.len()
    &&& f.parent.len() == t.len()
    &&& stack.no_duplicates()
    &&& forall|i: int|
        0 <= i < stack.len() ==> t.has(#[trigger] stack[i] as int) && !done.contains(
            stack[i] as int,
        )
    &&& forall|x: int| #[trigger] done.contains(x) ==> t.has(x)
    &&& seen(stack, done, t.root)
    &&& forall|x: int|
        t.has(x) && x != t.root ==> (#[trigger] seen(stack, done, x) <==> done.contains(t.up(x)))
    &&& forall|x: int| t.has(x) && #[trigger] seen(stack, done, x) ==> filled_in(t, f, x)
}

/// `x` is one of the first `i` entries of `kids`.
pub open spec fn among(kids: Seq<usize>, i: int, x: int) -> bool {
    exists|j: int| 0 <= j < i && j < kids.len() && #[trigger] kids[j] == x
}

/// A node is no child of itself.
proof fn lemma_child_differs(t: TreeView, u: int, i: int)
    requires
        t.wf(),
        t.has(u),
        0 <= i < t.nodes[u].children.len(),
    ensures
        t.has(t.nodes[u].children[i] as int),
        t.nodes[u].children[i] != u,
        t.nodes[u].children[i] != t.root,
        t.up(t.nodes[u].children[i] as int) == u,
        t.level[t.nodes[u].children[i] as int] == t.level[u] + 1,
        t.depth(t.nodes[u].children[i] as int) == t.depth(u) + t.nodes[t.nodes[u].children[i] as int].length,
{
    let c = t.nodes[u].children[i] as int;
    lemma_up(t, c);
}

/// Taking `u` from the stack and putting its children there, with their
/// entries written, leads from one state of the traversal to the next.
proof fn lemma_dfs_step(
    t: TreeView,
    stack0: Seq<usize>,
    done0: Set<int>,
    f0: Fill,
    stack1: Seq<usize>,
    f1: Fill,
)
    requires
        t.wf(),
        dfs_inv(t, stack0, done0, f0),
        stack0.len() > 0,
        stack1 == stack0.drop_last() + t.nodes[stack0.last() as int].children,
        f1.depth_len.len() == t.len(),
        f1.depth_top.len() == t.len(),
        f1.parent.len() == t.len(),
        forall|x: int|
            t.has(x) && filled_in(t, f0, x) && !among(
                t.nodes[stack0.last() as int].children,
                t.nodes[stack0.last() as int].children.len() as int,
                x,
            ) ==> #[trigger] filled_in(t, f1, x),
        forall|i: int|
            0 <= i < t.nodes[stack0.last() as int].children.len() ==> filled_in(
                t,
                f1,
                #[trigger] t.nodes[stack0.last() as int].children[i] as int,
            ),
    ensures
        dfs_inv(t, stack1, done0.insert(stack0.last() as int), f1),
{
    let u = stack0.last() as int;
    let last = stack0.len() - 1;
    let base = stack0.drop_last();
    let kids = t.nodes[u].children;
    let done1 = done0.insert(u);
    assert(stack0[last] as int == u);
    assert(t.has(u));
    assert(kids.no_duplicates());
    // No child of `u` has been reached before.
    assert forall|i: int| 0 <= i < kids.len() implies !seen(stack0, done0, #[trigger] kids[i] as int) by {
        lemma_child_differs(t, u, i);
    }
    assert forall|i: int| 0 <= i < base.len() implies stack0[i] == #[trigger] base[i] by {}
    assert forall|i: int, j: int| 0 <= i < stack1.len() && 0 <= j < stack1.len() && i != j implies stack1[i] != stack1[j] by {
        if i < base.len() && j < base.len() {
            assert(stack0[i] != stack0[j]);
        } else if i >= base.len() && j >= base.len() {
            assert(kids[i - base.len()] != kids[j - base.len()]);
        } else if i < base.len() {
            assert(stack0[i] == base[i]);
            assert(!seen(stack0, done0, kids[j - base.len()] as int));
        } else {
            assert(stack0[j] == base[j]);
            assert(!seen(stack0, done0, kids[i - base.len()] as int));
        }
    }
    assert forall|i: int| 0 <= i < stack1.len() implies t.has(#[trigger] stack1[i] as int) && !done1.contains(stack1[i] as int) by {
        if i < base.len() {
            assert(stack0[i] == base[i]);
            assert(stack0[i] != stack0[last]);
        } else {
            lemma_child_differs(t, u, i - base.len());
            assert(!seen(stack0, done0, kids[i - base.len()] as int));
        }
    }
    // Whatever was reached before is still reached.
    assert forall|x: int| seen(stack0, done0, x) implies seen(stack1, done1, x) by {
        if !done0.contains(x) {
            let i = choose|i: int| 0 <= i < stack0.len() && #[trigger] stack0[i] == x;
            if i < last {
                assert(stack1[i] == x);
            }
        }
    }
    // What is reached now was reached before or is a child of `u`.
    assert forall|x: int| seen(stack1, done1, x) implies seen(stack0, done0, x) || (exists|i: int| 0 <= i < kids.len() && #[trigger] kids[i] == x) by {
        if done1.contains(x) {
            if x == u {
                assert(stack0[last] == x);
            }
        } else {
            let i = choose|i: int| 0 <= i < stack1.len() && #[trigger] stack1[i] == x;
            if i < base.len() {
                assert(stack0[i] == x);
            } else {
                assert(kids[i - base.len()] == x);
            }
        }
    }
    assert forall|x: int| t.has(x) && x != t.root implies (#[trigger] seen(stack1, done1, x) <==> done1.contains(t.up(x))) by {
        if seen(stack1, done1, x) {
            if !seen(stack0, done0, x) {
                let i = choose|i: int| 0 <= i < kids.len() && #[trigger] kids[i] == x;
                lemma_child_differs(t, u, i);
            }
        }
        if done1.contains(t.up(x)) {
            if t.up(x) == u {
                lemma_up(t, x);
                assert(t.nodes[x].parent is Some);
                assert(kids.contains(x as usize));
                let i = choose|i: int| 0 <= i < kids.len() && kids[i] == x as usize;
                assert(stack1[base.len() + i] == x);
            } else {
                assert(seen(stack0, done0, x));
            }
        }
    }
    assert forall|x: int| t.has(x) && #[trigger] seen(stack1, done1, x) implies filled_in(t, f1, x) by {
        if among(kids, kids.len() as int, x) {
            let i = choose|i: int| 0 <= i < kids.len() && #[trigger] kids[i] == x;
            assert(filled_in(t, f1, kids[i] as int));
        } else {
            assert(seen(stack0, done0, x));
            assert(filled_in(t, f0, x));
        }
    }
    assert(seen(stack0, done0, t.root));
}

/// Once nothing waits on the stack, every node has been taken from it.
proof fn lemma_dfs_complete(t: TreeView, done: Set<int>, f: Fill, x: int)
    requires
        t.wf(),
        dfs_inv(t, Seq::<usize>::empty(), done, f),
        t.has(x),
    ensures
        done.contains(x),
        filled_in(t, f, x),
    decreases t.level[x],
{
    let stack = Seq::<usize>::empty();
    if x == t.root {
        assert(seen(stack, done, t.root));
    } else {
        lemma_up(t, x);
        lemma_dfs_complete(t, done, f, t.up(x));
        assert(seen(stack, done, x));
    }
    assert(seen(stack, done, x));
}

impl TreeView {
    /// The nodes at and below `u` in the order in which a traversal with a
    /// stack takes them up when it puts the children of a node on the stack
    /// in their order: `u` first, then what lies at and below its last child,
    /// and so on down to its first child. No more than `fuel` levels are
    /// entered.
    pub open spec fn visit(self, u: int, fuel: nat) -> Seq<int>
        decreases fuel, 0nat,
    {
        if fuel == 0 {
            seq![u]
        } else {
            seq![u] + self.visit_below(u, self.nodes[u].children.len(), (fuel - 1) as nat)
        }
    }

    /// What lies at and below the first `k` children of `u`, the last of
    /// them first.
    pub open spec fn visit_below(self, u: int, k: nat, fuel: nat) -> Seq<int>
        decreases fuel, k + 1,
    {
        if k == 0 || k > self.nodes[u].children.len() {
            Seq::empty()
        } else {
            self.visit(self.nodes[u].children[k - 1] as int, fuel) + self.visit_below(
                u,
                (k - 1) as nat,
                fuel,
            )
        }
    }

    /// All nodes in the order in which the traversal from the root takes
    /// them up.
    pub open spec fn visit_order(self) -> Seq<int> {
        self.visit(self.root, self.nodes.len())
    }

    /// What the traversal will still take up for the nodes that wait on the
    /// stack, the last of them first.
    pub open spec fn pending(self, stack: Seq<usize>) -> Seq<int>
        decreases stack.len(),
    {
        if stack.len() == 0 {
            Seq::empty()
        } else {
            self.visit(stack.last() as int, (self.nodes.len() - self.level[stack.last() as int]) as nat)
                + self.pending(stack.drop_last())
        }
    }
}

/// The indices as mathematical integers.
pub open spec fn as_ints(order: Seq<usize>) -> Seq<int> {
    Seq::new(order.len(), |i: int| order[i] as int)
}

/// With the first `k` children of `u` put on the stack, the traversal will
/// take up what lies at and below them, the last first, before what waited
/// there already.
proof fn lemma_pending_children(t: TreeView, base: Seq<usize>, u: int, k: nat)
    requires
        t.wf(),
        t.has(u),
        k <= t.nodes[u].children.len(),
    ensures
        t.pending(base + t.nodes[u].children.subrange(0, k as int)) == t.visit_below(
            u,
            k,
            (t.nodes.len() - t.level[u] - 1) as nat,
        ) + t.pending(base),
    decreases k,
{
    let kids = t.nodes[u].children;
    let fuel = (t.nodes.len() - t.level[u] - 1) as nat;
    if k == 0 {
        assert(base + kids.subrange(0, 0) =~= base);
        assert(t.visit_below(u, 0, fuel) + t.pending(base) =~= t.pending(base));
    } else {
        let now = base + kids.subrange(0, k as int);
        let before = base + kids.subrange(0, k - 1);
        lemma_pending_children(t, base, u, (k - 1) as nat);
        lemma_child_differs(t, u, k - 1);
        assert(now.last() == kids[k - 1]);
        assert(now.drop_last() =~= before);
        assert(t.pending(now) == t.visit(kids[k - 1] as int, fuel) + t.pending(before));
        assert(t.visit(kids[k - 1] as int, fuel) + (t.visit_below(u, (k - 1) as nat, fuel)
            + t.pending(base)) =~= (t.visit(kids[k - 1] as int, fuel) + t.visit_below(
            u,
            (k - 1) as nat,
            fuel,
        )) + t.pending(base));
    }
}

/// What one traversal from the root finds: for every node its depth in
/// branch length and in edges and its parent, and the nodes in the order in
/// which the traversal took them up.
pub struct Traversal {
    pub depth_len: Vec<i128>,
    pub depth_top: Vec<usize>,
    pub parent: Vec<Option<usize>>,
    pub order: Vec<usize>,
}

impl Traversal {
    /// The entries as plain sequences.
    pub open spec fn fill(&self) -> Fill {
        Fill { depth_len: self.depth_len@, depth_top: self.depth_top@, parent: self.parent@ }
    }

    /// The traversal is that of `t`: every node has its entries, and every
    /// node occurs in the order.
    pub open spec fn describes(&self, t: TreeView) -> bool {
        &&& self.depth_len@.len() == t.len()
        &&& self.depth_top@.len() == t.len()
        &&& self.parent@.len() == t.len()
        &&& forall|x: int| t.has(x) ==> #[trigger] filled_in(t, self.fill(), x)
        &&& forall|x: int| t.has(x) ==> #[trigger] among(self.order@, self.order@.len() as int, x)
        &&& forall|i: int| 0 <= i < self.order@.len() ==> t.has(#[trigger] self.order@[i] as int)
        &&& as_ints(self.order@) == t.visit_order()
    }
}

/// Walks the tree from the root with a stack, children pushed in their order,
/// and writes down for each node its two depths, its parent, and when it was
/// taken from the stack.
pub fn traverse(tree: &Tree) -> (out: Traversal)
    requires
        tree.wf(),
    ensures
        out.describes(tree@),
{
    let ghost t = tree@;
    let n = tree.nodes.len();
    let mut depth_len: Vec<i128> = filled(0i128, n);
    let mut depth_top: Vec<usize> = filled(0usize, n);
    let mut level0: Vec<Option<usize>> = filled(None, n);
    let mut stack: Vec<usize> = Vec::new();
    stack.push(tree.root);
    let ghost mut done: Set<int> = Set::empty();
    let mut order: Vec<usize> = Vec::new();
    proof {
        let f = Fill { depth_len: depth_len@, depth_top: depth_top@, parent: level0@ };
        assert(stack@.drop_last() =~= Seq::<usize>::empty());
        assert(stack@.last() == tree.root);
        assert(t.pending(Seq::<usize>::empty()) =~= Seq::<int>::empty());
        assert(t.pending(stack@) == t.visit(t.root, (t.nodes.len() - t.level[t.root]) as nat)
            + t.pending(stack@.drop_last()));
        assert(t.pending(stack@) =~= t.visit_order());
        assert(as_ints(order@) + t.pending(stack@) =~= t.visit_order());
        assert(stack@[0] == tree.root);
        assert(seen(stack@, done, t.root));
        assert(t.nodes[t.root] == tree.nodes@[t.root]@);
        assert(filled_in(t, f, t.root));
        assert(dfs_inv(t, stack@, done, f));
    }
    while stack.len() > 0
        invariant
            tree.wf(),
            t == tree@,
            n == t.len(),
            dfs_inv(
                t,
                stack@,
                done,
                Fill { depth_len: depth_len@, depth_top: depth_top@, parent: level0@ },
            ),
            done.finite(),
            forall|i: int| 0 <= i < order@.len() ==> done.contains(#[trigger] order@[i] as int),
            forall|x: int| done.contains(x) ==> among(order@, order@.len() as int, x),
            as_ints(order@) + t.pending(stack@) == t.visit_order(),
        decreases n - done.len(),
    {
        let ghost stack0 = stack@;
        let ghost f0 = Fill { depth_len: depth_len@, depth_top: depth_top@, parent: level0@ };
        let u = stack.pop().unwrap();
        let ghost base = stack@;
        let ghost order0 = order@;
        order.push(u);
        proof {
            lemma_level_bound(t, u as int);
            assert(stack0.last() == u);
            assert(stack0.drop_last() == base);
            assert(as_ints(order@) =~= as_ints(order0) + seq![u as int]);
            assert(t.pending(stack0) == t.visit(
                u as int,
                (t.nodes.len() - t.level[u as int]) as nat,
            ) + t.pending(base));
            assert(order@[order0.len() as int] == u);
            assert forall|x: int| done.insert(u as int).contains(x) implies among(
                order@,
                order@.len() as int,
                x,
            ) by {
                if x != u {
                    let j = choose|j: int|
                        0 <= j < order0.len() && j < order0.len() && #[trigger] order0[j] == x;
                    assert(order@[j] == x);
                }
            }
            assert forall|i: int| 0 <= i < order@.len() implies done.insert(u as int).contains(
                #[trigger] order@[i] as int,
            ) by {
                if i < order0.len() {
                    assert(order0[i] == order@[i]);
                }
            }
        }
        proof {
            assert(stack0[stack0.len() - 1] == u);
            assert(seen(stack0, done, u as int));
            assert(base == stack0.drop_last());
            assert(t.nodes[u as int] == tree.nodes@[u as int]@);
        }
        let du = depth_len[u];
        let tu = depth_top[u];
        let count = tree.nodes[u].children.len();
        let ghost kids = t.nodes[u as int].children;
        let mut i: usize = 0;
        while i < count
            invariant
                tree.wf(),
                t == tree@,
                n == t.len(),
                u < n,
                kids == t.nodes[u as int].children,
                kids == tree.nodes@[u as int].children@,
                count == kids.len(),
                i <= count,
                du == t.depth(u as int),
                tu == t.level[u as int],
                depth_len@.len() == n,
                depth_top@.len() == n,
                level0@.len() == n,
                stack@ == base + kids.subrange(0, i as int),
                forall|x: int|
                    t.has(x) && filled_in(t, f0, x) && !among(kids, i as int, x)
                        ==> #[trigger] filled_in(
                        t,
                        Fill { depth_len: depth_len@, depth_top: depth_top@, parent: level0@ },
                        x,
                    ),
                forall|j: int|
                    0 <= j < i ==> filled_in(
                        t,
                        Fill { depth_len: depth_len@, depth_top: depth_top@, parent: level0@ },
                        #[trigger] kids[j] as int,
                    ),
            decreases count - i,
        {
            let ghost f = Fill { depth_len: depth_len@, depth_top: depth_top@, parent: level0@ };
            let v = tree.nodes[u].children[i];
            proof {
                lemma_child_differs(t, u as int, i as int);
                lemma_level_bound(t, v as int);
                lemma_climb_bound(t, v as int, t.level[v as int]);
                assert(t.nodes[v as int] == tree.nodes@[v as int]@);
                assert(t.level[v as int] * branch_bound() <= 0xffff_ffff_ffff_fffe
                    * branch_bound()) by (nonlinear_arith)
                    requires
                        t.level[v as int] <= 0xffff_ffff_ffff_fffe,
                ;
            }
            let len = tree.nodes[v].length;
            level0[v] = Some(u);
            depth_len[v] = du + len as i128;
            depth_top[v] = tu + 1;
            stack.push(v);
            proof {
                let g = Fill { depth_len: depth_len@, depth_top: depth_top@, parent: level0@ };
                assert(filled_in(t, g, v as int));
                assert forall|x: int|
                    t.has(x) && filled_in(t, f0, x) && !among(
                        kids,
                        i + 1,
                        x,
                    ) implies #[trigger] filled_in(t, g, x) by {
                    assert(kids[i as int] == v);
                    assert(x != v);
                    if among(kids, i as int, x) {
                        let j = choose|j: int| 0 <= j < i && j < kids.len() && #[trigger] kids[j] == x;
                        assert(false);
                    }
                    assert(filled_in(t, f, x));
                }
                assert forall|j: int| 0 <= j < i + 1 implies filled_in(
                    t,
                    g,
                    #[trigger] kids[j] as int,
                ) by {
                    if j < i {
                        assert(kids[j] != kids[i as int]);
                        assert(filled_in(t, f, kids[j] as int));
                    }
                }
                assert(stack@ == base + kids.subrange(0, i + 1));
            }
            i = i + 1;
        }
        proof {
            let f1 = Fill { depth_len: depth_len@, depth_top: depth_top@, parent: level0@ };
            assert(kids.subrange(0, i as int) == kids);
            lemma_dfs_step(t, stack0, done, f0, stack@, f1);
            lemma_pending_children(t, base, u as int, kids.len());
            let below = t.visit_below(
                u as int,
                kids.len(),
                (t.nodes.len() - t.level[u as int] - 1) as nat,
            );
            assert(as_ints(order@) + (below + t.pending(base)) =~= as_ints(order0) + ((seq![
                u as int,
            ] + below) + t.pending(base)));
            let all = set_int_range(0, n as int);
            lemma_int_range(0, n as int);
            assert(done.insert(u as int).subset_of(all));
            lemma_len_subset(done.insert(u as int), all);
            done = done.insert(u as int);
        }
    }
    let ghost f = Fill { depth_len: depth_len@, depth_top: depth_top@, parent: level0@ };
    proof {
        assert(stack@ == Seq::<usize>::empty());
        assert(as_ints(order@) + t.pending(stack@) =~= as_ints(order@));
        assert forall|x: int| t.has(x) implies filled_in(t, f, x) && among(
            order@,
            order@.len() as int,
            x,
        ) by {
            lemma_dfs_complete(t, done, f, x);
        }
    }
    Traversal { depth_len, depth_top, parent: level0, order }
}

/// Builds the ancestor index of a tree: one traversal from the root writes
/// each node's two depths and its parent, and each further row of the jump
/// table is then made from the row before it.
pub fn build_lca_structure(tree: &Tree) -> (data: LcaData)
    requires
        tree.wf(),
    ensures
        data.wf(),
        data.tree() == tree@,
{
    let ghost t = tree@;
    let n = tree.nodes.len();
    let walk = traverse(tree);
    let ghost f = walk.fill();
    let depth_len = walk.depth_len;
    let depth_top = walk.depth_top;
    let level0 = walk.parent;
    proof {
        assert(depth_len@ == f.depth_len && depth_top@ == f.depth_top && level0@ == f.parent);
        lemma2_to64();
        assert forall|x: int| t.has(x) implies #[trigger] jump_entry(t, level0@, 0, x) by {
            assert(filled_in(t, f, x));
            lemma_up(t, x);
            assert(t.ancestor(x, 1) == t.ancestor(t.up(x), 0));
        }
        assert forall|x: int| t.has(x) implies #[trigger] depth_top@[x] == t.level[x] by {
            assert(filled_in(t, f, x));
        }
        assert forall|x: int| t.has(x) implies #[trigger] depth_len@[x] == t.depth(x) by {
            assert(filled_in(t, f, x));
        }
    }
    let h = table_height(n);
    let mut up: Vec<Vec<Option<usize>>> = Vec::new();
    up.push(level0);
    let mut k: usize = 1;
    while k < h
        invariant
            tree.wf(),
            t == tree@,
            n == t.len(),
            1 <= k <= h,
            up@.len() == k,
            forall|j: int| 0 <= j < k ==> (#[trigger] up@[j])@.len() == n,
            forall|j: int, x: int|
                0 <= j < k && t.has(x) ==> #[trigger] jump_entry(t, up@[j]@, j as nat, x),
        decreases h - k,
    {
        let mut row: Vec<Option<usize>> = Vec::new();
        let mut u: usize = 0;
        while u < n
            invariant
                tree.wf(),
                t == tree@,
                n == t.len(),
                1 <= k < h,
                up@.len() == k,
                u <= n,
                row@.len() == u,
                forall|j: int| 0 <= j < k ==> (#[trigger] up@[j])@.len() == n,
                forall|j: int, x: int|
                    0 <= j < k && t.has(x) ==> #[trigger] jump_entry(t, up@[j]@, j as nat, x),
                forall|x: int| 0 <= x < u ==> #[trigger] jump_entry(t, row@, k as nat, x),
            decreases n - u,
        {
            proof {
                lemma_jump_step(t, u as int, (k - 1) as nat);
                assert(jump_entry(t, up@[k - 1]@, (k - 1) as nat, u as int));
            }
            let e = match up[k - 1][u] {
                Some(mid) => {
                    proof {
                        assert(jump_entry(t, up@[k - 1]@, (k - 1) as nat, mid as int));
                    }
                    up[k - 1][mid]
                },
                None => None,
            };
            let ghost before = row@;
            row.push(e);
            proof {
                assert forall|x: int| 0 <= x < u + 1 implies #[trigger] jump_entry(
                    t,
                    row@,
                    k as nat,
                    x,
                ) by {
                    if x < u {
                        assert(jump_entry(t, before, k as nat, x));
                    }
                }
            }
            u = u + 1;
        }
        let ghost before = up@;
        up.push(row);
        proof {
            assert forall|j: int, x: int| 0 <= j < k + 1 && t.has(x) implies #[trigger] jump_entry(
                t,
                up@[j]@,
                j as nat,
                x,
            ) by {
                if j < k {
                    assert(jump_entry(t, before[j]@, j as nat, x));
                }
            }
        }
        k = k + 1;
    }
    LcaData { up, depth_len, depth_top, tree: Ghost(t) }
}

/// A vector of `n` copies of `x`.
fn filled<T: Copy>(x: T, n: usize) -> (v: Vec<T>)
    ensures
        v@.len() == n,
        forall|i: int| 0 <= i < n ==> v@[i] == x,
{
    let mut v: Vec<T> = Vec::new();
    let mut i: usize = 0;
    while i < n
        invariant
            i <= n,
            v@.len() == i,
            forall|j: int| 0 <= j < i ==> v@[j] == x,
        decreases n - i,
    {
        v.push(x);
        i = i + 1;
    }
    v
}

/// The number of rows of the jump table of a tree of `n` nodes.
fn table_height(n: usize) -> (h: usize)
    ensures
        h == ceil_log2(n as nat) + 1,
{
    let mut m = n;
    let mut k: usize = 0;
    while m > 1
        invariant
            ceil_log2(n as nat) == k + ceil_log2(m as nat),
            k + m <= n || n == 0,
            m >= 1 || n == 0,
        decreases m,
    {
        m = m / 2 + m % 2;
        k = k + 1;
    }
    k + 1
}

} // verus!
