//! The tree model: a nested input form, the flat node table built from it, and
//! the mathematical view that every contract of this crate is stated over.

use vstd::prelude::*;

verus! {

/// A vertex as the caller supplies it: an optional label, the length of the
/// branch to its parent, and its subtrees in order. Branch lengths are whole
/// numbers of a unit that the caller chooses; all arithmetic on them is exact.
pub struct RawNode {
    pub name: Option<String>,
    pub length: i64,
    pub children: Vec<RawNode>,
}

impl RawNode {
    /// The number of vertices of this subtree.
    pub open spec fn size(self) -> nat
        decreases self, 0nat,
    {
        1 + Self::forest_size(self.children@, self.children@.len())
    }

    /// The number of vertices of the first `k` subtrees of `forest`.
    pub open spec fn forest_size(forest: Seq<RawNode>, k: nat) -> nat
        decreases forest, k,
    {
        if k == 0 || k > forest.len() {
            0
        } else {
            Self::forest_size(forest, (k - 1) as nat) + forest[k - 1].size()
        }
    }

    /// The label as a sequence of characters.
    pub open spec fn label(self) -> Option<Seq<char>> {
        match self.name {
            Some(s) => Some(s@),
            None => None,
        }
    }
}

/// One entry of the flat node table.
pub struct Node {
    pub name: Option<String>,
    pub length: i64,
    pub parent: Option<usize>,
    pub children: Vec<usize>,
}

/// What a `Node` holds, as mathematical values.
pub struct NodeView {
    pub name: Option<Seq<char>>,
    pub length: i64,
    pub parent: Option<usize>,
    pub children: Seq<usize>,
}

impl View for Node {
    type V = NodeView;

    open spec fn view(&self) -> NodeView {
        NodeView {
            name: match self.name {
                Some(s) => Some(s@),
                None => None,
            },
            length: self.length,
            parent: self.parent,
            children: self.children@,
        }
    }
}

/// The views of a run of table entries.
pub open spec fn node_views(table: Seq<Node>) -> Seq<NodeView> {
    Seq::new(table.len(), |i: int| table[i]@)
}

/// A rooted tree as mathematical values: the node table, the root's index, and
/// for each node the number of edges between it and the root.
pub struct TreeView {
    pub nodes: Seq<NodeView>,
    pub root: int,
    pub level: Seq<nat>,
}

impl TreeView {
    /// The number of nodes.
    pub open spec fn len(self) -> int {
        self.nodes.len() as int
    }

    /// `u` is the index of a node.
    pub open spec fn has(self, u: int) -> bool {
        0 <= u < self.nodes.len()
    }

    /// The parent of `u`; the root stands for its own parent.
    pub open spec fn up(self, u: int) -> int {
        match self.nodes[u].parent {
            Some(p) => p as int,
            None => u,
        }
    }

    /// Every link of the table is in range and the two directions agree.
    pub open spec fn links_agree(self) -> bool {
        &&& forall|u: int| #![trigger self.nodes[u].parent]
            self.has(u) && u != self.root ==> self.nodes[u].parent is Some && self.has(self.up(u))
                && self.nodes[self.up(u)].children.contains(u as usize)
        &&& forall|u: int, i: int| #![trigger self.nodes[u].children[i]]
            self.has(u) && 0 <= i < self.nodes[u].children.len() ==> {
                let c = self.nodes[u].children[i] as int;
                self.has(c) && c != self.root && self.up(c) == u
            }
        &&& forall|u: int| #![trigger self.nodes[u].children]
            self.has(u) ==> self.nodes[u].children.no_duplicates()
    }

    /// The table is one rooted tree: a single parentless root, links that agree
    /// in both directions, and levels that grow by one from parent to child
    /// (so no chain of parents can run in a circle).
    pub open spec fn wf(self) -> bool {
        &&& self.has(self.root)
        &&& self.nodes.len() <= usize::MAX
        &&& self.level.len() == self.nodes.len()
        &&& self.nodes[self.root].parent is None
        &&& self.level[self.root] == 0
        &&& self.links_agree()
        &&& forall|u: int| #![trigger self.level[u]]
            self.has(u) && u != self.root ==> self.level[u] == self.level[self.up(u)] + 1
    }

    /// The node reached from `u` by `k` steps towards the root (the root itself
    /// once the steps run out).
    pub open spec fn ancestor(self, u: int, k: nat) -> int
        decreases k,
    {
        if k == 0 {
            u
        } else {
            self.ancestor(self.up(u), (k - 1) as nat)
        }
    }

    /// The sum of the branch lengths of the first `k` edges on the way from `u`
    /// to the root.
    pub open spec fn climb(self, u: int, k: nat) -> int
        decreases k,
    {
        if k == 0 {
            0
        } else {
            self.nodes[u].length + self.climb(self.up(u), (k - 1) as nat)
        }
    }

    /// The sum of the branch lengths between the root and `u`.
    pub open spec fn depth(self, u: int) -> int {
        self.climb(u, self.level[u])
    }

    /// `a` lies on the way from `u` to the root (`u` itself included).
    pub open spec fn is_ancestor(self, a: int, u: int) -> bool {
        &&& self.has(a)
        &&& self.has(u)
        &&& self.level[a] <= self.level[u]
        &&& self.ancestor(u, (self.level[u] - self.level[a]) as nat) == a
    }

    /// `u` is a node without children.
    pub open spec fn is_leaf(self, u: int) -> bool {
        self.has(u) && self.nodes[u].children.len() == 0
    }
}

/// The index at which the `j`-th subtree of `raw` starts when `raw` itself
/// starts at `at`: right after the subtrees before it.
pub open spec fn child_start(raw: RawNode, at: int, j: int) -> int {
    at + 1 + RawNode::forest_size(raw.children@, j as nat)
}

/// The `j`-th child of the entry at `at` is the entry at `child_start`, and
/// that entry names `at` as its parent.
pub open spec fn child_placed(table: Seq<NodeView>, raw: RawNode, at: int, j: int) -> bool {
    &&& table[at].children[j] == child_start(raw, at, j)
    &&& table[child_start(raw, at, j)].parent == Some(at as usize)
}

/// The table holds `raw` in pre-order from index `at` on: the entry at `at`
/// carries the label and branch length of `raw`, its children are placed one
/// subtree after the other, and each of them holds its subtree in the same way.
pub open spec fn subtree_at(table: Seq<NodeView>, raw: RawNode, at: int) -> bool
    decreases raw,
{
    &&& 0 <= at
    &&& at + raw.size() <= table.len()
    &&& table[at].name == raw.label()
    &&& table[at].length == raw.length
    &&& table[at].children.len() == raw.children@.len()
    &&& forall|j: int|
        0 <= j < raw.children@.len() ==> #[trigger] child_placed(table, raw, at, j) && subtree_at(
            table,
            raw.children@[j],
            child_start(raw, at, j),
        )
}

/// What holds of every table that was filled in pre-order: a parent stands
/// before its children, the two directions of each link agree, and each list
/// of children is strictly increasing.
#[verifier::opaque]
spec fn preorder(table: Seq<NodeView>) -> bool {
    &&& forall|u: int|
        #![trigger table[u].parent]
        0 <= u < table.len() ==> match table[u].parent {
            Some(p) => p < u && table[p as int].children.contains(u as usize),
            None => u == 0,
        }
    &&& forall|u: int, i: int|
        #![trigger table[u].children[i]]
        0 <= u < table.len() && 0 <= i < table[u].children.len() ==> u < table[u].children[i]
            < table.len() && table[table[u].children[i] as int].parent == Some(u as usize)
    &&& forall|u: int, i: int, j: int|
        #![trigger table[u].children[i], table[u].children[j]]
        0 <= u < table.len() && 0 <= i < j < table[u].children.len() ==> table[u].children[i]
            < table[u].children[j]
}

/// `after` is `before` with entries added at its end, the first of them hung
/// under `parent`; nothing else of `before` has changed.
spec fn attached(before: Seq<NodeView>, after: Seq<NodeView>, parent: Option<usize>) -> bool {
    let idx = before.len() as int;
    &&& idx < after.len()
    &&& idx <= usize::MAX
    &&& after[idx].parent == parent
    &&& forall|i: int|
        0 <= i < idx ==> after[i] == if Some(i as usize) == parent {
            NodeView { children: before[i].children.push(idx as usize), ..before[i] }
        } else {
            before[i]
        }
}

proof fn lemma_preorder_attach(before: Seq<NodeView>, after: Seq<NodeView>, parent: Option<usize>)
    requires
        preorder(before),
        attached(before, after, parent),
        after.len() == before.len() + 1,
        after[before.len() as int].children.len() == 0,
        match parent {
            Some(p) => p < before.len(),
            None => before.len() == 0,
        },
    ensures
        preorder(after),
{
    reveal(preorder);
    let idx = before.len() as int;
    assert forall|u: int| #![trigger after[u].parent] 0 <= u < after.len() implies match after[u].parent {
        Some(p) => p < u && after[p as int].children.contains(u as usize),
        None => u == 0,
    } by {
        if u < idx {
            match before[u].parent {
                Some(q) => {
                    let k = choose|k: int|
                        0 <= k < before[q as int].children.len() && before[q as int].children[k]
                            == u as usize;
                    assert(after[q as int].children[k] == u as usize);
                },
                None => {},
            }
        } else {
            match parent {
                Some(p) => {
                    assert(after[p as int].children[before[p as int].children.len() as int]
                        == idx as usize);
                },
                None => {},
            }
        }
    }
    assert forall|u: int, i: int| #![trigger after[u].children[i]] 0 <= u < after.len() && 0 <= i
        < after[u].children.len() implies u < after[u].children[i] < after.len()
        && after[after[u].children[i] as int].parent == Some(u as usize) by {
        if u < idx && i < before[u].children.len() {
            assert(before[u].children[i] == after[u].children[i]);
        }
    }
    assert forall|u: int, i: int, j: int| #![trigger after[u].children[i], after[u].children[j]]
        0 <= u < after.len() && 0 <= i < j < after[u].children.len() implies after[u].children[i]
        < after[u].children[j] by {
        if u < idx {
            assert(before[u].children[i] == after[u].children[i]);
            if j < before[u].children.len() {
                assert(before[u].children[j] == after[u].children[j]);
            }
        }
    }
}

/// The level of entry `u` in a table filled in pre-order.
spec fn preorder_level(table: Seq<NodeView>, u: int) -> nat
    decreases u,
{
    match table[u].parent {
        Some(p) => if 0 <= p < u {
            preorder_level(table, p as int) + 1
        } else {
            0
        },
        None => 0,
    }
}

proof fn lemma_forest_size_grows(forest: Seq<RawNode>, j: nat, k: nat)
    requires
        j <= k <= forest.len(),
    ensures
        RawNode::forest_size(forest, j) <= RawNode::forest_size(forest, k),
    decreases k,
{
    if j < k {
        lemma_forest_size_grows(forest, j, (k - 1) as nat);
    }
}

/// The subtree of child `j` ends where that of child `j + 1` begins, and all
/// of them end within the subtree of their parent.
proof fn lemma_child_range(raw: RawNode, j: int)
    requires
        0 <= j < raw.children@.len(),
    ensures
        RawNode::forest_size(raw.children@, (j + 1) as nat) == RawNode::forest_size(
            raw.children@,
            j as nat,
        ) + raw.children@[j].size(),
        1 + RawNode::forest_size(raw.children@, (j + 1) as nat) <= raw.size(),
{
    lemma_forest_size_grows(raw.children@, (j + 1) as nat, raw.children@.len());
}

/// A subtree laid out in a table is still laid out there after any change
/// that leaves its own entries alone.
proof fn lemma_subtree_frame(a: Seq<NodeView>, b: Seq<NodeView>, raw: RawNode, at: int)
    requires
        subtree_at(a, raw, at),
        a.len() <= b.len(),
        forall|i: int| at <= i < at + raw.size() ==> b[i] == a[i],
    ensures
        subtree_at(b, raw, at),
    decreases raw,
{
    assert forall|j: int| 0 <= j < raw.children@.len() implies #[trigger] child_placed(
        b,
        raw,
        at,
        j,
    ) && subtree_at(b, raw.children@[j], child_start(raw, at, j)) by {
        assert(child_placed(a, raw, at, j));
        lemma_child_range(raw, j);
        lemma_subtree_frame(a, b, raw.children@[j], child_start(raw, at, j));
    }
}

/// Appends `raw` and all below it to the table in pre-order, hangs the new
/// entry under `parent`, and returns its index.
fn flatten_into(raw: &RawNode, parent: Option<usize>, nodes: &mut Vec<Node>) -> (idx: usize)
    requires
        preorder(node_views(old(nodes)@)),
        match parent {
            Some(p) => p < old(nodes).len(),
            None => old(nodes).len() == 0,
        },
    ensures
        idx == old(nodes).len(),
        final(nodes).len() == idx + raw.size(),
        preorder(node_views(final(nodes)@)),
        attached(node_views(old(nodes)@), node_views(final(nodes)@), parent),
        subtree_at(node_views(final(nodes)@), *raw, idx as int),
    decreases raw,
{
    let ghost start = node_views(nodes@);
    let idx = nodes.len();
    let name = match &raw.name {
        Some(s) => Some(s.clone()),
        None => None,
    };
    nodes.push(Node { name, length: raw.length, parent, children: Vec::new() });
    if let Some(p) = parent {
        nodes[p].children.push(idx);
    }
    proof {
        assert(attached(start, node_views(nodes@), parent));
        lemma_preorder_attach(start, node_views(nodes@), parent);
    }
    let mut i: usize = 0;
    while i < raw.children.len()
        invariant
            i <= raw.children@.len(),
            idx == start.len(),
            nodes.len() == idx + 1 + RawNode::forest_size(raw.children@, i as nat),
            preorder(node_views(nodes@)),
            attached(start, node_views(nodes@), parent),
            node_views(nodes@)[idx as int].name == raw.label(),
            node_views(nodes@)[idx as int].length == raw.length,
            node_views(nodes@)[idx as int].children.len() == i,
            forall|j: int|
                0 <= j < i ==> #[trigger] child_placed(node_views(nodes@), *raw, idx as int, j)
                    && subtree_at(
                    node_views(nodes@),
                    raw.children@[j],
                    child_start(*raw, idx as int, j),
                ),
        decreases raw.children@.len() - i,
    {
        let ghost before = node_views(nodes@);
        let c = flatten_into(&raw.children[i], Some(idx), nodes);
        proof {
            let after = node_views(nodes@);
            lemma_child_range(*raw, i as int);
            assert(after[idx as int].children == before[idx as int].children.push(c));
            assert forall|j: int| 0 <= j < i + 1 implies #[trigger] child_placed(
                after,
                *raw,
                idx as int,
                j,
            ) && subtree_at(after, raw.children@[j], child_start(*raw, idx as int, j)) by {
                if j < i {
                    let cj = child_start(*raw, idx as int, j);
                    assert(child_placed(before, *raw, idx as int, j));
                    lemma_child_range(*raw, j);
                    lemma_forest_size_grows(raw.children@, (j + 1) as nat, i as nat);
                    lemma_subtree_frame(before, after, raw.children@[j], cj);
                }
            }
            assert(attached(start, after, parent));
        }
        i += 1;
    }
    proof {
        let table = node_views(nodes@);
        assert(raw.size() == 1 + RawNode::forest_size(raw.children@, raw.children@.len()));
        assert(i == raw.children@.len());
        assert forall|j: int| 0 <= j < raw.children@.len() implies #[trigger] child_placed(
            table,
            *raw,
            idx as int,
            j,
        ) && subtree_at(table, raw.children@[j], child_start(*raw, idx as int, j)) by {}
        assert(subtree_at(table, *raw, idx as int));
    }
    idx
}

/// Lays a nested tree out as a flat table in pre-order: the root is entry 0,
/// and each vertex is followed by its subtrees in their order.
pub fn flatten_raw(raw: &RawNode) -> (tree: Tree)
    ensures
        tree.wf(),
        tree@.root == 0,
        tree@.len() == raw.size(),
        tree@.nodes[0].parent is None,
        subtree_at(tree@.nodes, *raw, 0),
{
    let mut nodes: Vec<Node> = Vec::new();
    proof {
        reveal(preorder);
    }
    let root = flatten_into(raw, None, &mut nodes);
    let ghost table = node_views(nodes@);
    let ghost level = Seq::new(table.len(), |u: int| preorder_level(table, u));
    let tree = Tree { nodes, root, level: Ghost(level) };
    proof {
        assert(tree@.nodes == table);
        assert forall|u: int| #![trigger tree@.nodes[u].children] tree@.has(u) implies tree@.nodes[u].children.no_duplicates() by {
            assert forall|i: int, j: int|
                0 <= i < table[u].children.len() && 0 <= j < table[u].children.len() && i
                    != j implies table[u].children[i] != table[u].children[j] by {
                if i < j {
                    assert(table[u].children[i] < table[u].children[j]);
                } else {
                    assert(table[u].children[j] < table[u].children[i]);
                }
            }
        }
    }
    tree
}

/// A rooted tree held as a flat table of nodes that refer to each other by index.
pub struct Tree {
    pub(crate) nodes: Vec<Node>,
    pub(crate) root: usize,
    pub(crate) level: Ghost<Seq<nat>>,
}

impl View for Tree {
    type V = TreeView;

    open(crate) spec fn view(&self) -> TreeView {
        TreeView { nodes: node_views(self.nodes@), root: self.root as int, level: self.level@ }
    }
}

impl Tree {
    /// The table is one rooted tree.
    pub open spec fn wf(&self) -> bool {
        self@.wf()
    }

    /// The number of nodes.
    pub fn node_count(&self) -> (n: usize)
        ensures
            n == self@.len(),
    {
        self.nodes.len()
    }

    /// The index of the root.
    pub fn root(&self) -> (r: usize)
        ensures
            r == self@.root,
    {
        self.root
    }

    /// The entry of node `u`.
    pub fn node(&self, u: usize) -> (node: &Node)
        requires
            u < self@.len(),
        ensures
            node@ == self@.nodes[u as int],
    {
        &self.nodes[u]
    }

    /// The parent of `u`, if it has one.
    pub fn parent(&self, u: usize) -> (p: Option<usize>)
        requires
            u < self@.len(),
        ensures
            p == self@.nodes[u as int].parent,
    {
        self.nodes[u].parent
    }

    /// The length of the branch between `u` and its parent.
    pub fn length(&self, u: usize) -> (l: i64)
        requires
            u < self@.len(),
        ensures
            l == self@.nodes[u as int].length,
    {
        self.nodes[u].length
    }

    /// Whether `u` has no children.
    pub fn is_leaf(&self, u: usize) -> (b: bool)
        requires
            u < self@.len(),
        ensures
            b == self@.is_leaf(u as int),
    {
        self.nodes[u].children.len() == 0
    }
}

} // verus!
