//! The rows and columns of the matrix: the labeled leaves of a tree, ordered
//! by label.

use crate::tree::Tree;
use crate::tree::TreeView;
use vstd::prelude::*;
use vstd::utf8::encode_utf8;

verus! {

/// `a` stands before `b` in the lexicographic order of bytes.
pub open spec fn lex_less(a: Seq<u8>, b: Seq<u8>) -> bool
    decreases a.len(),
{
    if b.len() == 0 {
        false
    } else if a.len() == 0 {
        true
    } else if a[0] == b[0] {
        lex_less(a.drop_first(), b.drop_first())
    } else {
        a[0] < b[0]
    }
}

impl TreeView {
    /// `x` is a leaf that has a label.
    pub open spec fn is_labeled_leaf(self, x: int) -> bool {
        self.is_leaf(x) && self.nodes[x].name is Some
    }

    /// The label of `x` as the bytes of its UTF-8 form.
    pub open spec fn label_bytes(self, x: int) -> Seq<u8> {
        encode_utf8(self.nodes[x].name->0)
    }

    /// `x` stands before `y` in the matrix: its label comes first in the
    /// lexicographic order of bytes, or the labels are the same and its index
    /// is the smaller one.
    pub open spec fn leaf_before(self, x: int, y: int) -> bool {
        lex_less(self.label_bytes(x), self.label_bytes(y)) || (self.label_bytes(x)
            == self.label_bytes(y) && x < y)
    }

    /// `leaves` holds the labeled leaves of the tree, each once, in the order
    /// of the matrix.
    pub open spec fn leaf_order(self, leaves: Seq<usize>) -> bool {
        &&& forall|i: int|
            0 <= i < leaves.len() ==> self.is_labeled_leaf(#[trigger] leaves[i] as int)
        &&& forall|x: int| self.is_labeled_leaf(x) ==> #[trigger] leaves.contains(x as usize)
        &&& forall|i: int, j: int|
            0 <= i < j < leaves.len() ==> #[trigger] self.leaf_before(
                leaves[i] as int,
                leaves[j] as int,
            )
    }
}

/// Where two sequences agree on their first `i` bytes, their order is that
/// of what follows.
proof fn lemma_lex_skip(a: Seq<u8>, b: Seq<u8>, i: int)
    requires
        0 <= i <= a.len(),
        i <= b.len(),
        forall|k: int| 0 <= k < i ==> a[k] == b[k],
    ensures
        lex_less(a, b) == lex_less(a.skip(i), b.skip(i)),
        lex_less(b, a) == lex_less(b.skip(i), a.skip(i)),
    decreases i,
{
    if i > 0 {
        lemma_lex_skip(a.drop_first(), b.drop_first(), i - 1);
        assert(a.drop_first().skip(i - 1) == a.skip(i));
        assert(b.drop_first().skip(i - 1) == b.skip(i));
    } else {
        assert(a.skip(0) == a);
        assert(b.skip(0) == b);
    }
}

/// The lexicographic order is a strict total order.
pub proof fn lemma_lex_order(a: Seq<u8>, b: Seq<u8>, c: Seq<u8>)
    ensures
        !lex_less(a, a),
        lex_less(a, b) ==> !lex_less(b, a),
        lex_less(a, b) && lex_less(b, c) ==> lex_less(a, c),
        a != b ==> lex_less(a, b) || lex_less(b, a),
    decreases a.len(),
{
    if a.len() > 0 {
        lemma_lex_order(a.drop_first(), a.drop_first(), a.drop_first());
    }
    if a.len() > 0 && b.len() > 0 {
        if a[0] == b[0] {
            if c.len() > 0 {
                lemma_lex_order(a.drop_first(), b.drop_first(), c.drop_first());
            } else {
                lemma_lex_order(a.drop_first(), b.drop_first(), b.drop_first());
            }
            if a.drop_first() == b.drop_first() {
                assert(a =~= seq![a[0]] + a.drop_first());
                assert(b =~= seq![b[0]] + b.drop_first());
            }
        }
    } else if a.len() == 0 && b.len() == 0 {
        assert(a =~= b);
    }
}

/// Standing before another leaf in the matrix is a strict total order.
pub proof fn lemma_leaf_before(t: TreeView, x: int, y: int, z: int)
    ensures
        !t.leaf_before(x, x),
        t.leaf_before(x, y) && t.leaf_before(y, z) ==> t.leaf_before(x, z),
        x != y ==> t.leaf_before(x, y) || t.leaf_before(y, x),
{
    lemma_lex_order(t.label_bytes(x), t.label_bytes(y), t.label_bytes(z));
    lemma_lex_order(t.label_bytes(y), t.label_bytes(x), t.label_bytes(z));
}

/// Whether `a` stands before `b` (0), is the same (1), or stands after it (2).
fn bytes_rank(a: &[u8], b: &[u8]) -> (r: u8)
    ensures
        r == 0 <==> lex_less(a@, b@),
        r == 1 <==> a@ == b@,
        r == 2 <==> lex_less(b@, a@),
        r <= 2,
{
    let mut i: usize = 0;
    proof {
        lemma_lex_order(a@, b@, a@);
        lemma_lex_order(b@, a@, a@);
    }
    while i < a.len() && i < b.len()
        invariant
            i <= a@.len(),
            i <= b@.len(),
            forall|k: int| 0 <= k < i ==> a@[k] == b@[k],
        decreases a@.len() - i,
    {
        if a[i] != b[i] {
            proof {
                lemma_lex_skip(a@, b@, i as int);
            }
            return if a[i] < b[i] {
                0
            } else {
                2
            };
        }
        i = i + 1;
    }
    proof {
        lemma_lex_skip(a@, b@, i as int);
        if a@.len() == b@.len() {
            assert(a@ =~= b@);
        }
    }
    if a.len() == b.len() {
        1
    } else if a.len() < b.len() {
        0
    } else {
        2
    }
}

/// Whether the labeled node `x` stands before the labeled node `y` in the matrix.
fn leaf_before(tree: &Tree, x: usize, y: usize) -> (r: bool)
    requires
        tree@.has(x as int),
        tree@.has(y as int),
        tree@.nodes[x as int].name is Some,
        tree@.nodes[y as int].name is Some,
    ensures
        r == tree@.leaf_before(x as int, y as int),
{
    proof {
        assert(tree@.nodes[x as int] == tree.nodes@[x as int]@);
        assert(tree@.nodes[y as int] == tree.nodes@[y as int]@);
    }
    match (&tree.nodes[x].name, &tree.nodes[y].name) {
        (Some(a), Some(b)) => {
            let rank = bytes_rank(a.as_str().as_bytes(), b.as_str().as_bytes());
            rank == 0 || (rank == 1 && x < y)
        },
        _ => false,
    }
}

/// The labeled leaves of the tree in the order of the matrix: by label, in
/// the lexicographic order of bytes, and by index where two labels are the
/// same.
pub fn sorted_leaves(tree: &Tree) -> (leaves: Vec<usize>)
    ensures
        tree@.leaf_order(leaves@),
{
    let ghost t = tree@;
    let mut leaves: Vec<usize> = Vec::new();
    let mut u: usize = 0;
    while u < tree.nodes.len()
        invariant
            t == tree@,
            u <= t.len(),
            forall|i: int|
                0 <= i < leaves@.len() ==> t.is_labeled_leaf(#[trigger] leaves@[i] as int)
                    && leaves@[i] < u,
            forall|x: int|
                0 <= x < u && t.is_labeled_leaf(x) ==> #[trigger] leaves@.contains(x as usize),
            forall|i: int, j: int|
                0 <= i < j < leaves@.len() ==> #[trigger] t.leaf_before(
                    leaves@[i] as int,
                    leaves@[j] as int,
                ),
        decreases t.len() - u,
    {
        proof {
            assert(t.nodes[u as int] == tree.nodes@[u as int]@);
        }
        if tree.nodes[u].children.len() == 0 && tree.nodes[u].name.is_some() {
            let mut pos: usize = 0;
            while pos < leaves.len() && !leaf_before(tree, u, leaves[pos])
                invariant
                    t == tree@,
                    t.is_labeled_leaf(u as int),
                    pos <= leaves@.len(),
                    forall|i: int|
                        0 <= i < leaves@.len() ==> t.is_labeled_leaf(#[trigger] leaves@[i] as int)
                            && leaves@[i] < u,
                    forall|i: int|
                        0 <= i < pos ==> !t.leaf_before(u as int, #[trigger] leaves@[i] as int),
                decreases leaves@.len() - pos,
            {
                pos = pos + 1;
            }
            let ghost before = leaves@;
            leaves.insert(pos, u);
            proof {
                let after = leaves@;
                assert forall|i: int, j: int| 0 <= i < j < after.len() implies #[trigger] t.leaf_before(
                    after[i] as int,
                    after[j] as int,
                ) by {
                    let x = after[i] as int;
                    let y = after[j] as int;
                    if j < pos {
                        assert(t.leaf_before(before[i] as int, before[j] as int));
                    } else if j == pos {
                        assert(!t.leaf_before(u as int, before[i] as int));
                        lemma_leaf_before(t, u as int, before[i] as int, u as int);
                    } else if i < pos {
                        assert(t.leaf_before(before[i] as int, before[j - 1] as int));
                    } else if i == pos {
                        assert(t.leaf_before(u as int, before[pos as int] as int));
                        if j - 1 > pos {
                            assert(t.leaf_before(before[pos as int] as int, before[j - 1] as int));
                            lemma_leaf_before(t, u as int, before[pos as int] as int, y);
                        }
                    } else {
                        assert(t.leaf_before(before[i - 1] as int, before[j - 1] as int));
                    }
                }
                assert forall|x: int| 0 <= x < u + 1 && t.is_labeled_leaf(x) implies #[trigger] after.contains(
                    x as usize,
                ) by {
                    if x == u {
                        assert(after[pos as int] == u);
                    } else {
                        assert(before.contains(x as usize));
                        let k = choose|k: int| 0 <= k < before.len() && before[k] == x as usize;
                        if k < pos {
                            assert(after[k] == x as usize);
                        } else {
                            assert(after[k + 1] == x as usize);
                        }
                    }
                }
                assert forall|i: int| 0 <= i < after.len() implies t.is_labeled_leaf(
                    #[trigger] after[i] as int,
                ) && after[i] < u + 1 by {
                    if i < pos {
                        assert(after[i] == before[i]);
                    } else if i > pos {
                        assert(after[i] == before[i - 1]);
                    }
                }
            }
        }
        u = u + 1;
    }
    leaves
}

/// The labels of `leaves`, in their order.
pub fn leaf_labels(tree: &Tree, leaves: &Vec<usize>) -> (labels: Vec<String>)
    requires
        forall|i: int|
            0 <= i < leaves@.len() ==> tree@.has(#[trigger] leaves@[i] as int)
                && tree@.nodes[leaves@[i] as int].name is Some,
    ensures
        labels@.len() == leaves@.len(),
        forall|i: int|
            0 <= i < leaves@.len() ==> Some((#[trigger] labels@[i])@)
                == tree@.nodes[leaves@[i] as int].name,
{
    let mut labels: Vec<String> = Vec::new();
    let mut i: usize = 0;
    while i < leaves.len()
        invariant
            i <= leaves@.len(),
            labels@.len() == i,
            forall|i: int|
                0 <= i < leaves@.len() ==> tree@.has(#[trigger] leaves@[i] as int)
                    && tree@.nodes[leaves@[i] as int].name is Some,
            forall|k: int|
                0 <= k < i ==> Some((#[trigger] labels@[k])@)
                    == tree@.nodes[leaves@[k] as int].name,
        decreases leaves@.len() - i,
    {
        let x = leaves[i];
        proof {
            assert(tree@.has(leaves@[i as int] as int));
            assert(tree@.nodes[x as int] == tree.nodes@[x as int]@);
        }
        let label = match &tree.nodes[x].name {
            Some(s) => s.clone(),
            None => String::new(),
        };
        labels.push(label);
        i = i + 1;
    }
    labels
}

} // verus!
