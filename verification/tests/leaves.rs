use distree::leaves::leaf_labels;
use distree::leaves::sorted_leaves;
use distree::tree::flatten_raw;
use distree::tree::RawNode;

fn named(name: &str, children: Vec<RawNode>) -> RawNode {
    RawNode { name: Some(name.to_string()), length: 1, children }
}

fn unnamed(children: Vec<RawNode>) -> RawNode {
    RawNode { name: None, length: 1, children }
}

#[test]
fn leaves_are_ordered_by_label() {
    let raw = unnamed(vec![named("pear", vec![]), named("apple", vec![]), named("fig", vec![])]);
    let tree = flatten_raw(&raw);
    let leaves = sorted_leaves(&tree);
    assert_eq!(leaves, vec![2usize, 3, 1]);
    assert_eq!(
        leaf_labels(&tree, &leaves),
        vec!["apple".to_string(), "fig".to_string(), "pear".to_string()]
    );
}

#[test]
fn equal_labels_keep_the_order_of_their_indices() {
    // 1 = b, 2 = a, 3 = x (inner), 4 = c, 5 = a, 6 = unnamed leaf
    let raw = unnamed(
        vec![
            named("b", vec![]),
            named("a", vec![]),
            named("x", vec![named("c", vec![]), named("a", vec![])]),
            unnamed(vec![]),
        ],
    );
    let tree = flatten_raw(&raw);
    let leaves = sorted_leaves(&tree);
    assert_eq!(leaves, vec![2usize, 5, 1, 4]);
    assert_eq!(
        leaf_labels(&tree, &leaves),
        vec!["a".to_string(), "a".to_string(), "b".to_string(), "c".to_string()]
    );
}

#[test]
fn labels_are_ordered_by_their_bytes() {
    let raw = unnamed(
        vec![
            named("ab", vec![]),
            named("a", vec![]),
            named("B", vec![]),
            named("\u{e9}", vec![]),
            named("z", vec![]),
            named("", vec![]),
            named("a b", vec![]),
        ],
    );
    let tree = flatten_raw(&raw);
    let leaves = sorted_leaves(&tree);
    let labels = leaf_labels(&tree, &leaves);
    assert_eq!(labels, vec!["", "B", "a", "a b", "ab", "z", "\u{e9}"]);
    let mut by_std = labels.clone();
    by_std.sort();
    assert_eq!(labels, by_std);
}

#[test]
fn tree_without_labeled_leaves_has_no_rows() {
    let raw = named("root", vec![unnamed(vec![]), named("inner", vec![unnamed(vec![])])]);
    let tree = flatten_raw(&raw);
    assert_eq!(sorted_leaves(&tree), Vec::<usize>::new());
    assert_eq!(leaf_labels(&tree, &Vec::new()), Vec::<String>::new());
}

#[test]
fn labeled_root_without_children_is_a_leaf() {
    let tree = flatten_raw(&named("only", vec![]));
    assert_eq!(sorted_leaves(&tree), vec![0usize]);
}
