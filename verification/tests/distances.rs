use distree::distance::Metric;
use distree::lca::build_lca_structure;
use distree::leaves::leaf_labels;
use distree::leaves::sorted_leaves;
use distree::tree::flatten_raw;
use distree::tree::RawNode;

fn leaf(name: &str, length: i64) -> RawNode {
    RawNode { name: Some(name.to_string()), length, children: Vec::new() }
}

fn inner(length: i64, children: Vec<RawNode>) -> RawNode {
    RawNode { name: None, length, children }
}

/// `((A:1,B:2):3,C:4);` laid out as 0 = root, 1 = inner, 2 = A, 3 = B, 4 = C.
fn three_leaves() -> RawNode {
    inner(0, vec![inner(3, vec![leaf("A", 1), leaf("B", 2)]), leaf("C", 4)])
}

/// A tree of eleven nodes with branches of several lengths, one of them 0.
fn bushy() -> RawNode {
    inner(
        0,
        vec![
            inner(5, vec![leaf("a", 7), inner(2, vec![leaf("b", 1), leaf("c", 0), leaf("d", 9)])]),
            leaf("e", 3),
            inner(4, vec![inner(6, vec![leaf("f", 8)])]),
        ],
    )
}

#[test]
fn flatten_lays_out_in_preorder() {
    let tree = flatten_raw(&bushy());
    assert_eq!(tree.node_count(), 11);
    assert_eq!(tree.root(), 0);
    assert_eq!(tree.parent(0), None);
    let parents: Vec<Option<usize>> = (0..11).map(|u| tree.parent(u)).collect();
    assert_eq!(
        parents,
        vec![None, Some(0), Some(1), Some(1), Some(3), Some(3), Some(3), Some(0), Some(0), Some(8), Some(9)]
    );
    assert_eq!(tree.node(0).children, vec![1, 7, 8]);
    assert_eq!(tree.node(1).children, vec![2, 3]);
    assert_eq!(tree.node(3).children, vec![4, 5, 6]);
    assert_eq!(tree.node(6).name, Some("d".to_string()));
    assert_eq!(tree.node(3).name, None);
    assert_eq!(tree.length(6), 9);
    assert_eq!(tree.length(1), 5);
    assert!(tree.is_leaf(10));
    assert!(!tree.is_leaf(9));
}

#[test]
fn flatten_of_a_single_vertex() {
    let tree = flatten_raw(&leaf("A", 17));
    assert_eq!(tree.node_count(), 1);
    assert_eq!(tree.root(), 0);
    assert_eq!(tree.parent(0), None);
    assert!(tree.is_leaf(0));
}

#[test]
fn patristic_of_three_leaves() {
    let tree = flatten_raw(&three_leaves());
    assert_eq!(tree.node_count(), 5);
    let data = build_lca_structure(&tree);
    assert_eq!(data.patristic(2, 3), 3);
    assert_eq!(data.patristic(2, 4), 8);
    assert_eq!(data.patristic(3, 4), 9);
    assert_eq!(data.mrca(2, 3), 1);
    assert_eq!(data.mrca(2, 4), 0);
    assert_eq!(data.depth_len(1), 3);
    assert_eq!(data.depth_len(0), 0);
    assert_eq!(data.depth_top(3), 2);
    assert_eq!(data.node_count(), 5);
}

#[test]
fn matrix_of_three_leaves() {
    let tree = flatten_raw(&three_leaves());
    let data = build_lca_structure(&tree);
    let leaves = sorted_leaves(&tree);
    assert_eq!(leaves, vec![2usize, 3, 4]);
    assert_eq!(leaf_labels(&tree, &leaves), vec!["A".to_string(), "B".to_string(), "C".to_string()]);
    let m = data.distance_matrix(Metric::Patristic, &leaves);
    assert_eq!(m, vec![vec![0, 3, 8], vec![3, 0, 9], vec![8, 9, 0]]);
    let t = data.distance_matrix(Metric::Topological, &leaves);
    assert_eq!(t, vec![vec![0, 2, 3], vec![2, 0, 3], vec![3, 3, 0]]);
    let c = data.distance_matrix(Metric::Lmm, &leaves);
    assert_eq!(c, vec![vec![4, 3, 0], vec![3, 5, 0], vec![0, 0, 4]]);
}

#[test]
fn row_follows_the_order_of_the_columns() {
    let tree = flatten_raw(&three_leaves());
    let data = build_lca_structure(&tree);
    let columns = vec![4usize, 2, 3, 2];
    assert_eq!(data.distance_row(Metric::Patristic, 3, &columns), vec![9, 3, 0, 3]);
    assert_eq!(data.distance_row(Metric::Topological, 3, &columns), vec![3, 2, 0, 2]);
    assert_eq!(data.distance_row(Metric::Lmm, 3, &columns), vec![0, 3, 5, 3]);
    assert_eq!(data.distance_row(Metric::Patristic, 3, &Vec::new()), Vec::<i128>::new());
}

#[test]
fn single_leaf_gives_the_zero_matrix() {
    let tree = flatten_raw(&leaf("A", 0));
    let data = build_lca_structure(&tree);
    let leaves = sorted_leaves(&tree);
    assert_eq!(leaf_labels(&tree, &leaves), vec!["A".to_string()]);
    assert_eq!(data.distance_matrix(Metric::Patristic, &leaves), vec![vec![0]]);
    assert_eq!(data.distance_matrix(Metric::Topological, &leaves), vec![vec![0]]);
    assert_eq!(data.mrca(0, 0), 0);
}

#[test]
fn unnamed_inner_node_is_no_row() {
    let tree = flatten_raw(&inner(0, vec![leaf("A", 1), leaf("B", 1)]));
    let data = build_lca_structure(&tree);
    let leaves = sorted_leaves(&tree);
    assert_eq!(leaves, vec![1usize, 2]);
    let m = data.distance_matrix(Metric::Patristic, &leaves);
    assert_eq!(m, vec![vec![0, 2], vec![2, 0]]);
}

#[test]
fn lca_of_a_node_and_itself_and_in_either_order() {
    let tree = flatten_raw(&bushy());
    let data = build_lca_structure(&tree);
    for u in 0..11 {
        assert_eq!(data.mrca(u, u), u);
        for v in 0..11 {
            assert_eq!(data.mrca(u, v), data.mrca(v, u));
        }
    }
    assert_eq!(data.mrca(4, 6), 3);
    assert_eq!(data.mrca(2, 5), 1);
    assert_eq!(data.mrca(6, 10), 0);
    assert_eq!(data.mrca(3, 6), 3);
    assert_eq!(data.mrca(10, 8), 8);
}

#[test]
fn lca_is_no_deeper_than_either_node() {
    let tree = flatten_raw(&bushy());
    let data = build_lca_structure(&tree);
    for u in 0..11 {
        for v in 0..11 {
            let m = data.mrca(u, v);
            assert!(data.depth_len(m) <= data.depth_len(u).min(data.depth_len(v)));
            assert!(data.depth_top(m) <= data.depth_top(u).min(data.depth_top(v)));
        }
    }
    // 3 is an ancestor of 6: their lowest common ancestor is as deep as 3.
    assert_eq!(data.depth_len(data.mrca(3, 6)), data.depth_len(3));
    assert_eq!(data.depth_len(3), 7);
    assert_eq!(data.depth_len(6), 16);
    assert_eq!(data.depth_len(10), 18);
}

#[test]
fn patristic_is_a_metric() {
    let tree = flatten_raw(&three_leaves());
    let data = build_lca_structure(&tree);
    for u in 0..5 {
        for v in 0..5 {
            let d = data.patristic(u, v);
            assert_eq!(d, data.patristic(v, u));
            assert!(d >= 0);
            assert_eq!(d == 0, u == v);
            for w in 0..5 {
                assert!(data.patristic(u, w) <= d + data.patristic(v, w));
            }
        }
    }
}

#[test]
fn patristic_with_a_branch_of_length_zero() {
    let tree = flatten_raw(&bushy());
    let data = build_lca_structure(&tree);
    // c hangs on a branch of length 0 below node 3.
    assert_eq!(data.patristic(5, 3), 0);
    assert_eq!(data.patristic(4, 5), 1);
    assert_eq!(data.patristic(2, 6), 18);
    assert_eq!(data.patristic(6, 10), 34);
}

#[test]
fn unit_branches_make_the_two_distances_one() {
    let raw = inner(
        0,
        vec![inner(1, vec![leaf("a", 1), inner(1, vec![leaf("b", 1), leaf("c", 1)])]), leaf("d", 1)],
    );
    let tree = flatten_raw(&raw);
    let data = build_lca_structure(&tree);
    for u in 0..7 {
        for v in 0..7 {
            assert_eq!(data.patristic(u, v), data.topological(u, v) as i128);
        }
    }
    assert_eq!(data.topological(4, 6), 4);
}

#[test]
fn topological_ignores_the_branch_lengths() {
    let raw = inner(0, vec![inner(-3, vec![leaf("A", -1), leaf("B", 1000)]), leaf("C", -7)]);
    let tree = flatten_raw(&raw);
    let data = build_lca_structure(&tree);
    assert_eq!(data.topological(2, 3), 2);
    assert_eq!(data.topological(2, 4), 3);
    assert_eq!(data.topological(4, 4), 0);
    assert_eq!(data.cell(Metric::Topological, 3, 4), 3);
    assert_eq!(data.patristic(2, 4), -11);
    assert_eq!(data.lmm(2, 3), -3);
}

#[test]
fn the_three_metrics_on_the_diagonal() {
    let tree = flatten_raw(&three_leaves());
    let data = build_lca_structure(&tree);
    assert_eq!(data.cell(Metric::Patristic, 3, 3), 0);
    assert_eq!(data.cell(Metric::Topological, 3, 3), 0);
    assert_eq!(data.cell(Metric::Lmm, 3, 3), 5);
}

#[test]
fn deep_chain_is_climbed_by_jumps() {
    // A chain of 40 inner nodes, each with a leaf beside the next inner node.
    let mut raw = leaf("tip", 1);
    for i in 0..40 {
        raw = inner(1, vec![leaf(&format!("l{}", i), 2), raw]);
    }
    let tree = flatten_raw(&raw);
    assert_eq!(tree.node_count(), 81);
    let data = build_lca_structure(&tree);
    // Node 2k is the k-th inner node, node 2k + 1 its leaf; node 80 is the tip.
    assert_eq!(data.depth_top(80), 40);
    assert_eq!(data.mrca(80, 1), 0);
    assert_eq!(data.mrca(80, 27), 26);
    assert_eq!(data.mrca(27, 55), 26);
    assert_eq!(data.patristic(27, 55), 2 + 14 + 2);
    assert_eq!(data.topological(80, 1), 41);
    assert_eq!(data.patristic(80, 1), 42);
}

#[test]
fn largest_branch_lengths_do_not_overflow() {
    let raw = inner(0, vec![leaf("A", i64::MAX), leaf("B", i64::MAX), leaf("C", i64::MIN)]);
    let tree = flatten_raw(&raw);
    let data = build_lca_structure(&tree);
    assert_eq!(data.patristic(1, 2), 2 * (i64::MAX as i128));
    assert_eq!(data.patristic(3, 1), -1);
}

#[test]
fn traversal_takes_the_last_child_first() {
    let tree = flatten_raw(&three_leaves());
    let walk = distree::lca::traverse(&tree);
    assert_eq!(walk.order, vec![0usize, 4, 1, 3, 2]);
    assert_eq!(walk.depth_len, vec![0i128, 3, 4, 5, 4]);
    assert_eq!(walk.depth_top, vec![0usize, 1, 2, 2, 1]);
    assert_eq!(walk.parent, vec![None, Some(0), Some(1), Some(1), Some(0)]);
    let bushy = flatten_raw(&bushy());
    assert_eq!(distree::lca::traverse(&bushy).order, vec![0usize, 8, 9, 10, 7, 1, 3, 6, 5, 4, 2]);
}
