use distree::lca::build_lca_structure;
use distree::leaves::sorted_leaves;
use distree::midpoint::midpoint_root;
use distree::tree::flatten_raw;
use distree::tree::RawNode;
use distree::tree::Tree;

fn leaf(name: &str, length: i64) -> RawNode {
    RawNode { name: Some(name.to_string()), length, children: Vec::new() }
}

fn inner(length: i64, children: Vec<RawNode>) -> RawNode {
    RawNode { name: None, length, children }
}

fn three_leaves() -> RawNode {
    inner(0, vec![inner(3, vec![leaf("A", 1), leaf("B", 2)]), leaf("C", 4)])
}

fn bushy() -> RawNode {
    inner(
        0,
        vec![
            inner(5, vec![leaf("a", 7), inner(2, vec![leaf("b", 1), leaf("c", 0), leaf("d", 9)])]),
            leaf("e", 3),
            inner(4, vec![inner(6, vec![leaf("f", 8)])]),
        ],
    )
}

fn all_distances(tree: &Tree, count: usize) -> Vec<Vec<i128>> {
    let data = build_lca_structure(tree);
    (0..count).map(|u| (0..count).map(|v| data.patristic(u, v)).collect()).collect()
}

/// Every link of the table agrees in both directions and one node has no parent.
fn is_one_tree(tree: &Tree) -> bool {
    let n = tree.node_count();
    let mut ok = tree.parent(tree.root()).is_none();
    let mut edges = 0;
    for u in 0..n {
        if u != tree.root() {
            match tree.parent(u) {
                Some(p) => ok = ok && tree.node(p).children.iter().filter(|c| **c == u).count() == 1,
                None => ok = false,
            }
        }
        for c in tree.node(u).children.iter() {
            ok = ok && tree.parent(*c) == Some(u);
            edges += 1;
        }
    }
    ok && edges + 1 == n && build_lca_structure(tree).node_count() == n
}

#[test]
fn midpoint_of_three_leaves() {
    let mut tree = flatten_raw(&three_leaves());
    let ends = midpoint_root(&mut tree);
    assert_eq!((ends.first, ends.second, ends.length), (4, 3, 9));
    assert_eq!(tree.node_count(), 6);
    assert_eq!(tree.root(), 5);
    assert_eq!(tree.node(5).name, None);
    assert_eq!(tree.node(5).children.len(), 2);
    assert!(is_one_tree(&tree));
    let data = build_lca_structure(&tree);
    assert_eq!(data.depth_len(3), 4);
    assert_eq!(data.depth_len(4), 5);
    assert_eq!(data.depth_len(2), 3);
    assert_eq!(data.patristic(2, 3), 3);
    assert_eq!(data.patristic(2, 4), 8);
    assert_eq!(data.patristic(3, 4), 9);
    assert_eq!(sorted_leaves(&tree), vec![2usize, 3, 4]);
}

#[test]
fn midpoint_of_two_leaves_lies_in_the_middle() {
    let mut tree = flatten_raw(&inner(0, vec![leaf("A", 2), leaf("B", 6)]));
    let ends = midpoint_root(&mut tree);
    assert_eq!((ends.first, ends.second, ends.length), (2, 1, 8));
    let data = build_lca_structure(&tree);
    assert_eq!(tree.root(), 3);
    assert_eq!(data.depth_len(1), 4);
    assert_eq!(data.depth_len(2), 4);
    assert_eq!(data.depth_len(0), 2);
    assert_eq!(tree.length(3), 0);
    assert!(is_one_tree(&tree));
}

#[test]
fn midpoint_changes_no_distance() {
    let mut tree = flatten_raw(&bushy());
    let before = all_distances(&tree, 11);
    let leaves_before = sorted_leaves(&tree);
    let ends = midpoint_root(&mut tree);
    assert_eq!(tree.node_count(), 12);
    assert!(is_one_tree(&tree));
    assert_eq!(all_distances(&tree, 11), before);
    assert_eq!(sorted_leaves(&tree), leaves_before);
    // The ends are d (node 6) and f (node 10), 34 apart.
    assert_eq!(ends.length, 34);
    assert_eq!(before[ends.first][ends.second], 34);
    let data = build_lca_structure(&tree);
    assert_eq!(data.depth_len(ends.second), 17);
    assert_eq!(data.depth_len(ends.first), 17);
    for u in 0..11 {
        for v in 0..11 {
            if tree.is_leaf(u) && tree.is_leaf(v) {
                assert!(before[u][v] <= 34);
            }
        }
    }
}

#[test]
fn midpoint_twice_keeps_the_diameter() {
    let mut tree = flatten_raw(&three_leaves());
    let first = midpoint_root(&mut tree);
    let once = build_lca_structure(&tree);
    let (near, far) = (once.depth_len(first.second), once.depth_len(first.first));
    assert_eq!((near, far), (4, 5));
    let second = midpoint_root(&mut tree);
    assert_eq!(second.length, first.length);
    assert_eq!(tree.node_count(), 7);
    assert_eq!(tree.root(), 6);
    assert!(is_one_tree(&tree));
    let twice = build_lca_structure(&tree);
    assert_eq!(twice.depth_len(second.second), 4);
    assert_eq!(twice.depth_len(second.first), 5);
    // The root has moved by no more than the one unit lost in halving 9.
    assert!((twice.depth_len(first.second) - near).abs() <= 1);
    assert!((twice.depth_len(first.first) - far).abs() <= 1);
    assert_eq!(twice.patristic(2, 3), 3);
    assert_eq!(twice.patristic(2, 4), 8);
    assert_eq!(twice.patristic(3, 4), 9);
}

#[test]
fn midpoint_twice_with_an_even_diameter_stays_put() {
    let mut tree = flatten_raw(&bushy());
    let first = midpoint_root(&mut tree);
    let once = build_lca_structure(&tree);
    let depths: Vec<i128> = (0..11).map(|u| once.depth_len(u)).collect();
    let second = midpoint_root(&mut tree);
    assert_eq!(second.length, first.length);
    let twice = build_lca_structure(&tree);
    let again: Vec<i128> = (0..11).map(|u| twice.depth_len(u)).collect();
    assert_eq!(again, depths);
}

#[test]
fn single_node_is_left_as_it_is() {
    let mut tree = flatten_raw(&leaf("A", 5));
    let ends = midpoint_root(&mut tree);
    assert_eq!((ends.first, ends.second, ends.length), (0, 0, 0));
    assert_eq!(tree.node_count(), 1);
    assert_eq!(tree.root(), 0);
    assert_eq!(tree.length(0), 5);
}

#[test]
fn single_leaf_below_the_root_is_left_as_it_is() {
    let mut tree = flatten_raw(&inner(0, vec![leaf("A", 1)]));
    let ends = midpoint_root(&mut tree);
    assert_eq!((ends.first, ends.second, ends.length), (1, 1, 0));
    assert_eq!(tree.node_count(), 2);
    assert_eq!(tree.root(), 0);
    assert_eq!(tree.parent(1), Some(0));
    assert_eq!(tree.node(0).children, vec![1]);
}

#[test]
fn tree_of_zero_lengths_is_rooted_at_its_first_leaf() {
    let mut tree = flatten_raw(&inner(0, vec![leaf("A", 0), leaf("B", 0), leaf("C", 0)]));
    let ends = midpoint_root(&mut tree);
    assert_eq!((ends.first, ends.second, ends.length), (1, 1, 0));
    assert_eq!(tree.node_count(), 4);
    assert_eq!(tree.root(), 1);
    assert_eq!(tree.parent(1), None);
    assert_eq!(tree.parent(0), Some(1));
    assert_eq!(tree.node(1).children, vec![0]);
    assert_eq!(tree.node(0).children, vec![2, 3]);
    assert!(is_one_tree(&tree));
    assert_eq!(all_distances(&tree, 4), vec![vec![0; 4]; 4]);
}

#[test]
fn first_of_several_farthest_leaves_is_taken() {
    // B, C and D are all 2 from A; the traversal from A comes to D first.
    let mut tree = flatten_raw(&inner(0, vec![leaf("A", 1), leaf("B", 1), leaf("C", 1), leaf("D", 1)]));
    let ends = midpoint_root(&mut tree);
    assert_eq!(ends.length, 2);
    assert_eq!(ends.first, 4);
    assert_eq!(ends.second, 3);
}

#[test]
fn reroot_moves_the_root_and_keeps_the_distances() {
    let mut tree = flatten_raw(&bushy());
    let before = all_distances(&tree, 11);
    tree.reroot(6);
    assert_eq!(tree.root(), 6);
    assert_eq!(tree.parent(6), None);
    assert_eq!(tree.parent(3), Some(6));
    assert_eq!(tree.parent(1), Some(3));
    assert_eq!(tree.parent(0), Some(1));
    assert_eq!(tree.parent(7), Some(0));
    assert_eq!(tree.length(3), 9);
    assert_eq!(tree.length(1), 2);
    assert_eq!(tree.length(0), 5);
    assert_eq!(tree.node(3).children, vec![1, 4, 5]);
    assert_eq!(tree.node(0).children, vec![7, 8]);
    assert!(is_one_tree(&tree));
    assert_eq!(all_distances(&tree, 11), before);
    let data = build_lca_structure(&tree);
    for u in 0..11 {
        assert_eq!(data.depth_len(u), before[6][u]);
    }
    tree.reroot(6);
    assert_eq!(tree.root(), 6);
    assert_eq!(all_distances(&tree, 11), before);
}

#[test]
fn rotate_root_turns_one_edge_round() {
    let mut tree = flatten_raw(&three_leaves());
    tree.rotate_root(1);
    assert_eq!(tree.root(), 1);
    assert_eq!(tree.parent(0), Some(1));
    assert_eq!(tree.length(0), 3);
    assert_eq!(tree.length(1), 0);
    assert_eq!(tree.node(1).children, vec![0, 2, 3]);
    assert_eq!(tree.node(0).children, vec![4]);
    assert!(is_one_tree(&tree));
}

#[test]
fn split_above_sets_a_node_on_a_branch() {
    let mut tree = flatten_raw(&three_leaves());
    let before = all_distances(&tree, 5);
    let new = tree.split_above(1, 2, 1);
    assert_eq!(new, 5);
    assert_eq!(tree.node_count(), 6);
    assert_eq!(tree.parent(1), Some(5));
    assert_eq!(tree.parent(5), Some(0));
    assert_eq!(tree.length(1), 2);
    assert_eq!(tree.length(5), 1);
    assert_eq!(tree.node(0).children, vec![5, 4]);
    assert_eq!(tree.node(5).children, vec![1]);
    assert_eq!(tree.node(5).name, None);
    assert!(is_one_tree(&tree));
    assert_eq!(all_distances(&tree, 5), before);
}

#[test]
fn duplicate_is_the_same_tree() {
    let tree = flatten_raw(&bushy());
    let copy = tree.duplicate();
    assert_eq!(copy.node_count(), 11);
    assert_eq!(copy.root(), 0);
    for u in 0..11 {
        assert_eq!(copy.node(u).name, tree.node(u).name);
        assert_eq!(copy.node(u).children, tree.node(u).children);
        assert_eq!(copy.parent(u), tree.parent(u));
        assert_eq!(copy.length(u), tree.length(u));
    }
}

fn step(seed: &mut u64) -> usize {
    *seed = seed.wrapping_mul(6364136223846793005).wrapping_add(1442695040888963407);
    (*seed >> 33) as usize
}

/// A tree grown from a seed: every vertex gets up to three children until
/// `budget` vertices are used up; branch lengths run from 0 to 19.
fn grown(seed: &mut u64, budget: &mut usize, depth: usize) -> RawNode {
    let length = (step(seed) % 20) as i64;
    let wanted = if depth > 12 { 0 } else { step(seed) % 4 };
    let mut children = Vec::new();
    for _ in 0..wanted {
        if *budget == 0 {
            break;
        }
        *budget -= 1;
        children.push(grown(seed, budget, depth + 1));
    }
    let name = if children.is_empty() { Some(format!("t{}", step(seed) % 1000)) } else { None };
    RawNode { name, length, children }
}

fn climb(tree: &Tree, mut u: usize) -> Vec<(usize, i128)> {
    let mut way = vec![(u, 0i128)];
    let mut sum = 0i128;
    while let Some(p) = tree.parent(u) {
        sum += tree.length(u) as i128;
        u = p;
        way.push((u, sum));
    }
    way
}

/// The distance between two nodes, found by walking from both to the root.
fn walked(tree: &Tree, u: usize, v: usize) -> (usize, i128) {
    let up = climb(tree, u);
    for (node, sum) in climb(tree, v) {
        if let Some((_, other)) = up.iter().find(|(n, _)| *n == node) {
            return (node, sum + other);
        }
    }
    panic!("no common ancestor");
}

#[test]
fn grown_trees_agree_with_walking_to_the_root() {
    for start in 1..6u64 {
        let mut seed = start;
        let mut budget = 90;
        let raw = RawNode { name: None, length: 0, children: vec![
            grown(&mut seed, &mut budget, 0),
            grown(&mut seed, &mut budget, 0),
        ] };
        let mut tree = flatten_raw(&raw);
        let n = tree.node_count();
        let data = build_lca_structure(&tree);
        let mut longest = 0;
        for u in 0..n {
            for v in 0..n {
                let (meet, far) = walked(&tree, u, v);
                assert_eq!(data.mrca(u, v), meet);
                assert_eq!(data.patristic(u, v), far);
                if tree.is_leaf(u) && tree.is_leaf(v) {
                    longest = longest.max(far);
                }
            }
        }
        let before = all_distances(&tree, n);
        let leaves = sorted_leaves(&tree);
        let ends = midpoint_root(&mut tree);
        assert!(is_one_tree(&tree));
        assert_eq!(ends.length, longest);
        assert_eq!(all_distances(&tree, n), before);
        assert_eq!(sorted_leaves(&tree), leaves);
        if longest > 0 {
            assert_eq!(tree.node_count(), n + 1);
            let rooted = build_lca_structure(&tree);
            assert_eq!(rooted.depth_len(ends.second), longest / 2);
            assert_eq!(rooted.depth_len(ends.first), longest - longest / 2);
            let again = midpoint_root(&mut tree);
            assert_eq!(again.length, longest);
            let twice = build_lca_structure(&tree);
            assert!(twice.depth_len(n) <= 1);
            assert_eq!(all_distances(&tree, n), before);
        }
    }
}

#[test]
fn reroot_at_the_root_changes_nothing() {
    let mut tree = flatten_raw(&bushy());
    tree.reroot(0);
    assert_eq!(tree.root(), 0);
    assert_eq!(tree.node(0).children, vec![1, 7, 8]);
    assert_eq!(tree.length(1), 5);
}
