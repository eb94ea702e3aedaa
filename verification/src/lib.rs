//! Pairwise leaf distances of a rooted phylogenetic tree, computed in exact
//! integer arithmetic over a flat, index-based tree.

pub mod ancestry;
pub mod distance;
pub mod lca;
pub mod leaves;
pub mod midpoint;
pub mod newick;
pub mod reroot;
pub mod tree;
