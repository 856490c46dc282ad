pub mod constant_folding;
pub mod fix_nodes;
pub mod tree_pruning;
