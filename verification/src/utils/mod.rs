//! Small utilities: hashing and counting.
pub mod hash_utils;
pub mod hash_map_utils;
pub mod colors;
pub mod graph;
pub mod interval_tree;
pub mod suffix_tree_slice;
