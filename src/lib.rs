//! A buddy-system block tree: a complete binary tree laid over a contiguous
//! address range, with one allocation bit per node.
pub mod def;
pub mod treemap;
pub mod tree;
pub mod laws;
