//! Detection of redundant duplication calls on a control-flow-graph IR: a
//! call that duplicates an owned value right before the value is dropped
//! unused, where moving the value would do.
pub mod borrowers;
pub mod graph;
pub mod ir;
pub mod lint;
pub mod liveness;
pub mod recognize;
pub mod uses;
