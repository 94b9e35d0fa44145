//! An in-memory tree of slash-separated paths: nodes are attached by
//! descending through children whose names match the path's components,
//! and can be looked up in pre-order.

pub mod ancestry;
pub mod display;
pub mod node;
pub mod parse;
pub mod search;
pub mod tree;
