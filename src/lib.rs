//! An unbalanced binary search tree keyed by `i64`, with lookup and
//! whole-subtree detachment, verified against a map model.
pub mod tree;

pub use tree::{Node, Tree};
