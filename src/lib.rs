//! An arithmetic expression calculator core: an index-based binary tree, a
//! post-order walk over it, a tokenizer, and a builder that turns tokens into
//! an expression tree by local tree surgery.

pub mod tree;
pub mod linked;
pub mod calc;
pub mod shape;
pub mod editor;
