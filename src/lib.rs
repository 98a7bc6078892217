//! A last-in-first-out stack of `i32` values, kept as a singly linked chain
//! of uniquely owned nodes and released node by node.

pub mod laws;
pub mod stack;

pub use stack::List;
