//! A priority queue of the Fibonacci-heap family with an explicit
//! decrease-priority operation, kept in an arena of integer handles.
pub mod error;
pub mod forest;
pub mod heap;
pub mod laws;
pub mod node;
pub mod order;
pub mod search;
pub mod surgery;
