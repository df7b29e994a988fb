//! A balanced search tree that stores a set of integers as disjoint,
//! maximally merged closed intervals.

pub mod avl_tree;
mod balance;
mod delete;
mod insert;
pub mod interval;
mod node;
pub mod outline;
pub mod query;
pub mod rotate;
pub mod scalar;
pub mod traits;

pub use avl_tree::AVLIntervalTree;
pub use interval::{Interval, IntervalError};
pub use rotate::AVLCase;
pub use scalar::Scalar;
pub use traits::IntervalTree;
