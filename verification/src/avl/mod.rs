//! The AVL tree: node model, rebalancing, recursive operations and the
//! public `AvlTree` set type.
pub mod node;
pub mod shape;
pub mod balance;
pub mod ops;
pub mod lemmas;
pub mod tree;
