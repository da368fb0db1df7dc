//! Self-balancing AVL tree of `i32` keys and a singly linked list of `i32`
//! values, with machine-checked contracts.
pub mod avl;
pub mod text;
pub mod linked_list;
pub use avl::tree::AvlTree;
pub use linked_list::LinkedList;
