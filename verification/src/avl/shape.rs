//! The exact trees the operations build. Each function here says, node by
//! node, what the corresponding operation returns; the operations' contracts
//! are equalities with them, so the shape (and so the height) of a tree after
//! any sequence of insertions and deletions is fixed.
use vstd::prelude::*;
use crate::avl::node::{Node, max_of, stored_height};

verus! {

/// `n` with its cached height recomputed from its children's cached heights.
pub open spec fn refreshed(n: Node) -> Box<Node> {
    Box::new(
        Node {
            value: n.value,
            height: (1 + max_of(stored_height(n.left), stored_height(n.right))) as i32,
            left: n.left,
            right: n.right,
        },
    )
}

/// `n` with a new left subtree.
pub open spec fn with_left(n: Node, left: Option<Box<Node>>) -> Node {
    Node { value: n.value, height: n.height, left, right: n.right }
}

/// `n` with a new right subtree.
pub open spec fn with_right(n: Node, right: Option<Box<Node>>) -> Node {
    Node { value: n.value, height: n.height, left: n.left, right }
}

/// A fresh leaf holding `v`.
pub open spec fn leaf_of(v: i32) -> Box<Node> {
    Box::new(Node { value: v, height: 1, left: None, right: None })
}

/// The tree a right rotation at `root` builds (its left child must exist).
pub open spec fn rotated_right(root: Node) -> Box<Node> {
    let l = root.left.unwrap();
    let b = refreshed(with_left(root, l.right));
    refreshed(with_right(*l, Some(b)))
}

/// The tree a left rotation at `root` builds (its right child must exist).
pub open spec fn rotated_left(root: Node) -> Box<Node> {
    let r = root.right.unwrap();
    let b = refreshed(with_right(root, r.left));
    refreshed(with_left(*r, Some(b)))
}

/// The cached left height minus the cached right height of `n`.
pub open spec fn factor(n: Node) -> int {
    stored_height(n.left) - stored_height(n.right)
}

/// The tree `rebalance` builds from `node`: refresh the cached height, then
/// rotate right (after a left rotation of the left child when that child
/// leans right) when the node leans left by more than one, and the mirror
/// image when it leans right by more than one.
pub open spec fn rebalanced(node: Node) -> Box<Node> {
    let n = *refreshed(node);
    if factor(n) > 1 {
        let l = n.left.unwrap();
        if factor(*l) < 0 {
            rotated_right(with_left(n, Some(rotated_left(*l))))
        } else {
            rotated_right(n)
        }
    } else if factor(n) < -1 {
        let r = n.right.unwrap();
        if factor(*r) > 0 {
            rotated_left(with_right(n, Some(rotated_right(*r))))
        } else {
            rotated_left(n)
        }
    } else {
        Box::new(n)
    }
}

/// The tree `insert_node` returns, and whether `v` was added: descend by
/// comparison, add a leaf where the search ends, and rebalance every node on
/// the way back up; a value already present leaves the tree as it is.
pub open spec fn inserted(t: Option<Box<Node>>, v: i32) -> (Option<Box<Node>>, bool)
    decreases t,
{
    match t {
        None => (Some(leaf_of(v)), true),
        Some(n) => {
            if v < n.value {
                let (l, added) = inserted(n.left, v);
                if added {
                    (Some(rebalanced(with_left(*n, l))), true)
                } else {
                    (Some(Box::new(with_left(*n, l))), false)
                }
            } else if v > n.value {
                let (r, added) = inserted(n.right, v);
                if added {
                    (Some(rebalanced(with_right(*n, r))), true)
                } else {
                    (Some(Box::new(with_right(*n, r))), false)
                }
            } else {
                (Some(n), false)
            }
        },
    }
}

/// The tree left after `take_min` removes the leftmost node of `t`, and the
/// value removed; every node on the path is rebalanced.
pub open spec fn without_min(t: Option<Box<Node>>) -> (Option<Box<Node>>, i32)
    decreases t,
{
    match t {
        None => (None, 0),
        Some(n) => match n.left {
            None => (n.right, n.value),
            Some(_) => {
                let (l, m) = without_min(n.left);
                (Some(rebalanced(with_left(*n, l))), m)
            },
        },
    }
}

/// The tree `delete_node` returns, and whether `v` was found: descend by
/// comparison rebalancing on the way back; a found node with one child is
/// replaced by it, one with two children takes the smallest value of its
/// right subtree.
pub open spec fn deleted(t: Option<Box<Node>>, v: i32) -> (Option<Box<Node>>, bool)
    decreases t,
{
    match t {
        None => (None, false),
        Some(n) => {
            if v < n.value {
                let (l, found) = deleted(n.left, v);
                (Some(rebalanced(with_left(*n, l))), found)
            } else if v > n.value {
                let (r, found) = deleted(n.right, v);
                (Some(rebalanced(with_right(*n, r))), found)
            } else {
                let replacement = match (n.left, n.right) {
                    (None, None) => None,
                    (Some(l), None) => Some(l),
                    (None, Some(r)) => Some(r),
                    (Some(l), Some(r)) => {
                        let (rest, succ) = without_min(Some(r));
                        Some(
                            rebalanced(
                                Node { value: succ, height: n.height, left: Some(l), right: rest },
                            ),
                        )
                    },
                };
                (replacement, true)
            }
        },
    }
}

} // verus!
