//! Recursive operations on subtrees: insertion, removal of the minimum,
//! deletion, in-order collection, rendering as text and an independent
//! invariant checker.
use vstd::prelude::*;
use crate::avl::balance::{rebalance, rebalance_input};
use crate::avl::shape::{deleted, inserted, without_min};
use crate::avl::node::{Node, contents, ht, inorder, is_avl, max_of};
use crate::text::{lemma_listing_append, listing, write_entry};

verus! {

/// Insert `value` into the subtree `node`. Returns the new subtree and
/// whether the value was absent before.
pub fn insert_node(node: Option<Box<Node>>, value: i32) -> (r: (Option<Box<Node>>, bool))
    requires
        is_avl(node),
        ht(node) < i32::MAX,
    ensures
        is_avl(r.0),
        contents(r.0) == contents(node).insert(value),
        r.1 == !contents(node).contains(value),
        !r.1 ==> r.0 == node,
        ht(node) <= ht(r.0) <= ht(node) + 1,
        r == inserted(node, value),
    decreases ht(node),
{
    match node {
        None => {
            let leaf = Node::leaf(value);
            proof {
                assert(contents(node) == Set::<i32>::empty());
                assert(contents(Some(leaf)) =~= contents(node).insert(value));
            }
            (Some(leaf), true)
        },
        Some(n) => {
            let ghost n0 = n;
            let mut n = n;
            proof {
                assert(ht(node) == 1 + max_of(ht(n.left) as int, ht(n.right) as int));
                assert(contents(node) == contents(n.left).union(contents(n.right)).insert(n.value));
            }
            let inserted = if value < n.value {
                let (new_left, ins) = insert_node(n.left.take(), value);
                n.left = new_left;
                proof {
                    if contents(n0.right).contains(value) {
                        assert(value > n.value);
                    }
                }
                ins
            } else if value > n.value {
                let (new_right, ins) = insert_node(n.right.take(), value);
                n.right = new_right;
                proof {
                    if contents(n0.left).contains(value) {
                        assert(value < n.value);
                    }
                }
                ins
            } else {
                false
            };
            if inserted {
                proof {
                    assert(rebalance_input(*n));
                }
                let r = rebalance(n);
                proof {
                    assert(contents(Some(r)) =~= contents(node).insert(value));
                }
                (Some(r), true)
            } else {
                proof {
                    assert(n == n0);
                }
                (Some(n), false)
            }
        },
    }
}

/// Remove the smallest value of a non-empty subtree. Returns the remaining
/// subtree and the value removed.
pub fn take_min(node: Box<Node>) -> (r: (Option<Box<Node>>, i32))
    requires
        is_avl(Some(node)),
    ensures
        contents(Some(node)).contains(r.1),
        forall|x: i32| #[trigger] contents(Some(node)).contains(x) ==> r.1 <= x,
        contents(r.0) == contents(Some(node)).remove(r.1),
        is_avl(r.0),
        ht(Some(node)) - 1 <= ht(r.0) <= ht(Some(node)),
        r == without_min(Some(node)),
    decreases ht(Some(node)),
{
    let ghost n0 = node;
    let mut node = node;
    proof {
        assert(ht(Some(n0)) == 1 + max_of(ht(n0.left) as int, ht(n0.right) as int));
        assert(contents(Some(n0)) == contents(n0.left).union(contents(n0.right)).insert(n0.value));
    }
    if node.left.is_some() {
        let (new_left, min_value) = take_min(node.left.take().unwrap());
        node.left = new_left;
        proof {
            assert(contents(n0.left).contains(min_value));
            assert(rebalance_input(*node));
        }
        let r = rebalance(node);
        proof {
            assert forall|x: i32| #[trigger] contents(Some(n0)).contains(x) implies min_value <= x by {
                if contents(n0.right).contains(x) || x == n0.value {
                    assert(min_value < n0.value);
                }
            }
            assert(contents(Some(r)) =~= contents(Some(n0)).remove(min_value));
        }
        (Some(r), min_value)
    } else {
        let rest = node.right.take();
        proof {
            assert(contents(n0.left) == Set::<i32>::empty());
            assert(!contents(n0.right).contains(n0.value));
            assert(contents(rest) =~= contents(Some(n0)).remove(n0.value));
        }
        (rest, node.value)
    }
}

/// Delete `value` from the subtree `node`. Returns the new subtree and
/// whether the value was present.
pub fn delete_node(node: Option<Box<Node>>, value: i32) -> (r: (Option<Box<Node>>, bool))
    requires
        is_avl(node),
    ensures
        is_avl(r.0),
        contents(r.0) == contents(node).remove(value),
        r.1 == contents(node).contains(value),
        !r.1 ==> r.0 == node,
        ht(node) - 1 <= ht(r.0) <= ht(node),
        r == deleted(node, value),
    decreases ht(node),
{
    match node {
        None => {
            proof {
                assert(contents(node) =~= contents(node).remove(value));
            }
            (None, false)
        },
        Some(n) => {
            let ghost n0 = n;
            let mut n = n;
            proof {
                assert(ht(node) == 1 + max_of(ht(n.left) as int, ht(n.right) as int));
                assert(contents(node) == contents(n.left).union(contents(n.right)).insert(n.value));
            }
            if value < n.value {
                let (new_left, found) = delete_node(n.left.take(), value);
                n.left = new_left;
                proof {
                    if contents(n0.right).contains(value) {
                        assert(value > n.value);
                    }
                    assert(rebalance_input(*n));
                }
                let r = rebalance(n);
                proof {
                    assert(contents(Some(r)) =~= contents(node).remove(value));
                    if !found {
                        assert(*r == *n0);
                    }
                }
                (Some(r), found)
            } else if value > n.value {
                let (new_right, found) = delete_node(n.right.take(), value);
                n.right = new_right;
                proof {
                    if contents(n0.left).contains(value) {
                        assert(value < n.value);
                    }
                    assert(rebalance_input(*n));
                }
                let r = rebalance(n);
                proof {
                    assert(contents(Some(r)) =~= contents(node).remove(value));
                    if !found {
                        assert(*r == *n0);
                    }
                }
                (Some(r), found)
            } else {
                proof {
                    assert(!contents(n0.left).contains(value));
                    assert(!contents(n0.right).contains(value));
                }
                let replacement = match (n.left.take(), n.right.take()) {
                    (None, None) => {
                        proof {
                            assert(contents(node).remove(value) =~= Set::<i32>::empty());
                        }
                        None
                    },
                    (Some(l), None) => {
                        proof {
                            assert(contents(node).remove(value) =~= contents(Some(l)));
                        }
                        Some(l)
                    },
                    (None, Some(r)) => {
                        proof {
                            assert(contents(node).remove(value) =~= contents(Some(r)));
                        }
                        Some(r)
                    },
                    (Some(l), Some(r)) => {
                        let (new_right, succ) = take_min(r);
                        proof {
                            assert(succ > value);
                            assert forall|x: i32| #[trigger] contents(new_right).contains(x) implies x > succ by {
                                assert(contents(Some(r)).contains(x));
                            }
                            assert forall|x: i32| #[trigger] contents(Some(l)).contains(x) implies x < succ by {
                                assert(x < value);
                            }
                        }
                        n.value = succ;
                        n.left = Some(l);
                        n.right = new_right;
                        proof {
                            assert(rebalance_input(*n));
                        }
                        let b = rebalance(n);
                        proof {
                            assert(contents(Some(b)) =~= contents(node).remove(value));
                        }
                        Some(b)
                    },
                };
                (replacement, true)
            }
        },
    }
}

/// Append the values of `node` to `out`, in order.
pub fn collect_inorder(node: &Option<Box<Node>>, out: &mut Vec<i32>)
    ensures
        final(out)@ == old(out)@ + inorder(*node),
    decreases ht(*node),
{
    match node {
        None => {
            assert(old(out)@ + inorder(*node) =~= old(out)@);
        },
        Some(n) => {
            assert(ht(*node) == 1 + max_of(ht(n.left) as int, ht(n.right) as int));
            collect_inorder(&n.left, out);
            out.push(n.value);
            collect_inorder(&n.right, out);
            assert(final(out)@ =~= old(out)@ + inorder(*node));
        },
    }
}

/// Append the values of `node` to `out` as entries of a listing (see
/// `text::listing`); `*first` tells whether no entry has been written yet.
pub fn write_inorder(node: &Option<Box<Node>>, out: &mut String, first: &mut bool)
    ensures
        final(out)@ == old(out)@ + listing(inorder(*node), *old(first)),
        *final(first) == (*old(first) && inorder(*node).len() == 0),
    decreases ht(*node),
{
    match node {
        None => {
            assert(old(out)@ + listing(inorder(*node), *old(first)) =~= old(out)@);
        },
        Some(n) => {
            assert(ht(*node) == 1 + max_of(ht(n.left) as int, ht(n.right) as int));
            let ghost f0 = *first;
            write_inorder(&n.left, out, first);
            let ghost f1 = *first;
            write_entry(out, first, n.value);
            write_inorder(&n.right, out, first);
            proof {
                let l = inorder(n.left);
                let r = inorder(n.right);
                lemma_listing_append(l, seq![n.value], f0);
                lemma_listing_append(l + seq![n.value], r, f0);
                assert(inorder(*node) == l + seq![n.value] + r);
                assert(final(out)@ =~= old(out)@ + listing(inorder(*node), f0));
            }
        },
    }
}

/// `x` lies above the optional lower bound.
pub open spec fn above(x: i32, lower: Option<i32>) -> bool {
    match lower {
        None => true,
        Some(lo) => x > lo,
    }
}

/// `x` lies below the optional upper bound.
pub open spec fn below(x: i32, upper: Option<i32>) -> bool {
    match upper {
        None => true,
        Some(hi) => x < hi,
    }
}

/// Every value of the subtree lies strictly between the optional bounds.
pub open spec fn within(t: Option<Box<Node>>, lower: Option<i32>, upper: Option<i32>) -> bool {
    forall|x: i32| #[trigger] contents(t).contains(x) ==> above(x, lower) && below(x, upper)
}

/// Walk the whole subtree checking every AVL invariant at every node (each
/// value strictly between the bounds inherited from its ancestors, cached
/// heights equal to the heights computed from the children, balance factors
/// within one) and return the subtree's height. On a subtree that satisfies
/// them, which the `requires` demands, every check succeeds.
pub fn check_node(node: &Option<Box<Node>>, lower: Option<i32>, upper: Option<i32>) -> (r: i32)
    requires
        is_avl(*node),
        within(*node, lower, upper),
    ensures
        r == ht(*node),
    decreases ht(*node),
{
    match node {
        None => 0,
        Some(n) => {
            let ghost t = *node;
            proof {
                assert(ht(t) == 1 + max_of(ht(n.left) as int, ht(n.right) as int));
                assert(contents(t) == contents(n.left).union(contents(n.right)).insert(n.value));
                assert(contents(t).contains(n.value));
                assert(above(n.value, lower) && below(n.value, upper));
                assert forall|x: i32| #[trigger] contents(n.left).contains(x)
                    implies above(x, lower) && below(x, Some(n.value)) by {
                    assert(contents(t).contains(x));
                }
                assert forall|x: i32| #[trigger] contents(n.right).contains(x)
                    implies above(x, Some(n.value)) && below(x, upper) by {
                    assert(contents(t).contains(x));
                }
            }
            let lh = check_node(&n.left, lower, Some(n.value));
            let rh = check_node(&n.right, Some(n.value), upper);
            proof {
                assert(-1 <= lh - rh <= 1);
                assert(n.height == 1 + max_of(lh as int, rh as int));
            }
            n.height
        },
    }
}

} // verus!
