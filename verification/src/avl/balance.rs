//! Rotations and the rebalancing step that restores the AVL property.
use vstd::prelude::*;
use crate::avl::shape::{rebalanced, rotated_left, rotated_right};
use crate::avl::node::{
    Node, balanced, contents, heights_ok, ht, is_avl, lemma_stored_height, max_of,
    ordered, stored_height,
};

verus! {

/// The cached heights of the three subtrees `a`, `b`, `c` a rotation
/// rearranges are not negative, and the heights it computes, of the node over
/// `b` and `c` and of the new root above it and `a`, fit in an `i32`.
pub open spec fn rotation_fits(a: Option<Box<Node>>, b: Option<Box<Node>>, c: Option<Box<Node>>) -> bool {
    &&& 0 <= stored_height(a)
    &&& 0 <= stored_height(b)
    &&& 0 <= stored_height(c)
    &&& 2 + max_of(stored_height(a), 1 + max_of(stored_height(b), stored_height(c))) <= i32::MAX + 1
}

/// Right rotation: the left child becomes the root, the old root becomes its
/// right child, and the left child's right subtree moves under the old root.
pub fn rotate_right(root: Box<Node>) -> (r: Box<Node>)
    requires
        root.left.is_some(),
        rotation_fits(root.left.unwrap().left, root.left.unwrap().right, root.right),
    ensures
        ({
            let l = root.left.unwrap();
            &&& r.value == l.value
            &&& r.left == l.left
            &&& r.right.is_some()
            &&& r.right.unwrap().value == root.value
            &&& r.right.unwrap().left == l.right
            &&& r.right.unwrap().right == root.right
            &&& r.right.unwrap().height == 1 + max_of(stored_height(l.right), stored_height(root.right))
            &&& r.height == 1 + max_of(stored_height(l.left), stored_height(r.right))
            &&& heights_ok(l.left) && heights_ok(l.right) && heights_ok(root.right)
                ==> heights_ok(Some(r))
        }),
        r == rotated_right(*root),
        contents(Some(r)) == contents(Some(root)),
        ordered(Some(root)) ==> ordered(Some(r)),
{
    let ghost old_root = root;
    let mut root = root;
    let mut new_root = root.left.take().expect("rotate_right needs left child");
    let ghost l = *new_root;
    root.left = new_root.right.take();
    root.update_height();
    let ghost b = *root;
    new_root.right = Some(root);
    new_root.update_height();
    proof {
        assert(contents(Some(old_root)) == contents(Some(Box::new(l))).union(contents(old_root.right)).insert(old_root.value));
        assert(contents(Some(Box::new(l))) == contents(l.left).union(contents(l.right)).insert(l.value));
        assert(contents(Some(Box::new(b))) == contents(l.right).union(contents(old_root.right)).insert(old_root.value));
        assert(contents(Some(new_root)) =~= contents(Some(old_root)));
        if ordered(Some(old_root)) {
            assert(ordered(Some(Box::new(l))));
            assert(contents(Some(Box::new(l))).contains(l.value));
            assert forall|x: i32| #[trigger] contents(l.right).contains(x) implies x < old_root.value by {
                assert(contents(Some(Box::new(l))).contains(x));
            }
            assert(ordered(Some(Box::new(b))));
        }
        if heights_ok(l.left) && heights_ok(l.right) && heights_ok(old_root.right) {
            lemma_stored_height(l.left);
            lemma_stored_height(l.right);
            lemma_stored_height(old_root.right);
            assert(heights_ok(Some(Box::new(b))));
            lemma_stored_height(Some(Box::new(b)));
        }
    }
    new_root
}

/// Left rotation: the mirror image of `rotate_right`.
pub fn rotate_left(root: Box<Node>) -> (r: Box<Node>)
    requires
        root.right.is_some(),
        rotation_fits(root.right.unwrap().right, root.left, root.right.unwrap().left),
    ensures
        ({
            let rr = root.right.unwrap();
            &&& r.value == rr.value
            &&& r.right == rr.right
            &&& r.left.is_some()
            &&& r.left.unwrap().value == root.value
            &&& r.left.unwrap().left == root.left
            &&& r.left.unwrap().right == rr.left
            &&& r.left.unwrap().height == 1 + max_of(stored_height(root.left), stored_height(rr.left))
            &&& r.height == 1 + max_of(stored_height(r.left), stored_height(rr.right))
            &&& heights_ok(rr.left) && heights_ok(rr.right) && heights_ok(root.left)
                ==> heights_ok(Some(r))
        }),
        r == rotated_left(*root),
        contents(Some(r)) == contents(Some(root)),
        ordered(Some(root)) ==> ordered(Some(r)),
{
    let ghost old_root = root;
    let mut root = root;
    let mut new_root = root.right.take().expect("rotate_left needs right child");
    let ghost rr = *new_root;
    root.right = new_root.left.take();
    root.update_height();
    let ghost b = *root;
    new_root.left = Some(root);
    new_root.update_height();
    proof {
        assert(contents(Some(old_root)) == contents(old_root.left).union(contents(Some(Box::new(rr)))).insert(old_root.value));
        assert(contents(Some(Box::new(rr))) == contents(rr.left).union(contents(rr.right)).insert(rr.value));
        assert(contents(Some(Box::new(b))) == contents(old_root.left).union(contents(rr.left)).insert(old_root.value));
        assert(contents(Some(new_root)) =~= contents(Some(old_root)));
        if ordered(Some(old_root)) {
            assert(ordered(Some(Box::new(rr))));
            assert(contents(Some(Box::new(rr))).contains(rr.value));
            assert forall|x: i32| #[trigger] contents(rr.left).contains(x) implies x > old_root.value by {
                assert(contents(Some(Box::new(rr))).contains(x));
            }
            assert(ordered(Some(Box::new(b))));
        }
        if heights_ok(rr.left) && heights_ok(rr.right) && heights_ok(old_root.left) {
            lemma_stored_height(rr.left);
            lemma_stored_height(rr.right);
            lemma_stored_height(old_root.left);
            assert(heights_ok(Some(Box::new(b))));
            lemma_stored_height(Some(Box::new(b)));
        }
    }
    new_root
}


/// What `rebalance` needs of a node whose subtrees are AVL trees but whose
/// own balance may be off by one level after an insertion or a deletion.
pub open spec fn rebalance_input(node: Node) -> bool {
    &&& is_avl(node.left)
    &&& is_avl(node.right)
    &&& ht(node.left) < i32::MAX
    &&& ht(node.right) < i32::MAX
    &&& -2 <= ht(node.left) - ht(node.right) <= 2
    &&& forall|x: i32| #[trigger] contents(node.left).contains(x) ==> x < node.value
    &&& forall|x: i32| #[trigger] contents(node.right).contains(x) ==> x > node.value
}

/// Facts about a node built over two AVL subtrees with correct caches.
proof fn lemma_avl_node(n: Box<Node>)
    requires
        is_avl(n.left),
        is_avl(n.right),
        n.height == 1 + max_of(ht(n.left) as int, ht(n.right) as int),
        -1 <= ht(n.left) - ht(n.right) <= 1,
        forall|x: i32| #[trigger] contents(n.left).contains(x) ==> x < n.value,
        forall|x: i32| #[trigger] contents(n.right).contains(x) ==> x > n.value,
    ensures
        is_avl(Some(n)),
        ht(Some(n)) == n.height,
{
}

/// Restore the AVL property at `node` with at most two rotations, and
/// recompute its cached height.
#[verifier::rlimit(40)]
pub fn rebalance(node: Box<Node>) -> (r: Box<Node>)
    requires
        rebalance_input(*node),
    ensures
        is_avl(Some(r)),
        contents(Some(r)) == contents(Some(node)),
        max_of(ht(node.left) as int, ht(node.right) as int) <= ht(Some(r))
            <= 1 + max_of(ht(node.left) as int, ht(node.right) as int),
        -1 <= ht(node.left) - ht(node.right) <= 1 ==> ht(Some(r)) == 1 + max_of(
            ht(node.left) as int,
            ht(node.right) as int,
        ),
        -1 <= ht(node.left) - ht(node.right) <= 1 ==> {
            &&& r.value == node.value
            &&& r.left == node.left
            &&& r.right == node.right
            &&& r.height == 1 + max_of(ht(node.left) as int, ht(node.right) as int)
        },
        r == rebalanced(*node),
{
    let ghost n0 = node;
    let mut node = node;
    proof {
        lemma_stored_height(node.left);
        lemma_stored_height(node.right);
    }
    node.update_height();
    let bf = node.balance_factor();
    if bf > 1 {
        let ghost l = node.left.unwrap();
        proof {
            assert(heights_ok(l.left) && heights_ok(l.right) && balanced(l.left) && balanced(l.right));
            assert(ordered(l.left) && ordered(l.right));
            lemma_stored_height(l.left);
            lemma_stored_height(l.right);
        }
        if node.left.as_ref().unwrap().balance_factor() < 0 {
            let ghost lr = l.right.unwrap();
            proof {
                assert(heights_ok(lr.left) && heights_ok(lr.right));
                lemma_stored_height(lr.left);
                lemma_stored_height(lr.right);
            }
            let new_left = rotate_left(node.left.take().unwrap());
            proof {
                let a = new_left.left.unwrap();
                assert(ht(new_left.left) == 1 + max_of(ht(a.left) as int, ht(a.right) as int));
                assert(ht(new_left.right) == ht(lr.right));
                lemma_stored_height(new_left.left);
            }
            node.left = Some(new_left);
            let ghost n1 = node;
            let r = rotate_right(node);
            proof {
                let a = r.left.unwrap();
                let b = r.right.unwrap();
                assert(ordered(Some(n1)));
                assert(ordered(Some(r)));
                assert(ordered(Some(a)));
                assert(ordered(Some(b)));
                assert(ht(Some(l)) == 1 + max_of(ht(l.left) as int, ht(l.right) as int));
                assert(ht(l.right) == 1 + max_of(ht(lr.left) as int, ht(lr.right) as int));
                assert(balanced(Some(l)));
                assert(balanced(l.right));
                lemma_avl_node(a);
                lemma_avl_node(b);
                assert(ht(r.left) == ht(Some(a)));
                assert(ht(r.right) == ht(Some(b)));
                assert(is_avl(Some(r)));
            }
            r
        } else {
            let ghost n1 = node;
            let r = rotate_right(node);
            proof {
                let b = r.right.unwrap();
                assert(ordered(Some(n1)));
                assert(ordered(Some(r)));
                assert(ordered(Some(b)));
                assert(ht(Some(l)) == 1 + max_of(ht(l.left) as int, ht(l.right) as int));
                lemma_avl_node(b);
                assert(ht(r.right) == ht(Some(b)));
                assert(is_avl(Some(r)));
            }
            r
        }
    } else if bf < -1 {
        let ghost rt = node.right.unwrap();
        proof {
            assert(heights_ok(rt.left) && heights_ok(rt.right) && balanced(rt.left) && balanced(rt.right));
            assert(ordered(rt.left) && ordered(rt.right));
            lemma_stored_height(rt.left);
            lemma_stored_height(rt.right);
        }
        if node.right.as_ref().unwrap().balance_factor() > 0 {
            let ghost rl = rt.left.unwrap();
            proof {
                assert(heights_ok(rl.left) && heights_ok(rl.right));
                lemma_stored_height(rl.left);
                lemma_stored_height(rl.right);
            }
            let new_right = rotate_right(node.right.take().unwrap());
            proof {
                let b = new_right.right.unwrap();
                assert(ht(new_right.right) == 1 + max_of(ht(b.left) as int, ht(b.right) as int));
                assert(ht(new_right.left) == ht(rl.left));
                lemma_stored_height(new_right.right);
            }
            node.right = Some(new_right);
            let ghost n1 = node;
            let r = rotate_left(node);
            proof {
                let a = r.left.unwrap();
                let b = r.right.unwrap();
                assert(ordered(Some(n1)));
                assert(ordered(Some(r)));
                assert(ordered(Some(a)));
                assert(ordered(Some(b)));
                assert(ht(Some(rt)) == 1 + max_of(ht(rt.left) as int, ht(rt.right) as int));
                assert(ht(rt.left) == 1 + max_of(ht(rl.left) as int, ht(rl.right) as int));
                assert(balanced(Some(rt)));
                assert(balanced(rt.left));
                lemma_avl_node(a);
                lemma_avl_node(b);
                assert(ht(r.left) == ht(Some(a)));
                assert(ht(r.right) == ht(Some(b)));
                assert(is_avl(Some(r)));
            }
            r
        } else {
            let ghost n1 = node;
            let r = rotate_left(node);
            proof {
                let a = r.left.unwrap();
                assert(ordered(Some(n1)));
                assert(ordered(Some(r)));
                assert(ordered(Some(a)));
                assert(ht(Some(rt)) == 1 + max_of(ht(rt.left) as int, ht(rt.right) as int));
                lemma_avl_node(a);
                assert(ht(r.left) == ht(Some(a)));
                assert(is_avl(Some(r)));
            }
            r
        }
    } else {
        proof {
            lemma_avl_node(node);
        }
        node
    }
}

} // verus!
