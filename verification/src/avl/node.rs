//! Tree nodes and the mathematical model of a subtree.
use vstd::prelude::*;

verus! {

/// One node of the tree. `height` caches the height of the subtree rooted here.
pub struct Node {
    pub value: i32,
    pub height: i32,
    pub left: Option<Box<Node>>,
    pub right: Option<Box<Node>>,
}

/// The larger of two integers.
pub open spec fn max_of(a: int, b: int) -> int {
    if a >= b {
        a
    } else {
        b
    }
}

/// Height of a subtree computed from its shape: 0 for the empty tree.
pub open spec fn ht(t: Option<Box<Node>>) -> nat
    decreases t,
{
    match t {
        None => 0,
        Some(n) => 1 + max_of(ht(n.left) as int, ht(n.right) as int) as nat,
    }
}

/// Height cached at the root of a subtree, 0 for the empty tree.
pub open spec fn stored_height(t: Option<Box<Node>>) -> int {
    match t {
        None => 0,
        Some(n) => n.height as int,
    }
}

/// Number of nodes.
pub open spec fn size(t: Option<Box<Node>>) -> nat
    decreases t,
{
    match t {
        None => 0,
        Some(n) => size(n.left) + size(n.right) + 1,
    }
}

/// The set of values stored in a subtree.
pub open spec fn contents(t: Option<Box<Node>>) -> Set<i32>
    decreases t,
{
    match t {
        None => Set::empty(),
        Some(n) => contents(n.left).union(contents(n.right)).insert(n.value),
    }
}

/// The values of a subtree read in order: left subtree, root, right subtree.
pub open spec fn inorder(t: Option<Box<Node>>) -> Seq<i32>
    decreases t,
{
    match t {
        None => Seq::empty(),
        Some(n) => inorder(n.left) + seq![n.value] + inorder(n.right),
    }
}

/// Every value in the left subtree of a node is smaller than the node's
/// value, every value in its right subtree is larger, at every node.
pub open spec fn ordered(t: Option<Box<Node>>) -> bool
    decreases t,
{
    match t {
        None => true,
        Some(n) => {
            &&& forall|x: i32| #[trigger] contents(n.left).contains(x) ==> x < n.value
            &&& forall|x: i32| #[trigger] contents(n.right).contains(x) ==> x > n.value
            &&& ordered(n.left)
            &&& ordered(n.right)
        },
    }
}

/// Every cached height equals the height computed from the shape.
pub open spec fn heights_ok(t: Option<Box<Node>>) -> bool
    decreases t,
{
    match t {
        None => true,
        Some(n) => {
            &&& n.height as int == ht(Some(n))
            &&& heights_ok(n.left)
            &&& heights_ok(n.right)
        },
    }
}

/// At every node the heights of the two subtrees differ by at most one.
pub open spec fn balanced(t: Option<Box<Node>>) -> bool
    decreases t,
{
    match t {
        None => true,
        Some(n) => {
            &&& -1 <= ht(n.left) - ht(n.right) <= 1
            &&& balanced(n.left)
            &&& balanced(n.right)
        },
    }
}

/// A well-formed AVL subtree: a search tree, with correct cached heights,
/// balanced at every node.
pub open spec fn is_avl(t: Option<Box<Node>>) -> bool {
    &&& ordered(t)
    &&& heights_ok(t)
    &&& balanced(t)
}

/// Reading the cached height of a subtree of correct heights gives its height.
pub proof fn lemma_stored_height(t: Option<Box<Node>>)
    requires
        heights_ok(t),
    ensures
        stored_height(t) == ht(t),
{
}

impl Node {
    /// A fresh node with no children.
    pub fn leaf(value: i32) -> (r: Box<Node>)
        ensures
            r.value == value,
            r.height == 1,
            r.left.is_none(),
            r.right.is_none(),
            is_avl(Some(r)),
            contents(Some(r)) == set![value],
            ht(Some(r)) == 1,
    {
        let r = Box::new(Node { value, height: 1, left: None, right: None });
        assert(contents(r.left) == Set::<i32>::empty());
        assert(ht(r.left) == 0 && heights_ok(r.left) && ordered(r.left) && balanced(r.left));
        assert(contents(Some(r)) =~= set![value]);
        r
    }

    /// Recompute the cached height from the cached heights of the children.
    pub fn update_height(&mut self)
        requires
            stored_height(old(self).left) < i32::MAX,
            stored_height(old(self).right) < i32::MAX,
        ensures
            final(self).value == old(self).value,
            final(self).left == old(self).left,
            final(self).right == old(self).right,
            final(self).height == 1 + max_of(
                stored_height(old(self).left),
                stored_height(old(self).right),
            ),
    {
        let hl = height(&self.left);
        let hr = height(&self.right);
        self.height = 1 + if hl >= hr {
            hl
        } else {
            hr
        };
    }

    /// Height of the left subtree minus height of the right subtree, read
    /// from the cached heights.
    pub fn balance_factor(&self) -> (r: i32)
        requires
            0 <= stored_height(self.left),
            0 <= stored_height(self.right),
        ensures
            r == stored_height(self.left) - stored_height(self.right),
    {
        height(&self.left) - height(&self.right)
    }
}

/// Cached height of a subtree, 0 for the empty tree.
pub fn height(node: &Option<Box<Node>>) -> (r: i32)
    ensures
        r == stored_height(*node),
{
    match node {
        None => 0,
        Some(n) => n.height,
    }
}

} // verus!
