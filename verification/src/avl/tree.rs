//! `AvlTree`: a set of `i32` values kept in a self-balancing search tree.
use vstd::prelude::*;
use vstd::arithmetic::power2::pow2;
use crate::avl::lemmas::{
    fib, lemma_balanced_size, lemma_contents_len, lemma_height_fits, lemma_inorder,
    lemma_size_pow2,
};
use crate::avl::node::{
    Node, contents, height, ht, inorder, is_avl, lemma_stored_height, max_of, ordered, size,
};
use crate::avl::ops::{
    check_node, collect_inorder, delete_node, insert_node, within, write_inorder,
};
use crate::avl::shape::{deleted, inserted};
use crate::text::{bracketed, decimal, lemma_bracketed_push};

verus! {

/// A self-balancing AVL tree of `i32` keys.
///
/// Acts as a set: each value appears at most once. Its height `h` satisfies
/// `fib(h + 2) <= len + 1`, so `h` is at most about `1.44 * log2(len + 1)` and every
/// operation is `O(log n)`.
pub struct AvlTree {
    root: Option<Box<Node>>,
    len: usize,
}

impl View for AvlTree {
    type V = Set<i32>;

    /// The set of values in the tree.
    closed spec fn view(&self) -> Set<i32> {
        contents(self.root)
    }
}

impl AvlTree {
    /// The tree is a search tree with correct cached heights, balanced at
    /// every node, and `len` counts its nodes.
    pub closed spec fn wf(&self) -> bool {
        &&& is_avl(self.root)
        &&& self.len == size(self.root)
    }

    /// The nodes of the tree, as the operations of `avl::shape` build them.
    pub closed spec fn shape(&self) -> Option<Box<Node>> {
        self.root
    }

    /// Height of the tree: 0 when empty, 1 for a single node.
    pub open spec fn tree_height(&self) -> nat {
        ht(self.shape())
    }

    /// The values of the tree, read in order.
    pub open spec fn values(&self) -> Seq<i32> {
        inorder(self.shape())
    }

    /// Create an empty tree.
    pub fn new() -> (t: Self)
        ensures
            t.wf(),
            t@ == Set::<i32>::empty(),
            t.shape() == None::<Box<Node>>,
            t.tree_height() == 0,
    {
        AvlTree { root: None, len: 0 }
    }

    /// Number of distinct values currently in the tree.
    pub fn len(&self) -> (r: usize)
        requires
            self.wf(),
        ensures
            r == self@.len(),
    {
        proof {
            lemma_contents_len(self.root);
        }
        self.len
    }

    /// `true` if the tree contains no values.
    pub fn is_empty(&self) -> (r: bool)
        requires
            self.wf(),
        ensures
            r == (self@.len() == 0),
            r == (self@ == Set::<i32>::empty()),
    {
        proof {
            lemma_contents_len(self.root);
            if self.len == 0 {
                assert(self.root.is_none());
            } else {
                assert(contents(self.root).contains(self.root.unwrap().value));
            }
        }
        self.len == 0
    }

    /// Height of the tree. An empty tree has height 0; a single-node tree has
    /// height 1. Bounded above by about `1.44 * log2(n + 1)`: `fib(h + 2) <= n + 1`.
    pub fn height(&self) -> (r: i32)
        requires
            self.wf(),
        ensures
            r == self.tree_height(),
            fib(self.tree_height() + 2) <= self@.len() + 1,
            self@.len() < pow2(self.tree_height()),
            r == 0 <==> self@.len() == 0,
            self@.len() == 1 ==> r == 1,
    {
        proof {
            lemma_stored_height(self.root);
            lemma_height_logarithmic(self);
        }
        height(&self.root)
    }

    /// Insert `value`. Returns `true` if the value was newly inserted,
    /// `false` if it was already present.
    pub fn insert(&mut self, value: i32) -> (r: bool)
        requires
            old(self).wf(),
            old(self)@.len() < usize::MAX,
        ensures
            final(self).wf(),
            final(self)@ == old(self)@.insert(value),
            r == !old(self)@.contains(value),
            !r ==> *final(self) == *old(self),
            !r ==> final(self).tree_height() == old(self).tree_height(),
            final(self).shape() == inserted(old(self).shape(), value).0,
    {
        proof {
            lemma_contents_len(self.root);
            lemma_height_fits(self.root);
        }
        let (new_root, added) = insert_node(self.root.take(), value);
        self.root = new_root;
        proof {
            lemma_contents_len(self.root);
        }
        if added {
            self.len = self.len + 1;
        }
        added
    }

    /// `true` if the value is present in the tree.
    pub fn find(&self, value: i32) -> (r: bool)
        requires
            self.wf(),
        ensures
            r == self@.contains(value),
    {
        let mut current = &self.root;
        loop
            invariant
                ordered(*current),
                contents(self.root).contains(value) == contents(*current).contains(value),
            decreases ht(*current),
        {
            match current {
                None => {
                    return false;
                },
                Some(node) => {
                    proof {
                        assert(ht(*current) == 1 + max_of(ht(node.left) as int, ht(node.right) as int));
                        assert(contents(*current) == contents(node.left).union(contents(node.right)).insert(node.value));
                    }
                    if value == node.value {
                        return true;
                    }
                    proof {
                        if value < node.value && contents(node.right).contains(value) {
                            assert(value > node.value);
                        }
                        if value > node.value && contents(node.left).contains(value) {
                            assert(value < node.value);
                        }
                    }
                    current = if value < node.value {
                        &node.left
                    } else {
                        &node.right
                    };
                },
            }
        }
    }

    /// Remove `value`. Returns `true` if the value was present and removed,
    /// `false` if it was not in the tree.
    pub fn delete(&mut self, value: i32) -> (r: bool)
        requires
            old(self).wf(),
        ensures
            final(self).wf(),
            final(self)@ == old(self)@.remove(value),
            r == old(self)@.contains(value),
            !r ==> *final(self) == *old(self),
            !r ==> final(self).tree_height() == old(self).tree_height(),
            final(self).shape() == deleted(old(self).shape(), value).0,
    {
        proof {
            lemma_contents_len(self.root);
        }
        let (new_root, removed) = delete_node(self.root.take(), value);
        self.root = new_root;
        proof {
            lemma_contents_len(self.root);
        }
        if removed {
            self.len = self.len - 1;
        }
        removed
    }

    /// Collect all values into a sorted `Vec` via in-order traversal.
    pub fn to_vec(&self) -> (r: Vec<i32>)
        requires
            self.wf(),
        ensures
            r@ == self.values(),
            r@.len() == self@.len(),
            forall|i: int, j: int| 0 <= i < j < r@.len() ==> r@[i] < r@[j],
            forall|x: i32| self@.contains(x) <==> r@.contains(x),
    {
        proof {
            lemma_inorder(self.root);
            lemma_contents_len(self.root);
        }
        let mut out = Vec::with_capacity(self.len);
        collect_inorder(&self.root, &mut out);
        assert(out@ =~= inorder(self.root));
        proof {
            assert forall|x: i32| self@.contains(x) <==> out@.contains(x) by {
                if out@.contains(x) {
                    let i = choose|i: int| 0 <= i < out@.len() && out@[i] == x;
                    assert(contents(self.root).contains(inorder(self.root)[i]));
                }
            }
        }
        out
    }

    /// The values in order, written as `[a, b, c]`.
    pub fn to_string(&self) -> (r: String)
        requires
            self.wf(),
        ensures
            r@ == bracketed(self.values()),
    {
        let mut out = String::new();
        proof {
            reveal_strlit("[");
            reveal_strlit("]");
        }
        out.append("[");
        let mut first = true;
        write_inorder(&self.root, &mut out, &mut first);
        out.append("]");
        assert(out@ =~= bracketed(self.values()));
        out
    }

    /// Verify all AVL invariants (search order, cached heights, balance at
    /// every node) by a full walk of the tree, and return the tree's height.
    pub fn check_invariants(&self) -> (r: i32)
        requires
            self.wf(),
        ensures
            r == self.tree_height(),
    {
        assert(within(self.root, None, None));
        check_node(&self.root, None, None)
    }
}

impl Default for AvlTree {
    fn default() -> (t: Self)
        ensures
            t.wf(),
            t@ == Set::<i32>::empty(),
    {
        Self::new()
    }
}

/// Height law: an AVL tree of height `h` holding `n` values has
/// `fib(h + 2) <= n + 1 <= 2^h`, so `log2(n + 1) <= h`, and `h` is at most about
/// `1.44 * log2(n + 1)`; the empty tree alone has height 0 and a one-value
/// tree has height 1.
pub proof fn lemma_height_logarithmic(t: &AvlTree)
    requires
        t.wf(),
    ensures
        fib(t.tree_height() + 2) <= t@.len() + 1,
        t@.len() < pow2(t.tree_height()),
        t.tree_height() == 0 <==> t@.len() == 0,
        t@.len() == 1 ==> t.tree_height() == 1,
{
    lemma_balanced_size(t.root);
    lemma_size_pow2(t.root);
    lemma_contents_len(t.root);
    match t.root {
        None => {},
        Some(n) => {
            assert(contents(t.root).contains(n.value));
            if size(t.root) == 1 {
                assert(size(n.left) == 0 && size(n.right) == 0);
                assert(n.left.is_none() && n.right.is_none());
            }
        },
    }
}

/// In-order law: the values read in order (what `to_vec` returns and
/// `to_string` writes) are strictly increasing and are exactly the values of
/// the tree, one entry each.
pub proof fn lemma_values_enumerate(t: &AvlTree)
    requires
        t.wf(),
    ensures
        t.values().len() == t@.len(),
        forall|i: int, j: int| 0 <= i < j < t.values().len() ==> t.values()[i] < t.values()[j],
        forall|x: i32| t@.contains(x) <==> t.values().contains(x),
{
    lemma_inorder(t.root);
    lemma_contents_len(t.root);
    assert forall|x: i32| t@.contains(x) <==> t.values().contains(x) by {
        if t.values().contains(x) {
            let i = choose|i: int| 0 <= i < t.values().len() && t.values()[i] == x;
            assert(contents(t.root).contains(inorder(t.root)[i]));
        }
    }
}

/// Insert law: after `insert(v)` the tree holds `v`, every other value is
/// held exactly when it was before, and the count grows by one exactly when
/// `v` was absent (a repeated insert changes nothing).
pub proof fn lemma_insert_law(t: &AvlTree, v: i32)
    requires
        t.wf(),
    ensures
        t@.insert(v).contains(v),
        forall|w: i32| w != v ==> (t@.insert(v).contains(w) <==> t@.contains(w)),
        t@.insert(v).len() == t@.len() + (if t@.contains(v) { 0int } else { 1int }),
        t@.insert(v).insert(v) == t@.insert(v),
{
    lemma_contents_len(t.root);
    assert(t@.insert(v).insert(v) =~= t@.insert(v));
    if t@.contains(v) {
        assert(t@.insert(v) =~= t@);
    }
}

/// Delete law: after `delete(v)` the tree no longer holds `v`, every other
/// value is held exactly when it was before, and the count shrinks by one
/// exactly when `v` was present.
pub proof fn lemma_delete_law(t: &AvlTree, v: i32)
    requires
        t.wf(),
    ensures
        !t@.remove(v).contains(v),
        forall|w: i32| w != v ==> (t@.remove(v).contains(w) <==> t@.contains(w)),
        t@.remove(v).len() == t@.len() - (if t@.contains(v) { 1int } else { 0int }),
{
    lemma_contents_len(t.root);
    if !t@.contains(v) {
        assert(t@.remove(v) =~= t@);
    }
}

/// Deleting a value that was just inserted into a tree that did not hold it
/// gives back the original set of values.
pub proof fn lemma_delete_undoes_insert(t: &AvlTree, v: i32)
    requires
        t.wf(),
        !t@.contains(v),
    ensures
        t@.insert(v).remove(v) == t@,
{
    assert(t@.insert(v).remove(v) =~= t@);
}

/// Two strictly increasing sequences holding the same values are equal.
proof fn lemma_sorted_unique(a: Seq<i32>, b: Seq<i32>)
    requires
        forall|i: int, j: int| 0 <= i < j < a.len() ==> a[i] < a[j],
        forall|i: int, j: int| 0 <= i < j < b.len() ==> b[i] < b[j],
        forall|x: i32| a.contains(x) <==> b.contains(x),
    ensures
        a == b,
    decreases a.len(),
{
    if a.len() == 0 {
        if b.len() > 0 {
            assert(b.contains(b[0]));
        }
        assert(a =~= b);
    } else {
        assert(a.contains(a[0]));
        assert(b.len() > 0);
        assert(b.contains(b[0]));
        let j = choose|j: int| 0 <= j < b.len() && b[j] == a[0];
        let i = choose|i: int| 0 <= i < a.len() && a[i] == b[0];
        if j > 0 {
            assert(b[0] < b[j]);
            if i > 0 {
                assert(a[0] < a[i]);
            }
        }
        assert(a[0] == b[0]);
        let a1 = a.drop_first();
        let b1 = b.drop_first();
        assert forall|x: i32| a1.contains(x) <==> b1.contains(x) by {
            if a1.contains(x) {
                let k = choose|k: int| 0 <= k < a1.len() && a1[k] == x;
                assert(a[k + 1] == x);
                assert(a[0] < a[k + 1]);
                assert(b.contains(x));
                let m = choose|m: int| 0 <= m < b.len() && b[m] == x;
                assert(m != 0);
                assert(b1[m - 1] == x);
            }
            if b1.contains(x) {
                let k = choose|k: int| 0 <= k < b1.len() && b1[k] == x;
                assert(b[k + 1] == x);
                assert(b[0] < b[k + 1]);
                assert(a.contains(x));
                let m = choose|m: int| 0 <= m < a.len() && a[m] == x;
                assert(m != 0);
                assert(a1[m - 1] == x);
            }
        }
        lemma_sorted_unique(a1, b1);
        assert(a =~= seq![a[0]] + a1);
        assert(b =~= seq![b[0]] + b1);
    }
}

/// The in-order reading (and so the text) depends on the set of values
/// alone: two trees holding the same values read the same, whatever their
/// shapes.
pub proof fn lemma_values_of_same_set(t: &AvlTree, u: &AvlTree)
    requires
        t.wf(),
        u.wf(),
        t@ == u@,
    ensures
        t.values() == u.values(),
{
    lemma_values_enumerate(t);
    lemma_values_enumerate(u);
    lemma_sorted_unique(t.values(), u.values());
}

/// Text law for insertion of a new largest value: the tree `u` that holds
/// the values of `t` and `x`, larger than all of them, reads as `t` followed
/// by `x`, and its text is the text of `t` with `", x"` (just `x` when `t` is
/// empty) written before the closing `]`.
pub proof fn lemma_text_after_insert_largest(t: &AvlTree, u: &AvlTree, x: i32)
    requires
        t.wf(),
        u.wf(),
        u@ == t@.insert(x),
        forall|y: i32| t@.contains(y) ==> y < x,
    ensures
        u.values() == t.values().push(x),
        bracketed(u.values()) == bracketed(t.values()).drop_last() + (if t@.len() == 0 {
            Seq::<char>::empty()
        } else {
            seq![',', ' ']
        }) + decimal(x as int) + seq![']'],
{
    lemma_values_enumerate(t);
    lemma_values_enumerate(u);
    let a = t.values().push(x);
    assert forall|i: int, j: int| 0 <= i < j < a.len() implies a[i] < a[j] by {
        if j == a.len() - 1 {
            assert(t.values().contains(a[i]));
        }
    }
    assert forall|y: i32| a.contains(y) <==> u.values().contains(y) by {
        if a.contains(y) {
            let k = choose|k: int| 0 <= k < a.len() && a[k] == y;
            if k < t.values().len() {
                assert(t.values().contains(y));
            }
        }
        if u.values().contains(y) && y != x {
            assert(t.values().contains(y));
            let k = choose|k: int| 0 <= k < t.values().len() && t.values()[k] == y;
            assert(a[k] == y);
        }
        if y == x {
            assert(a[a.len() - 1] == x);
        }
    }
    lemma_sorted_unique(a, u.values());
    lemma_bracketed_push(t.values(), x);
}

} // verus!
