//! Facts about the subtree model: the values of a search tree are finite and
//! counted by its nodes, its in-order reading is strictly increasing, and an
//! AVL tree of height `h` holds at least `fib(h + 2) - 1` values.
use vstd::prelude::*;
use vstd::arithmetic::power2::{pow2, lemma2_to64, lemma_pow2_unfold, lemma_pow2_strictly_increases};
use vstd::set_lib::lemma_set_disjoint_lens;
use crate::avl::node::{Node, balanced, contents, ht, inorder, ordered, size};

verus! {

/// The Fibonacci numbers: 0, 1, 1, 2, 3, 5, ...
pub open spec fn fib(n: nat) -> nat
    decreases n,
{
    if n == 0 {
        0
    } else if n == 1 {
        1
    } else {
        fib((n - 1) as nat) + fib((n - 2) as nat)
    }
}

/// The values of a search tree form a finite set with one value per node.
pub proof fn lemma_contents_len(t: Option<Box<Node>>)
    requires
        ordered(t),
    ensures
        contents(t).finite(),
        contents(t).len() == size(t),
    decreases t,
{
    match t {
        None => {},
        Some(n) => {
            lemma_contents_len(n.left);
            lemma_contents_len(n.right);
            let a = contents(n.left);
            let b = contents(n.right);
            assert(a.disjoint(b)) by {
                assert forall|x: i32| a.contains(x) implies !b.contains(x) by {
                    assert(x < n.value);
                }
            }
            lemma_set_disjoint_lens(a, b);
            assert(!(a + b).contains(n.value)) by {
                if a.contains(n.value) {
                    assert(n.value < n.value);
                }
                if b.contains(n.value) {
                    assert(n.value > n.value);
                }
            }
        },
    }
}

/// The in-order reading of a search tree is strictly increasing, has one
/// entry per node, and holds exactly the values of the tree.
pub proof fn lemma_inorder(t: Option<Box<Node>>)
    requires
        ordered(t),
    ensures
        inorder(t).len() == size(t),
        forall|i: int| 0 <= i < inorder(t).len() ==> #[trigger] contents(t).contains(inorder(t)[i]),
        forall|x: i32| #[trigger] contents(t).contains(x) ==> inorder(t).contains(x),
        forall|i: int, j: int| 0 <= i < j < inorder(t).len() ==> inorder(t)[i] < inorder(t)[j],
    decreases t,
{
    match t {
        None => {},
        Some(n) => {
            lemma_inorder(n.left);
            lemma_inorder(n.right);
            let l = inorder(n.left);
            let r = inorder(n.right);
            let s = inorder(t);
            assert(s == l + seq![n.value] + r);
            let k = l.len() as int;
            assert forall|i: int| 0 <= i < s.len() implies #[trigger] contents(t).contains(s[i]) by {
                if i < k {
                    assert(s[i] == l[i]);
                    assert(contents(n.left).contains(l[i]));
                } else if i > k {
                    assert(s[i] == r[i - k - 1]);
                    assert(contents(n.right).contains(r[i - k - 1]));
                }
            }
            assert forall|x: i32| #[trigger] contents(t).contains(x) implies s.contains(x) by {
                if contents(n.left).contains(x) {
                    let i = choose|i: int| 0 <= i < l.len() && l[i] == x;
                    assert(s[i] == x);
                } else if contents(n.right).contains(x) {
                    let i = choose|i: int| 0 <= i < r.len() && r[i] == x;
                    assert(s[i + k + 1] == x);
                } else {
                    assert(s[k] == x);
                }
            }
            assert forall|i: int, j: int| 0 <= i < j < s.len() implies s[i] < s[j] by {
                if j < k {
                    assert(s[i] == l[i] && s[j] == l[j]);
                } else if i > k {
                    assert(s[i] == r[i - k - 1] && s[j] == r[j - k - 1]);
                } else {
                    if i < k {
                        assert(s[i] == l[i]);
                        assert(contents(n.left).contains(l[i]));
                    }
                    if j > k {
                        assert(s[j] == r[j - k - 1]);
                        assert(contents(n.right).contains(r[j - k - 1]));
                    }
                }
            }
        },
    }
}

/// The Fibonacci numbers never decrease.
pub proof fn lemma_fib_monotonic(i: nat, j: nat)
    requires
        i <= j,
    ensures
        fib(i) <= fib(j),
    decreases j,
{
    if j > i {
        lemma_fib_monotonic(i, (j - 1) as nat);
        if j >= 2 {
            assert(fib(j) == fib((j - 1) as nat) + fib((j - 2) as nat));
        }
    }
}

/// A balanced tree of height `h` has at least `fib(h + 2) - 1` nodes.
pub proof fn lemma_balanced_size(t: Option<Box<Node>>)
    requires
        balanced(t),
    ensures
        fib(ht(t) + 2) <= size(t) + 1,
    decreases t,
{
    match t {
        None => {
            assert(fib(2) == fib(1) + fib(0));
        },
        Some(n) => {
            lemma_balanced_size(n.left);
            lemma_balanced_size(n.right);
            let hl = ht(n.left);
            let hr = ht(n.right);
            let h = ht(t);
            assert(fib(h + 2) == fib(h + 1) + fib(h as nat));
            if hl >= hr {
                assert(h == hl + 1);
                lemma_fib_monotonic(h as nat, hr + 2);
            } else {
                assert(h == hr + 1);
                lemma_fib_monotonic(h as nat, hl + 2);
            }
        },
    }
}

/// `fib(n + 2)` grows at least as fast as `2^(n / 2)`.
pub proof fn lemma_fib_pow2(n: nat)
    ensures
        pow2(n / 2) <= fib(n + 2),
    decreases n,
{
    if n < 2 {
        lemma2_to64();
        assert(fib(2) == fib(1) + fib(0));
        assert(fib(3) == fib(2) + fib(1));
    } else {
        lemma_fib_pow2((n - 2) as nat);
        lemma_fib_monotonic(n, n + 1);
        assert(fib(n + 2) == fib(n + 1) + fib(n));
        assert((n - 2) as nat / 2 + 1 == n / 2);
        lemma_pow2_unfold(n / 2);
    }
}

/// A balanced tree whose node count fits in a `usize` is at most 129 levels high.
pub proof fn lemma_height_fits(t: Option<Box<Node>>)
    requires
        balanced(t),
        size(t) <= usize::MAX,
    ensures
        ht(t) <= 129,
{
    lemma_balanced_size(t);
    lemma_fib_pow2(ht(t));
    lemma2_to64();
    if ht(t) / 2 > 64 {
        lemma_pow2_strictly_increases(64, ht(t) / 2);
    }
}

/// A binary tree of height `h` has fewer than `2^h` nodes.
pub proof fn lemma_size_pow2(t: Option<Box<Node>>)
    ensures
        size(t) < pow2(ht(t)),
    decreases t,
{
    match t {
        None => {
            lemma2_to64();
        },
        Some(n) => {
            lemma_size_pow2(n.left);
            lemma_size_pow2(n.right);
            let h = ht(t);
            lemma_pow2_unfold(h);
            if ht(n.left) < (h - 1) as nat {
                lemma_pow2_strictly_increases(ht(n.left), (h - 1) as nat);
            }
            if ht(n.right) < (h - 1) as nat {
                lemma_pow2_strictly_increases(ht(n.right), (h - 1) as nat);
            }
        },
    }
}

} // verus!
