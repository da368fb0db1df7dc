use avl_tree::AvlTree;
use std::collections::BTreeSet;

// Deterministic LCG so tests are reproducible without an external RNG dep.
struct Lcg(u64);

impl Lcg {
    fn new(seed: u64) -> Self {
        Lcg(seed)
    }

    fn next(&mut self) -> u64 {
        self.0 = self
            .0
            .wrapping_mul(6364136223846793005)
            .wrapping_add(1442695040888963407);
        self.0
    }
}

#[test]
fn new_is_empty() {
    let t = AvlTree::new();
    assert!(t.is_empty());
    assert_eq!(t.len(), 0);
    assert_eq!(t.height(), 0);
    assert!(!t.find(0));
    assert_eq!(t.to_vec(), Vec::<i32>::new());
    t.check_invariants();
}

#[test]
fn single_insert_find_delete() {
    let mut t = AvlTree::new();
    assert!(t.insert(42));
    assert_eq!(t.len(), 1);
    assert_eq!(t.height(), 1);
    assert!(t.find(42));
    assert!(!t.find(41));
    t.check_invariants();

    assert!(t.delete(42));
    assert!(t.is_empty());
    assert_eq!(t.height(), 0);
    t.check_invariants();
}

#[test]
fn duplicate_insert_is_noop() {
    let mut t = AvlTree::new();
    assert!(t.insert(7));
    assert!(!t.insert(7)); // second insert reports "already present"
    assert_eq!(t.len(), 1);
    t.check_invariants();
}

#[test]
fn delete_missing_returns_false() {
    let mut t = AvlTree::new();
    assert!(!t.delete(1)); // empty tree
    t.insert(5);
    t.insert(10);
    assert!(!t.delete(7)); // present-keys-only
    assert_eq!(t.len(), 2);
    t.check_invariants();
}

#[test]
fn monotonic_insert_stays_logarithmic() {
    // Worst case for a naive BST: ascending input would build a right
    // spine of height N. AVL must keep height <= 1.44 * log2(N+1).
    let mut t = AvlTree::new();
    let n = 1023;
    for v in 0..n {
        t.insert(v);
    }
    t.check_invariants();
    assert_eq!(t.len() as i32, n);
    // log2(1024) = 10, so a hard upper bound of 14 (1.44 * 10) is loose.
    assert!(t.height() <= 14, "height {} too large for n={n}", t.height());
}

#[test]
fn descending_insert_stays_logarithmic() {
    let mut t = AvlTree::new();
    for v in (0..1023).rev() {
        t.insert(v);
    }
    t.check_invariants();
    assert!(t.height() <= 14);
}

#[test]
fn delete_root_with_two_children() {
    // Build a small tree where the root has two children, then delete
    // the root. Exercises the in-order-successor (take_min) branch.
    let mut t = AvlTree::new();
    for v in [10, 5, 15, 3, 7, 12, 20] {
        t.insert(v);
    }
    assert!(t.find(10));
    assert!(t.delete(10));
    assert!(!t.find(10));
    assert_eq!(t.len(), 6);
    // Surviving values must still be sorted in-order.
    assert_eq!(t.to_vec(), vec![3, 5, 7, 12, 15, 20]);
    t.check_invariants();
}

#[test]
fn inorder_is_sorted() {
    let mut t = AvlTree::new();
    for v in [50, 30, 70, 20, 40, 60, 80, 10] {
        t.insert(v);
    }
    let sorted = t.to_vec();
    let mut expected = sorted.clone();
    expected.sort_unstable();
    assert_eq!(sorted, expected);
}

#[test]
fn display_matches_inorder_vec() {
    let mut t = AvlTree::new();
    for v in [3, 1, 2] {
        t.insert(v);
    }
    assert_eq!(t.to_string(), "[1, 2, 3]");
}

#[test]
fn oracle_random() {
    // 5000 mixed operations on a small key universe (forces frequent
    // collisions/duplicates). Each op is compared against BTreeSet
    // and AVL invariants are checked after every step.
    let mut tree = AvlTree::new();
    let mut oracle: BTreeSet<i32> = BTreeSet::new();
    let mut rng = Lcg::new(0xc0ffee_u64);

    for step in 0..5000 {
        let r = rng.next();
        let value = ((r >> 32) as i32).rem_euclid(200);
        let op = (r >> 28) & 3;

        match op {
            0 | 1 => {
                let got = tree.insert(value);
                let want = oracle.insert(value);
                assert_eq!(got, want, "insert disagree step={step} val={value}");
            }
            2 => {
                let got = tree.delete(value);
                let want = oracle.remove(&value);
                assert_eq!(got, want, "delete disagree step={step} val={value}");
            }
            _ => {
                let got = tree.find(value);
                let want = oracle.contains(&value);
                assert_eq!(got, want, "find disagree step={step} val={value}");
            }
        }

        assert_eq!(tree.len(), oracle.len(), "len disagree at step {step}");
        tree.check_invariants();
    }

    let from_tree = tree.to_vec();
    let from_oracle: Vec<i32> = oracle.iter().copied().collect();
    assert_eq!(from_tree, from_oracle, "final in-order traversal mismatch");
}
