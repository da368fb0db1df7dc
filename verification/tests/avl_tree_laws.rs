use avl_tree::AvlTree;

fn fib(n: u32) -> u64 {
    let (mut a, mut b) = (0u64, 1u64);
    for _ in 0..n {
        let c = a + b;
        a = b;
        b = c;
    }
    a
}

#[test]
fn insert_then_find_and_other_values_unchanged() {
    let mut t = AvlTree::new();
    for v in [8, 3, 11] {
        t.insert(v);
    }
    assert!(t.insert(5));
    assert!(t.find(5));
    assert!(t.find(8) && t.find(3) && t.find(11));
    assert!(!t.find(4));
    assert_eq!(t.len(), 4);
}

#[test]
fn repeated_insert_changes_nothing() {
    let mut t = AvlTree::new();
    for v in [4, 2, 6] {
        t.insert(v);
    }
    let before = t.to_vec();
    assert!(!t.insert(2));
    assert!(!t.insert(2));
    assert_eq!(t.to_vec(), before);
    assert_eq!(t.len(), 3);
}

#[test]
fn delete_undoes_insert() {
    let mut t = AvlTree::new();
    for v in [20, 10, 30, 5, 15] {
        t.insert(v);
    }
    let before = t.to_vec();
    assert!(t.insert(17));
    assert!(t.delete(17));
    assert_eq!(t.to_vec(), before);
    assert_eq!(t.len(), 5);
    assert_eq!(t.check_invariants(), t.height());
}

#[test]
fn delete_then_find_is_false() {
    let mut t = AvlTree::new();
    for v in 0..50 {
        t.insert(v);
    }
    for v in (0..50).step_by(3) {
        assert!(t.delete(v));
        assert!(!t.find(v));
        assert!(!t.delete(v));
    }
    assert_eq!(t.len(), 50 - 17);
    assert_eq!(t.check_invariants(), t.height());
}

#[test]
fn height_bound_by_fibonacci() {
    let mut t = AvlTree::new();
    for v in 0..2000 {
        t.insert(v * 7 % 2003);
        let h = t.height() as u32;
        assert!(fib(h + 2) <= t.len() as u64 + 1);
    }
    for v in 0..1500 {
        t.delete(v * 7 % 2003);
        let h = t.height() as u32;
        assert!(fib(h + 2) <= t.len() as u64 + 1);
        assert_eq!(t.check_invariants(), t.height());
    }
}

#[test]
fn small_tree_heights() {
    let mut t = AvlTree::default();
    assert_eq!(t.height(), 0);
    t.insert(1);
    assert_eq!(t.height(), 1);
    t.insert(2);
    assert_eq!(t.height(), 2);
    // Third ascending insert forces a left rotation at the root.
    t.insert(3);
    assert_eq!(t.height(), 2);
    assert_eq!(t.to_vec(), vec![1, 2, 3]);
}

#[test]
fn double_rotations_keep_order() {
    // Left-right case.
    let mut t = AvlTree::new();
    for v in [30, 10, 20] {
        t.insert(v);
    }
    assert_eq!(t.height(), 2);
    assert_eq!(t.to_vec(), vec![10, 20, 30]);
    assert_eq!(t.check_invariants(), t.height());
    // Right-left case.
    let mut u = AvlTree::new();
    for v in [10, 30, 20] {
        u.insert(v);
    }
    assert_eq!(u.height(), 2);
    assert_eq!(u.to_vec(), vec![10, 20, 30]);
    assert_eq!(u.check_invariants(), u.height());
}

#[test]
fn delete_leaf_and_single_child_nodes() {
    let mut t = AvlTree::new();
    for v in [50, 25, 75, 10, 80] {
        t.insert(v);
    }
    assert!(t.delete(10)); // leaf
    assert!(t.delete(75)); // one right child
    assert_eq!(t.to_vec(), vec![25, 50, 80]);
    assert_eq!(t.check_invariants(), t.height());
    assert!(t.delete(50));
    assert!(t.delete(25));
    assert!(t.delete(80));
    assert!(t.is_empty());
    assert_eq!(t.to_vec(), Vec::<i32>::new());
}

#[test]
fn extreme_values() {
    let mut t = AvlTree::new();
    for v in [0, i32::MAX, i32::MIN, -15] {
        assert!(t.insert(v));
    }
    assert!(t.find(i32::MIN) && t.find(i32::MAX));
    assert_eq!(t.to_vec(), vec![i32::MIN, -15, 0, i32::MAX]);
}

#[test]
fn text_of_empty_and_negative_values() {
    let mut t = AvlTree::new();
    assert_eq!(t.to_string(), "[]");
    t.insert(7);
    assert_eq!(t.to_string(), "[7]");
    for v in [0, i32::MAX, i32::MIN, -15, 120] {
        t.insert(v);
    }
    assert_eq!(t.to_string(), "[-2147483648, -15, 0, 7, 120, 2147483647]");
}

#[test]
fn len_matches_vec_len() {
    let mut t = AvlTree::new();
    for v in [9, -3, 9, 4, -3, 0] {
        t.insert(v);
    }
    assert_eq!(t.len(), t.to_vec().len());
    assert_eq!(t.len(), 4);
    assert!(!t.is_empty());
}

#[test]
fn sequential_insert_then_delete_all() {
    let mut t = AvlTree::new();
    for i in 0..10_000 {
        t.insert(i);
    }
    assert_eq!(t.height(), 14);
    for i in 0..10_000 {
        assert!(t.delete(i));
    }
    assert!(t.is_empty());
    assert_eq!(t.height(), 0);
}

#[test]
fn demo_heights_and_text() {
    let mut t = AvlTree::new();
    let mut heights = Vec::new();
    for i in 1..=7 {
        t.insert(i);
        heights.push(t.height());
    }
    assert_eq!(heights, vec![1, 2, 2, 3, 3, 3, 3]);
    assert_eq!(t.to_string(), "[1, 2, 3, 4, 5, 6, 7]");
    let mut results = Vec::new();
    for v in [4, 1, 7, 99] {
        results.push((t.delete(v), t.len(), t.height(), t.to_string()));
    }
    assert_eq!(
        results,
        vec![
            (true, 6, 3, "[1, 2, 3, 5, 6, 7]".to_string()),
            (true, 5, 3, "[2, 3, 5, 6, 7]".to_string()),
            (true, 4, 3, "[2, 3, 5, 6]".to_string()),
            (false, 4, 3, "[2, 3, 5, 6]".to_string()),
        ]
    );
}

#[test]
fn failed_insert_and_delete_leave_tree_alone() {
    let mut t = AvlTree::new();
    for v in [1, 2, 3, 4] {
        t.insert(v);
    }
    let h = t.height();
    let text = t.to_string();
    assert!(!t.insert(3));
    assert!(!t.delete(9));
    assert_eq!(t.height(), h);
    assert_eq!(t.to_string(), text);
    assert_eq!(t.check_invariants(), h);
}
