use avl_tree::LinkedList;

#[test]
fn insert_goes_to_front() {
    let mut list = LinkedList::new();
    list.insert(3);
    list.insert(2);
    list.insert(1);
    assert_eq!(list.to_string(), "[1, 2, 3]");
}

#[test]
fn find_present_and_absent() {
    let mut list = LinkedList::new();
    assert!(!list.find(1));
    list.insert(3);
    list.insert(2);
    list.insert(1);
    assert!(list.find(2));
    assert!(!list.find(9));
}

#[test]
fn delete_sequence() {
    let mut list = LinkedList::new();
    list.insert(3);
    list.insert(2);
    list.insert(1);
    assert!(list.delete(2));
    assert_eq!(list.to_string(), "[1, 3]");
    assert!(list.delete(1));
    assert_eq!(list.to_string(), "[3]");
    assert!(!list.delete(9));
    assert_eq!(list.to_string(), "[3]");
    assert!(list.delete(3));
    assert_eq!(list.to_string(), "[]");
    assert!(!list.delete(3));
}

#[test]
fn delete_removes_only_first_occurrence() {
    let mut list = LinkedList::new();
    for v in [5, 7, 5, 9, 5] {
        list.insert(v);
    }
    // front to back: 5, 9, 5, 7, 5
    assert!(list.delete(5));
    assert_eq!(list.to_string(), "[9, 5, 7, 5]");
    assert!(list.delete(7));
    assert_eq!(list.to_string(), "[9, 5, 5]");
}

#[test]
fn list_delete_undoes_insert() {
    let mut list = LinkedList::new();
    for v in [4, 8, 4] {
        list.insert(v);
    }
    let before = list.to_string();
    list.insert(4);
    assert!(list.delete(4));
    assert_eq!(list.to_string(), before);
}

#[test]
fn negative_values_text() {
    let mut list = LinkedList::new();
    list.insert(i32::MIN);
    list.insert(-1);
    list.insert(0);
    assert_eq!(list.to_string(), "[0, -1, -2147483648]");
}

#[test]
fn long_list_drops_without_recursion() {
    let n: i32 = 1_000_000;
    let mut list = LinkedList::new();
    for i in 0..n {
        list.insert(i);
    }
    assert!(list.find(0));
    assert!(!list.find(-1));
    drop(list);
}

#[test]
fn long_list_delete_last() {
    let mut list = LinkedList::new();
    for i in 0..200_000 {
        list.insert(i);
    }
    assert!(list.delete(0));
    assert!(!list.find(0));
    assert!(list.find(1));
}
