use a_binary_tree::{BinaryTree, NotFoundError};

fn s(text: &str) -> String {
    text.to_string()
}

#[test]
fn new_tree_is_empty() {
    let tree = BinaryTree::<u64, u64>::new();
    assert!(tree.is_empty());
    assert_eq!(None, tree.find(&7));
}

#[test]
fn three_keys_are_found() {
    let mut tree = BinaryTree::<char, u64>::new();
    tree.insert('A', 1);
    tree.insert('B', 2);
    tree.insert('C', 3);
    assert_eq!(Some(1), tree.find(&'A'));
    assert_eq!(Some(2), tree.find(&'B'));
    assert_eq!(Some(3), tree.find(&'C'));
    assert_eq!(None, tree.find(&'Z'));
}

#[test]
fn overwrite_keeps_one_node() {
    let mut tree = BinaryTree::<char, u64>::new();
    tree.insert('A', 1);
    tree.insert('A', 2);
    assert_eq!(Some(2), tree.find(&'A'));
    assert!(!tree.is_empty());
    assert_eq!(Ok(()), tree.delete(&'A'));
    assert!(tree.is_empty());
    assert_eq!(None, tree.find(&'A'));
}

#[test]
fn delete_root_with_two_children_keeps_both_subtrees() {
    let mut tree = BinaryTree::<u64, u64>::new();
    for k in [50u64, 70, 30, 60, 80, 20, 40, 65, 55, 35, 45] {
        tree.insert(k, k * 10);
    }
    assert_eq!(Ok(()), tree.delete(&50));
    assert_eq!(None, tree.find(&50));
    for k in [70u64, 30, 60, 80, 20, 40, 65, 55, 35, 45] {
        assert_eq!(Some(k * 10), tree.find(&k));
    }
}

#[test]
fn delete_inner_node_with_two_children_keeps_both_subtrees() {
    let mut tree = BinaryTree::<u64, u64>::new();
    for k in [50u64, 70, 30, 60, 80, 20, 40, 75, 85, 65] {
        tree.insert(k, k + 1);
    }
    assert_eq!(Ok(()), tree.delete(&70));
    assert_eq!(None, tree.find(&70));
    for k in [50u64, 30, 60, 80, 20, 40, 75, 85, 65] {
        assert_eq!(Some(k + 1), tree.find(&k));
    }
    assert_eq!(Ok(()), tree.delete(&30));
    for k in [50u64, 60, 80, 20, 40, 75, 85, 65] {
        assert_eq!(Some(k + 1), tree.find(&k));
    }
}

#[test]
fn delete_node_with_one_child() {
    let mut tree = BinaryTree::<i64, i64>::new();
    tree.insert(0, 0);
    tree.insert(-5, 1);
    tree.insert(-8, 2);
    tree.insert(9, 3);
    tree.insert(12, 4);
    assert_eq!(Ok(()), tree.delete(&-5));
    assert_eq!(Ok(()), tree.delete(&9));
    assert_eq!(None, tree.find(&-5));
    assert_eq!(None, tree.find(&9));
    assert_eq!(Some(2), tree.find(&-8));
    assert_eq!(Some(4), tree.find(&12));
    assert_eq!(Some(0), tree.find(&0));
}

#[test]
fn delete_root_with_one_child() {
    let mut tree = BinaryTree::<u32, u32>::new();
    tree.insert(10, 1);
    tree.insert(5, 2);
    tree.insert(3, 3);
    assert_eq!(Ok(()), tree.delete(&10));
    assert_eq!(Some(2), tree.find(&5));
    assert_eq!(Some(3), tree.find(&3));
    assert_eq!(Ok(()), tree.delete(&5));
    assert_eq!(Ok(()), tree.delete(&3));
    assert!(tree.is_empty());
}

#[test]
fn delete_absent_key_is_not_found() {
    let mut tree = BinaryTree::<u64, String>::new();
    assert_eq!(Err(NotFoundError), tree.delete(&1));
    tree.insert(4, s("four"));
    tree.insert(2, s("two"));
    tree.insert(6, s("six"));
    assert_eq!(Err(NotFoundError), tree.delete(&5));
    assert_eq!(Some(s("four")), tree.find(&4));
    assert_eq!(Some(s("two")), tree.find(&2));
    assert_eq!(Some(s("six")), tree.find(&6));
    assert!(!tree.is_empty());
}

#[test]
fn deleted_key_is_gone_and_others_stay() {
    let mut tree = BinaryTree::<u64, String>::new();
    tree.insert(1, s("One"));
    tree.insert(2, s("Two"));
    tree.insert(3, s("Three"));
    assert_eq!(None, tree.find(&4));
    assert_eq!(Ok(()), tree.delete(&3));
    assert_eq!(Err(NotFoundError), tree.delete(&9));
    assert_eq!(None, tree.find(&3));
    assert_eq!(Some(s("Two")), tree.find(&2));
    assert_eq!(Some(s("One")), tree.find(&1));
    assert_eq!(Ok(()), tree.delete(&2));
    assert_eq!(None, tree.find(&2));
    assert_eq!(Some(s("One")), tree.find(&1));
    assert_eq!(Ok(()), tree.delete(&1));
    assert_eq!(None, tree.find(&1));
    assert!(tree.is_empty());
}

#[test]
fn latest_insert_wins_after_deletes() {
    let mut tree = BinaryTree::<u64, u64>::new();
    tree.insert(3, 30);
    tree.insert(1, 10);
    tree.insert(3, 31);
    assert_eq!(Ok(()), tree.delete(&1));
    tree.insert(1, 11);
    tree.insert(2, 20);
    assert_eq!(Some(31), tree.find(&3));
    assert_eq!(Some(11), tree.find(&1));
    assert_eq!(Some(20), tree.find(&2));
}

fn fill(keys: &[u64]) -> BinaryTree<u64, u64> {
    let mut tree = BinaryTree::new();
    for &k in keys {
        tree.insert(k, k);
    }
    tree
}

#[test]
fn deleting_every_key_in_any_order_empties() {
    let keys = [8u64, 3, 12, 1, 5, 10, 14, 4, 6, 11];
    let orders: [[u64; 10]; 4] = [
        [8, 3, 12, 1, 5, 10, 14, 4, 6, 11],
        [11, 6, 4, 14, 10, 5, 1, 12, 3, 8],
        [3, 12, 8, 5, 1, 4, 6, 14, 11, 10],
        [1, 4, 5, 6, 3, 10, 11, 14, 12, 8],
    ];
    for order in orders.iter() {
        let mut tree = fill(&keys);
        for k in order.iter() {
            assert_eq!(Ok(()), tree.delete(k));
            assert_eq!(None, tree.find(k));
        }
        assert!(tree.is_empty());
    }
}

#[test]
fn degenerate_chains_work() {
    let ascending: Vec<u64> = (0..200).collect();
    let mut tree = fill(&ascending);
    assert_eq!(Some(199), tree.find(&199));
    for k in 0..200u64 {
        assert_eq!(Ok(()), tree.delete(&k));
    }
    assert!(tree.is_empty());
    let descending: Vec<u64> = (0..200).rev().collect();
    let mut tree = fill(&descending);
    assert_eq!(Ok(()), tree.delete(&100));
    assert_eq!(Some(99), tree.find(&99));
    assert_eq!(Some(101), tree.find(&101));
}

#[test]
fn extreme_keys() {
    let mut tree = BinaryTree::<u64, u64>::new();
    tree.insert(u64::MAX, 1);
    tree.insert(0, 2);
    assert_eq!(Some(1), tree.find(&u64::MAX));
    assert_eq!(Some(2), tree.find(&0));
    let mut signed = BinaryTree::<i64, u64>::new();
    signed.insert(i64::MIN, 3);
    signed.insert(i64::MAX, 4);
    assert_eq!(Some(3), signed.find(&i64::MIN));
    assert_eq!(Some(4), signed.find(&i64::MAX));
    assert_eq!(None, signed.find(&0));
}
