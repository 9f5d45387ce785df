use dslab::bst::BinarySearchTree;

#[test]
fn bst_new_test_insert() {
    let mut bst = BinarySearchTree::new();
    bst.insert(1, "1");
    bst.insert(2, "2");
    bst.insert(3, "3");
    assert_eq!(bst.len(), 3);
}

#[test]
fn test_get() {
    let mut bst = BinarySearchTree::new();
    bst.insert(1, "1");
    bst.insert(2, "2");
    bst.insert(3, "3");
    bst.insert(3, "4");
    assert_eq!(bst.get(&1), Some("1"));
    assert_eq!(bst.get(&2), Some("2"));
    assert_eq!(bst.get(&4), None);
    assert_eq!(bst.len(), 3);
}

#[test]
fn test_delete() {
    let mut bst = BinarySearchTree::new();
    bst.insert(3, "3");
    bst.insert(2, "2");
    bst.insert(4, "4");
    bst.insert(6, "6");
    bst.insert(8, "8");
    bst.insert(7, "7");
    bst.insert(5, "5");
    bst.insert(1, "1");

    assert_eq!(bst.len(), 8);
    bst.inorder();
    assert!(bst.remove(&1));
    assert!(bst.remove(&8));
    assert_eq!(bst.len(), 6);
    bst.inorder();
}

#[test]
fn test_wf() {
    let mut bst = BinarySearchTree::new();
    bst.insert(3, "3");
    bst.insert(2, "2");
    bst.insert(4, "4");
    bst.insert(6, "6");
    bst.insert(8, "8");
    bst.insert(7, "7");
    bst.insert(5, "5");
    bst.insert(1, "1");

    bst.width_first();
}

#[test]
fn inorder_sorted_and_removal_scenario() {
    let mut tree = BinarySearchTree::new();
    for (k, v) in [
        (3i64, "3"),
        (2, "2"),
        (4, "4"),
        (6, "6"),
        (8, "8"),
        (7, "7"),
        (5, "5"),
        (1, "1"),
    ] {
        tree.insert(k, v);
    }
    assert_eq!(tree.len(), 8);
    let keys: Vec<i64> = tree.inorder().into_iter().map(|(k, _)| k).collect();
    assert_eq!(keys, vec![1, 2, 3, 4, 5, 6, 7, 8]);

    assert!(tree.remove(&1));
    assert_eq!(tree.len(), 7);
    assert!(tree.remove(&8));
    assert_eq!(tree.len(), 6);
    let keys: Vec<i64> = tree.inorder().into_iter().map(|(k, _)| k).collect();
    assert_eq!(keys, vec![2, 3, 4, 5, 6, 7]);
}

#[test]
fn empty_tree_yields_nothing() {
    let mut bst: BinarySearchTree<i64> = BinarySearchTree::new();
    assert_eq!(bst.get(&42), None);
    assert_eq!(bst.min(), None);
    assert_eq!(bst.max(), None);
    assert!(!bst.remove(&42));
    assert_eq!(bst.len(), 0);
}

#[test]
fn min_max_match_inorder_ends() {
    let mut bst = BinarySearchTree::new();
    for k in [10i64, 4, 17, 1, 6, 20] {
        bst.insert(k, 100 + k);
    }
    let entries = bst.inorder();
    assert_eq!(bst.min(), Some(entries.first().unwrap().1));
    assert_eq!(bst.max(), Some(entries.last().unwrap().1));
    assert_eq!(bst.min(), Some(101));
    assert_eq!(bst.max(), Some(120));
}

#[test]
fn width_first_visits_by_level() {
    let mut bst = BinarySearchTree::new();
    for k in [3i64, 2, 4, 6, 8, 7, 5, 1] {
        bst.insert(k, k);
    }
    let keys: Vec<i64> = bst.width_first().into_iter().map(|(k, _)| k).collect();
    assert_eq!(keys, vec![3, 2, 4, 1, 6, 5, 8, 7]);
}

#[test]
fn insert_overwrites_value_only() {
    let mut bst = BinarySearchTree::new();
    bst.insert(5, 50i64);
    bst.insert(5, 55);
    assert_eq!(bst.len(), 1);
    assert_eq!(bst.get(&5), Some(55));
}
