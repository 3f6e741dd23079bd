use murmur_hash_rust::tree::Tree;

fn build_tree() -> Tree<i64> {
    let mut tree = Tree::new();
    let elements = vec![8, 4, 12, 2, 6, 10, 14, 1, 3, 5, 7, 9, 11, 13, 15];
    for &elem in &elements {
        tree.insert(elem);
    }
    tree
}

#[test]
fn test_min() {
    assert_eq!(build_tree().min(), Some(&(1 as i64)))
}

#[test]
fn test_max() {
    assert_eq!(build_tree().max(), Some(&(15 as i64)))
}

#[test]
fn test_height() {
    println!("{}", build_tree().height())
}

#[test]
fn test_search() {
    assert_eq!(build_tree().does_exist(10), true);
    assert_eq!(build_tree().does_exist(20), false);
}

#[test]
fn test_bst_delete_keeps_rest() {
    let mut tree = build_tree();
    tree.delete(8);
    assert_eq!(tree.does_exist(8), false);
    assert_eq!(tree.does_exist(7), true);
    assert_eq!(tree.does_exist(9), true);
    assert_eq!(tree.min(), Some(&1));
    assert_eq!(tree.max(), Some(&15));
}

#[test]
fn test_bst_delete_absent() {
    let mut tree = build_tree();
    tree.delete(42);
    for k in 1..=15 {
        assert!(tree.does_exist(k));
    }
}

#[test]
fn test_bst_clear() {
    let mut tree = build_tree();
    tree.clear();
    assert_eq!(tree.min(), None);
    assert_eq!(tree.max(), None);
    assert_eq!(tree.height(), 0);
}
