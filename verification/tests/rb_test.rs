use murmur_hash_rust::rb_tree::RbTree;

fn create_test_tree(t_size: i32) -> RbTree<i32, i32> {
    let mut t: RbTree<i32, i32> = RbTree::new();
    for i in 0..t_size {
        t.insert(i, i % 2);
    }
    t
}

#[test]
fn rb_test_test_insert() {
    let mut t: RbTree<i32, i32> = RbTree::new();

    t.insert(2, 2);
    t.insert(3, 4);
    t.insert(5, 6);
    t.insert(6, 7);
    t.insert(10, 10);
    t.insert(11, 11);
    t.insert(12, 12);

    for i in 10..500 {
        t.insert(i, i * 2);
    }
}

#[test]
fn rb_test_test_delete() {
    let mut t = create_test_tree(500);
    println!("{}", t.len());
    t.delete(132);
    t.delete(10);
    t.delete(255);
    t.delete(1);
    println!("{}", t.len());
    assert_eq!(t.key_exist(132), false);
}

#[test]
fn test_clear() {
    let mut t = create_test_tree(1000);
    assert_eq!(t.len(), 1000);
    t.clear();
    assert_eq!(t.len(), 0);
}

#[test]
fn test_vec() {
    let mut vec_tree: Vec<RbTree<i32, String>> = Vec::new();

    for _ in 0..3 {
        vec_tree.push(RbTree::new());
    }

    vec_tree[0].insert(10, "hi".to_string());
    vec_tree[1].insert(11, "hi".to_string());
    vec_tree[1].insert(13, "world".to_string());
    vec_tree[2].insert(12, "hi".to_string());

    assert_eq!(vec_tree[1].get(&13), Some("world".to_string()));
}

#[test]
fn test_delete_all() {
    let size = 1000;
    let mut t = create_test_tree(size);
    for i in 0..size {
        t.delete(i);
    }
    println!("{}", t.len());
}

#[test]
fn test_asci_tree() {
    let mut t = create_test_tree(15);
    t.delete(3);
    assert_eq!(t.len(), 14);
    assert_eq!(t.key_exist(3), false);
}

#[test]
fn rb_test_test_iter() {
    let t = create_test_tree(100);

    let mut it = t.iter();
    while let Some((k, v)) = it.next() {
        println!("{k} =? {v}");
    }
}

#[test]
fn test_sorted_insertion_order() {
    let mut t: RbTree<i32, i32> = RbTree::new();
    for &k in &[5, 3, 7, 2, 4, 6, 8] {
        t.insert(k, k * 10);
    }
    let mut it = t.iter();
    let mut keys = Vec::new();
    while let Some((k, _v)) = it.next() {
        keys.push(k);
    }
    assert_eq!(keys, vec![2, 3, 4, 5, 6, 7, 8]);
}

#[test]
fn test_rb_get_after_inserts() {
    let mut t: RbTree<i32, i32> = RbTree::new();
    for i in 0..200 {
        t.insert(i, i * 3);
    }
    for i in 0..200 {
        assert_eq!(t.get(&i), Some(i * 3));
    }
    assert_eq!(t.get(&500), None);
}

#[test]
fn test_rb_delete_absent_keeps_all() {
    let mut t = create_test_tree(50);
    t.delete(999);
    assert_eq!(t.len(), 50);
    for i in 0..50 {
        assert_eq!(t.get(&i), Some(i % 2));
    }
}

#[test]
fn test_rb_get_mut() {
    let mut t = create_test_tree(20);
    t.get_mut(&7, |v| v + 100);
    assert_eq!(t.get(&7), Some(101));
    assert_eq!(t.get(&8), Some(0));
}

#[test]
fn test_rb_string_keys() {
    let mut t: RbTree<String, i32> = RbTree::new();
    t.insert("pear".to_string(), 1);
    t.insert("apple".to_string(), 2);
    t.insert("quince".to_string(), 3);
    t.insert("apricot".to_string(), 4);
    let mut it = t.iter();
    let mut keys = Vec::new();
    while let Some((k, _v)) = it.next() {
        keys.push(k);
    }
    assert_eq!(
        keys,
        vec![
            "apple".to_string(),
            "apricot".to_string(),
            "pear".to_string(),
            "quince".to_string()
        ]
    );
}

#[test]
fn test_rb_duplicate_keys() {
    let mut t: RbTree<i32, i32> = RbTree::new();
    t.insert(1, 10);
    t.insert(1, 20);
    t.insert(1, 30);
    assert_eq!(t.len(), 3);
    t.delete(1);
    assert_eq!(t.len(), 2);
    assert!(t.key_exist(1));
}
