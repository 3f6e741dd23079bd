use murmur_hash_rust::hash_dict::HashDict;

fn create_test_dict_i32(size: i32) -> HashDict<i32, i32> {
    let mut d: HashDict<i32, i32> = HashDict::new(1000000, 69);
    for i in 0..size {
        d.insert(i, i.pow(2));
    }
    d
}

#[test]
fn hash_dict_test_test_insert() {
    let mut d: HashDict<i32, i32> = HashDict::new(3, 42);
    for i in 0..100 {
        d.insert(i, i.pow(2));
    }
}

#[test]
fn test_get() {
    let d = create_test_dict_i32(1000);
    let key = 999;
    if let Some(res) = d.get(&key) {
        println!("{res}");
        assert_eq!(res, key.pow(2))
    } else {
        println!("nothing here");
    }
}

#[test]
fn hash_dict_test_test_delete() {
    let mut d = create_test_dict_i32(1000);
    d.delete(&102);
    if let Some(v) = d.get(&102) {
        println!("{v}");
    } else {
        println!("NOTHING");
    }
}

#[test]
fn test_pop() {
    let mut d = create_test_dict_i32(1000);
    if let Some(v) = d.pop(&32) {
        println!("popped val: {v}");
    }

    if d.get(&32).is_none() {
        println!("deleted");
    }
    assert_eq!(d.get(&32), None);
}

#[test]
fn test_pop_all() {
    let s = 1000;
    let mut d = create_test_dict_i32(s);
    for i in 0..s {
        let item = d.pop(&i);
        if let Some(item) = item {
            println!("{item} {i}");
        }
    }
}

#[test]
fn test_dict_strings() {
    let mut dict: HashDict<String, i32> = HashDict::new(10, 42);
    dict.insert("Hello".to_string(), 1);
    dict.insert("World!".to_string(), 2);

    if let Some(v) = dict.get(&"Hello".to_string()) {
        assert_eq!(v, 1);
    }

    if let Some(v) = dict.get(&"World!".to_string()) {
        assert_eq!(v, 2);
    }
}

#[test]
fn test_macro() {
    let table = HashDict::from_pairs(
        10,
        42,
        vec![("hi".to_string(), 10), ("there".to_string(), 11)],
    );

    if let Some(v) = table.get(&"hi".to_string()) {
        println!("{v}");
    }
}

#[test]
fn test_hash_dict_macro() {
    let tablt = HashDict::from_pairs(200, 3, vec![("3", "hi"), ("2", "halo"), ("1", "hola")]);

    if let Some(v) = tablt.get(&"3") {
        assert_eq!(v, "hi");
    } else {
        panic!("None was returned");
    }
}

#[test]
fn hash_dict_test_test_iter() {
    let table = create_test_dict_i32(500);
    println!("{}", table.len());

    let mut counter = 0;
    let mut it = table.iter();
    while let Some(_kv) = it.next() {
        counter += 1;
    }

    assert_eq!(table.len(), counter)
}

#[test]
fn test_iter_sort() {
    let t = create_test_dict_i32(100);
    let mut it = t.iter();
    while let Some((k, v)) = it.next() {
        println!("{k} => {v}");
    }
}

#[test]
fn test_mut_get() {
    let mut dict = create_test_dict_i32(1000);
    let key = 100;
    println!("{}", dict.get(&key).unwrap());

    dict.get_mut(&key, |_v| 0);

    println!("{}", dict.get(&key).unwrap());
}

#[test]
fn test_single_bucket_collisions() {
    let mut d: HashDict<i32, i32> = HashDict::new(1, 7);
    for k in 1..=15 {
        d.insert(k, k * 100);
    }
    assert_eq!(d.len(), 15);
    assert_eq!(d.get(&7), Some(700));
}

#[test]
fn test_delete_absent_changes_nothing() {
    let mut d: HashDict<i32, i32> = HashDict::new(8, 11);
    for k in 0..20 {
        d.insert(k, k + 1);
    }
    d.delete(&999);
    assert_eq!(d.len(), 20);
    for k in 0..20 {
        assert_eq!(d.get(&k), Some(k + 1));
    }
}

#[test]
fn test_iter_sorted_and_complete() {
    let mut d: HashDict<i32, i32> = HashDict::new(4, 5);
    for &k in &[9, 1, 7, 3, 5, 8, 2] {
        d.insert(k, k * 2);
    }
    let mut it = d.iter();
    let mut pairs = Vec::new();
    while let Some(kv) = it.next() {
        pairs.push(kv);
    }
    assert_eq!(
        pairs,
        vec![(1, 2), (2, 4), (3, 6), (5, 10), (7, 14), (8, 16), (9, 18)]
    );
}

#[test]
fn test_count_tracks_inserts_and_deletes() {
    let mut d: HashDict<i32, i32> = HashDict::new(16, 1);
    assert_eq!(d.len(), 0);
    for k in 0..10 {
        d.insert(k, k);
    }
    assert_eq!(d.len(), 10);
    d.delete(&3);
    assert_eq!(d.len(), 9);
    d.delete(&3);
    assert_eq!(d.len(), 9);
    d.insert(3, 3);
    assert_eq!(d.len(), 10);
}

#[test]
fn test_str_keys_route_alike() {
    let mut d: HashDict<String, usize> = HashDict::new(1000, 50);
    d.insert("word".to_string(), 1);
    d.get_mut(&"word".to_string(), |v| v + 1);
    d.get_mut(&"word".to_string(), |v| v + 1);
    assert_eq!(d.get(&"word".to_string()), Some(3));
}
