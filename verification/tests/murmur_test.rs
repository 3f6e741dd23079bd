use murmur_hash_rust::murmur::{hash_anything, hash_mumur3};

#[test]
fn test_hash_known_values() {
    assert_eq!(
        hash_mumur3(b"hello", 42),
        46796720576937137733623800116632579848u128
    );
    assert_eq!(
        hash_mumur3(b"the quick brown fox", 7),
        232579961249577208036399231575282391324u128
    );
}

#[test]
fn test_hash_deterministic() {
    let a = hash_mumur3(&[3, 1, 4, 1, 5, 9, 2, 6, 5, 3], 1234);
    let b = hash_mumur3(&[3, 1, 4, 1, 5, 9, 2, 6, 5, 3], 1234);
    assert_eq!(a, b);
}

#[test]
fn test_hash_avalanche() {
    assert_eq!(
        hash_mumur3(&[1], 9),
        81803616929829522406399855769982190666u128
    );
    assert_eq!(
        hash_mumur3(&[2], 9),
        304672998502898744701871765578948460712u128
    );
    assert_ne!(hash_mumur3(&[1], 9), hash_mumur3(&[2], 9));
}

#[test]
fn test_hash_seed_matters() {
    assert_ne!(hash_mumur3(b"abc", 0), hash_mumur3(b"abc", 1));
}

#[test]
fn test_hash_block_aligned_degenerates() {
    assert_eq!(hash_mumur3(&[0u8; 32], 123), 1);
    assert_eq!(hash_mumur3(&[5u8; 16], 9), 1);
    assert_eq!(hash_mumur3(&[], 77), 1);
}

#[test]
fn test_hash_anything_i32_wire() {
    let via_key = hash_anything(&7i32, 50);
    let via_bytes = hash_mumur3(&[7, 0, 0, 0], 50);
    assert_eq!(via_key, via_bytes);
    assert_eq!(via_key, 275885356354801815341574905289583196092u128);

    let negative = hash_anything(&-2i32, 3);
    assert_eq!(negative, hash_mumur3(&[0xfe, 0xff, 0xff, 0xff], 3));
}

#[test]
fn test_hash_anything_str_wire() {
    let via_key = hash_anything(&"ab", 11);
    let via_bytes = hash_mumur3(&[2, 0, 0, 0, 0, 0, 0, 0, b'a', b'b'], 11);
    assert_eq!(via_key, via_bytes);

    let owned = hash_anything(&String::from("ab"), 11);
    assert_eq!(owned, via_key);
}
