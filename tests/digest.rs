use med::digest::{decimal_string, key_from_digest, storage_key};

#[test]
fn decimal_of_zero_and_larger_numbers() {
    assert_eq!(decimal_string(0), "0");
    assert_eq!(decimal_string(7), "7");
    assert_eq!(decimal_string(1234), "1234");
    assert_eq!(decimal_string(4080), "4080");
}

#[test]
fn key_is_decimal_byte_sum() {
    assert_eq!(key_from_digest(&[0u8; 16]), "0");
    assert_eq!(key_from_digest(&[255u8; 16]), "4080");
    let d: [u8; 16] = [1, 2, 3, 4, 5, 6, 7, 8, 9, 10, 11, 12, 13, 14, 15, 16];
    assert_eq!(key_from_digest(&d), "136");
}

#[test]
fn storage_key_of_known_names() {
    assert_eq!(storage_key(""), "2121");
    assert_eq!(storage_key("a"), "2272");
    assert_eq!(storage_key("Anna"), "2151");
    assert_eq!(storage_key("Bob"), "2416");
    assert_eq!(storage_key("Diana"), "2125");
}

#[test]
fn storage_key_is_deterministic() {
    assert_eq!(storage_key("Anna"), storage_key("Anna"));
    assert_ne!(storage_key("Anna"), "Anna");
}

#[test]
fn colliding_names_share_a_key() {
    // Digest byte sums of these two names coincide.
    assert_eq!(storage_key("patient21"), "1843");
    assert_eq!(storage_key("patient22"), "1843");
}

#[test]
fn collisions_are_common_among_small_name_sets() {
    let mut keys: Vec<String> = Vec::new();
    let mut found = false;
    for i in 0..200 {
        let k = storage_key(&format!("patient{}", i));
        if keys.contains(&k) {
            found = true;
            break;
        }
        keys.push(k);
    }
    assert!(found);
}
