use durable_kv::digest::hash_key;
use durable_kv::hashtable::{Hashtable, IndexExhausted, DEFAULT_CAPACITY};

#[test]
fn test_get() {
    let mut hashtable = Hashtable::default();
    hashtable.insert("a", "ciao").unwrap();

    let val = hashtable.get("a");
    assert_eq!(val, Some("ciao"));
}

#[test]
fn test_rehash() {
    let mut hashtable = Hashtable::with_capacity(1);
    hashtable.insert("a", "a").unwrap();
    hashtable.insert("b", "b").unwrap();
    hashtable.insert("c", "c").unwrap();

    let val = hashtable.get("c");
    assert_eq!(val, Some("c"));
}

#[test]
fn hash_is_the_big_endian_head_of_the_digest() {
    // sha1("a") = 86f7e437faa5a7fc e15d1ddcb9eaeaea377667b8
    assert_eq!(hash_key("a") as u64, 0x86f7e437faa5a7fc_u64);
    assert_eq!(hash_key("a") as u64, 9725492849409370108_u64);
    assert_eq!(hash_key("") as u64, 15724779818122431245_u64);
    assert_ne!(hash_key("a"), hash_key("b"));
}

#[test]
fn default_table_is_empty_with_a_hundred_slots() {
    let table = Hashtable::default();
    assert_eq!(DEFAULT_CAPACITY, 100);
    assert_eq!(table.capacity(), 100);
    assert_eq!(table.len(), 0);
    assert_eq!(table.get("a"), None);
}

#[test]
fn get_of_missing_key_is_none() {
    let mut table = Hashtable::with_capacity(8);
    table.insert("a", "1").unwrap();
    assert_eq!(table.get("b"), None);
    assert_eq!(table.get(""), None);
}

#[test]
fn insert_overwrites_existing_key() {
    let mut table = Hashtable::with_capacity(8);
    table.insert("a", "1").unwrap();
    table.insert("a", "2").unwrap();
    assert_eq!(table.get("a"), Some("2"));
    assert_eq!(table.len(), 1);
    assert_eq!(table.capacity(), 8);
}

#[test]
fn delete_returns_value_and_removes_key() {
    let mut table = Hashtable::with_capacity(8);
    table.insert("a", "1").unwrap();
    table.insert("b", "2").unwrap();
    assert_eq!(table.delete("a"), Some("1".to_string()));
    assert_eq!(table.get("a"), None);
    assert_eq!(table.get("b"), Some("2"));
    assert_eq!(table.len(), 1);
    assert_eq!(table.delete("a"), None);
    assert_eq!(table.len(), 1);
}

#[test]
fn delete_keeps_colliding_keys_reachable() {
    // "a" and "f" both start probing at slot 4 of 8, so "f" lies past "a".
    assert_eq!(hash_key("a") % 8, 4);
    assert_eq!(hash_key("f") % 8, 4);
    let mut table = Hashtable::with_capacity(8);
    table.insert("a", "first").unwrap();
    table.insert("f", "second").unwrap();
    assert_eq!(table.delete("a"), Some("first".to_string()));
    assert_eq!(table.get("f"), Some("second"));
    assert_eq!(table.get("a"), None);
}

#[test]
fn deleted_slot_is_used_again_without_duplicating_keys() {
    let mut table = Hashtable::with_capacity(8);
    table.insert("a", "first").unwrap();
    table.insert("f", "second").unwrap();
    table.delete("a");
    // "f" is found past the marker and overwritten, not stored twice.
    table.insert("f", "third").unwrap();
    assert_eq!(table.len(), 1);
    assert_eq!(table.get("f"), Some("third"));
    table.insert("a", "again").unwrap();
    assert_eq!(table.len(), 2);
    assert_eq!(table.get("a"), Some("again"));
    assert_eq!(table.delete("f"), Some("third".to_string()));
    assert_eq!(table.get("f"), None);
    assert_eq!(table.get("a"), Some("again"));
}

#[test]
fn table_grows_to_twice_its_size_past_two_thirds() {
    let mut table = Hashtable::with_capacity(1);
    table.insert("a", "a").unwrap();
    assert_eq!((table.len(), table.capacity()), (1, 2));
    table.insert("b", "b").unwrap();
    assert_eq!((table.len(), table.capacity()), (2, 4));
    table.insert("c", "c").unwrap();
    assert_eq!((table.len(), table.capacity()), (3, 6));
    // 4 of 6 is more than 66%.
    table.insert("d", "d").unwrap();
    assert_eq!((table.len(), table.capacity()), (4, 8));
    // 5 of 8 is not.
    table.insert("e", "e").unwrap();
    assert_eq!((table.len(), table.capacity()), (5, 8));
    for key in ["a", "b", "c", "d", "e"] {
        assert_eq!(table.get(key), Some(key));
    }
}

#[test]
fn exactly_sixty_six_percent_does_not_grow() {
    let mut table = Hashtable::with_capacity(50);
    for i in 0..33 {
        table.insert(&format!("key{}", i), "v").unwrap();
    }
    assert_eq!((table.len(), table.capacity()), (33, 50));
    table.insert("one more", "v").unwrap();
    assert_eq!((table.len(), table.capacity()), (34, 68));
}

#[test]
fn occupancy_stays_within_bound_after_every_insert() {
    let mut table = Hashtable::with_capacity(3);
    for i in 0..500 {
        let key = format!("key-{}", i);
        table.insert(&key, &format!("value-{}", i)).unwrap();
        assert!(table.len() * 100 <= table.capacity() * 66);
        assert_eq!(table.len(), i + 1);
    }
    for i in 0..500 {
        let key = format!("key-{}", i);
        assert_eq!(table.get(&key), Some(format!("value-{}", i).as_str()));
    }
}

#[test]
fn inserted_pairs_stay_until_deleted() {
    let mut table = Hashtable::with_capacity(4);
    for i in 0..200 {
        table.insert(&format!("k{}", i), &format!("v{}", i)).unwrap();
    }
    for i in (0..200).step_by(2) {
        assert_eq!(table.delete(&format!("k{}", i)), Some(format!("v{}", i)));
    }
    for i in 0..200 {
        let expected = if i % 2 == 0 { None } else { Some(format!("v{}", i)) };
        assert_eq!(table.get(&format!("k{}", i)).map(str::to_string), expected);
    }
    assert_eq!(table.len(), 100);
    for i in (0..200).step_by(2) {
        table.insert(&format!("k{}", i), "back").unwrap();
    }
    assert_eq!(table.len(), 200);
    for i in 0..200 {
        let expected = if i % 2 == 0 { "back".to_string() } else { format!("v{}", i) };
        assert_eq!(table.get(&format!("k{}", i)), Some(expected.as_str()));
    }
}

#[test]
fn table_without_slots_is_exhausted() {
    let mut table = Hashtable::with_capacity(0);
    assert_eq!(table.insert("a", "1"), Err(IndexExhausted));
    assert_eq!(table.len(), 0);
    assert_eq!(table.capacity(), 0);
    assert_eq!(table.get("a"), None);
    assert_eq!(table.delete("a"), None);
}

#[test]
fn keys_are_compared_as_whole_strings() {
    let mut table = Hashtable::default();
    table.insert("ab", "1").unwrap();
    table.insert("a", "2").unwrap();
    table.insert("", "3").unwrap();
    table.insert("añ", "4").unwrap();
    assert_eq!(table.get("ab"), Some("1"));
    assert_eq!(table.get("a"), Some("2"));
    assert_eq!(table.get(""), Some("3"));
    assert_eq!(table.get("añ"), Some("4"));
    assert_eq!(table.get("an"), None);
}
