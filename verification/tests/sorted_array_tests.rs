use durable_kv::sorted_array::SortedArray;

fn sample() -> SortedArray {
    let mut array = SortedArray::default();
    for (key, value) in [("d", "4"), ("b", "2"), ("f", "6"), ("a", "1"), ("e", "5"), ("c", "3")] {
        array.insert(key, value);
    }
    array
}

#[test]
fn empty_array_holds_nothing() {
    let array = SortedArray::default();
    assert_eq!(array.len(), 0);
    assert_eq!(array.get("a"), None);
    assert_eq!(array.find_key("a"), None);
    assert_eq!(array.get_range("a", "z"), Vec::<&str>::new());
}

#[test]
fn insert_keeps_keys_ascending() {
    let array = sample();
    assert_eq!(array.len(), 6);
    for (at, key) in ["a", "b", "c", "d", "e", "f"].iter().enumerate() {
        assert_eq!(array.find_key(key), Some(at));
    }
    assert_eq!(array.get_range("", "zzz"), vec!["1", "2", "3", "4", "5", "6"]);
}

#[test]
fn get_finds_every_inserted_key() {
    let array = sample();
    assert_eq!(array.get("a"), Some("1"));
    assert_eq!(array.get("c"), Some("3"));
    assert_eq!(array.get("f"), Some("6"));
    assert_eq!(array.get("g"), None);
    assert_eq!(array.get(""), None);
    assert_eq!(array.get("bb"), None);
}

#[test]
fn insert_overwrites_in_place() {
    let mut array = sample();
    array.insert("c", "three");
    assert_eq!(array.len(), 6);
    assert_eq!(array.get("c"), Some("three"));
    assert_eq!(array.find_key("c"), Some(2));
}

#[test]
fn delete_removes_entry_and_returns_value() {
    let mut array = sample();
    assert_eq!(array.delete("c"), Some("3".to_string()));
    assert_eq!(array.get("c"), None);
    assert_eq!(array.len(), 5);
    assert_eq!(array.delete("c"), None);
    assert_eq!(array.len(), 5);
    assert_eq!(array.get_range("a", "f"), vec!["1", "2", "4", "5", "6"]);
    assert_eq!(array.find_key("d"), Some(2));
}

#[test]
fn range_includes_both_bounds() {
    let array = sample();
    assert_eq!(array.get_range("b", "d"), vec!["2", "3", "4"]);
    assert_eq!(array.get_range("c", "c"), vec!["3"]);
    assert_eq!(array.get_range("a", "f"), vec!["1", "2", "3", "4", "5", "6"]);
}

#[test]
fn range_bounds_need_not_be_keys() {
    let array = sample();
    assert_eq!(array.get_range("bb", "dd"), vec!["3", "4"]);
    assert_eq!(array.get_range("", "b"), vec!["1", "2"]);
    assert_eq!(array.get_range("e", "zz"), vec!["5", "6"]);
    assert_eq!(array.get_range("g", "z"), Vec::<&str>::new());
    assert_eq!(array.get_range("bb", "bc"), Vec::<&str>::new());
}

#[test]
fn inverted_range_is_empty() {
    let array = sample();
    assert_eq!(array.get_range("d", "b"), Vec::<&str>::new());
    assert_eq!(array.get_range("f", "a"), Vec::<&str>::new());
}

#[test]
fn keys_are_ordered_by_their_bytes() {
    let mut array = SortedArray::default();
    for key in ["b", "ab", "a", "B", "é", "z", "", "aa"] {
        array.insert(key, key);
    }
    assert_eq!(array.get_range("", "\u{10ffff}"), vec!["", "B", "a", "aa", "ab", "b", "z", "é"]);
}

#[test]
fn many_inserts_and_deletes_agree_with_a_model() {
    let mut array = SortedArray::default();
    let mut model = std::collections::BTreeMap::new();
    let mut seed: u32 = 12345;
    for _ in 0..2000 {
        seed = seed.wrapping_mul(1103515245).wrapping_add(12345);
        let key = format!("k{}", (seed >> 16) % 97);
        if (seed >> 8) % 3 == 0 {
            assert_eq!(array.delete(&key), model.remove(&key));
        } else {
            let value = format!("v{}", seed);
            array.insert(&key, &value);
            model.insert(key.clone(), value);
        }
        assert_eq!(array.len(), model.len());
        assert_eq!(array.get(&key), model.get(&key).map(String::as_str));
    }
    let all: Vec<&str> = model.values().map(String::as_str).collect();
    assert_eq!(array.get_range("", "z"), all);
    let some: Vec<&str> = model.range("k3".to_string()..="k60".to_string()).map(|(_, v)| v.as_str()).collect();
    assert_eq!(array.get_range("k3", "k60"), some);
}
