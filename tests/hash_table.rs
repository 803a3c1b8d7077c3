use fnv_table::{FnvHasher, HashTable, KeyValue};

#[test]
fn test_add() {
    let mut table = HashTable::<String>::new();
    table.insert("hello".to_string(), "world".to_string());
    table.insert("hello2".to_string(), "world2".to_string());
    table.insert("hello3".to_string(), "world3".to_string());

    assert_eq!(table.get("hello".to_string()).unwrap(), "world");
    assert_eq!(table.get("hello2".to_string()).unwrap(), "world2");
    assert_eq!(table.get("hello3".to_string()).unwrap(), "world3");
}

#[test]
fn hash_of_hello_is_fixed() {
    let hasher = FnvHasher::new();
    assert_eq!(hasher.hash(b"hello", 100), 91);
    assert_eq!(hasher.hash(b"hello", 1000), 491);
    assert_eq!(hasher.hash(b"hello", i64::MAX), 11831194018420276491 % (i64::MAX as u64));
}

#[test]
fn hash_of_known_inputs() {
    let hasher = FnvHasher::new();
    // The empty input leaves the offset basis unchanged.
    assert_eq!(hasher.hash(b"", i64::MAX), 0xcbf29ce484222325 % (i64::MAX as u64));
    assert_eq!(hasher.hash(b"", 100), 37);
    // The published 64-bit FNV-1a digest of "a" is 0xaf63dc4c8601ec8c.
    assert_eq!(hasher.hash(b"a", 1000), 0xaf63dc4c8601ec8c % 1000);
    assert_eq!(hasher.hash(b"a", 1000), 996);
}

#[test]
fn hash_is_in_range_and_deterministic() {
    let hasher = FnvHasher::new();
    let inputs: Vec<&[u8]> = vec![b"", b"x", b"hello", b"hello2", b"\xff\x00\x10", b"a longer input"];
    for m in [1i64, 2, 7, 100, 1000, 65537] {
        for b in inputs.iter() {
            let first = hasher.hash(b, m);
            assert!(first < m as u64);
            assert_eq!(first, FnvHasher::new().hash(b, m));
        }
    }
    assert_eq!(hasher.hash(b"anything", 1), 0);
}

#[test]
fn hash_depends_on_byte_order() {
    let hasher = FnvHasher::new();
    assert_ne!(hasher.hash(b"ab", i64::MAX), hasher.hash(b"ba", i64::MAX));
}

#[test]
fn capacity_hundred_scenario() {
    let mut table = HashTable::<String>::with_capacity(100).unwrap();
    table.insert("hello".to_string(), "world".to_string());
    table.insert("hello2".to_string(), "world2".to_string());
    table.insert("hello3".to_string(), "world3".to_string());

    assert_eq!(table.get("hello".to_string()).unwrap(), "world");
    assert_eq!(table.get("hello2".to_string()).unwrap(), "world2");
    assert_eq!(table.get("hello3".to_string()).unwrap(), "world3");
    assert!(table.get("missing".to_string()).is_none());
    assert_eq!(table.len(), 3);
}

#[test]
fn thousand_distinct_keys() {
    let mut table = HashTable::<u64>::new();
    for i in 0..1000u64 {
        table.insert(format!("key{}", i), i);
    }
    assert_eq!(table.len(), 1000);
    for i in 0..1000u64 {
        assert_eq!(table.get(format!("key{}", i)), Some(&i));
    }
    assert!(table.get("key1000".to_string()).is_none());
}

#[test]
fn new_table_is_empty() {
    let table = HashTable::<u64>::new();
    assert_eq!(table.len(), 0);
    assert!(table.get("hello".to_string()).is_none());
    assert!(table.get(String::new()).is_none());
}

#[test]
fn non_positive_capacity_is_rejected() {
    assert!(HashTable::<u64>::with_capacity(0).is_none());
    assert!(HashTable::<u64>::with_capacity(-1).is_none());
    assert!(HashTable::<u64>::with_capacity(i64::MIN).is_none());
    assert!(HashTable::<u64>::with_capacity(1).is_some());
}

#[test]
fn single_bucket_keeps_every_key() {
    let mut table = HashTable::<u64>::with_capacity(1).unwrap();
    table.insert("a".to_string(), 1);
    table.insert("b".to_string(), 2);
    table.insert("c".to_string(), 3);
    assert_eq!(table.get("a".to_string()), Some(&1));
    assert_eq!(table.get("b".to_string()), Some(&2));
    assert_eq!(table.get("c".to_string()), Some(&3));
    table.remove("b".to_string());
    assert_eq!(table.get("a".to_string()), Some(&1));
    assert!(table.get("b".to_string()).is_none());
    assert_eq!(table.get("c".to_string()), Some(&3));
    assert_eq!(table.len(), 2);
}

#[test]
fn duplicate_key_returns_earliest() {
    let mut table = HashTable::<u64>::new();
    table.insert("k".to_string(), 1);
    table.insert("k".to_string(), 2);
    table.insert("k".to_string(), 3);
    assert_eq!(table.len(), 3);
    assert_eq!(table.get("k".to_string()), Some(&1));
}

#[test]
fn remove_then_get_finds_next_duplicate() {
    let mut table = HashTable::<u64>::with_capacity(10).unwrap();
    table.insert("k".to_string(), 1);
    table.insert("other".to_string(), 9);
    table.insert("k".to_string(), 2);
    table.remove("k".to_string());
    assert_eq!(table.get("k".to_string()), Some(&2));
    assert_eq!(table.len(), 2);
    table.remove("k".to_string());
    assert!(table.get("k".to_string()).is_none());
    assert_eq!(table.get("other".to_string()), Some(&9));
    assert_eq!(table.len(), 1);
}

#[test]
fn remove_single_entry_makes_key_absent() {
    let mut table = HashTable::<String>::new();
    table.insert("hello".to_string(), "world".to_string());
    table.remove("hello".to_string());
    assert!(table.get("hello".to_string()).is_none());
    assert_eq!(table.len(), 0);
}

#[test]
fn remove_absent_key_changes_nothing() {
    let mut table = HashTable::<u64>::with_capacity(5).unwrap();
    table.insert("a".to_string(), 1);
    table.insert("b".to_string(), 2);
    table.remove("zzz".to_string());
    assert_eq!(table.len(), 2);
    assert_eq!(table.get("a".to_string()), Some(&1));
    assert_eq!(table.get("b".to_string()), Some(&2));

    let mut empty = HashTable::<u64>::new();
    empty.remove("a".to_string());
    assert_eq!(empty.len(), 0);
}

#[test]
fn insert_after_remove_round_trips() {
    let mut table = HashTable::<u64>::new();
    table.insert("k".to_string(), 1);
    table.remove("k".to_string());
    table.insert("k".to_string(), 7);
    assert_eq!(table.get("k".to_string()), Some(&7));
    assert_eq!(table.len(), 1);
}

#[test]
fn empty_key_is_a_key() {
    let mut table = HashTable::<u64>::new();
    table.insert(String::new(), 4);
    assert_eq!(table.get(String::new()), Some(&4));
    assert!(table.get(" ".to_string()).is_none());
}

#[test]
fn non_ascii_keys() {
    let mut table = HashTable::<u64>::with_capacity(3).unwrap();
    table.insert("clé".to_string(), 1);
    table.insert("ключ".to_string(), 2);
    assert_eq!(table.get("clé".to_string()), Some(&1));
    assert_eq!(table.get("ключ".to_string()), Some(&2));
    assert!(table.get("cle".to_string()).is_none());
}

#[test]
fn key_value_holds_its_pair() {
    let entry = KeyValue::new("k".to_string(), 3u64);
    let copy = entry.clone();
    assert_eq!(format!("{:?}", copy), "KeyValue { key: \"k\", value: 3 }");
}
