use bencode::order::{key_eq, key_lt};
use bencode::value::{BData, BDict};

fn key(s: &str) -> Vec<u8> {
    s.as_bytes().to_vec()
}

#[test]
fn keys_are_ordered_byte_by_byte() {
    assert!(key_lt(&key("a"), &key("b")));
    assert!(key_lt(&key("a"), &key("aa")));
    assert!(key_lt(&key(""), &key("a")));
    assert!(key_lt(&key("B"), &key("a")));
    assert!(key_lt(&key("ab"), &key("b")));
    assert!(key_lt(&key("key"), &key("key1")));
    assert!(key_lt(&vec![0x7f], &vec![0x80]));
    assert!(key_lt(&vec![0x00, 0xff], &vec![0x01]));
    assert!(!key_lt(&key("a"), &key("a")));
    assert!(!key_lt(&key(""), &key("")));
    assert!(!key_lt(&key("b"), &key("a")));
    assert!(!key_lt(&key("aa"), &key("a")));
    assert!(!key_lt(&vec![0x80], &vec![0x7f]));
}

#[test]
fn keys_are_equal_byte_by_byte() {
    assert!(key_eq(&key(""), &key("")));
    assert!(key_eq(&key("abc"), &key("abc")));
    assert!(!key_eq(&key("abc"), &key("abd")));
    assert!(!key_eq(&key("abc"), &key("ab")));
    assert!(!key_eq(&key(""), &key("a")));
}

#[test]
fn new_dictionary_is_empty() {
    let d = BDict::new();
    assert_eq!(d.len(), 0);
    assert_eq!(d.get(&key("a")), None);
    assert!(!d.contains_key(&key("")));
}

#[test]
fn insert_keeps_keys_in_ascending_order() {
    let mut d = BDict::new();
    assert_eq!(d.insert(key("m"), BData::Number(1)), None);
    assert_eq!(d.insert(key("z"), BData::Number(2)), None);
    assert_eq!(d.insert(key("a"), BData::Number(3)), None);
    assert_eq!(d.insert(key("mm"), BData::Number(4)), None);
    assert_eq!(d.insert(key(""), BData::Number(5)), None);
    assert_eq!(d.len(), 5);
    let keys: Vec<Vec<u8>> = (0..d.len()).map(|i| d.key_at(i).clone()).collect();
    assert_eq!(keys, vec![key(""), key("a"), key("m"), key("mm"), key("z")]);
    assert_eq!(d.value_at(0), &BData::Number(5));
    assert_eq!(d.value_at(1), &BData::Number(3));
    assert_eq!(d.value_at(2), &BData::Number(1));
    assert_eq!(d.value_at(3), &BData::Number(4));
    assert_eq!(d.value_at(4), &BData::Number(2));
}

#[test]
fn insert_replaces_the_value_of_a_key() {
    let mut d = BDict::new();
    assert_eq!(d.insert(key("a"), BData::Number(1)), None);
    assert_eq!(d.insert(key("b"), BData::Number(2)), None);
    assert_eq!(d.insert(key("a"), BData::Number(3)), Some(BData::Number(1)));
    assert_eq!(d.insert(key("b"), BData::List(vec![])), Some(BData::Number(2)));
    assert_eq!(d.len(), 2);
    assert_eq!(d.get(&key("a")), Some(&BData::Number(3)));
    assert_eq!(d.get(&key("b")), Some(&BData::List(vec![])));
    assert_eq!(d.key_at(0), &key("a"));
    assert_eq!(d.key_at(1), &key("b"));
}

#[test]
fn get_finds_what_was_inserted() {
    let mut d = BDict::new();
    d.insert(key("k2"), BData::Number(2));
    d.insert(key("k1"), BData::Number(1));
    d.insert(key("k3"), BData::Number(3));
    assert_eq!(d.get(&key("k1")), Some(&BData::Number(1)));
    assert_eq!(d.get(&key("k2")), Some(&BData::Number(2)));
    assert_eq!(d.get(&key("k3")), Some(&BData::Number(3)));
    assert_eq!(d.get(&key("k")), None);
    assert_eq!(d.get(&key("k0")), None);
    assert_eq!(d.get(&key("k4")), None);
    assert_eq!(d.get(&key("k22")), None);
    assert!(d.contains_key(&key("k2")));
    assert!(!d.contains_key(&key("K2")));
}

#[test]
fn dictionaries_with_the_same_entries_are_equal() {
    let mut a = BDict::new();
    a.insert(key("x"), BData::Number(1));
    a.insert(key("y"), BData::Number(2));
    let mut b = BDict::new();
    b.insert(key("y"), BData::Number(0));
    b.insert(key("x"), BData::Number(1));
    assert_ne!(a, b);
    b.insert(key("y"), BData::Number(2));
    assert_eq!(a, b);
    assert_eq!(BData::Dict(a), BData::Dict(b));
}

#[test]
fn trees_are_equal_when_they_hold_the_same() {
    let list = |items: Vec<i32>| BData::List(items.into_iter().map(BData::Number).collect());
    assert_eq!(BData::Number(1), BData::Number(1));
    assert_ne!(BData::Number(1), BData::Number(-1));
    assert_eq!(BData::BString(key("a")), BData::BString(key("a")));
    assert_ne!(BData::BString(key("a")), BData::BString(key("ab")));
    assert_ne!(BData::BString(key("1")), BData::Number(1));
    assert_ne!(BData::List(vec![]), BData::Dict(BDict::new()));
    assert_eq!(list(vec![1, 2, 3]), list(vec![1, 2, 3]));
    assert_ne!(list(vec![1, 2, 3]), list(vec![1, 3, 2]));
    assert_ne!(list(vec![1, 2, 3]), list(vec![1, 2]));
    assert_ne!(list(vec![]), list(vec![0]));
    let mut a = BDict::new();
    a.insert(key("k"), list(vec![1]));
    let mut b = BDict::new();
    b.insert(key("k"), list(vec![2]));
    assert_ne!(a, b);
    let mut c = BDict::new();
    c.insert(key("j"), list(vec![1]));
    assert_ne!(a, c);
    assert_ne!(a, BDict::new());
}
