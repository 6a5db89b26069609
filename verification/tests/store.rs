//! The store's boundary behaviors: absent keys, empty values,
//! idempotent deletes, and `Keys` pagination.

use kvcache::cache::Cache;

#[test]
fn get_absent_key_returns_empty_bytes() {
    let cache = Cache::new();
    let value = cache.get(b"missing").unwrap();
    assert_eq!(value, Vec::<u8>::new());
}

#[test]
fn set_then_get_returns_value() {
    let mut cache = Cache::new();
    let previous = cache.set(b"foo", vec![1, 2, 3]).unwrap();
    assert_eq!(previous, Vec::<u8>::new());
    assert_eq!(cache.get(b"foo").unwrap(), vec![1, 2, 3]);
}

#[test]
fn set_replaces_and_returns_previous_value() {
    let mut cache = Cache::new();
    cache.set(b"k", b"old".to_vec()).unwrap();
    let previous = cache.set(b"k", b"new".to_vec()).unwrap();
    assert_eq!(previous, b"old".to_vec());
    assert_eq!(cache.get(b"k").unwrap(), b"new".to_vec());
}

#[test]
fn set_with_empty_value_is_legal() {
    let mut cache = Cache::new();
    cache.set(b"empty", Vec::new()).unwrap();
    assert_eq!(cache.get(b"empty").unwrap(), Vec::<u8>::new());
}

#[test]
fn delete_returns_previous_value() {
    let mut cache = Cache::new();
    cache.set(b"k", b"v".to_vec()).unwrap();
    let previous = cache.delete(b"k").unwrap();
    assert_eq!(previous, b"v".to_vec());
    assert_eq!(cache.get(b"k").unwrap(), Vec::<u8>::new());
}

#[test]
fn delete_absent_key_is_empty_and_idempotent() {
    let mut cache = Cache::new();
    assert_eq!(cache.delete(b"nothing").unwrap(), Vec::<u8>::new());
    assert_eq!(cache.delete(b"nothing").unwrap(), Vec::<u8>::new());
    cache.set(b"once", b"v".to_vec()).unwrap();
    assert_eq!(cache.delete(b"once").unwrap(), b"v".to_vec());
    assert_eq!(cache.delete(b"once").unwrap(), Vec::<u8>::new());
    assert_eq!(cache.delete(b"once").unwrap(), Vec::<u8>::new());
}

#[test]
fn keys_zero_take_zero_skip_is_empty() {
    let mut cache = Cache::new();
    cache.set(b"a", b"1".to_vec()).unwrap();
    cache.set(b"b", b"2".to_vec()).unwrap();
    assert_eq!(cache.keys(0, 0).unwrap(), Vec::<u8>::new());
}

#[test]
fn keys_joins_with_crlf_in_insertion_order() {
    let mut cache = Cache::new();
    cache.set(b"a", b"1".to_vec()).unwrap();
    cache.set(b"b", b"2".to_vec()).unwrap();
    assert_eq!(cache.keys(10, 0).unwrap(), b"a\r\nb".to_vec());
}

#[test]
fn keys_single_key_has_no_separator() {
    let mut cache = Cache::new();
    cache.set(b"only", b"1".to_vec()).unwrap();
    assert_eq!(cache.keys(10, 0).unwrap(), b"only".to_vec());
}

#[test]
fn keys_skip_then_take() {
    let mut cache = Cache::new();
    cache.set(b"a", b"1".to_vec()).unwrap();
    cache.set(b"b", b"2".to_vec()).unwrap();
    cache.set(b"c", b"3".to_vec()).unwrap();
    cache.set(b"d", b"4".to_vec()).unwrap();
    assert_eq!(cache.keys(2, 1).unwrap(), b"b\r\nc".to_vec());
    assert_eq!(cache.keys(10, 3).unwrap(), b"d".to_vec());
    assert_eq!(cache.keys(10, 4).unwrap(), Vec::<u8>::new());
}

#[test]
fn keys_order_stable_across_reads_and_updates() {
    let mut cache = Cache::new();
    cache.set(b"a", b"1".to_vec()).unwrap();
    cache.set(b"b", b"2".to_vec()).unwrap();
    // Updating a present key keeps its place in the order.
    cache.set(b"a", b"9".to_vec()).unwrap();
    assert_eq!(cache.keys(10, 0).unwrap(), b"a\r\nb".to_vec());
    assert_eq!(cache.keys(10, 0).unwrap(), b"a\r\nb".to_vec());
}

#[test]
fn last_mutation_wins_despite_other_keys() {
    // After the last mutation of a key, reads return exactly what it
    // left, however much traffic touches other keys in between.
    let mut cache = Cache::new();
    cache.set(b"k", b"first".to_vec()).unwrap();
    cache.set(b"k", b"last".to_vec()).unwrap();
    cache.set(b"other", b"x".to_vec()).unwrap();
    cache.delete(b"unrelated").unwrap();
    cache.keys(10, 0).unwrap();
    cache.get(b"other").unwrap();
    assert_eq!(cache.get(b"k").unwrap(), b"last".to_vec());

    cache.delete(b"k").unwrap();
    cache.set(b"other", b"y".to_vec()).unwrap();
    assert_eq!(cache.get(b"k").unwrap(), Vec::<u8>::new());
}

#[test]
fn delete_removes_key_from_enumeration() {
    let mut cache = Cache::new();
    cache.set(b"a", b"1".to_vec()).unwrap();
    cache.set(b"b", b"2".to_vec()).unwrap();
    cache.set(b"c", b"3".to_vec()).unwrap();
    cache.delete(b"b").unwrap();
    assert_eq!(cache.keys(10, 0).unwrap(), b"a\r\nc".to_vec());
}
