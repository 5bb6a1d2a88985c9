use lsh_store::vec_store::all_eq;
use lsh_store::{Bucket, VecStore};

#[test]
fn bucket_set_semantics() {
    let mut b = Bucket::new();
    assert_eq!(b.len(), 0);
    assert!(!b.contains(3));

    b.insert(3);
    b.insert(5);
    assert_eq!(b.len(), 2);
    assert!(b.contains(3) && b.contains(5));

    // Inserting a member again changes nothing.
    b.insert(3);
    assert_eq!(b.len(), 2);

    // Removing a non-member changes nothing.
    b.remove(9);
    assert_eq!(b.len(), 2);

    b.remove(3);
    assert_eq!(b.len(), 1);
    assert!(!b.contains(3) && b.contains(5));

    let members = b.members();
    assert_eq!(members, &vec![5]);
}

#[test]
fn vec_store_append_and_get() {
    let mut store = VecStore::new();
    let a: Vec<u32> = vec![1, 2, 3];
    let b: Vec<u32> = vec![4];
    assert_eq!(store.push(a.clone()), 0);
    assert_eq!(store.push(b.clone()), 1);
    // Identical content still mints a fresh handle.
    assert_eq!(store.push(a.clone()), 2);
    assert_eq!(store.get(0), &a);
    assert_eq!(store.get(1), &b);
    assert_eq!(store.get(2), &a);
}

#[test]
fn vec_store_position_finds_first_match() {
    let mut store = VecStore::new();
    let a: Vec<u32> = vec![7, 7];
    let b: Vec<u32> = vec![8];
    store.push(b.clone());
    store.push(a.clone());
    store.push(a.clone());
    assert_eq!(store.position(&a), Some(1));
    assert_eq!(store.position(&b), Some(0));
    assert_eq!(store.position(&[9, 9]), None);
}

#[test]
fn vec_store_reserve_keeps_contents() {
    let mut store = VecStore::new();
    let a: Vec<u32> = vec![1];
    store.push(a.clone());
    store.increase_storage(500);
    assert_eq!(store.get(0), &a);
    assert_eq!(store.position(&a), Some(0));
}

#[test]
fn all_eq_is_exact_componentwise_equality() {
    let a: Vec<u32> = vec![1, 2];
    assert!(all_eq(&a, &[1, 2]));
    assert!(!all_eq(&a, &[1, 3]));
    assert!(!all_eq(&a, &[1, 2, 3]));
    assert!(!all_eq(&a, &[]));
    let empty: Vec<u32> = vec![];
    assert!(all_eq(&empty, &[]));
}
