use lsh_store::{HashTableError, HashTables, MemoryTable};

fn bits(components: &[f32]) -> Vec<u32> {
    components.iter().map(|c| c.to_bits()).collect()
}

#[test]
fn concrete_scenario_two_bands() {
    let mut store = MemoryTable::new(2);
    let code_a: Vec<i32> = vec![7, -3];
    let code_b: Vec<i32> = vec![11, 5];
    let v1 = bits(&[1.0, 2.0]);
    let v2 = bits(&[3.0, 4.0]);

    assert_eq!(store.put(code_a.clone(), v1.clone(), 0), Ok(0));
    assert_eq!(store.put(code_b.clone(), v2.clone(), 1), Ok(1));

    let bucket = store.query_bucket(&code_a, 0).unwrap();
    assert_eq!(bucket.len(), 1);
    assert!(bucket.contains(0));

    assert!(matches!(
        store.query_bucket(&code_a, 1),
        Err(HashTableError::NotFound)
    ));

    assert_eq!(store.delete(code_a.clone(), &v1, 0), Ok(()));

    let emptied = store.query_bucket(&code_a, 0).unwrap();
    assert_eq!(emptied.len(), 0);

    assert_eq!(store.idx_to_datapoint(1), &v2);
}

#[test]
fn resolve_returns_inserted_vector() {
    let mut store = MemoryTable::new(3);
    let v1 = bits(&[0.5, -1.5, 9.25]);
    let v2 = bits(&[2.0]);
    let v3 = bits(&[]);
    let h1 = store.put(vec![1], v1.clone(), 0).unwrap();
    let h2 = store.put(vec![2], v2.clone(), 2).unwrap();
    let h3 = store.put(vec![1], v3.clone(), 1).unwrap();
    assert_eq!(store.idx_to_datapoint(h1), &v1);
    assert_eq!(store.idx_to_datapoint(h2), &v2);
    assert_eq!(store.idx_to_datapoint(h3), &v3);
}

#[test]
fn delete_absent_vector_is_noop_success() {
    let mut store = MemoryTable::new(2);
    let code: Vec<i32> = vec![4];
    let stored = bits(&[1.0, 1.0]);
    let absent = bits(&[8.0, 8.0]);

    assert_eq!(store.put(code.clone(), stored.clone(), 0), Ok(0));

    assert_eq!(store.delete(code.clone(), &absent, 0), Ok(()));
    let bucket = store.query_bucket(&code, 0).unwrap();
    assert_eq!(bucket.len(), 1);
    assert!(bucket.contains(0));
    assert_eq!(store.idx_to_datapoint(0), &stored);

    let mut empty_store = MemoryTable::new(1);
    assert_eq!(empty_store.delete(vec![0], &absent, 0), Ok(()));
}

#[test]
fn handles_strictly_increase_across_bands() {
    let mut store = MemoryTable::new(3);
    let mut last: Option<u32> = None;
    for band in 0..3 {
        for k in 0..4 {
            let h = store
                .put(vec![k as i32], bits(&[k as f32, band as f32]), band)
                .unwrap();
            if let Some(prev) = last {
                assert!(h > prev);
            }
            last = Some(h);
        }
    }
    assert_eq!(last, Some(11));
}

#[test]
fn deletion_is_logical_only() {
    let mut store = MemoryTable::new(1);
    let code: Vec<i32> = vec![-9];
    let v = bits(&[6.5, 7.5]);
    let h = store.put(code.clone(), v.clone(), 0).unwrap();
    assert_eq!(store.delete(code.clone(), &v, 0), Ok(()));
    assert_eq!(store.idx_to_datapoint(h), &v);
}

#[test]
fn bucket_persists_after_emptying() {
    let mut store = MemoryTable::new(1);
    let code: Vec<i32> = vec![3, 3];
    let v = bits(&[5.0]);
    assert_eq!(store.put(code.clone(), v.clone(), 0), Ok(0));
    assert_eq!(store.delete(code.clone(), &v, 0), Ok(()));
    let bucket = store.query_bucket(&code, 0).unwrap();
    assert_eq!(bucket.len(), 0);
    assert!(!bucket.contains(0));
}

#[test]
fn reserve_capacity_changes_nothing() {
    let mut store = MemoryTable::new(2);
    let code: Vec<i32> = vec![0];
    let v = bits(&[1.25, 2.5]);
    assert_eq!(store.put(code.clone(), v.clone(), 1), Ok(0));

    store.increase_storage(1000);

    let bucket = store.query_bucket(&code, 1).unwrap();
    assert_eq!(bucket.len(), 1);
    assert!(bucket.contains(0));
    assert_eq!(store.idx_to_datapoint(0), &v);
    assert!(matches!(
        store.query_bucket(&code, 0),
        Err(HashTableError::NotFound)
    ));
}

#[test]
fn out_of_range_band_is_invalid_band() {
    let mut store = MemoryTable::new(2);
    let v = bits(&[1.0]);
    assert_eq!(
        store.put(vec![1], v.clone(), 2),
        Err(HashTableError::InvalidBand)
    );
    assert_eq!(
        store.delete(vec![1], &v, 5),
        Err(HashTableError::InvalidBand)
    );
    assert!(matches!(
        store.query_bucket(&vec![1], 2),
        Err(HashTableError::InvalidBand)
    ));
}

#[test]
fn delete_with_missing_bucket_is_not_found() {
    let mut store = MemoryTable::new(2);
    let code: Vec<i32> = vec![1];
    let other_code: Vec<i32> = vec![2];
    let v = bits(&[4.0, 4.0]);
    assert_eq!(store.put(code.clone(), v.clone(), 0), Ok(0));

    assert_eq!(
        store.delete(other_code.clone(), &v, 0),
        Err(HashTableError::NotFound)
    );
    assert_eq!(
        store.delete(code.clone(), &v, 1),
        Err(HashTableError::NotFound)
    );

    let bucket = store.query_bucket(&code, 0).unwrap();
    assert_eq!(bucket.len(), 1);
    assert!(bucket.contains(0));
}

#[test]
fn duplicate_content_gets_distinct_handles() {
    let mut store = MemoryTable::new(1);
    let code: Vec<i32> = vec![6];
    let v = bits(&[2.0, 3.0]);
    assert_eq!(store.put(code.clone(), v.clone(), 0), Ok(0));
    assert_eq!(store.put(code.clone(), v.clone(), 0), Ok(1));

    let bucket = store.query_bucket(&code, 0).unwrap();
    assert_eq!(bucket.len(), 2);
    assert!(bucket.contains(0));
    assert!(bucket.contains(1));

    // Deleting by value removes the first matching handle only.
    assert_eq!(store.delete(code.clone(), &v, 0), Ok(()));
    let bucket = store.query_bucket(&code, 0).unwrap();
    assert_eq!(bucket.len(), 1);
    assert!(!bucket.contains(0));
    assert!(bucket.contains(1));
}

#[test]
fn same_code_in_different_bands_is_independent() {
    let mut store = MemoryTable::new(2);
    let code: Vec<i32> = vec![42];
    let v1 = bits(&[1.0]);
    let v2 = bits(&[2.0]);
    assert_eq!(store.put(code.clone(), v1.clone(), 0), Ok(0));
    assert_eq!(store.put(code.clone(), v2.clone(), 1), Ok(1));

    let b0 = store.query_bucket(&code, 0).unwrap();
    assert!(b0.contains(0) && !b0.contains(1));
    let b1 = store.query_bucket(&code, 1).unwrap();
    assert!(b1.contains(1) && !b1.contains(0));
}
