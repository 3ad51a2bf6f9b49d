use self_encryption::storage::{ChunkStore, StoreError};

#[test]
fn empty_store_holds_nothing() {
    let store = ChunkStore::new();
    assert_eq!(store.len(), 0);
    assert!(!store.contains(b"name"));
    assert_eq!(store.get(b"name"), Err(StoreError::NotFound));
    assert_eq!(store.get(b""), Err(StoreError::NotFound));
}

#[test]
fn put_then_get() {
    let mut store = ChunkStore::new();
    assert_eq!(store.put(b"one".to_vec(), vec![1, 2, 3]), Ok(()));
    assert_eq!(store.put(b"two".to_vec(), vec![]), Ok(()));
    assert_eq!(store.len(), 2);
    assert!(store.contains(b"one"));
    assert_eq!(store.get(b"one"), Ok(vec![1, 2, 3]));
    assert_eq!(store.get(b"two"), Ok(vec![]));
    assert_eq!(store.get(b"on"), Err(StoreError::NotFound));
    assert_eq!(store.get(b"three"), Err(StoreError::NotFound));
}

#[test]
fn putting_twice_is_putting_once() {
    let mut store = ChunkStore::new();
    store.put(b"one".to_vec(), vec![1, 2, 3]).unwrap();
    store.put(b"one".to_vec(), vec![1, 2, 3]).unwrap();
    assert_eq!(store.len(), 1);
    assert_eq!(store.names(), vec![b"one".to_vec()]);
    assert_eq!(store.get(b"one"), Ok(vec![1, 2, 3]));
}

#[test]
fn name_that_is_taken_keeps_its_bytes() {
    let mut store = ChunkStore::new();
    store.put(b"one".to_vec(), vec![1, 2, 3]).unwrap();
    assert_eq!(store.put(b"one".to_vec(), vec![4, 5]), Ok(()));
    assert_eq!(store.len(), 1);
    assert_eq!(store.get(b"one"), Ok(vec![1, 2, 3]));
}

#[test]
fn each_name_is_listed_once() {
    let mut store = ChunkStore::new();
    store.put(b"b".to_vec(), vec![2]).unwrap();
    store.put(b"a".to_vec(), vec![1]).unwrap();
    store.put(b"b".to_vec(), vec![3]).unwrap();
    store.put(b"c".to_vec(), vec![3]).unwrap();
    let mut names = store.names();
    names.sort();
    assert_eq!(names, vec![b"a".to_vec(), b"b".to_vec(), b"c".to_vec()]);
    assert_eq!(store.len(), 3);
}
