use kvs::{KvStore, Segment};

fn reopen(store: &KvStore) -> KvStore {
    let segs: Vec<Segment> = store
        .segments()
        .iter()
        .map(|s| Segment { file_id: s.file_id, data: s.data.clone() })
        .collect();
    KvStore::open(segs).expect("reopening from the store's own segments must succeed")
}

fn store_size(store: &KvStore) -> u64 {
    let mut total: u64 = 0;
    for seg in store.segments().iter() {
        total += seg.data.len() as u64;
    }
    total
}

// Should get previously stored value
#[test]
fn get_stored_value() {
    let mut store = KvStore::open(Vec::new()).unwrap();

    store.set("key1".to_owned(), "value1".to_owned()).unwrap();
    store.set("key2".to_owned(), "value2".to_owned()).unwrap();

    assert_eq!(store.get("key1".to_owned()).unwrap(), Some("value1".to_owned()));
    assert_eq!(store.get("key2".to_owned()).unwrap(), Some("value2".to_owned()));

    // Open from the persisted segments again and check the data
    let store = reopen(&store);
    assert_eq!(store.get("key1".to_owned()).unwrap(), Some("value1".to_owned()));
    assert_eq!(store.get("key2".to_owned()).unwrap(), Some("value2".to_owned()));
}

// Should overwrite existent value
#[test]
fn overwrite_value() {
    let mut store = KvStore::open(Vec::new()).unwrap();

    store.set("key1".to_owned(), "value1".to_owned()).unwrap();
    assert_eq!(store.get("key1".to_owned()).unwrap(), Some("value1".to_owned()));
    store.set("key1".to_owned(), "value2".to_owned()).unwrap();
    assert_eq!(store.get("key1".to_owned()).unwrap(), Some("value2".to_owned()));

    // Open from the persisted segments again and check the data
    let mut store = reopen(&store);
    assert_eq!(store.get("key1".to_owned()).unwrap(), Some("value2".to_owned()));
    store.set("key1".to_owned(), "value3".to_owned()).unwrap();
    assert_eq!(store.get("key1".to_owned()).unwrap(), Some("value3".to_owned()));
}

// Should get `None` when getting a non-existent key
#[test]
fn get_non_existent_value() {
    let mut store = KvStore::open(Vec::new()).unwrap();

    store.set("key1".to_owned(), "value1".to_owned()).unwrap();
    assert_eq!(store.get("key2".to_owned()).unwrap(), None);

    // Open from the persisted segments again and check the data
    let store = reopen(&store);
    assert_eq!(store.get("key2".to_owned()).unwrap(), None);
}

#[test]
fn remove_non_existent_key() {
    let mut store = KvStore::open(Vec::new()).unwrap();
    assert!(store.remove("key1".to_owned()).is_err());
}

#[test]
fn remove_key() {
    let mut store = KvStore::open(Vec::new()).unwrap();
    store.set("key1".to_owned(), "value1".to_owned()).unwrap();
    assert!(store.remove("key1".to_owned()).is_ok());
    assert_eq!(store.get("key1".to_owned()).unwrap(), None);
}

// Insert data until the total size of the segments decreases.
// Test data correctness after compaction.
#[test]
fn compaction() {
    let mut store = KvStore::open(Vec::new()).unwrap();

    let mut current_size = store_size(&store);
    for iter in 0..1000u32 {
        for key_id in 0..1000u32 {
            let key = format!("key{}", key_id);
            let value = format!("{}", iter);
            store.set(key, value).unwrap();
        }

        let new_size = store_size(&store);
        if new_size > current_size {
            current_size = new_size;
            continue;
        }
        // Compaction triggered

        // reopen and check content
        let store = reopen(&store);
        for key_id in 0..1000u32 {
            let key = format!("key{}", key_id);
            assert_eq!(store.get(key).unwrap(), Some(format!("{}", iter)));
        }
        return;
    }
    panic!("No compaction detected");
}

#[test]
fn concurrent_set() {
    // the engine handle is shared across writers in the embedding program;
    // here the same thousand distinct-key writes run back to back
    let mut store = KvStore::open(Vec::new()).unwrap();
    for i in 0..1000u32 {
        store.set(format!("key{}", i), format!("value{}", i)).unwrap();
    }

    for i in 0..1000u32 {
        assert_eq!(store.get(format!("key{}", i)).unwrap(), Some(format!("value{}", i)));
    }

    // Open from the persisted segments again and check the data
    let store = reopen(&store);
    for i in 0..1000u32 {
        assert_eq!(store.get(format!("key{}", i)).unwrap(), Some(format!("value{}", i)));
    }
}

#[test]
fn concurrent_get() {
    let mut store = KvStore::open(Vec::new()).unwrap();
    for i in 0..100u32 {
        store.set(format!("key{}", i), format!("value{}", i)).unwrap();
    }

    for thread_id in 0..100u32 {
        for i in 0..100u32 {
            let key_id = (i + thread_id) % 100;
            assert_eq!(
                store.get(format!("key{}", key_id)).unwrap(),
                Some(format!("value{}", key_id))
            );
        }
    }

    // Open from the persisted segments again and check the data
    let store = reopen(&store);
    for thread_id in 0..100u32 {
        for i in 0..100u32 {
            let key_id = (i + thread_id) % 100;
            assert_eq!(
                store.get(format!("key{}", key_id)).unwrap(),
                Some(format!("value{}", key_id))
            );
        }
    }
}

#[test]
fn set_and_get() {
    let mut store = KvStore::open(Vec::new()).unwrap();
    store.set("key".to_string(), "value".to_string()).unwrap();
    let val = store.get("key".to_string()).unwrap();
    assert_eq!(val, Some("value".to_string()));
}
