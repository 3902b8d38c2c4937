use kvs::{KvsEngine, KvsError, SledKvsEngine};

#[test]
fn sled_set_get_remove() {
    let mut store =
        SledKvsEngine::open("/tmp/kvs_sled_engine_test_basic").expect("sled open failed");

    store.set("key1".to_owned(), "value1".to_owned()).unwrap();
    assert_eq!(store.get("key1".to_owned()).unwrap(), Some("value1".to_owned()));

    store.set("key1".to_owned(), "value2".to_owned()).unwrap();
    assert_eq!(store.get("key1".to_owned()).unwrap(), Some("value2".to_owned()));

    assert_eq!(store.get("missing".to_owned()).unwrap(), None);

    store.set("key2".to_owned(), "value9".to_owned()).unwrap();
    assert!(store.remove("key2".to_owned()).is_ok());
    assert_eq!(store.get("key2".to_owned()).unwrap(), None);
}

#[test]
fn sled_remove_missing_key() {
    let mut store =
        SledKvsEngine::open("/tmp/kvs_sled_engine_test_remove").expect("sled open failed");
    let err = store.remove("never set".to_owned()).unwrap_err();
    assert!(matches!(err, KvsError::KeyNotFound));
}
