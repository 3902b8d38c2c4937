use kvs::{
    decode_engine, determine_engine, encode_engine, get_file_ids, handle_request, Engine,
    IndexEntry, KvStore, KvsError, Request, Response,
};

#[test]
fn engine_selection_rules() {
    assert_eq!(determine_engine(None, None).unwrap(), Engine::Kvs);
    assert_eq!(determine_engine(Some(Engine::Sled), None).unwrap(), Engine::Sled);
    assert_eq!(determine_engine(None, Some(Engine::Sled)).unwrap(), Engine::Sled);
    assert_eq!(determine_engine(Some(Engine::Kvs), Some(Engine::Kvs)).unwrap(), Engine::Kvs);
    let err = determine_engine(Some(Engine::Kvs), Some(Engine::Sled)).unwrap_err();
    assert!(matches!(err, KvsError::BrokenEngine));
}

#[test]
fn engine_log_round_trip() {
    let kvs_bytes = encode_engine(Engine::Kvs);
    assert_eq!(kvs_bytes.as_slice(), &br#""kvs""#[..]);
    assert_eq!(decode_engine(kvs_bytes.as_slice()).unwrap(), Engine::Kvs);

    let sled_bytes = encode_engine(Engine::Sled);
    assert_eq!(sled_bytes.as_slice(), &br#""sled""#[..]);
    assert_eq!(decode_engine(sled_bytes.as_slice()).unwrap(), Engine::Sled);

    assert!(matches!(decode_engine(b"\"rocks\""), Err(KvsError::BrokenEngine)));
}

#[test]
fn handle_request_dispatch() {
    let mut store = KvStore::open(Vec::new()).unwrap();

    let resp = handle_request(
        &mut store,
        Request::Put { key: "a".to_owned(), value: "1".to_owned() },
    );
    assert!(matches!(resp, Response::Value(None)));

    let resp = handle_request(&mut store, Request::Get { key: "a".to_owned() });
    assert!(matches!(resp, Response::Value(Some(v)) if v == "1"));

    let resp = handle_request(&mut store, Request::Get { key: "b".to_owned() });
    assert!(matches!(resp, Response::Value(None)));

    let resp = handle_request(&mut store, Request::Rm { key: "a".to_owned() });
    assert!(matches!(resp, Response::Value(None)));

    let resp = handle_request(&mut store, Request::Get { key: "a".to_owned() });
    assert!(matches!(resp, Response::Value(None)));

    // removing an absent key is stringified, not fatal to the connection
    let resp = handle_request(&mut store, Request::Rm { key: "a".to_owned() });
    assert!(matches!(resp, Response::Error(m) if m == "err: Key not found"));
}

#[test]
fn file_ids_are_parsed_and_sorted() {
    let names: Vec<String> = vec![
        "10.log".to_owned(),
        "2.log".to_owned(),
        "engine.log".to_owned(),
        "1.log".to_owned(),
        "notes.txt".to_owned(),
        "3.log.log".to_owned(),
        "1.log".to_owned(),
    ];
    let ids = get_file_ids(&names);
    // "engine" and "notes.txt" carry no id; "3.log.log" trims to 3; the
    // duplicate 1 appears once
    assert_eq!(ids, vec![1u64, 2, 3, 10]);
}

#[test]
fn stale_reader_eviction() {
    let cached: Vec<u64> = vec![1, 5, 3, 9, 7];
    let stale = kvs::stale_reader_ids(&cached, 5);
    assert_eq!(stale, vec![1u64, 5, 3]);
    assert_eq!(kvs::stale_reader_ids(&cached, 0), Vec::<u64>::new());
}

#[test]
fn index_entry_len_is_cursor_difference() {
    let e = IndexEntry::new(7, 100, 142);
    assert_eq!(e.file_id, 7);
    assert_eq!(e.offset, 100);
    assert_eq!(e.len, 42);
}

#[test]
fn error_messages() {
    assert_eq!(KvsError::KeyNotFound.message(), "Key not found");
    assert_eq!(KvsError::BrokenCommand.message(), "broken command");
    assert_eq!(KvsError::BrokenEngine.message(), "broken engine log file");
    assert_eq!(KvsError::Serde("bad".to_owned()).message(), "serde_json error bad");
}

#[test]
fn record_codec_round_trip() {
    let cmd = kvs::Command::set("key1".to_owned(), "value1".to_owned());
    let bytes = kvs::encode_command(&cmd);
    assert_eq!(bytes.as_slice(), &br#"{"Set":{"key":"key1","value":"value1"}}"#[..]);
    let (back, used) = kvs::parse_command(bytes.as_slice()).unwrap();
    assert_eq!(used, bytes.len());
    assert!(matches!(back, kvs::Command::Put { key, value } if key == "key1" && value == "value1"));

    let rm = kvs::Command::rm("key1".to_owned());
    let rm_bytes = kvs::encode_command(&rm);
    assert_eq!(rm_bytes.as_slice(), &br#"{"Rm":{"key":"key1"}}"#[..]);
    let (back, used) = kvs::parse_command(rm_bytes.as_slice()).unwrap();
    assert_eq!(used, rm_bytes.len());
    assert!(matches!(back, kvs::Command::Rm { key } if key == "key1"));
}

#[test]
fn open_refuses_corrupt_segment() {
    let seg = kvs::Segment { file_id: 1, data: b"not a record".to_vec() };
    let err = match KvStore::open(vec![seg]) {
        Err(e) => e,
        Ok(_) => panic!("a corrupt segment must be refused"),
    };
    assert!(matches!(err, KvsError::Serde(_)));
}

#[test]
fn open_replays_records_in_order() {
    // two segments written by an earlier run: an overwrite and a removal
    let mut first = Vec::new();
    first.extend_from_slice(br#"{"Set":{"key":"a","value":"1"}}"#);
    first.extend_from_slice(br#"{"Set":{"key":"b","value":"2"}}"#);
    let mut second = Vec::new();
    second.extend_from_slice(br#"{"Set":{"key":"a","value":"3"}}"#);
    second.extend_from_slice(br#"{"Rm":{"key":"b"}}"#);
    let segs = vec![
        kvs::Segment { file_id: 1, data: first },
        kvs::Segment { file_id: 2, data: second },
    ];
    let store = KvStore::open(segs).unwrap();
    assert_eq!(store.get("a".to_owned()).unwrap(), Some("3".to_owned()));
    assert_eq!(store.get("b".to_owned()).unwrap(), None);
}
