use bitcask::format::FormatError;
use bitcask::store::LogStore;

fn encoded(text: &str) -> Vec<u8> {
    bincode::encode_to_vec(text, bincode::config::standard()).unwrap()
}

fn kv_pairs() -> Vec<(&'static str, &'static str)> {
    vec![
        ("crime and punishment", "dostoevsky"),
        ("anna karenina", "tolstoy"),
        ("war and peace", "tolstoy"),
        ("hamlet", "shakespeare"),
        ("othello", "shakespeare"),
        ("brave new world", "huxley"),
        ("dune", "frank herbert"),
    ]
}

fn reopened(store: &LogStore) -> LogStore {
    LogStore::open(store.log_bytes().clone()).unwrap()
}

#[test]
fn test_get() {
    let mut store = LogStore::open(Vec::new()).unwrap();
    store.set(encoded("name"), encoded("jojo"));

    assert_eq!(store.get(&encoded("name")).unwrap().unwrap(), encoded("jojo"));
}

#[test]
fn test_invalid_key() {
    let store = LogStore::open(Vec::new()).unwrap();
    assert_eq!(store.get(&encoded("some key")).unwrap(), None)
}

#[test]
fn test_persistence() {
    let mut store = LogStore::open(Vec::new()).unwrap();
    let tests = kv_pairs();
    for (key, value) in tests.iter() {
        store.set(encoded(key), encoded(value));
        assert_eq!(store.get(&encoded(key)).unwrap().unwrap(), encoded(value));
    }

    let store = reopened(&store);
    for (key, value) in tests {
        assert_eq!(store.get(&encoded(key)).unwrap().unwrap(), encoded(value));
    }
}

#[test]
fn test_deletion() {
    let mut store = LogStore::open(Vec::new()).unwrap();
    let tests = kv_pairs();
    for (key, value) in tests.iter() {
        store.set(encoded(key), encoded(value));
        assert_eq!(store.get(&encoded(key)).unwrap().unwrap(), encoded(value));
    }
    for (key, _) in tests.iter() {
        store.set(encoded(key), encoded(""));
        assert_eq!(store.get(&encoded(key)).unwrap().unwrap(), encoded(""));
    }
    store.set(encoded("end"), encoded("yes"));

    let store = reopened(&store);
    for (key, _) in tests {
        assert_eq!(store.get(&encoded(key)).unwrap().unwrap(), encoded(""));
    }
    assert_eq!(store.get(&encoded("end")).unwrap().unwrap(), encoded("yes"))
}

#[test]
fn test_get_new_file() {
    let mut store = LogStore::open(Vec::new()).unwrap();
    store.set(encoded("name"), encoded("jojo"));

    assert_eq!(store.get(&encoded("name")).unwrap().unwrap(), encoded("jojo"));

    let store = reopened(&store);

    assert_eq!(store.get(&encoded("name")).unwrap().unwrap(), encoded("jojo"));
}

#[test]
fn test_last_write_wins() {
    let mut store = LogStore::open(Vec::new()).unwrap();
    store.set(b"k".to_vec(), b"one".to_vec());
    store.set(b"k".to_vec(), b"two".to_vec());
    assert_eq!(store.get(&b"k".to_vec()).unwrap().unwrap(), b"two".to_vec());
}

#[test]
fn test_empty_value_still_present() {
    let mut store = LogStore::open(Vec::new()).unwrap();
    store.set(b"k".to_vec(), Vec::new());
    // An empty value is retrievable, not "not found".
    assert_eq!(store.get(&b"k".to_vec()).unwrap(), Some(Vec::new()));
}

#[test]
fn test_reopen_twice_deterministic() {
    let mut store = LogStore::open(Vec::new()).unwrap();
    for (key, value) in kv_pairs() {
        store.set(encoded(key), encoded(value));
    }
    store.set(encoded("hamlet"), encoded("rewritten"));

    let first = reopened(&store);
    let second = reopened(&store);
    assert_eq!(first.log_bytes(), second.log_bytes());
    for (key, _) in kv_pairs() {
        assert_eq!(first.get(&encoded(key)).unwrap(), second.get(&encoded(key)).unwrap());
    }
}

#[test]
fn test_set_returns_appended_bytes() {
    let mut store = LogStore::open(Vec::new()).unwrap();
    let first = store.set(b"a".to_vec(), b"xy".to_vec());
    let second = store.set(b"b".to_vec(), Vec::new());
    // The log is exactly the concatenation of what the two calls appended.
    let mut expected = first.clone();
    expected.extend_from_slice(&second);
    assert_eq!(store.log_bytes(), &expected);
    assert_eq!(first.len(), 16 + 1 + 2);
    assert_eq!(second.len(), 16 + 1);
}

#[test]
fn test_open_rejects_truncated_log() {
    let mut store = LogStore::open(Vec::new()).unwrap();
    store.set(b"key".to_vec(), b"value".to_vec());
    let mut bytes = store.log_bytes().clone();
    // Cut the record's last byte off: recovery reports the short value.
    bytes.pop();
    match LogStore::open(bytes) {
        Err(e) => assert_eq!(e, FormatError::Value(4, 5)),
        Ok(_) => panic!("a truncated log must be rejected"),
    }

    // Fewer bytes than one header: recovery reports the short header.
    match LogStore::open(vec![1, 2, 3]) {
        Err(e) => assert_eq!(e, FormatError::Header(3)),
        Ok(_) => panic!("a short header must be rejected"),
    }
}
