use kvs::codec::{decode, encode, read_record};
use kvs::{Command, KvStore, KvsError, LogRecord};

fn s(x: &str) -> String {
    x.to_owned()
}

fn put(k: &str, v: &str) -> Command {
    Command::Put { key: s(k), value: s(v) }
}

fn key_value(c: &Command) -> (String, Option<String>) {
    match c {
        Command::Put { key, value } => (key.clone(), Some(value.clone())),
        Command::Remove { key } => (key.clone(), None),
    }
}

#[test]
fn serialize_lays_out_offset_length_payload() {
    let payload = [9u8, 8];
    let rec = LogRecord::new(258, &payload);
    assert_eq!(rec.memsize, 2);
    assert_eq!(rec.serialize(), vec![0, 0, 0, 0, 0, 0, 1, 2, 0, 0, 0, 2, 9, 8]);
}

#[test]
fn serialize_copies_only_memsize_bytes() {
    let payload = [5u8, 6, 7, 8];
    let rec = LogRecord { offset: 1, memsize: 2, command: &payload };
    assert_eq!(rec.serialize(), vec![0, 0, 0, 0, 0, 0, 0, 1, 0, 0, 0, 2, 5, 6]);
}

#[test]
fn compact_twice_keeps_log() {
    let mut store = KvStore::new();
    store.set(s("a"), s("1")).unwrap();
    store.set(s("a"), s("2")).unwrap();
    store.set(s("b"), s("3")).unwrap();
    store.compact();
    let once = store.log().clone();
    store.compact();
    assert_eq!(store.log().len(), once.len());
    assert_eq!(store.get(s("a")), Some(s("2")));
    assert_eq!(store.get(s("b")), Some(s("3")));
}

#[test]
fn encode_put_exact_bytes() {
    let b = encode(&put("a", "1"), 0).unwrap();
    assert_eq!(b, vec![0, 0, 0, 0, 0, 0, 0, 0, 0, 0, 0, 7, 0, 0, 0, 0, 1, b'a', b'1']);
}

#[test]
fn encode_remove_exact_bytes() {
    let b = encode(&Command::Remove { key: s("bc") }, 300).unwrap();
    assert_eq!(b, vec![0, 0, 0, 0, 0, 0, 1, 44, 0, 0, 0, 3, 1, b'b', b'c']);
}

#[test]
fn round_trip_commands() {
    let cmds = vec![
        put("a", "1"),
        put("", ""),
        put("κλειδί", "värde ✓"),
        Command::Remove { key: s("gone") },
        Command::Remove { key: s("") },
    ];
    for c in cmds.iter() {
        let b = encode(c, 77).unwrap();
        let d = decode(&b).unwrap();
        assert_eq!(key_value(&d), key_value(c));
    }
}

#[test]
fn decode_rejects_short_and_malformed() {
    assert_eq!(decode(&[0u8; 5]).unwrap_err(), KvsError::Decode);
    // declared length runs past the buffer
    assert_eq!(decode(&[0, 0, 0, 0, 0, 0, 0, 0, 0, 0, 0, 9, 1, b'a']).unwrap_err(), KvsError::Decode);
    // unknown tag
    assert_eq!(decode(&[0, 0, 0, 0, 0, 0, 0, 0, 0, 0, 0, 2, 7, b'a']).unwrap_err(), KvsError::Decode);
    // key that is not UTF-8
    assert_eq!(decode(&[0, 0, 0, 0, 0, 0, 0, 0, 0, 0, 0, 2, 1, 0xff]).unwrap_err(), KvsError::Decode);
}

#[test]
fn read_record_checks_start_offset() {
    let b = encode(&put("k", "v"), 0).unwrap();
    let (c, n) = read_record(&b, 0).unwrap();
    assert_eq!(n, b.len());
    assert_eq!(key_value(&c), (s("k"), Some(s("v"))));
    let moved = encode(&put("k", "v"), 5).unwrap();
    assert!(read_record(&moved, 0).is_none());
}

#[test]
fn get_on_empty_store() {
    let store = KvStore::new();
    assert_eq!(store.get(s("a")), None);
    assert!(store.log().is_empty());
}

#[test]
fn set_then_get_and_overwrite() {
    let mut store = KvStore::new();
    store.set(s("k"), s("v1")).unwrap();
    assert_eq!(store.get(s("k")), Some(s("v1")));
    store.set(s("k"), s("v2")).unwrap();
    assert_eq!(store.get(s("k")), Some(s("v2")));
    assert_eq!(store.get(s("other")), None);
}

#[test]
fn remove_absent_key_fails_and_changes_nothing() {
    let mut store = KvStore::new();
    store.set(s("a"), s("1")).unwrap();
    let before = store.log().clone();
    assert_eq!(store.remove(s("b")), Err(KvsError::KeyNotFound));
    assert_eq!(store.log(), &before);
    assert_eq!(store.get(s("a")), Some(s("1")));
    store.remove(s("a")).unwrap();
    assert_eq!(store.remove(s("a")), Err(KvsError::KeyNotFound));
}

#[test]
fn scenario_set_remove_reopen_compact() {
    let mut store = KvStore::new();
    store.set(s("a"), s("1")).unwrap();
    store.set(s("b"), s("2")).unwrap();
    store.set(s("a"), s("3")).unwrap();
    store.remove(s("b")).unwrap();
    assert_eq!(store.get(s("a")), Some(s("3")));
    assert_eq!(store.get(s("b")), None);
    assert_eq!(store.log().len(), 19 + 19 + 19 + 14);

    let reopened = KvStore::open(store.log().clone()).unwrap();
    assert_eq!(reopened.get(s("a")), Some(s("3")));
    assert_eq!(reopened.get(s("b")), None);
    assert_eq!(reopened.log(), store.log());

    let before = store.log().len();
    store.compact();
    assert!(store.log().len() <= before);
    assert_eq!(
        store.log(),
        &vec![0, 0, 0, 0, 0, 0, 0, 0, 0, 0, 0, 7, 0, 0, 0, 0, 1, b'a', b'3']
    );
    assert_eq!(store.get(s("a")), Some(s("3")));
    assert_eq!(store.get(s("b")), None);
}

#[test]
fn compact_without_overwrites_keeps_size() {
    let mut store = KvStore::new();
    store.set(s("x"), s("1")).unwrap();
    store.set(s("y"), s("22")).unwrap();
    let before = store.log().len();
    store.compact();
    assert_eq!(store.log().len(), before);
    assert_eq!(store.get(s("x")), Some(s("1")));
    assert_eq!(store.get(s("y")), Some(s("22")));
}

#[test]
fn compact_then_write_and_reopen() {
    let mut store = KvStore::new();
    store.set(s("x"), s("1")).unwrap();
    store.remove(s("x")).unwrap();
    store.compact();
    assert!(store.log().is_empty());
    store.set(s("y"), s("2")).unwrap();
    let reopened = KvStore::open(store.log().clone()).unwrap();
    assert_eq!(reopened.get(s("y")), Some(s("2")));
    assert_eq!(reopened.get(s("x")), None);
}

#[test]
fn open_empty_log() {
    let store = KvStore::open(Vec::new()).unwrap();
    assert_eq!(store.get(s("a")), None);
}

#[test]
fn open_rejects_corrupt_first_record() {
    assert_eq!(KvStore::open(vec![1, 2, 3]).err(), Some(KvsError::CorruptRecord));
    let moved = encode(&put("k", "v"), 5).unwrap();
    assert_eq!(KvStore::open(moved).err(), Some(KvsError::CorruptRecord));
}

#[test]
fn open_truncates_trailing_garbage() {
    let mut store = KvStore::new();
    store.set(s("a"), s("1")).unwrap();
    store.set(s("b"), s("2")).unwrap();
    let good = store.log().clone();
    let mut damaged = good.clone();
    damaged.extend_from_slice(&[0, 0, 0, 0, 0, 0, 0, 38, 0, 0]);
    let reopened = KvStore::open(damaged).unwrap();
    assert_eq!(reopened.log(), &good);
    assert_eq!(reopened.get(s("a")), Some(s("1")));
    assert_eq!(reopened.get(s("b")), Some(s("2")));
}
