use kvs::database::{Database, DatabaseEntry};
use kvs::error::KvsError;
use kvs::store::Store;

fn open(log: Vec<u8>) -> Database {
    Database::new(String::from("/tmp/kvs"), log).unwrap()
}

fn reopen(db: &Database) -> Database {
    open(db.log_bytes().clone())
}

#[test]
fn end_to_end_scenario() {
    let mut db = open(Vec::new());
    db.set(b"k1", b"v").unwrap();
    assert_eq!(db.get(b"k1").unwrap().unwrap(), b"v");
    db.set(b"k1", b"v1").unwrap();
    assert_eq!(db.get(b"k1").unwrap().unwrap(), b"v1");
    db.remove(b"k1").unwrap();
    assert_eq!(db.get(b"k1").unwrap(), None);
    let db2 = reopen(&db);
    assert_eq!(db2.get(b"k1").unwrap(), None);
}

#[test]
fn recovery_reproduces_state() {
    let mut db = open(Vec::new());
    db.set(b"alpha", b"1").unwrap();
    db.set(b"beta", b"2").unwrap();
    db.set(b"alpha", b"3").unwrap();
    db.remove(b"beta").unwrap();
    db.set(b"gamma", b"4").unwrap();

    let db2 = reopen(&db);
    for key in [&b"alpha"[..], b"beta", b"gamma", b"delta"] {
        assert_eq!(db.get(key).unwrap(), db2.get(key).unwrap());
    }
    assert_eq!(db2.get(b"alpha").unwrap().unwrap(), b"3");
    assert_eq!(db2.get(b"beta").unwrap(), None);
    assert_eq!(db2.get(b"gamma").unwrap().unwrap(), b"4");

    // a second recovery from the recovered engine changes nothing
    let db3 = reopen(&db2);
    assert_eq!(db3.log_bytes(), db2.log_bytes());
    assert_eq!(db3.get(b"alpha").unwrap().unwrap(), b"3");
}

#[test]
fn truncated_log_keeps_prefix() {
    let mut db = open(Vec::new());
    db.set(b"k1", b"v").unwrap();
    let prefix_len = db.log_bytes().len();
    db.set(b"k2", b"vv").unwrap();

    // cut the last frame short: a crash in the middle of an append
    let mut bytes = db.log_bytes().clone();
    assert!(bytes.len() > prefix_len + 1);
    bytes.truncate(prefix_len + (bytes.len() - prefix_len) / 2);

    let db2 = open(bytes);
    assert_eq!(db2.get(b"k1").unwrap().unwrap(), b"v");
    assert_eq!(db2.get(b"k2").unwrap(), None);
}

#[test]
fn truncated_header_keeps_prefix() {
    let mut db = open(Vec::new());
    db.set(b"k1", b"v").unwrap();
    let prefix_len = db.log_bytes().len();
    db.set(b"k2", b"vv").unwrap();

    // fewer bytes than one header: the trailing record is discarded too
    let mut bytes = db.log_bytes().clone();
    bytes.truncate(prefix_len + 10);

    let db2 = open(bytes);
    assert_eq!(db2.get(b"k1").unwrap().unwrap(), b"v");
    assert_eq!(db2.get(b"k2").unwrap(), None);
}

#[test]
fn corrupt_flag_fails_open() {
    let mut db = open(Vec::new());
    db.set(b"k1", b"v").unwrap();
    let mut bytes = db.log_bytes().clone();
    // byte 16 of a frame is its flag; anything above 1 is inconsistent
    bytes[16] = 7;
    let r = Database::new(String::from("/tmp/kvs"), bytes);
    assert!(matches!(r, Err(KvsError::UnExpectedCommandType)));
}

#[test]
fn empty_key_in_log_fails_open() {
    // a frame announcing a zero-length key is inconsistent: keys are non-empty
    let mut bytes = vec![0u8; 33];
    bytes[16] = 0;
    let r = Database::new(String::from("/tmp/kvs"), bytes);
    assert!(matches!(r, Err(KvsError::UnExpectedCommandType)));
}

#[test]
fn tombstone_with_value_bytes_fails_open() {
    // key length 1, value length 1, tombstone flag: a tombstone carrying
    // value bytes is an unexpected record shape
    let mut bytes = vec![0u8; 35];
    bytes[0] = 1;
    bytes[8] = 1;
    bytes[16] = 1;
    let r = Database::new(String::from("/tmp/kvs"), bytes);
    assert!(matches!(r, Err(KvsError::UnExpectedCommandType)));
}

#[test]
fn empty_log_opens_empty() {
    let db = open(Vec::new());
    assert_eq!(db.get(b"anything").unwrap(), None);
    assert_eq!(db.log_bytes().len(), 0);
    assert_eq!(db.dir().as_str(), "/tmp/kvs");
}

#[test]
fn empty_value_round_trip() {
    let mut db = open(Vec::new());
    db.set(b"k", b"").unwrap();
    assert_eq!(db.get(b"k").unwrap().unwrap(), b"");
    let db2 = reopen(&db);
    assert_eq!(db2.get(b"k").unwrap().unwrap(), b"");
}

#[test]
fn database_entry_accessors() {
    let e = DatabaseEntry::new(b"Lime".to_vec(), b"Lime Smoothie".to_vec(), 42);
    assert_eq!(e.key(), b"Lime");
    assert_eq!(e.value(), b"Lime Smoothie");
    assert_eq!(e.timestamp(), 42);
}

#[test]
fn wal_iterator_yields_records_in_order() {
    let mut db = open(Vec::new());
    db.set(b"a", b"1").unwrap();
    db.remove(b"b").unwrap();
    let bytes = db.log_bytes().clone();
    // one frame is 33 header bytes plus key and value bytes
    assert_eq!(bytes.len(), 35 + 34);

    let mut iter = kvs::wal::WalIterator::new(&bytes);
    let e1 = iter.next().unwrap().unwrap();
    assert_eq!(e1.key, b"a");
    assert_eq!(e1.value.as_ref().unwrap(), b"1");
    assert_eq!(e1.deleted, false);
    let e2 = iter.next().unwrap().unwrap();
    assert_eq!(e2.key, b"b");
    assert_eq!(e2.value, None);
    assert_eq!(e2.deleted, true);
    assert!(iter.next().is_none());
    // single pass: once ended, it stays ended
    assert!(iter.next().is_none());
}

#[test]
fn wal_iterator_discards_truncated_tail() {
    let mut db = open(Vec::new());
    db.set(b"a", b"1").unwrap();
    db.set(b"b", b"2").unwrap();
    let mut bytes = db.log_bytes().clone();
    bytes.truncate(bytes.len() - 1);

    let mut iter = kvs::wal::WalIterator::new(&bytes);
    let e1 = iter.next().unwrap().unwrap();
    assert_eq!(e1.key, b"a");
    assert!(iter.next().is_none());
}
