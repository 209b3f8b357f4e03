use kvs::database::Database;
use kvs::memory::MemoryKvStore;
use kvs::store::Store;

fn check_set(store: &mut impl Store) {
    let v = store.set(b"k1", b"v").unwrap();
    assert_eq!(v, ());

    let v = store.set(b"k1", b"v1").unwrap();
    assert_eq!(v, ());
}

fn check_get(store: &mut impl Store) {
    let v = store.get(b"k1").unwrap();
    assert!(v.is_none());

    assert_eq!(store.set(b"k1", b"v1").unwrap(), ());

    let v = store.get(b"k1").unwrap().unwrap();
    assert_eq!(v, b"v1");
}

fn check_remove(store: &mut impl Store) {
    assert_eq!(store.remove(b"k1").unwrap(), ());
    assert_eq!(store.set(b"k1", b"v1").unwrap(), ());

    let v = store.get(b"k1").unwrap().unwrap();
    assert_eq!(v, b"v1");

    let v = store.remove(b"k1").unwrap();
    assert_eq!(v, ());

    let v = store.get(b"k1").unwrap();
    assert_eq!(v, None);
}

#[test]
fn memory_get() {
    let mut store = MemoryKvStore::new();
    check_get(&mut store);
}

#[test]
fn memory_set() {
    let mut store = MemoryKvStore::new();
    check_set(&mut store);
}

#[test]
fn memory_remove() {
    let mut store = MemoryKvStore::new();
    check_remove(&mut store);
}

fn fresh_database() -> Database {
    Database::new(String::from("/tmp/kvs"), Vec::new()).unwrap()
}

#[test]
fn database_get() {
    let mut store = fresh_database();
    check_get(&mut store);
}

#[test]
fn database_set() {
    let mut store = fresh_database();
    check_set(&mut store);
}

#[test]
fn database_remove() {
    let mut store = fresh_database();
    check_remove(&mut store);
}
