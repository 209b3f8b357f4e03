use kvs::mem_table::MemTable;

#[test]
fn mem_table_put_start() {
    let mut table = MemTable::new();
    table.set(b"Lime", b"Lime Smoothie", 0); // 17 + 16 + 1
    table.set(b"Orange", b"Orange Smoothie", 10); // 21 + 16 + 1

    table.set(b"Apple", b"Apple Smoothie", 20); // 19 + 16 + 1

    assert_eq!(table.entry_at(0).key, b"Apple");
    assert_eq!(table.entry_at(0).value.as_ref().unwrap(), b"Apple Smoothie");
    assert_eq!(table.entry_at(0).timestamp, 20);
    assert_eq!(table.entry_at(0).deleted, false);
    assert_eq!(table.entry_at(1).key, b"Lime");
    assert_eq!(table.entry_at(1).value.as_ref().unwrap(), b"Lime Smoothie");
    assert_eq!(table.entry_at(1).timestamp, 0);
    assert_eq!(table.entry_at(1).deleted, false);
    assert_eq!(table.entry_at(2).key, b"Orange");
    assert_eq!(table.entry_at(2).value.as_ref().unwrap(), b"Orange Smoothie");
    assert_eq!(table.entry_at(2).timestamp, 10);
    assert_eq!(table.entry_at(2).deleted, false);

    assert_eq!(table.len(), 108);
}

#[test]
fn mem_table_put_middle() {
    let mut table = MemTable::new();
    table.set(b"Apple", b"Apple Smoothie", 0);
    table.set(b"Orange", b"Orange Smoothie", 10);

    table.set(b"Lime", b"Lime Smoothie", 20);

    assert_eq!(table.entry_at(0).key, b"Apple");
    assert_eq!(table.entry_at(0).value.as_ref().unwrap(), b"Apple Smoothie");
    assert_eq!(table.entry_at(0).timestamp, 0);
    assert_eq!(table.entry_at(0).deleted, false);
    assert_eq!(table.entry_at(1).key, b"Lime");
    assert_eq!(table.entry_at(1).value.as_ref().unwrap(), b"Lime Smoothie");
    assert_eq!(table.entry_at(1).timestamp, 20);
    assert_eq!(table.entry_at(1).deleted, false);
    assert_eq!(table.entry_at(2).key, b"Orange");
    assert_eq!(table.entry_at(2).value.as_ref().unwrap(), b"Orange Smoothie");
    assert_eq!(table.entry_at(2).timestamp, 10);
    assert_eq!(table.entry_at(2).deleted, false);

    assert_eq!(table.len(), 108);
}

#[test]
fn mem_table_put_end() {
    let mut table = MemTable::new();
    table.set(b"Apple", b"Apple Smoothie", 0);
    table.set(b"Lime", b"Lime Smoothie", 10);

    table.set(b"Orange", b"Orange Smoothie", 20);

    assert_eq!(table.entry_at(0).key, b"Apple");
    assert_eq!(table.entry_at(0).value.as_ref().unwrap(), b"Apple Smoothie");
    assert_eq!(table.entry_at(0).timestamp, 0);
    assert_eq!(table.entry_at(0).deleted, false);
    assert_eq!(table.entry_at(1).key, b"Lime");
    assert_eq!(table.entry_at(1).value.as_ref().unwrap(), b"Lime Smoothie");
    assert_eq!(table.entry_at(1).timestamp, 10);
    assert_eq!(table.entry_at(1).deleted, false);
    assert_eq!(table.entry_at(2).key, b"Orange");
    assert_eq!(table.entry_at(2).value.as_ref().unwrap(), b"Orange Smoothie");
    assert_eq!(table.entry_at(2).timestamp, 20);
    assert_eq!(table.entry_at(2).deleted, false);

    assert_eq!(table.len(), 108);
}

#[test]
fn mem_table_put_overwrite() {
    let mut table = MemTable::new();
    table.set(b"Apple", b"Apple Smoothie", 0);
    table.set(b"Lime", b"Lime Smoothie", 10);
    table.set(b"Orange", b"Orange Smoothie", 20);

    table.set(b"Lime", b"A sour fruit", 30);

    assert_eq!(table.entry_at(0).key, b"Apple");
    assert_eq!(table.entry_at(0).value.as_ref().unwrap(), b"Apple Smoothie");
    assert_eq!(table.entry_at(0).timestamp, 0);
    assert_eq!(table.entry_at(0).deleted, false);
    assert_eq!(table.entry_at(1).key, b"Lime");
    assert_eq!(table.entry_at(1).value.as_ref().unwrap(), b"A sour fruit");
    assert_eq!(table.entry_at(1).timestamp, 30);
    assert_eq!(table.entry_at(1).deleted, false);
    assert_eq!(table.entry_at(2).key, b"Orange");
    assert_eq!(table.entry_at(2).value.as_ref().unwrap(), b"Orange Smoothie");
    assert_eq!(table.entry_at(2).timestamp, 20);
    assert_eq!(table.entry_at(2).deleted, false);

    assert_eq!(table.len(), 107);
}

#[test]
fn mem_table_get_exists() {
    let mut table = MemTable::new();
    table.set(b"Apple", b"Apple Smoothie", 0);
    table.set(b"Lime", b"Lime Smoothie", 10);
    table.set(b"Orange", b"Orange Smoothie", 20);

    let entry = table.get(b"Orange").unwrap();

    assert_eq!(entry.key, b"Orange");
    assert_eq!(entry.value.as_ref().unwrap(), b"Orange Smoothie");
    assert_eq!(entry.timestamp, 20);
}

#[test]
fn mem_table_get_not_exists() {
    let mut table = MemTable::new();
    table.set(b"Apple", b"Apple Smoothie", 0);
    table.set(b"Lime", b"Lime Smoothie", 0);
    table.set(b"Orange", b"Orange Smoothie", 0);

    let res = table.get(b"Potato");
    assert_eq!(res.is_some(), false);
}

#[test]
fn mem_table_delete_exists() {
    let mut table = MemTable::new();
    table.set(b"Apple", b"Apple Smoothie", 0);

    table.delete(b"Apple", 10);

    let res = table.get(b"Apple").unwrap();
    assert_eq!(res.key, b"Apple");
    assert_eq!(res.value, None);
    assert_eq!(res.timestamp, 10);
    assert_eq!(res.deleted, true);

    assert_eq!(table.entry_at(0).key, b"Apple");
    assert_eq!(table.entry_at(0).value, None);
    assert_eq!(table.entry_at(0).timestamp, 10);
    assert_eq!(table.entry_at(0).deleted, true);

    assert_eq!(table.len(), 22);
}

#[test]
fn mem_table_delete_empty() {
    let mut table = MemTable::new();

    table.delete(b"Apple", 10);

    let res = table.get(b"Apple").unwrap();
    assert_eq!(res.key, b"Apple");
    assert_eq!(res.value, None);
    assert_eq!(res.timestamp, 10);
    assert_eq!(res.deleted, true);

    assert_eq!(table.entry_at(0).key, b"Apple");
    assert_eq!(table.entry_at(0).value, None);
    assert_eq!(table.entry_at(0).timestamp, 10);
    assert_eq!(table.entry_at(0).deleted, true);

    assert_eq!(table.len(), 22);
}

#[test]
fn mem_table_index_positions() {
    let mut table = MemTable::new();
    table.set(b"b", b"1", 0);
    table.set(b"d", b"2", 1);
    assert_eq!(table.get_index(b"b"), Ok(0));
    assert_eq!(table.get_index(b"d"), Ok(1));
    assert_eq!(table.get_index(b"a"), Err(0));
    assert_eq!(table.get_index(b"c"), Err(1));
    assert_eq!(table.get_index(b"e"), Err(2));
}

#[test]
fn mem_table_new_is_empty() {
    let mut table = MemTable::new();
    assert!(table.is_empty());
    assert_eq!(table.len(), 0);
    assert_eq!(table.entry_count(), 0);
    table.set(b"k", b"", 0);
    assert!(!table.is_empty());
    assert_eq!(table.len(), 18);
    assert_eq!(table.entry_count(), 1);
}
