use vstd::prelude::*;

use crate::order::{key_lt, lemma_key_lt_connected, lemma_key_lt_irrefl, lemma_key_lt_trans};

verus! {

/// Mathematical model of one record: the unit of durability and of index
/// content. A write carries a value; a tombstone carries none and has the
/// `deleted` flag set.
pub ghost struct EntryModel {
    pub key: Seq<u8>,
    pub value: Option<Seq<u8>>,
    pub timestamp: u128,
    pub deleted: bool,
}

/// The record a write of `value` under `key` produces.
pub open spec fn write_model(key: Seq<u8>, value: Seq<u8>, timestamp: u128) -> EntryModel {
    EntryModel { key, value: Some(value), timestamp, deleted: false }
}

/// The tombstone record a delete of `key` produces.
pub open spec fn tombstone_model(key: Seq<u8>, timestamp: u128) -> EntryModel {
    EntryModel { key, value: None, timestamp, deleted: true }
}

/// Every record has a non-empty key, and carries a value exactly when it is
/// not a tombstone.
pub open spec fn valid_entry(e: EntryModel) -> bool {
    &&& e.key.len() > 0
    &&& (e.deleted <==> e.value is None)
}

/// Entries strictly increasing by key: the ordering invariant of the index.
pub open spec fn sorted(s: Seq<EntryModel>) -> bool {
    forall|i: int, j: int| 0 <= i < j < s.len() ==> #[trigger] key_lt(s[i].key, s[j].key)
}

/// Full well-formedness of an index content: strictly sorted, every record
/// valid.
pub open spec fn entries_inv(s: Seq<EntryModel>) -> bool {
    &&& sorted(s)
    &&& forall|i: int| 0 <= i < s.len() ==> valid_entry(#[trigger] s[i])
}

/// The record stored under key `k`, live or tombstone, if any.
pub open spec fn lookup(s: Seq<EntryModel>, k: Seq<u8>) -> Option<EntryModel>
    decreases s.len(),
{
    if s.len() == 0 {
        None
    } else if s[0].key == k {
        Some(s[0])
    } else {
        lookup(s.drop_first(), k)
    }
}

/// Whether some record (live or tombstone) is stored under key `k`.
pub open spec fn contains_key(s: Seq<EntryModel>, k: Seq<u8>) -> bool {
    lookup(s, k) is Some
}

/// The value a read of key `k` observes: the stored value of a live record,
/// absent for a missing key or a tombstone.
pub open spec fn read_value(s: Seq<EntryModel>, k: Seq<u8>) -> Option<Seq<u8>> {
    match lookup(s, k) {
        Some(e) => e.value,
        None => None,
    }
}

/// Byte length of a stored optional value.
pub open spec fn stored_len(v: Option<Seq<u8>>) -> nat {
    match v {
        Some(b) => b.len(),
        None => 0,
    }
}

/// Per-record byte-size estimate: key bytes, value bytes, 16 bytes of
/// timestamp and 1 byte of tombstone flag.
pub open spec fn entry_cost(e: EntryModel) -> nat {
    e.key.len() + stored_len(e.value) + 17
}

/// Aggregate byte-size estimate of an index content.
pub open spec fn table_cost(s: Seq<EntryModel>) -> nat
    decreases s.len(),
{
    if s.len() == 0 {
        0
    } else {
        entry_cost(s[0]) + table_cost(s.drop_first())
    }
}

/// The index content after applying record `e`: replace in place when the
/// key is present, otherwise insert at the position that keeps the entries
/// sorted. Both a write and a delete of the index are one `upsert_seq`.
pub open spec fn upsert_seq(s: Seq<EntryModel>, e: EntryModel) -> Seq<EntryModel>
    decreases s.len(),
{
    if s.len() == 0 {
        seq![e]
    } else if key_lt(s[0].key, e.key) {
        seq![s[0]] + upsert_seq(s.drop_first(), e)
    } else if e.key == s[0].key {
        seq![e] + s.drop_first()
    } else {
        seq![e] + s
    }
}

/// The index content that replaying a stream of records, in order, builds.
pub open spec fn apply_log(rs: Seq<EntryModel>) -> Seq<EntryModel>
    decreases rs.len(),
{
    if rs.len() == 0 {
        Seq::empty()
    } else {
        upsert_seq(apply_log(rs.drop_last()), rs.last())
    }
}

/// Aggregate per-record cost of a stream of records.
pub open spec fn log_cost(rs: Seq<EntryModel>) -> nat
    decreases rs.len(),
{
    if rs.len() == 0 {
        0
    } else {
        log_cost(rs.drop_last()) + entry_cost(rs.last())
    }
}

pub proof fn lemma_sorted_drop_first(s: Seq<EntryModel>)
    requires
        sorted(s),
        s.len() > 0,
    ensures
        sorted(s.drop_first()),
{
    let s1 = s.drop_first();
    assert forall|i: int, j: int| 0 <= i < j < s1.len() implies #[trigger] key_lt(
        s1[i].key,
        s1[j].key,
    ) by {
        assert(s1[i] == s[i + 1]);
        assert(s1[j] == s[j + 1]);
        assert(key_lt(s[i + 1].key, s[j + 1].key));
    }
}

pub proof fn lemma_inv_drop_first(s: Seq<EntryModel>)
    requires
        entries_inv(s),
        s.len() > 0,
    ensures
        entries_inv(s.drop_first()),
{
    lemma_sorted_drop_first(s);
    assert forall|i: int| 0 <= i < s.drop_first().len() implies valid_entry(
        #[trigger] s.drop_first()[i],
    ) by {
        assert(s.drop_first()[i] == s[i + 1]);
        assert(valid_entry(s[i + 1]));
    }
}

/// In a sorted index every key occurs at most once.
pub proof fn lemma_unique_keys(s: Seq<EntryModel>, i: int, j: int)
    requires
        sorted(s),
        0 <= i < s.len(),
        0 <= j < s.len(),
        s[i].key == s[j].key,
    ensures
        i == j,
{
    if i < j {
        assert(key_lt(s[i].key, s[j].key));
        lemma_key_lt_irrefl(s[i].key);
    }
    if j < i {
        assert(key_lt(s[j].key, s[i].key));
        lemma_key_lt_irrefl(s[i].key);
    }
}

/// A key stored at position `i` of a sorted index is what `lookup` finds.
pub proof fn lemma_lookup_at(s: Seq<EntryModel>, i: int, k: Seq<u8>)
    requires
        sorted(s),
        0 <= i < s.len(),
        s[i].key == k,
    ensures
        lookup(s, k) == Some(s[i]),
    decreases s.len(),
{
    if i == 0 {
    } else {
        assert(key_lt(s[0].key, s[i].key));
        if s[0].key == k {
            lemma_key_lt_irrefl(k);
        }
        lemma_sorted_drop_first(s);
        assert(s.drop_first()[i - 1] == s[i]);
        lemma_lookup_at(s.drop_first(), i - 1, k);
    }
}

/// A key stored at no position is one `lookup` misses.
pub proof fn lemma_lookup_none(s: Seq<EntryModel>, k: Seq<u8>)
    requires
        forall|j: int| 0 <= j < s.len() ==> (#[trigger] s[j]).key != k,
    ensures
        lookup(s, k) is None,
    decreases s.len(),
{
    if s.len() > 0 {
        assert forall|j: int| 0 <= j < s.drop_first().len() implies (#[trigger] s.drop_first()[j]).key
            != k by {
            assert(s.drop_first()[j] == s[j + 1]);
        }
        lemma_lookup_none(s.drop_first(), k);
    }
}

/// Applying a record keeps the index well formed; every resulting entry is
/// the applied record or one that was already stored.
pub proof fn lemma_upsert_inv(s: Seq<EntryModel>, e: EntryModel)
    requires
        sorted(s),
    ensures
        sorted(upsert_seq(s, e)),
        forall|i: int|
            0 <= i < upsert_seq(s, e).len() ==> (#[trigger] upsert_seq(s, e)[i] == e || s.contains(
                upsert_seq(s, e)[i],
            )),
        entries_inv(s) && valid_entry(e) ==> entries_inv(upsert_seq(s, e)),
    decreases s.len(),
{
    let r = upsert_seq(s, e);
    if s.len() == 0 {
    } else if key_lt(s[0].key, e.key) {
        let s1 = s.drop_first();
        lemma_sorted_drop_first(s);
        lemma_upsert_inv(s1, e);
        let r1 = upsert_seq(s1, e);
        assert(r == seq![s[0]] + r1);
        assert forall|i: int| 0 <= i < r.len() implies (#[trigger] r[i] == e || s.contains(
            r[i],
        )) by {
            if i == 0 {
                assert(r[0] == s[0]);
                assert(s.contains(s[0]));
            } else {
                assert(r[i] == r1[i - 1]);
                if r1[i - 1] == e {
                } else {
                    assert(s1.contains(r1[i - 1]));
                    let j = choose|j: int| 0 <= j < s1.len() && s1[j] == r1[i - 1];
                    assert(s[j + 1] == r1[i - 1]);
                    assert(s.contains(s[j + 1]));
                }
            }
        }
        assert forall|i: int, j: int| 0 <= i < j < r.len() implies #[trigger] key_lt(
            r[i].key,
            r[j].key,
        ) by {
            if i == 0 {
                assert(r[j] == r1[j - 1]);
                if r1[j - 1] == e {
                    assert(key_lt(s[0].key, e.key));
                } else {
                    let m = choose|m: int| 0 <= m < s1.len() && s1[m] == r1[j - 1];
                    assert(s[m + 1] == r1[j - 1]);
                    assert(key_lt(s[0].key, s[m + 1].key));
                }
            } else {
                assert(r[i] == r1[i - 1]);
                assert(r[j] == r1[j - 1]);
                assert(key_lt(r1[i - 1].key, r1[j - 1].key));
            }
        }
        if entries_inv(s) && valid_entry(e) {
            lemma_inv_drop_first(s);
            assert forall|i: int| 0 <= i < r.len() implies valid_entry(#[trigger] r[i]) by {
                if r[i] == e {
                } else {
                    assert(s.contains(r[i]));
                    let m = choose|m: int| 0 <= m < s.len() && s[m] == r[i];
                    assert(valid_entry(s[m]));
                }
            }
        }
    } else if e.key == s[0].key {
        let s1 = s.drop_first();
        assert(r == seq![e] + s1);
        assert forall|i: int| 0 <= i < r.len() implies (#[trigger] r[i] == e || s.contains(
            r[i],
        )) by {
            if i > 0 {
                assert(r[i] == s[i]);
                assert(s.contains(s[i]));
            }
        }
        assert forall|i: int, j: int| 0 <= i < j < r.len() implies #[trigger] key_lt(
            r[i].key,
            r[j].key,
        ) by {
            if i == 0 {
                assert(r[j] == s[j]);
                assert(key_lt(s[0].key, s[j].key));
            } else {
                assert(r[i] == s[i]);
                assert(r[j] == s[j]);
                assert(key_lt(s[i].key, s[j].key));
            }
        }
        if entries_inv(s) && valid_entry(e) {
            assert forall|i: int| 0 <= i < r.len() implies valid_entry(#[trigger] r[i]) by {
                if i > 0 {
                    assert(r[i] == s[i]);
                    assert(valid_entry(s[i]));
                }
            }
        }
    } else {
        // e.key orders strictly below s[0].key
        assert(r == seq![e] + s);
        lemma_key_lt_irrefl(e.key);
        if !key_lt(e.key, s[0].key) {
            lemma_key_lt_connected(s[0].key, e.key);
        }
        assert(key_lt(e.key, s[0].key));
        assert forall|i: int| 0 <= i < r.len() implies (#[trigger] r[i] == e || s.contains(
            r[i],
        )) by {
            if i > 0 {
                assert(r[i] == s[i - 1]);
                assert(s.contains(s[i - 1]));
            }
        }
        assert forall|i: int, j: int| 0 <= i < j < r.len() implies #[trigger] key_lt(
            r[i].key,
            r[j].key,
        ) by {
            if i == 0 {
                assert(r[j] == s[j - 1]);
                if j - 1 > 0 {
                    assert(key_lt(s[0].key, s[j - 1].key));
                    lemma_key_lt_trans(e.key, s[0].key, s[j - 1].key);
                }
            } else {
                assert(r[i] == s[i - 1]);
                assert(r[j] == s[j - 1]);
                assert(key_lt(s[i - 1].key, s[j - 1].key));
            }
        }
        if entries_inv(s) && valid_entry(e) {
            assert forall|i: int| 0 <= i < r.len() implies valid_entry(#[trigger] r[i]) by {
                if i > 0 {
                    assert(r[i] == s[i - 1]);
                    assert(valid_entry(s[i - 1]));
                }
            }
        }
    }
}

/// How applying a record changes what `lookup` sees: the applied record is
/// found under its key, every other key is untouched, and the entry count
/// grows exactly when the key was absent.
pub proof fn lemma_upsert_lookup(s: Seq<EntryModel>, e: EntryModel)
    requires
        sorted(s),
    ensures
        lookup(upsert_seq(s, e), e.key) == Some(e),
        forall|k: Seq<u8>| k != e.key ==> #[trigger] lookup(upsert_seq(s, e), k) == lookup(s, k),
        upsert_seq(s, e).len() == if contains_key(s, e.key) {
            s.len()
        } else {
            s.len() + 1
        },
    decreases s.len(),
{
    let r = upsert_seq(s, e);
    lemma_key_lt_irrefl(e.key);
    if s.len() == 0 {
        assert(r == seq![e]);
        assert(r[0].key == e.key);
        assert forall|k: Seq<u8>| k != e.key implies #[trigger] lookup(r, k) == lookup(s, k) by {
            assert(r.drop_first() =~= Seq::<EntryModel>::empty());
            assert(lookup(Seq::<EntryModel>::empty(), k) is None);
            assert(lookup(r, k) == lookup(r.drop_first(), k));
        }
    } else if key_lt(s[0].key, e.key) {
        let s1 = s.drop_first();
        lemma_sorted_drop_first(s);
        lemma_upsert_lookup(s1, e);
        let r1 = upsert_seq(s1, e);
        assert(r == seq![s[0]] + r1);
        assert(r.drop_first() =~= r1);
        assert(r[0] == s[0]);
        assert(s[0].key != e.key);
        assert forall|k: Seq<u8>| k != e.key implies #[trigger] lookup(r, k) == lookup(s, k) by {
            assert(lookup(r1, k) == lookup(s1, k));
        }
    } else if e.key == s[0].key {
        let s1 = s.drop_first();
        assert(r == seq![e] + s1);
        assert(r.drop_first() =~= s1);
        assert(r[0] == e);
        assert forall|k: Seq<u8>| k != e.key implies #[trigger] lookup(r, k) == lookup(s, k) by {
        }
    } else {
        if !key_lt(e.key, s[0].key) {
            lemma_key_lt_connected(s[0].key, e.key);
        }
        assert(key_lt(e.key, s[0].key));
        assert(r == seq![e] + s);
        assert(r.drop_first() =~= s);
        assert(r[0] == e);
        assert forall|j: int| 0 <= j < s.len() implies (#[trigger] s[j]).key != e.key by {
            if j > 0 {
                assert(key_lt(s[0].key, s[j].key));
                lemma_key_lt_trans(e.key, s[0].key, s[j].key);
            }
            if s[j].key == e.key {
                lemma_key_lt_irrefl(e.key);
            }
        }
        lemma_lookup_none(s, e.key);
    }
}

/// Applying a record raises the aggregate size estimate by at most the
/// record's own cost.
pub proof fn lemma_upsert_cost(s: Seq<EntryModel>, e: EntryModel)
    requires
        sorted(s),
    ensures
        table_cost(upsert_seq(s, e)) <= table_cost(s) + entry_cost(e),
    decreases s.len(),
{
    let r = upsert_seq(s, e);
    if s.len() == 0 {
        assert(r == seq![e]);
        assert(r.drop_first() =~= Seq::<EntryModel>::empty());
        assert(table_cost(Seq::<EntryModel>::empty()) == 0);
        assert(table_cost(r) == entry_cost(r[0]) + table_cost(r.drop_first()));
    } else if key_lt(s[0].key, e.key) {
        let s1 = s.drop_first();
        lemma_sorted_drop_first(s);
        lemma_upsert_cost(s1, e);
        let r1 = upsert_seq(s1, e);
        assert(r == seq![s[0]] + r1);
        assert(r.drop_first() =~= r1);
        assert(r[0] == s[0]);
        assert(table_cost(r) == entry_cost(s[0]) + table_cost(r1));
        assert(table_cost(s) == entry_cost(s[0]) + table_cost(s1));
    } else if e.key == s[0].key {
        assert(r == seq![e] + s.drop_first());
        assert(r.drop_first() =~= s.drop_first());
        assert(r[0] == e);
        assert(table_cost(r) == entry_cost(e) + table_cost(s.drop_first()));
        assert(table_cost(s) == entry_cost(s[0]) + table_cost(s.drop_first()));
    } else {
        assert(r == seq![e] + s);
        assert(r.drop_first() =~= s);
        assert(r[0] == e);
        assert(table_cost(r) == entry_cost(e) + table_cost(s));
    }
}

/// The mapping from keys to visible values that an index content presents:
/// missing keys and tombstones are absent.
pub open spec fn state_of(s: Seq<EntryModel>) -> Map<Seq<u8>, Seq<u8>> {
    Map::new(|k: Seq<u8>| read_value(s, k) is Some, |k: Seq<u8>| read_value(s, k).unwrap())
}

/// A write makes the visible mapping gain exactly that key and value.
pub proof fn lemma_state_write(s: Seq<EntryModel>, k: Seq<u8>, v: Seq<u8>, ts: u128)
    requires
        sorted(s),
    ensures
        state_of(upsert_seq(s, write_model(k, v, ts))) == state_of(s).insert(k, v),
{
    let r = upsert_seq(s, write_model(k, v, ts));
    lemma_upsert_lookup(s, write_model(k, v, ts));
    let m1 = state_of(r);
    let m2 = state_of(s).insert(k, v);
    assert(read_value(r, k) == Some(v));
    assert forall|k2: Seq<u8>| #[trigger] m1.dom().contains(k2) == m2.dom().contains(k2) by {
        if k2 != k {
            assert(lookup(r, k2) == lookup(s, k2));
        }
    }
    assert forall|k2: Seq<u8>| m1.dom().contains(k2) implies #[trigger] m1[k2] == m2[k2] by {
        if k2 != k {
            assert(lookup(r, k2) == lookup(s, k2));
        }
    }
    assert(m1 =~= m2);
}

/// A delete makes the visible mapping lose exactly that key.
pub proof fn lemma_state_tombstone(s: Seq<EntryModel>, k: Seq<u8>, ts: u128)
    requires
        sorted(s),
    ensures
        state_of(upsert_seq(s, tombstone_model(k, ts))) == state_of(s).remove(k),
{
    let r = upsert_seq(s, tombstone_model(k, ts));
    lemma_upsert_lookup(s, tombstone_model(k, ts));
    let m1 = state_of(r);
    let m2 = state_of(s).remove(k);
    assert(read_value(r, k) is None);
    assert forall|k2: Seq<u8>| #[trigger] m1.dom().contains(k2) == m2.dom().contains(k2) by {
        if k2 != k {
            assert(lookup(r, k2) == lookup(s, k2));
        }
    }
    assert forall|k2: Seq<u8>| m1.dom().contains(k2) implies #[trigger] m1[k2] == m2[k2] by {
        if k2 != k {
            assert(lookup(r, k2) == lookup(s, k2));
        }
    }
    assert(m1 =~= m2);
}

/// The aggregate size estimate dominates the cost of each stored record.
pub proof fn lemma_table_cost_elem(s: Seq<EntryModel>, i: int)
    requires
        0 <= i < s.len(),
    ensures
        table_cost(s) >= entry_cost(s[i]),
    decreases s.len(),
{
    assert(table_cost(s) == entry_cost(s[0]) + table_cost(s.drop_first()));
    if i > 0 {
        lemma_table_cost_elem(s.drop_first(), i - 1);
        assert(s.drop_first()[i - 1] == s[i]);
    }
}

/// Replacing a record in place shifts the aggregate size estimate by the
/// difference of the record costs.
pub proof fn lemma_table_cost_update(s: Seq<EntryModel>, i: int, e: EntryModel)
    requires
        0 <= i < s.len(),
    ensures
        table_cost(s.update(i, e)) + entry_cost(s[i]) == table_cost(s) + entry_cost(e),
    decreases s.len(),
{
    let r = s.update(i, e);
    assert(table_cost(s) == entry_cost(s[0]) + table_cost(s.drop_first()));
    if i == 0 {
        assert(r[0] == e);
        assert(r.drop_first() =~= s.drop_first());
        assert(table_cost(r) == entry_cost(e) + table_cost(r.drop_first()));
    } else {
        lemma_table_cost_update(s.drop_first(), i - 1, e);
        assert(r[0] == s[0]);
        assert(r.drop_first() =~= s.drop_first().update(i - 1, e));
        assert(s.drop_first()[i - 1] == s[i]);
        assert(table_cost(r) == entry_cost(s[0]) + table_cost(r.drop_first()));
    }
}

/// Inserting a record raises the aggregate size estimate by its full cost.
pub proof fn lemma_table_cost_insert(s: Seq<EntryModel>, i: int, e: EntryModel)
    requires
        0 <= i <= s.len(),
    ensures
        table_cost(s.insert(i, e)) == table_cost(s) + entry_cost(e),
    decreases s.len(),
{
    let r = s.insert(i, e);
    if i == 0 {
        assert(r[0] == e);
        assert(r.drop_first() =~= s);
        assert(table_cost(r) == entry_cost(e) + table_cost(s));
    } else {
        lemma_table_cost_insert(s.drop_first(), i - 1, e);
        assert(r[0] == s[0]);
        assert(r.drop_first() =~= s.drop_first().insert(i - 1, e));
        assert(table_cost(r) == entry_cost(s[0]) + table_cost(r.drop_first()));
        assert(table_cost(s) == entry_cost(s[0]) + table_cost(s.drop_first()));
    }
}

/// When the key is already stored at position `i`, applying the record
/// replaces that entry in place.
pub proof fn lemma_upsert_is_update(s: Seq<EntryModel>, i: int, e: EntryModel)
    requires
        sorted(s),
        0 <= i < s.len(),
        s[i].key == e.key,
    ensures
        upsert_seq(s, e) == s.update(i, e),
    decreases s.len(),
{
    if i == 0 {
        lemma_key_lt_irrefl(e.key);
        assert(upsert_seq(s, e) == seq![e] + s.drop_first());
        assert(seq![e] + s.drop_first() =~= s.update(0, e));
    } else {
        assert(key_lt(s[0].key, s[i].key));
        lemma_sorted_drop_first(s);
        assert(s.drop_first()[i - 1] == s[i]);
        lemma_upsert_is_update(s.drop_first(), i - 1, e);
        assert(upsert_seq(s, e) == seq![s[0]] + s.drop_first().update(i - 1, e));
        assert(seq![s[0]] + s.drop_first().update(i - 1, e) =~= s.update(i, e));
    }
}

/// When the key is absent and `i` is its sorted position, applying the
/// record inserts it there.
pub proof fn lemma_upsert_is_insert(s: Seq<EntryModel>, i: int, e: EntryModel)
    requires
        sorted(s),
        0 <= i <= s.len(),
        forall|j: int| 0 <= j < i ==> key_lt((#[trigger] s[j]).key, e.key),
        forall|j: int| i <= j < s.len() ==> key_lt(e.key, (#[trigger] s[j]).key),
    ensures
        upsert_seq(s, e) == s.insert(i, e),
    decreases s.len(),
{
    if s.len() == 0 {
        assert(upsert_seq(s, e) == seq![e]);
        assert(seq![e] =~= s.insert(0, e));
    } else if i == 0 {
        assert(key_lt(e.key, s[0].key));
        if key_lt(s[0].key, e.key) {
            lemma_key_lt_trans(e.key, s[0].key, e.key);
            lemma_key_lt_irrefl(e.key);
        }
        if e.key == s[0].key {
            lemma_key_lt_irrefl(e.key);
        }
        assert(upsert_seq(s, e) == seq![e] + s);
        assert(seq![e] + s =~= s.insert(0, e));
    } else {
        assert(key_lt(s[0].key, e.key));
        lemma_sorted_drop_first(s);
        assert forall|j: int| 0 <= j < i - 1 implies key_lt(
            (#[trigger] s.drop_first()[j]).key,
            e.key,
        ) by {
            assert(s.drop_first()[j] == s[j + 1]);
        }
        assert forall|j: int| i - 1 <= j < s.drop_first().len() implies key_lt(
            e.key,
            (#[trigger] s.drop_first()[j]).key,
        ) by {
            assert(s.drop_first()[j] == s[j + 1]);
        }
        lemma_upsert_is_insert(s.drop_first(), i - 1, e);
        assert(upsert_seq(s, e) == seq![s[0]] + s.drop_first().insert(i - 1, e));
        assert(seq![s[0]] + s.drop_first().insert(i - 1, e) =~= s.insert(i, e));
    }
}

/// Applying a record whose key orders above every stored key appends it.
pub proof fn lemma_upsert_push(s: Seq<EntryModel>, e: EntryModel)
    requires
        sorted(s),
        forall|j: int| 0 <= j < s.len() ==> key_lt((#[trigger] s[j]).key, e.key),
    ensures
        upsert_seq(s, e) == s.push(e),
    decreases s.len(),
{
    if s.len() == 0 {
        assert(upsert_seq(s, e) == seq![e]);
        assert(seq![e] =~= s.push(e));
    } else {
        assert(key_lt(s[0].key, e.key));
        lemma_sorted_drop_first(s);
        assert forall|j: int| 0 <= j < s.drop_first().len() implies key_lt(
            (#[trigger] s.drop_first()[j]).key,
            e.key,
        ) by {
            assert(s.drop_first()[j] == s[j + 1]);
        }
        lemma_upsert_push(s.drop_first(), e);
        assert(upsert_seq(s, e) == seq![s[0]] + s.drop_first().push(e));
        assert(seq![s[0]] + s.drop_first().push(e) =~= s.push(e));
    }
}

pub proof fn lemma_sorted_drop_last(s: Seq<EntryModel>)
    requires
        sorted(s),
        s.len() > 0,
    ensures
        sorted(s.drop_last()),
{
    assert forall|i: int, j: int| 0 <= i < j < s.drop_last().len() implies #[trigger] key_lt(
        s.drop_last()[i].key,
        s.drop_last()[j].key,
    ) by {
        assert(s.drop_last()[i] == s[i]);
        assert(s.drop_last()[j] == s[j]);
        assert(key_lt(s[i].key, s[j].key));
    }
}

/// Replaying the content of a well-formed index, in index order, rebuilds
/// exactly that content: the canonical-log property behind recovery.
pub proof fn lemma_apply_canonical(s: Seq<EntryModel>)
    requires
        entries_inv(s),
    ensures
        apply_log(s) == s,
    decreases s.len(),
{
    if s.len() == 0 {
        assert(apply_log(s) =~= s);
    } else {
        let s0 = s.drop_last();
        lemma_sorted_drop_last(s);
        assert forall|i: int| 0 <= i < s0.len() implies valid_entry(#[trigger] s0[i]) by {
            assert(s0[i] == s[i]);
        }
        lemma_apply_canonical(s0);
        assert forall|j: int| 0 <= j < s0.len() implies key_lt(
            (#[trigger] s0[j]).key,
            s.last().key,
        ) by {
            assert(s0[j] == s[j]);
            assert(key_lt(s[j].key, s[s.len() - 1].key));
        }
        lemma_upsert_push(s0, s.last());
        assert(apply_log(s) == upsert_seq(apply_log(s0), s.last()));
        assert(s0.push(s.last()) =~= s);
    }
}

/// Unfolding step for replaying one more record.
pub proof fn lemma_apply_push(rs: Seq<EntryModel>, r: EntryModel)
    ensures
        apply_log(rs.push(r)) == upsert_seq(apply_log(rs), r),
        log_cost(rs.push(r)) == log_cost(rs) + entry_cost(r),
{
    assert(rs.push(r).drop_last() =~= rs);
    assert(rs.push(r).last() == r);
}

/// Size accounting, exactly: applying a record under a key already stored
/// swaps the stored record's cost for the new one's — only the value-length
/// difference moves the estimate, since key, timestamp and flag costs stay
/// in place (a delete thus subtracts exactly the prior value length) —
/// while a record under a fresh key adds its full per-record cost.
pub proof fn lemma_upsert_cost_exact(s: Seq<EntryModel>, e: EntryModel)
    requires
        sorted(s),
    ensures
        contains_key(s, e.key) ==> table_cost(upsert_seq(s, e)) + entry_cost(
            lookup(s, e.key).unwrap(),
        ) == table_cost(s) + entry_cost(e),
        !contains_key(s, e.key) ==> table_cost(upsert_seq(s, e)) == table_cost(s) + entry_cost(e),
    decreases s.len(),
{
    let r = upsert_seq(s, e);
    lemma_key_lt_irrefl(e.key);
    if s.len() == 0 {
        assert(r == seq![e]);
        assert(r.drop_first() =~= Seq::<EntryModel>::empty());
        assert(table_cost(Seq::<EntryModel>::empty()) == 0);
        assert(table_cost(r) == entry_cost(r[0]) + table_cost(r.drop_first()));
    } else if key_lt(s[0].key, e.key) {
        let s1 = s.drop_first();
        lemma_sorted_drop_first(s);
        lemma_upsert_cost_exact(s1, e);
        let r1 = upsert_seq(s1, e);
        assert(r == seq![s[0]] + r1);
        assert(r.drop_first() =~= r1);
        assert(r[0] == s[0]);
        assert(s[0].key != e.key);
        assert(table_cost(r) == entry_cost(s[0]) + table_cost(r1));
        assert(table_cost(s) == entry_cost(s[0]) + table_cost(s1));
        assert(lookup(s, e.key) == lookup(s1, e.key));
    } else if e.key == s[0].key {
        assert(lookup(s, e.key) == Some(s[0]));
        assert(r == seq![e] + s.drop_first());
        assert(r.drop_first() =~= s.drop_first());
        assert(r[0] == e);
        assert(table_cost(r) == entry_cost(e) + table_cost(s.drop_first()));
        assert(table_cost(s) == entry_cost(s[0]) + table_cost(s.drop_first()));
    } else {
        if !key_lt(e.key, s[0].key) {
            lemma_key_lt_connected(s[0].key, e.key);
        }
        assert forall|j: int| 0 <= j < s.len() implies (#[trigger] s[j]).key != e.key by {
            if j > 0 {
                assert(key_lt(s[0].key, s[j].key));
                lemma_key_lt_trans(e.key, s[0].key, s[j].key);
            }
            if s[j].key == e.key {
                lemma_key_lt_irrefl(e.key);
            }
        }
        lemma_lookup_none(s, e.key);
        assert(r == seq![e] + s);
        assert(r.drop_first() =~= s);
        assert(r[0] == e);
        assert(table_cost(r) == entry_cost(e) + table_cost(s));
    }
}

/// Read-after-write: after a write of value `v` under key `k`, a read of
/// `k` observes `v`.
pub proof fn lemma_read_after_write(s: Seq<EntryModel>, k: Seq<u8>, v: Seq<u8>, ts: u128)
    requires
        sorted(s),
    ensures
        read_value(upsert_seq(s, write_model(k, v, ts)), k) == Some(v),
{
    lemma_upsert_lookup(s, write_model(k, v, ts));
}

/// Delete visibility: after a delete of key `k`, a read of `k` observes
/// nothing — whether or not `k` was ever written.
pub proof fn lemma_delete_visibility(s: Seq<EntryModel>, k: Seq<u8>, ts: u128)
    requires
        sorted(s),
    ensures
        read_value(upsert_seq(s, tombstone_model(k, ts)), k) is None,
{
    lemma_upsert_lookup(s, tombstone_model(k, ts));
}

/// Overwrite: a second write under the same key makes a read observe the
/// second value, and adds no entry — the index keeps exactly one entry per
/// key.
pub proof fn lemma_overwrite(
    s: Seq<EntryModel>,
    k: Seq<u8>,
    v1: Seq<u8>,
    v2: Seq<u8>,
    ts1: u128,
    ts2: u128,
)
    requires
        sorted(s),
    ensures
        read_value(upsert_seq(upsert_seq(s, write_model(k, v1, ts1)), write_model(k, v2, ts2)), k)
            == Some(v2),
        upsert_seq(upsert_seq(s, write_model(k, v1, ts1)), write_model(k, v2, ts2)).len()
            == upsert_seq(s, write_model(k, v1, ts1)).len(),
{
    let s1 = upsert_seq(s, write_model(k, v1, ts1));
    lemma_upsert_inv(s, write_model(k, v1, ts1));
    lemma_upsert_lookup(s, write_model(k, v1, ts1));
    lemma_upsert_lookup(s1, write_model(k, v2, ts2));
}

/// In a sorted index, two positions holding the same key are the same
/// position: at most one entry per key, at all times.
pub proof fn lemma_one_entry_per_key(s: Seq<EntryModel>, k: Seq<u8>)
    requires
        sorted(s),
    ensures
        forall|i: int, j: int|
            (0 <= i < s.len() && 0 <= j < s.len() && (#[trigger] s[i]).key == k
                && (#[trigger] s[j]).key == k) ==> i == j,
{
    assert forall|i: int, j: int|
        (0 <= i < s.len() && 0 <= j < s.len() && (#[trigger] s[i]).key == k && (#[trigger] s[j]).key
            == k) implies i == j by {
        lemma_unique_keys(s, i, j);
    }
}

} // verus!
