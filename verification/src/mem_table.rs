use vstd::prelude::*;

use crate::model::{
    contains_key, entries_inv, entry_cost, lemma_lookup_at, lemma_lookup_none,
    lemma_table_cost_elem, lemma_table_cost_insert, lemma_table_cost_update, lemma_upsert_inv,
    lemma_upsert_is_insert, lemma_upsert_is_update, lookup, sorted, stored_len, table_cost,
    tombstone_model, upsert_seq, valid_entry, write_model, EntryModel,
};
use crate::order::{key_cmp, key_lt, lemma_key_lt_irrefl, lemma_key_lt_trans, KeyOrder};
use vstd::pervasive::VecAdditionalExecFns;
use vstd::slice::slice_to_vec;

verus! {

/// One record held by the sorted index: the latest write or tombstone for
/// its key.
pub struct MemTableEntry {
    pub key: Vec<u8>,
    pub value: Option<Vec<u8>>,
    pub timestamp: u128,
    pub deleted: bool,
}

impl View for MemTableEntry {
    type V = EntryModel;

    open spec fn view(&self) -> EntryModel {
        EntryModel {
            key: self.key@,
            value: match self.value {
                Some(v) => Some(v@),
                None => None,
            },
            timestamp: self.timestamp,
            deleted: self.deleted,
        }
    }
}

/// The in-memory sorted index: records strictly increasing by key, at most
/// one per key, with a running byte-size estimate. A delete stores a
/// tombstone in place rather than removing the entry. Purely in-memory; the
/// durability log is the replay source that rebuilds it.
pub struct MemTable {
    entries: Vec<MemTableEntry>,
    size: usize,
}

impl View for MemTable {
    type V = Seq<EntryModel>;

    closed spec fn view(&self) -> Seq<EntryModel> {
        self.entries@.map_values(|e: MemTableEntry| e@)
    }
}

impl MemTable {
    /// Entries strictly sorted by key, every record valid, and the size
    /// field equal to the aggregate byte-size estimate.
    pub closed spec fn wf(&self) -> bool {
        &&& entries_inv(self@)
        &&& self.size == table_cost(self@)
    }

    /// The ordering and validity invariant of the content, for reasoning
    /// outside this module.
    pub proof fn lemma_wf_inv(&self)
        requires
            self.wf(),
        ensures
            entries_inv(self@),
    {
    }

    pub fn new() -> (r: MemTable)
        ensures
            r.wf(),
            r@ == Seq::<EntryModel>::empty(),
    {
        let t = MemTable { entries: Vec::new(), size: 0 };
        proof {
            assert(t@ =~= Seq::<EntryModel>::empty());
        }
        t
    }

    /// Binary search for `key`: `Ok` with the position of its record, or
    /// `Err` with the position where a record for `key` would be inserted
    /// to keep the entries sorted.
    pub fn get_index(&self, key: &[u8]) -> (r: Result<usize, usize>)
        requires
            self.wf(),
        ensures
            match r {
                Ok(i) => i < self@.len() && self@[i as int].key == key@,
                Err(i) => i <= self@.len() && !contains_key(self@, key@) && (forall|j: int|
                    0 <= j < i ==> key_lt((#[trigger] self@[j]).key, key@)) && (forall|j: int|
                    i <= j < self@.len() ==> key_lt(key@, (#[trigger] self@[j]).key)),
            },
    {
        let mut lo: usize = 0;
        let mut hi: usize = self.entries.len();
        while lo < hi
            invariant
                self.wf(),
                lo <= hi <= self@.len(),
                forall|j: int| 0 <= j < lo ==> key_lt((#[trigger] self@[j]).key, key@),
                forall|j: int| hi <= j < self@.len() ==> key_lt(key@, (#[trigger] self@[j]).key),
            decreases hi - lo,
        {
            let mid = lo + (hi - lo) / 2;
            match key_cmp(self.entries[mid].key.as_slice(), key) {
                KeyOrder::Less => {
                    proof {
                        assert forall|j: int| 0 <= j < mid + 1 implies key_lt(
                            (#[trigger] self@[j]).key,
                            key@,
                        ) by {
                            if j < mid {
                                assert(key_lt(self@[j].key, self@[mid as int].key));
                                lemma_key_lt_trans(self@[j].key, self@[mid as int].key, key@);
                            }
                        }
                    }
                    lo = mid + 1;
                }
                KeyOrder::Equal => {
                    return Ok(mid);
                }
                KeyOrder::Greater => {
                    proof {
                        assert forall|j: int| mid <= j < self@.len() implies key_lt(
                            key@,
                            (#[trigger] self@[j]).key,
                        ) by {
                            if j > mid {
                                assert(key_lt(self@[mid as int].key, self@[j].key));
                                lemma_key_lt_trans(key@, self@[mid as int].key, self@[j].key);
                            }
                        }
                    }
                    hi = mid;
                }
            }
        }
        proof {
            assert forall|j: int| 0 <= j < self@.len() implies (#[trigger] self@[j]).key
                != key@ by {
                if self@[j].key == key@ {
                    assert(key_lt(key@, key@));
                    lemma_key_lt_irrefl(key@);
                }
            }
            lemma_lookup_none(self@, key@);
        }
        Err(lo)
    }

    /// The running byte-size estimate of the index (not the entry count).
    pub fn len(&self) -> (r: usize)
        requires
            self.wf(),
        ensures
            r == table_cost(self@),
    {
        self.size
    }

    pub fn is_empty(&self) -> (r: bool)
        requires
            self.wf(),
        ensures
            r == (table_cost(self@) == 0),
    {
        self.size == 0
    }

    /// Number of records the index holds, tombstones included.
    pub fn entry_count(&self) -> (r: usize)
        ensures
            r == self@.len(),
    {
        self.entries.len()
    }

    /// The record at a position of the sorted index.
    pub fn entry_at(&self, idx: usize) -> (r: &MemTableEntry)
        requires
            idx < self@.len(),
        ensures
            r@ == self@[idx as int],
    {
        &self.entries[idx]
    }

    /// The record stored for `key` — live or tombstone — if any.
    pub fn get(&self, key: &[u8]) -> (r: Option<&MemTableEntry>)
        requires
            self.wf(),
        ensures
            match r {
                Some(e) => lookup(self@, key@) == Some(e@),
                None => lookup(self@, key@) is None,
            },
    {
        match self.get_index(key) {
            Ok(idx) => {
                proof {
                    lemma_lookup_at(self@, idx as int, key@);
                }
                Some(&self.entries[idx])
            },
            Err(_) => None,
        }
    }

    /// Record a write of `value` under `key`: replace in place when the key
    /// is present (adjusting the size estimate by the value-length delta),
    /// otherwise insert at the sorted position (adding the full per-record
    /// cost). Always succeeds in-memory.
    pub fn set(&mut self, key: &[u8], value: &[u8], timestamp: u128)
        requires
            old(self).wf(),
            key@.len() > 0,
            table_cost(old(self)@) + key@.len() + value@.len() + 17 <= usize::MAX,
        ensures
            final(self).wf(),
            final(self)@ == upsert_seq(old(self)@, write_model(key@, value@, timestamp)),
    {
        let ghost e_model = write_model(key@, value@, timestamp);
        let idx_result = self.get_index(key);
        let entry = MemTableEntry {
            key: slice_to_vec(key),
            value: Some(slice_to_vec(value)),
            timestamp,
            deleted: false,
        };
        proof {
            assert(entry@ == e_model);
            lemma_upsert_inv(self@, e_model);
        }
        match idx_result {
            Ok(idx) => {
                let prior_len: usize = match &self.entries[idx].value {
                    Some(v) => v.len(),
                    None => 0,
                };
                proof {
                    assert(prior_len == stored_len(self@[idx as int].value));
                    lemma_table_cost_elem(self@, idx as int);
                    lemma_table_cost_update(self@, idx as int, e_model);
                    lemma_upsert_is_update(self@, idx as int, e_model);
                }
                self.size = self.size - prior_len + value.len();
                self.entries.set(idx, entry);
                proof {
                    assert(self@ =~= old(self)@.update(idx as int, e_model));
                }
            },
            Err(idx) => {
                proof {
                    lemma_table_cost_insert(self@, idx as int, e_model);
                    lemma_upsert_is_insert(self@, idx as int, e_model);
                }
                self.entries.insert(idx, entry);
                self.size = self.size + key.len() + value.len() + 16 + 1;
                proof {
                    assert(self@ =~= old(self)@.insert(idx as int, e_model));
                }
            },
        }
    }

    /// Record a delete of `key`: replace its record with a tombstone in
    /// place (subtracting any prior value length from the size estimate),
    /// or insert a fresh tombstone when the key is absent — the index
    /// cannot tell "never existed" from "deleted" without one.
    pub fn delete(&mut self, key: &[u8], timestamp: u128)
        requires
            old(self).wf(),
            key@.len() > 0,
            table_cost(old(self)@) + key@.len() + 17 <= usize::MAX,
        ensures
            final(self).wf(),
            final(self)@ == upsert_seq(old(self)@, tombstone_model(key@, timestamp)),
    {
        let ghost e_model = tombstone_model(key@, timestamp);
        let idx_result = self.get_index(key);
        let entry = MemTableEntry {
            key: slice_to_vec(key),
            value: None,
            timestamp,
            deleted: true,
        };
        proof {
            assert(entry@ == e_model);
            lemma_upsert_inv(self@, e_model);
        }
        match idx_result {
            Ok(idx) => {
                let prior_len: usize = match &self.entries[idx].value {
                    Some(v) => v.len(),
                    None => 0,
                };
                proof {
                    assert(prior_len == stored_len(self@[idx as int].value));
                    lemma_table_cost_elem(self@, idx as int);
                    lemma_table_cost_update(self@, idx as int, e_model);
                    lemma_upsert_is_update(self@, idx as int, e_model);
                }
                self.size = self.size - prior_len;
                self.entries.set(idx, entry);
                proof {
                    assert(self@ =~= old(self)@.update(idx as int, e_model));
                }
            },
            Err(idx) => {
                proof {
                    lemma_table_cost_insert(self@, idx as int, e_model);
                    lemma_upsert_is_insert(self@, idx as int, e_model);
                }
                self.size = self.size + key.len() + 16 + 1;
                self.entries.insert(idx, entry);
                proof {
                    assert(self@ =~= old(self)@.insert(idx as int, e_model));
                }
            },
        }
    }
}

} // verus!
