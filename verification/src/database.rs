use vstd::prelude::*;

use crate::clock::now_micros;
use crate::error::KvsError;
use crate::mem_table::{MemTable, MemTableEntry};
use crate::model::{
    apply_log, entries_inv, lemma_apply_canonical, lemma_apply_push, lemma_state_tombstone,
    lemma_state_write, state_of, table_cost, tombstone_model, upsert_seq,
    valid_entry, write_model, EntryModel,
};
use crate::store::Store;
use crate::wal::{
    decode_log, encodable, encodable_all, encode_all, encode_record, lemma_decode_canonical,
    lemma_encode_all_push, Wal,
};
use vstd::slice::slice_to_vec;

verus! {

/// Model of a live record as a future on-disk table would hold it.
pub ghost struct DatabaseEntryModel {
    pub key: Seq<u8>,
    pub value: Seq<u8>,
    pub timestamp: u128,
}

/// A live record: key, value, and the timestamp of the write.
#[derive(Debug)]
pub struct DatabaseEntry {
    key: Vec<u8>,
    value: Vec<u8>,
    timestamp: u128,
}

impl View for DatabaseEntry {
    type V = DatabaseEntryModel;

    closed spec fn view(&self) -> DatabaseEntryModel {
        DatabaseEntryModel { key: self.key@, value: self.value@, timestamp: self.timestamp }
    }
}

impl DatabaseEntry {
    pub fn new(key: Vec<u8>, value: Vec<u8>, timestamp: u128) -> (r: DatabaseEntry)
        ensures
            r@.key == key@,
            r@.value == value@,
            r@.timestamp == timestamp,
    {
        DatabaseEntry { key, value, timestamp }
    }

    pub fn key(&self) -> (r: &[u8])
        ensures
            r@ == self@.key,
    {
        self.key.as_slice()
    }

    pub fn value(&self) -> (r: &[u8])
        ensures
            r@ == self@.value,
    {
        self.value.as_slice()
    }

    pub fn timestamp(&self) -> (r: u128)
        ensures
            r == self@.timestamp,
    {
        self.timestamp
    }
}

/// The durable engine: one sorted index and one durability log for one
/// storage directory. Every mutation appends its record to the log image
/// before the index is touched; the log replays to exactly the index, so
/// reopening from the log reproduces the visible state.
pub struct Database {
    dir: String,
    mem_table: MemTable,
    wal: Wal,
    history: Ghost<Seq<EntryModel>>,
}

impl View for Database {
    type V = Seq<EntryModel>;

    closed spec fn view(&self) -> Seq<EntryModel> {
        self.mem_table@
    }
}

impl Database {
    /// The byte image of the durability log.
    pub closed spec fn log(&self) -> Seq<u8> {
        self.wal@
    }

    /// The stream of records the log holds, in append order.
    pub closed spec fn history(&self) -> Seq<EntryModel> {
        self.history@
    }

    /// The storage directory this engine owns.
    pub closed spec fn dir_view(&self) -> Seq<char> {
        self.dir@
    }

    /// The engine invariant: a well-formed index, and a log image that is
    /// exactly the frames of the record history whose replay rebuilds the
    /// index.
    pub closed spec fn wf(&self) -> bool {
        &&& self.mem_table.wf()
        &&& encodable_all(self.history@)
        &&& self.wal@ == encode_all(self.history@)
        &&& apply_log(self.history@) == self.mem_table@
    }

    /// The ordering and validity invariant of the index content, for
    /// reasoning outside this module.
    pub proof fn lemma_wf_inv(&self)
        requires
            self.wf(),
        ensures
            entries_inv(self@),
            encodable_all(self.history()),
            self.log() == encode_all(self.history()),
            apply_log(self.history()) == self@,
    {
        self.mem_table.lemma_wf_inv();
    }

    /// Open an engine for a storage directory, given the byte image of its
    /// existing log (empty for a fresh directory). The image is replayed
    /// into a fresh index — this is the only place recovery happens — and
    /// the surviving records are re-encoded as the canonical log image that
    /// the engine holds from then on. Replay tolerates a truncated trailing
    /// record; an internally inconsistent record fails the open.
    pub fn new(dir: String, log: Vec<u8>) -> (r: Result<Database, KvsError>)
        ensures
            match r {
                Ok(db) => {
                    &&& db.wf()
                    &&& decode_log(log@) matches Some(rs) && db@ == apply_log(rs)
                    &&& db.dir_view() == dir@
                },
                Err(e) => {
                    &&& decode_log(log@) is None
                    &&& e matches KvsError::UnExpectedCommandType
                },
            },
    {
        let table = match Wal::replay(log.as_slice()) {
            Ok(t) => t,
            Err(e) => {
                return Err(e);
            },
        };
        proof {
            table.lemma_wf_inv();
        }
        let ghost entries = table@;
        let mut wal = Wal::new();
        let count = table.entry_count();
        let mut i: usize = 0;
        proof {
            assert(entries.take(0) =~= Seq::<EntryModel>::empty());
        }
        while i < count
            invariant
                table.wf(),
                entries == table@,
                entries_inv(entries),
                count == entries.len(),
                i <= count,
                wal@ == encode_all(entries.take(i as int)),
                encodable_all(entries.take(i as int)),
            decreases count - i,
        {
            let e = table.entry_at(i);
            proof {
                assert(valid_entry(entries[i as int]));
            }
            wal.append(e);
            proof {
                lemma_encode_all_push(entries.take(i as int), entries[i as int]);
                assert(entries.take(i as int).push(entries[i as int]) =~= entries.take(
                    i as int + 1,
                ));
                assert forall|j: int| 0 <= j < i + 1 implies encodable(
                    #[trigger] entries.take(i as int + 1)[j],
                ) by {
                    if j < i {
                        assert(entries.take(i as int + 1)[j] == entries.take(i as int)[j]);
                    } else {
                        assert(entries.take(i as int + 1)[j] == entries[i as int]);
                    }
                }
            }
            i = i + 1;
        }
        proof {
            assert(entries.take(count as int) =~= entries);
            lemma_apply_canonical(entries);
        }
        Ok(Database { dir, mem_table: table, wal, history: Ghost(entries) })
    }

    /// The running byte-size estimate of the index: the future trigger for
    /// flushing a full index to an on-disk table.
    pub fn size(&self) -> (r: usize)
        requires
            self.wf(),
        ensures
            r == table_cost(self@),
    {
        self.mem_table.len()
    }

    pub fn dir(&self) -> (r: &String)
        ensures
            r@ == self.dir_view(),
    {
        &self.dir
    }

    /// The byte image of the durability log. The surrounding process
    /// persists it: whole after an open (the canonical re-encoding), and by
    /// appending the new suffix after each mutation.
    pub fn log_bytes(&self) -> (r: &Vec<u8>)
        ensures
            r@ == self.log(),
    {
        self.wal.bytes()
    }

    /// Apply a write with an explicit timestamp: the record's frame goes to
    /// the log image first, then the index is updated.
    pub fn set_at(&mut self, key: &[u8], value: &[u8], timestamp: u128)
        requires
            old(self).wf(),
            key@.len() > 0,
            table_cost(old(self)@) + key@.len() + value@.len() + 17 <= usize::MAX,
        ensures
            final(self).wf(),
            final(self)@ == upsert_seq(old(self)@, write_model(key@, value@, timestamp)),
            final(self).history() == old(self).history().push(
                write_model(key@, value@, timestamp),
            ),
            final(self).log() == old(self).log() + encode_record(
                write_model(key@, value@, timestamp),
            ),
            final(self).dir_view() == old(self).dir_view(),
    {
        let ghost rec = write_model(key@, value@, timestamp);
        let entry = MemTableEntry {
            key: slice_to_vec(key),
            value: Some(slice_to_vec(value)),
            timestamp,
            deleted: false,
        };
        proof {
            assert(entry@ == rec);
        }
        self.wal.append(&entry);
        self.mem_table.set(key, value, timestamp);
        proof {
            lemma_encode_all_push(self.history@, rec);
            lemma_apply_push(self.history@, rec);
        }
        let ghost updated = self.history@.push(rec);
        proof {
            assert forall|j: int| 0 <= j < updated.len() implies encodable(
                #[trigger] updated[j],
            ) by {
                if j < updated.len() - 1 {
                    assert(updated[j] == old(self).history@[j]);
                }
            }
        }
        self.history = Ghost(updated);
    }

    /// Apply a delete with an explicit timestamp: the tombstone's frame
    /// goes to the log image first, then the index is updated.
    pub fn remove_at(&mut self, key: &[u8], timestamp: u128)
        requires
            old(self).wf(),
            key@.len() > 0,
            table_cost(old(self)@) + key@.len() + 17 <= usize::MAX,
        ensures
            final(self).wf(),
            final(self)@ == upsert_seq(old(self)@, tombstone_model(key@, timestamp)),
            final(self).history() == old(self).history().push(tombstone_model(key@, timestamp)),
            final(self).log() == old(self).log() + encode_record(
                tombstone_model(key@, timestamp),
            ),
            final(self).dir_view() == old(self).dir_view(),
    {
        let ghost rec = tombstone_model(key@, timestamp);
        let entry = MemTableEntry {
            key: slice_to_vec(key),
            value: None,
            timestamp,
            deleted: true,
        };
        proof {
            assert(entry@ == rec);
        }
        self.wal.append(&entry);
        self.mem_table.delete(key, timestamp);
        proof {
            lemma_encode_all_push(self.history@, rec);
            lemma_apply_push(self.history@, rec);
        }
        let ghost updated = self.history@.push(rec);
        proof {
            assert forall|j: int| 0 <= j < updated.len() implies encodable(
                #[trigger] updated[j],
            ) by {
                if j < updated.len() - 1 {
                    assert(updated[j] == old(self).history@[j]);
                }
            }
        }
        self.history = Ghost(updated);
    }
}

/// Crash-recovery idempotence: the log image a well-formed engine holds
/// decodes to exactly its record history, and replaying that history
/// rebuilds exactly its current index — so an engine reopened from the
/// image presents the same visible state.
pub proof fn lemma_recovery(db: Database)
    requires
        db.wf(),
    ensures
        decode_log(db.log()) == Some(db.history()),
        apply_log(db.history()) == db@,
{
    db.lemma_wf_inv();
    lemma_decode_canonical(db.history());
}

/// The log determines the state: two well-formed engines holding the same
/// log image hold the same index content — so however often an engine is
/// closed and reopened from its log, the visible state is the same.
pub proof fn lemma_log_determines_state(a: Database, b: Database)
    requires
        a.wf(),
        b.wf(),
        a.log() == b.log(),
    ensures
        a@ == b@,
{
    lemma_recovery(a);
    lemma_recovery(b);
}

impl Store for Database {
    open spec fn inv(&self) -> bool {
        self.wf()
    }

    open spec fn state(&self) -> Map<Seq<u8>, Seq<u8>> {
        state_of(self@)
    }

    open spec fn can_set(&self, key: Seq<u8>, value: Seq<u8>) -> bool {
        key.len() > 0 && table_cost(self@) + key.len() + value.len() + 17 <= usize::MAX
    }

    open spec fn can_remove(&self, key: Seq<u8>) -> bool {
        key.len() > 0 && table_cost(self@) + key.len() + 17 <= usize::MAX
    }

    fn set(&mut self, key: &[u8], value: &[u8]) -> (r: Result<(), KvsError>) {
        let timestamp = now_micros();
        self.set_at(key, value, timestamp);
        proof {
            old(self).lemma_wf_inv();
            lemma_state_write(old(self)@, key@, value@, timestamp);
        }
        Ok(())
    }

    fn get(&self, key: &[u8]) -> (r: Result<Option<&[u8]>, KvsError>) {
        match self.mem_table.get(key) {
            Some(entry) => match &entry.value {
                Some(v) => Ok(Some(v.as_slice())),
                None => Ok(None),
            },
            None => Ok(None),
        }
    }

    fn remove(&mut self, key: &[u8]) -> (r: Result<(), KvsError>) {
        let timestamp = now_micros();
        self.remove_at(key, timestamp);
        proof {
            old(self).lemma_wf_inv();
            lemma_state_tombstone(old(self)@, key@, timestamp);
        }
        Ok(())
    }
}

} // verus!
