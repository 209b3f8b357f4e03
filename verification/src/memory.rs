use vstd::prelude::*;

use crate::error::KvsError;
use crate::mem_table::MemTable;
use crate::model::{
    lemma_state_tombstone, lemma_state_write, lookup, state_of, table_cost, EntryModel,
};
use crate::store::Store;

verus! {

/// A plain, non-durable in-memory store: the contrast implementation of
/// the `Store` interface. It keeps its content in a sorted index and
/// nothing else; nothing survives a restart.
pub struct MemoryKvStore {
    kvs: MemTable,
}

impl View for MemoryKvStore {
    type V = Seq<EntryModel>;

    closed spec fn view(&self) -> Seq<EntryModel> {
        self.kvs@
    }
}

impl MemoryKvStore {
    /// The content is a well-formed sorted index.
    pub closed spec fn wf(&self) -> bool {
        self.kvs.wf()
    }

    pub fn new() -> (r: MemoryKvStore)
        ensures
            r.inv(),
            r.state() == Map::<Seq<u8>, Seq<u8>>::empty(),
    {
        let s = MemoryKvStore { kvs: MemTable::new() };
        proof {
            assert forall|k: Seq<u8>| !(#[trigger] state_of(s.kvs@).dom().contains(k)) by {
                assert(lookup(s.kvs@, k) is None);
            }
            assert(state_of(s.kvs@) =~= Map::<Seq<u8>, Seq<u8>>::empty());
        }
        s
    }
}

impl Store for MemoryKvStore {
    open spec fn inv(&self) -> bool {
        self.wf()
    }

    open spec fn state(&self) -> Map<Seq<u8>, Seq<u8>> {
        state_of(self@)
    }

    open spec fn can_set(&self, key: Seq<u8>, value: Seq<u8>) -> bool {
        key.len() > 0 && table_cost(self@) + key.len() + value.len() + 17 <= usize::MAX
    }

    open spec fn can_remove(&self, key: Seq<u8>) -> bool {
        key.len() > 0 && table_cost(self@) + key.len() + 17 <= usize::MAX
    }

    fn set(&mut self, key: &[u8], value: &[u8]) -> (r: Result<(), KvsError>) {
        self.kvs.set(key, value, 0);
        proof {
            old(self).kvs.lemma_wf_inv();
            lemma_state_write(old(self).kvs@, key@, value@, 0);
        }
        Ok(())
    }

    fn get(&self, key: &[u8]) -> (r: Result<Option<&[u8]>, KvsError>) {
        match self.kvs.get(key) {
            Some(entry) => match &entry.value {
                Some(v) => Ok(Some(v.as_slice())),
                None => Ok(None),
            },
            None => Ok(None),
        }
    }

    fn remove(&mut self, key: &[u8]) -> (r: Result<(), KvsError>) {
        self.kvs.delete(key, 0);
        proof {
            old(self).kvs.lemma_wf_inv();
            lemma_state_tombstone(old(self).kvs@, key@, 0);
        }
        Ok(())
    }
}

} // verus!
