use vstd::prelude::*;

use crate::error::KvsError;
use crate::mem_table::{MemTable, MemTableEntry};
use crate::model::{
    apply_log, entry_cost, lemma_apply_push, lemma_upsert_cost, log_cost, stored_len,
    table_cost, tombstone_model, valid_entry, write_model, EntryModel,
};
use vstd::bytes::{
    lemma_auto_spec_u128_to_from_le_bytes, lemma_auto_spec_u64_to_from_le_bytes,
    spec_u128_from_le_bytes, spec_u128_to_le_bytes, spec_u64_from_le_bytes, spec_u64_to_le_bytes,
    u128_from_le_bytes, u128_to_le_bytes, u64_from_le_bytes, u64_to_le_bytes,
};
use vstd::slice::{slice_subrange, slice_to_vec};

verus! {

/// Flag byte of a record frame: 0 for a write, 1 for a tombstone.
pub open spec fn flag_of(e: EntryModel) -> u8 {
    if e.deleted {
        1u8
    } else {
        0u8
    }
}

/// The bytes a stored optional value contributes to a frame.
pub open spec fn value_bytes(v: Option<Seq<u8>>) -> Seq<u8> {
    match v {
        Some(b) => b,
        None => Seq::empty(),
    }
}

/// A record can be framed: it is valid and its key and value lengths fit
/// the 8-byte length fields.
pub open spec fn encodable(e: EntryModel) -> bool {
    &&& valid_entry(e)
    &&& e.key.len() <= u64::MAX
    &&& stored_len(e.value) <= u64::MAX
}

pub open spec fn encodable_all(rs: Seq<EntryModel>) -> bool {
    forall|i: int| 0 <= i < rs.len() ==> encodable(#[trigger] rs[i])
}

/// The length-prefixed wire frame of one record: 8 bytes of key length and
/// 8 bytes of value length (little endian), one flag byte, 16 bytes of
/// timestamp (little endian), then the key bytes and the value bytes.
/// Record boundaries are unambiguous and a reader can detect truncation.
pub open spec fn encode_record(e: EntryModel) -> Seq<u8> {
    spec_u64_to_le_bytes(e.key.len() as u64) + spec_u64_to_le_bytes(stored_len(e.value) as u64)
        + seq![flag_of(e)] + spec_u128_to_le_bytes(e.timestamp) + e.key + value_bytes(e.value)
}

/// The full log image of a stream of records: their frames, in order.
pub open spec fn encode_all(rs: Seq<EntryModel>) -> Seq<u8>
    decreases rs.len(),
{
    if rs.len() == 0 {
        Seq::empty()
    } else {
        encode_record(rs[0]) + encode_all(rs.drop_first())
    }
}

/// The record stream a sequential reader decodes from a log image.
///
/// A frame that stops early — fewer than 33 header bytes left, or fewer
/// payload bytes than the header announces — ends the stream: the reader
/// discards the trailing incomplete record and keeps everything before it,
/// the crash-tolerant policy of this engine. A frame whose header is
/// internally inconsistent (an unknown flag byte, an empty key, or a
/// tombstone announcing value bytes) is corruption: the whole decode fails.
pub open spec fn decode_log(b: Seq<u8>) -> Option<Seq<EntryModel>>
    decreases b.len(),
{
    if b.len() < 33 {
        Some(Seq::empty())
    } else {
        let klen = spec_u64_from_le_bytes(b.subrange(0, 8)) as int;
        let vlen = spec_u64_from_le_bytes(b.subrange(8, 16)) as int;
        let flag = b[16];
        let ts = spec_u128_from_le_bytes(b.subrange(17, 33));
        if flag > 1 || klen == 0 || (flag == 1 && vlen != 0) {
            None
        } else if b.len() - 33 < klen + vlen {
            Some(Seq::empty())
        } else {
            let e = EntryModel {
                key: b.subrange(33, 33 + klen),
                value: if flag == 0 {
                    Some(b.subrange(33 + klen, 33 + klen + vlen))
                } else {
                    None
                },
                timestamp: ts,
                deleted: flag == 1,
            };
            match decode_log(b.subrange(33 + klen + vlen, b.len() as int)) {
                Some(rest) => Some(seq![e] + rest),
                None => None,
            }
        }
    }
}

/// Decoding a well-formed frame yields its record and continues with
/// whatever follows the frame.
pub proof fn lemma_decode_frame(e: EntryModel, t: Seq<u8>)
    requires
        encodable(e),
    ensures
        decode_log(encode_record(e) + t) == match decode_log(t) {
            Some(rest) => Some(seq![e] + rest),
            None => None::<Seq<EntryModel>>,
        },
{
    lemma_auto_spec_u64_to_from_le_bytes();
    lemma_auto_spec_u128_to_from_le_bytes();
    let h = encode_record(e);
    let b = h + t;
    let kl = e.key.len() as int;
    let vl = stored_len(e.value) as int;
    assert(spec_u64_to_le_bytes(e.key.len() as u64).len() == 8);
    assert(spec_u64_to_le_bytes(stored_len(e.value) as u64).len() == 8);
    assert(spec_u128_to_le_bytes(e.timestamp).len() == 16);
    assert(h.len() == 33 + kl + vl);
    assert(b.subrange(0, 8) =~= spec_u64_to_le_bytes(e.key.len() as u64));
    assert(b.subrange(8, 16) =~= spec_u64_to_le_bytes(stored_len(e.value) as u64));
    assert(b[16] == flag_of(e));
    assert(b.subrange(17, 33) =~= spec_u128_to_le_bytes(e.timestamp));
    assert(e.key.len() as u64 as int == kl);
    assert(stored_len(e.value) as u64 as int == vl);
    assert(spec_u64_from_le_bytes(b.subrange(0, 8)) as int == kl);
    assert(spec_u64_from_le_bytes(b.subrange(8, 16)) as int == vl);
    assert(spec_u128_from_le_bytes(b.subrange(17, 33)) == e.timestamp);
    assert(b.subrange(33, 33 + kl) =~= e.key);
    assert(b.subrange(33 + kl, 33 + kl + vl) =~= value_bytes(e.value));
    assert(b.subrange(33 + kl + vl, b.len() as int) =~= t);
    let d = EntryModel {
        key: b.subrange(33, 33 + kl),
        value: if flag_of(e) == 0 {
            Some(b.subrange(33 + kl, 33 + kl + vl))
        } else {
            None
        },
        timestamp: spec_u128_from_le_bytes(b.subrange(17, 33)),
        deleted: flag_of(e) == 1,
    };
    if e.deleted {
        assert(e.value is None);
        assert(d == e);
    } else {
        assert(e.value is Some);
        assert(value_bytes(e.value) == e.value->Some_0);
        assert(d == e);
    }
    match decode_log(t) {
        Some(rest) => {
            assert(decode_log(b) == Some(seq![e] + rest));
        },
        None => {
            assert(decode_log(b) is None);
        },
    }
}

/// Appending one frame to a record stream's log image appends its bytes.
pub proof fn lemma_encode_all_push(rs: Seq<EntryModel>, r: EntryModel)
    ensures
        encode_all(rs.push(r)) == encode_all(rs) + encode_record(r),
    decreases rs.len(),
{
    if rs.len() == 0 {
        assert(rs.push(r)[0] == r);
        assert(rs.push(r).drop_first() =~= Seq::<EntryModel>::empty());
        assert(encode_all(Seq::<EntryModel>::empty()) == Seq::<u8>::empty());
        assert(encode_record(r) + Seq::<u8>::empty() =~= encode_record(r));
        assert(encode_all(rs) + encode_record(r) =~= encode_record(r));
    } else {
        assert(rs.push(r)[0] == rs[0]);
        assert(rs.push(r).drop_first() =~= rs.drop_first().push(r));
        lemma_encode_all_push(rs.drop_first(), r);
        assert((encode_record(rs[0]) + encode_all(rs.drop_first())) + encode_record(r)
            =~= encode_record(rs[0]) + (encode_all(rs.drop_first()) + encode_record(r)));
    }
}

/// Decoding a log image made of whole frames yields exactly their records,
/// then continues with whatever follows.
pub proof fn lemma_decode_encode_all(rs: Seq<EntryModel>, t: Seq<u8>)
    requires
        encodable_all(rs),
    ensures
        decode_log(encode_all(rs) + t) == match decode_log(t) {
            Some(rest) => Some(rs + rest),
            None => None::<Seq<EntryModel>>,
        },
    decreases rs.len(),
{
    if rs.len() == 0 {
        assert(encode_all(rs) + t =~= t);
        match decode_log(t) {
            Some(rest) => {
                assert(rs + rest =~= rest);
            },
            None => {},
        }
    } else {
        let rs1 = rs.drop_first();
        assert forall|i: int| 0 <= i < rs1.len() implies encodable(#[trigger] rs1[i]) by {
            assert(rs1[i] == rs[i + 1]);
        }
        lemma_decode_encode_all(rs1, t);
        assert(encodable(rs[0]));
        lemma_decode_frame(rs[0], encode_all(rs1) + t);
        assert(encode_all(rs) + t =~= encode_record(rs[0]) + (encode_all(rs1) + t));
        match decode_log(t) {
            Some(rest) => {
                assert(decode_log(encode_all(rs1) + t) == Some(rs1 + rest));
                assert(seq![rs[0]] + (rs1 + rest) =~= rs + rest);
            },
            None => {},
        }
    }
}

/// A log image of whole frames decodes to exactly its records.
pub proof fn lemma_decode_canonical(rs: Seq<EntryModel>)
    requires
        encodable_all(rs),
    ensures
        decode_log(encode_all(rs)) == Some(rs),
{
    lemma_decode_encode_all(rs, Seq::empty());
    assert(encode_all(rs) + Seq::<u8>::empty() =~= encode_all(rs));
    assert(decode_log(Seq::<u8>::empty()) == Some(Seq::<EntryModel>::empty()));
    assert(rs + Seq::<EntryModel>::empty() =~= rs);
}

/// A strict prefix of a single frame decodes to nothing: the reader sees a
/// truncated record and discards it.
pub proof fn lemma_truncated_frame(e: EntryModel, n: int)
    requires
        encodable(e),
        0 <= n < encode_record(e).len(),
    ensures
        decode_log(encode_record(e).take(n)) == Some(Seq::<EntryModel>::empty()),
{
    let h = encode_record(e);
    let b = h.take(n);
    if n < 33 {
    } else {
        lemma_auto_spec_u64_to_from_le_bytes();
        lemma_auto_spec_u128_to_from_le_bytes();
        let kl = e.key.len() as int;
        let vl = stored_len(e.value) as int;
        assert(spec_u64_to_le_bytes(e.key.len() as u64).len() == 8);
        assert(spec_u64_to_le_bytes(stored_len(e.value) as u64).len() == 8);
        assert(spec_u128_to_le_bytes(e.timestamp).len() == 16);
        assert(h.len() == 33 + kl + vl);
        assert(b.subrange(0, 8) =~= spec_u64_to_le_bytes(e.key.len() as u64));
        assert(b.subrange(8, 16) =~= spec_u64_to_le_bytes(stored_len(e.value) as u64));
        assert(b[16] == flag_of(e));
        assert(e.key.len() as u64 as int == kl);
        assert(stored_len(e.value) as u64 as int == vl);
        assert(b.len() - 33 < kl + vl);
    }
}

/// Truncated-log tolerance: a log image of whole frames followed by a
/// strict prefix of one more frame decodes to exactly the whole frames'
/// records.
pub proof fn lemma_truncated_log(rs: Seq<EntryModel>, e: EntryModel, n: int)
    requires
        encodable_all(rs),
        encodable(e),
        0 <= n < encode_record(e).len(),
    ensures
        decode_log(encode_all(rs) + encode_record(e).take(n)) == Some(rs),
{
    lemma_truncated_frame(e, n);
    lemma_decode_encode_all(rs, encode_record(e).take(n));
    assert(rs + Seq::<EntryModel>::empty() =~= rs);
}

/// Unfolding step of `decode_log` across one whole frame sitting at `pos`:
/// the decode of the remaining bytes is the frame's record followed by the
/// decode of what comes after the frame.
proof fn lemma_decode_step(b: Seq<u8>, pos: int, n: int, rec: EntryModel, klen: int, vlen: int)
    requires
        0 <= pos,
        pos + 33 + klen + vlen <= n == b.len(),
        klen > 0,
        vlen >= 0,
        spec_u64_from_le_bytes(b.subrange(pos, pos + 8)) as int == klen,
        spec_u64_from_le_bytes(b.subrange(pos + 8, pos + 16)) as int == vlen,
        b[pos + 16] == flag_of(rec),
        rec.deleted ==> vlen == 0,
        spec_u128_from_le_bytes(b.subrange(pos + 17, pos + 33)) == rec.timestamp,
        rec.key == b.subrange(pos + 33, pos + 33 + klen),
        rec.deleted ==> rec.value is None,
        !rec.deleted ==> rec.value == Some(b.subrange(pos + 33 + klen, pos + 33 + klen + vlen)),
    ensures
        decode_log(b.subrange(pos, n)) == match decode_log(b.subrange(pos + 33 + klen + vlen, n)) {
            Some(rest) => Some(seq![rec] + rest),
            None => None::<Seq<EntryModel>>,
        },
{
    let tail = b.subrange(pos, n);
    assert(tail.subrange(0, 8) =~= b.subrange(pos, pos + 8));
    assert(tail.subrange(8, 16) =~= b.subrange(pos + 8, pos + 16));
    assert(tail[16] == b[pos + 16]);
    assert(tail.subrange(17, 33) =~= b.subrange(pos + 17, pos + 33));
    assert(tail.subrange(33, 33 + klen) =~= b.subrange(pos + 33, pos + 33 + klen));
    assert(tail.subrange(33 + klen, 33 + klen + vlen) =~= b.subrange(
        pos + 33 + klen,
        pos + 33 + klen + vlen,
    ));
    assert(tail.subrange(33 + klen + vlen, tail.len() as int) =~= b.subrange(
        pos + 33 + klen + vlen,
        n,
    ));
    let flag = tail[16];
    let d = EntryModel {
        key: tail.subrange(33, 33 + klen),
        value: if flag == 0 {
            Some(tail.subrange(33 + klen, 33 + klen + vlen))
        } else {
            None
        },
        timestamp: spec_u128_from_le_bytes(tail.subrange(17, 33)),
        deleted: flag == 1,
    };
    assert(d == rec);
    match decode_log(b.subrange(pos + 33 + klen + vlen, n)) {
        Some(rest) => {
            assert(decode_log(tail) == Some(seq![rec] + rest));
        },
        None => {
            assert(decode_log(tail) is None);
        },
    }
}

/// The Log Iterator: a lazy, forward-only, single-pass reader that decodes
/// a log image into a stream of records, from the beginning. Used only
/// during replay, never on the hot read or write path. Not restartable: a
/// fresh iterator re-scans from the start.
pub struct WalIterator<'a> {
    data: &'a [u8],
    pos: usize,
}

impl<'a> WalIterator<'a> {
    /// The bytes the iterator has not consumed yet.
    pub closed spec fn remaining(&self) -> Seq<u8> {
        self.data@.subrange(self.pos as int, self.data@.len() as int)
    }

    /// The read position never passes the end of the log image.
    pub closed spec fn wf(&self) -> bool {
        self.pos <= self.data@.len()
    }

    pub fn new(data: &'a [u8]) -> (r: WalIterator<'a>)
        ensures
            r.wf(),
            r.remaining() == data@,
    {
        let r = WalIterator { data, pos: 0 };
        proof {
            assert(r.remaining() =~= data@);
        }
        r
    }

    /// Decode the next record frame. `None` ends the stream: the log is
    /// exhausted, or what is left is a truncated trailing record, which is
    /// discarded. An internally inconsistent frame yields a decode error.
    pub fn next(&mut self) -> (r: Option<Result<MemTableEntry, KvsError>>)
        requires
            old(self).wf(),
        ensures
            final(self).wf(),
            match r {
                None => decode_log(old(self).remaining()) == Some(Seq::<EntryModel>::empty()),
                Some(Ok(entry)) => {
                    &&& valid_entry(entry@)
                    &&& old(self).remaining().len() >= final(self).remaining().len() + entry_cost(
                        entry@,
                    ) + 16
                    &&& decode_log(old(self).remaining()) == match decode_log(
                        final(self).remaining(),
                    ) {
                        Some(rest) => Some(seq![entry@] + rest),
                        None => None::<Seq<EntryModel>>,
                    }
                },
                Some(Err(e)) => {
                    &&& decode_log(old(self).remaining()) is None
                    &&& e matches KvsError::UnExpectedCommandType
                },
            },
    {
        let n = self.data.len();
        let pos = self.pos;
        if n - pos < 33 {
            return None;
        }
        let bytes = self.data;
        let klen64 = u64_from_le_bytes(slice_subrange(bytes, pos, pos + 8));
        let vlen64 = u64_from_le_bytes(slice_subrange(bytes, pos + 8, pos + 16));
        let flag = bytes[pos + 16];
        let ts = u128_from_le_bytes(slice_subrange(bytes, pos + 17, pos + 33));
        let ghost tail = self.remaining();
        proof {
            assert(tail.subrange(0, 8) =~= bytes@.subrange(pos as int, pos + 8));
            assert(tail.subrange(8, 16) =~= bytes@.subrange(pos + 8, pos + 16));
            assert(tail[16] == bytes@[pos + 16]);
            assert(tail.subrange(17, 33) =~= bytes@.subrange(pos + 17, pos + 33));
        }
        if flag > 1 || klen64 == 0 || (flag == 1 && vlen64 != 0) {
            proof {
                assert(decode_log(tail) is None);
            }
            return Some(Err(KvsError::UnExpectedCommandType));
        }
        let payload = n - pos - 33;
        if klen64 > payload as u64 || vlen64 > payload as u64 - klen64 {
            proof {
                assert(tail.len() - 33 < spec_u64_from_le_bytes(tail.subrange(0, 8)) as int
                    + spec_u64_from_le_bytes(tail.subrange(8, 16)) as int);
                assert(decode_log(tail) == Some(Seq::<EntryModel>::empty()));
            }
            return None;
        }
        let klen = klen64 as usize;
        let vlen = vlen64 as usize;
        let key = slice_to_vec(slice_subrange(bytes, pos + 33, pos + 33 + klen));
        let entry = if flag == 0 {
            let value = slice_to_vec(
                slice_subrange(bytes, pos + 33 + klen, pos + 33 + klen + vlen),
            );
            MemTableEntry { key, value: Some(value), timestamp: ts, deleted: false }
        } else {
            MemTableEntry { key, value: None, timestamp: ts, deleted: true }
        };
        self.pos = pos + 33 + klen + vlen;
        proof {
            lemma_decode_step(bytes@, pos as int, n as int, entry@, klen as int, vlen as int);
            assert(self.remaining() =~= bytes@.subrange(pos + 33 + klen + vlen, n as int));
        }
        Some(Ok(entry))
    }
}

/// The durability log as the engine holds it: the byte image of the
/// append-only log file. The engine appends an encoded frame here before it
/// mutates the index; the surrounding process keeps the real file in step
/// with this image and performs the flush that makes an append durable.
pub struct Wal {
    data: Vec<u8>,
}

impl View for Wal {
    type V = Seq<u8>;

    closed spec fn view(&self) -> Seq<u8> {
        self.data@
    }
}

impl Wal {
    pub fn new() -> (r: Wal)
        ensures
            r@ == Seq::<u8>::empty(),
    {
        Wal { data: Vec::new() }
    }

    /// The full byte image of the log.
    pub fn bytes(&self) -> (r: &Vec<u8>)
        ensures
            r@ == self@,
    {
        &self.data
    }

    /// Append the wire frame of one record to the log image.
    pub fn append(&mut self, entry: &MemTableEntry)
        requires
            valid_entry(entry@),
        ensures
            final(self)@ == old(self)@ + encode_record(entry@),
            encodable(entry@),
    {
        let klen = entry.key.len();
        let mut kb = u64_to_le_bytes(klen as u64);
        self.data.append(&mut kb);
        let vlen: usize = match &entry.value {
            Some(v) => v.len(),
            None => 0,
        };
        let mut vb = u64_to_le_bytes(vlen as u64);
        self.data.append(&mut vb);
        self.data.push(if entry.deleted { 1u8 } else { 0u8 });
        let mut tb = u128_to_le_bytes(entry.timestamp);
        self.data.append(&mut tb);
        self.data.extend_from_slice(entry.key.as_slice());
        match &entry.value {
            Some(v) => self.data.extend_from_slice(v.as_slice()),
            None => {},
        }
        proof {
            assert(klen as u64 as int == entry@.key.len());
            assert(vlen as u64 as int == stored_len(entry@.value));
            assert(self@ =~= old(self)@ + encode_record(entry@));
        }
    }

    /// Replay a log image into a fresh sorted index, feeding each decoded
    /// record, in file order, through the same write and delete operations
    /// a live mutation would use. A truncated trailing record is discarded
    /// and replay succeeds with the records before it; an internally
    /// inconsistent frame fails replay with a decode error.
    pub fn replay(bytes: &[u8]) -> (r: Result<MemTable, KvsError>)
        ensures
            match r {
                Ok(t) => {
                    &&& t.wf()
                    &&& decode_log(bytes@) matches Some(rs) && t@ == apply_log(rs)
                },
                Err(e) => {
                    &&& decode_log(bytes@) is None
                    &&& e matches KvsError::UnExpectedCommandType
                },
            },
    {
        let n = bytes.len();
        let mut iter = WalIterator::new(bytes);
        let mut table = MemTable::new();
        let ghost mut done: Seq<EntryModel> = Seq::empty();
        proof {
            match decode_log(bytes@) {
                Some(rest) => {
                    assert(done + rest =~= rest);
                },
                None => {},
            }
        }
        loop
            invariant
                n == bytes@.len(),
                table.wf(),
                table@ == apply_log(done),
                table_cost(table@) <= log_cost(done),
                iter.wf(),
                log_cost(done) + 16 * done.len() + iter.remaining().len() <= n,
                decode_log(bytes@) == match decode_log(iter.remaining()) {
                    Some(rest) => Some(done + rest),
                    None => None::<Seq<EntryModel>>,
                },
            decreases iter.remaining().len(),
        {
            match iter.next() {
                None => {
                    proof {
                        assert(done + Seq::<EntryModel>::empty() =~= done);
                    }
                    return Ok(table);
                },
                Some(Err(e)) => {
                    return Err(e);
                },
                Some(Ok(entry)) => {
                    let ghost prior = table@;
                    let ghost rec = entry@;
                    proof {
                        table.lemma_wf_inv();
                    }
                    match &entry.value {
                        Some(v) => {
                            proof {
                                assert(write_model(entry@.key, v@, entry.timestamp) == rec);
                            }
                            table.set(entry.key.as_slice(), v.as_slice(), entry.timestamp);
                        },
                        None => {
                            proof {
                                assert(tombstone_model(entry@.key, entry.timestamp) == rec);
                            }
                            table.delete(entry.key.as_slice(), entry.timestamp);
                        },
                    }
                    proof {
                        lemma_upsert_cost(prior, rec);
                        lemma_apply_push(done, rec);
                        match decode_log(iter.remaining()) {
                            Some(rest) => {
                                assert(done + (seq![rec] + rest) =~= done.push(rec) + rest);
                            },
                            None => {},
                        }
                        done = done.push(rec);
                    }
                },
            }
        }
    }
}

} // verus!
