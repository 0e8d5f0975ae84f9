//! Write batches: changes buffered and committed atomically under one
//! sequence number, closed by a commit-marker record; and the stored form of
//! keys, prefixed with their sequence number.

use vstd::prelude::*;
use vstd::slice::slice_to_vec;

use crate::db::Engine;
use crate::errors::{Errors, Result};
use crate::index::SortedMap;
use crate::log_record::{LogRecord, LogRecordPos, LogRecordType, MAX_KV_LEN};
use crate::option::{IndexType, WriteBatchOptions};
use crate::recovery::{
    apply_ops, lemma_finished_txn_applied, lemma_unfinished_txn_invisible, ops_of, replay_all, Met, Op,
    ReplayState,
};
use crate::varint::{decode_varint, encode_varint, lemma_varint_len, starts_with_varint, varint};

verus! {

/// The sequence number of records written outside any transaction.
pub const NON_TXN_SEQ_NO: usize = 0;

/// The key as stored in a record: the sequence number as LEB128, then the key.
pub open spec fn key_with_seq(key: Seq<u8>, seq_no: nat) -> Seq<u8> {
    varint(seq_no) + key
}

/// Prefixes `key` with the transaction sequence number it is written under.
pub fn log_record_key_with_seq(key: &[u8], seq_no: usize) -> (r: Vec<u8>)
    ensures
        r@ == key_with_seq(key@, seq_no as nat),
{
    let mut enc_key: Vec<u8> = Vec::new();
    encode_varint(seq_no as u64, &mut enc_key);
    enc_key.extend_from_slice(key);
    assert(enc_key@ =~= key_with_seq(key@, seq_no as nat));
    enc_key
}

/// Splits a stored key into the user's key and its sequence number; `None`
/// where it does not begin with the encoding of a sequence number.
pub fn parse_log_record_key(key: &[u8]) -> (r: Option<(Vec<u8>, usize)>)
    ensures
        forall|k: Seq<u8>, s: usize|
            #[trigger] key_with_seq(k, s as nat) == key@ ==> r is Some && r->Some_0.0@ == k
                && r->Some_0.1 == s,
        r is Some ==> key@ == key_with_seq(r->Some_0.0@, r->Some_0.1 as nat),
{
    proof {
        assert forall|k: Seq<u8>, s: usize| #[trigger] key_with_seq(k, s as nat) == key@ implies starts_with_varint(key@, s as u64) by {
            assert(key@.subrange(0, varint(s as nat).len() as int) =~= varint(s as nat));
        }
    }
    let (seq_no, rest) = match decode_varint(key) {
        Some(x) => x,
        None => {
            return None;
        },
    };
    if seq_no > usize::MAX as u64 {
        return None;
    }
    proof {
        assert forall|k: Seq<u8>, s: usize| #[trigger] key_with_seq(k, s as nat) == key@ implies rest@ == k by {
            assert(key@.skip(varint(s as nat).len() as int) =~= k);
        }
    }
    let real_key = slice_to_vec(rest);
    let stored = log_record_key_with_seq(real_key.as_slice(), seq_no as usize);
    if crate::index::compare_keys(stored.as_slice(), key) != 0 {
        return None;
    }
    Some((real_key, seq_no as usize))
}

/// The key of the record that closes a transaction, before its sequence number.
pub open spec fn txn_fin_key() -> Seq<u8> {
    seq![116u8, 120u8, 110u8, 45u8, 102u8, 105u8, 110u8]
}

fn txn_fin_key_bytes() -> (r: Vec<u8>)
    ensures
        r@ == txn_fin_key(),
{
    let r = vec![116u8, 120u8, 110u8, 45u8, 102u8, 105u8, 110u8];
    assert(r@ =~= txn_fin_key());
    r
}

/// Whether a store must refuse write batches: its index lives on disk with
/// data already in it, and no sequence-number file says where numbering stands.
pub open spec fn batch_refused(e: &Engine) -> bool {
    e.options.index_type == IndexType::BPlusTree && !e.seq_file_exists && !e.is_initial
}

/// The index changes that a committed batch makes: for each key in key
/// order, its buffered change at the position its record was written to.
pub open spec fn batch_ops(
    order: Seq<Seq<u8>>,
    pending: Map<Seq<u8>, (LogRecordType, Seq<u8>)>,
    positions: Seq<LogRecordPos>,
) -> Seq<Op> {
    Seq::new(order.len(), |i: int| (pending[order[i]].0, order[i], positions[i]))
}

/// Changes buffered for one atomic commit.
pub struct WriteBatch {
    pending_writes: SortedMap<(LogRecordType, Vec<u8>)>,
    options: WriteBatchOptions,
}

impl WriteBatch {
    /// The buffered change of each key: its record type and value.
    pub closed spec fn pending(&self) -> Map<Seq<u8>, (LogRecordType, Seq<u8>)> {
        self.pending_writes@.map_values(|v: (LogRecordType, Vec<u8>)| (v.0, v.1@))
    }

    /// The buffered keys in the order a commit writes them.
    pub closed spec fn order(&self) -> Seq<Seq<u8>> {
        self.pending_writes.key_seq()
    }

    pub closed spec fn max_batch_num(&self) -> usize {
        self.options.max_batch_num
    }

    pub closed spec fn sync_on_commit(&self) -> bool {
        self.options.sync_writes
    }

    /// The buffered keys are ordered and nonempty, each change is a put or a
    /// deletion, and each fits one record once prefixed.
    pub closed spec fn wf(&self) -> bool {
        &&& self.pending_writes.wf()
        &&& forall|k: Seq<u8>|
            #[trigger] self.pending_writes@.contains_key(k) ==> k.len() > 0 && k.len()
                + self.pending_writes@[k].1@.len() + 10 <= MAX_KV_LEN
                && self.pending_writes@[k].0 != LogRecordType::TxnFinished
    }

    /// The keys are written in increasing order, one record per key.
    pub proof fn lemma_order(&self)
        requires
            self.wf(),
        ensures
            crate::index::strictly_sorted(self.order()),
            self.order().len() == self.pending().len(),
            forall|k: Seq<u8>| self.pending().contains_key(k) <==> #[trigger] self.order().contains(k),
            forall|k: Seq<u8>|
                #[trigger] self.pending().contains_key(k) ==> self.pending()[k].0
                    != LogRecordType::TxnFinished,
    {
        self.pending_writes.lemma_key_seq();
        assert(self.pending().dom() =~= self.pending_writes@.dom());
    }

    /// Whether commits of this batch sync the active segment once written.
    pub fn sync_writes(&self) -> (r: bool)
        ensures
            r == self.sync_on_commit(),
    {
        self.options.sync_writes
    }

    /// Buffers the write of `value` under `key`.
    pub fn put(&mut self, key: &[u8], value: &[u8]) -> (r: Result<()>)
        requires
            old(self).wf(),
            key@.len() + value@.len() + 10 <= MAX_KV_LEN,
        ensures
            final(self).wf(),
            final(self).max_batch_num() == old(self).max_batch_num(),
            final(self).sync_on_commit() == old(self).sync_on_commit(),
            key@.len() == 0 ==> r == Err::<(), Errors>(Errors::KeyIsEmpty) && final(self).pending()
                == old(self).pending(),
            key@.len() > 0 ==> r is Ok && final(self).pending() == old(self).pending().insert(
                key@,
                (LogRecordType::Normal, value@),
            ),
    {
        if key.len() == 0 {
            return Err(Errors::KeyIsEmpty);
        }
        let v = vstd::slice::slice_to_vec(value);
        self.pending_writes.put(vstd::slice::slice_to_vec(key), (LogRecordType::Normal, v));
        proof {
            assert(self.pending() =~= old(self).pending().insert(key@, (LogRecordType::Normal, value@)));
        }
        Ok(())
    }

    /// Buffers the deletion of `key`. A key the store does not hold needs no
    /// tombstone: any buffered write of it is dropped instead.
    pub fn delete(&mut self, engine: &Engine, key: &[u8]) -> (r: Result<()>)
        requires
            old(self).wf(),
            engine.wf(),
            key@.len() + 10 <= MAX_KV_LEN,
        ensures
            final(self).wf(),
            final(self).max_batch_num() == old(self).max_batch_num(),
            final(self).sync_on_commit() == old(self).sync_on_commit(),
            key@.len() == 0 ==> r == Err::<(), Errors>(Errors::KeyIsEmpty) && final(self).pending()
                == old(self).pending(),
            key@.len() > 0 && !engine.index@.contains_key(key@) ==> r is Ok && final(self).pending()
                == old(self).pending().remove(key@),
            key@.len() > 0 && engine.index@.contains_key(key@) ==> r is Ok && final(self).pending()
                == old(self).pending().insert(key@, (LogRecordType::Deleted, Seq::empty())),
    {
        if key.len() == 0 {
            return Err(Errors::KeyIsEmpty);
        }
        if engine.index.get(key).is_none() {
            self.pending_writes.delete(key);
            proof {
                assert(self.pending() =~= old(self).pending().remove(key@));
            }
            return Ok(());
        }
        let v: Vec<u8> = Vec::new();
        self.pending_writes.put(vstd::slice::slice_to_vec(key), (LogRecordType::Deleted, v));
        proof {
            assert(self.pending() =~= old(self).pending().insert(
                key@,
                (LogRecordType::Deleted, Seq::empty()),
            ));
        }
        Ok(())
    }

    /// Starts a commit: takes the engine's next sequence number and hands back
    /// the records to append, in order: one per buffered key, its key prefixed
    /// with that number, then the record that closes the transaction. Once
    /// all are written, `finish_commit` with their positions applies the
    /// batch. An empty batch has nothing to write; one with more keys than
    /// `max_batch_num` is refused.
    pub fn commit(&self, engine: &mut Engine) -> (r: Result<Vec<LogRecord>>)
        requires
            self.wf(),
            old(engine).wf(),
        ensures
            final(engine).wf(),
            self.pending().len() == 0 ==> r is Ok && r->Ok_0@.len() == 0 && *final(engine) == *old(engine),
            self.pending().len() > self.max_batch_num() ==> r == Err::<Vec<LogRecord>, Errors>(
                Errors::ExceedMaxBatchNum,
            ) && *final(engine) == *old(engine),
            0 < self.pending().len() <= self.max_batch_num() && old(engine).seq_no == usize::MAX
                ==> r == Err::<Vec<LogRecord>, Errors>(Errors::UnableToUseWriteBatch) && *final(engine) == *old(engine),
            0 < self.pending().len() <= self.max_batch_num() && old(engine).seq_no < usize::MAX
                ==> {
                let s = old(engine).seq_no;
                let n = self.order().len();
                let recs = r->Ok_0@;
                &&& r is Ok
                &&& final(engine).seq_no == s + 1
                &&& final(engine).index == old(engine).index
                &&& final(engine).reclaim_size == old(engine).reclaim_size
                &&& final(engine).active_file_id == old(engine).active_file_id
                &&& final(engine).write_off == old(engine).write_off
                &&& final(engine).old_file_ids == old(engine).old_file_ids
                &&& final(engine).options == old(engine).options
                &&& recs.len() == n + 1
                &&& forall|i: int|
                    0 <= i < n ==> {
                        &&& (#[trigger] recs[i]).key@ == key_with_seq(self.order()[i], s as nat)
                        &&& recs[i].rec_type == self.pending()[self.order()[i]].0
                        &&& recs[i].value@ == self.pending()[self.order()[i]].1
                    }
                &&& recs[n as int].key@ == key_with_seq(txn_fin_key(), s as nat)
                &&& recs[n as int].rec_type == LogRecordType::TxnFinished
                &&& recs[n as int].value@.len() == 0
                &&& forall|i: int|
                    0 <= i < recs.len() ==> (#[trigger] recs[i]).key@.len() + recs[i].value@.len()
                        <= MAX_KV_LEN
            },
    {
        let n = self.pending_writes.len();
        proof {
            self.lemma_order();
            self.pending_writes.lemma_key_seq();
        }
        let mut recs: Vec<LogRecord> = Vec::new();
        if n == 0 {
            return Ok(recs);
        }
        if n > self.options.max_batch_num {
            return Err(Errors::ExceedMaxBatchNum);
        }
        if engine.seq_no == usize::MAX {
            return Err(Errors::UnableToUseWriteBatch);
        }
        let seq_no = engine.seq_no;
        engine.seq_no = seq_no + 1;
        proof {
            lemma_varint_len(seq_no as nat);
        }
        let mut i: usize = 0;
        while i < n
            invariant
                self.wf(),
                n == self.order().len(),
                i <= n,
                recs@.len() == i,
                seq_no as nat + 0 == seq_no,
                varint(seq_no as nat).len() <= 10,
                forall|j: int|
                    0 <= j < i ==> {
                        &&& (#[trigger] recs@[j]).key@ == key_with_seq(self.order()[j], seq_no as nat)
                        &&& recs@[j].rec_type == self.pending()[self.order()[j]].0
                        &&& recs@[j].value@ == self.pending()[self.order()[j]].1
                        &&& recs@[j].key@.len() + recs@[j].value@.len() <= MAX_KV_LEN
                    },
            decreases n - i,
        {
            let key = self.pending_writes.key_at(i);
            let item = self.pending_writes.value_at(i);
            proof {
                self.pending_writes.lemma_key_seq();
                assert(self.order().contains(self.order()[i as int]));
                assert(self.pending_writes@.contains_key(key@));
            }
            let rec = LogRecord {
                key: log_record_key_with_seq(key.as_slice(), seq_no),
                value: vstd::slice::slice_to_vec(item.1.as_slice()),
                rec_type: item.0,
            };
            recs.push(rec);
            i = i + 1;
        }
        let fin = LogRecord {
            key: log_record_key_with_seq(txn_fin_key_bytes().as_slice(), seq_no),
            value: Vec::new(),
            rec_type: LogRecordType::TxnFinished,
        };
        recs.push(fin);
        Ok(recs)
    }

    /// Completes a commit whose records were written at `positions` (the
    /// closing record's excluded): applies each buffered change to the index,
    /// as a put or a deletion outside a transaction would, and empties the
    /// batch. A count of positions that does not match the batch is refused.
    pub fn finish_commit(&mut self, engine: &mut Engine, positions: &[LogRecordPos]) -> (r: Result<()>)
        requires
            old(self).wf(),
            old(engine).wf(),
        ensures
            final(self).wf(),
            final(engine).wf(),
            final(self).max_batch_num() == old(self).max_batch_num(),
            final(self).sync_on_commit() == old(self).sync_on_commit(),
            positions@.len() != old(self).order().len() ==> r == Err::<(), Errors>(
                Errors::FailedToWriteToDataFile,
            ) && *final(engine) == *old(engine) && final(self).pending() == old(self).pending(),
            positions@.len() == old(self).order().len() ==> {
                &&& r is Ok
                &&& final(self).pending() == Map::<Seq<u8>, (LogRecordType, Seq<u8>)>::empty()
                &&& (final(engine).index@, final(engine).reclaim_size) == apply_ops(
                    (old(engine).index@, old(engine).reclaim_size),
                    batch_ops(old(self).order(), old(self).pending(), positions@),
                )
                &&& crate::recovery::same_segments(old(engine), final(engine))
            },
    {
        let n = self.pending_writes.len();
        proof {
            self.pending_writes.lemma_key_seq();
        }
        if positions.len() != n {
            return Err(Errors::FailedToWriteToDataFile);
        }
        let ghost ops = batch_ops(self.order(), self.pending(), positions@);
        let ghost st0 = (engine.index@, engine.reclaim_size);
        let mut i: usize = 0;
        assert(ops.subrange(0, 0) =~= Seq::<Op>::empty());
        while i < n
            invariant
                self.wf(),
                *self == *old(self),
                engine.wf(),
                n == self.order().len(),
                n == positions@.len(),
                i <= n,
                ops == batch_ops(self.order(), self.pending(), positions@),
                crate::recovery::same_segments(old(engine), engine),
                (engine.index@, engine.reclaim_size) == apply_ops(st0, ops.subrange(0, i as int)),
            decreases n - i,
        {
            let key = self.pending_writes.key_at(i);
            let item = self.pending_writes.value_at(i);
            proof {
                self.pending_writes.lemma_key_seq();
                assert(self.order().contains(self.order()[i as int]));
            }
            engine.update_index(vstd::slice::slice_to_vec(key.as_slice()), item.0, positions[i]);
            proof {
                assert(ops.subrange(0, i + 1).drop_last() =~= ops.subrange(0, i as int));
                assert(ops.subrange(0, i + 1).last() == ops[i as int]);
            }
            i = i + 1;
        }
        assert(ops.subrange(0, i as int) =~= ops);
        self.pending_writes.clear();
        proof {
            assert(self.pending() =~= Map::<Seq<u8>, (LogRecordType, Seq<u8>)>::empty());
        }
        Ok(())
    }
}

impl Engine {
    /// A new, empty write batch; refused where `batch_refused` holds.
    pub fn new_write_batch(&self, options: WriteBatchOptions) -> (r: Result<WriteBatch>)
        ensures
            batch_refused(self) ==> r == Err::<WriteBatch, Errors>(Errors::UnableToUseWriteBatch),
            !batch_refused(self) ==> {
                &&& r is Ok
                &&& r->Ok_0.wf()
                &&& r->Ok_0.pending() == Map::<Seq<u8>, (LogRecordType, Seq<u8>)>::empty()
                &&& r->Ok_0.max_batch_num() == options.max_batch_num
                &&& r->Ok_0.sync_on_commit() == options.sync_writes
            },
    {
        if self.options.index_type == IndexType::BPlusTree && !self.seq_file_exists
            && !self.is_initial {
            return Err(Errors::UnableToUseWriteBatch);
        }
        let wb = WriteBatch { pending_writes: SortedMap::new(), options };
        assert(wb.pending() =~= Map::<Seq<u8>, (LogRecordType, Seq<u8>)>::empty());
        Ok(wb)
    }
}

/// The records a commit writes, as a replay meets them before the closing
/// one: each buffered key in order, under sequence number `s`, at its position.
pub open spec fn batch_records(
    order: Seq<Seq<u8>>,
    pending: Map<Seq<u8>, (LogRecordType, Seq<u8>)>,
    positions: Seq<LogRecordPos>,
    s: usize,
) -> Seq<Met> {
    Seq::new(order.len(), |i: int| (pending[order[i]].0, order[i], s, positions[i]))
}

/// Replaying a committed batch, its closing record included, changes the
/// index exactly as the live commit did; replaying it without the closing
/// record changes nothing.
pub proof fn lemma_batch_atomic(
    st: ReplayState,
    order: Seq<Seq<u8>>,
    pending: Map<Seq<u8>, (LogRecordType, Seq<u8>)>,
    positions: Seq<LogRecordPos>,
    s: usize,
    fin_pos: LogRecordPos,
)
    requires
        s != NON_TXN_SEQ_NO,
        !st.2.contains_key(s),
        positions.len() == order.len(),
        forall|i: int|
            0 <= i < order.len() ==> pending[#[trigger] order[i]].0 != LogRecordType::TxnFinished,
    ensures
        ({
            let recs = batch_records(order, pending, positions, s);
            let e = apply_ops((st.0, st.1), batch_ops(order, pending, positions));
            &&& replay_all(
                st,
                recs.push((LogRecordType::TxnFinished, txn_fin_key(), s, fin_pos)),
            ) == (e.0, e.1, st.2)
            &&& replay_all(st, recs).0 == st.0
            &&& replay_all(st, recs).1 == st.1
        }),
{
    let recs = batch_records(order, pending, positions, s);
    assert forall|i: int| 0 <= i < recs.len() implies (#[trigger] recs[i]).2 == s && recs[i].0
        != LogRecordType::TxnFinished by {
        assert(recs[i].0 == pending[order[i]].0);
    }
    assert(ops_of(recs) =~= batch_ops(order, pending, positions));
    lemma_unfinished_txn_invisible(st, recs, s);
    lemma_finished_txn_applied(st, recs, s, txn_fin_key(), fin_pos);
}

} // verus!
