//! Rebuilding the index at opening: replaying segments record by record,
//! holding back transactions until their commit marker, and loading hint files.

use vstd::prelude::*;

use crate::batch::{key_with_seq, parse_log_record_key, NON_TXN_SEQ_NO};
use crate::db::{effect, lookup, sat_add, Engine};
use crate::errors::{Errors, Result};
use crate::log_record::{
    be32, crc32_of, decode_log_record, decodes_as, decode_log_record_pos, framed_at, pos_bytes, record_body,
    record_bytes, sealed_record, type_byte, LogRecord, LogRecordPos, LogRecordType,
    ReadLogRecord, TransactionRecord, MAX_KV_LEN,
};

verus! {

/// One change to the index: a record type, the user's key and the position.
pub type Op = (LogRecordType, Seq<u8>, LogRecordPos);

/// The change a buffered transaction record stands for.
pub open spec fn op_of(r: TransactionRecord) -> Op {
    (r.record.rec_type, r.record.key@, r.pos)
}

/// The index and reclaim count after applying `ops` in order.
pub open spec fn apply_ops(st: (Map<Seq<u8>, LogRecordPos>, usize), ops: Seq<Op>) -> (
    Map<Seq<u8>, LogRecordPos>,
    usize,
)
    decreases ops.len(),
{
    if ops.len() == 0 {
        st
    } else {
        let last = ops.last();
        effect(apply_ops(st, ops.drop_last()), last.0, last.1, last.2)
    }
}

/// The bookkeeping of a replay: records of transactions whose commit marker
/// has not been met yet, by sequence number, and the largest sequence number
/// met so far.
pub struct Recovery {
    pending: Vec<(usize, Vec<TransactionRecord>)>,
    max_seq_no: usize,
}

impl View for Recovery {
    type V = Map<usize, Seq<Op>>;

    closed spec fn view(&self) -> Map<usize, Seq<Op>> {
        Map::new(
            |s: usize| exists|i: int| 0 <= i < self.pending@.len() && self.pending@[i].0 == s,
            |s: usize|
                {
                    let i = choose|i: int| 0 <= i < self.pending@.len() && self.pending@[i].0 == s;
                    self.pending@[i].1@.map_values(|r: TransactionRecord| op_of(r))
                },
        )
    }
}

/// The buffered changes of transaction `s`, none if it has none.
pub open spec fn pending_ops(p: Map<usize, Seq<Op>>, s: usize) -> Seq<Op> {
    if p.contains_key(s) {
        p[s]
    } else {
        Seq::empty()
    }
}

impl Recovery {
    /// The largest sequence number met so far.
    pub closed spec fn max_seq(&self) -> usize {
        self.max_seq_no
    }

    /// The largest sequence number met so far.
    pub fn max_seq_no(&self) -> (r: usize)
        ensures
            r == self.max_seq(),
    {
        self.max_seq_no
    }

    /// No transaction is buffered twice.
    pub closed spec fn wf(&self) -> bool {
        forall|i: int, j: int|
            0 <= i < j < self.pending@.len() ==> #[trigger] self.pending@[i].0
                != #[trigger] self.pending@[j].0
    }

    /// Nothing buffered, no sequence number met.
    pub fn new() -> (r: Recovery)
        ensures
            r.wf(),
            r@ == Map::<usize, Seq<Op>>::empty(),
            r.max_seq() == 0,
    {
        let r = Recovery { pending: Vec::new(), max_seq_no: 0 };
        assert(r@ =~= Map::<usize, Seq<Op>>::empty());
        r
    }

    fn slot(&self, s: usize) -> (r: Option<usize>)
        requires
            self.wf(),
        ensures
            r is Some <==> self@.contains_key(s),
            r is Some ==> r->Some_0 < self.pending@.len() && self.pending@[r->Some_0 as int].0 == s,
    {
        let mut i: usize = 0;
        while i < self.pending.len()
            invariant
                i <= self.pending@.len(),
                forall|j: int| 0 <= j < i ==> self.pending@[j].0 != s,
            decreases self.pending@.len() - i,
        {
            if self.pending[i].0 == s {
                return Some(i);
            }
            i = i + 1;
        }
        None
    }

    proof fn lemma_at(&self, i: int)
        requires
            self.wf(),
            0 <= i < self.pending@.len(),
        ensures
            self@.contains_key(self.pending@[i].0),
            self@[self.pending@[i].0] == self.pending@[i].1@.map_values(
                |r: TransactionRecord| op_of(r),
            ),
    {
        let s = self.pending@[i].0;
        assert(self@.contains_key(s));
        let k = choose|k: int| 0 <= k < self.pending@.len() && self.pending@[k].0 == s;
        if k != i {
            if k < i {
                assert(self.pending@[k].0 != self.pending@[i].0);
            } else {
                assert(self.pending@[i].0 != self.pending@[k].0);
            }
        }
    }

    /// Buffers `rec` under transaction `s`.
    fn push(&mut self, s: usize, rec: TransactionRecord)
        requires
            old(self).wf(),
        ensures
            final(self).wf(),
            final(self)@ == old(self)@.insert(s, pending_ops(old(self)@, s).push(op_of(rec))),
            final(self).max_seq() == old(self).max_seq(),
    {
        let ghost op = op_of(rec);
        let ghost before = self.pending@;
        match self.slot(s) {
            Some(i) => {
                proof {
                    self.lemma_at(i as int);
                }
                let (s0, mut recs) = self.pending.remove(i);
                let ghost old_recs = recs@;
                recs.push(rec);
                self.pending.insert(i, (s0, recs));
                proof {
                    assert(self.pending@ =~= before.update(i as int, (s, recs)));
                    assert(recs@.map_values(|r: TransactionRecord| op_of(r)) =~= old_recs.map_values(
                        |r: TransactionRecord| op_of(r),
                    ).push(op));
                    self.lemma_at(i as int);
                    assert forall|t: usize| #[trigger] self@.contains_key(t) == old(self)@.insert(s, pending_ops(old(self)@, s).push(op)).contains_key(t) by {
                        if t != s {
                            if old(self)@.contains_key(t) {
                                let k = choose|k: int| 0 <= k < before.len() && before[k].0 == t;
                                assert(self.pending@[k].0 == t);
                            }
                            if self@.contains_key(t) {
                                let k = choose|k: int| 0 <= k < self.pending@.len() && self.pending@[k].0 == t;
                                assert(before[k].0 == t);
                            }
                        }
                    }
                    assert forall|t: usize| #[trigger] self@.contains_key(t) && t != s implies self@[t] == old(self)@[t] by {
                        let k = choose|k: int| 0 <= k < self.pending@.len() && self.pending@[k].0 == t;
                        self.lemma_at(k);
                        old(self).lemma_at(k);
                    }
                    assert(self@ =~= old(self)@.insert(s, pending_ops(old(self)@, s).push(op)));
                }
            },
            None => {
                let mut recs: Vec<TransactionRecord> = Vec::new();
                recs.push(rec);
                self.pending.push((s, recs));
                proof {
                    let n = before.len() as int;
                    assert(self.pending@ =~= before.push((s, recs)));
                    assert(recs@.map_values(|r: TransactionRecord| op_of(r)) =~= seq![op]);
                    assert(pending_ops(old(self)@, s).push(op) =~= seq![op]);
                    self.lemma_at(n);
                    assert forall|t: usize| #[trigger] self@.contains_key(t) == old(self)@.insert(s, seq![op]).contains_key(t) by {
                        if t != s {
                            if old(self)@.contains_key(t) {
                                let k = choose|k: int| 0 <= k < before.len() && before[k].0 == t;
                                assert(self.pending@[k].0 == t);
                            }
                            if self@.contains_key(t) {
                                let k = choose|k: int| 0 <= k < self.pending@.len() && self.pending@[k].0 == t;
                                assert(k < n);
                                assert(before[k].0 == t);
                            }
                        }
                    }
                    assert forall|t: usize| #[trigger] self@.contains_key(t) && t != s implies self@[t] == old(self)@[t] by {
                        let k = choose|k: int| 0 <= k < self.pending@.len() && self.pending@[k].0 == t;
                        assert(k < n);
                        self.lemma_at(k);
                        old(self).lemma_at(k);
                    }
                    assert(self@ =~= old(self)@.insert(s, pending_ops(old(self)@, s).push(op)));
                }
            },
        }
    }

    /// Takes out the records buffered under transaction `s`.
    fn take(&mut self, s: usize) -> (r: Vec<TransactionRecord>)
        requires
            old(self).wf(),
        ensures
            final(self).wf(),
            final(self)@ == old(self)@.remove(s),
            r@.map_values(|x: TransactionRecord| op_of(x)) == pending_ops(old(self)@, s),
            final(self).max_seq() == old(self).max_seq(),
    {
        let ghost before = self.pending@;
        match self.slot(s) {
            Some(i) => {
                proof {
                    self.lemma_at(i as int);
                }
                let (_, recs) = self.pending.remove(i);
                proof {
                    assert(self.pending@ =~= before.remove(i as int));
                    assert forall|t: usize| #[trigger] self@.contains_key(t) == old(self)@.remove(s).contains_key(t) by {
                        if t != s {
                            if old(self)@.contains_key(t) {
                                let k = choose|k: int| 0 <= k < before.len() && before[k].0 == t;
                                assert(k != i);
                                if k < i {
                                    assert(self.pending@[k].0 == t);
                                } else {
                                    assert(self.pending@[k - 1].0 == t);
                                }
                            }
                            if self@.contains_key(t) {
                                let k = choose|k: int| 0 <= k < self.pending@.len() && self.pending@[k].0 == t;
                                if k < i {
                                    assert(before[k].0 == t);
                                } else {
                                    assert(before[k + 1].0 == t);
                                }
                            }
                        } else {
                            if self@.contains_key(t) {
                                let k = choose|k: int| 0 <= k < self.pending@.len() && self.pending@[k].0 == t;
                                if k < i {
                                    assert(before[k].0 == t);
                                } else {
                                    assert(before[k + 1].0 == t);
                                }
                            }
                        }
                    }
                    assert forall|t: usize| #[trigger] self@.contains_key(t) implies self@[t] == old(self)@[t] by {
                        let k = choose|k: int| 0 <= k < self.pending@.len() && self.pending@[k].0 == t;
                        self.lemma_at(k);
                        if k < i {
                            old(self).lemma_at(k);
                        } else {
                            old(self).lemma_at(k + 1);
                        }
                    }
                    assert(self@ =~= old(self)@.remove(s));
                }
                recs
            },
            None => {
                proof {
                    assert(self@ =~= old(self)@.remove(s));
                }
                let r: Vec<TransactionRecord> = Vec::new();
                assert(r@.map_values(|x: TransactionRecord| op_of(x)) =~= Seq::<Op>::empty());
                r
            },
        }
    }
}

/// The index, the reclaim count and the buffered transactions, as a replay
/// carries them from record to record.
pub type ReplayState = (Map<Seq<u8>, LogRecordPos>, usize, Map<usize, Seq<Op>>);

/// A record as a replay meets it: its type, the user's key, its sequence
/// number and its position.
pub type Met = (LogRecordType, Seq<u8>, usize, LogRecordPos);

/// What one record does in a replay. Outside a transaction it applies at
/// once; inside one it waits, until the transaction's commit marker applies
/// all that waited, in order.
pub open spec fn replay_step(st: ReplayState, t: LogRecordType, k: Seq<u8>, s: usize, pos: LogRecordPos) -> ReplayState {
    if s == NON_TXN_SEQ_NO {
        let e = effect((st.0, st.1), t, k, pos);
        (e.0, e.1, st.2)
    } else if t == LogRecordType::TxnFinished {
        let e = apply_ops((st.0, st.1), pending_ops(st.2, s));
        (e.0, e.1, st.2.remove(s))
    } else {
        (st.0, st.1, st.2.insert(s, pending_ops(st.2, s).push((t, k, pos))))
    }
}

/// The state after replaying `recs` in order.
pub open spec fn replay_all(st: ReplayState, recs: Seq<Met>) -> ReplayState
    decreases recs.len(),
{
    if recs.len() == 0 {
        st
    } else {
        let l = recs.last();
        replay_step(replay_all(st, recs.drop_last()), l.0, l.1, l.2, l.3)
    }
}

/// The change each met record stands for.
pub open spec fn ops_of(recs: Seq<Met>) -> Seq<Op> {
    recs.map_values(|m: Met| (m.0, m.1, m.3))
}

/// Records of a transaction whose commit marker never comes leave the index
/// and the reclaim count as they were; they only wait.
pub proof fn lemma_unfinished_txn_invisible(st: ReplayState, recs: Seq<Met>, s: usize)
    requires
        s != NON_TXN_SEQ_NO,
        forall|i: int| 0 <= i < recs.len() ==> (#[trigger] recs[i]).2 == s && recs[i].0 != LogRecordType::TxnFinished,
    ensures
        replay_all(st, recs).0 == st.0,
        replay_all(st, recs).1 == st.1,
        recs.len() > 0 ==> replay_all(st, recs).2 == st.2.insert(s, pending_ops(st.2, s) + ops_of(recs)),
        recs.len() == 0 ==> replay_all(st, recs).2 == st.2,
    decreases recs.len(),
{
    if recs.len() > 0 {
        let init = recs.drop_last();
        lemma_unfinished_txn_invisible(st, init, s);
        let l = recs.last();
        assert(recs[recs.len() - 1] == l);
        if init.len() == 0 {
            assert(ops_of(recs) =~= seq![(l.0, l.1, l.3)]);
            assert(pending_ops(st.2, s) + ops_of(recs) =~= pending_ops(st.2, s).push((l.0, l.1, l.3)));
        } else {
            let mid = replay_all(st, init);
            assert(pending_ops(mid.2, s) == pending_ops(st.2, s) + ops_of(init));
            assert(ops_of(recs) =~= ops_of(init).push((l.0, l.1, l.3)));
            assert(pending_ops(st.2, s) + ops_of(recs) =~= (pending_ops(st.2, s) + ops_of(init)).push((l.0, l.1, l.3)));
            assert(mid.2.insert(s, pending_ops(mid.2, s).push((l.0, l.1, l.3))) =~= st.2.insert(s, pending_ops(st.2, s) + ops_of(recs)));
        }
    }
}

/// A transaction followed by its commit marker applies all its changes, in
/// order, and leaves nothing waiting.
pub proof fn lemma_finished_txn_applied(st: ReplayState, recs: Seq<Met>, s: usize, fin_key: Seq<u8>, fin_pos: LogRecordPos)
    requires
        s != NON_TXN_SEQ_NO,
        !st.2.contains_key(s),
        forall|i: int| 0 <= i < recs.len() ==> (#[trigger] recs[i]).2 == s && recs[i].0 != LogRecordType::TxnFinished,
    ensures
        ({
            let e = apply_ops((st.0, st.1), ops_of(recs));
            replay_all(st, recs.push((LogRecordType::TxnFinished, fin_key, s, fin_pos))) == (e.0, e.1, st.2)
        }),
{
    let all = recs.push((LogRecordType::TxnFinished, fin_key, s, fin_pos));
    assert(all.drop_last() =~= recs);
    lemma_unfinished_txn_invisible(st, recs, s);
    let mid = replay_all(st, recs);
    if recs.len() == 0 {
        assert(ops_of(recs) =~= Seq::<Op>::empty());
        assert(pending_ops(mid.2, s) =~= Seq::<Op>::empty());
        assert(st.2.remove(s) =~= st.2);
    } else {
        assert(pending_ops(st.2, s) + ops_of(recs) =~= ops_of(recs));
        assert(mid.2.remove(s) =~= st.2);
    }
}

/// A put found in the log at recovery is what a read of its key finds, until
/// a later record of that key.
pub proof fn lemma_replayed_put_visible(st: ReplayState, key: Seq<u8>, pos: LogRecordPos)
    requires
        key.len() > 0,
    ensures
        lookup(replay_step(st, LogRecordType::Normal, key, NON_TXN_SEQ_NO, pos).0, key) == Ok::<
            LogRecordPos,
            Errors,
        >(pos),
{
}

/// Where the `i`th of `mets` starts when they follow each other from the
/// start of a segment.
pub open spec fn start_of(mets: Seq<Met>, i: int) -> int {
    if i <= 0 {
        0
    } else {
        mets[i - 1].3.offset + mets[i - 1].3.size
    }
}

/// `mets` are the records that follow each other in `data`, segment
/// `file_id`, from its start up to `end`: each is a whole record whose
/// checksum matches, stored under its key and sequence number.
pub open spec fn scanned(data: Seq<u8>, file_id: u32, mets: Seq<Met>, end: int) -> bool {
    &&& end == start_of(mets, mets.len() as int)
    &&& forall|i: int|
        0 <= i < mets.len() ==> {
            let p = (#[trigger] mets[i]).3;
            &&& p.file_id == file_id
            &&& p.offset == start_of(mets, i)
            &&& p.offset + p.size <= data.len()
            &&& exists|v: Seq<u8>|
                #[trigger] sealed_record(
                    data.subrange(p.offset as int, p.offset + p.size),
                    mets[i].0,
                    key_with_seq(mets[i].1, mets[i].2 as nat),
                    v,
                )
        }
}

/// One more whole record, right where the scanned ones end, extends the scan.
pub proof fn lemma_scanned_push(data: Seq<u8>, file_id: u32, mets: Seq<Met>, m: Met, value: Seq<u8>)
    requires
        scanned(data, file_id, mets, m.3.offset as int),
        m.3.file_id == file_id,
        m.3.offset + m.3.size <= data.len(),
        sealed_record(
            data.subrange(m.3.offset as int, m.3.offset + m.3.size),
            m.0,
            key_with_seq(m.1, m.2 as nat),
            value,
        ),
    ensures
        scanned(data, file_id, mets.push(m), m.3.offset + m.3.size),
{
    let mets2 = mets.push(m);
    assert forall|i: int| 0 <= i < mets.len() implies start_of(mets2, i) == start_of(mets, i) by {
        if i > 0 {
            assert(mets2[i - 1] == mets[i - 1]);
        }
    }
    assert forall|i: int| 0 <= i < mets2.len() implies {
        let p = (#[trigger] mets2[i]).3;
        &&& p.file_id == file_id
        &&& p.offset == start_of(mets2, i)
        &&& p.offset + p.size <= data.len()
        &&& exists|v: Seq<u8>|
            #[trigger] sealed_record(
                data.subrange(p.offset as int, p.offset + p.size),
                mets2[i].0,
                key_with_seq(mets2[i].1, mets2[i].2 as nat),
                v,
            )
    } by {
        if i < mets.len() {
            assert(mets2[i] == mets[i]);
        } else {
            assert(mets2[i] == m);
        }
    }
}

/// A record as the engine writes it to a segment: its type, the user's key,
/// its sequence number and its value.
pub type Entry = (LogRecordType, Seq<u8>, usize, Seq<u8>);

/// The bytes of a record as the engine writes it.
pub open spec fn entry_bytes(e: Entry) -> Seq<u8> {
    record_bytes(e.0, key_with_seq(e.1, e.2 as nat), e.3)
}

/// The record's stored key and value fit one record.
pub open spec fn entry_fits(e: Entry) -> bool {
    key_with_seq(e.1, e.2 as nat).len() + e.3.len() <= MAX_KV_LEN
}

/// The records `es` written one after the other.
pub open spec fn log_bytes(es: Seq<Entry>) -> Seq<u8>
    decreases es.len(),
{
    if es.len() == 0 {
        Seq::empty()
    } else {
        log_bytes(es.drop_last()) + entry_bytes(es.last())
    }
}

/// The records `es` of segment `file_id` as a replay meets them, each at
/// its place.
pub open spec fn entry_mets(es: Seq<Entry>, file_id: u32) -> Seq<Met>
    decreases es.len(),
{
    if es.len() == 0 {
        Seq::empty()
    } else {
        let l = es.last();
        entry_mets(es.drop_last(), file_id).push(
            (
                l.0,
                l.1,
                l.2,
                LogRecordPos {
                    file_id,
                    offset: log_bytes(es.drop_last()).len() as u64,
                    size: entry_bytes(l).len() as u32,
                },
            ),
        )
    }
}

/// The largest of `m` and the sequence numbers of `mets`.
pub open spec fn max_seq_of(m: usize, mets: Seq<Met>) -> usize
    decreases mets.len(),
{
    if mets.len() == 0 {
        m
    } else {
        max_usize(max_seq_of(m, mets.drop_last()), mets.last().2)
    }
}

/// `n` zero bytes.
pub open spec fn zeros(n: nat) -> Seq<u8> {
    Seq::new(n, |i: int| 0u8)
}

/// Every record of `es` fits.
pub open spec fn entries_fit(es: Seq<Entry>) -> bool {
    forall|i: int| 0 <= i < es.len() ==> entry_fits(#[trigger] es[i])
}

/// `data` begins with the records `es`.
pub open spec fn log_prefix(data: Seq<u8>, es: Seq<Entry>) -> bool {
    &&& entries_fit(es)
    &&& log_bytes(es).len() <= data.len()
    &&& data.subrange(0, log_bytes(es).len() as int) == log_bytes(es)
}

/// `data` is the records `es`, then `pad` zero bytes.
pub open spec fn zero_tail_log(data: Seq<u8>, es: Seq<Entry>, pad: nat) -> bool {
    entries_fit(es) && data == log_bytes(es) + zeros(pad)
}

/// `data` is the records `es`, then a record whose checksum does not match
/// its body or whose type byte names no type.
pub open spec fn bad_tail_log(
    data: Seq<u8>,
    es: Seq<Entry>,
    tb: u8,
    key: Seq<u8>,
    value: Seq<u8>,
    c: Seq<u8>,
) -> bool {
    &&& log_prefix(data, es)
    &&& framed_at(data, log_bytes(es).len() as int, tb, key, value, c)
    &&& key.len() > 0 || value.len() > 0
    &&& c != be32(crc32_of(record_body(tb, key, value))) || !(1 <= tb <= 3)
}

proof fn lemma_log_take_prefix(es: Seq<Entry>, j: int)
    requires
        0 <= j <= es.len(),
    ensures
        log_bytes(es.take(j)).len() <= log_bytes(es).len(),
        log_bytes(es).subrange(0, log_bytes(es.take(j)).len() as int) == log_bytes(es.take(j)),
    decreases es.len(),
{
    if j == es.len() {
        assert(es.take(j) =~= es);
        assert(log_bytes(es).subrange(0, log_bytes(es).len() as int) =~= log_bytes(es));
    } else {
        let init = es.drop_last();
        lemma_log_take_prefix(init, j);
        assert(init.take(j) =~= es.take(j));
        let a = log_bytes(init);
        let n = log_bytes(es.take(j)).len() as int;
        assert(log_bytes(es) == a + entry_bytes(es.last()));
        assert((a + entry_bytes(es.last())).subrange(0, n) =~= a.subrange(0, n));
    }
}

/// The `i`th of the records that begin `data` lies whole where the ones
/// before it end, and fits.
pub proof fn lemma_log_entry(data: Seq<u8>, es: Seq<Entry>, i: int)
    requires
        log_prefix(data, es),
        0 <= i < es.len(),
    ensures
        ({
            let e = es[i];
            let off = log_bytes(es.take(i)).len() as int;
            let key = key_with_seq(e.1, e.2 as nat);
            &&& framed_at(
                data,
                off,
                type_byte(e.0),
                key,
                e.3,
                be32(crc32_of(record_body(type_byte(e.0), key, e.3))),
            )
            &&& key.len() > 0
            &&& log_bytes(es.take(i + 1)) == log_bytes(es.take(i)) + entry_bytes(e)
            &&& entry_bytes(e).len() == record_body(type_byte(e.0), key, e.3).len() + 4
            &&& entry_bytes(e).len() <= u32::MAX
            &&& es.take(i + 1).drop_last() == es.take(i)
            &&& es.take(i + 1).last() == e
        }),
{
    let e = es[i];
    let key = key_with_seq(e.1, e.2 as nat);
    assert(es.take(i + 1).drop_last() =~= es.take(i));
    assert(es.take(i + 1).last() == e);
    lemma_log_take_prefix(es, i + 1);
    crate::varint::lemma_varint_len(e.2 as nat);
    crate::varint::lemma_varint_len(key.len());
    crate::varint::lemma_varint_len(e.3.len());
    assert(entry_fits(es[i]));
    let pre = log_bytes(es.take(i));
    let whole = log_bytes(es.take(i + 1));
    let off = pre.len() as int;
    let eb = entry_bytes(e);
    assert(whole == pre + eb);
    assert(data.subrange(0, whole.len() as int) =~= log_bytes(es).subrange(0, whole.len() as int));
    assert(data.subrange(off, off + eb.len()) =~= whole.subrange(off, off + eb.len()));
    assert(whole.subrange(off, off + eb.len()) =~= eb);
}

/// Where a scan of the records `es` stands after `i` of them.
pub open spec fn on_track(es: Seq<Entry>, file_id: u32, i: int, offset: int, mets: Seq<Met>) -> bool {
    i <= es.len() ==> offset == log_bytes(es.take(i)).len() && mets == entry_mets(es.take(i), file_id)
}

pub(crate) proof fn lemma_zero_tail_prefix(data: Seq<u8>, es: Seq<Entry>, pad: nat)
    requires
        zero_tail_log(data, es, pad),
    ensures
        log_prefix(data, es),
{
    assert(data.subrange(0, log_bytes(es).len() as int) =~= log_bytes(es));
}

/// What the decoder gives at the `i`th place of a scan, where the data is a
/// run of whole records: the `i`th record while there is one; after the last,
/// the end on zero padding and `InvalidLogRecordCrc` on a damaged record.
pub(crate) proof fn lemma_decode_against_log(
    data: Seq<u8>,
    file_id: u32,
    offset: u64,
    i: int,
    mets: Seq<Met>,
    res: Result<ReadLogRecord>,
)
    requires
        0 <= i,
        offset <= data.len(),
        forall|es: Seq<Entry>| #[trigger] log_prefix(data, es) ==> on_track(
            es,
            file_id,
            i,
            offset as int,
            mets,
        ),
        decodes_as(data, offset, res),
    ensures
        forall|es: Seq<Entry>|
            #[trigger] log_prefix(data, es) && i < es.len() ==> {
                &&& res is Ok
                &&& res->Ok_0.record.rec_type == es[i].0
                &&& res->Ok_0.record.key@ == key_with_seq(es[i].1, es[i].2 as nat)
                &&& res->Ok_0.record.value@ == es[i].3
                &&& res->Ok_0.size == entry_bytes(es[i]).len()
            },
        forall|es: Seq<Entry>, pad: nat|
            #[trigger] zero_tail_log(data, es, pad) && i == es.len() ==> res == Err::<
                ReadLogRecord,
                Errors,
            >(Errors::ReadDataFileEOF),
        forall|es: Seq<Entry>, tb: u8, key: Seq<u8>, value: Seq<u8>, c: Seq<u8>|
            #[trigger] bad_tail_log(data, es, tb, key, value, c) && i == es.len() ==> res == Err::<
                ReadLogRecord,
                Errors,
            >(Errors::InvalidLogRecordCrc),
{
    assert forall|es: Seq<Entry>| #[trigger] log_prefix(data, es) && i < es.len() implies {
        &&& res is Ok
        &&& res->Ok_0.record.rec_type == es[i].0
        &&& res->Ok_0.record.key@ == key_with_seq(es[i].1, es[i].2 as nat)
        &&& res->Ok_0.record.value@ == es[i].3
        &&& res->Ok_0.size == entry_bytes(es[i]).len()
    } by {
        lemma_log_entry(data, es, i);
        let e = es[i];
        let key = key_with_seq(e.1, e.2 as nat);
        assert(framed_at(
            data,
            offset as int,
            type_byte(e.0),
            key,
            e.3,
            be32(crc32_of(record_body(type_byte(e.0), key, e.3))),
        ));
    }
    assert forall|es: Seq<Entry>, pad: nat| #[trigger] zero_tail_log(data, es, pad) && i == es.len()
        implies res == Err::<ReadLogRecord, Errors>(Errors::ReadDataFileEOF) by {
        lemma_zero_tail_prefix(data, es, pad);
        assert(es.take(i) =~= es);
        let n = log_bytes(es).len() as int;
        assert(offset == n);
        if offset + 3 <= data.len() {
            assert(data[offset + 1] == zeros(pad)[1]);
            assert(data[offset + 2] == zeros(pad)[2]);
        }
    }
    assert forall|es: Seq<Entry>, tb: u8, key: Seq<u8>, value: Seq<u8>, c: Seq<u8>|
        #[trigger] bad_tail_log(data, es, tb, key, value, c) && i == es.len() implies res == Err::<
        ReadLogRecord,
        Errors,
    >(Errors::InvalidLogRecordCrc) by {
        assert(es.take(i) =~= es);
        assert(framed_at(data, offset as int, tb, key, value, c));
    }
}

/// How a scan of a run of whole records can stop at its `i`th place: a
/// record there is the `i`th record, the end comes only after the last record
/// when zero padding follows, and an error only on a damaged record after
/// the last.
pub(crate) proof fn lemma_exit_cases(
    data: Seq<u8>,
    file_id: u32,
    offset: u64,
    i: int,
    mets: Seq<Met>,
    res: Result<ReadLogRecord>,
)
    requires
        0 <= i,
        offset <= data.len(),
        forall|es: Seq<Entry>| #[trigger] log_prefix(data, es) ==> on_track(
            es,
            file_id,
            i,
            offset as int,
            mets,
        ),
        forall|es: Seq<Entry>, pad: nat| #[trigger] zero_tail_log(data, es, pad) ==> i <= es.len(),
        forall|es: Seq<Entry>, tb: u8, key: Seq<u8>, value: Seq<u8>, c: Seq<u8>|
            #[trigger] bad_tail_log(data, es, tb, key, value, c) ==> i <= es.len(),
        decodes_as(data, offset, res),
    ensures
        res is Ok ==> forall|es: Seq<Entry>, pad: nat|
            #[trigger] zero_tail_log(data, es, pad) ==> i < es.len() && res->Ok_0.size
                == entry_bytes(es[i]).len() && res->Ok_0.size <= u32::MAX
                && res->Ok_0.record.key@ == key_with_seq(es[i].1, es[i].2 as nat),
        res is Ok ==> forall|es: Seq<Entry>, tb: u8, key: Seq<u8>, value: Seq<u8>, c: Seq<u8>|
            #[trigger] bad_tail_log(data, es, tb, key, value, c) ==> i < es.len()
                && res->Ok_0.size == entry_bytes(es[i]).len() && res->Ok_0.size <= u32::MAX
                && res->Ok_0.record.key@ == key_with_seq(es[i].1, es[i].2 as nat),
        res == Err::<ReadLogRecord, Errors>(Errors::ReadDataFileEOF) ==> {
            &&& forall|es: Seq<Entry>, pad: nat|
                #[trigger] zero_tail_log(data, es, pad) ==> i == es.len()
            &&& forall|es: Seq<Entry>, tb: u8, key: Seq<u8>, value: Seq<u8>, c: Seq<u8>|
                #[trigger] bad_tail_log(data, es, tb, key, value, c) ==> false
        },
        res is Err && res != Err::<ReadLogRecord, Errors>(Errors::ReadDataFileEOF) ==> {
            &&& forall|es: Seq<Entry>, pad: nat| #[trigger] zero_tail_log(data, es, pad) ==> false
            &&& forall|es: Seq<Entry>, tb: u8, key: Seq<u8>, value: Seq<u8>, c: Seq<u8>|
                #[trigger] bad_tail_log(data, es, tb, key, value, c) ==> res == Err::<
                    ReadLogRecord,
                    Errors,
                >(Errors::InvalidLogRecordCrc)
        },
{
    lemma_decode_against_log(data, file_id, offset, i, mets, res);
    assert forall|es: Seq<Entry>, pad: nat| #[trigger] zero_tail_log(data, es, pad) implies {
        &&& (res is Ok ==> i < es.len() && res->Ok_0.size == entry_bytes(es[i]).len()
            && res->Ok_0.size <= u32::MAX
            && res->Ok_0.record.key@ == key_with_seq(es[i].1, es[i].2 as nat))
        &&& (res == Err::<ReadLogRecord, Errors>(Errors::ReadDataFileEOF) ==> i == es.len())
        &&& (res is Err && res != Err::<ReadLogRecord, Errors>(Errors::ReadDataFileEOF) ==> false)
    } by {
        lemma_zero_tail_prefix(data, es, pad);
        assert(log_prefix(data, es));
        if i < es.len() {
            lemma_log_entry(data, es, i);
        }
    }
    assert forall|es: Seq<Entry>, tb: u8, key: Seq<u8>, value: Seq<u8>, c: Seq<u8>|
        #[trigger] bad_tail_log(data, es, tb, key, value, c) implies {
        &&& (res is Ok ==> i < es.len() && res->Ok_0.size == entry_bytes(es[i]).len()
            && res->Ok_0.size <= u32::MAX
            && res->Ok_0.record.key@ == key_with_seq(es[i].1, es[i].2 as nat))
        &&& (res == Err::<ReadLogRecord, Errors>(Errors::ReadDataFileEOF) ==> false)
        &&& (res is Err && res != Err::<ReadLogRecord, Errors>(Errors::ReadDataFileEOF) ==> res
            == Err::<ReadLogRecord, Errors>(Errors::InvalidLogRecordCrc))
    } by {
        assert(log_prefix(data, es));
        if i < es.len() {
            lemma_log_entry(data, es, i);
        }
    }
}

/// Replaying the records of segment `file_id` (bytes `data`) up to `end`
/// takes the state `before` to `after`.
pub open spec fn replays_segment(
    data: Seq<u8>,
    file_id: u32,
    end: int,
    before: ReplayState,
    after: ReplayState,
    max_before: usize,
    max_after: usize,
) -> bool {
    exists|mets: Seq<Met>|
        #[trigger] scanned(data, file_id, mets, end) && after == replay_all(before, mets) && max_after
            == max_seq_of(max_before, mets)
}

/// The index after recording each hint's position for its key, in order.
pub open spec fn put_all(idx: Map<Seq<u8>, LogRecordPos>, hints: Seq<(Seq<u8>, LogRecordPos)>) -> Map<Seq<u8>, LogRecordPos>
    decreases hints.len(),
{
    if hints.len() == 0 {
        idx
    } else {
        put_all(idx, hints.drop_last()).insert(hints.last().0, hints.last().1)
    }
}

/// The `i`th hint record of `data` ends at `ends[i]`, starts where the one
/// before it ended, and maps its key to the encoded position.
pub open spec fn hints_tiled(data: Seq<u8>, hints: Seq<(Seq<u8>, LogRecordPos)>, ends: Seq<int>) -> bool {
    &&& hints.len() == ends.len()
    &&& forall|i: int|
        0 <= i < hints.len() ==> {
            let start = if i == 0 {
                0
            } else {
                ends[i - 1]
            };
            &&& start < #[trigger] ends[i] <= data.len()
            &&& hint_at(data, start, ends[i], hints[i].0, hints[i].1)
        }
}

/// Between `start` and `end`, `data` holds a whole record, its checksum
/// matching, whose key is `key` and whose value is the encoding of `pos`.
#[verifier::opaque]
pub open spec fn hint_at(data: Seq<u8>, start: int, end: int, key: Seq<u8>, pos: LogRecordPos) -> bool {
    exists|t: LogRecordType| #[trigger] sealed_record(data.subrange(start, end), t, key, pos_bytes(pos))
}

proof fn lemma_hints_extend(
    data: Seq<u8>,
    hints: Seq<(Seq<u8>, LogRecordPos)>,
    ends: Seq<int>,
    key: Seq<u8>,
    pos: LogRecordPos,
    start: int,
    end: int,
)
    requires
        hints_tiled(data, hints, ends),
        start == (if ends.len() == 0 {
            0
        } else {
            ends.last()
        }),
        start < end <= data.len(),
        hint_at(data, start, end, key, pos),
    ensures
        hints_tiled(data, hints.push((key, pos)), ends.push(end)),
{
    let h2 = hints.push((key, pos));
    let e2 = ends.push(end);
    assert forall|i: int| 0 <= i < h2.len() implies {
        let s0 = if i == 0 {
            0
        } else {
            e2[i - 1]
        };
        &&& s0 < #[trigger] e2[i] <= data.len()
        &&& hint_at(data, s0, e2[i], h2[i].0, h2[i].1)
    } by {
        if i > 0 {
            assert(e2[i - 1] == ends[i - 1] || i == hints.len());
        }
        if i < hints.len() {
            assert(e2[i] == ends[i]);
            assert(h2[i] == hints[i]);
            if i > 0 {
                assert(e2[i - 1] == ends[i - 1]);
            }
        } else {
            if i > 0 {
                assert(e2[i - 1] == ends[i - 1]);
            }
        }
    }
}

/// A hint as a merge writes it: a key and the position of its merged record.
pub type Hint = (Seq<u8>, LogRecordPos);

/// The bytes of a hint record.
pub open spec fn hint_bytes(h: Hint) -> Seq<u8> {
    record_bytes(LogRecordType::Normal, h.0, pos_bytes(h.1))
}

/// The hint records `hs` written one after the other.
pub open spec fn hint_log(hs: Seq<Hint>) -> Seq<u8>
    decreases hs.len(),
{
    if hs.len() == 0 {
        Seq::empty()
    } else {
        hint_log(hs.drop_last()) + hint_bytes(hs.last())
    }
}

/// `data` is the hint records `hs`, each fitting a record, then `pad` zero
/// bytes.
pub open spec fn zero_tail_hints(data: Seq<u8>, hs: Seq<Hint>, pad: nat) -> bool {
    &&& forall|i: int|
        0 <= i < hs.len() ==> (#[trigger] hs[i]).0.len() + pos_bytes(hs[i].1).len() <= MAX_KV_LEN
    &&& data == hint_log(hs) + zeros(pad)
}

proof fn lemma_hint_take_prefix(hs: Seq<Hint>, j: int)
    requires
        0 <= j <= hs.len(),
    ensures
        hint_log(hs.take(j)).len() <= hint_log(hs).len(),
        hint_log(hs).subrange(0, hint_log(hs.take(j)).len() as int) == hint_log(hs.take(j)),
    decreases hs.len(),
{
    if j == hs.len() {
        assert(hs.take(j) =~= hs);
        assert(hint_log(hs).subrange(0, hint_log(hs).len() as int) =~= hint_log(hs));
    } else {
        let init = hs.drop_last();
        lemma_hint_take_prefix(init, j);
        assert(init.take(j) =~= hs.take(j));
        let a = hint_log(init);
        let n = hint_log(hs.take(j)).len() as int;
        assert((a + hint_bytes(hs.last())).subrange(0, n) =~= a.subrange(0, n));
    }
}

/// What the decoder gives at the `i`th place of a hint file made of whole
/// hint records and zero padding: the `i`th hint while there is one, then
/// the end.
proof fn lemma_hint_decode(data: Seq<u8>, offset: u64, i: int, hints: Seq<Hint>, res: Result<ReadLogRecord>)
    requires
        0 <= i,
        offset <= data.len(),
        forall|hs: Seq<Hint>, pad: nat|
            #[trigger] zero_tail_hints(data, hs, pad) ==> i <= hs.len() && offset == hint_log(
                hs.take(i),
            ).len() && hints == hs.take(i),
        decodes_as(data, offset, res),
    ensures
        forall|hs: Seq<Hint>, pad: nat|
            #[trigger] zero_tail_hints(data, hs, pad) ==> {
                &&& i < hs.len() ==> {
                    &&& res is Ok
                    &&& res->Ok_0.record.key@ == hs[i].0
                    &&& res->Ok_0.record.value@ == pos_bytes(hs[i].1)
                    &&& res->Ok_0.size == hint_bytes(hs[i]).len()
                    &&& hint_log(hs.take(i + 1)) == hint_log(hs.take(i)) + hint_bytes(hs[i])
                    &&& hs.take(i + 1) == hs.take(i).push(hs[i])
                }
                &&& i == hs.len() ==> res == Err::<ReadLogRecord, Errors>(Errors::ReadDataFileEOF)
            },
{
    assert forall|hs: Seq<Hint>, pad: nat| #[trigger] zero_tail_hints(data, hs, pad) implies {
        &&& i < hs.len() ==> {
            &&& res is Ok
            &&& res->Ok_0.record.key@ == hs[i].0
            &&& res->Ok_0.record.value@ == pos_bytes(hs[i].1)
            &&& res->Ok_0.size == hint_bytes(hs[i]).len()
            &&& hint_log(hs.take(i + 1)) == hint_log(hs.take(i)) + hint_bytes(hs[i])
            &&& hs.take(i + 1) == hs.take(i).push(hs[i])
        }
        &&& i == hs.len() ==> res == Err::<ReadLogRecord, Errors>(Errors::ReadDataFileEOF)
    } by {
        if i < hs.len() {
            let h = hs[i];
            assert(hs.take(i + 1).drop_last() =~= hs.take(i));
            assert(hs.take(i + 1) =~= hs.take(i).push(h));
            lemma_hint_take_prefix(hs, i + 1);
            crate::varint::lemma_varint_len(h.1.file_id as nat);
            let pre = hint_log(hs.take(i));
            let whole = hint_log(hs.take(i + 1));
            let off = pre.len() as int;
            let hb = hint_bytes(h);
            assert(whole == pre + hb);
            assert(data.subrange(0, whole.len() as int) =~= hint_log(hs).subrange(
                0,
                whole.len() as int,
            ));
            assert(data.subrange(off, off + hb.len()) =~= whole.subrange(off, off + hb.len()));
            assert(whole.subrange(off, off + hb.len()) =~= hb);
            assert(framed_at(
                data,
                offset as int,
                1u8,
                h.0,
                pos_bytes(h.1),
                be32(crc32_of(record_body(1u8, h.0, pos_bytes(h.1)))),
            ));
        } else {
            assert(hs.take(i) =~= hs);
            if offset + 3 <= data.len() {
                assert(data[offset + 1] == zeros(pad)[1]);
                assert(data[offset + 2] == zeros(pad)[2]);
            }
        }
    }
}

/// `hints` are the records that follow each other in the hint file `data`
/// from its start up to `end`.
pub open spec fn hints_scanned(data: Seq<u8>, hints: Seq<(Seq<u8>, LogRecordPos)>, end: int) -> bool {
    exists|ends: Seq<int>|
        #[trigger] hints_tiled(data, hints, ends) && end == (if ends.len() == 0 {
            0
        } else {
            ends.last()
        })
}

/// Replaying two runs of records one after the other is replaying them
/// joined: segments replayed in turn give the replay of all their records.
pub proof fn lemma_replay_all_append(st: ReplayState, a: Seq<Met>, b: Seq<Met>)
    ensures
        replay_all(st, a + b) == replay_all(replay_all(st, a), b),
    decreases b.len(),
{
    if b.len() == 0 {
        assert(a + b =~= a);
    } else {
        lemma_replay_all_append(st, a, b.drop_last());
        assert((a + b).drop_last() =~= a + b.drop_last());
        assert((a + b).last() == b.last());
    }
}

proof fn lemma_max_seq_append(m: usize, a: Seq<Met>, b: Seq<Met>)
    ensures
        max_seq_of(m, a + b) == max_seq_of(max_seq_of(m, a), b),
    decreases b.len(),
{
    if b.len() == 0 {
        assert(a + b =~= a);
    } else {
        lemma_max_seq_append(m, a, b.drop_last());
        assert((a + b).drop_last() =~= a + b.drop_last());
        assert((a + b).last() == b.last());
    }
}

/// A put written outside any transaction, found as the last record of a
/// segment at recovery, is what a read of its key finds afterwards, at the
/// place where the segment holds it.
pub proof fn lemma_segment_put_visible(st: ReplayState, es: Seq<Entry>, key: Seq<u8>, value: Seq<u8>, file_id: u32)
    requires
        key.len() > 0,
    ensures
        ({
            let e = (LogRecordType::Normal, key, NON_TXN_SEQ_NO, value);
            let pos = LogRecordPos {
                file_id,
                offset: log_bytes(es).len() as u64,
                size: entry_bytes(e).len() as u32,
            };
            lookup(replay_all(st, entry_mets(es.push(e), file_id)).0, key) == Ok::<
                LogRecordPos,
                Errors,
            >(pos)
        }),
{
    let e = (LogRecordType::Normal, key, NON_TXN_SEQ_NO, value);
    let es2 = es.push(e);
    assert(es2.drop_last() =~= es);
    assert(entry_mets(es2, file_id).drop_last() =~= entry_mets(es, file_id));
}

/// The first `n` segments of `segs` are each made of the records at the
/// same place in `ess`, followed by zero bytes.
pub open spec fn prefix_log(segs: Seq<(u32, Vec<u8>)>, ess: Seq<Seq<Entry>>, n: int) -> bool {
    &&& 0 <= n <= segs.len()
    &&& n <= ess.len()
    &&& forall|j: int| 0 <= j < n ==> segment_log(segs[j].1@, #[trigger] ess[j])
}

/// There is no hint file, or it is the hint records `hs` followed by `hpad`
/// zero bytes.
pub open spec fn hint_log_ok(hint: Option<&[u8]>, hs: Seq<Hint>, hpad: nat) -> bool {
    match hint {
        None => true,
        Some(h) => zero_tail_hints(h@, hs, hpad),
    }
}

/// `data` is the records `es` followed by zero bytes.
pub open spec fn segment_log(data: Seq<u8>, es: Seq<Entry>) -> bool {
    exists|pad: nat| #[trigger] zero_tail_log(data, es, pad)
}

/// The records of the segments `segs` (id and bytes), made of the records
/// `ess`, as a replay of them in turn meets them.
pub open spec fn all_mets(segs: Seq<(u32, Vec<u8>)>, ess: Seq<Seq<Entry>>) -> Seq<Met>
    decreases segs.len(),
{
    if segs.len() == 0 || ess.len() == 0 {
        Seq::empty()
    } else {
        all_mets(segs.drop_last(), ess.drop_last()) + entry_mets(ess.last(), segs.last().0)
    }
}

/// Each segment of `segs` is made of the records at the same place in `ess`.
pub open spec fn segments_log(segs: Seq<(u32, Vec<u8>)>, ess: Seq<Seq<Entry>>) -> bool {
    &&& ess.len() == segs.len()
    &&& forall|j: int| 0 <= j < segs.len() ==> segment_log(segs[j].1@, #[trigger] ess[j])
}

/// The hints that a merged segment made of `es` stands for: each key with
/// the place of its record.
pub open spec fn hints_of(es: Seq<Entry>, file_id: u32) -> Seq<Hint> {
    entry_mets(es, file_id).map_values(|m: Met| (m.1, m.3))
}

/// Loading the hints of a merged segment, whose records are all puts
/// outside any transaction, gives the index that replaying the segment gives.
pub proof fn lemma_hints_match_replay(st: ReplayState, es: Seq<Entry>, file_id: u32)
    requires
        forall|i: int|
            0 <= i < es.len() ==> (#[trigger] es[i]).0 == LogRecordType::Normal && es[i].2
                == NON_TXN_SEQ_NO,
    ensures
        replay_all(st, entry_mets(es, file_id)).0 == put_all(st.0, hints_of(es, file_id)),
    decreases es.len(),
{
    if es.len() > 0 {
        let init = es.drop_last();
        assert forall|i: int| 0 <= i < init.len() implies (#[trigger] init[i]).0
            == LogRecordType::Normal && init[i].2 == NON_TXN_SEQ_NO by {
            assert(init[i] == es[i]);
        }
        lemma_hints_match_replay(st, init, file_id);
        let mets = entry_mets(es, file_id);
        assert(mets.drop_last() == entry_mets(init, file_id));
        assert(hints_of(es, file_id).drop_last() =~= hints_of(init, file_id));
        assert(es.last() == es[es.len() - 1]);
    }
}

/// The parts of the engine that replaying records leaves as they are.
pub open spec fn same_segments(a: &Engine, b: &Engine) -> bool {
    &&& a.active_file_id == b.active_file_id
    &&& a.write_off == b.write_off
    &&& a.old_file_ids == b.old_file_ids
    &&& a.seq_no == b.seq_no
    &&& a.bytes_write == b.bytes_write
    &&& a.options == b.options
    &&& a.file_ids == b.file_ids
    &&& a.seq_file_exists == b.seq_file_exists
    &&& a.is_initial == b.is_initial
}

/// The larger of two sequence numbers.
pub open spec fn max_usize(a: usize, b: usize) -> usize {
    if a >= b {
        a
    } else {
        b
    }
}

impl Engine {
    /// Applies buffered transaction records to the index, in order.
    fn apply_txn(&mut self, recs: &Vec<TransactionRecord>)
        requires
            old(self).wf(),
        ensures
            final(self).wf(),
            same_segments(old(self), final(self)),
            (final(self).index@, final(self).reclaim_size) == apply_ops(
                (old(self).index@, old(self).reclaim_size),
                recs@.map_values(|x: TransactionRecord| op_of(x)),
            ),
    {
        let ghost ops = recs@.map_values(|x: TransactionRecord| op_of(x));
        let ghost st0 = (self.index@, self.reclaim_size);
        let mut i: usize = 0;
        assert(ops.subrange(0, 0) =~= Seq::<Op>::empty());
        while i < recs.len()
            invariant
                self.wf(),
                i <= recs@.len(),
                ops == recs@.map_values(|x: TransactionRecord| op_of(x)),
                same_segments(old(self), self),
                (self.index@, self.reclaim_size) == apply_ops(st0, ops.subrange(0, i as int)),
            decreases recs@.len() - i,
        {
            let tr = &recs[i];
            let key = vstd::slice::slice_to_vec(tr.record.key.as_slice());
            self.update_index(key, tr.record.rec_type, tr.pos);
            proof {
                assert(ops.subrange(0, i + 1).drop_last() =~= ops.subrange(0, i as int));
                assert(ops.subrange(0, i + 1).last() == ops[i as int]);
            }
            i = i + 1;
        }
        assert(ops.subrange(0, i as int) =~= ops);
    }

    fn replay_parsed(
        &mut self,
        rec: &mut Recovery,
        rec_type: LogRecordType,
        real_key: Vec<u8>,
        seq_no: usize,
        value: Vec<u8>,
        pos: LogRecordPos,
    )
        requires
            old(self).wf(),
            old(rec).wf(),
        ensures
            final(self).wf(),
            final(rec).wf(),
            same_segments(old(self), final(self)),
            final(rec).max_seq() == max_usize(old(rec).max_seq(), seq_no),
            (final(self).index@, final(self).reclaim_size, final(rec)@) == replay_step(
                (old(self).index@, old(self).reclaim_size, old(rec)@),
                rec_type,
                real_key@,
                seq_no,
                pos,
            ),
    {
        if seq_no > rec.max_seq_no {
            rec.max_seq_no = seq_no;
        }
        if seq_no == NON_TXN_SEQ_NO {
            self.update_index(real_key, rec_type, pos);
        } else if rec_type == LogRecordType::TxnFinished {
            let recs = rec.take(seq_no);
            self.apply_txn(&recs);
        } else {
            let tr = TransactionRecord { record: LogRecord { key: real_key, value, rec_type }, pos };
            rec.push(seq_no, tr);
        }
    }

    /// Replays one record met at `pos` while scanning the segments. A record
    /// outside any transaction goes to the index at once; one of a
    /// transaction waits in `rec` until that transaction's commit marker
    /// arrives, which applies the whole transaction in order. A stored key
    /// without a readable sequence number means the directory is corrupt.
    pub fn replay_record(&mut self, rec: &mut Recovery, record: LogRecord, pos: LogRecordPos) -> (r: Result<()>)
        requires
            old(self).wf(),
            old(rec).wf(),
        ensures
            final(self).wf(),
            final(rec).wf(),
            same_segments(old(self), final(self)),
            forall|k: Seq<u8>, s: usize|
                #[trigger] key_with_seq(k, s as nat) == record.key@ ==> {
                    &&& r is Ok
                    &&& final(rec).max_seq() == max_usize(old(rec).max_seq(), s)
                    &&& (final(self).index@, final(self).reclaim_size, final(rec)@) == replay_step(
                        (old(self).index@, old(self).reclaim_size, old(rec)@),
                        record.rec_type,
                        k,
                        s,
                        pos,
                    )
                },
            r is Err ==> r == Err::<(), Errors>(Errors::DatabaseDirectoryCorrupted) && final(self).index@
                == old(self).index@ && final(rec)@ == old(rec)@,
    {
        match parse_log_record_key(record.key.as_slice()) {
            Some((real_key, seq_no)) => {
                proof {
                    assert forall|k: Seq<u8>, s: usize| #[trigger] key_with_seq(k, s as nat) == record.key@
                        implies k == real_key@ && s == seq_no by {}
                }
                self.replay_parsed(rec, record.rec_type, real_key, seq_no, record.value, pos);
                Ok(())
            },
            None => Err(Errors::DatabaseDirectoryCorrupted),
        }
    }

    /// Replays the segment `file_id`, whose bytes are `data`, from its start
    /// up to the first place where no record begins (the end, zero padding,
    /// or a record cut short). Answers that offset, which becomes the write
    /// offset when this is the active segment. A damaged record stops the
    /// replay with its error.
    ///
    /// On a segment made of whole records as the engine writes them,
    /// followed by any number of zero bytes, the replay covers every record;
    /// a record whose checksum or type byte is wrong gives `InvalidLogRecordCrc`.
    #[verifier::rlimit(60)]
    pub fn load_index_from_data_file(&mut self, rec: &mut Recovery, file_id: u32, data: &[u8]) -> (r: Result<u64>)
        requires
            old(self).wf(),
            old(rec).wf(),
        ensures
            final(self).wf(),
            final(rec).wf(),
            forall|es: Seq<Entry>, pad: nat|
                #[trigger] zero_tail_log(data@, es, pad) ==> {
                    &&& r == Ok::<u64, Errors>(log_bytes(es).len() as u64)
                    &&& (final(self).index@, final(self).reclaim_size, final(rec)@) == replay_all(
                        (old(self).index@, old(self).reclaim_size, old(rec)@),
                        entry_mets(es, file_id),
                    )
                    &&& final(rec).max_seq() == max_seq_of(
                        old(rec).max_seq(),
                        entry_mets(es, file_id),
                    )
                },
            forall|es: Seq<Entry>, tb: u8, key: Seq<u8>, value: Seq<u8>, c: Seq<u8>|
                #[trigger] bad_tail_log(data@, es, tb, key, value, c) ==> r == Err::<u64, Errors>(
                    Errors::InvalidLogRecordCrc,
                ),
            r is Ok ==> r->Ok_0 <= data@.len() && replays_segment(
                data@,
                file_id,
                r->Ok_0 as int,
                (old(self).index@, old(self).reclaim_size, old(rec)@),
                (final(self).index@, final(self).reclaim_size, final(rec)@),
                old(rec).max_seq(),
                final(rec).max_seq(),
            ),
            final(self).write_off == (if r is Ok && file_id == old(self).active_file_id {
                r->Ok_0
            } else {
                old(self).write_off
            }),
            final(self).active_file_id == old(self).active_file_id,
            final(self).old_file_ids == old(self).old_file_ids,
            final(self).seq_no == old(self).seq_no,
            final(self).options == old(self).options,
    {
        let data_len = data.len();
        let mut offset: u64 = 0;
        let ghost st0 = (self.index@, self.reclaim_size, rec@);
        let ghost max0 = rec.max_seq();
        let ghost mut mets: Seq<Met> = Seq::empty();
        let ghost mut i: int = 0;
        proof {
            assert forall|es: Seq<Entry>| #[trigger] log_prefix(data@, es) implies on_track(
                es,
                file_id,
                i,
                offset as int,
                mets,
            ) by {
                assert(es.take(0) =~= Seq::<Entry>::empty());
            }
        }
        loop
            invariant
                data_len == data@.len(),
                self.wf(),
                rec.wf(),
                offset <= data@.len(),
                0 <= i,
                same_segments(old(self), self),
                scanned(data@, file_id, mets, offset as int),
                (self.index@, self.reclaim_size, rec@) == replay_all(st0, mets),
                rec.max_seq() == max_seq_of(max0, mets),
                st0 == (old(self).index@, old(self).reclaim_size, old(rec)@),
                max0 == old(rec).max_seq(),
                forall|es: Seq<Entry>| #[trigger] log_prefix(data@, es) ==> on_track(
                    es,
                    file_id,
                    i,
                    offset as int,
                    mets,
                ),
                forall|es: Seq<Entry>, pad: nat| #[trigger] zero_tail_log(data@, es, pad) ==> i <= es.len(),
                forall|es: Seq<Entry>, tb: u8, key: Seq<u8>, value: Seq<u8>, c: Seq<u8>|
                    #[trigger] bad_tail_log(data@, es, tb, key, value, c) ==> i <= es.len(),
            ensures
                forall|es: Seq<Entry>, pad: nat| #[trigger] zero_tail_log(data@, es, pad) ==> i == es.len(),
                forall|es: Seq<Entry>, tb: u8, key: Seq<u8>, value: Seq<u8>, c: Seq<u8>|
                    #[trigger] bad_tail_log(data@, es, tb, key, value, c) ==> false,
            decreases data@.len() - offset,
        {
            let res = decode_log_record(data, offset);
            proof {
                lemma_decode_against_log(data@, file_id, offset, i, mets, res);
                lemma_exit_cases(data@, file_id, offset, i, mets, res);
            }
            match res {
                Ok(rr) => {
                    if rr.size > u32::MAX as usize {
                        return Err(Errors::DatabaseDirectoryCorrupted);
                    }
                    let pos = LogRecordPos { file_id, offset, size: rr.size as u32 };
                    let size = rr.size;
                    assert(offset + size <= data@.len());
                    let rec_type = rr.record.rec_type;
                    let ghost value = rr.record.value@;
                    let ghost stored = rr.record.key@;
                    let parsed = parse_log_record_key(rr.record.key.as_slice());
                    proof {
                        assert forall|es: Seq<Entry>, pad: nat| #[trigger] zero_tail_log(data@, es, pad)
                            implies parsed is Some by {
                            assert(key_with_seq(es[i].1, es[i].2 as nat) == stored);
                        }
                        assert forall|es: Seq<Entry>, tb: u8, key: Seq<u8>, value: Seq<u8>, c: Seq<u8>|
                            #[trigger] bad_tail_log(data@, es, tb, key, value, c) implies parsed is Some by {
                            assert(key_with_seq(es[i].1, es[i].2 as nat) == stored);
                        }
                    }
                    let (real_key, seq_no) = match parsed {
                        Some(x) => x,
                        None => {
                            return Err(Errors::DatabaseDirectoryCorrupted);
                        },
                    };
                    let ghost m: Met = (rec_type, real_key@, seq_no, pos);
                    proof {
                        assert forall|es: Seq<Entry>| #[trigger] log_prefix(data@, es) && i < es.len()
                            implies m == entry_mets(es.take(i + 1), file_id).last() && offset + size
                            == log_bytes(es.take(i + 1)).len() by {
                            lemma_log_entry(data@, es, i);
                            assert(key_with_seq(es[i].1, es[i].2 as nat) == stored);
                        }
                    }
                    self.replay_parsed(rec, rec_type, real_key, seq_no, rr.record.value, pos);
                    proof {
                        assert(sealed_record(
                            data@.subrange(offset as int, offset + size),
                            rec_type,
                            key_with_seq(m.1, m.2 as nat),
                            value,
                        ));
                        lemma_scanned_push(data@, file_id, mets, m, value);
                        let mets2 = mets.push(m);
                        assert(mets2.drop_last() =~= mets);
                        assert forall|es: Seq<Entry>| #[trigger] log_prefix(data@, es) implies on_track(
                            es,
                            file_id,
                            i + 1,
                            offset + size,
                            mets2,
                        ) by {
                            if i + 1 <= es.len() {
                                lemma_log_entry(data@, es, i);
                                assert(es.take(i + 1).drop_last() =~= es.take(i));
                            }
                        }
                        mets = mets2;
                        i = i + 1;
                    }
                    offset = offset + size as u64;
                },
                Err(Errors::ReadDataFileEOF) => {
                    break ;
                },
                Err(e) => {
                    return Err(e);
                },
            }
        }
        proof {
            assert forall|es: Seq<Entry>, pad: nat| #[trigger] zero_tail_log(data@, es, pad) implies {
                &&& offset == log_bytes(es).len()
                &&& mets == entry_mets(es, file_id)
            } by {
                lemma_zero_tail_prefix(data@, es, pad);
                assert(es.take(es.len() as int) =~= es);
            }
        }
        assert(scanned(data@, file_id, mets, offset as int));
        if file_id == self.active_file_id {
            self.write_off = offset;
        }
        assert(replays_segment(
            data@,
            file_id,
            offset as int,
            st0,
            (self.index@, self.reclaim_size, rec@),
            max0,
            rec.max_seq(),
        ));
        Ok(offset)
    }

    /// Rebuilds the index at opening: loads the hint file, if any, then
    /// replays `segments` (id and bytes) in turn, and sets the sequence number
    /// past the largest one met. Where the hint file is whole hint records
    /// and each segment whole records, each followed by zero bytes, the
    /// result is the replay of all of them in order; where a segment holds a
    /// damaged record after its whole ones, and those before it are whole,
    /// the result is `InvalidLogRecordCrc`.
    #[verifier::rlimit(80)]
    pub fn recover(&mut self, hint: Option<&[u8]>, segments: &Vec<(u32, Vec<u8>)>) -> (r: Result<()>)
        requires
            old(self).wf(),
        ensures
            final(self).wf(),
            final(self).active_file_id == old(self).active_file_id,
            final(self).old_file_ids == old(self).old_file_ids,
            final(self).options == old(self).options,
            forall|hs: Seq<Hint>, hpad: nat, ess: Seq<Seq<Entry>>|
                #[trigger] hint_log_ok(hint, hs, hpad) && #[trigger] segments_log(segments@, ess) ==> {
                    let idx0 = if hint is None {
                        old(self).index@
                    } else {
                        put_all(old(self).index@, hs)
                    };
                    let st = replay_all(
                        (idx0, old(self).reclaim_size, Map::<usize, Seq<Op>>::empty()),
                        all_mets(segments@, ess),
                    );
                    let m = max_seq_of(0, all_mets(segments@, ess));
                    &&& r is Ok
                    &&& final(self).index@ == st.0
                    &&& final(self).reclaim_size == st.1
                    &&& (segments@.len() > 0 && segments@.last().0 == old(self).active_file_id
                        ==> final(self).write_off == log_bytes(ess.last()).len() as u64)
                    &&& final(self).seq_no == (if m > 0 {
                        sat_add(m as int, 1)
                    } else {
                        old(self).seq_no
                    })
                },
            forall|
                hs: Seq<Hint>,
                hpad: nat,
                ess: Seq<Seq<Entry>>,
                n: int,
                es: Seq<Entry>,
                tb: u8,
                key: Seq<u8>,
                value: Seq<u8>,
                c: Seq<u8>,
            |
                #[trigger] hint_log_ok(hint, hs, hpad) && #[trigger] prefix_log(segments@, ess, n)
                    && n < segments@.len() && #[trigger] bad_tail_log(
                    segments@[n].1@,
                    es,
                    tb,
                    key,
                    value,
                    c,
                ) ==> r == Err::<(), Errors>(Errors::InvalidLogRecordCrc),
    {
        if let Some(h) = hint {
            match self.load_index_from_hint_file(h) {
                Ok(()) => {},
                Err(e) => {
                    return Err(e);
                },
            }
        }
        let mut rec = Recovery::new();
        proof {
            assert forall|hs: Seq<Hint>, hpad: nat, ess: Seq<Seq<Entry>>|
                #[trigger] hint_log_ok(hint, hs, hpad) && #[trigger] prefix_log(segments@, ess, 0)
                implies all_mets(segments@.take(0), ess.take(0)) == Seq::<Met>::empty() by {
                assert(segments@.take(0) =~= Seq::<(u32, Vec<u8>)>::empty());
            }
        }
        let mut j: usize = 0;
        while j < segments.len()
            invariant
                self.wf(),
                rec.wf(),
                j <= segments@.len(),
                self.active_file_id == old(self).active_file_id,
                self.old_file_ids == old(self).old_file_ids,
                self.options == old(self).options,
                self.seq_no == old(self).seq_no,
                forall|hs: Seq<Hint>, hpad: nat, ess: Seq<Seq<Entry>>|
                    #[trigger] hint_log_ok(hint, hs, hpad) && #[trigger] prefix_log(
                        segments@,
                        ess,
                        j as int,
                    ) ==> {
                        let idx0 = if hint is None {
                            old(self).index@
                        } else {
                            put_all(old(self).index@, hs)
                        };
                        let mets = all_mets(segments@.take(j as int), ess.take(j as int));
                        let st = replay_all(
                            (idx0, old(self).reclaim_size, Map::<usize, Seq<Op>>::empty()),
                            mets,
                        );
                        &&& self.index@ == st.0
                        &&& self.reclaim_size == st.1
                        &&& rec@ == st.2
                        &&& rec.max_seq() == max_seq_of(0, mets)
                    },
                forall|hs: Seq<Hint>, hpad: nat, ess: Seq<Seq<Entry>>|
                    #[trigger] hint_log_ok(hint, hs, hpad) && #[trigger] prefix_log(
                        segments@,
                        ess,
                        j as int,
                    ) && j > 0 && segments@[j - 1].0 == old(self).active_file_id ==> self.write_off
                        == log_bytes(ess[j - 1]).len() as u64,
                forall|
                    hs: Seq<Hint>,
                    hpad: nat,
                    ess: Seq<Seq<Entry>>,
                    n: int,
                    es: Seq<Entry>,
                    tb: u8,
                    key: Seq<u8>,
                    value: Seq<u8>,
                    c: Seq<u8>,
                |
                    #[trigger] hint_log_ok(hint, hs, hpad) && #[trigger] prefix_log(segments@, ess, n)
                        && n < j && #[trigger] bad_tail_log(segments@[n].1@, es, tb, key, value, c)
                        ==> false,
            decreases segments@.len() - j,
        {
            let ghost bi = self.index@;
            let ghost brc = self.reclaim_size;
            let ghost brec = rec@;
            let ghost bmax = rec.max_seq();
            let id = segments[j].0;
            let res = self.load_index_from_data_file(&mut rec, id, segments[j].1.as_slice());
            proof {
                assert forall|hs: Seq<Hint>, hpad: nat, ess: Seq<Seq<Entry>>|
                    #[trigger] hint_log_ok(hint, hs, hpad) && #[trigger] prefix_log(
                        segments@,
                        ess,
                        j + 1,
                    ) implies {
                        let idx0 = if hint is None {
                            old(self).index@
                        } else {
                            put_all(old(self).index@, hs)
                        };
                        let mets = all_mets(segments@.take(j + 1), ess.take(j + 1));
                        let st = replay_all(
                            (idx0, old(self).reclaim_size, Map::<usize, Seq<Op>>::empty()),
                            mets,
                        );
                        &&& res is Ok
                        &&& self.index@ == st.0
                        &&& self.reclaim_size == st.1
                        &&& rec@ == st.2
                        &&& rec.max_seq() == max_seq_of(0, mets)
                        &&& (segments@[j as int].0 == old(self).active_file_id ==> self.write_off
                            == log_bytes(ess[j as int]).len() as u64)
                    } by {
                    assert(prefix_log(segments@, ess, j as int));
                    assert(segment_log(segments@[j as int].1@, ess[j as int]));
                    let pad = choose|pad: nat| #[trigger] zero_tail_log(segments@[j as int].1@, ess[j as int], pad);
                    assert(zero_tail_log(segments@[j as int].1@, ess[j as int], pad));
                    let idx0 = if hint is None {
                        old(self).index@
                    } else {
                        put_all(old(self).index@, hs)
                    };
                    let st0 = (idx0, old(self).reclaim_size, Map::<usize, Seq<Op>>::empty());
                    let a = all_mets(segments@.take(j as int), ess.take(j as int));
                    let b = entry_mets(ess[j as int], id);
                    assert(segments@.take(j + 1).drop_last() =~= segments@.take(j as int));
                    assert(ess.take(j + 1).drop_last() =~= ess.take(j as int));
                    assert(segments@.take(j + 1).last() == segments@[j as int]);
                    assert(ess.take(j + 1).last() == ess[j as int]);
                    assert(all_mets(segments@.take(j + 1), ess.take(j + 1)) == a + b);
                    lemma_replay_all_append(st0, a, b);
                    lemma_max_seq_append(0, a, b);
                }
                assert forall|
                    hs: Seq<Hint>,
                    hpad: nat,
                    ess: Seq<Seq<Entry>>,
                    n: int,
                    es: Seq<Entry>,
                    tb: u8,
                    key: Seq<u8>,
                    value: Seq<u8>,
                    c: Seq<u8>,
                |
                    #[trigger] hint_log_ok(hint, hs, hpad) && #[trigger] prefix_log(segments@, ess, n)
                        && j <= n < segments@.len() && #[trigger] bad_tail_log(
                        segments@[n].1@,
                        es,
                        tb,
                        key,
                        value,
                        c,
                    ) implies (n == j ==> res == Err::<u64, Errors>(Errors::InvalidLogRecordCrc)) && (n
                    > j ==> res is Ok) by {
                    if n > j {
                        assert(prefix_log(segments@, ess, j + 1));
                    }
                }
                assert forall|hs: Seq<Hint>, hpad: nat, ess: Seq<Seq<Entry>>|
                    #[trigger] hint_log_ok(hint, hs, hpad) && #[trigger] segments_log(segments@, ess)
                    implies prefix_log(segments@, ess, segments@.len() as int) && res is Ok by {
                    assert(prefix_log(segments@, ess, segments@.len() as int));
                    assert(prefix_log(segments@, ess, j + 1));
                }
            }
            match res {
                Ok(_) => {},
                Err(e) => {
                    return Err(e);
                },
            }
            proof {
                assert forall|hs: Seq<Hint>, hpad: nat, ess: Seq<Seq<Entry>>|
                    #[trigger] hint_log_ok(hint, hs, hpad) && #[trigger] prefix_log(
                        segments@,
                        ess,
                        j + 1,
                    ) && j + 1 > 0 && segments@[j + 1 - 1].0 == old(self).active_file_id implies self.write_off
                    == log_bytes(ess[j + 1 - 1]).len() as u64 by {}
            }
            j = j + 1;
        }
        self.finish_recovery(&rec);
        proof {
            assert forall|hs: Seq<Hint>, hpad: nat, ess: Seq<Seq<Entry>>|
                #[trigger] hint_log_ok(hint, hs, hpad) && #[trigger] segments_log(segments@, ess)
                implies prefix_log(segments@, ess, j as int) && all_mets(
                segments@.take(j as int),
                ess.take(j as int),
            ) == all_mets(segments@, ess) by {
                assert(prefix_log(segments@, ess, j as int));
                assert(segments@.take(j as int) =~= segments@);
                assert(ess.take(j as int) =~= ess);
                if segments@.len() > 0 {
                    assert(segments@.last() == segments@[j - 1]);
                    assert(ess.last() == ess[j - 1]);
                }
            }
        }
        Ok(())
    }

    /// Sets the sequence number after a replay: one past the largest met,
    /// where any transaction was met.
    pub fn finish_recovery(&mut self, rec: &Recovery)
        ensures
            final(self).seq_no == (if rec.max_seq() > 0 {
                sat_add(rec.max_seq() as int, 1)
            } else {
                old(self).seq_no
            }),
            final(self).index == old(self).index,
            final(self).reclaim_size == old(self).reclaim_size,
            final(self).active_file_id == old(self).active_file_id,
            final(self).write_off == old(self).write_off,
            final(self).old_file_ids == old(self).old_file_ids,
            final(self).options == old(self).options,
    {
        let m = rec.max_seq_no();
        if m > 0 {
            self.seq_no = m.saturating_add(1);
        }
    }

    /// Loads the index from the bytes of a hint file: each record maps a key
    /// straight to the position of its merged record. On a file made of whole
    /// hint records followed by any number of zero bytes, every hint is loaded.
    pub fn load_index_from_hint_file(&mut self, data: &[u8]) -> (r: Result<()>)
        requires
            old(self).wf(),
        ensures
            final(self).wf(),
            same_segments(old(self), final(self)),
            final(self).reclaim_size == old(self).reclaim_size,
            r is Ok ==> exists|hints: Seq<(Seq<u8>, LogRecordPos)>, end: int|
                #[trigger] hints_scanned(data@, hints, end) && final(self).index@ == put_all(
                    old(self).index@,
                    hints,
                ),
            forall|hs: Seq<Hint>, pad: nat|
                #[trigger] zero_tail_hints(data@, hs, pad) ==> r is Ok && final(self).index@
                    == put_all(old(self).index@, hs),
    {
        let data_len = data.len();
        let mut offset: u64 = 0;
        let ghost mut hints: Seq<(Seq<u8>, LogRecordPos)> = Seq::empty();
        let ghost mut ends: Seq<int> = Seq::empty();
        let ghost idx0 = self.index@;
        let ghost mut i: int = 0;
        proof {
            assert forall|hs: Seq<Hint>, pad: nat| #[trigger] zero_tail_hints(data@, hs, pad) implies i
                <= hs.len() && offset == hint_log(hs.take(i)).len() && hints == hs.take(i) by {
                assert(hs.take(0) =~= Seq::<Hint>::empty());
            }
        }
        loop
            invariant
                data_len == data@.len(),
                self.wf(),
                offset <= data@.len(),
                same_segments(old(self), self),
                self.reclaim_size == old(self).reclaim_size,
                idx0 == old(self).index@,
                hints.len() == ends.len(),
                offset == (if ends.len() == 0 {
                    0
                } else {
                    ends.last()
                }),
                hints_tiled(data@, hints, ends),
                self.index@ == put_all(idx0, hints),
                0 <= i,
                forall|hs: Seq<Hint>, pad: nat|
                    #[trigger] zero_tail_hints(data@, hs, pad) ==> i <= hs.len() && offset
                        == hint_log(hs.take(i)).len() && hints == hs.take(i),
            ensures
                forall|hs: Seq<Hint>, pad: nat| #[trigger] zero_tail_hints(data@, hs, pad) ==> i == hs.len(),
            decreases data@.len() - offset,
        {
            let res = decode_log_record(data, offset);
            proof {
                lemma_hint_decode(data@, offset, i, hints, res);
            }
            match res {
                Ok(rr) => {
                    let size = rr.size;
                    assert(offset + size <= data@.len());
                    let ghost key = rr.record.key@;
                    let ghost t = rr.record.rec_type;
                    let ghost value = rr.record.value@;
                    let decoded = decode_log_record_pos(rr.record.value);
                    proof {
                        assert forall|hs: Seq<Hint>, pad: nat| #[trigger] zero_tail_hints(data@, hs, pad)
                            implies i < hs.len() && decoded == Some(hs[i].1) by {
                            assert(pos_bytes(hs[i].1) == value);
                        }
                    }
                    let pos = match decoded {
                        Some(p) => p,
                        None => {
                            return Err(Errors::DatabaseDirectoryCorrupted);
                        },
                    };
                    self.index.put(rr.record.key, pos);
                    proof {
                        assert(hint_at(data@, offset as int, offset + size, key, pos)) by {
                            reveal(hint_at);
                            assert(sealed_record(
                                data@.subrange(offset as int, offset + size),
                                t,
                                key,
                                pos_bytes(pos),
                            ));
                        }
                        lemma_hints_extend(data@, hints, ends, key, pos, offset as int, offset + size);
                        assert(hints.push((key, pos)).drop_last() =~= hints);
                        hints = hints.push((key, pos));
                        ends = ends.push(offset + size);
                        i = i + 1;
                    }
                    offset = offset + size as u64;
                },
                Err(Errors::ReadDataFileEOF) => {
                    break ;
                },
                Err(e) => {
                    return Err(e);
                },
            }
        }
        assert(hints_scanned(data@, hints, offset as int));
        proof {
            assert forall|hs: Seq<Hint>, pad: nat| #[trigger] zero_tail_hints(data@, hs, pad) implies hints
                == hs by {
                assert(hs.take(hs.len() as int) =~= hs);
            }
        }
        Ok(())
    }
}

} // verus!
