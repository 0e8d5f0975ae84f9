//! Merging: when a merge runs, which records it keeps, the hint and marker
//! files it writes, and what its staging directory holds on the next opening.

use vstd::prelude::*;

use crate::batch::{key_with_seq, log_record_key_with_seq, parse_log_record_key, NON_TXN_SEQ_NO};
use crate::data_file::{
    data_suffix, digits, ends_with, format_decimal, has_suffix, lemma_digits, parse_decimal,
};
use crate::db::{Engine, SeqNoExist};
use crate::errors::{Errors, Result};
use crate::recovery::{
    bad_tail_log, entry_fits, entry_mets, lemma_decode_against_log, lemma_exit_cases, lemma_log_entry,
    lemma_scanned_push, lemma_zero_tail_prefix, log_prefix, on_track, scanned, zero_tail_log, Entry,
    Met,
};
use crate::log_record::{
    be32, crc32_of, decode_log_record, framed_at, pos_bytes, record_body, record_bytes, sealed_record,
    LogRecord, LogRecordPos, LogRecordType, MAX_KV_LEN,
};

verus! {

/// The key of the record in the merge-finished file.
pub open spec fn merge_fin_key() -> Seq<u8> {
    seq![109u8, 101u8, 114u8, 103u8, 101u8, 46u8, 102u8, 105u8, 110u8, 105u8, 115u8, 104u8, 101u8, 100u8]
}

/// The key of the record in the sequence-number file.
pub open spec fn seq_no_key() -> Seq<u8> {
    seq![115u8, 101u8, 113u8, 46u8, 110u8, 111u8]
}

/// The keys of the put records among `mets`, in order, that the index still
/// points at: the live ones of segment `file_id`.
pub open spec fn live_keys(idx: Map<Seq<u8>, LogRecordPos>, file_id: u32, mets: Seq<Met>) -> Seq<Seq<u8>>
    decreases mets.len(),
{
    if mets.len() == 0 {
        Seq::empty()
    } else {
        let rest = live_keys(idx, file_id, mets.drop_last());
        let m = mets.last();
        if m.0 == LogRecordType::Normal && idx.contains_key(m.1) && idx[m.1].file_id == file_id
            && idx[m.1].offset == m.3.offset {
            rest.push(m.1)
        } else {
            rest
        }
    }
}

/// A merge misses no live record: a key whose index position is the place of
/// one of the scanned put records of the segment is among the rewritten keys.
pub proof fn lemma_live_key_rewritten(
    idx: Map<Seq<u8>, LogRecordPos>,
    file_id: u32,
    mets: Seq<Met>,
    i: int,
)
    requires
        0 <= i < mets.len(),
        mets[i].0 == LogRecordType::Normal,
        idx.contains_key(mets[i].1),
        idx[mets[i].1].file_id == file_id,
        idx[mets[i].1].offset == mets[i].3.offset,
    ensures
        live_keys(idx, file_id, mets).contains(mets[i].1),
    decreases mets.len(),
{
    let rest = live_keys(idx, file_id, mets.drop_last());
    if i == mets.len() - 1 {
        assert(live_keys(idx, file_id, mets) == rest.push(mets[i].1));
        assert(rest.push(mets[i].1)[rest.len() as int] == mets[i].1);
    } else {
        assert(mets.drop_last()[i] == mets[i]);
        lemma_live_key_rewritten(idx, file_id, mets.drop_last(), i);
        let j = choose|j: int| 0 <= j < rest.len() && rest[j] == mets[i].1;
        let m = mets.last();
        if m.0 == LogRecordType::Normal && idx.contains_key(m.1) && idx[m.1].file_id == file_id
            && idx[m.1].offset == m.3.offset {
            assert(live_keys(idx, file_id, mets)[j] == mets[i].1);
        } else {
            assert(live_keys(idx, file_id, mets)[j] == mets[i].1);
        }
    }
}

/// The keys of a list of rewritten records.
pub open spec fn out_keys(v: Seq<(Vec<u8>, LogRecord)>) -> Seq<Seq<u8>> {
    v.map_values(|e: (Vec<u8>, LogRecord)| e.0@)
}

/// What a merge needs to be worth running and to fit on disk.
pub open spec fn merge_verdict(e: &Engine, total_size: u64, available: u64) -> Result<bool> {
    if e.write_off == 0 && e.old_file_ids@.len() == 0 {
        Ok(false)
    } else if e.reclaim_size * 1000 < e.options.file_merge_threshold * total_size {
        Err(Errors::MergeThresholdUnreached)
    } else if available < total_size - e.reclaim_size {
        Err(Errors::MergeNoEnoughSpace)
    } else {
        Ok(true)
    }
}

/// Encodes a record whose value is the decimal form of `n`.
fn decimal_record(key: Vec<u8>, n: u64) -> (r: Vec<u8>)
    requires
        key@.len() <= 32,
    ensures
        r@ == record_bytes(LogRecordType::Normal, key@, digits(n as nat)),
{
    let value = format_decimal(n);
    proof {
        lemma_digits(n as nat);
        crate::varint::lemma_varint_len(n as nat);
        lemma_digits_len(n as nat);
    }
    let rec = LogRecord { key, value, rec_type: LogRecordType::Normal };
    rec.encode()
}

spec fn pow10(k: nat) -> nat
    decreases k,
{
    if k == 0 {
        1
    } else {
        10 * pow10((k - 1) as nat)
    }
}

proof fn lemma_digits_len_bound(n: nat, k: nat)
    requires
        1 <= k,
        n < pow10(k),
    ensures
        digits(n).len() <= k,
    decreases n,
{
    if n >= 10 {
        let p = pow10((k - 1) as nat);
        if k == 1 {
            assert(pow10(0) == 1);
            assert(pow10(1) == 10);
        } else {
            assert(n / 10 < p) by (nonlinear_arith)
                requires
                    n < 10 * p,
            ;
            lemma_digits_len_bound(n / 10, (k - 1) as nat);
        }
    }
}

proof fn lemma_digits_len(n: nat)
    ensures
        n <= u64::MAX ==> digits(n).len() <= 20,
{
    reveal_with_fuel(pow10, 21);
    assert(pow10(20) == 100_000_000_000_000_000_000);
    if n <= u64::MAX {
        lemma_digits_len_bound(n, 20);
    }
}

/// Reads the decimal value of the record at the front of `data`, written
/// under `key`. A value that is not a decimal number means the directory is
/// corrupt.
fn read_decimal_record(data: &[u8], key: Ghost<Seq<u8>>) -> (r: Result<u64>)
    requires
        key@.len() > 0,
    ensures
        forall|n: u64| #[trigger] record_bytes(LogRecordType::Normal, key@, digits(n as nat)) == data@
            ==> r == Ok::<u64, Errors>(n),
{
    proof {
        assert forall|n: u64| #[trigger] record_bytes(LogRecordType::Normal, key@, digits(n as nat)) == data@
            implies framed_at(
            data@,
            0,
            1u8,
            key@,
            digits(n as nat),
            be32(crc32_of(record_body(1u8, key@, digits(n as nat)))),
        ) by {
            assert(data@.subrange(0, data@.len() as int) =~= data@);
        }
    }
    let rec = decode_log_record(data, 0)?;
    proof {
        assert forall|n: u64| #[trigger] record_bytes(LogRecordType::Normal, key@, digits(n as nat)) == data@
            implies rec.record.value@ == digits(n as nat) by {}
    }
    match parse_decimal(rec.record.value.as_slice()) {
        Some(v) => {
            proof {
                assert forall|n: u64| #[trigger] record_bytes(LogRecordType::Normal, key@, digits(n as nat)) == data@
                    implies v == n by {
                    lemma_digits(n as nat);
                }
            }
            Ok(v)
        },
        None => {
            proof {
                assert forall|n: u64| #[trigger] record_bytes(LogRecordType::Normal, key@, digits(n as nat)) == data@
                    implies false by {
                    lemma_digits(n as nat);
                }
            }
            Err(Errors::DatabaseDirectoryCorrupted)
        },
    }
}

/// The content of the merge-finished file: the id of the first segment that
/// the merge did not cover.
pub fn merge_finished_record(non_merge_file_id: u32) -> (r: Vec<u8>)
    ensures
        r@ == record_bytes(LogRecordType::Normal, merge_fin_key(), digits(non_merge_file_id as nat)),
{
    let key = vec![109u8, 101u8, 114u8, 103u8, 101u8, 46u8, 102u8, 105u8, 110u8, 105u8, 115u8, 104u8, 101u8, 100u8];
    assert(key@ =~= merge_fin_key());
    decimal_record(key, non_merge_file_id as u64)
}

/// Reads the id of the first unmerged segment back from a merge-finished file.
pub fn read_merge_finished(data: &[u8]) -> (r: Result<u32>)
    ensures
        forall|id: u32| #[trigger] record_bytes(LogRecordType::Normal, merge_fin_key(), digits(id as nat))
            == data@ ==> r == Ok::<u32, Errors>(id),
{
    let v = read_decimal_record(data, Ghost(merge_fin_key()))?;
    proof {
        assert forall|id: u32| #[trigger] record_bytes(LogRecordType::Normal, merge_fin_key(), digits(id as nat))
            == data@ implies v == id by {
            assert(record_bytes(LogRecordType::Normal, merge_fin_key(), digits((id as u64) as nat)) == data@);
        }
    }
    if v > u32::MAX as u64 {
        return Err(Errors::DatabaseDirectoryCorrupted);
    }
    Ok(v as u32)
}

/// Reads the sequence number back from the content of a sequence-number
/// file, where there is one.
pub fn read_seq_no(data: Option<&[u8]>) -> (r: Result<SeqNoExist>)
    ensures
        data is None ==> r == Ok::<SeqNoExist, Errors>(SeqNoExist::No),
        forall|n: usize| #[trigger] record_bytes(LogRecordType::Normal, seq_no_key(), digits(n as nat))
            == data->Some_0@ && data is Some ==> r == Ok::<SeqNoExist, Errors>(SeqNoExist::Yes(n)),
{
    match data {
        None => Ok(SeqNoExist::No),
        Some(d) => {
            let v = read_decimal_record(d, Ghost(seq_no_key()))?;
            proof {
                assert forall|n: usize| #[trigger] record_bytes(LogRecordType::Normal, seq_no_key(), digits(n as nat))
                    == d@ implies v == n by {
                    assert(record_bytes(LogRecordType::Normal, seq_no_key(), digits((n as u64) as nat)) == d@);
                }
            }
            if v > usize::MAX as u64 {
                return Err(Errors::DatabaseDirectoryCorrupted);
            }
            Ok(SeqNoExist::Yes(v as usize))
        },
    }
}

/// The record of a hint file: the key, and the position of its merged record
/// as the value.
pub fn hint_record(key: &[u8], pos: LogRecordPos) -> (r: Vec<u8>)
    requires
        key@.len() + 30 <= MAX_KV_LEN,
    ensures
        r@ == record_bytes(LogRecordType::Normal, key@, pos_bytes(pos)),
{
    let value = pos.encode();
    proof {
        crate::varint::lemma_varint_len(pos.file_id as nat);
        crate::varint::lemma_varint_len(pos.offset as nat);
        crate::varint::lemma_varint_len(pos.size as nat);
    }
    let rec = LogRecord {
        key: vstd::slice::slice_to_vec(key),
        value,
        rec_type: LogRecordType::Normal,
    };
    rec.encode()
}

/// `dir` without the slashes at its end.
pub open spec fn trim_slashes(dir: Seq<u8>) -> Seq<u8>
    decreases dir.len(),
{
    if dir.len() > 0 && dir.last() == 47u8 {
        trim_slashes(dir.drop_last())
    } else {
        dir
    }
}

/// The ending of a merge directory's name.
pub open spec fn merge_suffix() -> Seq<u8> {
    seq![45u8, 109u8, 101u8, 114u8, 103u8, 101u8]
}

/// The directory where a merge of the store in `dir_path` stages its files:
/// a sibling named after it, with `-merge` appended.
pub fn get_merge_path(dir_path: &[u8]) -> (r: Vec<u8>)
    ensures
        r@ == trim_slashes(dir_path@) + merge_suffix(),
{
    let mut n: usize = dir_path.len();
    assert(dir_path@.subrange(0, n as int) =~= dir_path@);
    while n > 0 && dir_path[n - 1] == 47u8
        invariant
            n <= dir_path@.len(),
            trim_slashes(dir_path@.subrange(0, n as int)) == trim_slashes(dir_path@),
        decreases n,
    {
        assert(dir_path@.subrange(0, n as int).drop_last() =~= dir_path@.subrange(0, n - 1));
        n = n - 1;
    }
    let mut r = vstd::slice::slice_to_vec(vstd::slice::slice_subrange(dir_path, 0, n));
    r.extend_from_slice(&[45u8, 109u8, 101u8, 114u8, 103u8, 101u8]);
    assert(r@ =~= trim_slashes(dir_path@) + merge_suffix());
    r
}

impl Engine {
    /// Nothing has been written to the store.
    pub fn is_engine_empty(&self) -> (r: bool)
        ensures
            r == (self.write_off == 0 && self.old_file_ids@.len() == 0),
    {
        self.write_off == 0 && self.old_file_ids.len() == 0
    }

    /// Decides whether a merge runs, given the bytes the store takes on disk
    /// and the bytes free there: an empty store has nothing to merge
    /// (`false`); otherwise the reclaimable share must reach the threshold,
    /// and the live bytes must fit in the free space.
    pub fn merge_precheck(&self, total_size: u64, available: u64) -> (r: Result<bool>)
        ensures
            r == merge_verdict(self, total_size, available),
    {
        if self.is_engine_empty() {
            return Ok(false);
        }
        let reclaim = self.reclaim_size as u128;
        let threshold = if self.options.file_merge_threshold < 0 {
            0u128
        } else {
            self.options.file_merge_threshold as u128
        };
        if self.options.file_merge_threshold < 0 {
            assert(self.options.file_merge_threshold * total_size <= 0) by (nonlinear_arith)
                requires
                    self.options.file_merge_threshold < 0,
                    total_size >= 0,
            ;
        } else {
            assert(self.options.file_merge_threshold * total_size <= 0x8000_0000 * 0x1_0000_0000_0000_0000) by (nonlinear_arith)
                requires
                    self.options.file_merge_threshold <= 0x7fff_ffff,
                    total_size <= 0xffff_ffff_ffff_ffff,
            ;
        }
        assert(reclaim * 1000 <= 0x1_0000_0000_0000_0000_0000 * 1000);
        if reclaim * 1000 < threshold * (total_size as u128) {
            return Err(Errors::MergeThresholdUnreached);
        }
        if (available as u128) + reclaim < total_size as u128 {
            return Err(Errors::MergeNoEnoughSpace);
        }
        Ok(true)
    }

    /// Starts the merge: the active segment joins the old ones and the next
    /// id becomes active, so that writes go on while the old segments are
    /// merged. Answers the ids of the segments to merge, ascending. The caller
    /// syncs the segment that was active and starts the new one.
    pub fn rotate_merge_files(&mut self) -> (r: Result<Vec<u32>>)
        requires
            old(self).wf(),
        ensures
            final(self).wf(),
            old(self).active_file_id == u32::MAX ==> r == Err::<Vec<u32>, Errors>(
                Errors::FailedToOpenDataFile,
            ) && *final(self) == *old(self),
            old(self).active_file_id < u32::MAX ==> {
                &&& r is Ok
                &&& r->Ok_0@ == old(self).old_file_ids@.push(old(self).active_file_id)
                &&& crate::data_file::ascending(r->Ok_0@)
                &&& final(self).old_file_ids@ == r->Ok_0@
                &&& final(self).active_file_id == old(self).active_file_id + 1
                &&& final(self).write_off == 0
                &&& final(self).index == old(self).index
                &&& final(self).reclaim_size == old(self).reclaim_size
                &&& final(self).seq_no == old(self).seq_no
                &&& final(self).options == old(self).options
            },
    {
        if self.active_file_id == u32::MAX {
            return Err(Errors::FailedToOpenDataFile);
        }
        self.old_file_ids.push(self.active_file_id);
        self.active_file_id = self.active_file_id + 1;
        self.write_off = 0;
        let ids = vstd::slice::slice_to_vec(self.old_file_ids.as_slice());
        Ok(ids)
    }

    /// The records of segment `file_id` (bytes `data`) that are still live,
    /// each with its key and rewritten outside any transaction, in the order
    /// they lie. A record is live when it is a put and the index points at
    /// exactly its place. On a segment made of whole records as the engine
    /// writes them, followed by any number of zero bytes, every record is
    /// looked at.
    pub fn merge_live_records(&self, file_id: u32, data: &[u8]) -> (r: Result<Vec<(Vec<u8>, LogRecord)>>)
        requires
            self.wf(),
        ensures
            forall|es: Seq<Entry>, pad: nat|
                #[trigger] zero_tail_log(data@, es, pad) ==> r is Ok && out_keys(r->Ok_0@)
                    == live_keys(self.index@, file_id, entry_mets(es, file_id)),
            r is Ok ==> exists|mets: Seq<Met>, end: int|
                #[trigger] scanned(data@, file_id, mets, end) && live_keys(self.index@, file_id, mets)
                    == out_keys(r->Ok_0@),
            r is Ok ==> forall|i: int|
                0 <= i < r->Ok_0@.len() ==> {
                    let (k, rec) = #[trigger] r->Ok_0@[i];
                    let p = self.index@[k@];
                    &&& self.index@.contains_key(k@)
                    &&& p.file_id == file_id
                    &&& rec.rec_type == LogRecordType::Normal
                    &&& rec.key@ == key_with_seq(k@, NON_TXN_SEQ_NO as nat)
                    &&& rec.key@.len() + rec.value@.len() <= MAX_KV_LEN
                    &&& exists|size: int, sk: Seq<u8>|
                        p.offset + size <= data@.len() && #[trigger] sealed_record(
                            data@.subrange(p.offset as int, p.offset + size),
                            rec.rec_type,
                            sk,
                            rec.value@,
                        )
                },
    {
        let data_len = data.len();
        let mut out: Vec<(Vec<u8>, LogRecord)> = Vec::new();
        let mut offset: u64 = 0;
        let ghost mut mets: Seq<Met> = Seq::empty();
        let ghost mut i: int = 0;
        proof {
            assert forall|es: Seq<Entry>| #[trigger] log_prefix(data@, es) implies on_track(
                es,
                file_id,
                i,
                offset as int,
                mets,
            ) by {
                assert(es.take(0) =~= Seq::<Entry>::empty());
            }
        }
        loop
            invariant
                self.wf(),
                data_len == data@.len(),
                offset <= data@.len(),
                0 <= i,
                scanned(data@, file_id, mets, offset as int),
                live_keys(self.index@, file_id, mets) == out_keys(out@),
                forall|es: Seq<Entry>| #[trigger] log_prefix(data@, es) ==> on_track(
                    es,
                    file_id,
                    i,
                    offset as int,
                    mets,
                ),
                forall|es: Seq<Entry>, pad: nat| #[trigger] zero_tail_log(data@, es, pad) ==> i <= es.len(),
                forall|es: Seq<Entry>, tb: u8, key: Seq<u8>, value: Seq<u8>, c: Seq<u8>|
                    #[trigger] bad_tail_log(data@, es, tb, key, value, c) ==> i <= es.len(),
                forall|j: int|
                    0 <= j < out@.len() ==> {
                        let (k, rec) = #[trigger] out@[j];
                        let p = self.index@[k@];
                        &&& self.index@.contains_key(k@)
                        &&& p.file_id == file_id
                        &&& rec.rec_type == LogRecordType::Normal
                        &&& rec.key@ == key_with_seq(k@, NON_TXN_SEQ_NO as nat)
                        &&& rec.key@.len() + rec.value@.len() <= MAX_KV_LEN
                        &&& exists|size: int, sk: Seq<u8>|
                            p.offset + size <= data@.len() && #[trigger] sealed_record(
                                data@.subrange(p.offset as int, p.offset + size),
                                rec.rec_type,
                                sk,
                                rec.value@,
                            )
                    },
            ensures
                forall|es: Seq<Entry>, pad: nat| #[trigger] zero_tail_log(data@, es, pad) ==> i == es.len(),
            decreases data@.len() - offset,
        {
            let res = decode_log_record(data, offset);
            proof {
                lemma_decode_against_log(data@, file_id, offset, i, mets, res);
                lemma_exit_cases(data@, file_id, offset, i, mets, res);
            }
            match res {
                Ok(rr) => {
                    let size = rr.size;
                    assert(offset + size <= data@.len());
                    if size > u32::MAX as usize {
                        return Err(Errors::DatabaseDirectoryCorrupted);
                    }
                    let ghost stored = rr.record.key@;
                    let ghost value = rr.record.value@;
                    let parsed = parse_log_record_key(rr.record.key.as_slice());
                    proof {
                        assert forall|es: Seq<Entry>, pad: nat| #[trigger] zero_tail_log(data@, es, pad)
                            implies parsed is Some by {
                            assert(key_with_seq(es[i].1, es[i].2 as nat) == stored);
                        }
                    }
                    let (real_key, seq_no) = match parsed {
                        Some(x) => x,
                        None => {
                            return Err(Errors::DatabaseDirectoryCorrupted);
                        },
                    };
                    let ghost m: Met = (
                        rr.record.rec_type,
                        real_key@,
                        seq_no,
                        LogRecordPos { file_id, offset, size: size as u32 },
                    );
                    let ghost before = out@;
                    let live = rr.record.rec_type == LogRecordType::Normal && match self.index.get(
                        real_key.as_slice(),
                    ) {
                        Some(pos) => pos.file_id == file_id && pos.offset == offset,
                        None => false,
                    };
                    if live {
                        if real_key.len() >= MAX_KV_LEN || rr.record.value.len() > MAX_KV_LEN - 1
                            - real_key.len() {
                            proof {
                                assert forall|es: Seq<Entry>, pad: nat| #[trigger] zero_tail_log(
                                    data@,
                                    es,
                                    pad,
                                ) implies false by {
                                    lemma_zero_tail_prefix(data@, es, pad);
                                    lemma_log_entry(data@, es, i);
                                    assert(entry_fits(es[i]));
                                    crate::varint::lemma_varint_len(es[i].2 as nat);
                                }
                            }
                            return Err(Errors::DatabaseDirectoryCorrupted);
                        }
                        assert(crate::varint::varint(0).len() == 1);
                        let key = log_record_key_with_seq(real_key.as_slice(), NON_TXN_SEQ_NO);
                        let rec = LogRecord {
                            key,
                            value: rr.record.value,
                            rec_type: rr.record.rec_type,
                        };
                        proof {
                            assert(sealed_record(
                                data@.subrange(offset as int, offset + size),
                                rec.rec_type,
                                stored,
                                rec.value@,
                            ));
                        }
                        out.push((real_key, rec));
                    }
                    proof {
                        assert(sealed_record(
                            data@.subrange(offset as int, offset + size),
                            m.0,
                            key_with_seq(m.1, m.2 as nat),
                            value,
                        ));
                        lemma_scanned_push(data@, file_id, mets, m, value);
                        let mets2 = mets.push(m);
                        assert(mets2.drop_last() =~= mets);
                        assert(mets2.last() == m);
                        if live {
                            assert(out_keys(out@) =~= out_keys(before).push(m.1));
                        } else {
                            assert(out@ == before);
                        }
                        assert forall|es: Seq<Entry>| #[trigger] log_prefix(data@, es) implies on_track(
                            es,
                            file_id,
                            i + 1,
                            offset + size,
                            mets2,
                        ) by {
                            if i + 1 <= es.len() {
                                lemma_log_entry(data@, es, i);
                                assert(key_with_seq(es[i].1, es[i].2 as nat) == stored);
                                assert(es.take(i + 1).drop_last() =~= es.take(i));
                            }
                        }
                        mets = mets2;
                        i = i + 1;
                    }
                    offset = offset + size as u64;
                },
                Err(Errors::ReadDataFileEOF) => {
                    break ;
                },
                Err(e) => {
                    return Err(e);
                },
            }
        }
        proof {
            assert forall|es: Seq<Entry>, pad: nat| #[trigger] zero_tail_log(data@, es, pad) implies mets
                == entry_mets(es, file_id) by {
                lemma_zero_tail_prefix(data@, es, pad);
                assert(es.take(es.len() as int) =~= es);
            }
        }
        assert(scanned(data@, file_id, mets, offset as int));
        Ok(out)
    }

    /// The content of the sequence-number file written at close.
    pub fn seq_no_record(&self) -> (r: Vec<u8>)
        ensures
            r@ == record_bytes(LogRecordType::Normal, seq_no_key(), digits(self.seq_no as nat)),
    {
        let key = vec![115u8, 101u8, 113u8, 46u8, 110u8, 111u8];
        assert(key@ =~= seq_no_key());
        decimal_record(key, self.seq_no as u64)
    }

    /// Takes the sequence number found in a sequence-number file, if any.
    pub fn load_seq_no(&mut self, found: SeqNoExist)
        ensures
            found is No ==> *final(self) == *old(self),
            found is Yes ==> {
                &&& final(self).seq_no == found->Yes_0
                &&& final(self).seq_file_exists
                &&& final(self).index == old(self).index
                &&& final(self).active_file_id == old(self).active_file_id
                &&& final(self).old_file_ids == old(self).old_file_ids
                &&& final(self).write_off == old(self).write_off
                &&& final(self).options == old(self).options
            },
    {
        if let SeqNoExist::Yes(n) = found {
            self.seq_no = n;
            self.seq_file_exists = true;
        }
    }
}

/// When a merge is worth running but the live bytes do not fit in the free
/// space, it is refused for want of space.
pub proof fn lemma_merge_space(e: &Engine, total_size: u64, available: u64)
    requires
        !(e.write_off == 0 && e.old_file_ids@.len() == 0),
        e.reclaim_size * 1000 >= e.options.file_merge_threshold * total_size,
        available < total_size - e.reclaim_size,
    ensures
        merge_verdict(e, total_size, available) == Err::<bool, Errors>(Errors::MergeNoEnoughSpace),
{
}

/// Name of the file that marks a finished merge.
pub open spec fn merge_finished_name() -> Seq<u8> {
    seq![109u8, 101u8, 114u8, 103u8, 101u8, 45u8, 102u8, 105u8, 110u8, 105u8, 115u8, 104u8, 101u8, 100u8]
}

/// Name of the sequence-number file.
pub open spec fn seq_no_name() -> Seq<u8> {
    seq![115u8, 101u8, 113u8, 45u8, 110u8, 111u8]
}

/// Name of the lock file.
pub open spec fn lock_name() -> Seq<u8> {
    seq![102u8, 108u8, 111u8, 99u8, 107u8]
}

/// A file staged by a merge moves into the store, unless it is the merge's
/// sequence-number or lock file, or an empty segment.
pub open spec fn promoted(name: Seq<u8>, len: u64) -> bool {
    &&& !ends_with(name, seq_no_name())
    &&& !ends_with(name, lock_name())
    &&& !(ends_with(name, data_suffix()) && len == 0)
}

/// The names among `entries` that move into the store, in order.
pub open spec fn promoted_names(entries: Seq<(Seq<u8>, u64)>) -> Seq<Seq<u8>>
    decreases entries.len(),
{
    if entries.len() == 0 {
        Seq::empty()
    } else {
        let rest = promoted_names(entries.drop_last());
        let l = entries.last();
        if promoted(l.0, l.1) {
            rest.push(l.0)
        } else {
            rest
        }
    }
}

/// The names and lengths of a list of directory entries.
pub open spec fn entries_view(v: Seq<(Vec<u8>, u64)>) -> Seq<(Seq<u8>, u64)> {
    v.map_values(|e: (Vec<u8>, u64)| (e.0@, e.1))
}

/// Decides what becomes of a merge's staging directory, given its entries
/// (names and lengths): without the merge-finished marker the merge did not
/// complete and the directory is to be dropped (`None`); with it, the names
/// of the files that move into the store.
pub fn merge_files_to_move(entries: &Vec<(Vec<u8>, u64)>) -> (r: Option<Vec<Vec<u8>>>)
    ensures
        r is None <==> !exists|i: int|
            0 <= i < entries@.len() && ends_with(#[trigger] entries@[i].0@, merge_finished_name()),
        r is Some ==> crate::index::keys_of(r->Some_0@) == promoted_names(entries_view(entries@)),
{
    let fin: [u8; 14] = [109u8, 101u8, 114u8, 103u8, 101u8, 45u8, 102u8, 105u8, 110u8, 105u8, 115u8, 104u8, 101u8, 100u8];
    let seq_no: [u8; 6] = [115u8, 101u8, 113u8, 45u8, 110u8, 111u8];
    let lock: [u8; 5] = [102u8, 108u8, 111u8, 99u8, 107u8];
    let data: [u8; 5] = [46u8, 100u8, 97u8, 116u8, 97u8];
    assert(fin@ =~= merge_finished_name());
    assert(seq_no@ =~= seq_no_name());
    assert(lock@ =~= lock_name());
    assert(data@ =~= data_suffix());
    let mut finished = false;
    let mut names: Vec<Vec<u8>> = Vec::new();
    let mut i: usize = 0;
    while i < entries.len()
        invariant
            i <= entries@.len(),
            fin@ == merge_finished_name(),
            seq_no@ == seq_no_name(),
            lock@ == lock_name(),
            data@ == data_suffix(),
            finished <==> exists|j: int|
                0 <= j < i && ends_with(#[trigger] entries@[j].0@, merge_finished_name()),
            crate::index::keys_of(names@) == promoted_names(entries_view(entries@).subrange(0, i as int)),
        decreases entries@.len() - i,
    {
        let name = entries[i].0.as_slice();
        let len = entries[i].1;
        if has_suffix(name, &fin) {
            finished = true;
        }
        let keep = !has_suffix(name, &seq_no) && !has_suffix(name, &lock) && !(has_suffix(name, &data)
            && len == 0);
        let ghost before = names@;
        if keep {
            names.push(vstd::slice::slice_to_vec(name));
        }
        proof {
            let ev = entries_view(entries@);
            assert(ev.subrange(0, i + 1).drop_last() =~= ev.subrange(0, i as int));
            assert(ev.subrange(0, i + 1).last() == (name@, len));
            if keep {
                assert(crate::index::keys_of(names@) =~= crate::index::keys_of(before).push(name@));
            }
            assert(finished <==> exists|j: int|
                0 <= j < i + 1 && ends_with(#[trigger] entries@[j].0@, merge_finished_name()));
        }
        i = i + 1;
    }
    assert(entries_view(entries@).subrange(0, i as int) =~= entries_view(entries@));
    if finished {
        Some(names)
    } else {
        None
    }
}

} // verus!
