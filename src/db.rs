//! The engine: the index, the active and old segments, the planning of
//! appends and rotation, and the put, get and delete paths.

use vstd::prelude::*;
use vstd::slice::{slice_subrange, slice_to_vec};

use crate::batch::{key_with_seq, log_record_key_with_seq, NON_TXN_SEQ_NO};
use crate::data_file::{ascending, sort_ids};
use crate::errors::{Errors, Result};
use crate::index::{IndexIterator, SortedIndex, SortedIndexIterator};
use crate::log_record::{
    decode_log_record, record_bytes, LogRecord, LogRecordPos, LogRecordType, MAX_KV_LEN,
};
use crate::option::{check_options, options_error, IteratorOptions, Options};
use crate::varint::{lemma_varint_len, varint};

verus! {

/// The id of the first segment of a new store.
pub const INITIAL_FILE_ID: u32 = 0;

/// `a + b`, or the largest `usize` where that does not fit.
pub open spec fn sat_add(a: int, b: int) -> usize {
    if a + b > usize::MAX {
        usize::MAX
    } else {
        (a + b) as usize
    }
}

/// What one record does to the index and to the count of reclaimable bytes:
/// a put replaces the key's position, a deletion removes the key, and each
/// counts the bytes it makes obsolete (a deletion also counts itself).
pub open spec fn effect(
    st: (Map<Seq<u8>, LogRecordPos>, usize),
    t: LogRecordType,
    key: Seq<u8>,
    pos: LogRecordPos,
) -> (Map<Seq<u8>, LogRecordPos>, usize) {
    let prev = if st.0.contains_key(key) {
        st.0[key].size as int
    } else {
        0
    };
    match t {
        LogRecordType::Normal => (st.0.insert(key, pos), sat_add(st.1 as int, prev)),
        LogRecordType::Deleted => (st.0.remove(key), sat_add(st.1 as int, pos.size + prev)),
        LogRecordType::TxnFinished => st,
    }
}

/// What a read of `key` gives when the index is `idx`.
pub open spec fn lookup(idx: Map<Seq<u8>, LogRecordPos>, key: Seq<u8>) -> Result<LogRecordPos> {
    if key.len() == 0 {
        Err(Errors::KeyIsEmpty)
    } else if !idx.contains_key(key) {
        Err(Errors::KeyNotFound)
    } else {
        Ok(idx[key])
    }
}

/// Whether appending `len` bytes at `write_off` would take the active segment
/// past `limit`.
pub open spec fn rotates(write_off: u64, len: nat, limit: u64) -> bool {
    write_off + len > limit
}

/// Whether an append of `size` bytes, `written` bytes after the last sync,
/// calls for a sync.
pub open spec fn sync_due(opts: Options, written: usize, size: nat) -> bool {
    opts.sync_writes || (opts.bytes_per_sync > 0 && written + size >= opts.bytes_per_sync)
}

/// Whether a sequence-number file was found, and the number it held.
#[derive(Debug, Clone, Copy, PartialEq, Eq, Structural)]
pub enum SeqNoExist {
    Yes(usize),
    No,
}

/// Figures about a store.
#[derive(Debug, Clone, Copy, PartialEq, Eq, Structural)]
pub struct Stat {
    /// Number of live keys.
    pub key_num: usize,
    /// Number of segments, the active one included.
    pub data_file_num: usize,
    /// Bytes a merge could reclaim.
    pub reclaim_size: usize,
    /// Bytes the store's directory takes on disk.
    pub disk_size: u64,
}

/// `new` is `old` once the append `a` has been written: after a rotation
/// the active segment is an old one and `a`'s segment is active, and the
/// write offset lies past the record.
pub open spec fn after_append(old: &Engine, a: Append, new: &Engine) -> bool {
    let due = sync_due(old.options, old.bytes_write, a.pos.size as nat);
    &&& new.active_file_id == a.pos.file_id
    &&& new.old_file_ids@ == (if a.rotate {
        old.old_file_ids@.push(old.active_file_id)
    } else {
        old.old_file_ids@
    })
    &&& new.write_off == a.pos.offset + a.pos.size
    &&& new.bytes_write == (if due {
        0
    } else {
        sat_add(old.bytes_write as int, a.pos.size as int)
    })
    &&& new.index@ == old.index@
    &&& new.reclaim_size == old.reclaim_size
    &&& new.seq_no == old.seq_no
    &&& new.options == old.options
    &&& new.file_ids == old.file_ids
    &&& new.seq_file_exists == old.seq_file_exists
    &&& new.is_initial == old.is_initial
}

/// An append the engine has planned. The caller writes `bytes` at the end of
/// segment `pos.file_id` (after syncing the active segment and starting that
/// one when `rotate` is set), then reports it with `Engine::apply_append`.
#[derive(Debug)]
pub struct Append {
    /// The active segment is full: it becomes an old segment and segment
    /// `pos.file_id` is started.
    pub rotate: bool,
    /// Where the record will lie.
    pub pos: LogRecordPos,
    /// The encoded record.
    pub bytes: Vec<u8>,
}

/// The state of an open store: its configuration, the index, the active
/// segment and its write offset, the old segments, and the counters.
pub struct Engine {
    pub options: Options,
    pub index: SortedIndex,
    /// The ids of the segments found when the store was opened, ascending.
    pub file_ids: Vec<u32>,
    /// The segment that receives appends.
    pub active_file_id: u32,
    /// Where the next record goes in the active segment.
    pub write_off: u64,
    /// The segments that only receive reads.
    pub old_file_ids: Vec<u32>,
    /// The sequence number the next transaction takes.
    pub seq_no: usize,
    /// Bytes written since the last sync.
    pub bytes_write: usize,
    /// Bytes held by records that later records made obsolete.
    pub reclaim_size: usize,
    /// A sequence-number file was found at opening.
    pub seq_file_exists: bool,
    /// The store was created by this opening.
    pub is_initial: bool,
}

impl Engine {
    /// The index is well formed, and the old segments' ids ascend and all
    /// come before the active segment's.
    pub open spec fn wf(&self) -> bool {
        &&& self.index.wf()
        &&& ascending(self.old_file_ids@)
        &&& forall|i: int|
            0 <= i < self.old_file_ids@.len() ==> #[trigger] self.old_file_ids@[i]
                < self.active_file_id
    }

    /// `a` appends `bytes` as planned from this state.
    pub open spec fn planned(&self, bytes: Seq<u8>, a: Append) -> bool {
        let rot = rotates(self.write_off, bytes.len(), self.options.data_file_size);
        &&& a.bytes@ == bytes
        &&& a.pos.size == bytes.len()
        &&& a.rotate == rot
        &&& a.pos.file_id == (if rot {
            self.active_file_id + 1
        } else {
            self.active_file_id as int
        })
        &&& a.pos.offset == (if rot {
            0
        } else {
            self.write_off as int
        })
    }

    /// The outcome of planning an append of `bytes`: it fails only where the
    /// active segment is full and no further segment id is left.
    pub open spec fn plan_result(&self, bytes: Seq<u8>, r: Result<Append>) -> bool {
        if rotates(self.write_off, bytes.len(), self.options.data_file_size)
            && self.active_file_id == u32::MAX {
            r == Err::<Append, Errors>(Errors::FailedToOpenDataFile)
        } else {
            r is Ok && self.planned(bytes, r->Ok_0)
        }
    }

    /// `a` continues the active segment as it stands.
    pub open spec fn continues(&self, a: Append) -> bool {
        &&& a.pos.size == a.bytes@.len()
        &&& if a.rotate {
            a.pos.file_id == self.active_file_id + 1 && a.pos.offset == 0
        } else {
            a.pos.file_id == self.active_file_id && a.pos.offset == self.write_off
                && self.write_off + a.pos.size <= u64::MAX
        }
    }

    /// A new engine over the segments `file_ids` of a store configured by
    /// `options`: the segment with the largest id is the active one, the
    /// others are old. Fails on a configuration that `check_options` refuses.
    pub fn open(options: Options, file_ids: Vec<u32>, is_initial: bool) -> (r: Result<Engine>)
        ensures
            options_error(options) is Some ==> r == Err::<Engine, Errors>(
                options_error(options)->Some_0,
            ),
            options_error(options) is None ==> r is Ok && {
                let e = r->Ok_0;
                let ids = e.file_ids@;
                &&& e.wf()
                &&& e.index@ == Map::<Seq<u8>, LogRecordPos>::empty()
                &&& ascending(ids)
                &&& forall|y: u32| #[trigger] ids.contains(y) <==> file_ids@.contains(y)
                &&& e.active_file_id == (if ids.len() == 0 {
                    INITIAL_FILE_ID
                } else {
                    ids.last()
                })
                &&& e.old_file_ids@ == (if ids.len() == 0 {
                    Seq::<u32>::empty()
                } else {
                    ids.drop_last()
                })
                &&& e.write_off == 0
                &&& e.seq_no == 1
                &&& e.bytes_write == 0
                &&& e.reclaim_size == 0
                &&& !e.seq_file_exists
                &&& e.is_initial == is_initial
                &&& e.options == options
            },
    {
        if let Some(e) = check_options(&options) {
            return Err(e);
        }
        let file_ids = sort_ids(file_ids.as_slice());
        let n = file_ids.len();
        let (active_file_id, old_file_ids) = if n == 0 {
            (INITIAL_FILE_ID, Vec::new())
        } else {
            let old = slice_to_vec(slice_subrange(file_ids.as_slice(), 0, n - 1));
            assert(old@ =~= file_ids@.drop_last());
            assert forall|i: int| 0 <= i < old@.len() implies #[trigger] old@[i] < file_ids@[n - 1] by {
                assert(file_ids@[i] < file_ids@[n - 1]);
            }
            (file_ids[n - 1], old)
        };
        Ok(
            Engine {
                options,
                index: SortedIndex::new(),
                file_ids,
                active_file_id,
                write_off: 0,
                old_file_ids,
                seq_no: 1,
                bytes_write: 0,
                reclaim_size: 0,
                seq_file_exists: false,
                is_initial,
            },
        )
    }

    /// Plans the append of `record` to the active segment, starting a new
    /// segment first where the record would take the active one past
    /// `data_file_size`.
    pub fn append_log_record(&self, record: &LogRecord) -> (r: Result<Append>)
        requires
            record.key@.len() + record.value@.len() <= MAX_KV_LEN,
        ensures
            self.plan_result(record.spec_encode(), r),
    {
        let bytes = record.encode();
        proof {
            lemma_varint_len(record.key@.len());
            lemma_varint_len(record.value@.len());
        }
        let len = bytes.len() as u64;
        let rotate = match self.write_off.checked_add(len) {
            Some(end) => end > self.options.data_file_size,
            None => true,
        };
        if rotate {
            if self.active_file_id == u32::MAX {
                return Err(Errors::FailedToOpenDataFile);
            }
            let pos = LogRecordPos { file_id: self.active_file_id + 1, offset: 0, size: len as u32 };
            Ok(Append { rotate, pos, bytes })
        } else {
            let pos = LogRecordPos {
                file_id: self.active_file_id,
                offset: self.write_off,
                size: len as u32,
            };
            Ok(Append { rotate, pos, bytes })
        }
    }

    /// Takes note that `a` was written: on rotation the active segment joins
    /// the old ones and the new one becomes active, then the write offset
    /// moves past the record. Answers whether the active segment must now be
    /// synced. An append that does not continue the active segment is
    /// refused and changes nothing.
    pub fn apply_append(&mut self, a: &Append) -> (r: Result<bool>)
        requires
            old(self).wf(),
        ensures
            final(self).wf(),
            !old(self).continues(*a) ==> r == Err::<bool, Errors>(Errors::FailedToWriteToDataFile)
                && *final(self) == *old(self),
            old(self).continues(*a) ==> r == Ok::<bool, Errors>(
                sync_due(old(self).options, old(self).bytes_write, a.pos.size as nat),
            ) && after_append(old(self), *a, final(self)),
    {
        if a.pos.size as usize != a.bytes.len() {
            return Err(Errors::FailedToWriteToDataFile);
        }
        if a.rotate {
            if self.active_file_id == u32::MAX || a.pos.file_id != self.active_file_id + 1
                || a.pos.offset != 0 {
                return Err(Errors::FailedToWriteToDataFile);
            }
            self.old_file_ids.push(self.active_file_id);
            self.active_file_id = a.pos.file_id;
            self.write_off = 0;
        } else {
            if a.pos.file_id != self.active_file_id || a.pos.offset != self.write_off
                || self.write_off > u64::MAX - a.pos.size as u64 {
                return Err(Errors::FailedToWriteToDataFile);
            }
        }
        self.write_off = self.write_off + a.pos.size as u64;
        let size = a.pos.size as usize;
        let due = self.options.sync_writes || (self.options.bytes_per_sync > 0
            && self.bytes_write as u128 + size as u128 >= self.options.bytes_per_sync as u128);
        if due {
            self.bytes_write = 0;
        } else {
            self.bytes_write = self.bytes_write.saturating_add(size);
        }
        Ok(due)
    }

    /// Plans the write of `value` under `key`, outside any transaction. Once
    /// the record is written and applied, `update_index` with `Normal` and the
    /// append's position makes it visible.
    pub fn put(&self, key: &[u8], value: &[u8]) -> (r: Result<Append>)
        requires
            key@.len() + value@.len() < MAX_KV_LEN,
        ensures
            key@.len() == 0 ==> r == Err::<Append, Errors>(Errors::KeyIsEmpty),
            key@.len() > 0 ==> self.plan_result(
                record_bytes(
                    LogRecordType::Normal,
                    key_with_seq(key@, NON_TXN_SEQ_NO as nat),
                    value@,
                ),
                r,
            ),
    {
        if key.len() == 0 {
            return Err(Errors::KeyIsEmpty);
        }
        let record = LogRecord {
            key: log_record_key_with_seq(key, NON_TXN_SEQ_NO),
            value: slice_to_vec(value),
            rec_type: LogRecordType::Normal,
        };
        assert(varint(0).len() == 1);
        self.append_log_record(&record)
    }

    /// Plans the deletion of `key`: nothing to do (`None`) where the key is
    /// not in the index, else a tombstone. Once it is written and applied,
    /// `update_index` with `Deleted` and the append's position removes the key.
    pub fn delete(&self, key: &[u8]) -> (r: Result<Option<Append>>)
        requires
            self.wf(),
            key@.len() < MAX_KV_LEN,
        ensures
            key@.len() == 0 ==> r == Err::<Option<Append>, Errors>(Errors::KeyIsEmpty),
            key@.len() > 0 && !self.index@.contains_key(key@) ==> r == Ok::<
                Option<Append>,
                Errors,
            >(None),
            key@.len() > 0 && self.index@.contains_key(key@) ==> {
                let bytes = record_bytes(
                    LogRecordType::Deleted,
                    key_with_seq(key@, NON_TXN_SEQ_NO as nat),
                    Seq::empty(),
                );
                if rotates(self.write_off, bytes.len(), self.options.data_file_size)
                    && self.active_file_id == u32::MAX {
                    r == Err::<Option<Append>, Errors>(Errors::FailedToOpenDataFile)
                } else {
                    r is Ok && r->Ok_0 is Some && self.planned(bytes, r->Ok_0->Some_0)
                }
            },
    {
        if key.len() == 0 {
            return Err(Errors::KeyIsEmpty);
        }
        if self.index.get(key).is_none() {
            return Ok(None);
        }
        let record = LogRecord {
            key: log_record_key_with_seq(key, NON_TXN_SEQ_NO),
            value: Vec::new(),
            rec_type: LogRecordType::Deleted,
        };
        assert(varint(0).len() == 1);
        assert(record.value@ =~= Seq::<u8>::empty());
        match self.append_log_record(&record) {
            Ok(a) => Ok(Some(a)),
            Err(e) => Err(e),
        }
    }

    /// Whether segment `file_id` belongs to the store.
    pub open spec fn has_file(&self, file_id: u32) -> bool {
        file_id == self.active_file_id || self.old_file_ids@.contains(file_id)
    }

    fn has_data_file(&self, file_id: u32) -> (r: bool)
        ensures
            r == self.has_file(file_id),
    {
        if file_id == self.active_file_id {
            return true;
        }
        let mut i: usize = 0;
        while i < self.old_file_ids.len()
            invariant
                i <= self.old_file_ids@.len(),
                forall|j: int| 0 <= j < i ==> self.old_file_ids@[j] != file_id,
                file_id != self.active_file_id,
            decreases self.old_file_ids@.len() - i,
        {
            if self.old_file_ids[i] == file_id {
                return true;
            }
            i = i + 1;
        }
        false
    }

    /// Where the latest record of `key` lies; the caller reads `size` bytes
    /// there and hands them to `read_value`.
    pub fn get(&self, key: &[u8]) -> (r: Result<LogRecordPos>)
        requires
            self.wf(),
        ensures
            lookup(self.index@, key@) is Err ==> r == lookup(self.index@, key@),
            lookup(self.index@, key@) is Ok ==> if self.has_file(self.index@[key@].file_id) {
                r == lookup(self.index@, key@)
            } else {
                r == Err::<LogRecordPos, Errors>(Errors::DataFileNotFound)
            },
    {
        if key.len() == 0 {
            return Err(Errors::KeyIsEmpty);
        }
        match self.index.get(key) {
            None => Err(Errors::KeyNotFound),
            Some(pos) => {
                if self.has_data_file(pos.file_id) {
                    Ok(*pos)
                } else {
                    Err(Errors::DataFileNotFound)
                }
            },
        }
    }

    /// Applies a record of type `rec_type` for `key` at `pos` to the index,
    /// counting the bytes it makes obsolete.
    pub fn update_index(&mut self, key: Vec<u8>, rec_type: LogRecordType, pos: LogRecordPos)
        requires
            old(self).wf(),
        ensures
            final(self).wf(),
            (final(self).index@, final(self).reclaim_size) == effect(
                (old(self).index@, old(self).reclaim_size),
                rec_type,
                key@,
                pos,
            ),
            final(self).active_file_id == old(self).active_file_id,
            final(self).write_off == old(self).write_off,
            final(self).old_file_ids == old(self).old_file_ids,
            final(self).seq_no == old(self).seq_no,
            final(self).bytes_write == old(self).bytes_write,
            final(self).options == old(self).options,
            final(self).file_ids == old(self).file_ids,
            final(self).seq_file_exists == old(self).seq_file_exists,
            final(self).is_initial == old(self).is_initial,
    {
        match rec_type {
            LogRecordType::Normal => {
                if let Some(old_pos) = self.index.put(key, pos) {
                    self.reclaim_size = self.reclaim_size.saturating_add(old_pos.size as usize);
                }
            },
            LogRecordType::Deleted => {
                let prev = self.index.delete(key.as_slice());
                self.reclaim_size = self.reclaim_size.saturating_add(pos.size as usize);
                if let Some(old_pos) = prev {
                    self.reclaim_size = self.reclaim_size.saturating_add(old_pos.size as usize);
                }
            },
            LogRecordType::TxnFinished => {},
        }
    }

    /// Figures about the store, given the bytes its directory takes on disk.
    pub fn get_engine_stat(&self, disk_size: u64) -> (r: Stat)
        requires
            self.wf(),
        ensures
            r.key_num == self.index@.len(),
            r.data_file_num == sat_add(self.old_file_ids@.len() as int, 1),
            r.reclaim_size == self.reclaim_size,
            r.disk_size == disk_size,
    {
        Stat {
            key_num: self.index.len(),
            data_file_num: self.old_file_ids.len().saturating_add(1),
            reclaim_size: self.reclaim_size,
            disk_size,
        }
    }

    /// The segments a replay reads, in the order found at opening: all but
    /// those a finished merge covered (ids below `non_merge_file_id`), whose
    /// live records the hint file gives.
    pub fn ids_to_replay(&self, non_merge_file_id: Option<u32>) -> (r: Vec<u32>)
        ensures
            forall|id: u32|
                #[trigger] r@.contains(id) <==> self.file_ids@.contains(id) && (
                non_merge_file_id is None || id >= non_merge_file_id->Some_0),
            ascending(self.file_ids@) ==> ascending(r@),
    {
        let mut r: Vec<u32> = Vec::new();
        let mut i: usize = 0;
        while i < self.file_ids.len()
            invariant
                i <= self.file_ids@.len(),
                forall|id: u32|
                    #[trigger] r@.contains(id) <==> self.file_ids@.subrange(0, i as int).contains(id)
                        && (non_merge_file_id is None || id >= non_merge_file_id->Some_0),
                forall|j: int|
                    0 <= j < r@.len() ==> exists|k: int|
                        0 <= k < i && #[trigger] self.file_ids@[k] == #[trigger] r@[j],
                ascending(self.file_ids@) ==> ascending(r@),
            decreases self.file_ids@.len() - i,
        {
            let id = self.file_ids[i];
            let keep = match non_merge_file_id {
                Some(f) => id >= f,
                None => true,
            };
            let ghost before = r@;
            if keep {
                r.push(id);
            }
            proof {
                let sub = self.file_ids@.subrange(0, i as int);
                let sub2 = self.file_ids@.subrange(0, i + 1);
                assert(sub2 =~= sub.push(id));
                assert(keep == (non_merge_file_id is None || id >= non_merge_file_id->Some_0));
                assert(sub2[i as int] == id);
                assert forall|x: u32| #[trigger] r@.contains(x) <==> sub2.contains(x) && (
                    non_merge_file_id is None || x >= non_merge_file_id->Some_0) by {
                    if sub2.contains(x) && x != id {
                        let k = choose|k: int| 0 <= k < sub2.len() && sub2[k] == x;
                        assert(sub[k] == x);
                    }
                    if r@.contains(x) && x != id {
                        let k = choose|k: int| 0 <= k < r@.len() && r@[k] == x;
                        assert(before[k] == x);
                    }
                    if keep && x == id {
                        assert(r@[r@.len() - 1] == x);
                    }
                    if sub.contains(x) {
                        let k = choose|k: int| 0 <= k < sub.len() && sub[k] == x;
                        assert(sub2[k] == x);
                    }
                    if before.contains(x) {
                        let k = choose|k: int| 0 <= k < before.len() && before[k] == x;
                        assert(r@[k] == x);
                    }
                }
                assert forall|j: int| 0 <= j < r@.len() implies exists|k: int|
                    0 <= k < i + 1 && #[trigger] self.file_ids@[k] == #[trigger] r@[j] by {
                    if j < before.len() {
                        assert(r@[j] == before[j]);
                    } else {
                        assert(self.file_ids@[i as int] == r@[j]);
                    }
                }
                if ascending(self.file_ids@) && keep {
                    assert forall|a: int, b: int| 0 <= a < b < r@.len() implies #[trigger] r@[a] < #[trigger] r@[b] by {
                        if b == r@.len() - 1 {
                            assert(r@[a] == before[a]);
                            let k = choose|k: int| 0 <= k < i && #[trigger] self.file_ids@[k] == #[trigger] before[a];
                            assert(self.file_ids@[k] < self.file_ids@[i as int]);
                        } else {
                            assert(r@[a] == before[a]);
                            assert(r@[b] == before[b]);
                        }
                    }
                }
            }
            i = i + 1;
        }
        assert(self.file_ids@.subrange(0, i as int) =~= self.file_ids@);
        r
    }

    /// A walk over the index as it stands now; see `SortedMap::iterator`.
    pub fn iterator(&self, options: IteratorOptions) -> (r: SortedIndexIterator)
        requires
            self.wf(),
        ensures
            r.items().len() == self.index@.len(),
            forall|i: int|
                0 <= i < self.index.key_seq().len() ==> {
                    let k = if options.reverse {
                        self.index.key_seq()[self.index.key_seq().len() - 1 - i]
                    } else {
                        self.index.key_seq()[i]
                    };
                    &&& (#[trigger] r.items()[i]).0 == k
                    &&& r.items()[i].1 == self.index@[k]
                },
            r.cursor() == 0,
            r.prefix() == options.prefix@,
            r.reverse() == options.reverse,
    {
        proof {
            self.index.lemma_key_seq();
        }
        self.index.iterator(options)
    }

    /// The live keys, in order.
    pub fn list_keys(&self) -> (r: Vec<Vec<u8>>)
        requires
            self.wf(),
        ensures
            crate::index::strictly_sorted(crate::index::keys_of(r@)),
            forall|k: Seq<u8>| self.index@.contains_key(k) <==> #[trigger] crate::index::keys_of(r@).contains(k),
            r@.len() == self.index@.len(),
    {
        self.index.list_keys()
    }
}

/// The value held by the record at the front of `data`, the bytes read at a
/// position that `Engine::get` gave. A tombstone there means the key is gone.
pub fn read_value(data: &[u8]) -> (r: Result<Vec<u8>>)
    ensures
        forall|t: LogRecordType, key: Seq<u8>, value: Seq<u8>|
            #[trigger] record_bytes(t, key, value) == data@ && key.len() > 0 ==> if t == LogRecordType::Deleted {
                r == Err::<Vec<u8>, Errors>(Errors::KeyNotFound)
            } else {
                r is Ok && r->Ok_0@ == value
            },
{
    proof {
        assert forall|t: LogRecordType, key: Seq<u8>, value: Seq<u8>|
            #[trigger] record_bytes(t, key, value) == data@ && key.len() > 0 implies
            crate::log_record::framed_at(
                data@,
                0,
                crate::log_record::type_byte(t),
                key,
                value,
                crate::log_record::be32(
                    crate::log_record::crc32_of(
                        crate::log_record::record_body(crate::log_record::type_byte(t), key, value),
                    ),
                ),
            ) by {
            assert(data@.subrange(0, data@.len() as int) =~= data@);
        }
    }
    let rec = decode_log_record(data, 0)?;
    match rec.record.rec_type {
        LogRecordType::Deleted => Err(Errors::KeyNotFound),
        _ => Ok(rec.record.value),
    }
}

/// Reading a key right after a put of it finds the position the put wrote.
pub proof fn lemma_put_then_get(
    idx: Map<Seq<u8>, LogRecordPos>,
    reclaim: usize,
    key: Seq<u8>,
    pos: LogRecordPos,
)
    requires
        key.len() > 0,
    ensures
        lookup(effect((idx, reclaim), LogRecordType::Normal, key, pos).0, key) == Ok::<
            LogRecordPos,
            Errors,
        >(pos),
{
}

/// Of two puts of one key, a read finds the second.
pub proof fn lemma_overwrite(
    idx: Map<Seq<u8>, LogRecordPos>,
    reclaim: usize,
    key: Seq<u8>,
    first: LogRecordPos,
    second: LogRecordPos,
)
    requires
        key.len() > 0,
    ensures
        ({
            let st = effect((idx, reclaim), LogRecordType::Normal, key, first);
            lookup(effect(st, LogRecordType::Normal, key, second).0, key) == Ok::<
                LogRecordPos,
                Errors,
            >(second)
        }),
{
}

/// After a put and a deletion of a key, a read finds nothing.
pub proof fn lemma_put_then_delete(
    idx: Map<Seq<u8>, LogRecordPos>,
    reclaim: usize,
    key: Seq<u8>,
    put_pos: LogRecordPos,
    tombstone: LogRecordPos,
)
    requires
        key.len() > 0,
    ensures
        ({
            let st = effect((idx, reclaim), LogRecordType::Normal, key, put_pos);
            lookup(effect(st, LogRecordType::Deleted, key, tombstone).0, key) == Err::<
                LogRecordPos,
                Errors,
            >(Errors::KeyNotFound)
        }),
{
}

/// A write that starts a new segment keeps every segment the store had, adds
/// one, and the record lands in the new active segment.
pub proof fn lemma_rotation_keeps_segments(before: &Engine, a: Append, after: &Engine)
    requires
        before.continues(a),
        after_append(before, a, after),
        a.rotate,
    ensures
        after.old_file_ids@.len() == before.old_file_ids@.len() + 1,
        forall|id: u32| #[trigger] before.has_file(id) ==> after.has_file(id),
        after.has_file(a.pos.file_id),
        after.active_file_id != before.active_file_id,
{
    assert forall|id: u32| #[trigger] before.has_file(id) implies after.has_file(id) by {
        if id == before.active_file_id {
            assert(after.old_file_ids@[before.old_file_ids@.len() as int] == id);
        } else {
            let j = choose|j: int| 0 <= j < before.old_file_ids@.len() && before.old_file_ids@[j] == id;
            assert(after.old_file_ids@[j] == id);
        }
    }
}

} // verus!
