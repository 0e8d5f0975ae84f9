use std::collections::BTreeMap;

use flash_kv::batch::WriteBatch;
use flash_kv::db::{read_value, Append, Engine};
use flash_kv::errors::Errors;
use flash_kv::log_record::{LogRecordPos, LogRecordType};
use flash_kv::merge::{hint_record, merge_finished_record, read_merge_finished};
use flash_kv::option::{Options, WriteBatchOptions};
use flash_kv::recovery::Recovery;
use flash_kv::log_record::LogRecord;

/// Segment contents by id, standing in for the files of a store.
#[derive(Default, Clone)]
struct Disk {
    segs: BTreeMap<u32, Vec<u8>>,
}

impl Disk {
    fn write(&mut self, e: &mut Engine, a: &Append) -> LogRecordPos {
        self.segs.entry(a.pos.file_id).or_default().extend_from_slice(&a.bytes);
        e.apply_append(a).expect("append continues the active segment");
        a.pos
    }
}

fn options(data_file_size: u64) -> Options {
    let mut o = Options::with_dir("/tmp/flash-kv-test".to_string());
    o.data_file_size = data_file_size;
    o
}

fn open(o: Options, d: &Disk) -> Result<Engine, Errors> {
    let ids: Vec<u32> = d.segs.keys().copied().collect();
    let mut e = Engine::open(o, ids, d.segs.is_empty())?;
    let segments: Vec<(u32, Vec<u8>)> =
        e.ids_to_replay(None).into_iter().map(|id| (id, d.segs[&id].clone())).collect();
    e.recover(None, &segments)?;
    Ok(e)
}

fn put(e: &mut Engine, d: &mut Disk, k: &[u8], v: &[u8]) -> Result<(), Errors> {
    let a = e.put(k, v)?;
    let pos = d.write(e, &a);
    e.update_index(k.to_vec(), LogRecordType::Normal, pos);
    Ok(())
}

fn delete(e: &mut Engine, d: &mut Disk, k: &[u8]) -> Result<(), Errors> {
    if let Some(a) = e.delete(k)? {
        let pos = d.write(e, &a);
        e.update_index(k.to_vec(), LogRecordType::Deleted, pos);
    }
    Ok(())
}

fn get(e: &Engine, d: &Disk, k: &[u8]) -> Result<Vec<u8>, Errors> {
    let pos = e.get(k)?;
    let seg = &d.segs[&pos.file_id];
    let start = pos.offset as usize;
    read_value(&seg[start..start + pos.size as usize])
}

fn commit(e: &mut Engine, d: &mut Disk, wb: &mut WriteBatch) -> Result<(), Errors> {
    let recs = wb.commit(e)?;
    if recs.is_empty() {
        return Ok(());
    }
    let mut positions = Vec::new();
    for r in &recs {
        let a = e.append_log_record(r)?;
        positions.push(d.write(e, &a));
    }
    positions.pop();
    wb.finish_commit(e, &positions)
}

fn get_test_key(i: usize) -> Vec<u8> {
    format!("flash-kv-key-{:09}", i).into_bytes()
}

fn get_test_value(i: usize) -> Vec<u8> {
    format!("flash-kv-value-value-value-value-value-value-value-value-{:09}", i).into_bytes()
}

#[test]
fn basic_put_get_delete() {
    let mut d = Disk::default();
    let mut e = open(options(64 * 1024 * 1024), &d).unwrap();
    put(&mut e, &mut d, b"hello", b"world").unwrap();
    assert_eq!(get(&e, &d, b"hello").unwrap(), b"world".to_vec());
    delete(&mut e, &mut d, b"hello").unwrap();
    assert_eq!(get(&e, &d, b"hello").unwrap_err(), Errors::KeyNotFound);
}

#[test]
fn overwrite_keeps_last_value() {
    let mut d = Disk::default();
    let mut e = open(options(1 << 20), &d).unwrap();
    put(&mut e, &mut d, b"k", b"v1").unwrap();
    put(&mut e, &mut d, b"k", b"v2").unwrap();
    assert_eq!(get(&e, &d, b"k").unwrap(), b"v2".to_vec());
    let first_len = 1 + 1 + 1 + 2 + 2 + 4;
    assert_eq!(e.reclaim_size, first_len);
}

#[test]
fn empty_value_is_allowed() {
    let mut d = Disk::default();
    let mut e = open(options(1 << 20), &d).unwrap();
    put(&mut e, &mut d, b"k", b"").unwrap();
    assert_eq!(get(&e, &d, b"k").unwrap(), Vec::<u8>::new());
}

#[test]
fn empty_key_is_rejected() {
    let mut d = Disk::default();
    let mut e = open(options(1 << 20), &d).unwrap();
    assert_eq!(e.put(b"", b"v").unwrap_err(), Errors::KeyIsEmpty);
    assert_eq!(e.delete(b"").unwrap_err(), Errors::KeyIsEmpty);
    assert_eq!(e.get(b"").unwrap_err(), Errors::KeyIsEmpty);
    let mut wb = e.new_write_batch(WriteBatchOptions::default()).unwrap();
    assert_eq!(wb.put(b"", b"v").unwrap_err(), Errors::KeyIsEmpty);
    assert_eq!(wb.delete(&e, b"").unwrap_err(), Errors::KeyIsEmpty);
    assert!(d.segs.is_empty());
    put(&mut e, &mut d, b"a", b"b").unwrap();
}

#[test]
fn delete_missing_key_writes_nothing() {
    let mut d = Disk::default();
    let mut e = open(options(1 << 20), &d).unwrap();
    assert!(e.delete(b"nothing").unwrap().is_none());
    delete(&mut e, &mut d, b"nothing").unwrap();
    assert!(d.segs.is_empty());
    assert_eq!(e.reclaim_size, 0);
}

#[test]
fn delete_counts_reclaimable_bytes() {
    let mut d = Disk::default();
    let mut e = open(options(1 << 20), &d).unwrap();
    put(&mut e, &mut d, b"key", b"value").unwrap();
    delete(&mut e, &mut d, b"key").unwrap();
    let put_len = 3 + 4 + 5 + 4;
    let tomb_len = 3 + 4 + 4;
    assert_eq!(e.reclaim_size, put_len + tomb_len);
}

#[test]
fn durable_after_reopen() {
    let mut d = Disk::default();
    let mut e = open(options(1 << 20), &d).unwrap();
    put(&mut e, &mut d, b"k", b"v").unwrap();
    drop(e);
    let e2 = open(options(1 << 20), &d).unwrap();
    assert_eq!(get(&e2, &d, b"k").unwrap(), b"v".to_vec());
    assert_eq!(e2.write_off, d.segs[&0].len() as u64);
}

#[test]
fn reopen_twice_lists_same_keys() {
    let mut d = Disk::default();
    let mut e = open(options(4096), &d).unwrap();
    for i in 0..200 {
        put(&mut e, &mut d, &get_test_key(i), &get_test_value(i)).unwrap();
    }
    for i in 0..50 {
        delete(&mut e, &mut d, &get_test_key(i * 2)).unwrap();
    }
    let keys = e.list_keys();
    let e1 = open(options(4096), &d).unwrap();
    let e2 = open(options(4096), &d).unwrap();
    assert_eq!(e1.list_keys(), keys);
    assert_eq!(e2.list_keys(), keys);
    assert_eq!(keys.len(), 150);
}

#[test]
fn rotation_creates_segments() {
    let mut d = Disk::default();
    let mut e = open(options(64 * 1024), &d).unwrap();
    for i in 0..1000 {
        let v = vec![(i % 251) as u8; 256];
        put(&mut e, &mut d, &get_test_key(i), &v).unwrap();
    }
    assert!(d.segs.len() >= 4);
    for seg in d.segs.values() {
        assert!(seg.len() as u64 <= 64 * 1024);
    }
    for i in 0..1000 {
        assert_eq!(get(&e, &d, &get_test_key(i)).unwrap(), vec![(i % 251) as u8; 256]);
    }
    let stat = e.get_engine_stat(0);
    assert_eq!(stat.data_file_num, d.segs.len());
    assert_eq!(stat.key_num, 1000);
    let e2 = open(options(64 * 1024), &d).unwrap();
    for i in 0..1000 {
        assert_eq!(get(&e2, &d, &get_test_key(i)).unwrap(), vec![(i % 251) as u8; 256]);
    }
}

#[test]
fn apply_refuses_stale_append() {
    let d = Disk::default();
    let mut e = open(options(1 << 20), &d).unwrap();
    let a = e.put(b"a", b"1").unwrap();
    let b = e.put(b"b", b"2").unwrap();
    e.apply_append(&a).unwrap();
    assert_eq!(e.apply_append(&b).unwrap_err(), Errors::FailedToWriteToDataFile);
}

#[test]
fn sync_every_write_when_asked() {
    let d = Disk::default();
    let mut o = options(1 << 20);
    o.sync_writes = true;
    let mut e = open(o, &d).unwrap();
    let a = e.put(b"a", b"1").unwrap();
    assert!(e.apply_append(&a).unwrap());
    let mut o2 = options(1 << 20);
    o2.bytes_per_sync = 20;
    let mut e2 = open(o2, &d).unwrap();
    let a1 = e2.put(b"a", b"1").unwrap();
    assert!(!e2.apply_append(&a1).unwrap());
    let a2 = e2.put(b"b", b"2").unwrap();
    assert!(e2.apply_append(&a2).unwrap());
    assert_eq!(e2.bytes_write, 0);
}

#[test]
fn tampered_segment_fails_on_reopen() {
    let mut d = Disk::default();
    let mut e = open(options(1 << 20), &d).unwrap();
    put(&mut e, &mut d, b"key-one", b"value-one").unwrap();
    put(&mut e, &mut d, b"key-two", b"value-two").unwrap();
    let mut bad = d.clone();
    let seg = bad.segs.get_mut(&0).unwrap();
    let n = seg.len();
    seg[n - 6] ^= 0x01;
    assert_eq!(open(options(1 << 20), &bad).err(), Some(Errors::InvalidLogRecordCrc));
}

#[test]
fn test_write_batch_1() {
    let mut d = Disk::default();
    let mut e = open(options(64 * 1024 * 1024), &d).unwrap();
    let mut wb = e.new_write_batch(WriteBatchOptions::default()).expect("fail to create write batch");

    let put_res1 = wb.put(&get_test_key(1), &get_test_value(10));
    assert!(put_res1.is_ok());
    let put_res2 = wb.put(&get_test_key(2), &get_test_value(20));
    assert!(put_res2.is_ok());

    let res1 = get(&e, &d, &get_test_key(1));
    assert_eq!(Errors::KeyNotFound, res1.err().unwrap());

    let commit_res = commit(&mut e, &mut d, &mut wb);
    assert!(commit_res.is_ok());
    let res2 = get(&e, &d, &get_test_key(1));
    assert_eq!(get_test_value(10), res2.unwrap());

    assert_eq!(2, e.seq_no);
}

#[test]
fn test_write_batch_2() {
    let mut d = Disk::default();
    let mut e = open(options(64 * 1024 * 1024), &d).unwrap();
    let mut wb = e.new_write_batch(WriteBatchOptions::default()).expect("fail to create write batch");

    let put_res1 = wb.put(&get_test_key(1), &get_test_value(10));
    assert!(put_res1.is_ok());
    let put_res2 = wb.put(&get_test_key(2), &get_test_value(20));
    assert!(put_res2.is_ok());
    let commit_res1 = commit(&mut e, &mut d, &mut wb);
    assert!(commit_res1.is_ok());

    let put_res3 = wb.put(&get_test_key(3), &get_test_value(10));
    assert!(put_res3.is_ok());
    let commit_res2 = commit(&mut e, &mut d, &mut wb);
    assert!(commit_res2.is_ok());

    drop(e);
    let e2 = open(options(64 * 1024 * 1024), &d).expect("fail to open engine");
    let keys = e2.list_keys();
    assert_eq!(3, keys.len());
    assert_eq!(3, e2.seq_no);
}

#[test]
fn test_write_batch_3() {
    let mut d = Disk::default();
    let mut e = open(options(64 * 1024 * 1024), &d).unwrap();
    let mut wb_opts = WriteBatchOptions::default();
    wb_opts.max_batch_num = 10000000;
    let mut wb = e.new_write_batch(wb_opts).expect("fail to create write batch");

    for i in 0..=1000000 {
        let put_res = wb.put(&get_test_key(i), &get_test_value(i));
        assert!(put_res.is_ok());
    }

    let commit_res1 = commit(&mut e, &mut d, &mut wb);
    assert!(commit_res1.is_ok());
}

#[test]
fn batch_over_limit_is_refused() {
    let d = Disk::default();
    let mut e = open(options(1 << 20), &d).unwrap();
    let mut wb = e.new_write_batch(WriteBatchOptions { max_batch_num: 2, sync_writes: true }).unwrap();
    wb.put(b"a", b"1").unwrap();
    wb.put(b"b", b"2").unwrap();
    wb.put(b"c", b"3").unwrap();
    assert_eq!(wb.commit(&mut e).unwrap_err(), Errors::ExceedMaxBatchNum);
    assert_eq!(e.seq_no, 1);
}

#[test]
fn empty_batch_commit_is_noop() {
    let mut d = Disk::default();
    let mut e = open(options(1 << 20), &d).unwrap();
    let mut wb = e.new_write_batch(WriteBatchOptions::default()).unwrap();
    commit(&mut e, &mut d, &mut wb).unwrap();
    assert_eq!(e.seq_no, 1);
    assert!(d.segs.is_empty());
}

#[test]
fn batch_delete_of_missing_key_drops_pending_write() {
    let mut d = Disk::default();
    let mut e = open(options(1 << 20), &d).unwrap();
    put(&mut e, &mut d, b"present", b"1").unwrap();
    let mut wb = e.new_write_batch(WriteBatchOptions::default()).unwrap();
    wb.put(b"absent", b"2").unwrap();
    wb.delete(&e, b"absent").unwrap();
    wb.delete(&e, b"present").unwrap();
    commit(&mut e, &mut d, &mut wb).unwrap();
    assert_eq!(get(&e, &d, b"absent").unwrap_err(), Errors::KeyNotFound);
    assert_eq!(get(&e, &d, b"present").unwrap_err(), Errors::KeyNotFound);
}

#[test]
fn crash_before_finish_discards_batch() {
    let mut d = Disk::default();
    let mut e = open(options(1 << 20), &d).unwrap();
    let mut wb = e.new_write_batch(WriteBatchOptions::default()).unwrap();
    wb.put(b"k", b"v").unwrap();
    let recs = wb.commit(&mut e).unwrap();
    assert_eq!(recs.len(), 2);
    let a = e.append_log_record(&recs[0]).unwrap();
    d.write(&mut e, &a);
    drop(e);
    let e2 = open(options(1 << 20), &d).unwrap();
    assert_eq!(get(&e2, &d, b"k").unwrap_err(), Errors::KeyNotFound);
    assert_eq!(e2.seq_no, 2);
}

#[test]
fn committed_batch_survives_reopen() {
    let mut d = Disk::default();
    let mut e = open(options(1 << 20), &d).unwrap();
    put(&mut e, &mut d, b"old", b"x").unwrap();
    let mut wb = e.new_write_batch(WriteBatchOptions::default()).unwrap();
    wb.put(b"k1", b"v1").unwrap();
    wb.put(b"k2", b"v2").unwrap();
    wb.delete(&e, b"old").unwrap();
    commit(&mut e, &mut d, &mut wb).unwrap();
    let live_reclaim = e.reclaim_size;
    let e2 = open(options(1 << 20), &d).unwrap();
    assert_eq!(get(&e2, &d, b"k1").unwrap(), b"v1".to_vec());
    assert_eq!(get(&e2, &d, b"k2").unwrap(), b"v2".to_vec());
    assert_eq!(get(&e2, &d, b"old").unwrap_err(), Errors::KeyNotFound);
    assert_eq!(e2.list_keys(), e.list_keys());
    assert_eq!(e2.reclaim_size, live_reclaim);
}

fn merge_and_reopen(o: Options, d: &Disk, e: &mut Engine) -> (Engine, Disk) {
    assert_eq!(e.merge_precheck(1, u64::MAX), Ok(true));
    let ids = e.rotate_merge_files().unwrap();
    let mut merged = Disk::default();
    let mut merge_db = Engine::open(o.clone(), vec![], true).unwrap();
    let mut hint: Vec<u8> = Vec::new();
    for id in &ids {
        for (k, rec) in e.merge_live_records(*id, &d.segs[id]).unwrap() {
            let a = merge_db.append_log_record(&rec).unwrap();
            let pos = merged.write(&mut merge_db, &a);
            hint.extend_from_slice(&hint_record(&k, pos));
        }
    }
    let non_merge_file_id = read_merge_finished(&merge_finished_record(e.active_file_id)).unwrap();
    assert_eq!(non_merge_file_id, *ids.last().unwrap() + 1);
    let mut promoted = Disk::default();
    for (id, seg) in &merged.segs {
        promoted.segs.insert(*id, seg.clone());
    }
    for (id, seg) in &d.segs {
        if *id >= non_merge_file_id {
            promoted.segs.insert(*id, seg.clone());
        }
    }
    let ids_after: Vec<u32> = promoted.segs.keys().copied().collect();
    let mut e2 = Engine::open(o, ids_after, false).unwrap();
    let segments: Vec<(u32, Vec<u8>)> = e2
        .ids_to_replay(Some(non_merge_file_id))
        .into_iter()
        .map(|id| (id, promoted.segs[&id].clone()))
        .collect();
    e2.recover(Some(&hint), &segments).unwrap();
    (e2, promoted)
}

#[test]
fn merge_keeps_answers_and_drops_garbage() {
    let mut o = options(16 * 1024);
    o.file_merge_threshold = 0;
    let mut d = Disk::default();
    let mut e = open(o.clone(), &d).unwrap();
    for i in 0..2000 {
        put(&mut e, &mut d, &get_test_key(i), &get_test_value(i)).unwrap();
    }
    for i in 0..400 {
        put(&mut e, &mut d, &get_test_key(i), b"new value in merge").unwrap();
    }
    for i in 1600..2000 {
        delete(&mut e, &mut d, &get_test_key(i)).unwrap();
    }
    let before: usize = d.segs.values().map(|s| s.len()).sum();
    let (e2, d2) = merge_and_reopen(o, &d, &mut e);
    let after: usize = d2.segs.values().map(|s| s.len()).sum();
    assert!(after < before);
    assert_eq!(e2.list_keys().len(), 1600);
    for i in 0..400 {
        assert_eq!(get(&e2, &d2, &get_test_key(i)).unwrap(), b"new value in merge".to_vec());
    }
    for i in 400..1600 {
        assert_eq!(get(&e2, &d2, &get_test_key(i)).unwrap(), get_test_value(i));
    }
    for i in 1600..2000 {
        assert_eq!(get(&e2, &d2, &get_test_key(i)).unwrap_err(), Errors::KeyNotFound);
    }
}

#[test]
fn merge_of_all_deleted_keys_leaves_nothing() {
    let mut o = options(16 * 1024);
    o.file_merge_threshold = 0;
    let mut d = Disk::default();
    let mut e = open(o.clone(), &d).unwrap();
    for i in 0..500 {
        put(&mut e, &mut d, &get_test_key(i), &get_test_value(i)).unwrap();
        delete(&mut e, &mut d, &get_test_key(i)).unwrap();
    }
    let (e2, d2) = merge_and_reopen(o, &d, &mut e);
    assert_eq!(e2.list_keys().len(), 0);
    for i in 0..500 {
        assert_eq!(get(&e2, &d2, &get_test_key(i)).unwrap_err(), Errors::KeyNotFound);
    }
}

#[test]
fn merge_preconditions() {
    let mut o = options(1 << 20);
    o.file_merge_threshold = 500;
    let mut d = Disk::default();
    let mut e = open(o, &d).unwrap();
    assert_eq!(e.merge_precheck(0, 0), Ok(false));
    put(&mut e, &mut d, b"k", b"v1").unwrap();
    put(&mut e, &mut d, b"k", b"v2").unwrap();
    let total = d.segs[&0].len() as u64;
    assert_eq!(e.reclaim_size as u64 * 2, total);
    assert_eq!(e.merge_precheck(total, u64::MAX), Ok(true));
    assert_eq!(e.merge_precheck(total + 1, u64::MAX), Err(Errors::MergeThresholdUnreached));
    let live = total - e.reclaim_size as u64;
    assert_eq!(e.merge_precheck(total, live - 1), Err(Errors::MergeNoEnoughSpace));
    assert_eq!(e.merge_precheck(total, live), Ok(true));
}

#[test]
fn zero_padding_after_records_ends_the_replay() {
    let mut d = Disk::default();
    let mut e = open(options(1 << 20), &d).unwrap();
    put(&mut e, &mut d, b"a", b"1").unwrap();
    put(&mut e, &mut d, b"b", b"2").unwrap();
    let end = d.segs[&0].len() as u64;
    for pad in [0usize, 1, 2, 5, 7, 8, 40] {
        let mut padded = d.clone();
        padded.segs.get_mut(&0).unwrap().extend(vec![0u8; pad]);
        let mut e2 = Engine::open(options(1 << 20), vec![0], false).unwrap();
        let mut rec = Recovery::new();
        assert_eq!(e2.load_index_from_data_file(&mut rec, 0, &padded.segs[&0]), Ok(end));
        assert_eq!(e2.write_off, end);
        assert_eq!(get(&e2, &padded, b"b").unwrap(), b"2".to_vec());
    }
}

#[test]
fn damaged_type_byte_fails_replay() {
    let mut d = Disk::default();
    let mut e = open(options(1 << 20), &d).unwrap();
    put(&mut e, &mut d, b"a", b"1").unwrap();
    let mut body = vec![7u8, 1, 1, b'k', b'v'];
    let crc = crc32fast::hash(&body);
    body.extend_from_slice(&crc.to_be_bytes());
    d.segs.get_mut(&0).unwrap().extend(body);
    assert_eq!(open(options(1 << 20), &d).err(), Some(Errors::InvalidLogRecordCrc));
}

#[test]
fn replay_tracks_largest_sequence_number() {
    let mut d = Disk::default();
    let mut e = open(options(1 << 20), &d).unwrap();
    for _ in 0..3 {
        let mut wb = e.new_write_batch(WriteBatchOptions::default()).unwrap();
        wb.put(b"k", b"v").unwrap();
        commit(&mut e, &mut d, &mut wb).unwrap();
    }
    let mut e2 = Engine::open(options(1 << 20), vec![0], false).unwrap();
    let mut rec = Recovery::new();
    e2.load_index_from_data_file(&mut rec, 0, &d.segs[&0]).unwrap();
    assert_eq!(rec.max_seq_no(), 3);
    e2.finish_recovery(&rec);
    assert_eq!(e2.seq_no, 4);
}

#[test]
fn merge_keeps_only_live_puts() {
    let mut d = Disk::default();
    let mut e = open(options(1 << 20), &d).unwrap();
    put(&mut e, &mut d, b"a", b"old").unwrap();
    put(&mut e, &mut d, b"b", b"1").unwrap();
    put(&mut e, &mut d, b"a", b"new").unwrap();
    delete(&mut e, &mut d, b"b").unwrap();
    let live = e.merge_live_records(0, &d.segs[&0]).unwrap();
    assert_eq!(live.len(), 1);
    assert_eq!(live[0].0, b"a".to_vec());
    let expected = LogRecord { key: vec![0u8, b'a'], value: b"new".to_vec(), rec_type: LogRecordType::Normal };
    assert_eq!(live[0].1.encode(), expected.encode());
}
