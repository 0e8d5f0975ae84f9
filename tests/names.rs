use flash_kv::data_file::{data_file_id, data_file_ids, format_decimal, get_data_file_name, parse_decimal, sort_ids};
use flash_kv::db::SeqNoExist;
use flash_kv::db::Engine;
use flash_kv::errors::Errors;
use flash_kv::merge::{
    get_merge_path, merge_files_to_move, merge_finished_record, read_merge_finished, read_seq_no,
};
use flash_kv::option::{check_options, IndexType, Options, WriteBatchOptions};

#[test]
fn data_file_names_have_nine_digits() {
    assert_eq!(get_data_file_name(b"/tmp/db", 0), b"/tmp/db/000000000.data".to_vec());
    assert_eq!(get_data_file_name(b"/tmp/db/", 160), b"/tmp/db/000000160.data".to_vec());
    assert_eq!(get_data_file_name(b"db", 1234567890), b"db/1234567890.data".to_vec());
    assert_eq!(get_data_file_name(b"", 7), b"000000007.data".to_vec());
}

#[test]
fn data_file_ids_are_parsed_and_sorted() {
    assert_eq!(data_file_id(b"000000012.data"), Ok(Some(12)));
    assert_eq!(data_file_id(b"hint-index"), Ok(None));
    assert_eq!(data_file_id(b"x.data"), Err(Errors::DatabaseDirectoryCorrupted));
    assert_eq!(data_file_id(b"99999999999.data"), Err(Errors::DatabaseDirectoryCorrupted));
    let names = vec![
        b"000000002.data".to_vec(),
        b"flock".to_vec(),
        b"000000000.data".to_vec(),
        b"seq-no".to_vec(),
        b"000000001.data".to_vec(),
    ];
    assert_eq!(data_file_ids(&names), Ok(vec![0, 1, 2]));
    let bad = vec![b"000000000.data".to_vec(), b"abc.data".to_vec()];
    assert_eq!(data_file_ids(&bad), Err(Errors::DatabaseDirectoryCorrupted));
    assert_eq!(sort_ids(&[5, 3, 5, 1]), vec![1, 3, 5]);
}

#[test]
fn decimal_round_trip() {
    assert_eq!(format_decimal(0), b"0".to_vec());
    assert_eq!(format_decimal(1234567), b"1234567".to_vec());
    assert_eq!(parse_decimal(b"1234567"), Some(1234567));
    assert_eq!(parse_decimal(b"18446744073709551615"), Some(u64::MAX));
    assert_eq!(parse_decimal(b"18446744073709551616"), None);
    assert_eq!(parse_decimal(b""), None);
    assert_eq!(parse_decimal(b"12a"), None);
}

#[test]
fn merge_path_is_a_sibling() {
    assert_eq!(get_merge_path(b"/tmp/flash-kv"), b"/tmp/flash-kv-merge".to_vec());
    assert_eq!(get_merge_path(b"/tmp/flash-kv//"), b"/tmp/flash-kv-merge".to_vec());
}

#[test]
fn merge_marker_files() {
    let fin = merge_finished_record(42);
    assert_eq!(read_merge_finished(&fin), Ok(42));
    let e = Engine::open(Options::with_dir("/tmp/x".to_string()), vec![], true).unwrap();
    let rec = e.seq_no_record();
    assert_eq!(read_seq_no(Some(&rec)), Ok(SeqNoExist::Yes(1)));
    assert_eq!(read_seq_no(None), Ok(SeqNoExist::No));
    let mut tampered = fin.clone();
    tampered[3] ^= 1;
    assert_eq!(read_merge_finished(&tampered), Err(Errors::InvalidLogRecordCrc));
}

#[test]
fn staged_merge_files_to_move() {
    let entries = vec![
        (b"000000000.data".to_vec(), 100u64),
        (b"000000001.data".to_vec(), 0u64),
        (b"hint-index".to_vec(), 30u64),
        (b"seq-no".to_vec(), 10u64),
        (b"flock".to_vec(), 0u64),
        (b"merge-finished".to_vec(), 20u64),
    ];
    assert_eq!(
        merge_files_to_move(&entries),
        Some(vec![b"000000000.data".to_vec(), b"hint-index".to_vec(), b"merge-finished".to_vec()])
    );
    let unfinished = vec![(b"000000000.data".to_vec(), 100u64)];
    assert_eq!(merge_files_to_move(&unfinished), None);
}

#[test]
fn options_are_checked() {
    let ok = Options::with_dir("/tmp/db".to_string());
    assert_eq!(check_options(&ok), None);
    assert_eq!(ok.data_file_size, 256 * 1024 * 1024);
    assert_eq!(ok.file_merge_threshold, 600);
    let mut o = ok.clone();
    o.dir_path = String::new();
    assert_eq!(check_options(&o), Some(Errors::DirPathIsEmpty));
    let mut o = ok.clone();
    o.data_file_size = 0;
    assert_eq!(check_options(&o), Some(Errors::DataFileSizeTooSmall));
    let mut o = ok.clone();
    o.file_merge_threshold = 1001;
    assert_eq!(check_options(&o), Some(Errors::InvalidMergeThreshold));
    o.file_merge_threshold = -1;
    assert_eq!(check_options(&o).is_some(), true);
    assert!(Engine::open(o, vec![], true).is_err());
    let w = WriteBatchOptions::default();
    assert_eq!(w.max_batch_num, 1000);
    assert!(w.sync_writes);
}

#[test]
fn write_batch_refused_on_persistent_index_without_seq_file() {
    let mut o = Options::with_dir("/tmp/db".to_string());
    o.index_type = IndexType::BPlusTree;
    let e = Engine::open(o.clone(), vec![0], false).unwrap();
    assert!(matches!(e.new_write_batch(WriteBatchOptions::default()), Err(Errors::UnableToUseWriteBatch)));
    let mut e2 = Engine::open(o, vec![0], false).unwrap();
    e2.load_seq_no(SeqNoExist::Yes(7));
    assert_eq!(e2.seq_no, 7);
    assert!(e2.new_write_batch(WriteBatchOptions::default()).is_ok());
}
