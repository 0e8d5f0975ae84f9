use flash_kv::index::{compare_keys, IndexIterator, SortedIndex};
use flash_kv::option::IteratorOptions;
use flash_kv::log_record::LogRecordPos;

fn pos(n: u64) -> LogRecordPos {
    LogRecordPos { file_id: 0, offset: n, size: 10 }
}

#[test]
fn compare_is_lexicographic() {
    assert!(compare_keys(b"a", b"b") < 0);
    assert!(compare_keys(b"ab", b"a") > 0);
    assert!(compare_keys(b"", b"a") < 0);
    assert_eq!(compare_keys(b"abc", b"abc"), 0);
    assert!(compare_keys(b"b", b"abc") > 0);
}

#[test]
fn index_put_get_delete() {
    let mut idx = SortedIndex::new();
    assert_eq!(idx.put(b"b".to_vec(), pos(1)), None);
    assert_eq!(idx.put(b"a".to_vec(), pos(2)), None);
    assert_eq!(idx.put(b"c".to_vec(), pos(3)), None);
    assert_eq!(idx.get(b"a"), Some(&pos(2)));
    assert_eq!(idx.put(b"a".to_vec(), pos(4)), Some(pos(2)));
    assert_eq!(idx.get(b"a"), Some(&pos(4)));
    assert_eq!(idx.len(), 3);
    assert_eq!(idx.list_keys(), vec![b"a".to_vec(), b"b".to_vec(), b"c".to_vec()]);
    assert_eq!(idx.delete(b"b"), Some(pos(1)));
    assert_eq!(idx.delete(b"b"), None);
    assert_eq!(idx.get(b"b"), None);
    assert_eq!(idx.list_keys(), vec![b"a".to_vec(), b"c".to_vec()]);
    assert_eq!(idx.len(), 2);
}

#[test]
fn index_keeps_order_for_many_keys() {
    let mut idx = SortedIndex::new();
    for i in (0..500u64).rev() {
        idx.put(format!("key-{:05}", (i * 7919) % 500).into_bytes(), pos(i));
    }
    let keys = idx.list_keys();
    assert_eq!(keys.len(), 500);
    for w in keys.windows(2) {
        assert!(w[0] < w[1]);
    }
}

#[test]
fn iterator_walks_in_order_with_prefix_and_seek() {
    let mut idx = SortedIndex::new();
    for (i, k) in ["aa", "ab", "b", "ac", "c"].iter().enumerate() {
        idx.put(k.as_bytes().to_vec(), pos(i as u64));
    }
    let mut it = idx.iterator(IteratorOptions::default());
    let mut seen = Vec::new();
    while let Some((k, _)) = it.next() {
        seen.push(String::from_utf8(k).unwrap());
    }
    assert_eq!(seen, vec!["aa", "ab", "ac", "b", "c"]);

    let mut it = idx.iterator(IteratorOptions { prefix: b"a".to_vec(), reverse: true });
    let mut seen = Vec::new();
    while let Some((k, p)) = it.next() {
        seen.push((String::from_utf8(k).unwrap(), p.offset));
    }
    assert_eq!(seen, vec![("ac".to_string(), 3), ("ab".to_string(), 1), ("aa".to_string(), 0)]);

    let mut it = idx.iterator(IteratorOptions::default());
    it.seek(b"ab".to_vec());
    assert_eq!(it.next().unwrap().0, b"ab".to_vec());
    it.seek(b"abc".to_vec());
    assert_eq!(it.next().unwrap().0, b"ac".to_vec());
    it.seek(b"d".to_vec());
    assert!(it.next().is_none());
    it.rewind();
    assert_eq!(it.next().unwrap().0, b"aa".to_vec());

    let mut rev = idx.iterator(IteratorOptions { prefix: Vec::new(), reverse: true });
    rev.seek(b"abc".to_vec());
    assert_eq!(rev.next().unwrap().0, b"ab".to_vec());
}
