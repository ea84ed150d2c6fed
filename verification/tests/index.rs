use data_pile::index::{same_bytes, Index};
use data_pile::record::Record;
use data_pile::serialization::{BasicRecordSerializer, RecordSerializer};
use data_pile::Database;

#[test]
fn index_put_get_contains() {
    let mut index = Index::empty();
    assert!(!index.contains(b"a"));
    assert_eq!(None, index.get(b"a"));
    index.put(b"a", 10);
    index.put(b"b", 20);
    index.put(b"", 30);
    assert!(index.contains(b"a"));
    assert!(index.contains(b"b"));
    assert!(index.contains(b""));
    assert!(!index.contains(b"ab"));
    assert_eq!(Some(10), index.get(b"a"));
    assert_eq!(Some(20), index.get(b"b"));
    assert_eq!(Some(30), index.get(b""));
    assert_eq!(None, index.get(b"c"));
}

#[test]
fn index_keeps_the_last_offset_of_a_key() {
    let mut index = Index::empty();
    index.put(b"key", 1);
    index.put(b"other", 2);
    index.put(b"key", 3);
    assert_eq!(Some(3), index.get(b"key"));
    assert_eq!(Some(2), index.get(b"other"));
}

#[test]
fn same_bytes_compares_length_and_content() {
    assert!(same_bytes(b"", b""));
    assert!(same_bytes(b"abc", b"abc"));
    assert!(!same_bytes(b"abc", b"abd"));
    assert!(!same_bytes(b"abc", b"ab"));
    assert!(!same_bytes(b"", b"a"));
}

#[test]
fn index_of_the_records_of_a_database() {
    let serializer = BasicRecordSerializer;
    let pairs: Vec<(&[u8], &[u8])> = vec![(b"one", b"1"), (b"two", b"22"), (b"one", b"333")];
    let mut db = Database::memory().unwrap();
    let mut offsets = Vec::new();
    let mut offset = 0;
    for (key, value) in pairs.iter() {
        let record = Record::new(key, value);
        let mut bytes = vec![0u8; serializer.size(&record)];
        serializer.serialize(&record, &mut bytes);
        db.put(&bytes).unwrap();
        offsets.push(offset);
        offset += bytes.len();
    }
    assert_eq!(vec![0, 20, 41], offsets);
    let index = Index::new(db.flatfile(), db.seqno_index(), &serializer);
    assert_eq!(Some(41), index.get(b"one"));
    assert_eq!(Some(20), index.get(b"two"));
    assert_eq!(None, index.get(b"three"));
    assert!(index.contains(b"one"));

    // a record that is no serialized record ends the walk
    db.put(b"short").unwrap();
    let record = Record::new(b"late", b"x");
    let mut bytes = vec![0u8; serializer.size(&record)];
    serializer.serialize(&record, &mut bytes);
    db.put(&bytes).unwrap();
    let index = Index::new(db.flatfile(), db.seqno_index(), &serializer);
    assert_eq!(Some(41), index.get(b"one"));
    assert!(!index.contains(b"late"));
}

#[test]
fn index_of_an_empty_database() {
    let db = Database::memory().unwrap();
    let index = Index::new(db.flatfile(), db.seqno_index(), &BasicRecordSerializer);
    assert!(!index.contains(b""));
    assert_eq!(None, index.get(b"key"));
}
