use data_pile::appender::Appender;
use data_pile::flatfile::FlatFile;
use data_pile::growable_mmap::{GrowableMmap, StorageHeader};
use data_pile::seqno::SeqNoIndex;
use data_pile::{Database, Error};
use memmap2::MmapMut;

/// A stream as a file would hold it: a header that counts `bytes`, and `bytes`.
fn stream_of(bytes: &[u8]) -> Appender {
    let mut header = MmapMut::map_anon(16).unwrap();
    header[..8].copy_from_slice(&(bytes.len() as u64).to_le_bytes());
    let header = StorageHeader::new(header).unwrap();
    let mut data = MmapMut::map_anon(bytes.len()).unwrap();
    data.copy_from_slice(bytes);
    let data = data.make_read_only().unwrap();
    Appender::new(GrowableMmap::new(header, Some(data)).unwrap())
}

fn open(flat: &[u8], offsets: &[u64]) -> Result<Database, Error> {
    let index = SeqNoIndex::serialize(offsets);
    Database::new(FlatFile::new(stream_of(flat)), SeqNoIndex::new(stream_of(&index)))
}

/// Appends to a database whose streams take their maps from the caller.
fn append(db: &mut Database, records: &[&[u8]]) -> Option<usize> {
    let data_size: usize = records.iter().map(|record| record.len()).sum();
    let flat_map = db
        .flatfile()
        .mapping_needed(data_size)
        .map(|request| MmapMut::map_anon(request.len).unwrap());
    let seqno_map = db
        .seqno_index()
        .mapping_needed(records.len() * 8)
        .map(|request| MmapMut::map_anon(request.len).unwrap());
    db.append_with(records, flat_map, seqno_map).unwrap()
}

#[test]
fn open_empty_streams() {
    let db = open(b"", &[]).unwrap();
    assert_eq!(0, db.len());
    assert!(db.is_empty());
    assert_eq!(None, db.get_by_seqno(0));
}

#[test]
fn reopen_and_go_on() {
    let mut db = open(b"\x00\x01\xff", &[0, 2]).unwrap();
    assert_eq!(2, db.len());
    assert_eq!(Some(b"\x00\x01".to_vec()), db.get_by_seqno(0));
    assert_eq!(Some(b"\xff".to_vec()), db.get_by_seqno(1));
    assert_eq!(Some(2), append(&mut db, &[b"x"]));
    assert_eq!(3, db.len());
    assert_eq!(Some(b"x".to_vec()), db.get_by_seqno(2));
    assert_eq!(Some(b"\xff".to_vec()), db.get_by_seqno(1));
    assert_eq!(Some(b"x".to_vec()), db.last());
}

#[test]
fn open_with_a_shorter_index_that_its_header_counts() {
    // ten records of one byte, an index that was cut to three entries
    let db = open(b"0123456789", &[0, 1, 2]).unwrap();
    assert_eq!(3, db.len());
    assert_eq!(Some(b"0".to_vec()), db.get_by_seqno(0));
    assert_eq!(Some(b"1".to_vec()), db.get_by_seqno(1));
    assert_eq!(Some(b"23456789".to_vec()), db.get_by_seqno(2));
}

#[test]
fn open_refuses_an_offset_behind_the_flat_file() {
    assert!(matches!(open(b"abc", &[0, 3]), Err(Error::SeqNoIndexDamaged)));
    assert!(matches!(open(b"abc", &[0, 4]), Err(Error::SeqNoIndexDamaged)));
    assert!(matches!(open(b"", &[0]), Err(Error::SeqNoIndexDamaged)));
    assert!(matches!(open(b"abc", &[u64::MAX]), Err(Error::SeqNoIndexDamaged)));
    assert!(open(b"abc", &[0, 2]).is_ok());
}

#[test]
fn open_looks_only_at_whole_entries() {
    let mut index = SeqNoIndex::serialize(&[0, 1]);
    index.extend_from_slice(&[0xff, 0xff, 0xff]);
    let db = Database::new(
        FlatFile::new(stream_of(b"ab")),
        SeqNoIndex::new(stream_of(&index)),
    )
    .unwrap();
    assert_eq!(2, db.len());
    assert_eq!(Some(b"b".to_vec()), db.last());
}

#[test]
fn read_gives_nothing_for_offsets_that_go_back() {
    let db = open(b"abcdef", &[4, 2, 5]).unwrap();
    assert_eq!(3, db.len());
    assert_eq!(None, db.get_by_seqno(0));
    assert_eq!(Some(b"cde".to_vec()), db.get_by_seqno(1));
    assert_eq!(Some(b"f".to_vec()), db.get_by_seqno(2));
}

#[test]
fn segment_rollover() {
    let header = StorageHeader::create(MmapMut::map_anon(16).unwrap()).unwrap();
    let flat = FlatFile::new(Appender::new(GrowableMmap::new(header, None).unwrap()));
    let header = StorageHeader::create(MmapMut::map_anon(16).unwrap()).unwrap();
    let index = SeqNoIndex::new(Appender::new(GrowableMmap::new(header, None).unwrap()));
    let mut db = Database::new(flat, index).unwrap();
    let count = 100_000usize;
    let mut flat_maps = 0;
    for i in 0..count {
        let record = vec![(i % 256) as u8; 1024];
        if db.flatfile().mapping_needed(1024).is_some() {
            flat_maps += 1;
        }
        append(&mut db, &[&record]);
    }
    assert_eq!(count, db.len());
    // every new map but the last one stands for a map that was frozen
    assert!(flat_maps >= 3);
    for i in 0..count {
        assert_eq!(Some(vec![(i % 256) as u8; 1024]), db.get_by_seqno(i));
    }
}

/// A database on streams that take their maps from the caller, as a
/// database on files does.
fn create() -> Database {
    open(b"", &[]).unwrap()
}

/// Closes the database and opens it again: what its two streams hold is
/// handed to new streams byte by byte.
fn reopen(db: Database) -> Database {
    let mut flat = Vec::new();
    let mut offsets = Vec::new();
    for seqno in 0..db.len() {
        offsets.push(db.seqno_index().get_pointer_to_value(seqno).unwrap());
        flat.extend_from_slice(&db.get_by_seqno(seqno).unwrap());
    }
    assert_eq!(flat.len(), db.flatfile().len());
    drop(db);
    open(&flat, &offsets).unwrap()
}

fn big_write_test(mut db: Database, size_one_record: u64, write_count: u64) {
    let record: Vec<u8> = (0..size_one_record).map(|i| (i % 256) as u8).collect();
    let records = vec![record.as_slice()];

    for _ in 0..write_count {
        append(&mut db, &records);
    }

    for i in 0..write_count {
        let found = db.get_by_seqno(i as usize).unwrap();
        assert_eq!(record, found);
    }
}

fn reopen_test(mut db: Database, size_one_record: u64, write_count: u64, iteration: u64) -> Database {
    let record: Vec<u8> = (0..size_one_record).map(|i| (i % 256) as u8).collect();
    let records = vec![record.as_slice()];

    assert_eq!(iteration * write_count, db.len() as u64);
    for i in 0..write_count {
        append(&mut db, &records);
        assert_eq!(iteration * write_count + i + 1, db.len() as u64);
    }

    for i in 0..(iteration + 1) * write_count {
        let found = db.get_by_seqno(i as usize).unwrap();
        assert_eq!(record, found);
    }

    assert_eq!((iteration + 1) * write_count, db.len() as u64);
    db
}

#[test]
fn backup_test_storage() {
    let one_record_size = 1024;
    let records = 10000;

    let mut db = create();
    for iteration in 0..5 {
        db = reopen(reopen_test(db, one_record_size, records, iteration));
    }
    assert_eq!(50000, db.len());
}

#[test]
fn big_write_storage() {
    let db = create();

    let one_record_size = 1024;
    let records = 50000;
    big_write_test(db, one_record_size, records);
}

#[test]
fn append_with_maps_that_do_not_suit_changes_nothing() {
    let mut db = open(b"ab", &[0, 1]).unwrap();
    let records: Vec<&[u8]> = vec![b"xyz"];
    assert!(matches!(db.append_with(&records, None, None), Err(Error::Mmap(_))));
    let flat_map = MmapMut::map_anon(4096).unwrap();
    assert!(matches!(db.append_with(&records, Some(flat_map), None), Err(Error::Mmap(_))));
    let flat_map = MmapMut::map_anon(4096).unwrap();
    let seqno_map = MmapMut::map_anon(8).unwrap();
    assert!(matches!(
        db.append_with(&records, Some(flat_map), Some(seqno_map)),
        Err(Error::Mmap(_))
    ));
    assert_eq!(2, db.len());
    assert_eq!(2, db.flatfile().len());
    assert_eq!(Some(b"b".to_vec()), db.last());
    assert_eq!(Some(2), append(&mut db, &records));
    assert_eq!(Some(b"xyz".to_vec()), db.last());
    let nothing: Vec<&[u8]> = Vec::new();
    let spare = MmapMut::map_anon(1).unwrap();
    assert_eq!(None, db.append_with(&nothing, Some(spare), None).unwrap());
    assert_eq!(3, db.len());
}

fn header_of(size: u64) -> StorageHeader {
    let mut header = MmapMut::map_anon(16).unwrap();
    header[..8].copy_from_slice(&size.to_le_bytes());
    StorageHeader::new(header).unwrap()
}

#[test]
fn index_file_that_is_shorter_than_its_header_says_is_a_damaged_index() {
    // ten entries were counted, the file was cut to the first three
    let header = header_of(80);
    assert!(matches!(
        SeqNoIndex::existing_mapping(&header, 16 + 24),
        Err(Error::SeqNoIndexDamaged)
    ));
    assert!(matches!(
        SeqNoIndex::existing_mapping(&header, 16 + 79),
        Err(Error::SeqNoIndexDamaged)
    ));
    assert!(SeqNoIndex::existing_mapping(&header, 16 + 80).unwrap().is_some());
    // the header was cut down with the file
    let header = header_of(24);
    let request = SeqNoIndex::existing_mapping(&header, 16 + 24).unwrap().unwrap();
    assert_eq!(24, request.len);
    assert_eq!(16, request.offset);
}

#[test]
fn index_whose_bytes_the_header_does_not_count_is_a_damaged_index() {
    let mut data = MmapMut::map_anon(24).unwrap();
    data.copy_from_slice(&SeqNoIndex::serialize(&[0, 1, 2]));
    let data = data.make_read_only().unwrap();
    assert!(matches!(
        SeqNoIndex::open(header_of(80), Some(data)),
        Err(Error::SeqNoIndexDamaged)
    ));
    assert!(matches!(
        SeqNoIndex::open(header_of(8), None),
        Err(Error::SeqNoIndexDamaged)
    ));
    let mut data = MmapMut::map_anon(24).unwrap();
    data.copy_from_slice(&SeqNoIndex::serialize(&[0, 1, 2]));
    let index = SeqNoIndex::open(header_of(24), Some(data.make_read_only().unwrap())).unwrap();
    assert_eq!(3, index.size());
    assert_eq!(Some(2), index.get_pointer_to_value(2));
}

#[test]
fn database_on_files_makes_no_maps_of_its_own() {
    let mut db = open(b"ab", &[0, 1]).unwrap();
    assert!(matches!(db.put(b"xyz"), Err(Error::Mmap(_))));
    let records: Vec<&[u8]> = vec![b"xyz"];
    assert!(matches!(db.append_get_seqno(&records), Err(Error::Mmap(_))));
    assert_eq!(2, db.len());
    assert!(matches!(db.flatfile().create_mmap(1), Err(Error::Mmap(_))));
    // with maps from the caller it goes on, and what fits needs no map
    assert_eq!(Some(2), append(&mut db, &records));
    assert_eq!(Some(3), db.append_get_seqno(&records).unwrap());
    assert_eq!(4, db.len());
    assert_eq!(Some(b"xyz".to_vec()), db.get_by_seqno(3));
}

#[test]
fn empty_records_are_refused_as_a_whole() {
    let mut db = open(b"ab", &[0, 1]).unwrap();
    let records: Vec<&[u8]> = vec![b"x", b"", b"y"];
    let flat_map = MmapMut::map_anon(4096).unwrap();
    let seqno_map = MmapMut::map_anon(4096).unwrap();
    assert!(matches!(
        db.append_with(&records, Some(flat_map), Some(seqno_map)),
        Err(Error::MmapWrite(_))
    ));
    assert_eq!(2, db.len());
    assert_eq!(2, db.flatfile().len());
    assert_eq!(Some(b"a".to_vec()), db.get_by_seqno(0));
    assert_eq!(Some(b"b".to_vec()), db.get_by_seqno(1));
    assert_eq!(None, db.get_by_seqno(2));
}

#[test]
fn consistency_is_told_for_opened_streams() {
    assert!(open(b"", &[]).unwrap().is_consistent());
    assert!(open(b"\x00\x01\xff", &[0, 2]).unwrap().is_consistent());
    assert!(open(b"0123456789", &[0, 1, 2]).unwrap().is_consistent());
    // offsets that go back
    assert!(!open(b"abcdef", &[4, 2, 5]).unwrap().is_consistent());
    // an empty record
    assert!(!open(b"abc", &[0, 1, 1]).unwrap().is_consistent());
    // bytes before the first record
    assert!(!open(b"abc", &[1, 2]).unwrap().is_consistent());
    // bytes and no record
    assert!(!open(b"abc", &[]).unwrap().is_consistent());
    // a part of an entry at the end of the index
    let mut index = SeqNoIndex::serialize(&[0, 1]);
    index.extend_from_slice(&[0xff, 0xff, 0xff]);
    let db = Database::new(
        FlatFile::new(stream_of(b"ab")),
        SeqNoIndex::new(stream_of(&index)),
    )
    .unwrap();
    assert!(!db.is_consistent());
}

#[test]
fn consistency_is_kept_by_appends() {
    let mut db = open(b"\x00\x01\xff", &[0, 2]).unwrap();
    for i in 0..300usize {
        let record = vec![i as u8; i % 40 + 1];
        append(&mut db, &[&record]);
    }
    assert!(db.is_consistent());
    let all: Vec<Vec<u8>> = db.iter_from_seqno(0).unwrap().collect();
    assert_eq!(302, all.len());
    assert_eq!(all.concat().len(), db.flatfile().len());
}
