use data_pile::appender::Appender;
use data_pile::flatfile::FlatFile;
use data_pile::seqno::{SeqNoIndex, ENTRY_SIZE};

#[test]
fn appender_counts_and_reads_valid_bytes() {
    let mut appender = Appender::memory().unwrap();
    assert_eq!(0, appender.memory_size());
    assert_eq!(None, appender.get_data(0, 1));
    let fresh = appender.create_mmap(3).unwrap();
    appender.append(b"abc", fresh).unwrap();
    assert_eq!(3, appender.memory_size());
    assert_eq!(Some(b"abc".to_vec()), appender.get_data(0, 3));
    assert_eq!(Some(b"c".to_vec()), appender.get_data(2, 1));
    assert_eq!(None, appender.get_data(3, 0));
    assert_eq!(None, appender.get_data(3, 1));
    assert_eq!(None, appender.get_data(2, 2));
}

#[test]
fn appender_ignores_an_empty_append() {
    let mut appender = Appender::memory().unwrap();
    appender.append(b"", None).unwrap();
    assert_eq!(0, appender.memory_size());
    let fresh = appender.create_mmap(2).unwrap();
    appender.append(b"xy", fresh).unwrap();
    appender.append(b"", None).unwrap();
    assert_eq!(2, appender.memory_size());
    assert_eq!(Some(b"xy".to_vec()), appender.get_data(0, 2));
}

#[test]
fn flatfile_flattens_records() {
    let records: Vec<&[u8]> = vec![b"ab", b"c", b"def"];
    assert_eq!(b"abcdef".to_vec(), FlatFile::flatten(&records));
    let nothing: Vec<&[u8]> = Vec::new();
    assert_eq!(Vec::<u8>::new(), FlatFile::flatten(&nothing));
}

#[test]
fn flatfile_reads_records_by_offset_and_length() {
    let mut flatfile = FlatFile::memory().unwrap();
    let records: Vec<&[u8]> = vec![b"ab", b"c", b"def"];
    let fresh = flatfile.create_mmap(6).unwrap();
    flatfile.append(&records, fresh).unwrap();
    assert_eq!(6, flatfile.len());
    let mut offset = 0;
    for record in records.iter() {
        let drive_record = flatfile.get_record_at_offset(offset, record.len()).unwrap();
        assert_eq!(*record, drive_record.as_slice());
        offset += drive_record.len();
    }
    assert_eq!(None, flatfile.get_record_at_offset(6, 1));
    assert_eq!(None, flatfile.get_record_at_offset(4, 3));
    let nothing: Vec<&[u8]> = Vec::new();
    flatfile.append(&nothing, None).unwrap();
    assert_eq!(6, flatfile.len());
}

#[test]
fn seqno_index_entry_is_eight_bytes_little_endian() {
    assert_eq!(8, ENTRY_SIZE);
    assert_eq!(
        vec![1u8, 0, 0, 0, 0, 0, 0, 0, 0x08, 0x07, 0x06, 0x05, 0x04, 0x03, 0x02, 0x01],
        SeqNoIndex::serialize(&[1, 0x0102_0304_0506_0708])
    );
    assert_eq!(Vec::<u8>::new(), SeqNoIndex::serialize(&[]));
}

#[test]
fn seqno_index_read_write() {
    let records: Vec<u64> = vec![0, 5, 17, u64::MAX, 3];
    let mut index = SeqNoIndex::memory().unwrap();
    let fresh = index.create_mmap(records.len() * ENTRY_SIZE).unwrap();
    assert_eq!(Some(0), index.append(&records, fresh).unwrap());
    assert_eq!(5, index.size());
    for (i, record) in records.iter().enumerate() {
        let drive_record = index.get_pointer_to_value(i).unwrap();
        assert_eq!(*record, drive_record);
    }
    assert_eq!(None, index.get_pointer_to_value(5));
    assert_eq!(None, index.get_pointer_to_value(usize::MAX));
    assert_eq!(None, index.get_pointer_to_value(usize::MAX / 8 + 1));
}

#[test]
fn seqno_index_seq_number() {
    let records: Vec<u64> = vec![10, 20, 30];
    let mut index = SeqNoIndex::memory().unwrap();
    let checks_count = 100usize;
    for i in 0..checks_count {
        let fresh = index.create_mmap(records.len() * ENTRY_SIZE).unwrap();
        let result = index.append(&records, fresh).unwrap();
        assert_eq!(result.unwrap(), i * records.len());
        assert!(index
            .get_pointer_to_value((i + 1) * records.len())
            .is_none());
        assert!(index
            .get_pointer_to_value(i * records.len() + records.len() - 1)
            .is_some());
    }
    assert_eq!(300, index.size());
    assert_eq!(Some(20), index.get_pointer_to_value(298));
}

#[test]
fn seqno_index_without_offsets_gives_no_number() {
    let mut index = SeqNoIndex::memory().unwrap();
    assert_eq!(None, index.append(&[], None).unwrap());
    assert_eq!(0, index.size());
    assert_eq!(None, index.get_pointer_to_value(0));
}

#[test]
fn flatfile_sums_the_sizes_of_records() {
    let records: Vec<&[u8]> = vec![b"ab", b"c", b"def"];
    assert_eq!(6, FlatFile::size_of(&records));
    let nothing: Vec<&[u8]> = Vec::new();
    assert_eq!(0, FlatFile::size_of(&nothing));
}

#[test]
fn flatfile_refuses_an_empty_record() {
    let mut flatfile = FlatFile::memory().unwrap();
    let records: Vec<&[u8]> = vec![b"ab", b""];
    assert!(!FlatFile::filled(&records));
    let fresh = flatfile.create_mmap(2).unwrap();
    assert!(matches!(flatfile.append(&records, fresh), Err(data_pile::Error::MmapWrite(_))));
    assert_eq!(0, flatfile.len());
    let records: Vec<&[u8]> = vec![b"ab", b"c"];
    assert!(FlatFile::filled(&records));
    let nothing: Vec<&[u8]> = Vec::new();
    assert!(FlatFile::filled(&nothing));
}
