use data_pile::growable_mmap::{GrowableMmap, MappingRequest, StorageHeader, HEADER_SIZE};
use data_pile::stream::INITIAL_CAPACITY;
use data_pile::Error;
use memmap2::{Mmap, MmapMut};

fn writable(bytes: &[u8]) -> MmapMut {
    let mut map = MmapMut::map_anon(bytes.len()).unwrap();
    map.copy_from_slice(bytes);
    map
}

fn frozen(bytes: &[u8]) -> Mmap {
    writable(bytes).make_read_only().unwrap()
}

fn header_bytes(size: u64) -> Vec<u8> {
    let mut bytes = size.to_le_bytes().to_vec();
    bytes.extend_from_slice(&[0u8; 8]);
    bytes
}

/// Appends to a stream in memory: the stream makes the map that it needs.
fn grow(stream: &mut GrowableMmap, data: &[u8]) {
    let fresh = stream.create_mmap(data.len()).unwrap();
    stream.grow_and_apply(data, fresh).unwrap();
}

/// Appends to a file-backed stream, with an anonymous map in place of a map
/// of the file.
fn grow_on_file(stream: &mut GrowableMmap, data: &[u8]) -> Option<MappingRequest> {
    let request = stream.mapping_needed(data.len());
    let fresh = request.map(|request| MmapMut::map_anon(request.len).unwrap());
    stream.grow_and_apply(data, fresh).unwrap();
    request
}

#[test]
fn header_size_is_sixteen_bytes() {
    assert_eq!(16, HEADER_SIZE);
}

#[test]
fn header_in_memory_counts_nothing() {
    let header = StorageHeader::memory().unwrap();
    assert_eq!(0, header.load_storage_size().unwrap());
}

#[test]
fn header_stores_the_size_little_endian() {
    let header = StorageHeader::new(writable(&header_bytes(0x0102_0304))).unwrap();
    assert_eq!(0x0102_0304, header.load_storage_size().unwrap());
    let bytes = [4u8, 3, 2, 1, 0, 0, 0, 0, 9, 9, 9, 9, 9, 9, 9, 9];
    let header = StorageHeader::new(writable(&bytes)).unwrap();
    assert_eq!(0x0102_0304, header.load_storage_size().unwrap());
}

#[test]
fn header_store_then_load() {
    let mut header = StorageHeader::memory().unwrap();
    header.store_storage_size(12345).unwrap();
    assert_eq!(12345, header.load_storage_size().unwrap());
    header.store_storage_size(usize::MAX).unwrap();
    assert_eq!(usize::MAX, header.load_storage_size().unwrap());
    header.store_storage_size(0).unwrap();
    assert_eq!(0, header.load_storage_size().unwrap());
}

#[test]
fn header_create_resets_the_size() {
    let header = StorageHeader::create(writable(&header_bytes(77))).unwrap();
    assert_eq!(0, header.load_storage_size().unwrap());
}

#[test]
fn header_of_another_length_is_refused() {
    assert!(matches!(StorageHeader::new(writable(&[0u8; 15])), Err(Error::ReadHeader)));
    assert!(matches!(StorageHeader::new(writable(&[0u8; 17])), Err(Error::ReadHeader)));
    assert!(matches!(StorageHeader::create(writable(&[0u8; 8])), Err(Error::ReadHeader)));
}

#[test]
fn stream_in_memory_starts_empty() {
    let stream = GrowableMmap::memory().unwrap();
    assert!(!stream.is_file_backed());
    assert_eq!(0, stream.memory_size());
    assert_eq!(0, stream.data_size().unwrap());
    assert_eq!(None, stream.get_ref_and_apply(0, 0));
    assert_eq!(None, stream.get_ref_and_apply(0, 1));
}

#[test]
fn stream_reads_what_was_written() {
    let mut stream = GrowableMmap::memory().unwrap();
    grow(&mut stream, b"hello");
    assert_eq!(5, stream.memory_size());
    assert_eq!(5, stream.data_size().unwrap());
    assert_eq!(Some(b"hello".to_vec()), stream.get_ref_and_apply(0, 5));
    assert_eq!(Some(b"ell".to_vec()), stream.get_ref_and_apply(1, 3));
    assert_eq!(Some(b"o".to_vec()), stream.get_ref_and_apply(4, 1));
    assert_eq!(Some(Vec::new()), stream.get_ref_and_apply(4, 0));
    assert_eq!(None, stream.get_ref_and_apply(5, 0));
    assert_eq!(None, stream.get_ref_and_apply(4, 2));
    assert_eq!(None, stream.get_ref_and_apply(0, 6));
    assert_eq!(None, stream.get_ref_and_apply(usize::MAX, 1));
    assert_eq!(None, stream.get_ref_and_apply(1, usize::MAX));
}

#[test]
fn stream_in_memory_doubles_its_room() {
    let mut stream = GrowableMmap::memory().unwrap();
    assert_eq!(Some(10), stream.get_new_mmap_size(10));
    grow(&mut stream, &[1u8; 10]);
    // the first map is full
    assert_eq!(Some(20), stream.get_new_mmap_size(1));
    assert_eq!(Some(50), stream.get_new_mmap_size(50));
    grow(&mut stream, &[2u8; 5]);
    // 15 of 20 bytes are left
    assert_eq!(None, stream.get_new_mmap_size(15));
    assert_eq!(Some(40), stream.get_new_mmap_size(16));
    grow(&mut stream, &[3u8; 15]);
    assert_eq!(Some(40), stream.get_new_mmap_size(1));
    assert_eq!(30, stream.memory_size());
}

#[test]
fn stream_never_reads_across_maps() {
    let mut stream = GrowableMmap::memory().unwrap();
    grow(&mut stream, &[1u8; 10]);
    grow(&mut stream, &[2u8; 5]);
    grow(&mut stream, &[3u8; 15]);
    grow(&mut stream, &[4u8; 1]);
    // maps: [0, 10), [10, 30), [30, 31)
    assert_eq!(Some(vec![1u8; 10]), stream.get_ref_and_apply(0, 10));
    assert_eq!(None, stream.get_ref_and_apply(0, 11));
    assert_eq!(None, stream.get_ref_and_apply(9, 2));
    let mut second = vec![2u8; 5];
    second.extend_from_slice(&[3u8; 15]);
    assert_eq!(Some(second), stream.get_ref_and_apply(10, 20));
    assert_eq!(Some(vec![2u8, 3u8]), stream.get_ref_and_apply(14, 2));
    assert_eq!(None, stream.get_ref_and_apply(10, 21));
    assert_eq!(Some(vec![4u8]), stream.get_ref_and_apply(30, 1));
    assert_eq!(None, stream.get_ref_and_apply(31, 0));
}

#[test]
fn stream_on_a_file_starts_with_the_initial_capacity() {
    assert_eq!(4096, INITIAL_CAPACITY);
    let header = StorageHeader::create(writable(&[0u8; 16])).unwrap();
    let mut stream = GrowableMmap::new(header, None).unwrap();
    assert!(stream.is_file_backed());
    assert_eq!(
        Some(MappingRequest { len: 4096, offset: 16 }),
        stream.mapping_needed(1)
    );
    assert_eq!(
        Some(MappingRequest { len: 5000, offset: 16 }),
        stream.mapping_needed(5000)
    );
    assert_eq!(
        Some(MappingRequest { len: 4096, offset: 16 }),
        grow_on_file(&mut stream, &[7u8; 100])
    );
    assert_eq!(None, stream.mapping_needed(3996));
    assert_eq!(
        Some(MappingRequest { len: 8192, offset: 116 }),
        stream.mapping_needed(3997)
    );
    assert_eq!(None, grow_on_file(&mut stream, &[8u8; 3996]));
    assert_eq!(
        Some(MappingRequest { len: 8192, offset: 16 + 4096 }),
        grow_on_file(&mut stream, &[9u8; 1])
    );
    assert_eq!(
        Some(MappingRequest { len: 20000, offset: 16 + 4097 }),
        stream.mapping_needed(20000)
    );
    assert_eq!(4097, stream.memory_size());
    assert_eq!(4097, stream.data_size().unwrap());
    assert_eq!(Some(vec![7u8; 100]), stream.get_ref_and_apply(0, 100));
    assert_eq!(Some(vec![8u8; 3996]), stream.get_ref_and_apply(100, 3996));
    assert_eq!(None, stream.get_ref_and_apply(100, 3997));
    assert_eq!(Some(vec![9u8]), stream.get_ref_and_apply(4096, 1));
}

#[test]
fn stream_opens_what_a_file_holds() {
    let header = StorageHeader::new(writable(&header_bytes(6))).unwrap();
    let mut stream = GrowableMmap::new(header, Some(frozen(b"abcdef"))).unwrap();
    assert_eq!(6, stream.memory_size());
    assert_eq!(Some(b"abcdef".to_vec()), stream.get_ref_and_apply(0, 6));
    assert_eq!(Some(b"cd".to_vec()), stream.get_ref_and_apply(2, 2));
    assert_eq!(None, stream.get_ref_and_apply(6, 0));
    assert_eq!(
        Some(MappingRequest { len: 4096, offset: 22 }),
        grow_on_file(&mut stream, b"gh")
    );
    assert_eq!(8, stream.memory_size());
    assert_eq!(Some(b"abcdef".to_vec()), stream.get_ref_and_apply(0, 6));
    assert_eq!(None, stream.get_ref_and_apply(5, 2));
    assert_eq!(Some(b"gh".to_vec()), stream.get_ref_and_apply(6, 2));
}

#[test]
fn stream_opens_an_empty_file() {
    let header = StorageHeader::new(writable(&header_bytes(0))).unwrap();
    let stream = GrowableMmap::new(header, Some(frozen(b""))).unwrap();
    assert_eq!(0, stream.memory_size());
    assert_eq!(None, stream.get_ref_and_apply(0, 0));
}

#[test]
fn stream_refuses_data_that_the_header_does_not_count() {
    let header = StorageHeader::new(writable(&header_bytes(5))).unwrap();
    assert!(matches!(
        GrowableMmap::new(header, Some(frozen(b"abcdef"))),
        Err(Error::DataFileDamaged)
    ));
    let header = StorageHeader::new(writable(&header_bytes(7))).unwrap();
    assert!(matches!(
        GrowableMmap::new(header, Some(frozen(b"abcdef"))),
        Err(Error::DataFileDamaged)
    ));
    let header = StorageHeader::new(writable(&header_bytes(1))).unwrap();
    assert!(matches!(GrowableMmap::new(header, None), Err(Error::DataFileDamaged)));
}

#[test]
fn stream_reports_a_map_that_cannot_be_made() {
    let mut stream = GrowableMmap::memory().unwrap();
    assert_eq!(Some(usize::MAX), stream.get_new_mmap_size(usize::MAX));
    assert!(matches!(stream.create_mmap(usize::MAX), Err(Error::Mmap(_))));
    grow(&mut stream, b"abc");
    assert!(matches!(stream.create_mmap(usize::MAX - 3), Err(Error::Mmap(_))));
    assert_eq!(3, stream.memory_size());
    assert_eq!(Some(b"abc".to_vec()), stream.get_ref_and_apply(0, 3));
}

#[test]
fn stream_needs_no_map_for_what_fits() {
    let mut stream = GrowableMmap::memory().unwrap();
    grow(&mut stream, &[1u8; 8]);
    grow(&mut stream, &[2u8; 4]);
    // 4 of 16 bytes are taken
    assert!(stream.create_mmap(12).unwrap().is_none());
    assert!(stream.create_mmap(13).unwrap().is_some());
    assert_eq!(None, stream.mapping_needed(12));
    assert_eq!(
        Some(MappingRequest { len: 32, offset: 28 }),
        stream.mapping_needed(13)
    );
}

#[test]
fn stream_refuses_a_map_that_it_did_not_ask_for() {
    let mut stream = GrowableMmap::memory().unwrap();
    // a map is needed and none is given
    assert!(!stream.accepts(4, &None));
    assert!(matches!(stream.grow_and_apply(b"abcd", None), Err(Error::Mmap(_))));
    // a map of another length
    let short = MmapMut::map_anon(3).unwrap();
    assert!(matches!(stream.grow_and_apply(b"abcd", Some(short)), Err(Error::Mmap(_))));
    let long = Some(MmapMut::map_anon(5).unwrap());
    assert!(!stream.accepts(4, &long));
    assert!(matches!(stream.grow_and_apply(b"abcd", long), Err(Error::Mmap(_))));
    assert_eq!(0, stream.memory_size());
    let right = Some(MmapMut::map_anon(4).unwrap());
    assert!(stream.accepts(4, &right));
    stream.grow_and_apply(b"abcd", right).unwrap();
    grow(&mut stream, b"ef");
    // no map is needed and one is given
    assert!(stream.accepts(1, &None));
    let spare = MmapMut::map_anon(16).unwrap();
    assert!(matches!(stream.grow_and_apply(b"g", Some(spare)), Err(Error::Mmap(_))));
    assert_eq!(6, stream.memory_size());
    assert_eq!(Some(b"ef".to_vec()), stream.get_ref_and_apply(4, 2));
}

#[test]
fn stream_maps_what_the_header_counts() {
    let header = StorageHeader::new(writable(&header_bytes(100))).unwrap();
    assert_eq!(
        Some(MappingRequest { len: 100, offset: 16 }),
        GrowableMmap::existing_mapping(&header, 116).unwrap()
    );
    // room behind the counted bytes is left out
    assert_eq!(
        Some(MappingRequest { len: 100, offset: 16 }),
        GrowableMmap::existing_mapping(&header, 4112).unwrap()
    );
    assert!(matches!(
        GrowableMmap::existing_mapping(&header, 115),
        Err(Error::DataFileDamaged)
    ));
    assert!(matches!(
        GrowableMmap::existing_mapping(&header, 0),
        Err(Error::DataFileDamaged)
    ));
    let header = StorageHeader::new(writable(&header_bytes(0))).unwrap();
    assert_eq!(None, GrowableMmap::existing_mapping(&header, 16).unwrap());
    assert_eq!(
        Some(MappingRequest { len: 0, offset: 16 }),
        GrowableMmap::existing_mapping(&header, 4112).unwrap()
    );
    assert!(matches!(
        GrowableMmap::existing_mapping(&header, 15),
        Err(Error::DataFileDamaged)
    ));
}
