use data_pile::record::Record;
use data_pile::serialization::{BasicRecordSerializer, ConstKeyLenRecordSerializer, RecordSerializer};
use data_pile::testutils::{FixLenTestData, TestData};
use quickcheck::{Arbitrary, Gen, QuickCheck};

#[derive(Debug, Clone)]
struct AnyData(TestData);

impl Arbitrary for AnyData {
    fn arbitrary(g: &mut Gen) -> Self {
        AnyData(TestData {
            key: Arbitrary::arbitrary(g),
            value: Arbitrary::arbitrary(g),
        })
    }
}

#[derive(Debug, Clone)]
struct AnyFixLenData(FixLenTestData);

impl Arbitrary for AnyFixLenData {
    fn arbitrary(g: &mut Gen) -> Self {
        AnyFixLenData(FixLenTestData {
            key: {
                let mut key = [0u8; 32];
                for i in 0..key.len() {
                    key[i] = Arbitrary::arbitrary(g);
                }
                key
            },
            value: Arbitrary::arbitrary(g),
        })
    }
}

fn sanity_basic(data: AnyData) -> bool {
    let data = data.0;
    let record = Record::new(&data.key, &data.value);
    let mut slice = vec![0u8; BasicRecordSerializer.size(&record)];
    BasicRecordSerializer.serialize(&record, &mut slice);
    let deser_output = BasicRecordSerializer.deserialize(&slice).unwrap();
    data.key.as_slice() == deser_output.key() && data.value.as_slice() == deser_output.value()
}

fn sanity_const_key_len(data: AnyFixLenData) -> bool {
    let data = data.0;
    let serializer = ConstKeyLenRecordSerializer::new(32);
    let record = Record::new(&data.key, &data.value);
    let mut slice = vec![0u8; serializer.size(&record)];
    serializer.serialize(&record, &mut slice);
    let deser_output = serializer.deserialize(&slice).unwrap();
    &data.key == deser_output.key() && data.value.as_slice() == deser_output.value()
}

#[test]
fn serialization_sanity_basic() {
    QuickCheck::new().quickcheck(sanity_basic as fn(AnyData) -> bool);
}

#[test]
fn serialization_sanity_const_key_len() {
    QuickCheck::new().quickcheck(sanity_const_key_len as fn(AnyFixLenData) -> bool);
}

#[test]
fn record_keeps_key_and_value() {
    let record = Record::new(b"key", b"value");
    assert_eq!(b"key", record.key());
    assert_eq!(b"value", record.value());
}

#[test]
fn basic_layout_is_two_lengths_then_key_then_value() {
    let record = Record::new(b"ab", b"xyz");
    assert_eq!(21, BasicRecordSerializer.size(&record));
    let mut slice = vec![0xffu8; 23];
    BasicRecordSerializer.serialize(&record, &mut slice);
    assert_eq!(
        vec![
            2u8, 0, 0, 0, 0, 0, 0, 0, 3, 0, 0, 0, 0, 0, 0, 0, b'a', b'b', b'x', b'y', b'z', 0xff,
            0xff
        ],
        slice
    );
    let back = BasicRecordSerializer.deserialize(&slice).unwrap();
    assert_eq!(b"ab", back.key());
    assert_eq!(b"xyz", back.value());
}

#[test]
fn basic_refuses_what_is_cut_short() {
    let record = Record::new(b"ab", b"xyz");
    let mut slice = vec![0u8; 21];
    BasicRecordSerializer.serialize(&record, &mut slice);
    assert!(BasicRecordSerializer.deserialize(&slice[..20]).is_none());
    assert!(BasicRecordSerializer.deserialize(&slice[..16]).is_none());
    assert!(BasicRecordSerializer.deserialize(&slice[..15]).is_none());
    assert!(BasicRecordSerializer.deserialize(&[]).is_none());
    let mut huge = vec![0xffu8; 16];
    huge.extend_from_slice(b"abc");
    assert!(BasicRecordSerializer.deserialize(&huge).is_none());
}

#[test]
fn basic_reads_an_empty_record() {
    let record = Record::new(b"", b"");
    assert_eq!(16, BasicRecordSerializer.size(&record));
    let back = BasicRecordSerializer.deserialize(&[0u8; 16]).unwrap();
    assert!(back.key().is_empty());
    assert!(back.value().is_empty());
}

#[test]
fn const_key_layout_is_value_length_then_key_then_value() {
    let serializer = ConstKeyLenRecordSerializer::new(2);
    let record = Record::new(b"ab", b"xyz");
    assert_eq!(13, serializer.size(&record));
    let mut slice = vec![0xffu8; 14];
    serializer.serialize(&record, &mut slice);
    assert_eq!(
        vec![3u8, 0, 0, 0, 0, 0, 0, 0, b'a', b'b', b'x', b'y', b'z', 0xff],
        slice
    );
    let back = serializer.deserialize(&slice).unwrap();
    assert_eq!(b"ab", back.key());
    assert_eq!(b"xyz", back.value());
    assert!(serializer.deserialize(&slice[..12]).is_none());
    assert!(serializer.deserialize(&slice[..9]).is_none());
    assert!(serializer.deserialize(&slice[..7]).is_none());
}

#[test]
fn serializer_by_reference_is_the_serializer() {
    let serializer = &BasicRecordSerializer;
    let record = Record::new(b"k", b"v");
    assert_eq!(18, RecordSerializer::size(&serializer, &record));
    let mut slice = vec![0u8; 18];
    RecordSerializer::serialize(&serializer, &record, &mut slice);
    let back = RecordSerializer::deserialize(&serializer, &slice).unwrap();
    assert_eq!(b"k", back.key());
    assert_eq!(b"v", back.value());
}
