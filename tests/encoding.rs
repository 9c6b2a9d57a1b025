use emdrive::components::{DataInstance, DataInstanceRaw, DataType};
use emdrive::encoding::Row;
use emdrive::tokenizer::DataTypeRaw;

#[test]
fn timestamp_encoding() {
    let timestamp = DataInstanceRaw::Timestamp(1_546_300_800);
    let mut blob: Vec<u8> = vec![0; timestamp.encoded_size()];
    let position = timestamp.encode(&mut blob, 0);
    assert_eq!(position, timestamp.encoded_size());
    let (decoded_timestamp, rest) = DataInstanceRaw::try_decode_assume(&blob, DataTypeRaw::Timestamp).unwrap();
    assert_eq!(decoded_timestamp, timestamp);
    assert_eq!(rest.len(), 0);
}

#[test]
fn uuid_encoding() {
    let uuid = uuid::Uuid::parse_str("f81d4fae-7dec-11d0-a765-00a0c91e6bf6").unwrap();
    let value = DataInstanceRaw::Uuid(uuid.as_u128());
    let mut blob: Vec<u8> = vec![0; value.encoded_size()];
    let position = value.encode(&mut blob, 0);
    assert_eq!(position, value.encoded_size());
    assert_eq!(&blob[..], uuid.as_bytes());
    let (decoded_uuid, rest) = DataInstanceRaw::try_decode_assume(&blob, DataTypeRaw::Uuid).unwrap();
    assert_eq!(decoded_uuid, value);
    assert_eq!(rest.len(), 0);
}

#[test]
fn integers_are_big_endian() {
    let mut blob = vec![0u8; 8];
    let end = DataInstanceRaw::UInt32(0x01020304).encode(&mut blob, 2);
    assert_eq!(end, 6);
    assert_eq!(blob, vec![0, 0, 1, 2, 3, 4, 0, 0]);
}

#[test]
fn negative_timestamps_round_trip() {
    let value = DataInstanceRaw::Timestamp(-1);
    let mut blob = vec![0u8; 8];
    value.encode(&mut blob, 0);
    assert_eq!(blob, vec![0xff; 8]);
    assert_eq!(DataInstanceRaw::try_decode_assume(&blob, DataTypeRaw::Timestamp).unwrap().0, value);
}

#[test]
fn out_of_range_timestamps_are_rejected() {
    let blob = i64::MAX.to_be_bytes();
    assert!(DataInstanceRaw::try_decode_assume(&blob, DataTypeRaw::Timestamp).is_err());
    let edge = 253_402_300_799i64.to_be_bytes();
    assert!(DataInstanceRaw::try_decode_assume(&edge, DataTypeRaw::Timestamp).is_ok());
}

#[test]
fn booleans_read_non_zero_as_true() {
    assert_eq!(DataInstanceRaw::try_decode_assume(&[7], DataTypeRaw::Bool).unwrap().0, DataInstanceRaw::Bool(true));
    assert_eq!(DataInstanceRaw::try_decode_assume(&[0], DataTypeRaw::Bool).unwrap().0, DataInstanceRaw::Bool(false));
    let mut blob = vec![0u8; 1];
    DataInstanceRaw::Bool(true).encode(&mut blob, 0);
    assert_eq!(blob, vec![1]);
}

#[test]
fn short_buffers_and_bad_utf8_are_errors() {
    assert!(DataInstanceRaw::try_decode_assume(&[1, 2], DataTypeRaw::UInt32).is_err());
    assert!(DataInstanceRaw::try_decode_assume(&[0, 5, b'a'], DataTypeRaw::String).is_err());
    assert!(DataInstanceRaw::try_decode_assume(&[0, 1, 0xff], DataTypeRaw::String).is_err());
}

#[test]
fn nullable_values_carry_a_marker() {
    let nullable = DataType { raw_type: DataTypeRaw::UInt16, is_nullable: true };
    let mut blob = vec![0u8; 3];
    DataInstance::Nullable(DataInstanceRaw::UInt16(0x0102)).encode(&mut blob, 0);
    assert_eq!(blob, vec![0, 1, 2]);
    assert_eq!(
        DataInstance::try_decode_assume(&blob, &nullable).unwrap().0,
        DataInstance::Nullable(DataInstanceRaw::UInt16(0x0102))
    );
    let mut null_blob = vec![0u8; 1];
    DataInstance::Null.encode(&mut null_blob, 0);
    assert_eq!(null_blob, vec![1]);
    assert_eq!(DataInstance::try_decode_assume(&null_blob, &nullable).unwrap().0, DataInstance::Null);
}

#[test]
fn rows_round_trip_and_report_their_size() {
    let types = vec![
        DataType { raw_type: DataTypeRaw::UInt8, is_nullable: false },
        DataType { raw_type: DataTypeRaw::String, is_nullable: true },
        DataType { raw_type: DataTypeRaw::Bool, is_nullable: false },
    ];
    let row = Row(vec![
        DataInstance::Direct(DataInstanceRaw::UInt8(9)),
        DataInstance::Nullable(DataInstanceRaw::String("hé".to_string())),
        DataInstance::Direct(DataInstanceRaw::Bool(true)),
    ]);
    assert_eq!(row.encoded_size(), 1 + 1 + 2 + 3 + 1);
    let mut blob = vec![0u8; 10];
    let end = row.encode(&mut blob, 0);
    assert_eq!(end, 8);
    let (decoded, rest) = Row::try_decode_assume(&blob, &types).unwrap();
    assert_eq!(decoded, row);
    assert_eq!(rest, &[0, 0]);
    let mut back = vec![0u8; 10];
    assert_eq!(row.encode_back(&mut back, 10), 2);
    assert_eq!(&back[2..], &blob[..8]);
}
