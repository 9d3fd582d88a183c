use universe::util::varint::{read_varint, write_varint, zigzag_decode, zigzag_encode, VarInt, VarIntArray};

#[test]
fn test_varint_u64_encoding() {
    let test_values = vec![0, 1, 127, 128, 255, 256, 16383, 16384, u64::MAX];

    for &value in &test_values {
        let encoded = VarInt::encode_u64(value).unwrap();
        let (decoded, bytes_read) = VarInt::decode_u64(&encoded).unwrap();

        assert_eq!(value, decoded);
        assert_eq!(bytes_read, encoded.len());
    }
}

#[test]
fn test_varint_i64_encoding() {
    let test_values = vec![0, 1, -1, 127, -127, 128, -128, i64::MAX, i64::MIN];

    for &value in &test_values {
        let encoded = VarInt::encode_i64(value).unwrap();
        let (decoded, bytes_read) = VarInt::decode_i64(&encoded).unwrap();

        assert_eq!(value, decoded);
        assert_eq!(bytes_read, encoded.len());
    }
}

#[test]
fn test_zigzag_encoding() {
    let test_cases = vec![
        (0, 0),
        (-1, 1),
        (1, 2),
        (-2, 3),
        (2, 4),
        (i64::MAX, u64::MAX - 1),
        (i64::MIN, u64::MAX),
    ];

    for (signed, expected_unsigned) in test_cases {
        let encoded = VarInt::zigzag_encode(signed);
        assert_eq!(encoded, expected_unsigned);

        let decoded = VarInt::zigzag_decode(encoded);
        assert_eq!(decoded, signed);
    }
}

#[test]
fn test_varint_array_encoding() {
    let test_values = vec![0, 1, 127, 128, 16383, 16384];

    let encoded = VarIntArray::encode_u64_array(&test_values).unwrap();
    let (decoded, bytes_read) = VarIntArray::decode_u64_array(&encoded).unwrap();

    assert_eq!(test_values, decoded);
    assert_eq!(bytes_read, encoded.len());
}

#[test]
fn test_varint_i64_array_encoding() {
    let test_values = vec![0, -1, 1, -127, 127, -128, 128];

    let encoded = VarIntArray::encode_i64_array(&test_values).unwrap();
    let (decoded, bytes_read) = VarIntArray::decode_i64_array(&encoded).unwrap();

    assert_eq!(test_values, decoded);
    assert_eq!(bytes_read, encoded.len());
}

#[test]
fn test_encoded_length_estimation() {
    let test_cases = vec![(0, 1), (127, 1), (128, 2), (16383, 2), (16384, 3)];

    for (value, expected_length) in test_cases {
        let estimated = VarInt::encoded_length_u64(value);
        let actual = VarInt::encode_u64(value).unwrap().len();

        assert_eq!(estimated, expected_length);
        assert_eq!(actual, expected_length);
    }
}

#[test]
fn test_empty_array() {
    let empty_array: Vec<u64> = Vec::new();

    let encoded = VarIntArray::encode_u64_array(&empty_array).unwrap();
    let (decoded, bytes_read) = VarIntArray::decode_u64_array(&encoded).unwrap();

    assert_eq!(empty_array, decoded);
    assert_eq!(bytes_read, encoded.len());
    assert_eq!(encoded.len(), 1);
}

#[test]
fn varint_known_encodings() {
    assert_eq!(VarInt::encode_u64(300).unwrap(), vec![0xac, 0x02]);
    assert_eq!(VarInt::encode_u64(0).unwrap(), vec![0x00]);
    assert_eq!(VarInt::encode_u64(u64::MAX).unwrap().len(), 10);
    assert_eq!(VarInt::encode_i64(-1).unwrap(), vec![0x01]);
    assert_eq!(VarInt::encoded_length_i64(-64), 1);
    assert_eq!(VarInt::encoded_length_i64(64), 2);
}

#[test]
fn varint_decode_reads_only_the_first_number() {
    let (v, n) = VarInt::decode_u64(&[0xac, 0x02, 0xff]).unwrap();
    assert_eq!((v, n), (300, 2));
}

#[test]
fn varint_decode_errors() {
    assert!(VarInt::decode_u64(&[]).is_err());
    assert!(VarInt::decode_u64(&[0x80, 0x80]).is_err());
    assert!(VarIntArray::decode_u64_array(&[0x02, 0x01]).is_err());
}

#[test]
fn varint_stream_helpers() {
    let mut buf = Vec::new();
    write_varint(&mut buf, 16384).unwrap();
    write_varint(&mut buf, 5).unwrap();
    let mut reader: &[u8] = &buf;
    assert_eq!(read_varint(&mut reader).unwrap(), 16384);
    assert_eq!(read_varint(&mut reader).unwrap(), 5);
    assert!(reader.is_empty());
    assert_eq!(zigzag_encode(-3), 5);
    assert_eq!(zigzag_decode(5), -3);
}

#[test]
fn varint_estimated_array_length() {
    let values = [0u64, 128, 16384];
    let encoded = VarIntArray::encode_u64_array(&values).unwrap();
    assert_eq!(VarIntArray::estimated_encoded_length_u64(&values), encoded.len());
    assert_eq!(encoded.len(), 1 + 1 + 2 + 3);
}

#[test]
fn test_huge_declared_count_is_refused() {
    let mut data = VarInt::encode_u64(u64::MAX).unwrap();
    data.push(1);
    assert!(VarIntArray::decode_u64_array(&data).is_err());
    assert!(VarIntArray::decode_i64_array(&data).is_err());
}
