use universe::canonical::{canonical_content_payload, compute_canonical_content_hash, CanonicalEncoder};
use universe::cbor::CborValue;

#[test]
fn test_canonical_integer_encoding() {
    let encoder = CanonicalEncoder::new();

    let pos_int = CborValue::Integer(42);
    let encoded = encoder.encode_cbor_value(&pos_int).unwrap();
    assert!(!encoded.is_empty());
    assert_eq!(encoded[0], 0x10);

    let neg_int = CborValue::Integer(-42);
    let encoded = encoder.encode_cbor_value(&neg_int).unwrap();
    assert!(!encoded.is_empty());
    assert_eq!(encoded[0], 0x11);
}

#[test]
fn test_canonical_string_encoding() {
    let encoder = CanonicalEncoder::new();

    let test_string = CborValue::Text("hello".to_string());
    let encoded = encoder.encode_cbor_value(&test_string).unwrap();

    assert!(!encoded.is_empty());
    assert_eq!(encoded[0], 0x03);

    let expected_utf8 = b"hello";
    assert!(encoded.ends_with(expected_utf8));
}

#[test]
fn test_canonical_map_ordering() {
    let encoder = CanonicalEncoder::new();

    let map_entries = vec![
        (CborValue::Text("zebra".to_string()), CborValue::Integer(1)),
        (CborValue::Text("apple".to_string()), CborValue::Integer(2)),
        (CborValue::Integer(100), CborValue::Text("number".to_string())),
    ];
    let map_value = CborValue::Dict(map_entries);

    let encoded1 = encoder.encode_cbor_value(&map_value).unwrap();

    let map_entries2 = vec![
        (CborValue::Integer(100), CborValue::Text("number".to_string())),
        (CborValue::Text("apple".to_string()), CborValue::Integer(2)),
        (CborValue::Text("zebra".to_string()), CborValue::Integer(1)),
    ];
    let map_value2 = CborValue::Dict(map_entries2);

    let encoded2 = encoder.encode_cbor_value(&map_value2).unwrap();

    assert_eq!(encoded1, encoded2);
}

#[test]
fn test_canonical_content_hash() {
    let raw_data = b"test payload data";

    let hash1 = compute_canonical_content_hash(0x00, 0x0000, None, 0x00, raw_data).unwrap();

    let hash2 = compute_canonical_content_hash(0x00, 0x0000, None, 0x00, raw_data).unwrap();

    assert_eq!(hash1, hash2);
    assert_eq!(hash1.len(), 32);
}

#[test]
fn test_float_canonicalization() {
    let encoder = CanonicalEncoder::strict();

    let normal_float = CborValue::Float(3.14159f64.to_bits());
    let encoded = encoder.encode_cbor_value(&normal_float).unwrap();
    assert_eq!(encoded[0], 0x40);

    let zero_float = CborValue::Float(0.0f64.to_bits());
    let neg_zero_float = CborValue::Float((-0.0f64).to_bits());

    let encoded_zero = encoder.encode_cbor_value(&zero_float).unwrap();
    let encoded_neg_zero = encoder.encode_cbor_value(&neg_zero_float).unwrap();

    assert_eq!(encoded_zero, encoded_neg_zero);
}

#[test]
fn canonical_known_bytes() {
    let encoder = CanonicalEncoder::new();
    assert_eq!(encoder.encode_cbor_value(&CborValue::Integer(1)).unwrap(), vec![0x10, 0x01]);
    assert_eq!(encoder.encode_cbor_value(&CborValue::Integer(-1)).unwrap(), vec![0x11, 0x01]);
    assert_eq!(
        encoder.encode_cbor_value(&CborValue::Text("ab".to_string())).unwrap(),
        vec![0x03, 0x02, b'a', b'b']
    );
    assert_eq!(encoder.encode_cbor_value(&CborValue::Bool(true)).unwrap(), vec![0x01]);
    assert_eq!(encoder.encode_cbor_value(&CborValue::Null).unwrap(), vec![0x07]);
    assert_eq!(
        encoder.encode_cbor_value(&CborValue::Float(1.0f64.to_bits())).unwrap(),
        [vec![0x40], 1.0f64.to_bits().to_be_bytes().to_vec()].concat()
    );
}

#[test]
fn strict_encoder_refuses_nan() {
    let strict = CanonicalEncoder::strict();
    assert!(strict.encode_cbor_value(&CborValue::Float(f64::NAN.to_bits())).is_err());
    let fast = CanonicalEncoder::fast();
    assert!(fast.encode_cbor_value(&CborValue::Float(f64::NAN.to_bits())).is_ok());
}

#[test]
fn content_payload_is_the_canonical_encoding_of_the_value() {
    let make = || {
        CborValue::Dict(vec![
            (CborValue::Text("b".to_string()), CborValue::Integer(2)),
            (CborValue::Text("a".to_string()), CborValue::Integer(1)),
        ])
    };
    let value = make();
    let mut raw = Vec::new();
    let cv = ciborium::Value::Map(vec![
        (ciborium::Value::Text("b".to_string()), ciborium::Value::Integer(2.into())),
        (ciborium::Value::Text("a".to_string()), ciborium::Value::Integer(1.into())),
    ]);
    ciborium::ser::into_writer(&cv, &mut raw).unwrap();
    let hash = compute_canonical_content_hash(0x01, 0, None, 0, &raw).unwrap();
    let payload = canonical_content_payload(0x01, 0, None, 0, &raw, Some(make())).unwrap();
    assert_eq!(hash, blake3::hash(&payload).as_bytes().to_vec());
    let encoded = CanonicalEncoder::new().encode_cbor_value(&value).unwrap();
    assert!(payload.ends_with(&encoded));
}

#[test]
fn test_canonical_text_is_nfc() {
    let encoder = CanonicalEncoder::new();
    let a = encoder.encode_cbor_value(&CborValue::Text("e\u{301}".to_string())).unwrap();
    let b = encoder.encode_cbor_value(&CborValue::Text("\u{e9}".to_string())).unwrap();
    assert_eq!(a, b);
    let fast = CanonicalEncoder::fast();
    let c = fast.encode_cbor_value(&CborValue::Text("e\u{301}".to_string())).unwrap();
    assert_ne!(c, b);
}
