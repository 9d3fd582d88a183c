use universe::constants::transform_flags;
use universe::transform::{ColumnData, ColumnarData, DataTransformer, StringDictionary};
use universe::UnivError;

#[test]
fn test_data_transformer() {
    let transformer = DataTransformer::new(0);
    let data = b"Hello, World!";

    let transformed = transformer.apply(data).unwrap();
    let restored = transformer.reverse(&transformed).unwrap();

    assert_eq!(data, restored.as_slice());
}

#[test]
fn test_delta_transform() {
    let transformer = DataTransformer::new(transform_flags::DELTA);

    let data = [1u64.to_le_bytes(), 3u64.to_le_bytes(), 6u64.to_le_bytes()].concat();

    let transformed = transformer.apply(&data).unwrap();
    let restored = transformer.reverse(&transformed).unwrap();

    assert_eq!(data, restored);
}

#[test]
fn test_string_dictionary() {
    let mut dict = StringDictionary::new();

    let index1 = dict.add_string("hello".to_string());
    let index2 = dict.add_string("world".to_string());
    let index3 = dict.add_string("hello".to_string());

    assert_eq!(index1, 0);
    assert_eq!(index2, 1);
    assert_eq!(index3, 0);

    assert_eq!(dict.get_string(0), Some("hello"));
    assert_eq!(dict.get_string(1), Some("world"));
    assert_eq!(dict.get_index("hello"), Some(0));
    assert_eq!(dict.get_index("world"), Some(1));

    assert_eq!(dict.len(), 2);
}

#[test]
fn test_columnar_data() {
    let mut columnar = ColumnarData::new();

    let int_col = ColumnData::Integer(vec![1, 2, 3]);
    let str_col = ColumnData::String(vec!["a".to_string(), "b".to_string(), "c".to_string()]);

    assert!(columnar.add_column("id".to_string(), int_col).is_ok());
    assert!(columnar.add_column("name".to_string(), str_col).is_ok());

    assert_eq!(columnar.column_count(), 2);
    assert_eq!(columnar.row_count(), 3);

    let bad_col = ColumnData::Integer(vec![1, 2]);
    assert!(columnar.add_column("bad".to_string(), bad_col).is_err());
}

#[test]
fn test_dictionary_serialization() {
    let mut dict = StringDictionary::new();
    dict.add_string("test1".to_string());
    dict.add_string("test2".to_string());

    let serialized = dict.serialize().unwrap();
    let deserialized = StringDictionary::deserialize(&serialized).unwrap();

    assert_eq!(deserialized.len(), 2);
    assert_eq!(deserialized.get_string(0), Some("test1"));
    assert_eq!(deserialized.get_string(1), Some("test2"));
}

#[test]
fn delta_transform_known_values() {
    let transformer = DataTransformer::new(transform_flags::DELTA);
    let data = [1u64.to_le_bytes(), 3u64.to_le_bytes(), 6u64.to_le_bytes()].concat();
    let transformed = transformer.apply(&data).unwrap();
    let expected = [1u64.to_le_bytes(), 2u64.to_le_bytes(), 3u64.to_le_bytes()].concat();
    assert_eq!(transformed, expected);
}

#[test]
fn delta_transform_wraps_and_keeps_tail() {
    let transformer = DataTransformer::new(transform_flags::DELTA);
    let mut data = [5u64.to_le_bytes(), 2u64.to_le_bytes()].concat();
    data.extend_from_slice(&[9, 8, 7]);
    let transformed = transformer.apply(&data).unwrap();
    assert_eq!(&transformed[8..16], &(2u64.wrapping_sub(5)).to_le_bytes());
    assert_eq!(&transformed[16..], &[9, 8, 7]);
    assert_eq!(transformer.reverse(&transformed).unwrap(), data);
}

#[test]
fn dict_and_varint_flags_leave_data_unchanged() {
    let transformer = DataTransformer::new(transform_flags::DICT_STRING | transform_flags::INTEGER_VARINT);
    let data = b"some bytes";
    assert_eq!(transformer.apply(data).unwrap(), data.to_vec());
    assert_eq!(transformer.reverse(data).unwrap(), data.to_vec());
}

#[test]
fn dictionary_edge_cases() {
    let dict = StringDictionary::default();
    assert!(dict.is_empty());
    assert_eq!(dict.get_string(0), None);
    assert_eq!(dict.get_index("x"), None);
    let empty = StringDictionary::deserialize(&dict.serialize().unwrap()).unwrap();
    assert!(empty.is_empty());
    assert!(matches!(
        StringDictionary::deserialize(&[0xff]),
        Err(UnivError::DeserializationError { .. })
    ));
}

#[test]
fn dictionary_with_inconsistent_index_is_refused() {
    let mut buf = Vec::new();
    let value = ciborium::Value::Map(vec![
        (
            ciborium::Value::Text("string_to_index".to_string()),
            ciborium::Value::Map(vec![(
                ciborium::Value::Text("a".to_string()),
                ciborium::Value::Integer(1.into()),
            )]),
        ),
        (
            ciborium::Value::Text("index_to_string".to_string()),
            ciborium::Value::Array(vec![ciborium::Value::Text("a".to_string())]),
        ),
    ]);
    ciborium::ser::into_writer(&value, &mut buf).unwrap();
    assert!(StringDictionary::deserialize(&buf).is_err());
}

#[test]
fn columnar_data_mismatch_reason() {
    let mut columnar = ColumnarData::default();
    columnar.add_column("x".to_string(), ColumnData::Boolean(vec![true, false])).unwrap();
    match columnar.add_column("y".to_string(), ColumnData::Float(vec![1.5f64.to_bits()])) {
        Err(UnivError::InvalidTransform { reason }) => assert_eq!(reason, "列行数不匹配: 期望 2, 实际 1"),
        _ => panic!("expected a row count mismatch"),
    }
    assert_eq!(columnar.column_count(), 1);
    let mut empty_first = ColumnarData::new();
    empty_first.add_column("e".to_string(), ColumnData::Nulls(vec![])).unwrap();
    assert!(empty_first.add_column("b".to_string(), ColumnData::Bytes(vec![vec![1], vec![2]])).is_err());
    assert_eq!(empty_first.row_count(), 0);
}

#[test]
fn test_columnar_empty_first_column_fixes_row_count() {
    let mut columnar = ColumnarData::new();
    assert!(columnar.add_column("a".to_string(), ColumnData::Integer(vec![])).is_ok());
    let r = columnar.add_column("b".to_string(), ColumnData::Integer(vec![1, 2]));
    assert!(matches!(r, Err(UnivError::InvalidTransform { .. })));
    assert_eq!(columnar.column_count(), 1);
    assert_eq!(columnar.row_count(), 0);
}

#[test]
fn test_dictionary_index_and_string_agree() {
    let mut dict = StringDictionary::new();
    let a = dict.add_string("hello".to_string());
    let b = dict.add_string("world".to_string());
    assert_eq!(dict.add_string("hello".to_string()), a);
    assert_eq!(dict.get_string(a), Some("hello"));
    assert_eq!(dict.get_index("world"), Some(b));
    assert_eq!(dict.get_string(b), Some("world"));
    assert_eq!(dict.get_index("missing"), None);
}
