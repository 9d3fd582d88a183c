use universe::constants::security_limits;
use universe::util::validation::{CycleDetector, IntegrityValidator, SecurityValidator, StringValidator};
use universe::UnivError;

#[test]
fn test_security_validator() {
    let validator = SecurityValidator::new();

    assert!(validator.validate_chunk_count(1000).is_ok());
    assert!(validator.validate_chunk_count(validator.max_chunks + 1).is_err());

    assert!(validator.validate_total_size(1024 * 1024).is_ok());
    assert!(validator.validate_total_size(validator.max_raw_size + 1).is_err());

    assert!(validator.validate_chunk_size(1024).is_ok());
    assert!(validator.validate_chunk_size(validator.max_chunk_raw + 1).is_err());

    assert!(validator.validate_reference_depth(100).is_ok());
    assert!(validator.validate_reference_depth(validator.max_ref_depth + 1).is_err());
}

#[test]
fn test_compression_ratio_validation() {
    let validator = SecurityValidator::new();

    assert!(validator.validate_compression_ratio(1000, 100).is_ok());

    assert!(validator.validate_compression_ratio(100, 3200).is_err());

    assert!(validator.validate_compression_ratio(100, 0).is_ok());
}

#[test]
fn test_cycle_detector() {
    let mut detector = CycleDetector::new();

    assert!(detector.visit("A").is_ok());
    assert!(detector.visit("B").is_ok());
    assert!(detector.visit("C").is_ok());

    detector.leave("C");
    detector.leave("B");
    detector.leave("A");

    assert!(detector.visit("A").is_ok());
    assert!(detector.visit("B").is_ok());
    assert!(detector.visit("A").is_err());
}

#[test]
fn test_string_validator() {
    assert!(StringValidator::is_valid_identifier("test"));
    assert!(StringValidator::is_valid_identifier("_private"));
    assert!(StringValidator::is_valid_identifier("test_123"));
    assert!(!StringValidator::is_valid_identifier("123test"));
    assert!(!StringValidator::is_valid_identifier(""));

    assert!(StringValidator::is_valid_namespace("org.example"));
    assert!(StringValidator::is_valid_namespace("com.company.project"));
    assert!(!StringValidator::is_valid_namespace("invalid"));
    assert!(!StringValidator::is_valid_namespace(""));
    assert!(!StringValidator::is_valid_namespace("123.invalid"));
}

#[test]
fn test_integrity_validator() {
    let data = b"test data";

    assert!(IntegrityValidator::validate_length(data, 9).is_ok());
    assert!(IntegrityValidator::validate_length(data, 10).is_err());

    assert!(IntegrityValidator::validate_min_length(data, 5).is_ok());
    assert!(IntegrityValidator::validate_min_length(data, 10).is_err());

    assert!(IntegrityValidator::validate_range(data, 0, 9).is_ok());
    assert!(IntegrityValidator::validate_range(data, 5, 4).is_ok());
    assert!(IntegrityValidator::validate_range(data, 5, 5).is_err());
}

#[test]
fn test_utf8_validation() {
    let valid_utf8 = "Hello, 世界!".as_bytes();
    let result = StringValidator::validate_and_normalize(valid_utf8, false);
    assert!(result.is_ok());
    assert_eq!(result.unwrap(), "Hello, 世界!");

    let invalid_utf8 = &[0xFF, 0xFE];
    let result = StringValidator::validate_and_normalize(invalid_utf8, false);
    assert!(result.is_err());
}

#[test]
fn validator_default_limits_and_errors() {
    let v = SecurityValidator::default();
    assert_eq!(v.max_chunks, security_limits::MAX_CHUNKS);
    assert_eq!(v.compression_ratio_threshold, 32);
    assert!(v.validate_chunk_count(v.max_chunks).is_ok());
    assert!(matches!(
        v.validate_reference_depth(2000),
        Err(UnivError::ReferenceDepthExceeded { current: 2000, max: 1024 })
    ));
    assert!(matches!(
        v.validate_string_table_size(v.max_string_table + 1),
        Err(UnivError::SecurityLimitExceeded { max_value, .. }) if max_value == v.max_string_table as u64
    ));
}

#[test]
fn compression_ratio_threshold_edges() {
    let v = SecurityValidator::custom(10, 10, 10, 10, 10, 4);
    assert!(v.validate_compression_ratio(100, 399).is_ok());
    assert!(v.validate_compression_ratio(100, 400).is_err());
    assert!(matches!(v.validate_compression_ratio(0, 1), Err(UnivError::CompressionError { .. })));
    assert!(v.validate_compression_ratio(0, 0).is_ok());
}

#[test]
fn cycle_detector_state() {
    let mut detector = CycleDetector::new();
    detector.visit("A").unwrap();
    detector.visit("B").unwrap();
    assert_eq!(detector.current_depth(), 2);
    assert!(matches!(detector.visit("A"), Err(UnivError::CircularReference { node_id }) if node_id == "A"));
    assert_eq!(detector.current_depth(), 2);
    detector.leave("A");
    assert_eq!(detector.current_depth(), 1);
    assert!(detector.visit("A").is_ok());
    detector.leave("Z");
    assert_eq!(detector.current_depth(), 2);
    assert!(detector.is_visited("B"));
    assert!(!detector.is_visited("Z"));
    let copy = detector.clone();
    detector.reset();
    assert_eq!(detector.current_depth(), 0);
    assert!(!detector.is_visited("A"));
    assert!(copy.is_visited("A"));
    assert_eq!(copy.current_depth(), 2);
}

#[test]
fn leave_undoes_visit_on_concrete_path() {
    let mut detector = CycleDetector::new();
    detector.visit("root").unwrap();
    let before = detector.current_depth();
    detector.visit("child").unwrap();
    detector.leave("child");
    assert_eq!(detector.current_depth(), before);
    assert!(detector.visit("child").is_ok());
}

#[test]
fn identifier_and_namespace_rules() {
    assert!(StringValidator::is_valid_identifier("é.x-1"));
    assert!(!StringValidator::is_valid_identifier("a b"));
    assert!(!StringValidator::is_valid_identifier("-a"));
    assert!(StringValidator::is_valid_namespace("a.b-c.d9"));
    assert!(!StringValidator::is_valid_namespace("a..b"));
    assert!(!StringValidator::is_valid_namespace("a.b."));
    assert!(!StringValidator::is_valid_namespace(".a.b"));
    assert!(!StringValidator::is_valid_namespace("a._b"));
    assert!(!StringValidator::is_valid_namespace("a.b_c"));
    assert!(StringValidator::is_valid_namespace("数据.例子"));
}

#[test]
fn integrity_error_values() {
    let data = [1u8, 2, 3];
    assert!(matches!(
        IntegrityValidator::validate_length(&data, 4),
        Err(UnivError::IncompleteData { expected: 4, actual: 3 })
    ));
    assert!(matches!(
        IntegrityValidator::validate_range(&data, 2, 2),
        Err(UnivError::IncompleteData { expected: 4, actual: 3 })
    ));
    let normalized = StringValidator::validate_and_normalize("abc".as_bytes(), true).unwrap();
    assert_eq!(normalized, "abc");
    assert!(matches!(
        StringValidator::validate_and_normalize(&[0xc3], true),
        Err(UnivError::InvalidUtf8(_))
    ));
}

#[test]
fn test_normalize_to_nfc() {
    let s = StringValidator::validate_and_normalize("e\u{301}".as_bytes(), true).unwrap();
    assert_eq!(s, "\u{e9}");
    let t = StringValidator::validate_and_normalize("e\u{301}".as_bytes(), false).unwrap();
    assert_eq!(t, "e\u{301}");
}

#[test]
fn test_range_end_overflow_is_refused() {
    let data = [0u8; 4];
    assert!(matches!(
        IntegrityValidator::validate_range(&data, usize::MAX, 1),
        Err(UnivError::IncompleteData { expected, actual: 4 }) if expected == usize::MAX
    ));
}

#[test]
fn test_visit_after_leave() {
    let mut d = CycleDetector::new();
    d.visit("a").unwrap();
    d.visit("b").unwrap();
    d.leave("b");
    assert!(d.visit("b").is_ok());
    assert!(d.visit("a").is_err());
}
