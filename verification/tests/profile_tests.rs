use universe::constants::{chunk_kinds, hash_policy, transform_flags};
use universe::{Profile, UnivError};

#[test]
fn test_profile_from_code() {
    assert_eq!(Profile::from_code(b"RECD").unwrap(), Profile::Recd);
    assert_eq!(Profile::from_code(b"BLOB").unwrap(), Profile::Blob);
    assert_eq!(Profile::from_code(b"TYPE").unwrap(), Profile::Type);

    assert_eq!(Profile::from_code(b"XABC").unwrap(), Profile::Custom(*b"XABC"));

    assert!(Profile::from_code(b"UNKN").is_err());
}

#[test]
fn test_profile_to_code() {
    assert_eq!(Profile::Recd.to_code(), *b"RECD");
    assert_eq!(Profile::Blob.to_code(), *b"BLOB");
    assert_eq!(Profile::Type.to_code(), *b"TYPE");
}

#[test]
fn test_profile_properties() {
    assert!(Profile::Recd.is_stable());
    assert!(!Profile::Recd.is_experimental());
    assert!(!Profile::Recd.is_legacy());

    assert!(Profile::Mixd.is_legacy());
    assert!(!Profile::Mixd.is_stable());

    assert!(Profile::Custom(*b"XABC").is_experimental());
}

#[test]
fn test_supported_chunk_kinds() {
    let recd_chunks = Profile::Recd.supported_chunk_kinds();
    assert!(recd_chunks.contains(&chunk_kinds::DATA_NODE));
    assert!(recd_chunks.contains(&chunk_kinds::SCHEMA));

    let blob_chunks = Profile::Blob.supported_chunk_kinds();
    assert!(blob_chunks.contains(&chunk_kinds::BLOB));
    assert!(!blob_chunks.contains(&chunk_kinds::DATA_NODE));
}

#[test]
fn test_transform_validation() {
    let result = Profile::Type.validate_transforms(transform_flags::COLUMNARIZE);
    assert!(result.is_err());

    let result = Profile::Recd.validate_transforms(transform_flags::DICT_STRING);
    assert!(result.is_ok());
}

#[test]
fn profile_code_roundtrip_for_every_profile() {
    let all = [
        Profile::Blob,
        Profile::Recd,
        Profile::Tabl,
        Profile::Tsdb,
        Profile::Grph,
        Profile::Mixd,
        Profile::Type,
        Profile::Custom(*b"XYZW"),
    ];
    for p in all {
        assert_eq!(Profile::from_code(&p.to_code()).unwrap(), p);
    }
}

#[test]
fn profile_unknown_code_reports_it() {
    let result = Profile::from_code(b"ABCD");
    assert!(matches!(result, Err(UnivError::UnsupportedProfile { profile }) if &profile == b"ABCD"));
}

#[test]
fn profile_hash_policy_and_transforms() {
    assert_eq!(Profile::Type.default_hash_policy(), hash_policy::PAYLOAD_INCLUSIVE);
    assert_eq!(Profile::Recd.default_hash_policy(), hash_policy::DATA_ONLY);
    assert_eq!(
        Profile::Recd.recommended_transforms(),
        transform_flags::DICT_STRING | transform_flags::INTEGER_VARINT
    );
    assert_eq!(Profile::Mixd.recommended_transforms(), 0);
    assert!(Profile::Type.validate_transforms(transform_flags::CDC).is_err());
    assert!(Profile::Type.validate_transforms(transform_flags::GORILLA).is_err());
    assert!(Profile::Type.validate_transforms(transform_flags::DICT_STRING).is_ok());
    assert!(Profile::Tsdb.validate_transforms(transform_flags::GORILLA).is_ok());
    assert!(Profile::Type.supports_chunk_kind(chunk_kinds::SCHEMA));
    assert!(!Profile::Type.supports_chunk_kind(chunk_kinds::DATA_NODE));
    assert_eq!(Profile::Grph.description(), "图/DAG");
}

#[test]
fn test_tsdb_recommended_transforms_exclude_columnarize() {
    assert_eq!(
        Profile::Tsdb.recommended_transforms(),
        transform_flags::DELTA | transform_flags::GORILLA | transform_flags::INTEGER_VARINT
    );
}
