use universe::constants::header_flags;
use universe::{Header, Profile, UnivError};

#[test]
fn test_header_creation() {
    let header = Header::new(Profile::Recd);
    assert_eq!(header.profile, Profile::Recd);
    assert_eq!(header.major_version, 1);
    assert_eq!(header.minor_version, 1);
    assert_eq!(header.flags, 0);
}

#[test]
fn test_header_flags() {
    let mut header = Header::new(Profile::Recd);
    assert!(!header.has_flag(header_flags::HAS_HEADER_EXT));

    header.set_flag(header_flags::HAS_HEADER_EXT);
    assert!(header.has_flag(header_flags::HAS_HEADER_EXT));

    header.clear_flag(header_flags::HAS_HEADER_EXT);
    assert!(!header.has_flag(header_flags::HAS_HEADER_EXT));
}

#[test]
fn test_header_extensions() {
    let mut header = Header::new(Profile::Recd);
    header.set_producer("universe-rust");
    header.set_namespace_root("org.example");

    assert_eq!(header.get_producer(), Some("universe-rust"));
    assert_eq!(header.get_namespace_root(), Some("org.example"));
    assert!(header.has_flag(header_flags::HAS_HEADER_EXT));
}

#[test]
fn test_header_serialization() {
    let mut header = Header::new(Profile::Recd);
    header.set_producer("test");

    let serialized = header.serialize().unwrap();
    let (deserialized, consumed) = Header::deserialize(&serialized).unwrap();

    assert_eq!(consumed, serialized.len());
    assert_eq!(deserialized.profile, header.profile);
    assert_eq!(deserialized.get_producer(), header.get_producer());
}

#[test]
fn test_invalid_magic() {
    let mut data = vec![0u8; 12];
    data[0..4].copy_from_slice(b"XXXX");
    data[4..8].copy_from_slice(b"RECD");

    let result = Header::deserialize(&data);
    assert!(matches!(result, Err(UnivError::InvalidMagic { .. })));
}

#[test]
fn test_incomplete_data() {
    let data = vec![0u8; 8];
    let result = Header::deserialize(&data);
    assert!(matches!(result, Err(UnivError::IncompleteData { .. })));
}

#[test]
fn header_roundtrip_keeps_every_field() {
    let mut header = Header::new(Profile::Tsdb);
    header.set_producer("p");
    header.set_namespace_root("org.example");
    header.set_creation_timestamp(1_700_000_000_000_000_000);
    header.set_flag(0x0100);

    let bytes = header.serialize().unwrap();
    let (back, consumed) = Header::deserialize(&bytes).unwrap();
    assert_eq!(consumed, bytes.len());
    assert_eq!(back.profile, Profile::Tsdb);
    assert_eq!(back.flags, header.flags);
    assert_eq!(back.get_producer(), Some("p"));
    assert_eq!(back.get_namespace_root(), Some("org.example"));
    assert_eq!(back.get_creation_timestamp(), Some(1_700_000_000_000_000_000));
}

#[test]
fn header_without_extensions_is_twelve_bytes() {
    let header = Header::new(Profile::Blob);
    let bytes = header.serialize().unwrap();
    assert_eq!(bytes.len(), 12);
    assert_eq!(&bytes[0..4], b"UNV1");
    assert_eq!(&bytes[4..8], b"BLOB");
    assert_eq!(header.estimated_size(), bytes.len());
}

#[test]
fn header_unsupported_profile_is_refused() {
    let mut bytes = Header::new(Profile::Recd).serialize().unwrap();
    bytes[4..8].copy_from_slice(b"QQQQ");
    let result = Header::deserialize(&bytes);
    assert!(matches!(result, Err(UnivError::UnsupportedProfile { profile }) if &profile == b"QQQQ"));
}

#[test]
fn header_creation_timestamp_now_is_recent() {
    let mut header = Header::new(Profile::Recd);
    assert_eq!(header.get_creation_timestamp(), None);
    header.set_creation_timestamp_now();
    let ts = header.get_creation_timestamp().unwrap();
    assert!(ts > 1_600_000_000_000_000_000);
}
