use universe::chunk::{ChunkKind, Codec};
use universe::constants::transform_flags;
use universe::tool::{import_data, pack_data, pack_types, resolve_info, resolve_report, DataFormat};
use universe::{Container, Profile, UnivError};

#[test]
fn test_pack_data_builds_one_chunk_per_file_and_schema() {
    let files = vec![b"{\"a\": 1}".to_vec(), b"[1, 2, 3]".to_vec()];
    let c = pack_data(Profile::Recd, files, DataFormat::Json, Codec::Zstd, 0, Some(b"schema".to_vec())).unwrap();
    assert_eq!(c.header.profile, Profile::Recd);
    assert_eq!(c.chunks.len(), 3);
    assert_eq!(c.chunks[0].kind, ChunkKind::DataNode);
    assert_eq!(c.chunks[0].get_raw_data().unwrap(), b"{\"a\": 1}".to_vec());
    assert_eq!(c.chunks[2].kind, ChunkKind::Schema);
    assert_eq!(c.chunks[2].get_raw_data().unwrap(), b"schema".to_vec());
}

#[test]
fn test_pack_data_refuses_invalid_json() {
    let r = pack_data(Profile::Recd, vec![b"{oops".to_vec()], DataFormat::Json, Codec::Zstd, 0, None);
    assert!(matches!(r, Err(UnivError::DeserializationError { .. })));
}

#[test]
fn test_import_data_checks_json_lines() {
    let good = b"{\"a\": 1}\r\n   \n[2]\n".to_vec();
    let c = import_data(vec![good.clone()], DataFormat::JsonLines, None).unwrap();
    assert_eq!(c.header.profile, Profile::Recd);
    assert_eq!(c.chunks.len(), 1);
    assert_eq!(c.chunks[0].codec, Codec::Zstd);
    assert_eq!(c.chunks[0].transform_flags, transform_flags::DICT_STRING | transform_flags::INTEGER_VARINT);
    assert_eq!(c.chunks[0].get_raw_data().unwrap(), good);
    let bad = b"{\"a\": 1}\nnot json\n".to_vec();
    assert!(matches!(import_data(vec![bad], DataFormat::JsonLines, None), Err(UnivError::DeserializationError { .. })));
    assert!(matches!(import_data(vec![vec![0xff, 0xfe]], DataFormat::Csv, None), Err(UnivError::DeserializationError { .. })));
}

#[test]
fn test_pack_types_manifest_first() {
    let c = pack_types(
        "org.example".to_string(),
        "pkg".to_string(),
        "1.0".to_string(),
        None,
        Some("desc".to_string()),
        vec![b"schema-a".to_vec()],
    )
    .unwrap();
    assert_eq!(c.header.profile, Profile::Type);
    assert_eq!(c.chunks.len(), 2);
    let manifest = c.chunks[0].get_raw_data().unwrap();
    assert_eq!(
        manifest,
        b"{\"description\":\"desc\",\"exports\":[],\"namespace\":\"org.example\",\"package\":\"pkg\",\"version\":\"1.0\"}".to_vec()
    );
    assert_eq!(c.chunks[1].get_raw_data().unwrap(), b"schema-a".to_vec());
    assert_eq!(resolve_info(&c).unwrap(), (2, 1));
}

#[test]
fn test_resolve_info_refuses_other_profiles() {
    let c = Container::new(Profile::Blob);
    assert!(matches!(resolve_info(&c), Err(UnivError::DeserializationError { .. })));
    assert_eq!(resolve_info(&Container::new(Profile::Type)).unwrap(), (0, 0));
}

#[test]
fn test_json_lines_blank_lines_use_unicode_white_space() {
    let spaces: Vec<char> = (0u32..=0x10FFFF).filter_map(char::from_u32).filter(|c| c.is_whitespace()).collect();
    assert_eq!(spaces.len(), 25);
    let line: String = spaces.iter().filter(|&&c| c != '\n').collect();
    let text = format!("{}\n[1]\n", line);
    assert!(import_data(vec![text.into_bytes()], DataFormat::JsonLines, None).is_ok());
    let zero_width = "\u{200b}\n".to_string();
    assert!(import_data(vec![zero_width.into_bytes()], DataFormat::JsonLines, None).is_err());
}

#[test]
fn test_resolve_report_json() {
    let c = pack_types("ns".to_string(), "p".to_string(), "1".to_string(), None, None, vec![b"s".to_vec()]).unwrap();
    let report = resolve_report("pkg.univ", &c).unwrap();
    let text = String::from_utf8(report).unwrap();
    assert!(text.contains("\"chunks\": 2"));
    assert!(text.contains("\"schemas\": 1"));
    assert!(text.contains("\"profile\": \"TYPE\""));
    assert!(text.contains("\"input\": \"pkg.univ\""));
    assert!(matches!(resolve_report("x", &Container::new(Profile::Blob)), Err(UnivError::DeserializationError { .. })));
}

#[test]
fn test_packed_container_reads_back_from_its_bytes() {
    let c = pack_data(Profile::Recd, vec![b"{\"a\":1}".to_vec()], DataFormat::Json, Codec::Zstd, 0, None).unwrap();
    let bytes = c.serialize().unwrap();
    let d = Container::deserialize(&bytes).unwrap();
    assert_eq!(d.header.profile, Profile::Recd);
    assert_eq!(d.chunks.len(), 1);
    assert_eq!(d.chunks[0].get_raw_data().unwrap(), b"{\"a\":1}".to_vec());
}
