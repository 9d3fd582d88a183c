use universe::UnivError;

#[test]
fn error_messages_match_their_fields() {
    let e = UnivError::InvalidMagic { expected: *b"UNV1", actual: [0, 1, 2, 3] };
    assert_eq!(e.to_string(), "无效的 UNIV 魔数: 期望 [85, 78, 86, 49], 实际 [0, 1, 2, 3]");
    let e = UnivError::CrcMismatch { expected: 0xdeadbeef, actual: 0x10 };
    assert_eq!(e.to_string(), "CRC 校验失败: 期望 deadbeef, 实际 00000010");
    let e = UnivError::IncompleteData { expected: 12, actual: 8 };
    assert_eq!(e.to_string(), "数据不完整: 期望 12 字节, 实际 8 字节");
    let e = UnivError::security_limit_exceeded("chunk_count", 7);
    assert_eq!(e.to_string(), "超出安全限制: chunk_count 超过 7");
    let e = UnivError::ReferenceDepthExceeded { current: 5, max: 4 };
    assert_eq!(e.to_string(), "引用深度超限: 当前深度 5, 最大允许 4");
    let e = UnivError::UnsupportedCodec { codec: 200 };
    assert_eq!(e.to_string(), "不支持的编解码器: 200");
}

#[test]
fn error_categories() {
    assert!(UnivError::CircularReference { node_id: "a".to_string() }.is_security_error());
    assert!(UnivError::invalid_header("x").is_format_error());
    assert!(UnivError::UnsupportedProfile { profile: *b"ABCD" }.is_configuration_error());
    assert!(!UnivError::schema_error("x").is_security_error());
    assert!(!UnivError::index_error("x").is_format_error());
}

#[test]
fn wrapped_utf8_error_message_starts_with_its_prefix() {
    let bad = vec![0xffu8];
    let e = UnivError::InvalidUtf8(std::str::from_utf8(&bad).unwrap_err());
    assert!(e.to_string().starts_with("无效的 UTF-8 编码: "));
    assert!(e.to_string().len() > "无效的 UTF-8 编码: ".len());
}
