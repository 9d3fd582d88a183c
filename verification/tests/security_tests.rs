use std::collections::HashMap;
use universe::security::{
    AttackDetector, SecurityContext, SecurityPolicy, SecurityStats, SecurityStatsUpdate,
};
use universe::util::validation::SecurityValidator;
use universe::UnivError;

fn average_ratio(stats: &SecurityStats) -> f32 {
    if stats.compression_ratios.is_empty() {
        return 1.0;
    }
    let sum: f32 = stats
        .compression_ratios
        .iter()
        .map(|&(raw, compressed)| raw as f32 / compressed as f32)
        .sum();
    sum / stats.compression_ratios.len() as f32
}

fn overall_ratio(stats: &SecurityStats) -> f32 {
    if stats.total_compressed_size == 0 {
        return 1.0;
    }
    stats.total_raw_size as f32 / stats.total_compressed_size as f32
}

#[test]
fn test_security_context() {
    let mut context = SecurityContext::new();

    context.update_stats(SecurityStatsUpdate::AddChunk {
        chunk_type: 1,
        raw_size: 1024,
        compressed_size: 512,
    });

    assert_eq!(context.stats.chunk_count, 1);
    assert_eq!(context.stats.total_raw_size, 1024);
    assert_eq!(context.stats.total_compressed_size, 512);

    assert!(context.validate_container().is_ok());
}

#[test]
fn test_security_stats() {
    let mut stats = SecurityStats::new();

    stats.apply_update(SecurityStatsUpdate::AddChunk {
        chunk_type: 1,
        raw_size: 2000,
        compressed_size: 1000,
    });

    stats.apply_update(SecurityStatsUpdate::AddChunk {
        chunk_type: 2,
        raw_size: 4000,
        compressed_size: 1000,
    });

    assert_eq!(stats.chunk_count, 2);
    assert_eq!(average_ratio(&stats), 3.0);
    assert_eq!(overall_ratio(&stats), 3.0);
}

#[test]
fn test_security_policy() {
    let policy = SecurityPolicy::default_policy();

    assert!(policy.validate_profile("RECD").is_ok());
    assert!(policy.validate_profile("UNKN").is_err());

    assert!(policy.validate_file_size(1024).is_ok());
    assert!(policy.validate_file_size(policy.max_file_size + 1).is_err());
}

#[test]
fn test_attack_detector() {
    let mut detector = AttackDetector::new();

    assert!(detector.detect_compression_bomb(1000, 2000).is_ok());

    assert!(detector.detect_compression_bomb(100, 10000).is_err());

    assert!(detector.detect_deep_reference(100).is_ok());

    assert!(detector.detect_deep_reference(2000).is_err());
}

#[test]
fn test_strict_policy() {
    let policy = SecurityPolicy::strict_policy();

    assert!(policy.strict_mode);
    assert!(!policy.allow_external_refs);
    assert!(policy.require_signatures);
    assert!(policy.validate_profile("RECD").is_ok());
    assert!(policy.validate_profile("BLOB").is_err());
}

#[test]
fn test_limits_checking() {
    let stats = SecurityStats {
        chunk_count: 2000000,
        total_raw_size: 1024,
        total_compressed_size: 512,
        max_reference_depth: Some(2000),
        string_table_size: None,
        chunk_type_counts: HashMap::new(),
        compression_ratios: Vec::new(),
    };

    let validator = SecurityValidator::new();
    let violations = stats.check_limits(&validator);

    assert_eq!(violations.len(), 2);
    assert!(violations[0].contains("块数量超限"));
    assert!(violations[1].contains("引用深度超限"));
}

#[test]
fn limit_messages_are_exact() {
    let stats = SecurityStats {
        chunk_count: 2000000,
        total_raw_size: 1 << 40,
        total_compressed_size: 0,
        max_reference_depth: Some(5),
        string_table_size: Some(u32::MAX),
        chunk_type_counts: HashMap::new(),
        compression_ratios: Vec::new(),
    };
    let v = SecurityValidator::new();
    let violations = stats.check_limits(&v);
    assert_eq!(
        violations,
        vec![
            "块数量超限: 2000000 > 1000000".to_string(),
            "总数据大小超限: 1099511627776 > 274877906944".to_string(),
            "字符串表大小超限: 4294967295 > 268435456".to_string(),
        ]
    );
}

#[test]
fn stats_updates_by_kind_and_depth() {
    let mut stats = SecurityStats::default();
    stats.apply_update(SecurityStatsUpdate::AddChunk { chunk_type: 3, raw_size: 10, compressed_size: 0 });
    stats.apply_update(SecurityStatsUpdate::AddChunk { chunk_type: 3, raw_size: 5, compressed_size: 5 });
    stats.apply_update(SecurityStatsUpdate::SetReferenceDepth(7));
    stats.apply_update(SecurityStatsUpdate::SetReferenceDepth(4));
    stats.apply_update(SecurityStatsUpdate::SetStringTableSize(99));
    assert_eq!(stats.chunk_type_counts.get(&3), Some(&2));
    assert_eq!(stats.compression_ratios, vec![(5, 5)]);
    assert_eq!(stats.max_reference_depth, Some(7));
    assert_eq!(stats.string_table_size, Some(99));
    assert_eq!(stats.total_raw_size, 15);
}

#[test]
fn context_checks_in_order_and_resets() {
    let mut context = SecurityContext::with_validator(SecurityValidator::custom(1, 100, 50, 3, 10, 2));
    context.update_stats(SecurityStatsUpdate::SetReferenceDepth(9));
    assert!(matches!(
        context.validate_container(),
        Err(UnivError::ReferenceDepthExceeded { current: 9, max: 3 })
    ));
    context.update_stats(SecurityStatsUpdate::AddChunk { chunk_type: 1, raw_size: 60, compressed_size: 1 });
    context.update_stats(SecurityStatsUpdate::AddChunk { chunk_type: 1, raw_size: 60, compressed_size: 1 });
    assert!(matches!(
        context.validate_container(),
        Err(UnivError::SecurityLimitExceeded { max_value: 1, .. })
    ));
    assert!(matches!(context.validate_chunk(51, 1), Err(UnivError::SecurityLimitExceeded { max_value: 50, .. })));
    assert!(matches!(context.validate_chunk(10, 20), Err(UnivError::CompressionError { .. })));
    assert!(context.validate_chunk(10, 19).is_ok());
    context.reset();
    assert_eq!(context.stats.chunk_count, 0);
    assert_eq!(context.validator.max_chunks, 1);
    assert!(context.validate_container().is_ok());
}

#[test]
fn policy_reports_refused_profiles() {
    let policy = SecurityPolicy::strict_policy();
    assert!(matches!(policy.validate_profile("BLOB"), Err(UnivError::UnsupportedProfile { profile }) if &profile == b"BLOB"));
    assert!(matches!(policy.validate_profile("LONGER"), Err(UnivError::UnsupportedProfile { profile }) if profile == [0; 4]));
    assert_eq!(policy.max_file_size, 100 * 1024 * 1024);
    let mut p = SecurityPolicy::default_policy();
    p.forbidden_transforms = 0x4;
    assert!(matches!(p.validate_transforms(0x5), Err(UnivError::InvalidTransform { .. })));
    assert!(p.validate_transforms(0x3).is_ok());
}

#[test]
fn attack_detector_counts_and_escalates() {
    let mut detector = AttackDetector::default();
    for _ in 0..3 {
        match detector.detect_compression_bomb(1, 100) {
            Err(UnivError::CompressionError { reason }) => assert!(reason.starts_with("可疑的压缩比")),
            _ => panic!("expected a suspicious ratio"),
        }
    }
    match detector.detect_compression_bomb(1, 100) {
        Err(UnivError::CompressionError { reason }) => assert_eq!(reason, "检测到压缩炸弹攻击"),
        _ => panic!("expected a compression bomb"),
    }
    assert!(detector.detect_compression_bomb(1, 32).is_ok());
    assert!(detector.detect_compression_bomb(0, 1000).is_ok());
    assert_eq!(detector.get_suspicious_activities().get("compression_bomb"), Some(&4));
    detector.detect_deep_reference(5000).unwrap_err();
    assert_eq!(detector.get_suspicious_activities().get("deep_reference"), Some(&1));
    assert!(matches!(
        detector.detect_excessive_chunks(2_000_000),
        Err(UnivError::SecurityLimitExceeded { max_value: 1_000_000, .. })
    ));
    detector.reset();
    assert!(detector.get_suspicious_activities().is_empty());
}

#[test]
fn test_file_size_limit_names_the_limit() {
    let policy = SecurityPolicy::default_policy();
    assert!(policy.validate_file_size(policy.max_file_size).is_ok());
    match policy.validate_file_size(policy.max_file_size + 1) {
        Err(UnivError::SecurityLimitExceeded { limit_type, max_value }) => {
            assert_eq!(limit_type, "file_size");
            assert_eq!(max_value, policy.max_file_size);
        }
        _ => panic!("expected the file size limit"),
    }
}
