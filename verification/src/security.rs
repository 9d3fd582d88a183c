//! Security context, statistics, policies and attack detection.

use vstd::prelude::*;
use vstd::string::*;
use std::collections::HashMap;
use crate::constants::security_limits;
use crate::error::{Result, UnivError};
use crate::util::string_map::{entries_insert, key_value, StringMap};
use crate::util::text::{decimal_chars, decimal_string};
use crate::util::validation::{expansion_exceeds, has_default_limits, CycleDetector, SecurityValidator};

verus! {

broadcast use vstd::std_specs::hash::group_hash_axioms;

/// Running statistics of a container, checked against the security limits.
#[derive(Debug, Clone)]
pub struct SecurityStats {
    /// Number of chunks.
    pub chunk_count: u32,
    /// Total raw size.
    pub total_raw_size: u64,
    /// Total compressed size.
    pub total_compressed_size: u64,
    /// Largest reference depth seen.
    pub max_reference_depth: Option<u32>,
    /// String table size.
    pub string_table_size: Option<u32>,
    /// Number of chunks of each kind.
    pub chunk_type_counts: HashMap<u8, u32>,
    /// Compression ratio of each chunk with stored bytes, as the pair (raw size, compressed size).
    pub compression_ratios: Vec<(u32, u32)>,
}

/// A change to the statistics.
#[derive(Debug, Clone)]
pub enum SecurityStatsUpdate {
    /// A chunk was added.
    AddChunk { chunk_type: u8, raw_size: u32, compressed_size: u32 },
    /// A reference depth was reached.
    SetReferenceDepth(u32),
    /// The string table size is known.
    SetStringTableSize(u32),
}

/// Whether applying `u` to `s` keeps every counter within its type.
pub open spec fn update_fits(s: SecurityStats, u: SecurityStatsUpdate) -> bool {
    match u {
        SecurityStatsUpdate::AddChunk { chunk_type, raw_size, compressed_size } => {
            &&& s.chunk_count < u32::MAX
            &&& s.total_raw_size + raw_size <= u64::MAX
            &&& s.total_compressed_size + compressed_size <= u64::MAX
            &&& s.chunk_type_counts@.contains_key(chunk_type) ==> s.chunk_type_counts@[chunk_type]
                < u32::MAX
        },
        _ => true,
    }
}

/// Whether `t` is `s` with `u` applied.
pub open spec fn update_applied(s: SecurityStats, t: SecurityStats, u: SecurityStatsUpdate) -> bool {
    match u {
        SecurityStatsUpdate::AddChunk { chunk_type, raw_size, compressed_size } => {
            &&& t.chunk_count == s.chunk_count + 1
            &&& t.total_raw_size == s.total_raw_size + raw_size
            &&& t.total_compressed_size == s.total_compressed_size + compressed_size
            &&& t.max_reference_depth == s.max_reference_depth
            &&& t.string_table_size == s.string_table_size
            &&& t.chunk_type_counts@ == s.chunk_type_counts@.insert(
                chunk_type,
                if s.chunk_type_counts@.contains_key(chunk_type) {
                    (s.chunk_type_counts@[chunk_type] + 1) as u32
                } else {
                    1u32
                },
            )
            &&& t.compression_ratios@ == if compressed_size > 0 {
                s.compression_ratios@.push((raw_size, compressed_size))
            } else {
                s.compression_ratios@
            }
        },
        SecurityStatsUpdate::SetReferenceDepth(depth) => {
            &&& t.max_reference_depth == Some(
                match s.max_reference_depth {
                    Some(current) => if current >= depth { current } else { depth },
                    None => depth,
                },
            )
            &&& same_counters(s, t)
            &&& t.string_table_size == s.string_table_size
        },
        SecurityStatsUpdate::SetStringTableSize(size) => {
            &&& t.string_table_size == Some(size)
            &&& same_counters(s, t)
            &&& t.max_reference_depth == s.max_reference_depth
        },
    }
}

/// Whether the chunk counters of `s` and `t` agree.
pub open spec fn same_counters(s: SecurityStats, t: SecurityStats) -> bool {
    &&& t.chunk_count == s.chunk_count
    &&& t.total_raw_size == s.total_raw_size
    &&& t.total_compressed_size == s.total_compressed_size
    &&& t.chunk_type_counts@ == s.chunk_type_counts@
    &&& t.compression_ratios@ == s.compression_ratios@
}

/// Whether `s` holds no statistics yet.
pub open spec fn stats_empty(s: SecurityStats) -> bool {
    &&& s.chunk_count == 0
    &&& s.total_raw_size == 0
    &&& s.total_compressed_size == 0
    &&& s.max_reference_depth is None
    &&& s.string_table_size is None
    &&& s.chunk_type_counts@ == Map::<u8, u32>::empty()
    &&& s.compression_ratios@ == Seq::<(u32, u32)>::empty()
}

/// A violation message: what was exceeded, the value and the limit.
pub open spec fn violation_text(what: Seq<char>, value: nat, limit: nat) -> Seq<char> {
    what + decimal_chars(value) + " > "@ + decimal_chars(limit)
}

/// The messages for the limits that `s` exceeds under `v`, in a fixed order.
pub open spec fn limit_violations(s: SecurityStats, v: SecurityValidator) -> Seq<Seq<char>> {
    let a = if s.chunk_count > v.max_chunks {
        seq![violation_text("块数量超限: "@, s.chunk_count as nat, v.max_chunks as nat)]
    } else {
        Seq::empty()
    };
    let b = if s.total_raw_size > v.max_raw_size {
        seq![violation_text("总数据大小超限: "@, s.total_raw_size as nat, v.max_raw_size as nat)]
    } else {
        Seq::empty()
    };
    let c = match s.max_reference_depth {
        Some(d) => if d > v.max_ref_depth {
            seq![violation_text("引用深度超限: "@, d as nat, v.max_ref_depth as nat)]
        } else {
            Seq::empty()
        },
        None => Seq::empty(),
    };
    let d = match s.string_table_size {
        Some(t) => if t > v.max_string_table {
            seq![violation_text("字符串表大小超限: "@, t as nat, v.max_string_table as nat)]
        } else {
            Seq::empty()
        },
        None => Seq::empty(),
    };
    a + b + c + d
}

fn violation_message(what: &str, value: u64, limit: u64) -> (r: String)
    ensures
        r@ == violation_text(what@, value as nat, limit as nat),
{
    let mut m = String::from_str(what);
    m.append(decimal_string(value).as_str());
    m.append(" > ");
    m.append(decimal_string(limit).as_str());
    m
}

impl SecurityStats {
    /// Statistics with nothing counted.
    pub fn new() -> (r: Self)
        ensures
            stats_empty(r),
    {
        SecurityStats {
            chunk_count: 0,
            total_raw_size: 0,
            total_compressed_size: 0,
            max_reference_depth: None,
            string_table_size: None,
            chunk_type_counts: HashMap::new(),
            compression_ratios: Vec::new(),
        }
    }

    /// Applies one change.
    pub fn apply_update(&mut self, update: SecurityStatsUpdate)
        requires
            update_fits(*old(self), update),
        ensures
            update_applied(*old(self), *final(self), update),
    {
        match update {
            SecurityStatsUpdate::AddChunk { chunk_type, raw_size, compressed_size } => {
                self.chunk_count = self.chunk_count + 1;
                self.total_raw_size = self.total_raw_size + raw_size as u64;
                self.total_compressed_size = self.total_compressed_size + compressed_size as u64;
                let count: u32 = match self.chunk_type_counts.get(&chunk_type) {
                    Some(c) => *c + 1,
                    None => 1,
                };
                self.chunk_type_counts.insert(chunk_type, count);
                if compressed_size > 0 {
                    self.compression_ratios.push((raw_size, compressed_size));
                }
            },
            SecurityStatsUpdate::SetReferenceDepth(depth) => {
                self.max_reference_depth = Some(
                    match self.max_reference_depth {
                        Some(current) => if current >= depth {
                            current
                        } else {
                            depth
                        },
                        None => depth,
                    },
                );
            },
            SecurityStatsUpdate::SetStringTableSize(size) => {
                self.string_table_size = Some(size);
            },
        }
    }

    /// One message for each limit of `validator` that the statistics exceed.
    pub fn check_limits(&self, validator: &SecurityValidator) -> (r: Vec<String>)
        ensures
            r@.map_values(|m: String| m@) == limit_violations(*self, *validator),
    {
        let mut violations: Vec<String> = Vec::new();
        if self.chunk_count > validator.max_chunks {
            violations.push(
                violation_message("块数量超限: ", self.chunk_count as u64, validator.max_chunks as u64),
            );
        }
        if self.total_raw_size > validator.max_raw_size {
            violations.push(
                violation_message("总数据大小超限: ", self.total_raw_size, validator.max_raw_size),
            );
        }
        if let Some(depth) = self.max_reference_depth {
            if depth > validator.max_ref_depth {
                violations.push(
                    violation_message("引用深度超限: ", depth as u64, validator.max_ref_depth as u64),
                );
            }
        }
        if let Some(size) = self.string_table_size {
            if size > validator.max_string_table {
                violations.push(
                    violation_message(
                        "字符串表大小超限: ",
                        size as u64,
                        validator.max_string_table as u64,
                    ),
                );
            }
        }
        assert(violations@.map_values(|m: String| m@) =~= limit_violations(*self, *validator));
        violations
    }
}

impl Default for SecurityStats {
    fn default() -> (r: Self)
        ensures
            stats_empty(r),
    {
        Self::new()
    }
}

/// Validator, cycle detector and statistics of one container.
#[derive(Debug, Clone)]
pub struct SecurityContext {
    /// The limits.
    pub validator: SecurityValidator,
    /// The cycle detector.
    pub cycle_detector: CycleDetector,
    /// The statistics so far.
    pub stats: SecurityStats,
}

/// Whether statistics `s` pass every container check of `v`.
pub open spec fn container_within_limits(s: SecurityStats, v: SecurityValidator) -> bool {
    &&& s.chunk_count <= v.max_chunks
    &&& s.total_raw_size <= v.max_raw_size
    &&& (s.max_reference_depth matches Some(d) ==> d <= v.max_ref_depth)
    &&& (s.string_table_size matches Some(t) ==> t <= v.max_string_table)
}

impl SecurityContext {
    /// A context with the default limits and empty state.
    pub fn new() -> (r: Self)
        ensures
            has_default_limits(r.validator),
            r.cycle_detector@.visited == Set::<Seq<char>>::empty(),
            r.cycle_detector@.path == Seq::<Seq<char>>::empty(),
            stats_empty(r.stats),
    {
        SecurityContext {
            validator: SecurityValidator::new(),
            cycle_detector: CycleDetector::new(),
            stats: SecurityStats::new(),
        }
    }

    /// A context with the given limits and empty state.
    pub fn with_validator(validator: SecurityValidator) -> (r: Self)
        ensures
            r.validator == validator,
            r.cycle_detector@.visited == Set::<Seq<char>>::empty(),
            r.cycle_detector@.path == Seq::<Seq<char>>::empty(),
            stats_empty(r.stats),
    {
        SecurityContext {
            validator,
            cycle_detector: CycleDetector::new(),
            stats: SecurityStats::new(),
        }
    }

    /// Checks the statistics against the limits, in order: chunk count, total size,
    /// reference depth, string table size; the first limit exceeded gives the error.
    pub fn validate_container(&self) -> (r: Result<()>)
        ensures
            r is Ok <==> container_within_limits(self.stats, self.validator),
            self.stats.chunk_count > self.validator.max_chunks ==> (r matches Err(
                UnivError::SecurityLimitExceeded { max_value, .. },
            ) && max_value == self.validator.max_chunks),
            self.stats.chunk_count <= self.validator.max_chunks && self.stats.total_raw_size
                > self.validator.max_raw_size ==> (r matches Err(
                UnivError::SecurityLimitExceeded { max_value, .. },
            ) && max_value == self.validator.max_raw_size),
            self.stats.chunk_count <= self.validator.max_chunks && self.stats.total_raw_size
                <= self.validator.max_raw_size && self.stats.max_reference_depth is Some
                && self.stats.max_reference_depth->0 > self.validator.max_ref_depth ==> (r matches Err(e)
                && e == (UnivError::ReferenceDepthExceeded {
                current: self.stats.max_reference_depth->0,
                max: self.validator.max_ref_depth,
            })),
            r matches Err(e) ==> e is SecurityLimitExceeded || e is ReferenceDepthExceeded,
    {
        self.validator.validate_chunk_count(self.stats.chunk_count)?;
        self.validator.validate_total_size(self.stats.total_raw_size)?;
        if let Some(max_depth) = self.stats.max_reference_depth {
            self.validator.validate_reference_depth(max_depth)?;
        }
        if let Some(string_table_size) = self.stats.string_table_size {
            self.validator.validate_string_table_size(string_table_size)?;
        }
        Ok(())
    }

    /// Checks one chunk: its raw size, then its compression ratio.
    pub fn validate_chunk(&self, raw_size: u32, compressed_size: u32) -> (r: Result<()>)
        ensures
            r is Ok <==> raw_size <= self.validator.max_chunk_raw && !expansion_exceeds(
                raw_size,
                compressed_size,
                self.validator.compression_ratio_threshold,
            ),
            raw_size > self.validator.max_chunk_raw ==> (r matches Err(
                UnivError::SecurityLimitExceeded { max_value, .. },
            ) && max_value == self.validator.max_chunk_raw),
            raw_size <= self.validator.max_chunk_raw && expansion_exceeds(
                raw_size,
                compressed_size,
                self.validator.compression_ratio_threshold,
            ) ==> (r matches Err(e) && e is CompressionError),
    {
        self.validator.validate_chunk_size(raw_size)?;
        self.validator.validate_compression_ratio(raw_size, compressed_size)?;
        Ok(())
    }

    /// Forgets the cycle detector state and the statistics; the limits stay.
    pub fn reset(&mut self)
        ensures
            final(self).validator == old(self).validator,
            final(self).cycle_detector@.visited == Set::<Seq<char>>::empty(),
            final(self).cycle_detector@.path == Seq::<Seq<char>>::empty(),
            stats_empty(final(self).stats),
    {
        self.cycle_detector.reset();
        self.stats = SecurityStats::new();
    }

    /// Applies one change to the statistics.
    pub fn update_stats(&mut self, update: SecurityStatsUpdate)
        requires
            update_fits(old(self).stats, update),
        ensures
            update_applied(old(self).stats, final(self).stats, update),
            final(self).validator == old(self).validator,
            final(self).cycle_detector@ == old(self).cycle_detector@,
    {
        self.stats.apply_update(update);
    }
}

impl Default for SecurityContext {
    fn default() -> (r: Self)
        ensures
            has_default_limits(r.validator),
            r.cycle_detector@.visited == Set::<Seq<char>>::empty(),
            r.cycle_detector@.path == Seq::<Seq<char>>::empty(),
            stats_empty(r.stats),
    {
        Self::new()
    }
}

/// Which containers a reader accepts.
#[derive(Debug, Clone)]
pub struct SecurityPolicy {
    /// Strict mode.
    pub strict_mode: bool,
    /// Whether external references are allowed.
    pub allow_external_refs: bool,
    /// Whether signatures are required.
    pub require_signatures: bool,
    /// Largest file size accepted.
    pub max_file_size: u64,
    /// Profiles accepted.
    pub allowed_profiles: Vec<String>,
    /// Transform flags refused.
    pub forbidden_transforms: u16,
}

/// The text of each profile of a policy.
pub open spec fn profile_names(profiles: Seq<String>) -> Seq<Seq<char>> {
    profiles.map_values(|s: String| s@)
}

/// The profile code reported for a refused profile: its four bytes, or zeros when it is
/// not four bytes long.
pub open spec fn reported_profile(bytes: Seq<u8>) -> Seq<u8> {
    if bytes.len() == 4 {
        bytes
    } else {
        seq![0u8, 0u8, 0u8, 0u8]
    }
}

impl SecurityPolicy {
    /// The default policy: every profile, any size up to the raw-size limit.
    pub fn default_policy() -> (r: Self)
        ensures
            !r.strict_mode,
            r.allow_external_refs,
            !r.require_signatures,
            r.max_file_size == security_limits::MAX_RAW_SIZE,
            profile_names(r.allowed_profiles@) == seq![
                "BLOB"@,
                "RECD"@,
                "TABL"@,
                "TSDB"@,
                "GRPH"@,
                "TYPE"@,
            ],
            r.forbidden_transforms == 0,
    {
        let allowed_profiles = vec![
            String::from_str("BLOB"),
            String::from_str("RECD"),
            String::from_str("TABL"),
            String::from_str("TSDB"),
            String::from_str("GRPH"),
            String::from_str("TYPE"),
        ];
        let r = SecurityPolicy {
            strict_mode: false,
            allow_external_refs: true,
            require_signatures: false,
            max_file_size: security_limits::MAX_RAW_SIZE,
            allowed_profiles,
            forbidden_transforms: 0,
        };
        assert(profile_names(r.allowed_profiles@) =~= seq![
            "BLOB"@,
            "RECD"@,
            "TABL"@,
            "TSDB"@,
            "GRPH"@,
            "TYPE"@,
        ]);
        r
    }

    /// The strict policy: record and type profiles only, at most 100 MiB, signatures required.
    pub fn strict_policy() -> (r: Self)
        ensures
            r.strict_mode,
            !r.allow_external_refs,
            r.require_signatures,
            r.max_file_size == 100 * 1024 * 1024,
            profile_names(r.allowed_profiles@) == seq!["RECD"@, "TYPE"@],
            r.forbidden_transforms == 0,
    {
        let allowed_profiles = vec![String::from_str("RECD"), String::from_str("TYPE")];
        let r = SecurityPolicy {
            strict_mode: true,
            allow_external_refs: false,
            require_signatures: true,
            max_file_size: 100 * 1024 * 1024,
            allowed_profiles,
            forbidden_transforms: 0,
        };
        assert(profile_names(r.allowed_profiles@) =~= seq!["RECD"@, "TYPE"@]);
        r
    }

    /// Refuses a profile that the policy does not list.
    pub fn validate_profile(&self, profile: &str) -> (r: Result<()>)
        ensures
            r is Ok <==> profile_names(self.allowed_profiles@).contains(profile@),
            r matches Err(e) ==> (e matches UnivError::UnsupportedProfile { profile: p } && p@
                == reported_profile(profile.spec_bytes())),
    {
        let mut i: usize = 0;
        while i < self.allowed_profiles.len()
            invariant
                i <= self.allowed_profiles@.len(),
                forall|j: int| 0 <= j < i ==> self.allowed_profiles@[j]@ != profile@,
            decreases self.allowed_profiles@.len() - i,
        {
            if crate::util::text::str_eq(self.allowed_profiles[i].as_str(), profile) {
                assert(profile_names(self.allowed_profiles@)[i as int] == profile@);
                return Ok(());
            }
            i += 1;
        }
        proof {
            let names = profile_names(self.allowed_profiles@);
            assert forall|j: int| 0 <= j < names.len() implies names[j] != profile@ by {
                assert(names[j] == self.allowed_profiles@[j]@);
            }
        }
        let b = profile.as_bytes();
        let code: [u8; 4] = if b.len() == 4 {
            [b[0], b[1], b[2], b[3]]
        } else {
            [0u8; 4]
        };
        assert(code@ =~= reported_profile(profile.spec_bytes()));
        Err(UnivError::UnsupportedProfile { profile: code })
    }

    /// Refuses transform flags that the policy forbids.
    pub fn validate_transforms(&self, transform_flags: u16) -> (r: Result<()>)
        ensures
            r is Ok <==> transform_flags & self.forbidden_transforms == 0,
            r matches Err(e) ==> e is InvalidTransform,
    {
        if transform_flags & self.forbidden_transforms != 0 {
            return Err(UnivError::InvalidTransform { reason: String::from_str("使用了被禁止的变换") });
        }
        Ok(())
    }

    /// Refuses a file larger than the policy allows.
    pub fn validate_file_size(&self, file_size: u64) -> (r: Result<()>)
        ensures
            r is Ok <==> file_size <= self.max_file_size,
            r matches Err(e) ==> (e matches UnivError::SecurityLimitExceeded { limit_type, max_value }
                && max_value == self.max_file_size && limit_type@ == "file_size"@),
    {
        proof {
            reveal_strlit("file_size");
        }
        if file_size > self.max_file_size {
            return Err(UnivError::SecurityLimitExceeded {
                limit_type: String::from_str("file_size"),
                max_value: self.max_file_size,
            });
        }
        Ok(())
    }
}

/// Thresholds of the attack detector.
#[derive(Debug, Clone)]
pub struct AttackThresholds {
    /// Largest raw-to-compressed ratio, as a whole multiple, before a chunk is suspect.
    pub max_compression_ratio: u32,
    /// Suspect chunks tolerated before a compression bomb is declared.
    pub max_compression_bomb_attempts: u32,
    /// Largest reference depth.
    pub max_reference_depth: u32,
    /// Largest chunk count.
    pub max_chunk_count: u32,
}

impl Default for AttackThresholds {
    fn default() -> (r: Self)
        ensures
            r.max_compression_ratio == security_limits::COMPRESSION_RATIO_THRESHOLD,
            r.max_compression_bomb_attempts == 3,
            r.max_reference_depth == security_limits::MAX_REF_DEPTH,
            r.max_chunk_count == security_limits::MAX_CHUNKS,
    {
        AttackThresholds {
            max_compression_ratio: security_limits::COMPRESSION_RATIO_THRESHOLD,
            max_compression_bomb_attempts: 3,
            max_reference_depth: security_limits::MAX_REF_DEPTH,
            max_chunk_count: security_limits::MAX_CHUNKS,
        }
    }
}

/// Counts suspicious activity by name and refuses what passes the thresholds.
pub struct AttackDetector {
    suspicious_activities: StringMap<u32>,
    thresholds: AttackThresholds,
}

/// Whether a chunk of `compressed` stored bytes that expand to `raw` bytes compresses beyond
/// the ratio `max_ratio` (a chunk with no stored bytes never does).
pub open spec fn ratio_exceeds(compressed: u32, raw: u32, max_ratio: u32) -> bool {
    compressed != 0 && raw as int > max_ratio as int * compressed as int
}

/// The counter `name` after one more occurrence.
pub open spec fn counted(activities: Seq<(Seq<char>, u32)>, name: Seq<char>) -> Seq<(Seq<char>, u32)> {
    entries_insert(
        activities,
        name,
        match key_value(activities, name) {
            Some(c) => (c + 1) as u32,
            None => 1u32,
        },
    )
}

/// Whether counter `name` can take one more occurrence.
pub open spec fn counter_below_max(activities: Seq<(Seq<char>, u32)>, name: Seq<char>) -> bool {
    key_value(activities, name) matches Some(c) ==> c < u32::MAX
}

impl AttackDetector {
    /// The counters of suspicious activity, by name.
    pub closed spec fn activities(&self) -> Seq<(Seq<char>, u32)> {
        self.suspicious_activities@
    }

    /// The thresholds.
    pub closed spec fn spec_thresholds(&self) -> AttackThresholds {
        self.thresholds
    }

    /// A detector with the default thresholds and no counts.
    pub fn new() -> (r: Self)
        ensures
            r.activities() == Seq::<(Seq<char>, u32)>::empty(),
            r.spec_thresholds().max_compression_ratio == security_limits::COMPRESSION_RATIO_THRESHOLD,
            r.spec_thresholds().max_compression_bomb_attempts == 3,
            r.spec_thresholds().max_reference_depth == security_limits::MAX_REF_DEPTH,
            r.spec_thresholds().max_chunk_count == security_limits::MAX_CHUNKS,
    {
        AttackDetector { suspicious_activities: StringMap::new(), thresholds: AttackThresholds::default() }
    }

    fn count(&mut self, name: &str) -> (r: u32)
        requires
            counter_below_max(old(self).activities(), name@),
        ensures
            final(self).activities() == counted(old(self).activities(), name@),
            key_value(final(self).activities(), name@) == Some(r),
            final(self).spec_thresholds() == old(self).spec_thresholds(),
    {
        let c: u32 = match self.suspicious_activities.get(name) {
            Some(c) => *c + 1,
            None => 1,
        };
        let ghost before = self.suspicious_activities@;
        self.suspicious_activities.insert(name.to_owned(), c);
        proof {
            lemma_counted_value(before, name@, c);
        }
        c
    }

    /// Refuses a chunk that expands beyond the ratio threshold and counts it; beyond the
    /// number of attempts tolerated, the refusal names a compression bomb.
    pub fn detect_compression_bomb(&mut self, compressed_size: u32, raw_size: u32) -> (r: Result<()>)
        requires
            counter_below_max(old(self).activities(), "compression_bomb"@),
        ensures
            r is Ok <==> !ratio_exceeds(
                compressed_size,
                raw_size,
                old(self).spec_thresholds().max_compression_ratio,
            ),
            r is Ok ==> final(self).activities() == old(self).activities(),
            r is Err ==> final(self).activities() == counted(
                old(self).activities(),
                "compression_bomb"@,
            ),
            r matches Err(e) ==> e is CompressionError,
            r matches Err(UnivError::CompressionError { reason }) ==> (reason@ == "检测到压缩炸弹攻击"@
                <==> key_value(final(self).activities(), "compression_bomb"@).unwrap()
                > old(self).spec_thresholds().max_compression_bomb_attempts),
            final(self).spec_thresholds() == old(self).spec_thresholds(),
    {
        if compressed_size == 0 {
            return Ok(());
        }
        let ratio = self.thresholds.max_compression_ratio as u64;
        let stored = compressed_size as u64;
        assert(ratio * stored <= 0xffff_ffff * 0xffff_ffff) by (nonlinear_arith)
            requires
                ratio <= 0xffff_ffff,
                stored <= 0xffff_ffff,
        ;
        if raw_size as u64 > ratio * stored {
            let count = self.count("compression_bomb");
            if count > self.thresholds.max_compression_bomb_attempts {
                return Err(UnivError::CompressionError { reason: String::from_str("检测到压缩炸弹攻击") });
            }
            let mut reason = String::from_str("可疑的压缩比: ");
            reason.append(decimal_string(raw_size as u64).as_str());
            reason.append("/");
            reason.append(decimal_string(compressed_size as u64).as_str());
            proof {
                reveal_strlit("检测到压缩炸弹攻击");
                reveal_strlit("可疑的压缩比: ");
                assert("可疑的压缩比: "@[0] != "检测到压缩炸弹攻击"@[0]);
                assert(reason@[0] == "可疑的压缩比: "@[0]);
            }
            return Err(UnivError::CompressionError { reason });
        }
        Ok(())
    }

    /// Refuses a reference depth beyond the threshold and counts it.
    pub fn detect_deep_reference(&mut self, depth: u32) -> (r: Result<()>)
        requires
            counter_below_max(old(self).activities(), "deep_reference"@),
        ensures
            r is Ok <==> depth <= old(self).spec_thresholds().max_reference_depth,
            r is Ok ==> final(self).activities() == old(self).activities(),
            r is Err ==> final(self).activities() == counted(
                old(self).activities(),
                "deep_reference"@,
            ),
            r matches Err(e) ==> e == (UnivError::ReferenceDepthExceeded {
                current: depth,
                max: old(self).spec_thresholds().max_reference_depth,
            }),
            final(self).spec_thresholds() == old(self).spec_thresholds(),
    {
        if depth > self.thresholds.max_reference_depth {
            self.count("deep_reference");
            return Err(
                UnivError::ReferenceDepthExceeded {
                    current: depth,
                    max: self.thresholds.max_reference_depth,
                },
            );
        }
        Ok(())
    }

    /// Refuses a chunk count beyond the threshold.
    pub fn detect_excessive_chunks(&mut self, chunk_count: u32) -> (r: Result<()>)
        ensures
            r is Ok <==> chunk_count <= old(self).spec_thresholds().max_chunk_count,
            r matches Err(e) ==> (e matches UnivError::SecurityLimitExceeded { max_value, .. }
                && max_value == old(self).spec_thresholds().max_chunk_count),
            final(self).activities() == old(self).activities(),
            final(self).spec_thresholds() == old(self).spec_thresholds(),
    {
        if chunk_count > self.thresholds.max_chunk_count {
            return Err(
                UnivError::security_limit_exceeded(
                    "chunk_count",
                    self.thresholds.max_chunk_count as u64,
                ),
            );
        }
        Ok(())
    }

    /// Forgets every count.
    pub fn reset(&mut self)
        ensures
            final(self).activities() == Seq::<(Seq<char>, u32)>::empty(),
            final(self).spec_thresholds() == old(self).spec_thresholds(),
    {
        self.suspicious_activities = StringMap::new();
    }

    /// The counters of suspicious activity.
    pub fn get_suspicious_activities(&self) -> (r: &StringMap<u32>)
        ensures
            r@ == self.activities(),
    {
        &self.suspicious_activities
    }
}

impl Default for AttackDetector {
    fn default() -> (r: Self)
        ensures
            r.activities() == Seq::<(Seq<char>, u32)>::empty(),
    {
        Self::new()
    }
}

proof fn lemma_counted_value(activities: Seq<(Seq<char>, u32)>, name: Seq<char>, c: u32)
    requires
        c == match key_value(activities, name) {
            Some(x) => (x + 1) as u32,
            None => 1u32,
        },
        crate::util::string_map::keys_distinct(activities),
    ensures
        key_value(counted(activities, name), name) == Some(c),
{
    let after = counted(activities, name);
    match crate::util::string_map::key_position(activities, name) {
        Some(i) => {
            assert(after[i].0 == name);
            crate::util::string_map::lemma_insert_distinct(activities, name, c);
            crate::util::string_map::lemma_key_position_unique(after, name, i);
        },
        None => {
            crate::util::string_map::lemma_insert_distinct(activities, name, c);
            crate::util::string_map::lemma_key_position_unique(after, name, activities.len() as int);
        },
    }
}

} // verus!
