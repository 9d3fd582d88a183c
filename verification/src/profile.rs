//! Profiles: the data modes a container can be created in.

use vstd::prelude::*;
use crate::constants::{chunk_kinds, profile_codes, transform_flags};
use crate::error::{Result, UnivError};

verus! {

/// Profiles supported by the format.
#[derive(Debug, Clone, Copy, PartialEq, Eq, Hash)]
pub enum Profile {
    /// Large objects and media.
    Blob,
    /// Structured records.
    Recd,
    /// Columnar tables.
    Tabl,
    /// Time series.
    Tsdb,
    /// Graphs / DAGs.
    Grph,
    /// Mixed (legacy).
    Mixd,
    /// Type repository.
    Type,
    /// Experimental profile; its code starts with `X`.
    Custom([u8; 4]),
}

/// Whether two four-byte codes are equal.
pub fn codes_equal(a: &[u8; 4], b: &[u8; 4]) -> (r: bool)
    ensures
        r == (a@ == b@),
{
    let r = a[0] == b[0] && a[1] == b[1] && a[2] == b[2] && a[3] == b[3];
    proof {
        if r {
            assert(a@ =~= b@);
        }
    }
    r
}

impl Profile {
    /// The four-byte code of the profile.
    pub open spec fn spec_to_code(self) -> Seq<u8> {
        match self {
            Profile::Blob => profile_codes::BLOB@,
            Profile::Recd => profile_codes::RECD@,
            Profile::Tabl => profile_codes::TABL@,
            Profile::Tsdb => profile_codes::TSDB@,
            Profile::Grph => profile_codes::GRPH@,
            Profile::Mixd => profile_codes::MIXD@,
            Profile::Type => profile_codes::TYPE@,
            Profile::Custom(code) => code@,
        }
    }

    /// The profile a four-byte code names: a standard code, or any code starting with `X`.
    pub open spec fn spec_from_code(code: Seq<u8>) -> Option<Profile> {
        if code == profile_codes::BLOB@ {
            Some(Profile::Blob)
        } else if code == profile_codes::RECD@ {
            Some(Profile::Recd)
        } else if code == profile_codes::TABL@ {
            Some(Profile::Tabl)
        } else if code == profile_codes::TSDB@ {
            Some(Profile::Tsdb)
        } else if code == profile_codes::GRPH@ {
            Some(Profile::Grph)
        } else if code == profile_codes::MIXD@ {
            Some(Profile::Mixd)
        } else if code == profile_codes::TYPE@ {
            Some(Profile::Type)
        } else if code.len() == 4 && code[0] == 0x58u8 {
            Some(Profile::Custom([code[0], code[1], code[2], code[3]]))
        } else {
            None
        }
    }

    /// A custom profile is well formed when its code starts with `X`.
    pub open spec fn well_formed(self) -> bool {
        match self {
            Profile::Custom(code) => code[0] == 0x58u8,
            _ => true,
        }
    }

    /// Parses a four-byte profile code.
    pub fn from_code(code: &[u8; 4]) -> (r: Result<Self>)
        ensures
            match Self::spec_from_code(code@) {
                Some(p) => r matches Ok(q) && q == p,
                None => r matches Err(UnivError::UnsupportedProfile { profile }) && profile@ == code@,
            },
    {
        if codes_equal(code, &profile_codes::BLOB) {
            Ok(Profile::Blob)
        } else if codes_equal(code, &profile_codes::RECD) {
            Ok(Profile::Recd)
        } else if codes_equal(code, &profile_codes::TABL) {
            Ok(Profile::Tabl)
        } else if codes_equal(code, &profile_codes::TSDB) {
            Ok(Profile::Tsdb)
        } else if codes_equal(code, &profile_codes::GRPH) {
            Ok(Profile::Grph)
        } else if codes_equal(code, &profile_codes::MIXD) {
            Ok(Profile::Mixd)
        } else if codes_equal(code, &profile_codes::TYPE) {
            Ok(Profile::Type)
        } else if code[0] == 0x58u8 {
            Ok(Profile::Custom([code[0], code[1], code[2], code[3]]))
        } else {
            Err(UnivError::UnsupportedProfile { profile: [code[0], code[1], code[2], code[3]] })
        }
    }

    /// The four-byte code of the profile.
    pub fn to_code(&self) -> (r: [u8; 4])
        ensures
            r@ == self.spec_to_code(),
    {
        match self {
            Profile::Blob => profile_codes::BLOB,
            Profile::Recd => profile_codes::RECD,
            Profile::Tabl => profile_codes::TABL,
            Profile::Tsdb => profile_codes::TSDB,
            Profile::Grph => profile_codes::GRPH,
            Profile::Mixd => profile_codes::MIXD,
            Profile::Type => profile_codes::TYPE,
            Profile::Custom(code) => *code,
        }
    }
}

impl Profile {
    /// Description of the profile.
    pub fn description(&self) -> (r: &'static str)
        ensures
            r@ == match self {
                Profile::Blob => "大对象/媒体文件"@,
                Profile::Recd => "结构化记录"@,
                Profile::Tabl => "列式表"@,
                Profile::Tsdb => "时间序列"@,
                Profile::Grph => "图/DAG"@,
                Profile::Mixd => "混合（遗留）"@,
                Profile::Type => "类型仓库"@,
                Profile::Custom(_) => "自定义"@,
            },
    {
        match self {
            Profile::Blob => "大对象/媒体文件",
            Profile::Recd => "结构化记录",
            Profile::Tabl => "列式表",
            Profile::Tsdb => "时间序列",
            Profile::Grph => "图/DAG",
            Profile::Mixd => "混合（遗留）",
            Profile::Type => "类型仓库",
            Profile::Custom(_) => "自定义",
        }
    }

    /// Whether the profile is stable.
    pub fn is_stable(&self) -> (r: bool)
        ensures
            r == (self is Blob || self is Recd || self is Tabl || self is Tsdb || self is Type),
    {
        match self {
            Profile::Blob | Profile::Recd | Profile::Tabl | Profile::Tsdb | Profile::Type => true,
            _ => false,
        }
    }

    /// Whether the profile is experimental.
    pub fn is_experimental(&self) -> (r: bool)
        ensures
            r == (self is Custom),
    {
        match self {
            Profile::Custom(_) => true,
            _ => false,
        }
    }

    /// Whether the profile is legacy.
    pub fn is_legacy(&self) -> (r: bool)
        ensures
            r == (self is Mixd),
    {
        match self {
            Profile::Mixd => true,
            _ => false,
        }
    }

    /// Chunk kinds the profile supports, in their listed order.
    pub open spec fn spec_supported_chunk_kinds(self) -> Seq<u8> {
        match self {
            Profile::Blob => seq![chunk_kinds::BLOB, chunk_kinds::INDEX_SHARD, chunk_kinds::ATTACHMENT],
            Profile::Recd => seq![
                chunk_kinds::DATA_NODE,
                chunk_kinds::SCHEMA,
                chunk_kinds::STRING_TABLE,
                chunk_kinds::INDEX_SHARD,
                chunk_kinds::ATTACHMENT,
            ],
            Profile::Tabl => seq![
                chunk_kinds::DATA_NODE,
                chunk_kinds::SCHEMA,
                chunk_kinds::STRING_TABLE,
                chunk_kinds::INDEX_SHARD,
            ],
            Profile::Tsdb => seq![
                chunk_kinds::DATA_NODE,
                chunk_kinds::SCHEMA,
                chunk_kinds::INDEX_SHARD,
                chunk_kinds::STRING_TABLE,
            ],
            Profile::Grph => seq![
                chunk_kinds::DATA_NODE,
                chunk_kinds::SCHEMA,
                chunk_kinds::STRING_TABLE,
                chunk_kinds::INDEX_SHARD,
                chunk_kinds::ATTACHMENT,
            ],
            Profile::Type => seq![
                chunk_kinds::SCHEMA,
                chunk_kinds::STRING_TABLE,
                chunk_kinds::INDEX_SHARD,
                chunk_kinds::ATTACHMENT,
            ],
            Profile::Mixd | Profile::Custom(_) => seq![
                chunk_kinds::DATA_NODE,
                chunk_kinds::BLOB,
                chunk_kinds::SCHEMA,
                chunk_kinds::STRING_TABLE,
                chunk_kinds::INDEX_SHARD,
                chunk_kinds::ATTACHMENT,
            ],
        }
    }

    /// Chunk kinds the profile supports.
    pub fn supported_chunk_kinds(&self) -> (r: Vec<u8>)
        ensures
            r@ == self.spec_supported_chunk_kinds(),
    {
        let r = match self {
            Profile::Blob => vec![chunk_kinds::BLOB, chunk_kinds::INDEX_SHARD, chunk_kinds::ATTACHMENT],
            Profile::Recd => vec![
                chunk_kinds::DATA_NODE,
                chunk_kinds::SCHEMA,
                chunk_kinds::STRING_TABLE,
                chunk_kinds::INDEX_SHARD,
                chunk_kinds::ATTACHMENT,
            ],
            Profile::Tabl => vec![
                chunk_kinds::DATA_NODE,
                chunk_kinds::SCHEMA,
                chunk_kinds::STRING_TABLE,
                chunk_kinds::INDEX_SHARD,
            ],
            Profile::Tsdb => vec![
                chunk_kinds::DATA_NODE,
                chunk_kinds::SCHEMA,
                chunk_kinds::INDEX_SHARD,
                chunk_kinds::STRING_TABLE,
            ],
            Profile::Grph => vec![
                chunk_kinds::DATA_NODE,
                chunk_kinds::SCHEMA,
                chunk_kinds::STRING_TABLE,
                chunk_kinds::INDEX_SHARD,
                chunk_kinds::ATTACHMENT,
            ],
            Profile::Type => vec![
                chunk_kinds::SCHEMA,
                chunk_kinds::STRING_TABLE,
                chunk_kinds::INDEX_SHARD,
                chunk_kinds::ATTACHMENT,
            ],
            Profile::Mixd | Profile::Custom(_) => vec![
                chunk_kinds::DATA_NODE,
                chunk_kinds::BLOB,
                chunk_kinds::SCHEMA,
                chunk_kinds::STRING_TABLE,
                chunk_kinds::INDEX_SHARD,
                chunk_kinds::ATTACHMENT,
            ],
        };
        assert(r@ =~= self.spec_supported_chunk_kinds());
        r
    }

    /// Transform flags recommended for the profile.
    pub open spec fn spec_recommended_transforms(self) -> u16 {
        match self {
            Profile::Blob => transform_flags::CDC,
            Profile::Recd => transform_flags::DICT_STRING | transform_flags::INTEGER_VARINT,
            Profile::Tabl => transform_flags::COLUMNARIZE | transform_flags::BIT_PACK
                | transform_flags::RLE | transform_flags::DELTA | transform_flags::DICT_STRING,
            Profile::Tsdb => transform_flags::DELTA | transform_flags::GORILLA
                | transform_flags::INTEGER_VARINT,
            Profile::Grph => transform_flags::DICT_STRING | transform_flags::INTEGER_VARINT
                | transform_flags::COLUMNARIZE,
            Profile::Mixd => 0,
            Profile::Type => transform_flags::DICT_STRING,
            Profile::Custom(_) => 0,
        }
    }

    /// Transform flags recommended for the profile.
    pub fn recommended_transforms(&self) -> (r: u16)
        ensures
            r == self.spec_recommended_transforms(),
    {
        match self {
            Profile::Blob => transform_flags::CDC,
            Profile::Recd => transform_flags::DICT_STRING | transform_flags::INTEGER_VARINT,
            Profile::Tabl => transform_flags::COLUMNARIZE | transform_flags::BIT_PACK
                | transform_flags::RLE | transform_flags::DELTA | transform_flags::DICT_STRING,
            Profile::Tsdb => transform_flags::DELTA | transform_flags::GORILLA
                | transform_flags::INTEGER_VARINT,
            Profile::Grph => transform_flags::DICT_STRING | transform_flags::INTEGER_VARINT
                | transform_flags::COLUMNARIZE,
            Profile::Mixd => 0,
            Profile::Type => transform_flags::DICT_STRING,
            Profile::Custom(_) => 0,
        }
    }

    /// Default hash policy of the profile: payload-inclusive for `Type`, data-only otherwise.
    pub fn default_hash_policy(&self) -> (r: u8)
        ensures
            r == (if self is Type { crate::constants::hash_policy::PAYLOAD_INCLUSIVE } else {
                crate::constants::hash_policy::DATA_ONLY
            }),
    {
        match self {
            Profile::Type => crate::constants::hash_policy::PAYLOAD_INCLUSIVE,
            _ => crate::constants::hash_policy::DATA_ONLY,
        }
    }

    /// Whether the profile supports the chunk kind.
    pub fn supports_chunk_kind(&self, chunk_kind: u8) -> (r: bool)
        ensures
            r == self.spec_supported_chunk_kinds().contains(chunk_kind),
    {
        let kinds = self.supported_chunk_kinds();
        let mut i: usize = 0;
        while i < kinds.len()
            invariant
                i <= kinds.len(),
                kinds@ == self.spec_supported_chunk_kinds(),
                forall|j: int| 0 <= j < i ==> kinds@[j] != chunk_kind,
            decreases kinds.len() - i,
        {
            if kinds[i] == chunk_kind {
                return true;
            }
            i += 1;
        }
        false
    }

    /// Transform flags that the profile forbids: Columnarize, CDC and Gorilla for `Type`.
    pub open spec fn spec_forbidden_transforms(self) -> u16 {
        if self is Type {
            transform_flags::COLUMNARIZE | transform_flags::CDC | transform_flags::GORILLA
        } else {
            0
        }
    }

    /// Checks the transform flags against the profile's restrictions.
    pub fn validate_transforms(&self, transform_flags: u16) -> (r: Result<()>)
        ensures
            r is Ok <== (transform_flags & self.spec_forbidden_transforms()) == 0,
            r is Err ==> r matches Err(UnivError::InvalidTransform { .. }),
            (transform_flags & self.spec_forbidden_transforms()) != 0 ==> r is Err,
    {
        match self {
            Profile::Type => {
                if transform_flags & (crate::constants::transform_flags::COLUMNARIZE
                    | crate::constants::transform_flags::CDC
                    | crate::constants::transform_flags::GORILLA) != 0 {
                    return Err(UnivError::InvalidTransform {
                        reason: "TYPE Profile 禁止使用 Columnarize、CDC 或 Gorilla 变换".to_string(),
                    });
                }
                Ok(())
            },
            _ => {
                assert(transform_flags & 0 == 0) by (bit_vector);
                Ok(())
            },
        }
    }
}

/// Law: the chunk kinds a profile allows fit the rest of its rules. A profile that
/// recommends the string-dictionary transform allows string-table chunks (where the
/// dictionary is stored); a profile that allows data nodes allows the schemas they refer to;
/// every profile allows index shards; the listed kinds are registered kinds (codes 1 to 6),
/// each listed once; and no profile forbids a transform it recommends.
pub proof fn lemma_profile_rules_agree(p: Profile)
    ensures
        (p.spec_recommended_transforms() & transform_flags::DICT_STRING) != 0
            ==> p.spec_supported_chunk_kinds().contains(chunk_kinds::STRING_TABLE),
        p.spec_supported_chunk_kinds().contains(chunk_kinds::DATA_NODE)
            ==> p.spec_supported_chunk_kinds().contains(chunk_kinds::SCHEMA),
        p.spec_supported_chunk_kinds().contains(chunk_kinds::INDEX_SHARD),
        forall|i: int|
            0 <= i < p.spec_supported_chunk_kinds().len() ==> 1 <= #[trigger] p.spec_supported_chunk_kinds()[i] <= 6,
        forall|i: int, j: int|
            0 <= i < j < p.spec_supported_chunk_kinds().len() ==> p.spec_supported_chunk_kinds()[i]
                != p.spec_supported_chunk_kinds()[j],
        p.spec_recommended_transforms() & p.spec_forbidden_transforms() == 0,
{
    let k = p.spec_supported_chunk_kinds();
    let rec = p.spec_recommended_transforms();
    assert(0u16 & 0x1u16 == 0 && 0x80u16 & 0x1u16 == 0 && 0x62u16 & 0x1u16 == 0) by (bit_vector);
    assert(forall|x: u16| x & 0u16 == 0) by (bit_vector);
    assert(0x1u16 & (0x4u16 | 0x80u16 | 0x40u16) == 0) by (bit_vector);
    match p {
        Profile::Blob => {
            assert(k[1] == chunk_kinds::INDEX_SHARD);
        },
        Profile::Recd => {
            assert(k[2] == chunk_kinds::STRING_TABLE && k[1] == chunk_kinds::SCHEMA && k[3] == chunk_kinds::INDEX_SHARD);
        },
        Profile::Tabl => {
            assert(k[2] == chunk_kinds::STRING_TABLE && k[1] == chunk_kinds::SCHEMA && k[3] == chunk_kinds::INDEX_SHARD);
        },
        Profile::Tsdb => {
            assert(k[1] == chunk_kinds::SCHEMA && k[2] == chunk_kinds::INDEX_SHARD);
        },
        Profile::Grph => {
            assert(k[2] == chunk_kinds::STRING_TABLE && k[1] == chunk_kinds::SCHEMA && k[3] == chunk_kinds::INDEX_SHARD);
        },
        Profile::Type => {
            assert(k[1] == chunk_kinds::STRING_TABLE && k[0] == chunk_kinds::SCHEMA && k[2] == chunk_kinds::INDEX_SHARD);
        },
        _ => {
            assert(k[2] == chunk_kinds::SCHEMA && k[3] == chunk_kinds::STRING_TABLE && k[4] == chunk_kinds::INDEX_SHARD);
        },
    }
}

/// Law: parsing the code of a well-formed profile gives the profile back.
pub proof fn lemma_profile_code_roundtrip(p: Profile)
    requires
        p.well_formed(),
    ensures
        Profile::spec_from_code(p.spec_to_code()) == Some(p),
{
    if let Profile::Custom(code) = p {
        let c = code@;
        assert(c[0] == 0x58u8);
        assert(c != profile_codes::BLOB@ && c != profile_codes::RECD@ && c != profile_codes::TABL@);
        assert(c != profile_codes::TSDB@ && c != profile_codes::GRPH@ && c != profile_codes::MIXD@);
        assert(c != profile_codes::TYPE@);
        let q = [c[0], c[1], c[2], c[3]];
        assert(q@ =~= code@);
        assert(q == code);
    }
}

/// Law: a code that parses is the code of the profile it parses to, and that profile is
/// well formed.
pub proof fn lemma_profile_code_parse_inverse(code: [u8; 4])
    ensures
        Profile::spec_from_code(code@) matches Some(p) ==> p.spec_to_code() == code@
            && p.well_formed(),
{
    if let Some(p) = Profile::spec_from_code(code@) {
        if let Profile::Custom(c) = p {
            assert(c@ =~= code@);
        }
    }
}

} // verus!
