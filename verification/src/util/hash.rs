//! Hash algorithms of the format and content hashes.

use vstd::prelude::*;
use crate::constants::hash_algorithms;
use crate::error::{Result, UnivError};
use sha2::Digest;
use vstd::string::*;

verus! {

/// BLAKE3-256 digest of `data`, as computed by the `blake3` crate.
pub uninterp spec fn blake3_digest(data: Seq<u8>) -> Seq<u8>;

/// SHA-256 digest of `data`, as computed by the `sha2` crate.
pub uninterp spec fn sha256_digest(data: Seq<u8>) -> Seq<u8>;

/// CRC-32C (Castagnoli) checksum of `data`, as computed by the `crc32c` crate.
pub uninterp spec fn crc32c_checksum(data: Seq<u8>) -> u32;

/// BLAKE3-256 hash of `data` through `blake3::hash`.
/// Claims that the result is the named digest of `data`, 32 bytes long.
#[verifier::external_body]
pub(crate) fn blake3_hash(data: &[u8]) -> (r: Vec<u8>)
    ensures
        r@ == blake3_digest(data@),
        r@.len() == 32,
{
    blake3::hash(data).as_bytes().to_vec()
}

/// SHA-256 hash of `data` through `sha2::Sha256` (new, update, finalize).
/// Claims that the result is the named digest of `data`, 32 bytes long.
#[verifier::external_body]
pub(crate) fn sha256_hash(data: &[u8]) -> (r: Vec<u8>)
    ensures
        r@ == sha256_digest(data@),
        r@.len() == 32,
{
    let mut hasher = sha2::Sha256::new();
    hasher.update(data);
    hasher.finalize().to_vec()
}

/// CRC-32C of `data` through `crc32c::crc32c`.
/// Claims that the result is the named checksum of `data`.
#[verifier::external_body]
pub(crate) fn crc32c(data: &[u8]) -> (r: u32)
    ensures
        r == crc32c_checksum(data@),
{
    crc32c::crc32c(data)
}

/// Lower-case hexadecimal digit of a value below 16.
pub open spec fn hex_digit(n: u8) -> char {
    if n < 10 {
        (48 + n) as char
    } else {
        (87 + n) as char
    }
}

/// Lower-case hexadecimal text of `data`, two digits per byte, high nibble first.
pub open spec fn hex_encoding(data: Seq<u8>) -> Seq<char>
    decreases data.len(),
{
    if data.len() == 0 {
        Seq::empty()
    } else {
        seq![hex_digit(data[0] / 16), hex_digit(data[0] % 16)] + hex_encoding(data.drop_first())
    }
}

/// Value of a hexadecimal digit (either case).
pub open spec fn hex_value(c: u8) -> Option<u8> {
    if 65 <= c <= 70 {
        Some((c - 55) as u8)
    } else if 97 <= c <= 102 {
        Some((c - 87) as u8)
    } else if 48 <= c <= 57 {
        Some((c - 48) as u8)
    } else {
        None
    }
}

/// Bytes of a hexadecimal text of even length whose characters are all hex digits.
pub open spec fn hex_decoding(s: Seq<u8>) -> Option<Seq<u8>>
    decreases s.len(),
{
    if s.len() % 2 != 0 {
        None
    } else if s.len() == 0 {
        Some(Seq::empty())
    } else {
        match (hex_value(s[0]), hex_value(s[1]), hex_decoding(s.skip(2))) {
            (Some(h), Some(l), Some(rest)) => Some(seq![(h * 16 + l) as u8] + rest),
            _ => None,
        }
    }
}

/// Lower-case hex text of `data` through `hex::encode`.
/// Claims the exact text: two lower-case digits per byte, high nibble first.
#[verifier::external_body]
pub(crate) fn hex_encode(data: &[u8]) -> (r: String)
    ensures
        r@ == hex_encoding(data@),
{
    hex::encode(data)
}

/// Bytes of a hex text through `hex::decode`.
/// Claims that it succeeds exactly on texts of even length made of hex digits of either case,
/// with the decoded bytes.
#[verifier::external_body]
pub(crate) fn hex_decode(text: &str) -> (r: Option<Vec<u8>>)
    ensures
        match hex_decoding(vstd::utf8::encode_utf8(text@)) {
            Some(b) => r matches Some(v) && v@ == b,
            None => r is None,
        },
{
    hex::decode(text).ok()
}

/// The little-endian bytes of a `u32`.
pub open spec fn u32_le_bytes(v: u32) -> Seq<u8> {
    seq![(v % 256) as u8, ((v / 256) % 256) as u8, ((v / 65536) % 256) as u8, (v / 16777216) as u8]
}

/// Digest of `data` under a hash algorithm code, or `None` for an unknown code.
pub open spec fn hash_spec(algorithm: u8, data: Seq<u8>) -> Option<Seq<u8>> {
    if algorithm == hash_algorithms::BLAKE3 {
        Some(blake3_digest(data))
    } else if algorithm == hash_algorithms::SHA256 {
        Some(sha256_digest(data))
    } else if algorithm == hash_algorithms::CRC32C {
        Some(u32_le_bytes(crc32c_checksum(data)))
    } else {
        None
    }
}

/// Digest length of a hash algorithm code, or `None` for an unknown code.
pub open spec fn hash_length_spec(algorithm: u8) -> Option<nat> {
    if algorithm == hash_algorithms::BLAKE3 || algorithm == hash_algorithms::SHA256 {
        Some(32)
    } else if algorithm == hash_algorithms::CRC32C {
        Some(4)
    } else {
        None
    }
}

/// The little-endian bytes of a `u32`.
pub fn u32_to_le_bytes(v: u32) -> (r: Vec<u8>)
    ensures
        r@ == u32_le_bytes(v),
{
    let r = vec![(v % 256) as u8, ((v / 256) % 256) as u8, ((v / 65536) % 256) as u8, (v / 16777216) as u8];
    assert(r@ =~= u32_le_bytes(v));
    r
}

/// Entry point to the hash algorithms of the format.
pub struct HashProvider;

impl HashProvider {
    /// Hashes `data` with the algorithm of the given code.
    pub fn hash(algorithm: u8, data: &[u8]) -> (r: Result<Vec<u8>>)
        ensures
            match hash_spec(algorithm, data@) {
                Some(h) => r matches Ok(v) && v@ == h,
                None => r matches Err(UnivError::UnsupportedHashAlgorithm { algorithm: a })
                    && a == algorithm,
            },
            r matches Ok(v) ==> hash_length_spec(algorithm) == Some(v@.len()),
    {
        if algorithm == hash_algorithms::BLAKE3 {
            Ok(blake3_hash(data))
        } else if algorithm == hash_algorithms::SHA256 {
            Ok(sha256_hash(data))
        } else if algorithm == hash_algorithms::CRC32C {
            let crc = crc32c(data);
            Ok(u32_to_le_bytes(crc))
        } else {
            Err(UnivError::UnsupportedHashAlgorithm { algorithm })
        }
    }

    /// Checks `data` against an expected digest.
    pub fn verify_hash(algorithm: u8, data: &[u8], expected_hash: &[u8]) -> (r: Result<()>)
        ensures
            match hash_spec(algorithm, data@) {
                Some(h) => if h == expected_hash@ {
                    r is Ok
                } else {
                    r matches Err(UnivError::HashMismatch { expected, actual })
                        && expected@ == hex_encoding(expected_hash@) && actual@ == hex_encoding(h)
                },
                None => r matches Err(UnivError::UnsupportedHashAlgorithm { algorithm: a })
                    && a == algorithm,
            },
    {
        let computed_hash = Self::hash(algorithm, data)?;
        if !bytes_equal(computed_hash.as_slice(), expected_hash) {
            return Err(UnivError::HashMismatch {
                expected: hex_encode(expected_hash),
                actual: hex_encode(computed_hash.as_slice()),
            });
        }
        Ok(())
    }

    /// Digest length of a hash algorithm.
    pub fn hash_length(algorithm: u8) -> (r: Result<usize>)
        ensures
            match hash_length_spec(algorithm) {
                Some(n) => r matches Ok(m) && m as nat == n,
                None => r matches Err(UnivError::UnsupportedHashAlgorithm { algorithm: a })
                    && a == algorithm,
            },
    {
        if algorithm == hash_algorithms::BLAKE3 {
            Ok(32)
        } else if algorithm == hash_algorithms::SHA256 {
            Ok(32)
        } else if algorithm == hash_algorithms::CRC32C {
            Ok(4)
        } else {
            Err(UnivError::UnsupportedHashAlgorithm { algorithm })
        }
    }

    /// Display name of a hash algorithm.
    pub fn algorithm_name(algorithm: u8) -> (r: &'static str)
        ensures
            r@ == (if algorithm == hash_algorithms::BLAKE3 {
                "BLAKE3-256"@
            } else if algorithm == hash_algorithms::SHA256 {
                "SHA-256"@
            } else if algorithm == hash_algorithms::CRC32C {
                "CRC32C"@
            } else {
                "Unknown"@
            }),
    {
        if algorithm == hash_algorithms::BLAKE3 {
            "BLAKE3-256"
        } else if algorithm == hash_algorithms::SHA256 {
            "SHA-256"
        } else if algorithm == hash_algorithms::CRC32C {
            "CRC32C"
        } else {
            "Unknown"
        }
    }

    /// Whether the algorithm is cryptographic (BLAKE3 or SHA-256).
    pub fn is_cryptographic(algorithm: u8) -> (r: bool)
        ensures
            r == (algorithm == hash_algorithms::BLAKE3 || algorithm == hash_algorithms::SHA256),
    {
        algorithm == hash_algorithms::BLAKE3 || algorithm == hash_algorithms::SHA256
    }
}

/// Whether two byte slices are equal.
pub fn bytes_equal(a: &[u8], b: &[u8]) -> (r: bool)
    ensures
        r == (a@ == b@),
{
    if a.len() != b.len() {
        return false;
    }
    let mut i: usize = 0;
    while i < a.len()
        invariant
            i <= a.len(),
            a.len() == b.len(),
            forall|j: int| 0 <= j < i ==> a@[j] == b@[j],
        decreases a.len() - i,
    {
        if a[i] != b[i] {
            return false;
        }
        i += 1;
    }
    assert(a@ =~= b@);
    true
}

/// Display name of a hash algorithm code.
pub open spec fn algorithm_name_spec(algorithm: u8) -> Seq<char> {
    if algorithm == hash_algorithms::BLAKE3 {
        "BLAKE3-256"@
    } else if algorithm == hash_algorithms::SHA256 {
        "SHA-256"@
    } else if algorithm == hash_algorithms::CRC32C {
        "CRC32C"@
    } else {
        "Unknown"@
    }
}

/// Algorithm code of a display name accepted when parsing.
pub open spec fn algorithm_from_name(name: Seq<char>) -> Option<u8> {
    if name == "BLAKE3-256"@ {
        Some(hash_algorithms::BLAKE3)
    } else if name == "SHA-256"@ {
        Some(hash_algorithms::SHA256)
    } else if name == "CRC32C"@ {
        Some(hash_algorithms::CRC32C)
    } else {
        None
    }
}

/// `s` holds exactly one colon, at index `i`.
pub open spec fn single_colon_at(s: Seq<char>, i: int) -> bool {
    &&& 0 <= i < s.len()
    &&& s[i] == ':'
    &&& forall|j: int| 0 <= j < s.len() && j != i ==> s[j] != ':'
}

/// Parse of the text form `algorithm:hex` of a content hash.
pub open spec fn parse_content_hash_text(s: Seq<char>) -> Option<(u8, Seq<u8>)> {
    if exists|i: int| single_colon_at(s, i) {
        let i = choose|i: int| single_colon_at(s, i);
        match (
            algorithm_from_name(s.take(i)),
            hex_decoding(vstd::utf8::encode_utf8(s.skip(i + 1))),
        ) {
            (Some(a), Some(h)) => Some((a, h)),
            _ => None,
        }
    } else {
        None
    }
}

/// A hash value together with the algorithm that produced it.
#[derive(Debug, Clone, PartialEq, Eq, Hash)]
pub struct ContentHash {
    /// Hash algorithm code.
    pub algorithm: u8,
    /// Hash value.
    pub hash: Vec<u8>,
}

impl ContentHash {
    /// Text form `name:hex` of the hash.
    pub open spec fn text(self) -> Seq<char> {
        algorithm_name_spec(self.algorithm) + ":"@ + hex_encoding(self.hash@)
    }

    /// Hashes `data` with the given algorithm.
    pub fn new(algorithm: u8, data: &[u8]) -> (r: Result<Self>)
        ensures
            match hash_spec(algorithm, data@) {
                Some(h) => r matches Ok(c) && c.algorithm == algorithm && c.hash@ == h,
                None => r matches Err(UnivError::UnsupportedHashAlgorithm { algorithm: a })
                    && a == algorithm,
            },
    {
        let hash = HashProvider::hash(algorithm, data)?;
        Ok(Self { algorithm, hash })
    }

    /// Wraps an existing hash value.
    pub fn from_hash(algorithm: u8, hash: Vec<u8>) -> (r: Self)
        ensures
            r.algorithm == algorithm,
            r.hash == hash,
    {
        Self { algorithm, hash }
    }

    /// Checks `data` against this hash.
    pub fn verify(&self, data: &[u8]) -> (r: Result<()>)
        ensures
            match hash_spec(self.algorithm, data@) {
                Some(h) => if h == self.hash@ {
                    r is Ok
                } else {
                    r matches Err(UnivError::HashMismatch { expected, actual })
                        && expected@ == hex_encoding(self.hash@) && actual@ == hex_encoding(h)
                },
                None => r matches Err(UnivError::UnsupportedHashAlgorithm { algorithm: a })
                    && a == self.algorithm,
            },
    {
        HashProvider::verify_hash(self.algorithm, data, self.hash.as_slice())
    }

    /// Lower-case hex text of the hash value.
    pub fn hex(&self) -> (r: String)
        ensures
            r@ == hex_encoding(self.hash@),
    {
        hex_encode(self.hash.as_slice())
    }

    /// Display name of the algorithm.
    pub fn algorithm_name(&self) -> (r: &'static str)
        ensures
            r@ == algorithm_name_spec(self.algorithm),
    {
        HashProvider::algorithm_name(self.algorithm)
    }

    /// Length of the hash value in bytes.
    pub fn len(&self) -> (r: usize)
        ensures
            r == self.hash@.len(),
    {
        self.hash.len()
    }

    /// Whether the hash value is empty.
    pub fn is_empty(&self) -> (r: bool)
        ensures
            r == (self.hash@.len() == 0),
    {
        self.hash.len() == 0
    }

    /// Text form `name:hex` of the hash.
    pub fn to_string(&self) -> (r: String)
        ensures
            r@ == self.text(),
    {
        let mut s = self.algorithm_name().to_owned();
        s.append(":");
        let h = self.hex();
        s.append(h.as_str());
        s
    }

    /// Parses the text form `name:hex`.
    pub fn parse_text(s: &str) -> (r: Result<Self>)
        ensures
            match parse_content_hash_text(s@) {
                Some((a, h)) => r matches Ok(c) && c.algorithm == a && c.hash@ == h,
                None => r matches Err(UnivError::DeserializationError { .. }),
            },
    {
        let n = s.unicode_len();
        let mut colon: usize = 0;
        let mut count: usize = 0;
        let mut i: usize = 0;
        while i < n
            invariant
                n == s@.len(),
                i <= n,
                count <= i,
                count == 0 ==> forall|j: int| 0 <= j < i ==> s@[j] != ':',
                count == 1 ==> colon < i && single_colon_at(s@.take(i as int), colon as int),
                count >= 2 ==> exists|a: int, b: int|
                    0 <= a < b < i && s@[a] == ':' && s@[b] == ':',
            decreases n - i,
        {
            let c = s.get_char(i);
            if c == ':' {
                if count == 0 {
                    colon = i;
                } else if count == 1 {
                    assert(s@[colon as int] == ':' && s@[i as int] == ':');
                }
                if count < 2 {
                    count += 1;
                }
            }
            i += 1;
        }
        if count != 1 {
            proof {
                if exists|k: int| single_colon_at(s@, k) {
                    let k = choose|k: int| single_colon_at(s@, k);
                    if count == 0 {
                        assert(s@[k] != ':');
                    } else {
                        let (a, b) = choose|a: int, b: int|
                            0 <= a < b < n && s@[a] == ':' && s@[b] == ':';
                        assert(a == k || s@[a] != ':');
                        assert(b == k || s@[b] != ':');
                    }
                }
            }
            return Err(UnivError::DeserializationError {
                reason: "无效的哈希格式，应为 algorithm:hash".to_string(),
            });
        }
        proof {
            assert(s@.take(n as int) =~= s@);
            assert(single_colon_at(s@, colon as int));
            assert forall|k: int| single_colon_at(s@, k) implies k == colon by {}
        }
        let name = s.substring_char(0, colon);
        let text = s.substring_char(colon + 1, n);
        let name_owned = name.to_owned();
        let algorithm: u8 = if name_owned == "BLAKE3-256".to_owned() {
            hash_algorithms::BLAKE3
        } else if name_owned == "SHA-256".to_owned() {
            hash_algorithms::SHA256
        } else if name_owned == "CRC32C".to_owned() {
            hash_algorithms::CRC32C
        } else {
            return Err(UnivError::DeserializationError { reason: "不支持的哈希算法".to_string() });
        };
        match hex_decode(text) {
            Some(hash) => Ok(Self::from_hash(algorithm, hash)),
            None => Err(UnivError::DeserializationError { reason: "无效的十六进制哈希值".to_string() }),
        }
    }
}

impl core::str::FromStr for ContentHash {
    type Err = UnivError;

    fn from_str(s: &str) -> (r: Result<Self>)
        ensures
            match parse_content_hash_text(s@) {
                Some((a, h)) => r matches Ok(c) && c.algorithm == a && c.hash@ == h,
                None => r matches Err(UnivError::DeserializationError { .. }),
            },
    {
        Self::parse_text(s)
    }
}

} // verus!
