use universe::constants::hash_algorithms;
use universe::util::hash::{ContentHash, HashProvider};
use universe::UnivError;

#[test]
fn test_blake3_hash() {
    let data = b"Hello, World!";
    let hash = HashProvider::hash(hash_algorithms::BLAKE3, data).unwrap();

    assert_eq!(hash.len(), 32);

    assert!(HashProvider::verify_hash(hash_algorithms::BLAKE3, data, &hash).is_ok());

    let wrong_data = b"Hello, World?";
    assert!(HashProvider::verify_hash(hash_algorithms::BLAKE3, wrong_data, &hash).is_err());
}

#[test]
fn test_crc32c_hash() {
    let data = b"Test data";
    let hash = HashProvider::hash(hash_algorithms::CRC32C, data).unwrap();

    assert_eq!(hash.len(), 4);
    assert!(HashProvider::verify_hash(hash_algorithms::CRC32C, data, &hash).is_ok());
}

#[test]
fn test_sha256_hash() {
    let data = b"SHA-256 test data";
    let hash = HashProvider::hash(hash_algorithms::SHA256, data).unwrap();

    assert_eq!(hash.len(), 32);

    assert!(HashProvider::verify_hash(hash_algorithms::SHA256, data, &hash).is_ok());

    let wrong_data = b"Wrong data";
    assert!(HashProvider::verify_hash(hash_algorithms::SHA256, wrong_data, &hash).is_err());

    let hash2 = HashProvider::hash(hash_algorithms::SHA256, data).unwrap();
    assert_eq!(hash, hash2);
}

#[test]
fn test_content_hash() {
    let data = b"Content hash test";
    let content_hash = ContentHash::new(hash_algorithms::BLAKE3, data).unwrap();

    assert_eq!(content_hash.algorithm, hash_algorithms::BLAKE3);
    assert_eq!(content_hash.len(), 32);
    assert!(!content_hash.is_empty());

    assert!(content_hash.verify(data).is_ok());

    let wrong_data = b"Wrong content";
    assert!(content_hash.verify(wrong_data).is_err());
}

#[test]
fn test_content_hash_display() {
    let data = b"Display test";
    let content_hash = ContentHash::new(hash_algorithms::BLAKE3, data).unwrap();

    let display_str = content_hash.to_string();
    assert!(display_str.starts_with("BLAKE3-256:"));

    let parsed: ContentHash = display_str.parse().unwrap();
    assert_eq!(parsed.algorithm, content_hash.algorithm);
    assert_eq!(parsed.hash, content_hash.hash);
}

#[test]
fn test_hash_algorithm_properties() {
    assert_eq!(HashProvider::hash_length(hash_algorithms::BLAKE3).unwrap(), 32);
    assert_eq!(HashProvider::hash_length(hash_algorithms::CRC32C).unwrap(), 4);

    assert!(HashProvider::is_cryptographic(hash_algorithms::BLAKE3));
    assert!(!HashProvider::is_cryptographic(hash_algorithms::CRC32C));

    assert_eq!(HashProvider::algorithm_name(hash_algorithms::BLAKE3), "BLAKE3-256");
    assert_eq!(HashProvider::algorithm_name(hash_algorithms::CRC32C), "CRC32C");
}

#[test]
fn test_unsupported_algorithm() {
    let result = HashProvider::hash(255, b"test");
    assert!(matches!(result, Err(UnivError::UnsupportedHashAlgorithm { algorithm: 255 })));
}

#[test]
fn hash_known_digests() {
    let blake = HashProvider::hash(hash_algorithms::BLAKE3, b"abc").unwrap();
    assert_eq!(
        hex::encode(&blake),
        "6437b3ac38465133ffb63b75273a8db548c558465d79db03fd359c6cd5bd9d85"
    );
    let sha = HashProvider::hash(hash_algorithms::SHA256, b"abc").unwrap();
    assert_eq!(
        hex::encode(&sha),
        "ba7816bf8f01cfea414140de5dae2223b00361a396177a9cb410ff61f20015ad"
    );
    let crc = HashProvider::hash(hash_algorithms::CRC32C, b"123456789").unwrap();
    assert_eq!(crc, 0xe3069283u32.to_le_bytes().to_vec());
}

#[test]
fn hash_mismatch_reports_both_digests_in_hex() {
    let result = HashProvider::verify_hash(hash_algorithms::CRC32C, b"123456789", &[0, 0, 0, 0]);
    match result {
        Err(UnivError::HashMismatch { expected, actual }) => {
            assert_eq!(expected, "00000000");
            assert_eq!(actual, "839206e3");
        }
        _ => panic!("expected a hash mismatch"),
    }
}

#[test]
fn content_hash_text_parse_errors() {
    assert!("nocolon".parse::<ContentHash>().is_err());
    assert!("MD5:00".parse::<ContentHash>().is_err());
    assert!("SHA-256:zz".parse::<ContentHash>().is_err());
    assert!("SHA-256:0".parse::<ContentHash>().is_err());
    let parsed: ContentHash = "CRC32C:0A0b".parse().unwrap();
    assert_eq!(parsed.algorithm, hash_algorithms::CRC32C);
    assert_eq!(parsed.hash, vec![0x0a, 0x0b]);
    assert_eq!(parsed.hex(), "0a0b");
    assert_eq!(parsed.algorithm_name(), "CRC32C");
    assert!(HashProvider::hash_length(9).is_err());
    assert_eq!(HashProvider::algorithm_name(9), "Unknown");
}

#[test]
fn test_hash_lengths_match_algorithm() {
    for &a in &[hash_algorithms::BLAKE3, hash_algorithms::SHA256, hash_algorithms::CRC32C] {
        let n = HashProvider::hash_length(a).unwrap();
        assert_eq!(HashProvider::hash(a, b"some data").unwrap().len(), n);
    }
}
