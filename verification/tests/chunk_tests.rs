use universe::chunk::parallel::{extract_raw_data_parallel, get_processing_stats, verify_chunks_parallel};
use universe::chunk::{scan_frame_headers, scan_frame_headers_simd, Chunk, ChunkKind, Codec};
use universe::constants::{chunk_kinds, hash_algorithms, transform_flags};
use universe::UnivError;

fn compression_ratio(chunk: &Chunk) -> f32 {
    if chunk.compressed_size == 0 {
        return 1.0;
    }
    chunk.raw_size as f32 / chunk.compressed_size as f32
}

#[test]
fn test_chunk_kind_conversion() {
    assert_eq!(ChunkKind::from_u8(chunk_kinds::DATA_NODE), ChunkKind::DataNode);
    assert_eq!(ChunkKind::DataNode.to_u8(), chunk_kinds::DATA_NODE);

    let unknown = ChunkKind::from_u8(255);
    assert_eq!(unknown, ChunkKind::Unknown(255));
    assert_eq!(unknown.to_u8(), 255);
}

#[test]
fn test_codec_compression() {
    let data = b"Hello, World! This is a test string for compression.";

    let none_codec = Codec::NoCompression;
    let compressed = none_codec.compress(data).unwrap();
    let decompressed = none_codec.decompress(&compressed, Some(data.len())).unwrap();
    assert_eq!(data, decompressed.as_slice());

    let zstd_codec = Codec::Zstd;
    let compressed = zstd_codec.compress(data).unwrap();
    let decompressed = zstd_codec.decompress(&compressed, Some(data.len())).unwrap();
    assert_eq!(data, decompressed.as_slice());
}

#[test]
fn test_chunk_creation() {
    let data = b"Test chunk data";
    let chunk = Chunk::new(ChunkKind::DataNode, data, Codec::NoCompression, 0, hash_algorithms::BLAKE3).unwrap();

    assert_eq!(chunk.kind, ChunkKind::DataNode);
    assert_eq!(chunk.codec, Codec::NoCompression);
    assert_eq!(chunk.raw_size, data.len() as u32);

    let recovered_data = chunk.get_raw_data().unwrap();
    assert_eq!(data, recovered_data.as_slice());
}

#[test]
fn test_chunk_serialization() {
    let data = b"Test serialization data";
    let chunk = Chunk::new(
        ChunkKind::Schema,
        data,
        Codec::Zstd,
        transform_flags::DICT_STRING,
        hash_algorithms::BLAKE3,
    )
    .unwrap();

    let serialized = chunk.serialize().unwrap();
    let (deserialized, consumed) = Chunk::deserialize(&serialized).unwrap();

    assert_eq!(consumed, serialized.len());
    assert_eq!(deserialized.kind, chunk.kind);
    assert_eq!(deserialized.codec, chunk.codec);
    assert_eq!(deserialized.transform_flags, chunk.transform_flags);
    assert_eq!(deserialized.raw_size, chunk.raw_size);
    assert_eq!(deserialized.content_hash, chunk.content_hash);

    let recovered_data = deserialized.get_raw_data().unwrap();
    assert_eq!(data, recovered_data.as_slice());
}

#[test]
fn test_chunk_verification() {
    let data = b"Data for verification test";
    let chunk = Chunk::new(ChunkKind::DataNode, data, Codec::NoCompression, 0, hash_algorithms::BLAKE3).unwrap();

    assert!(chunk.verify().is_ok());

    let mut corrupted_chunk = chunk.clone();
    corrupted_chunk.content_hash[0] ^= 0xFF;
    assert!(corrupted_chunk.verify().is_err());
}

#[test]
fn test_chunk_sha256_verification() {
    let data = b"SHA-256 chunk test data";
    let chunk = Chunk::new(ChunkKind::DataNode, data, Codec::NoCompression, 0, hash_algorithms::SHA256).unwrap();

    assert_eq!(chunk.content_hash.len(), 32);

    assert!(chunk.verify().is_ok());

    let mut corrupted_chunk = chunk.clone();
    corrupted_chunk.content_hash[0] ^= 0xFF;
    assert!(corrupted_chunk.verify().is_err());
}

#[test]
fn test_compression_ratio() {
    let data = vec![0u8; 1000];
    let chunk = Chunk::new(ChunkKind::DataNode, &data, Codec::Zstd, 0, hash_algorithms::BLAKE3).unwrap();

    let ratio = compression_ratio(&chunk);
    assert!(ratio > 1.0);
}

#[test]
fn test_chunk_with_transformations() {
    let data = b"Original test data for transformation";

    let chunk = Chunk::new(
        ChunkKind::DataNode,
        data,
        Codec::NoCompression,
        transform_flags::DICT_STRING,
        hash_algorithms::BLAKE3,
    )
    .unwrap();

    assert_eq!(chunk.raw_size, data.len() as u32);

    let recovered_data = chunk.get_raw_data().unwrap();
    assert_eq!(recovered_data, data);

    assert!(chunk.verify().is_ok());
}

#[test]
fn test_transform_flags() {
    let data = b"Transform test data";
    let chunk = Chunk::new(
        ChunkKind::DataNode,
        data,
        Codec::NoCompression,
        transform_flags::DICT_STRING | transform_flags::INTEGER_VARINT,
        hash_algorithms::BLAKE3,
    )
    .unwrap();

    assert!(chunk.has_transform(transform_flags::DICT_STRING));
    assert!(chunk.has_transform(transform_flags::INTEGER_VARINT));
    assert!(!chunk.has_transform(transform_flags::COLUMNARIZE));
}

#[test]
fn test_compression_optimization() {
    let test_data = b"This is a test string that should compress reasonably well with zstd compression. \
                     It contains repeated patterns and should benefit from higher compression levels. \
                     The quick brown fox jumps over the lazy dog. The quick brown fox jumps over the lazy dog.";

    let mut chunk = Chunk::new(ChunkKind::DataNode, test_data, Codec::Zstd, 0, hash_algorithms::BLAKE3).unwrap();

    let original_compressed_size = chunk.compressed_size;

    let compression_stats = chunk.try_recompress(1).unwrap();

    assert_eq!(compression_stats.original_size, original_compressed_size);
    assert!(!compression_stats.levels_tested.is_empty());

    let raw_data = chunk.get_raw_data().unwrap();
    assert_eq!(raw_data, test_data);

    let improvement_ratio = if compression_stats.improvement_bytes > 0 {
        compression_stats.improvement_bytes as f64 / compression_stats.original_size as f64 * 100.0
    } else {
        0.0
    };
    println!("原始压缩: {} 字节", original_compressed_size);
    println!("优化后压缩: {} 字节", compression_stats.final_size);
    println!("改进: {} 字节 ({:.1}%)", compression_stats.improvement_bytes, improvement_ratio);
}

#[test]
fn test_structural_overhead_analysis() {
    let test_data = b"Small test data";

    let chunk = Chunk::new(ChunkKind::DataNode, test_data, Codec::Zstd, 0, hash_algorithms::BLAKE3).unwrap();

    let overhead = chunk.get_structural_overhead();
    let metadata_ratio = if overhead.payload_bytes > 0 {
        overhead.total_metadata_bytes as f64
            / (overhead.total_metadata_bytes as f64 + overhead.payload_bytes as f64)
            * 100.0
    } else {
        100.0
    };

    assert!(overhead.header_bytes > 0);
    assert!(overhead.hash_bytes > 0);
    assert!(overhead.crc_bytes > 0);
    assert!(overhead.payload_bytes > 0);
    assert!(metadata_ratio >= 0.0 && metadata_ratio <= 100.0);

    println!("结构化开销分析:");
    println!("  头部: {} 字节", overhead.header_bytes);
    println!("  哈希: {} 字节", overhead.hash_bytes);
    println!("  CRC: {} 字节", overhead.crc_bytes);
    println!("  载荷: {} 字节", overhead.payload_bytes);
    println!("  元数据占比: {:.1}%", metadata_ratio);
}

#[test]
fn test_codec_compression_levels() {
    let data = b"Test data for compression level testing with repeated patterns and content.";

    let zstd_codec = Codec::Zstd;

    let level1 = zstd_codec.compress_with_level(data, Some(1)).unwrap();
    let level9 = zstd_codec.compress_with_level(data, Some(9)).unwrap();
    let level19 = zstd_codec.compress_with_level(data, Some(19)).unwrap();

    let decompressed1 = zstd_codec.decompress(&level1, Some(data.len())).unwrap();
    let decompressed9 = zstd_codec.decompress(&level9, Some(data.len())).unwrap();
    let decompressed19 = zstd_codec.decompress(&level19, Some(data.len())).unwrap();

    assert_eq!(decompressed1, data);
    assert_eq!(decompressed9, data);
    assert_eq!(decompressed19, data);

    println!("压缩级别测试:");
    println!("  级别1: {} 字节", level1.len());
    println!("  级别9: {} 字节", level9.len());
    println!("  级别19: {} 字节", level19.len());
}

#[test]
fn test_canonical_hash_integration() {
    let test_data = b"Test data for canonical hashing";

    let chunk1 = Chunk::new(ChunkKind::DataNode, test_data, Codec::NoCompression, 0, hash_algorithms::BLAKE3).unwrap();

    let chunk2 = Chunk::new(ChunkKind::DataNode, test_data, Codec::NoCompression, 0, hash_algorithms::BLAKE3).unwrap();

    assert_eq!(chunk1.content_hash, chunk2.content_hash);

    let recovered_data1 = chunk1.get_raw_data().unwrap();
    let recovered_data2 = chunk2.get_raw_data().unwrap();

    assert_eq!(recovered_data1, test_data);
    assert_eq!(recovered_data2, test_data);

    println!("规范化哈希集成测试通过");
    println!("内容哈希: {}", hex::encode(&chunk1.content_hash));
}

#[test]
fn test_canonical_vs_traditional_hash() {
    let test_data = b"Test data for hash comparison";

    let canonical_chunk =
        Chunk::new(ChunkKind::DataNode, test_data, Codec::NoCompression, 0, hash_algorithms::BLAKE3).unwrap();

    let traditional_chunk =
        Chunk::new(ChunkKind::DataNode, test_data, Codec::NoCompression, 0, hash_algorithms::CRC32C).unwrap();

    assert_ne!(canonical_chunk.content_hash.len(), traditional_chunk.content_hash.len());
    assert_eq!(canonical_chunk.content_hash.len(), 32);
    assert_eq!(traditional_chunk.content_hash.len(), 4);

    let recovered_canonical = canonical_chunk.get_raw_data().unwrap();
    let recovered_traditional = traditional_chunk.get_raw_data().unwrap();

    assert_eq!(recovered_canonical, test_data);
    assert_eq!(recovered_traditional, test_data);

    println!("规范化 vs 传统哈希对比测试通过");
}

#[test]
fn every_codec_roundtrips() {
    let data: Vec<u8> = (0..3000u32).map(|i| (i % 7) as u8).collect();
    for codec in [Codec::NoCompression, Codec::Zstd, Codec::Lz4, Codec::Deflate] {
        let compressed = codec.compress(&data).unwrap();
        assert_eq!(codec.decompress(&compressed, Some(data.len())).unwrap(), data);
        let chunk = Chunk::new(ChunkKind::Blob, &data, codec, 0, hash_algorithms::SHA256).unwrap();
        let bytes = chunk.serialize().unwrap();
        assert_eq!(chunk.estimated_serialized_size(), bytes.len() + 2);
        let (back, n) = Chunk::deserialize(&bytes).unwrap();
        assert_eq!(n, bytes.len());
        assert_eq!(back.get_raw_data().unwrap(), data);
        assert!(back.verify().is_ok());
        assert!(back.verify_traditional().is_ok());
        assert!(back.verify_streaming().is_ok());
    }
    assert_ne!(Codec::Zstd.compress(&data).unwrap(), data);
}

#[test]
fn unknown_codec_is_refused() {
    assert!(matches!(Codec::from_u8(9), Codec::Unknown(9)));
    assert_eq!(Codec::from_u8(3), Codec::Deflate);
    assert_eq!(Codec::Unknown(9).to_u8(), 9);
    assert!(matches!(Codec::Unknown(9).compress(b"x"), Err(UnivError::UnsupportedCodec { codec: 9 })));
    assert!(Chunk::new(ChunkKind::Blob, b"x", Codec::Unknown(9), 0, hash_algorithms::BLAKE3).is_err());
}

#[test]
fn chunk_frame_layout_and_corruption() {
    let chunk = Chunk::new(ChunkKind::Attachment, b"abc", Codec::NoCompression, 0, hash_algorithms::CRC32C).unwrap();
    let bytes = chunk.serialize().unwrap();
    assert_eq!(&bytes[0..4], b"CK01");
    assert_eq!(bytes[4], chunk_kinds::ATTACHMENT);
    assert_eq!(bytes.len(), 19 + 1 + 4 + 3 + 4);
    let mut bad = bytes.clone();
    let last = bad.len() - 1;
    bad[last] ^= 1;
    assert!(matches!(Chunk::deserialize(&bad), Err(UnivError::CrcMismatch { .. })));
    let mut bad_magic = bytes.clone();
    bad_magic[0] = b'X';
    assert!(Chunk::deserialize(&bad_magic).is_err());
    assert!(matches!(Chunk::deserialize(&bytes[..10]), Err(UnivError::IncompleteData { .. })));
}

#[test]
fn frame_scanning_finds_every_marker() {
    let mut data = vec![0u8; 100];
    for &p in &[0usize, 30, 61, 96] {
        data[p..p + 4].copy_from_slice(b"CK01");
    }
    assert_eq!(scan_frame_headers(&data), vec![0, 30, 61, 96]);
    assert_eq!(scan_frame_headers_simd(&data), vec![0, 30, 61, 96]);
    assert!(scan_frame_headers(b"CK0").is_empty());
    assert_eq!(scan_frame_headers_simd(b"xCK01"), vec![1]);
}

#[test]
fn parallel_helpers_agree_with_serial() {
    let a = Chunk::new(ChunkKind::Blob, b"one", Codec::Lz4, 0, hash_algorithms::BLAKE3).unwrap();
    let big = vec![5u8; 70_000];
    let b = Chunk::new(ChunkKind::Blob, &big, Codec::Zstd, 0, hash_algorithms::BLAKE3).unwrap();
    let chunks = vec![a.clone(), b.clone()];
    assert!(verify_chunks_parallel(&chunks).is_ok());
    let raw = extract_raw_data_parallel(&chunks).unwrap();
    assert_eq!(raw, vec![b"one".to_vec(), big.clone()]);
    let stats = get_processing_stats(&chunks);
    assert_eq!(stats.total_chunks, 2);
    assert_eq!(stats.small_chunks, 1);
    assert_eq!(stats.large_chunks, 1);
    assert_eq!(stats.total_raw_size, 3 + 70_000);
    assert_eq!(stats.total_compressed_size, a.compressed_size as u64 + b.compressed_size as u64);
    let mut broken = b.clone();
    broken.content_hash[0] ^= 1;
    assert!(verify_chunks_parallel(&[a, broken]).is_err());
}

#[test]
fn recompress_keeps_data_and_reports_levels() {
    let data = vec![7u8; 5000];
    let mut chunk = Chunk::new(ChunkKind::Blob, &data, Codec::NoCompression, 0, hash_algorithms::BLAKE3).unwrap();
    let stats = chunk.try_recompress(0).unwrap();
    assert!(stats.levels_tested.is_empty());
    assert_eq!(stats.final_size, stats.original_size);
    let mut z = Chunk::new(ChunkKind::Blob, &data, Codec::Zstd, 0, hash_algorithms::BLAKE3).unwrap();
    let stats = z.try_recompress(u32::MAX).unwrap();
    assert_eq!(stats.improvement_bytes, 0);
    assert_eq!(z.compressed_size, stats.original_size);
    assert_eq!(z.get_raw_data().unwrap(), data);
}

#[test]
fn test_block_scan_reports_boundary_magic_once() {
    let data = [vec![0u8; 28], b"CK01".to_vec(), vec![0u8; 32]].concat();
    assert_eq!(scan_frame_headers_simd(&data), vec![28]);
    assert_eq!(scan_frame_headers_simd(&data), scan_frame_headers(&data));
}

#[test]
fn test_frame_cut_in_reserved_bytes_is_incomplete() {
    let data = [b"CK01".to_vec(), vec![1, 0, 0, 0, 0, 0, 0, 0, 0, 0, 0, 0, 3, 5], vec![0u8; 5]].concat();
    assert!(matches!(Chunk::deserialize(&data), Err(UnivError::IncompleteData { .. })));
}

#[test]
fn test_schema_reference_chunk_reads_back() {
    let c = Chunk::new_with_schema_ref(
        ChunkKind::DataNode,
        b"abc",
        Codec::NoCompression,
        0,
        hash_algorithms::BLAKE3,
        Some(&b"schema"[..]),
    )
    .unwrap();
    assert_eq!(c.get_raw_data().unwrap(), b"abc".to_vec());
    assert!(c.verify().is_ok());
}

#[test]
fn test_delta_chunk_verifies_like_raw_read() {
    let data = [1u64.to_le_bytes(), 3u64.to_le_bytes()].concat();
    let c = Chunk::new(ChunkKind::DataNode, &data, Codec::NoCompression, transform_flags::DELTA, hash_algorithms::SHA256)
        .unwrap();
    assert_eq!(c.get_raw_data().unwrap(), data);
    assert!(c.verify().is_ok());
    assert!(c.verify_traditional().is_ok());
}

#[test]
fn test_recompressed_delta_chunk_reads_back() {
    let words: Vec<u64> = (0..2048u64).map(|i| i * 7).collect();
    let data: Vec<u8> = words.iter().flat_map(|w| w.to_le_bytes()).collect();
    let mut c = Chunk::new(ChunkKind::DataNode, &data, Codec::Zstd, transform_flags::DELTA, hash_algorithms::BLAKE3)
        .unwrap();
    let before = c.compressed_size;
    let stats = c.try_recompress(0).unwrap();
    assert!(c.compressed_size <= before);
    assert_eq!(stats.final_size, c.compressed_size);
    assert_eq!(c.get_raw_data().unwrap(), data);
}

#[test]
fn test_trailing_bytes_after_cbor_item_are_hashed() {
    let c = Chunk::new(ChunkKind::DataNode, b"abc", Codec::NoCompression, 0, hash_algorithms::BLAKE3).unwrap();
    let d = Chunk::new(ChunkKind::DataNode, b"abd", Codec::NoCompression, 0, hash_algorithms::BLAKE3).unwrap();
    assert_ne!(c.content_hash, d.content_hash);
}
