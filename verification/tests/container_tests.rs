use universe::chunk::{Chunk, ChunkKind, ChunkPayload, Codec};
use universe::constants::hash_algorithms;
use universe::toc::Toc;
use universe::tool::recompress_chunks;
use universe::{Container, Profile};

fn compression_ratio(chunk: &Chunk) -> f32 {
    if chunk.compressed_size == 0 {
        return 1.0;
    }
    chunk.raw_size as f32 / chunk.compressed_size as f32
}

#[test]
fn test_container_creation() {
    let container = Container::new(Profile::Recd);

    assert_eq!(container.header.profile, Profile::Recd);
    assert_eq!(container.chunks.len(), 0);
    assert!(container.toc.is_none());
}

#[test]
fn test_container_add_chunk() {
    let mut container = Container::new(Profile::Blob);
    let test_data = "测试数据".as_bytes();

    let chunk = Chunk::new(ChunkKind::DataNode, test_data, Codec::NoCompression, 0, hash_algorithms::BLAKE3).unwrap();

    container.add_chunk(chunk);
    assert_eq!(container.chunk_count(), 1);

    let retrieved_chunk = container.get_chunk(0).unwrap();
    assert_eq!(retrieved_chunk.kind, ChunkKind::DataNode);
    assert_eq!(retrieved_chunk.raw_size, test_data.len() as u32);
}

#[test]
fn test_container_add_data() {
    let mut container = Container::new(Profile::Recd);
    let test_data = "这是一个测试数据块".as_bytes();

    let index = container
        .add_data(ChunkKind::DataNode, test_data, Codec::NoCompression, 0, hash_algorithms::BLAKE3)
        .unwrap();

    assert_eq!(index, 0);
    assert_eq!(container.chunk_count(), 1);

    let chunk = container.get_chunk(0).unwrap();
    let recovered_data = chunk.get_raw_data().unwrap();
    assert_eq!(recovered_data.as_slice(), test_data);
}

#[test]
fn test_container_serialization_roundtrip() {
    let mut container = Container::new(Profile::Recd);

    container.header.set_producer("universe测试");
    container.header.set_creation_timestamp_now();

    let test_data1 = "第一个数据块 - 包含中文内容".as_bytes();
    let test_data2 = "Second data block with mixed content 混合内容".as_bytes();

    container
        .add_data(ChunkKind::DataNode, test_data1, Codec::NoCompression, 0, hash_algorithms::BLAKE3)
        .unwrap();

    container.add_data(ChunkKind::Blob, test_data2, Codec::Zstd, 0, hash_algorithms::BLAKE3).unwrap();

    let serialized = container.serialize().unwrap();
    assert!(!serialized.is_empty());

    let deserialized = Container::deserialize(&serialized).unwrap();

    assert_eq!(deserialized.header.profile, Profile::Recd);
    assert_eq!(deserialized.header.get_producer(), container.header.get_producer());

    assert_eq!(deserialized.chunk_count(), 2);

    let chunk1 = deserialized.get_chunk(0).unwrap();
    assert_eq!(chunk1.kind, ChunkKind::DataNode);
    let recovered_data1 = chunk1.get_raw_data().unwrap();
    assert_eq!(recovered_data1.as_slice(), test_data1);

    let chunk2 = deserialized.get_chunk(1).unwrap();
    assert_eq!(chunk2.kind, ChunkKind::Blob);
    let recovered_data2 = chunk2.get_raw_data().unwrap();
    assert_eq!(recovered_data2.as_slice(), test_data2);
}

#[test]
fn test_container_with_toc() {
    let mut container = Container::new(Profile::Grph);

    container
        .add_data(ChunkKind::DataNode, b"node data", Codec::NoCompression, 0, hash_algorithms::BLAKE3)
        .unwrap();

    let mut toc = Toc::new();
    toc.add_root("main".to_string(), "node1".to_string()).unwrap();
    container.set_toc(toc);

    let serialized = container.serialize().unwrap();
    let deserialized = Container::deserialize(&serialized).unwrap();

    assert!(deserialized.toc.is_some());
    let toc = deserialized.toc.as_ref().unwrap();
    assert_eq!(toc.get_root("main"), Some(&"node1".to_string()));
}

#[test]
fn test_container_empty_serialization() {
    let container = Container::new(Profile::Type);

    let serialized = container.serialize().unwrap();
    let deserialized = Container::deserialize(&serialized).unwrap();

    assert_eq!(deserialized.header.profile, Profile::Type);
    assert_eq!(deserialized.chunk_count(), 0);
    assert!(deserialized.toc.is_none());
}

#[test]
fn test_container_invalid_deserialization() {
    let result = Container::deserialize(&[]);
    assert!(result.is_err());

    let invalid_data = vec![0u8; 32];
    let result = Container::deserialize(&invalid_data);
    assert!(result.is_err());
}

#[test]
fn test_container_size_estimation() {
    let mut container = Container::new(Profile::Tabl);

    let initial_size = container.estimated_size();
    assert!(initial_size > 0);

    container
        .add_data(
            ChunkKind::DataNode,
            b"test data for size estimation",
            Codec::NoCompression,
            0,
            hash_algorithms::BLAKE3,
        )
        .unwrap();

    let size_with_chunk = container.estimated_size();
    assert!(size_with_chunk > initial_size);
}

#[test]
fn test_different_profiles() {
    let profiles = [Profile::Blob, Profile::Recd, Profile::Tabl, Profile::Tsdb, Profile::Grph, Profile::Type];

    for profile in profiles {
        let container = Container::new(profile);
        let serialized = container.serialize().unwrap();
        let deserialized = Container::deserialize(&serialized).unwrap();

        assert_eq!(deserialized.header.profile, profile);
    }
}

#[test]
fn test_multiple_chunk_types() {
    let mut container = Container::new(Profile::Mixd);

    container.add_data(ChunkKind::DataNode, b"data", Codec::NoCompression, 0, hash_algorithms::BLAKE3).unwrap();
    container.add_data(ChunkKind::Blob, b"blob", Codec::Lz4, 0, hash_algorithms::BLAKE3).unwrap();
    container.add_data(ChunkKind::Schema, b"schema", Codec::Zstd, 0, hash_algorithms::BLAKE3).unwrap();

    let serialized = container.serialize().unwrap();
    let deserialized = Container::deserialize(&serialized).unwrap();

    assert_eq!(deserialized.chunk_count(), 3);
    assert_eq!(deserialized.get_chunk(0).unwrap().kind, ChunkKind::DataNode);
    assert_eq!(deserialized.get_chunk(1).unwrap().kind, ChunkKind::Blob);
    assert_eq!(deserialized.get_chunk(2).unwrap().kind, ChunkKind::Schema);
}

#[test]
fn test_comprehensive_integration() {
    let mut container = Container::new(Profile::Grph);

    container.header.set_producer("综合测试程序 v1.0");
    container.header.set_creation_timestamp_now();
    container.header.set_namespace_root("test.universe.integration");

    let json_schema = r#"{"type": "object", "properties": {"name": {"type": "string"}}}"#;
    let binary_data: Vec<u8> = (0..=255).cycle().take(4000).collect();
    let text_data = "这是一个包含中文的长文本数据，用于测试UTF-8编码和压缩效果。".repeat(50);

    container
        .add_data(ChunkKind::Schema, json_schema.as_bytes(), Codec::NoCompression, 0, hash_algorithms::BLAKE3)
        .unwrap();

    container.add_data(ChunkKind::Blob, &binary_data, Codec::Zstd, 0, hash_algorithms::BLAKE3).unwrap();

    container
        .add_data(ChunkKind::DataNode, text_data.as_bytes(), Codec::Lz4, 0, hash_algorithms::BLAKE3)
        .unwrap();

    let mut toc = Toc::new();
    toc.add_root("schema".to_string(), "schema-node-1".to_string()).unwrap();
    toc.add_root("data".to_string(), "data-node-1".to_string()).unwrap();
    container.set_toc(toc);

    assert_eq!(container.chunk_count(), 3);
    assert!(container.toc.is_some());

    let serialized = container.serialize().unwrap();
    assert!(serialized.len() > 100);

    let deserialized = Container::deserialize(&serialized).unwrap();

    assert_eq!(deserialized.header.profile, Profile::Grph);
    assert_eq!(deserialized.chunk_count(), 3);
    assert!(deserialized.toc.is_some());

    assert_eq!(deserialized.header.get_producer(), Some("综合测试程序 v1.0"));
    assert_eq!(deserialized.header.get_namespace_root(), Some("test.universe.integration"));

    let schema_chunk = deserialized.get_chunk(0).unwrap();
    assert_eq!(schema_chunk.kind, ChunkKind::Schema);
    assert_eq!(schema_chunk.codec, Codec::NoCompression);
    let recovered_schema = schema_chunk.get_raw_data().unwrap();
    assert_eq!(String::from_utf8(recovered_schema.to_vec()).unwrap(), json_schema);

    let blob_chunk = deserialized.get_chunk(1).unwrap();
    assert_eq!(blob_chunk.kind, ChunkKind::Blob);
    assert_eq!(blob_chunk.codec, Codec::Zstd);
    let recovered_blob = blob_chunk.get_raw_data().unwrap();
    assert_eq!(recovered_blob.to_vec(), binary_data);

    let data_chunk = deserialized.get_chunk(2).unwrap();
    assert_eq!(data_chunk.kind, ChunkKind::DataNode);
    assert_eq!(data_chunk.codec, Codec::Lz4);
    let recovered_text = data_chunk.get_raw_data().unwrap();
    assert_eq!(String::from_utf8(recovered_text.to_vec()).unwrap(), text_data);

    let toc = deserialized.toc.as_ref().unwrap();
    assert_eq!(toc.get_root("schema"), Some(&"schema-node-1".to_string()));
    assert_eq!(toc.get_root("data"), Some(&"data-node-1".to_string()));

    assert!(compression_ratio(blob_chunk) > 1.0, "二进制数据应该有压缩效果");
    assert!(compression_ratio(data_chunk) > 2.0, "重复文本应该有很好的压缩效果");
}

#[test]
fn container_zero_copy_and_fast_reading_agree() {
    let mut container = Container::new(Profile::Blob);
    container.add_data_simple(ChunkKind::Blob, b"first").unwrap();
    container.add_data(ChunkKind::Blob, &vec![1u8; 2000], Codec::Deflate, 0, hash_algorithms::SHA256).unwrap();
    let bytes = container.serialize().unwrap();
    assert_eq!(container.estimated_size(), bytes.len() + 2 * 2);
    let zero = Container::deserialize_zero_copy(&bytes).unwrap();
    let fast = Container::deserialize_fast(&bytes).unwrap();
    for c in [&zero, &fast] {
        assert_eq!(c.chunk_count(), 2);
        assert_eq!(c.get_chunk(0).unwrap().get_raw_data().unwrap(), b"first");
        assert_eq!(c.get_chunk(1).unwrap().get_raw_data().unwrap(), vec![1u8; 2000]);
        assert!(c.verify(true).is_ok());
        assert!(c.verify(false).is_ok());
        assert!(c.verify_parallel().is_ok());
        assert!(c.verify_serial().is_ok());
    }
    let stats = zero.get_memory_stats(bytes.len());
    assert_eq!(stats.original_file_size, bytes.len());
    assert_eq!(stats.zero_copy_savings(), stats.shared_payload_size);
    let processing = fast.get_processing_stats();
    assert_eq!(processing.total_chunks, 2);
    assert_eq!(processing.total_raw_size, 5 + 2000);
    assert!(container.get_chunk(2).is_none());
}

#[test]
fn container_with_corrupt_chunk_fails_verification() {
    let mut container = Container::new(Profile::Recd);
    container.add_data_simple(ChunkKind::DataNode, b"payload").unwrap();
    container.chunks[0].content_hash[0] ^= 0xff;
    assert!(container.verify_serial().is_err());
    assert!(container.verify_parallel().is_err());
}

#[test]
fn container_truncated_bytes_are_refused() {
    let mut container = Container::new(Profile::Recd);
    container.add_data_simple(ChunkKind::DataNode, b"payload").unwrap();
    let bytes = container.serialize().unwrap();
    assert!(Container::deserialize(&bytes[..bytes.len() - 3]).is_err());
    assert!(Container::deserialize(&bytes[..11]).is_err());
}

#[test]
fn test_recompress_chunks_totals() {
    let mut container = Container::new(Profile::Recd);
    let repetitive: Vec<u8> = b"abcdefgh".iter().cycle().take(8192).cloned().collect();
    container
        .add_data(ChunkKind::DataNode, &repetitive, Codec::Zstd, 0, hash_algorithms::BLAKE3)
        .unwrap();
    container
        .add_data(ChunkKind::DataNode, b"raw bytes", Codec::NoCompression, 0, hash_algorithms::BLAKE3)
        .unwrap();
    let before: Vec<u32> = container.chunks.iter().map(|c| c.compressed_size).collect();

    let report = recompress_chunks(&mut container, 0);

    assert_eq!(report.outcomes.len(), 2);
    assert_eq!(report.original_total, (before[0] + before[1]) as u64);
    let after: u64 = container.chunks.iter().map(|c| c.compressed_size as u64).sum();
    assert_eq!(report.final_total, after);
    assert_eq!(report.improvement_total, report.original_total - report.final_total);
    // A chunk without compression has no level to try and keeps its payload.
    let second = report.outcomes[1].as_ref().unwrap();
    assert_eq!(second.levels_tested.len(), 0);
    assert_eq!(second.final_size, before[1]);
    // Every chunk still reads back as the data that went in.
    assert_eq!(container.chunks[0].get_raw_data().unwrap(), repetitive);
    assert_eq!(container.chunks[1].get_raw_data().unwrap(), b"raw bytes".to_vec());
}

#[test]
fn test_zero_copy_payloads_are_shared_windows() {
    let mut container = Container::new(Profile::Blob);
    container
        .add_data(ChunkKind::DataNode, b"shared payload", Codec::NoCompression, 0, hash_algorithms::BLAKE3)
        .unwrap();
    let bytes = container.serialize().unwrap();
    let read = Container::deserialize_zero_copy(&bytes).unwrap();
    assert!(matches!(read.chunks[0].payload, ChunkPayload::Shared(_)));
    assert_eq!(read.chunks[0].get_raw_data().unwrap(), b"shared payload".to_vec());
}

#[test]
fn test_container_with_toc_reads_back() {
    let mut container = Container::new(Profile::Grph);
    container
        .add_data(ChunkKind::DataNode, b"payload", Codec::NoCompression, 0, hash_algorithms::BLAKE3)
        .unwrap();
    let mut toc = Toc::new();
    toc.add_root("main".to_string(), "n1".to_string()).unwrap();
    container.set_toc(toc);
    let bytes = container.serialize().unwrap();
    let d = Container::deserialize(&bytes).unwrap();
    assert_eq!(d.chunks.len(), 1);
    assert_eq!(d.toc.unwrap().get_root("main"), Some(&"n1".to_string()));
}

#[test]
fn test_optimized_container_reads_back_from_its_bytes() {
    let mut container = Container::new(Profile::Tabl);
    let repetitive: Vec<u8> = b"0123456789abcdef".iter().cycle().take(16384).cloned().collect();
    container
        .add_data(ChunkKind::DataNode, &repetitive, Codec::Zstd, 0, hash_algorithms::BLAKE3)
        .unwrap();
    container
        .add_data(ChunkKind::Blob, b"short", Codec::Deflate, 0, hash_algorithms::SHA256)
        .unwrap();
    let file = container.serialize().unwrap();

    let mut read = Container::deserialize(&file).unwrap();
    let before: Vec<u32> = read.chunks.iter().map(|c| c.compressed_size).collect();
    recompress_chunks(&mut read, 0);
    let written = read.serialize().unwrap();
    let again = Container::deserialize(&written).unwrap();

    assert_eq!(again.header.profile, Profile::Tabl);
    assert_eq!(again.chunks.len(), 2);
    assert!(again.toc.is_none());
    assert!(again.chunks[0].compressed_size <= before[0]);
    assert!(again.chunks[1].compressed_size <= before[1]);
    assert_eq!(again.chunks[0].get_raw_data().unwrap(), repetitive);
    assert_eq!(again.chunks[1].get_raw_data().unwrap(), b"short".to_vec());
}

#[test]
fn test_read_container_with_repeated_extension_writes_back() {
    // Header with the extension flag; the producer entry appears twice, the first time
    // with a two-byte length; the later entry wins.
    let mut bytes: Vec<u8> = Vec::new();
    bytes.extend_from_slice(b"UNV1BLOB");
    bytes.extend_from_slice(&[1, 1, 0x01, 0x00]);
    let block: Vec<u8> = vec![1, 0x83, 0x00, b'a', b'b', b'c', 1, 2, b'x', b'y'];
    bytes.extend_from_slice(&(block.len() as u32).to_le_bytes());
    bytes.extend_from_slice(&block);

    let first = Container::deserialize(&bytes).unwrap();
    let written = first.serialize().unwrap();
    assert!(written.len() < bytes.len());
    let second = Container::deserialize(&written).unwrap();

    assert_eq!(first.header.get_producer(), Some("xy"));
    assert_eq!(second.header.get_producer(), Some("xy"));
    assert_eq!(second.header.profile, Profile::Blob);
    assert_eq!(second.header.flags, first.header.flags);
    assert_eq!(second.chunks.len(), 0);
    assert!(second.toc.is_none());
    assert_eq!(written, second.serialize().unwrap());
}
