use universe::toc::{ChunkIndex, NodeIndex, RefIndex, Toc};
use universe::UnivError;

#[test]
fn test_toc_creation() {
    let toc = Toc::new();
    assert_eq!(toc.shard_count, 0);
    assert!(toc.chunks.is_empty());
    assert!(toc.nodes.is_empty());
    assert!(toc.refs.is_empty());
    assert!(toc.roots.is_empty());
}

#[test]
fn test_chunk_operations() {
    let mut toc = Toc::new();

    let chunk_index = ChunkIndex {
        chunk_id: "chunk1".to_string(),
        offset: 100,
        size: 1024,
        kind: 1,
        codec: 0,
        raw_size: 1024,
    };

    toc.add_chunk(chunk_index.clone());

    let retrieved = toc.get_chunk("chunk1");
    assert!(retrieved.is_some());
    assert_eq!(retrieved.unwrap().offset, 100);
    assert_eq!(retrieved.unwrap().size, 1024);
}

#[test]
fn test_node_operations() {
    let mut toc = Toc::new();

    let node_index = NodeIndex {
        node_id: "node1".to_string(),
        chunk_id: "chunk1".to_string(),
        node_type: "DataNode".to_string(),
        hash_policy: 0,
    };

    toc.add_node(node_index.clone());

    let retrieved = toc.get_node("node1");
    assert!(retrieved.is_some());
    assert_eq!(retrieved.unwrap().chunk_id, "chunk1");
}

#[test]
fn test_root_operations() {
    let mut toc = Toc::new();

    assert!(toc.add_root("main".to_string(), "node1".to_string()).is_ok());
    assert!(toc.add_root("main".to_string(), "node2".to_string()).is_err());

    let main_root = toc.get_root("main");
    assert!(main_root.is_some());
    assert_eq!(main_root.unwrap(), "node1");

    let main_root = toc.get_main_root();
    assert!(main_root.is_some());
    assert_eq!(main_root.unwrap(), "node1");
}

#[test]
fn test_reference_operations() {
    let mut toc = Toc::new();

    let ref_index = RefIndex {
        source_node: "node1".to_string(),
        target_node: "node2".to_string(),
        external: false,
        ref_type: Some("dependency".to_string()),
    };

    toc.add_ref(ref_index);

    let refs_from_node1 = toc.find_references_from("node1");
    assert_eq!(refs_from_node1.len(), 1);
    assert_eq!(refs_from_node1[0].target_node, "node2");

    let refs_to_node2 = toc.find_references_to("node2");
    assert_eq!(refs_to_node2.len(), 1);
    assert_eq!(refs_to_node2[0].source_node, "node1");
}

#[test]
fn test_toc_serialization() {
    let mut toc = Toc::new();
    toc.add_root("main".to_string(), "node1".to_string()).unwrap();

    let serialized = toc.serialize().unwrap();
    let deserialized = Toc::deserialize(&serialized).unwrap();

    assert_eq!(deserialized.roots.len(), 1);
    assert_eq!(deserialized.get_root("main"), Some(&"node1".to_string()));
}

#[test]
fn test_toc_footer_serialization() {
    let mut toc = Toc::new();
    toc.shard_count = 2;
    toc.shard_offsets = vec![0x1000, 0x2000];

    let footer_data = toc.serialize_footer().unwrap();

    assert_eq!(&footer_data[0..4], b"TOC1");

    let (shard_offsets, consumed) = Toc::deserialize_footer(&footer_data).unwrap();
    assert_eq!(consumed, footer_data.len());
    assert_eq!(shard_offsets.len(), 2);
    assert_eq!(shard_offsets[0], 0x1000);
    assert_eq!(shard_offsets[1], 0x2000);
}

#[test]
fn test_toc_footer_crc_validation() {
    let mut toc = Toc::new();
    toc.shard_count = 1;
    toc.shard_offsets = vec![0x1000];

    let mut footer_data = toc.serialize_footer().unwrap();

    let last_idx = footer_data.len() - 1;
    footer_data[last_idx] ^= 0xFF;

    let result = Toc::deserialize_footer(&footer_data);
    assert!(result.is_err());
    assert!(result.unwrap_err().to_string().contains("CRC校验失败"));
}

#[test]
fn toc_roundtrip_keeps_every_index() {
    let mut toc = Toc::new();
    toc.shard_count = 3;
    toc.shard_offsets = vec![1, 2, 3];
    toc.add_chunk(ChunkIndex {
        chunk_id: "c".to_string(),
        offset: 7,
        size: 8,
        kind: 2,
        codec: 1,
        raw_size: 9,
    });
    toc.add_node(NodeIndex {
        node_id: "n".to_string(),
        chunk_id: "c".to_string(),
        node_type: "T".to_string(),
        hash_policy: 1,
    });
    toc.add_ref(RefIndex {
        source_node: "n".to_string(),
        target_node: "m".to_string(),
        external: true,
        ref_type: None,
    });
    toc.add_root("r".to_string(), "n".to_string()).unwrap();

    let back = Toc::deserialize(&toc.serialize().unwrap()).unwrap();
    assert_eq!(back.shard_count, 3);
    assert_eq!(back.shard_offsets, vec![1, 2, 3]);
    let c = back.get_chunk("c").unwrap();
    assert_eq!((c.offset, c.size, c.kind, c.codec, c.raw_size), (7, 8, 2, 1, 9));
    let n = back.get_node("n").unwrap();
    assert_eq!(n.node_type, "T");
    assert_eq!(n.hash_policy, 1);
    let r = back.find_references_from("n");
    assert_eq!(r.len(), 1);
    assert!(r[0].external);
    assert_eq!(r[0].ref_type, None);
    assert_eq!(back.get_main_root(), Some(&"n".to_string()));
    assert_eq!(back.get_root("r"), Some(&"n".to_string()));
}

#[test]
fn toc_footer_too_short_and_bad_magic() {
    let result = Toc::deserialize_footer(&[0u8; 5]);
    assert!(matches!(result, Err(UnivError::IncompleteData { expected: 8, actual: 5 })));
    let result = Toc::deserialize_footer(b"XXXX\x00\x00\x00\x00");
    assert!(matches!(result, Err(UnivError::DeserializationError { .. })));
}

#[test]
fn toc_footer_layout() {
    let mut toc = Toc::new();
    toc.shard_count = 1;
    toc.shard_offsets = vec![0x0102030405060708];
    let footer = toc.serialize_footer().unwrap();
    assert_eq!(footer.len(), 4 + 1 + 8 + 4);
    assert_eq!(footer[4], 1);
    assert_eq!(&footer[5..13], &[8, 7, 6, 5, 4, 3, 2, 1]);
    let crc = crc32c::crc32c(&footer[..13]);
    assert_eq!(&footer[13..], &crc.to_le_bytes());
}

#[test]
fn toc_refs_are_keyed_by_source_and_target() {
    let mut toc = Toc::new();
    toc.add_ref(RefIndex {
        source_node: "a".to_string(),
        target_node: "b".to_string(),
        external: false,
        ref_type: None,
    });
    toc.add_ref(RefIndex {
        source_node: "a".to_string(),
        target_node: "b".to_string(),
        external: true,
        ref_type: None,
    });
    assert_eq!(toc.refs.len(), 1);
    assert!(toc.find_references_from("a")[0].external);
    assert!(toc.refs.get("a:b").is_some());
}

#[test]
fn test_reference_keys_do_not_collide() {
    let mut t = Toc::new();
    t.add_ref(RefIndex { source_node: "a:b".into(), target_node: "c".into(), external: false, ref_type: None });
    t.add_ref(RefIndex { source_node: "a".into(), target_node: "b:c".into(), external: false, ref_type: None });
    assert_eq!(t.refs.len(), 2);
    assert_eq!(t.find_references_from("a:b").len(), 1);
    assert_eq!(t.find_references_from("a").len(), 1);
    t.add_ref(RefIndex { source_node: "a".into(), target_node: "b:c".into(), external: true, ref_type: None });
    assert_eq!(t.refs.len(), 2);
    assert!(t.find_references_from("a")[0].external);
}

#[test]
fn test_footer_declaring_too_many_shards() {
    let data = [b"TOC1".to_vec(), vec![0xFF, 0xFF, 0xFF, 0xFF, 0xFF, 0xFF, 0xFF, 0xFF, 0xFF, 0x01]].concat();
    assert!(matches!(
        Toc::deserialize_footer(&data),
        Err(UnivError::IncompleteData { expected: 8, actual: 0 })
    ));
}

#[test]
fn test_toc_bytes_start_with_map_head() {
    let mut toc = Toc::new();
    toc.add_root("main".to_string(), "n".to_string()).unwrap();
    let bytes = toc.serialize().unwrap();
    assert_eq!(bytes[0], 0xa6);
}
