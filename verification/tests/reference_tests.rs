use universe::constants::hash_algorithms;
use universe::reference::{DataNode, NodeReference, ReferenceGraph, ReferenceType};
use universe::UnivError;

#[test]
fn test_node_reference_creation() {
    let target_id = "test_node".to_string();
    let hash = vec![1, 2, 3, 4];

    let internal_ref = NodeReference::internal(target_id.clone(), hash_algorithms::BLAKE3, hash.clone());

    assert_eq!(internal_ref.target_id, target_id);
    assert_eq!(internal_ref.ref_type, ReferenceType::Internal);
    assert!(!internal_ref.is_external());

    let external_ref = NodeReference::external("urn:univ:org.example:Test:1.0.0".to_string()).unwrap();
    assert_eq!(external_ref.ref_type, ReferenceType::External);
    assert!(external_ref.is_external());
    assert!(external_ref.urn.is_some());
}

#[test]
fn test_data_node_creation() {
    let data = b"Test node data".to_vec();
    let node = DataNode::new(data.clone(), hash_algorithms::BLAKE3).unwrap();

    assert_eq!(node.data, data);
    assert!(node.verify().is_ok());
    assert_eq!(node.references.len(), 0);
}

#[test]
fn test_data_node_references() {
    let data1 = b"Node 1".to_vec();
    let data2 = b"Node 2".to_vec();

    let node1 = DataNode::new(data1, hash_algorithms::BLAKE3).unwrap();
    let mut node2 = DataNode::new(data2, hash_algorithms::BLAKE3).unwrap();

    node2.add_internal_reference(&node1);
    assert_eq!(node2.get_internal_references().len(), 1);

    node2.add_external_reference("urn:univ:org.example:Test:1.0.0".to_string()).unwrap();
    assert_eq!(node2.get_external_references().len(), 1);
}

#[test]
fn test_reference_graph() {
    let mut graph = ReferenceGraph::new();

    let data1 = b"Node 1".to_vec();
    let data2 = b"Node 2".to_vec();

    let node1 = DataNode::new(data1, hash_algorithms::BLAKE3).unwrap();
    let mut node2 = DataNode::new(data2, hash_algorithms::BLAKE3).unwrap();

    node2.add_internal_reference(&node1);

    let node1_id = node1.id.clone();
    let node2_id = node2.id.clone();

    graph.add_node(node1).unwrap();
    graph.add_node(node2).unwrap();

    let refs = graph.get_references(&node2_id);
    assert!(refs.is_some());
    assert!(refs.unwrap().contains(&node1_id));

    let referrers = graph.get_referrers(&node1_id);
    assert!(referrers.is_some());
    assert!(referrers.unwrap().contains(&node2_id));

    assert!(graph.check_cycles().is_ok());
}

#[test]
fn test_cycle_detection() {
    let mut graph = ReferenceGraph::new();

    let data1 = b"Node 1".to_vec();
    let data2 = b"Node 2".to_vec();
    let data3 = b"Node 3".to_vec();

    let node1 = DataNode::new(data1, hash_algorithms::BLAKE3).unwrap();
    let mut node2 = DataNode::new(data2, hash_algorithms::BLAKE3).unwrap();
    let mut node3 = DataNode::new(data3, hash_algorithms::BLAKE3).unwrap();

    node2.add_internal_reference(&node1);
    node3.add_internal_reference(&node2);

    graph.add_node(node1).unwrap();
    graph.add_node(node2).unwrap();
    graph.add_node(node3).unwrap();

    assert!(graph.check_cycles().is_ok());
}

#[test]
fn test_reachable_nodes() {
    let mut graph = ReferenceGraph::new();

    let data1 = b"Node 1".to_vec();
    let data2 = b"Node 2".to_vec();
    let data3 = b"Node 3".to_vec();

    let node1 = DataNode::new(data1, hash_algorithms::BLAKE3).unwrap();
    let mut node2 = DataNode::new(data2, hash_algorithms::BLAKE3).unwrap();
    let node3 = DataNode::new(data3, hash_algorithms::BLAKE3).unwrap();

    node2.add_internal_reference(&node1);
    node2.add_internal_reference(&node3);

    let node1_id = node1.id.clone();
    let node2_id = node2.id.clone();
    let node3_id = node3.id.clone();

    graph.add_node(node1).unwrap();
    graph.add_node(node2).unwrap();
    graph.add_node(node3).unwrap();

    let reachable = graph.get_reachable_nodes(&node2_id);
    assert!(reachable.contains(&node1_id));
    assert!(reachable.contains(&node2_id));
    assert!(reachable.contains(&node3_id));
    assert_eq!(reachable.len(), 3);
}

#[test]
fn test_graph_statistics() {
    let mut graph = ReferenceGraph::new();

    let data1 = b"Node 1".to_vec();
    let data2 = b"Node 2".to_vec();

    let node1 = DataNode::new(data1, hash_algorithms::BLAKE3).unwrap();
    let mut node2 = DataNode::new(data2, hash_algorithms::BLAKE3).unwrap();

    node2.add_internal_reference(&node1);
    node2.add_external_reference("urn:univ:org.example:Test:1.0.0".to_string()).unwrap();

    graph.add_node(node1).unwrap();
    graph.add_node(node2).unwrap();

    let stats = graph.statistics();
    assert_eq!(stats.node_count, 2);
    assert_eq!(stats.internal_reference_count, 1);
    assert_eq!(stats.external_reference_count, 1);
}

fn node(text: &str) -> DataNode {
    DataNode::new(text.as_bytes().to_vec(), hash_algorithms::BLAKE3).unwrap()
}

#[test]
fn cycle_through_references_is_found() {
    let mut graph = ReferenceGraph::new();
    let mut a = node("a");
    let mut b = node("b");
    let a_id = a.id.clone();
    b.add_internal_reference(&a);
    a.add_internal_reference(&b);
    graph.add_node(a).unwrap();
    graph.add_node(b).unwrap();
    assert!(matches!(graph.check_cycles(), Err(UnivError::CircularReference { .. })));
    let reach = graph.get_reachable_nodes(&a_id);
    assert_eq!(reach.len(), 2);
}

#[test]
fn self_reference_is_a_cycle() {
    let mut graph = ReferenceGraph::new();
    let mut a = node("self");
    let copy = a.clone();
    a.add_internal_reference(&copy);
    graph.add_node(a).unwrap();
    assert!(graph.check_cycles().is_err());
}

#[test]
fn references_to_missing_nodes_are_not_followed() {
    let mut graph = ReferenceGraph::new();
    let ghost = node("not in graph");
    let mut a = node("a");
    a.add_internal_reference(&ghost);
    let a_id = a.id.clone();
    graph.add_node(a).unwrap();
    assert!(graph.check_cycles().is_ok());
    let reach = graph.get_reachable_nodes(&a_id);
    assert_eq!(reach.len(), 1);
    assert!(!reach.contains(&ghost.id));
    let from_unknown = graph.get_reachable_nodes("unknown");
    assert_eq!(from_unknown.len(), 1);
    assert!(from_unknown.contains("unknown"));
}

#[test]
fn corrupt_node_is_refused() {
    let mut graph = ReferenceGraph::new();
    let mut a = node("a");
    a.data.push(0);
    assert!(matches!(graph.add_node(a), Err(UnivError::HashMismatch { .. })));
    assert_eq!(graph.node_count(), 0);
    assert!(graph.node_ids().is_empty());
}

#[test]
fn node_identifier_is_hex_of_hash() {
    let n = node("abc");
    assert_eq!(n.id, "6437b3ac38465133ffb63b75273a8db548c558465d79db03fd359c6cd5bd9d85");
    let r = NodeReference::external("urn:x".to_string()).unwrap();
    assert_eq!(r.target_id, hex::encode(&r.content_hash));
    assert_eq!(r.hash_algorithm, hash_algorithms::SHA256);
    assert_eq!(r.get_content_hash().hash, r.content_hash);
    assert!(matches!(
        DataNode::new(vec![1], 77),
        Err(UnivError::UnsupportedHashAlgorithm { algorithm: 77 })
    ));
}

#[test]
fn node_metadata_and_graph_lookup() {
    let mut a = node("a");
    a.set_metadata("k".to_string(), "v1".to_string());
    a.set_metadata("k".to_string(), "v2".to_string());
    assert_eq!(a.get_metadata("k"), Some(&"v2".to_string()));
    assert_eq!(a.get_metadata("missing"), None);
    let id = a.id.clone();
    let mut graph = ReferenceGraph::default();
    graph.add_node(a).unwrap();
    assert_eq!(graph.get_node(&id).unwrap().get_metadata("k"), Some(&"v2".to_string()));
    assert!(graph.get_node("nope").is_none());
    assert_eq!(graph.node_ids(), vec![&id]);
}

#[test]
fn every_reference_is_in_reverse_index() {
    let mut graph = ReferenceGraph::new();
    let a = node("a");
    let b = node("b");
    let mut c = node("c");
    c.add_internal_reference(&a);
    c.add_internal_reference(&b);
    c.add_internal_reference(&a);
    let (a_id, b_id, c_id) = (a.id.clone(), b.id.clone(), c.id.clone());
    graph.add_node(c).unwrap();
    let refs = graph.get_references(&c_id).unwrap();
    assert_eq!(refs.len(), 2);
    for i in 0..refs.len() {
        let target = refs.id_at(i);
        assert!(graph.get_referrers(target).unwrap().contains(&c_id));
    }
    assert!(refs.contains(&a_id) && refs.contains(&b_id));
    assert_eq!(graph.statistics().internal_reference_count, 2);
}
