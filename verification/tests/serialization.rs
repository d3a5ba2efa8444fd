use pdf_ast::ast::{AstNode, EdgeType, NodeId, NodeType, PdfAstGraph};
use pdf_ast::limits::{ResourceBudget, ResourceBudgetError};
use pdf_ast::serialization::{
    deserialize_value, serialize_value, GraphDeserializer, GraphMetadata, SerializableEdge,
    SerializableGraph, SerializableNode, SerializableValue, AST_SCHEMA_VERSION,
};
use pdf_ast::type_names::{edge_type_name, node_type_name, parse_edge_type, parse_node_type};
use pdf_ast::types::{ObjectId, PdfDictionary, PdfName, PdfReal, PdfReference, PdfStream, PdfString, PdfValue, StreamData};

fn node_with_object(ast: &PdfAstGraph, object_id: ObjectId) -> Option<NodeId> {
    ast.nodes()
        .iter()
        .find(|node| node.node_type == NodeType::Object(object_id))
        .map(|node| node.id)
}

#[test]
fn test_graph_serialization() {
    let mut ast = PdfAstGraph::new();
    let root_value = PdfValue::Dictionary(PdfDictionary::new());
    let root_id = ast.create_node(NodeType::Root, root_value);
    let object_id = ObjectId::new(42, 7);
    let object_node_id = ast.create_node(NodeType::Object(object_id), PdfValue::Integer(1));
    ast.set_root(root_id);

    let serialized = SerializableGraph::from_ast(&ast);
    assert_eq!(serialized.nodes.len(), 2);
    assert_eq!(serialized.edges.len(), 0);
    assert!(serialized.root.is_some());
    let object_node = serialized
        .nodes
        .iter()
        .find(|node| node.original_id == Some(object_node_id.0))
        .unwrap();
    assert_eq!(object_node.node_type, "Object");
    assert_eq!(object_node.object_id, Some((42, 7)));
    assert!(serialized.nodes.iter().any(|node| node.node_type == "Root"));

    let restored = GraphDeserializer::deserialize(serialized).unwrap();
    assert_eq!(restored.node_count(), 2);
    assert!(node_with_object(&restored, object_id).is_some());
}

fn single_object_graph(object_id: Option<(u32, u16)>, version: &str) -> SerializableGraph {
    SerializableGraph {
        nodes: vec![SerializableNode {
            original_id: None,
            id: 0,
            node_type: "Object".to_string(),
            value: SerializableValue::Null,
            object_id,
            warnings: Vec::new(),
            properties: Vec::new(),
        }],
        edges: Vec::new(),
        root: Some(0),
        metadata: GraphMetadata {
            node_count: 1,
            edge_count: 0,
            is_cyclic: false,
            serialization_version: version.to_string(),
        },
    }
}

#[test]
fn rejects_object_nodes_without_identity() {
    let error = GraphDeserializer::deserialize(single_object_graph(None, AST_SCHEMA_VERSION)).unwrap_err();
    assert!(error.contains("missing its object_id"));
}

#[test]
fn rejects_unsupported_schema_versions() {
    let mut ast = PdfAstGraph::new();
    let root_id = ast.create_node(NodeType::Root, PdfValue::Null);
    ast.set_root(root_id);

    for version in ["1", "1.2.0", "2.0.0"] {
        let mut graph = SerializableGraph::from_ast(&ast);
        graph.metadata.serialization_version = version.to_string();
        let error = GraphDeserializer::deserialize(graph).unwrap_err();
        assert!(error.contains("Unsupported AST serialization version"));
        assert_eq!(
            error,
            format!("Unsupported AST serialization version: {}; expected 1.1.0", version)
        );
    }
}

#[test]
fn migrates_ast_1_0_graphs_without_losing_object_identity() {
    let mut ast = PdfAstGraph::new();
    let object_id = ObjectId::new(42, 7);
    let node_id = ast.create_node(NodeType::Object(object_id), PdfValue::Null);
    ast.set_root(node_id);
    let mut graph = SerializableGraph::from_ast(&ast);
    graph.metadata.serialization_version = "1.0".to_string();

    let restored = GraphDeserializer::deserialize(graph).unwrap();
    assert!(node_with_object(&restored, object_id).is_some());
}

#[test]
fn preserves_non_contiguous_node_ids_across_round_trip() {
    let mut ast = PdfAstGraph::new();
    let root_id = NodeId(41);
    let child_id = NodeId(9001);
    ast.add_node(AstNode::new(root_id, NodeType::Root, PdfValue::Dictionary(PdfDictionary::new())));
    ast.add_node(AstNode::new(child_id, NodeType::Metadata, PdfValue::Null));
    ast.set_root(root_id);
    ast.add_edge(root_id, child_id, EdgeType::Child);

    let restored = GraphDeserializer::deserialize(SerializableGraph::from_ast(&ast)).unwrap();

    assert!(restored.get_node(root_id).is_some());
    assert!(restored.get_node(child_id).is_some());
    assert_eq!(restored.get_children(root_id), vec![child_id]);
    assert_eq!(restored.get_root(), Some(root_id));
}

#[test]
fn preserves_node_source_metadata_across_round_trip() {
    let mut ast = PdfAstGraph::new();
    let root_id = ast.create_node(NodeType::Root, PdfValue::Null);
    ast.set_root(root_id);
    ast.add_node_warning(root_id, "missing end marker".to_string());
    ast.set_node_property(root_id, "decode_state".to_string(), "recovered".to_string());

    let serialized = SerializableGraph::from_ast(&ast);
    assert_eq!(serialized.nodes[0].warnings, vec!["missing end marker"]);
    assert_eq!(
        serialized.nodes[0].properties,
        vec![("decode_state".to_string(), "recovered".to_string())]
    );

    let restored = GraphDeserializer::deserialize(serialized).unwrap();
    let restored_node = restored.get_node(restored.get_root().unwrap()).unwrap();
    assert_eq!(restored_node.metadata.warnings(), &vec!["missing end marker".to_string()]);
    assert_eq!(
        restored_node.metadata.get_property("decode_state"),
        Some(&"recovered".to_string())
    );
}

#[test]
fn preserves_stream_decode_state_across_round_trip() {
    let mut ast = PdfAstGraph::new();
    let mut dictionary = PdfDictionary::new();
    dictionary.insert("Length", PdfValue::Integer(3));
    let stream_id = ast.create_node(
        NodeType::ContentStream,
        PdfValue::Stream(PdfStream { dict: dictionary, data: StreamData::Decoded(b"abc".to_vec()) }),
    );
    ast.set_root(stream_id);

    let serialized = SerializableGraph::from_ast(&ast);
    let SerializableValue::Stream { decoded, .. } = &serialized.nodes[0].value else {
        panic!("expected serialized stream");
    };
    assert!(*decoded);

    let restored = GraphDeserializer::deserialize(serialized).unwrap();
    let node = restored.get_node(restored.get_root().unwrap()).unwrap();
    let PdfValue::Stream(stream) = &node.value else {
        panic!("expected restored stream");
    };
    assert!(matches!(stream.data, StreamData::Decoded(ref data) if data == b"abc"));
    assert_eq!(stream.dict.get("Length"), Some(&PdfValue::Integer(3)));
}

#[test]
fn rejects_ast_1_0_object_nodes_without_identity_during_migration() {
    let mut ast = PdfAstGraph::new();
    let root_id = ast.create_node(NodeType::Root, PdfValue::Null);
    ast.set_root(root_id);
    let mut graph = SerializableGraph::from_ast(&ast);
    graph.nodes[0].node_type = "Object".to_string();
    graph.nodes[0].object_id = None;
    graph.metadata.serialization_version = "1.0".to_string();

    let error = GraphDeserializer::deserialize(graph).unwrap_err();
    assert!(error.contains("Cannot migrate AST 1.0 object node"));
}

#[test]
fn rejects_inconsistent_graph_metadata_and_topology() {
    let mut ast = PdfAstGraph::new();
    let root_id = ast.create_node(NodeType::Root, PdfValue::Null);
    ast.set_root(root_id);
    let graph = SerializableGraph::from_ast(&ast);

    let mut count_mismatch = graph.clone_graph();
    count_mismatch.metadata.node_count += 1;
    let error = GraphDeserializer::deserialize(count_mismatch).unwrap_err();
    assert!(error.contains("node count mismatch"));
    assert_eq!(error, "AST node count mismatch: metadata=2, actual=1");

    let mut duplicate_id = graph.clone_graph();
    let copy = duplicate_id.clone_graph().nodes.remove(0);
    duplicate_id.nodes.push(copy);
    duplicate_id.metadata.node_count += 1;
    let error = GraphDeserializer::deserialize(duplicate_id).unwrap_err();
    assert!(error.contains("Duplicate serialized node ID"));

    let mut invalid_root = graph;
    invalid_root.root = Some(99);
    let error = GraphDeserializer::deserialize(invalid_root).unwrap_err();
    assert!(error.contains("Invalid root node ID"));
    assert_eq!(error, "Invalid root node ID: 99");
}

#[test]
fn budgeted_graph_serialization_rejects_node_limits() {
    let mut ast = PdfAstGraph::new();
    let root_id = ast.create_node(NodeType::Root, PdfValue::Null);
    ast.set_root(root_id);
    let budget = ResourceBudget::new(1024, 1024, 1024, 100, 10, 0, 10, 10);

    let error = SerializableGraph::from_ast_with_budget(&ast, &budget)
        .expect_err("node budget must apply to serialization");
    assert_eq!(error, ResourceBudgetError::Nodes);
}

#[test]
fn budgeted_graph_serialization_charges_stream_bytes() {
    let mut ast = PdfAstGraph::new();
    let stream_id = ast.create_node(
        NodeType::ContentStream,
        PdfValue::Stream(PdfStream::new(PdfDictionary::new(), b"abc".to_vec())),
    );
    ast.set_root(stream_id);
    let budget = ResourceBudget::new(5, 1024, 1024, 100, 10, 10, 10, 10);

    let error = SerializableGraph::from_ast_with_budget(&ast, &budget)
        .expect_err("stream payload must apply to serialization budget");
    assert_eq!(error, ResourceBudgetError::InputBytes);
}

#[test]
fn budgeted_graph_deserialization_charges_stream_bytes() {
    let mut ast = PdfAstGraph::new();
    let stream_id = ast.create_node(
        NodeType::ContentStream,
        PdfValue::Stream(PdfStream::new(PdfDictionary::new(), b"abc".to_vec())),
    );
    ast.set_root(stream_id);
    let serialized = SerializableGraph::from_ast(&ast);
    let budget = ResourceBudget::new(2, 1024, 1024, 100, 10, 10, 10, 10);

    let error = serialized
        .deserialize_with_budget(&budget)
        .expect_err("stream payload must apply to deserialization budget");
    assert!(error.contains("InputBytes"));
}

#[test]
fn values_read_back_as_written() {
    let mut dict = PdfDictionary::new();
    dict.insert("Type", PdfValue::Name(PdfName::new("Page")));
    dict.insert("Kids", PdfValue::Array(vec![PdfValue::Reference(PdfReference::new(3, 0))]));
    dict.insert("Scale", PdfValue::Real(PdfReal::new(125, 2)));
    dict.insert("Title", PdfValue::String(PdfString::new_literal("Grüße".as_bytes())));
    dict.insert("Flag", PdfValue::Boolean(true));
    let value = PdfValue::Dictionary(dict);
    let serialized = serialize_value(&value);
    let SerializableValue::Dictionary(entries) = &serialized else {
        panic!("expected a serialized dictionary");
    };
    let keys: Vec<&str> = entries.iter().map(|(k, _)| k.as_str()).collect();
    assert_eq!(keys, vec!["/Type", "/Kids", "/Scale", "/Title", "/Flag"]);
    assert!(matches!(&entries[3].1, SerializableValue::String(t) if t == "Grüße"));
    assert_eq!(deserialize_value(&serialized), value);
}

#[test]
fn invalid_utf8_strings_are_read_lossily() {
    let value = PdfValue::String(PdfString::new_literal(&[0x66, 0xff]));
    let serialized = serialize_value(&value);
    assert!(matches!(&serialized, SerializableValue::String(t) if t == "f\u{fffd}"));
    let PdfValue::String(back) = deserialize_value(&serialized) else {
        panic!("expected a string");
    };
    assert_eq!(back.bytes, "f\u{fffd}".as_bytes());
}

#[test]
fn type_names_read_back() {
    let types = [
        NodeType::Root,
        NodeType::Catalog,
        NodeType::Type3Font,
        NodeType::FileAttachmentAnnotation,
        NodeType::OCG,
        NodeType::Other,
    ];
    for t in types {
        assert_eq!(parse_node_type(node_type_name(&t), None), Ok(t));
    }
    let object = NodeType::Object(ObjectId::new(9, 1));
    assert_eq!(parse_node_type(node_type_name(&object), Some((9, 1))), Ok(object));
    assert_eq!(parse_node_type("Pagez", None), Err("Unknown node type: Pagez".to_string()));
    for t in [EdgeType::Child, EdgeType::Reference, EdgeType::Parent, EdgeType::Resource, EdgeType::Annotation, EdgeType::Content] {
        assert_eq!(parse_edge_type(edge_type_name(t)), Ok(t));
    }
    assert_eq!(parse_edge_type("Sibling"), Err("Unknown edge type: Sibling".to_string()));
}

#[test]
fn cycles_are_detected() {
    let mut ast = PdfAstGraph::new();
    let a = ast.create_node(NodeType::Root, PdfValue::Null);
    let b = ast.create_node(NodeType::Page, PdfValue::Null);
    let c = ast.create_node(NodeType::Page, PdfValue::Null);
    ast.add_edge(a, b, EdgeType::Child);
    ast.add_edge(b, c, EdgeType::Child);
    assert!(!ast.is_cyclic());
    assert!(!SerializableGraph::from_ast(&ast).metadata.is_cyclic);
    ast.add_edge(c, b, EdgeType::Parent);
    assert!(ast.is_cyclic());
    assert!(SerializableGraph::from_ast(&ast).metadata.is_cyclic);
}

#[test]
fn edges_to_unknown_nodes_are_refused_on_restore() {
    let mut ast = PdfAstGraph::new();
    let root_id = ast.create_node(NodeType::Root, PdfValue::Null);
    ast.set_root(root_id);
    let mut graph = SerializableGraph::from_ast(&ast);
    graph.edges.push(SerializableEdge { from: 0, to: 5, edge_type: "Child".to_string() });
    graph.metadata.edge_count = 1;
    assert_eq!(GraphDeserializer::deserialize(graph).unwrap_err(), "Invalid to node ID: 5");
}
