use pdf_ast::ast::{NodeType, PdfAstGraph};
use pdf_ast::limits::PerformanceLimits;
use pdf_ast::reference_resolver::ReferenceResolver;
use pdf_ast::types::{ObjectId, PdfDictionary, PdfReference, PdfValue};

#[test]
fn test_object_header_parsing() {
    let data = b"123 0 obj";
    let result = ReferenceResolver::parse_object_header(data);
    assert!(result.is_ok());
    let (_, obj_id) = result.unwrap();
    assert_eq!(obj_id.number, 123);
    assert_eq!(obj_id.generation, 0);
}

#[test]
fn test_find_next_object() {
    let data = b"some text 42 0 obj more text";
    let pos = ReferenceResolver::find_next_object(data);
    assert_eq!(pos, Some(10));
}

#[test]
fn test_reference_collection() {
    let pdf_data = vec![0u8; 2048];
    let mut resolver =
        ReferenceResolver::new(pdf_data, true, PerformanceLimits::default()).unwrap();
    let mut ast = PdfAstGraph::new();

    let mut dict = PdfDictionary::new();
    dict.insert("Ref", PdfValue::Reference(PdfReference::new(5, 0)));
    let node_id = ast.create_node(NodeType::Root, PdfValue::Dictionary(dict));

    if let Some(node) = ast.get_node(node_id) {
        resolver.collect_references_from_node(node_id, &node.value);
    }

    assert_eq!(resolver.pending_references.len(), 1);
}

#[test]
fn small_files_are_refused() {
    assert!(ReferenceResolver::new(vec![0u8; 100], true, PerformanceLimits::default()).is_err());
}

#[test]
fn references_are_collected_last_first() {
    let resolver_data = vec![b' '; 2048];
    let mut resolver =
        ReferenceResolver::new(resolver_data, true, PerformanceLimits::default()).unwrap();
    let value = PdfValue::Array(vec![
        PdfValue::Reference(PdfReference::new(1, 0)),
        PdfValue::Integer(3),
        PdfValue::Reference(PdfReference::new(2, 0)),
    ]);
    resolver.collect_references_from_node(pdf_ast::ast::NodeId(0), &value);
    let numbers: Vec<u32> = resolver
        .pending_references
        .iter()
        .map(|(_, r)| r.object_number)
        .collect();
    assert_eq!(numbers, vec![2, 1]);
}

#[test]
fn xref_tables_are_read_from_startxref() {
    let mut data = b"%PDF-1.4\n".to_vec();
    let o1 = data.len();
    data.extend_from_slice(b"1 0 obj\n<< /Type /Catalog >>\nendobj\n");
    let xref = data.len();
    data.extend_from_slice(b"xref\n0 2\n0000000000 65535 f \n");
    data.extend_from_slice(format!("{:010} 00000 n \n", o1).as_bytes());
    data.extend_from_slice(b"trailer\n<< /Size 2 /Root 1 0 R >>\n");
    data.extend_from_slice(format!("startxref\n{}\n%%EOF\n", xref).as_bytes());
    data.resize(2048, b'\n');

    let table = ReferenceResolver::build_xref_table(&data, &PerformanceLimits::default()).unwrap();
    assert_eq!(table.len(), 1);
    assert!(table.contains_key(&ObjectId::new(1, 0)));
}

#[test]
fn resolves_references_into_nodes_and_edges() {
    let mut data = b"%PDF-1.4\n".to_vec();
    let o1 = data.len();
    data.extend_from_slice(b"1 0 obj\n<< /Type /Font /Encoding /WinAnsiEncoding >>\nendobj\n");
    let xref = data.len();
    data.extend_from_slice(b"xref\n0 2\n0000000000 65535 f \n");
    data.extend_from_slice(format!("{:010} 00000 n \n", o1).as_bytes());
    data.extend_from_slice(b"trailer\n<< /Size 2 >>\n");
    data.extend_from_slice(format!("startxref\n{}\n%%EOF\n", xref).as_bytes());
    data.resize(2048, b'\n');

    let mut resolver = ReferenceResolver::new(data, false, PerformanceLimits::default()).unwrap();
    let mut ast = PdfAstGraph::new();
    let mut dict = PdfDictionary::new();
    dict.insert("F", PdfValue::Reference(PdfReference::new(1, 0)));
    ast.create_node(NodeType::Root, PdfValue::Dictionary(dict));

    resolver.resolve_references(&mut ast).unwrap();
    assert!(resolver.pending_references.is_empty());
    let types: Vec<NodeType> = ast.nodes().iter().map(|n| n.node_type).collect();
    assert!(types.contains(&NodeType::Font));
    assert!(types.contains(&NodeType::Encoding));
    assert!(ast.edges().len() >= 2);
}
