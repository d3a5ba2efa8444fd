use pdf_ast::ast::{EdgeType, NodeType};
use pdf_ast::document::{DocumentRevision, PdfDocument, PdfVersion};
use pdf_ast::document_serial::{key_to_text, parse_key, parse_version, version_to_text, SerializableDocument};
use pdf_ast::types::{ObjectId, PdfDictionary, PdfValue};
use pdf_ast::xref::XRefEntry;

fn sample_document() -> PdfDocument {
    let mut doc = PdfDocument::new(PdfVersion::new(1, 7));
    let root = doc.ast.create_node(NodeType::Root, PdfValue::Null);
    let page = doc.ast.create_node(NodeType::Page, PdfValue::Integer(3));
    doc.ast.set_root(root);
    doc.ast.add_edge(root, page, EdgeType::Child);
    doc.catalog = Some(root);
    doc.trailer.insert("Size", PdfValue::Integer(3));
    doc.xref.entries.insert(ObjectId::new(1, 0), XRefEntry::InUse { offset: 9, generation: 0 });
    doc.xref.entries.insert(ObjectId::new(2, 0), XRefEntry::Free { next_free_object: 0, generation: 65535 });
    let mut trailer = PdfDictionary::new();
    trailer.insert("Size", PdfValue::Integer(2));
    doc.revisions.push(DocumentRevision {
        revision_number: 0,
        xref_offset: 100,
        trailer,
        modified_objects: vec![ObjectId::new(1, 0)],
        added_objects: Vec::new(),
        deleted_objects: Vec::new(),
    });
    doc.file_size = Some(500);
    doc
}

#[test]
fn version_text_round_trip() {
    assert_eq!(version_to_text(PdfVersion::new(1, 7)), "1.7");
    assert_eq!(parse_version("2.0"), Some(PdfVersion::new(2, 0)));
    assert_eq!(parse_version("1.x"), None);
    assert_eq!(parse_version("17"), None);
    assert_eq!(parse_version("300.1"), None);
}

#[test]
fn object_key_round_trip() {
    assert_eq!(key_to_text(ObjectId::new(12, 3)), "12_3");
    assert_eq!(parse_key("12_3"), Some(ObjectId::new(12, 3)));
    assert_eq!(parse_key("12-3"), None);
}

#[test]
fn document_serializes_and_reads_back() {
    let doc = sample_document();
    let s = SerializableDocument::from_document(&doc);
    assert_eq!(s.version, "1.7");
    assert_eq!(s.xref_entries.len(), 2);
    assert_eq!(s.xref_entries[0].0, "1_0");
    assert_eq!(s.revisions.len(), 1);
    let back = s.deserialize_document().unwrap();
    assert_eq!(back.version, PdfVersion::new(1, 7));
    assert_eq!(back.trailer.get("Size"), Some(&PdfValue::Integer(3)));
    assert_eq!(back.xref.entries.get(&ObjectId::new(1, 0)), Some(XRefEntry::InUse { offset: 9, generation: 0 }));
    assert_eq!(
        back.xref.entries.get(&ObjectId::new(2, 0)),
        Some(XRefEntry::Free { next_free_object: 0, generation: 65535 })
    );
    assert_eq!(back.ast.node_count(), 2);
    assert_eq!(back.ast.edge_count(), 1);
    assert_eq!(back.revisions.len(), 1);
    assert_eq!(back.revisions[0].xref_offset, 100);
    assert_eq!(back.revisions[0].modified_objects, vec![ObjectId::new(1, 0)]);
    assert_eq!(back.file_size, Some(500));
    assert!(back.catalog.is_some());
}

#[test]
fn bad_version_is_refused() {
    let doc = sample_document();
    let mut s = SerializableDocument::from_document(&doc);
    s.version = "one.seven".to_string();
    match s.deserialize_document() {
        Err(e) => assert!(e.starts_with("Invalid PDF version"), "{}", e),
        Ok(_) => panic!("a bad version must be refused"),
    }
}

#[test]
fn bad_xref_key_is_refused() {
    let doc = sample_document();
    let mut s = SerializableDocument::from_document(&doc);
    s.xref_entries[0].0 = "x".to_string();
    assert!(s.deserialize_document().is_err());
}
