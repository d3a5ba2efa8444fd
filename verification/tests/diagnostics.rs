use pdf_ast::ast::NodeType;
use pdf_ast::diagnostics::{
    count_object_declarations, find_streams_in_data, is_stream_corrupted, quick_health_check,
    DocumentDiagnostics,
};
use pdf_ast::document::{PdfDocument, PdfVersion};
use pdf_ast::recovery::{
    CheckStatus, CorruptionType, DiagnosticsConfig, DocumentHealth, ErrorSeverity, Priority,
    RecommendedAction,
};
use pdf_ast::types::{PdfDictionary, PdfReference, PdfValue};

fn document_with_pages() -> PdfDocument {
    let mut doc = PdfDocument::new(PdfVersion::new(1, 7));
    let catalog = doc.ast.create_node(NodeType::Catalog, PdfValue::Null);
    doc.ast.set_root(catalog);
    doc.ast.create_node(NodeType::Pages, PdfValue::Null);
    doc
}

const SOUND: &[u8] = b"%PDF-1.7\n1 0 obj\n<< >>\nendobj\nxref\n0 1\ntrailer\n<< >>\n%%EOF";

#[test]
fn sound_document_is_healthy() {
    let doc = document_with_pages();
    assert_eq!(quick_health_check(&doc, SOUND), DocumentHealth::Healthy);

    let report = DocumentDiagnostics::default().analyze_health(&doc, SOUND);
    assert!(report.structure_health.has_valid_header);
    assert!(report.structure_health.has_catalog);
    assert!(report.structure_health.has_pages_tree);
    assert!(report.structure_health.has_valid_xref);
    assert!(report.structure_health.has_trailer);
    assert_eq!(report.integrity.part, 3);
    assert_eq!(report.integrity.whole, 3);
    assert!(report.corruption_indicators.is_empty());
    assert!(report.recommendations.is_empty());
    assert_eq!(report.statistics.checks_performed, 10);
    assert_eq!(report.statistics.checks_passed, 8);
    assert_eq!(report.statistics.checks_failed, 0);
    assert_eq!(report.statistics.nodes_analyzed, 2);
    assert_eq!(report.statistics.bytes_analyzed, SOUND.len() as u64);
}

#[test]
fn garbage_is_severely_damaged() {
    let doc = PdfDocument::new(PdfVersion::new(1, 7));
    let data = b"not a pdf";
    assert_eq!(quick_health_check(&doc, data), DocumentHealth::SeverelyDamaged);

    let report = DocumentDiagnostics::default().analyze_health(&doc, data);
    assert_eq!(report.integrity.part, 2);
    assert_eq!(report.corruption_indicators.len(), 1);
    let eof = &report.corruption_indicators[0];
    assert_eq!(eof.indicator_type, CorruptionType::StructuralDamage);
    assert_eq!(eof.severity, ErrorSeverity::Warning);
    assert_eq!(eof.location, "End of file");
    assert_eq!(eof.description, "Missing or corrupted EOF marker");
    assert_eq!(eof.confidence_percent, 90);
    assert_eq!(report.recommendations.len(), 1);
    assert_eq!(report.recommendations[0].priority, Priority::High);
    assert_eq!(report.recommendations[0].action, RecommendedAction::StructureRepair);
    assert_eq!(report.recommendations[0].description, "Repair basic PDF structure");
    assert_eq!(report.recommendations[0].success_percent, 80);
}

#[test]
fn missing_objects_raise_an_error_indicator() {
    let doc = document_with_pages();
    let data = b"%PDF-1.7\n1 0 obj 2 0 obj 3 0 obj 4 0 obj 5 0 obj 6 0 obj\nxref\ntrailer\n%%EOF";
    let report = DocumentDiagnostics::default().analyze_health(&doc, data);
    assert_eq!(report.corruption_indicators.len(), 1);
    let missing = &report.corruption_indicators[0];
    assert_eq!(missing.indicator_type, CorruptionType::MissingComponents);
    assert_eq!(missing.severity, ErrorSeverity::Error);
    assert_eq!(missing.description, "Expected 6 objects, found 2");
    assert_eq!(report.recommendations[0].action, RecommendedAction::DataRecovery);
    // 2/3 integrity less 0.1 for the error indicator.
    assert_eq!(report.overall_health, DocumentHealth::Damaged);
    assert_eq!(report.statistics.checks_failed, 1);
}

#[test]
fn recommendations_follow_priority() {
    let doc = document_with_pages();
    let data = b"%PDF-1.7\x00 xref trailer stream\nabc\nendstream";
    let report = DocumentDiagnostics::default().analyze_health(&doc, data);
    let kinds: Vec<CorruptionType> =
        report.corruption_indicators.iter().map(|i| i.indicator_type).collect();
    assert_eq!(
        kinds,
        vec![
            CorruptionType::StructuralDamage,
            CorruptionType::DataCorruption,
            CorruptionType::StreamCorruption
        ]
    );
    assert_eq!(report.corruption_indicators[2].description, "1 corrupted streams detected");
    let actions: Vec<RecommendedAction> = report.recommendations.iter().map(|r| r.action).collect();
    assert_eq!(
        actions,
        vec![
            RecommendedAction::StructureRepair,
            RecommendedAction::DataRecovery,
            RecommendedAction::StreamReconstruction
        ]
    );
}

#[test]
fn findings_name_each_checker() {
    let doc = document_with_pages();
    let report = DocumentDiagnostics::default().analyze_health(&doc, SOUND);
    let names: Vec<&str> = report.detailed_findings.iter().map(|(n, _)| n.as_str()).collect();
    assert_eq!(
        names,
        vec!["HeaderChecker", "StructureChecker", "ReferenceChecker", "StreamChecker", "IntegrityChecker"]
    );
    let structure = &report.detailed_findings[1].1;
    assert_eq!(structure.check_name, "Structure Validation");
    assert_eq!(structure.status, CheckStatus::Passed);
    assert_eq!(structure.details, "Document has 2 nodes, root: true");
    assert_eq!(structure.metrics, vec![("has_root".to_string(), 1), ("node_count".to_string(), 2)]);
    let integrity = &report.detailed_findings[4].1;
    assert_eq!(integrity.details, "File integrity appears intact");
}

#[test]
fn configuration_chooses_the_checkers() {
    let doc = document_with_pages();
    let config = DiagnosticsConfig {
        deep_analysis: false,
        check_integrity: false,
        analyze_structure: false,
        validate_references: true,
        check_streams: false,
        timeout_ms: 1000,
    };
    let report = DocumentDiagnostics::new(config).analyze_health(&doc, SOUND);
    assert_eq!(report.detailed_findings.len(), 3);
    assert!(!report.structure_health.has_valid_header);
    assert_eq!(report.integrity.whole, 0);
    assert_eq!(report.statistics.checks_performed, 1);
    // Nothing of the structure was examined, so every structure penalty applies.
    assert_eq!(report.overall_health, DocumentHealth::SeverelyDamaged);
}

#[test]
fn an_exact_two_fifths_score_is_damaged() {
    // Header and trailer present, catalog, page tree and xref keyword missing:
    // 1.0 - 0.3 - 0.2 - 0.1 = 0.4.
    let doc = PdfDocument::new(PdfVersion::new(1, 7));
    let data = b"%PDF-1.7\ntrailer\n%%EOF";
    assert_eq!(quick_health_check(&doc, data), DocumentHealth::Damaged);
}

#[test]
fn streams_are_found_and_judged() {
    let data = b"xx stream\nabc\nendstream yy stream";
    let spans = find_streams_in_data(data);
    assert_eq!(spans, vec![(3, 14)]);
    // The search goes on from the `endstream`, whose tail reads `stream`.
    assert_eq!(find_streams_in_data(b"stream a endstream b endstream"), vec![(0, 9), (12, 21)]);
    // A span stops before its `endstream`, so it never ends with one.
    assert!(is_stream_corrupted(data, 3, 14));
    assert!(!is_stream_corrupted(b"stream\nendstream", 0, 16));
    let zeros = b"stream\0\0\0\0\0\0\0\0\0\0endstream";
    assert!(is_stream_corrupted(zeros, 0, zeros.len()));
    assert_eq!(count_object_declarations(b"1 0 obj 2 0 obj endobj"), 2);
}

#[test]
fn references_of_every_node_are_counted() {
    let mut doc = document_with_pages();
    let mut dict = PdfDictionary::new();
    dict.insert("A", PdfValue::Reference(PdfReference::new(5, 0)));
    dict.insert("B", PdfValue::Array(vec![PdfValue::Reference(PdfReference::new(6, 0))]));
    doc.ast.create_node(NodeType::Catalog, PdfValue::Dictionary(dict));
    let report = DocumentDiagnostics::default().analyze_health(&doc, SOUND);
    assert_eq!(report.structure_health.reference_integrity.part, 2);
    assert_eq!(report.structure_health.reference_integrity.whole, 2);
}
