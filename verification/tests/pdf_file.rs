use pdf_ast::ast::NodeType;
use pdf_ast::document::ParseMode;
use pdf_ast::limits::{PerformanceLimits, ResourceBudget};
use pdf_ast::object_parser::parse_object_header;
use pdf_ast::pdf_file::{try_parse_linearization_dict, PdfFileParser, MAX_FORM_FIELD_DEPTH};
use pdf_ast::types::{ObjectId, PdfArray, PdfDictionary, PdfReference, PdfStream, PdfValue};
use pdf_ast::xref::XRefEntry;

fn parser(data: &[u8], mode: ParseMode, max_errors: usize) -> PdfFileParser {
    PdfFileParser::new_with_limits(data.to_vec(), mode, max_errors, PerformanceLimits::default())
        .expect("parser should initialize")
}

#[test]
fn rejects_wrapped_recovery_object_ids() {
    assert!(parse_object_header(b"-1 0 obj", 0).is_err());
    assert!(parse_object_header(b"1 -1 obj", 0).is_err());
}

#[test]
fn strict_xref_stream_rejects_unknown_entry_type() {
    let parser = parser(b"%PDF-1.7\n", ParseMode::Strict, 0);
    let error = parser
        .parse_xref_stream_entry(&[3, 0, 0], &[1, 1, 1])
        .expect_err("strict mode must reject unknown XRef entry types");
    assert!(error.to_string().contains("Invalid XRef entry type"));
}

#[test]
fn strict_xfa_value_resolution_rejects_excessive_depth() {
    let mut limits = PerformanceLimits {
        max_depth: 1,
        ..PerformanceLimits::default()
    };
    limits.refresh_budget();
    let mut parser =
        PdfFileParser::new_with_limits(b"%PDF-1.7\n".to_vec(), ParseMode::Strict, 0, limits)
            .expect("valid header should construct parser");
    let nested = PdfValue::Array(PdfArray::from(vec![PdfValue::Array(PdfArray::from(vec![
        PdfValue::Integer(1),
    ]))]));

    let error = parser
        .resolve_xfa_value(&nested)
        .expect_err("strict mode must bound XFA value recursion");
    assert!(error.to_string().contains("XFA value depth"));
}

#[test]
fn resolves_indirect_stream_length_before_parsing_stream_data() {
    let stream_data = b"abcendstreamxyz";
    let mut data = b"%PDF-1.7\n".to_vec();
    let stream_offset = data.len() as u64;
    data.extend_from_slice(b"4 0 obj\n<< /Length 5 0 R >>\nstream\n");
    data.extend_from_slice(stream_data);
    data.extend_from_slice(b"\nendstream\nendobj\n");
    let length_offset = data.len() as u64;
    data.extend_from_slice(b"5 0 obj\n15\nendobj\n");

    let mut parser = parser(&data, ParseMode::Strict, 0);
    parser.document.xref.entries.insert(
        ObjectId::new(4, 0),
        XRefEntry::InUse {
            offset: stream_offset,
            generation: 0,
        },
    );
    parser.document.xref.entries.insert(
        ObjectId::new(5, 0),
        XRefEntry::InUse {
            offset: length_offset,
            generation: 0,
        },
    );

    let value = parser
        .load_object(&ObjectId::new(4, 0))
        .expect("stream object should load");
    let PdfValue::Stream(stream) = value else {
        panic!("expected stream");
    };
    assert_eq!(stream.raw_data(), Some(stream_data.as_slice()));
}

#[test]
fn indirect_stream_length_validation_preserves_observed_bytes() {
    let data = b"%PDF-1.7\n5 0 obj\n3\nendobj\n".to_vec();
    let mut parser = parser(&data, ParseMode::Strict, 0);
    parser.document.xref.entries.insert(
        ObjectId::new(5, 0),
        XRefEntry::InUse {
            offset: 9,
            generation: 0,
        },
    );

    let length_ref = PdfReference::new(5, 0);
    let mut dict = PdfDictionary::new();
    dict.insert("Length", PdfValue::Reference(length_ref));
    let mut stream = PdfStream::new(dict, b"abcd".to_vec());
    parser
        .resolve_indirect_stream_length(&mut stream)
        .expect("declared length should validate");

    assert_eq!(
        stream.dict.get("Length"),
        Some(&PdfValue::Reference(length_ref))
    );
    assert_eq!(stream.raw_data(), Some(b"abcd".as_slice()));
}

#[test]
fn reads_xref_data_beyond_the_legacy_buffer_size() {
    let mut data = b"%PDF-1.7\n".to_vec();
    data.resize(300 * 1024, b'x');
    let mut parser = parser(&data, ParseMode::Tolerant, 100);
    let buffer = parser.read_xref_buffer(0).expect("xref data should read");
    assert_eq!(buffer.len(), data.len());
}

#[test]
fn ignores_invalid_linearization_dictionaries() {
    let negative_length =
        b"1 0 obj\n<< /Linearized 1.0 /L -1 /H [0 0] /O 1 /E 1 /N 1 /T 1 >>\nendobj\n";
    let missing_length = b"1 0 obj\n<< /Linearized 1.0 /H [0 0] /O 1 /E 1 /N 1 /T 1 >>\nendobj\n";

    assert!(try_parse_linearization_dict(negative_length).is_none());
    assert!(try_parse_linearization_dict(missing_length).is_none());
}

#[test]
fn rejects_missing_or_negative_xref_stream_size() {
    let missing_size = PdfDictionary::new();
    assert!(PdfFileParser::extract_xref_index_ranges(&missing_size).is_err());

    let mut negative_size = PdfDictionary::new();
    negative_size.insert("Size", PdfValue::Integer(-1));
    assert!(PdfFileParser::extract_xref_index_ranges(&negative_size).is_err());
}

#[test]
fn rejects_xref_stream_width_arrays_with_wrong_length() {
    let mut dict = PdfDictionary::new();
    dict.insert("W", PdfValue::Array(vec![PdfValue::Integer(1)].into()));
    assert!(PdfFileParser::extract_xref_field_widths(&dict).is_err());

    dict.insert(
        "W",
        PdfValue::Array(
            vec![
                PdfValue::Integer(1),
                PdfValue::Integer(2),
                PdfValue::Integer(3),
                PdfValue::Integer(4),
            ]
            .into(),
        ),
    );
    assert!(PdfFileParser::extract_xref_field_widths(&dict).is_err());
}

#[test]
fn trailer_parsing_honors_configured_nesting_limit() {
    let trailer = b"trailer << /Nested [1] >>";
    assert!(PdfFileParser::extract_trailer_dict(trailer, 0).is_none());
    assert!(PdfFileParser::extract_trailer_dict(trailer, 256).is_some());
}

#[test]
fn trailer_parsing_respects_shared_input_budget() {
    let trailer = b"trailer << /Name (long value) >>";
    let budget = ResourceBudget::new(1, 1024, 1024, 100, 10, 10, 10, 8);
    assert!(PdfFileParser::extract_trailer_dict_with_budget(trailer, 256, &budget).is_none());
}

#[test]
fn xref_table_rejects_residual_entries_before_trailer() {
    let mut parser = parser(b"%PDF-1.7\n", ParseMode::Tolerant, 10);
    let malformed = b"xref\n0 1\n0000000000 65535 f \n0000000010 00000 n \ntrailer\n<< /Size 1 >>";

    assert!(parser
        .parse_xref_table_section(malformed)
        .expect("xref parsing should be controlled")
        .is_none());
}

#[test]
fn strict_mode_does_not_recover_malformed_xref() {
    let valid_xref = b"xref\n0 1\n0000000000 65535 f \ntrailer\n<< /Size 1 >>\n";
    let malformed_xref =
        b"xref\n0 1\n0000000000 65535 f \n0000000010 00000 n \ntrailer\n<< /Size 1 >>\n";
    let mut data = b"%PDF-1.7\n".to_vec();
    data.extend_from_slice(valid_xref);
    data.resize(100, b'\n');
    let malformed_offset = data.len() as u64;
    data.extend_from_slice(malformed_xref);

    let mut strict = parser(&data, ParseMode::Strict, 0);
    assert!(strict.parse_single_xref_at(malformed_offset).is_err());

    let mut tolerant = parser(&data, ParseMode::Tolerant, 10);
    assert!(tolerant.parse_single_xref_at(malformed_offset).is_ok());
}

#[test]
fn strict_mode_rejects_xref_prev_cycles() {
    let data = b"%PDF-1.7\nxref\n0 1\n0000000000 65535 f \ntrailer\n<< /Size 1 /Prev 9 >>\n";
    let mut parser = parser(data, ParseMode::Strict, 0);
    parser.xref_offset = Some(9);

    assert!(parser.parse_xref_chain().is_err());
}

#[test]
fn strict_mode_rejects_page_tree_cycles() {
    let data = b"%PDF-1.7\n1 0 obj\n<< /Type /Pages /Kids [1 0 R] >>\nendobj\n";
    let mut strict = parser(data, ParseMode::Strict, 0);
    strict.document.xref.entries.insert(
        ObjectId::new(1, 0),
        XRefEntry::InUse {
            offset: 9,
            generation: 0,
        },
    );
    let root = strict.document.ast.create_node(NodeType::Root, PdfValue::Null);

    let error = strict
        .parse_page_tree(&PdfReference::new(1, 0), root)
        .expect_err("strict page-tree parsing must reject cycles");
    assert!(error.to_string().contains("Cycle detected"));

    let mut tolerant = parser(data, ParseMode::Tolerant, 10);
    tolerant.document.xref.entries.insert(
        ObjectId::new(1, 0),
        XRefEntry::InUse {
            offset: 9,
            generation: 0,
        },
    );
    let tolerant_root = tolerant.document.ast.create_node(NodeType::Root, PdfValue::Null);
    tolerant
        .parse_page_tree(&PdfReference::new(1, 0), tolerant_root)
        .expect("tolerant page-tree parsing should cut cycles");
    assert!(tolerant
        .document
        .diagnostics
        .iter()
        .any(|diagnostic| diagnostic.error_code == "page_tree_cycle"));
}

#[test]
fn strict_mode_rejects_form_field_depth_overflow() {
    let mut value = PdfValue::Null;
    for _ in 0..=MAX_FORM_FIELD_DEPTH {
        value = PdfValue::Array(PdfArray::from(vec![value]));
    }
    let mut parser = parser(b"%PDF-1.7\n", ParseMode::Strict, 0);
    let root = parser.document.ast.create_node(NodeType::Root, PdfValue::Null);

    let error = parser
        .parse_form_field_value(&value, root, 0)
        .expect_err("strict form parsing must reject excessive depth");
    assert!(error.to_string().contains("Maximum form field depth"));
}

#[test]
fn strict_document_structure_requires_valid_root_reference() {
    let mut parser_a = parser(b"%PDF-1.7\n", ParseMode::Strict, 0);
    let error = parser_a
        .parse_document_structure()
        .expect_err("strict parsing must reject a missing /Root");
    assert!(error.to_string().contains("does not contain a /Root"));

    let mut parser_b = parser(b"%PDF-1.7\n", ParseMode::Strict, 0);
    parser_b.document.trailer.insert("Root", PdfValue::Integer(1));
    let error = parser_b
        .parse_document_structure()
        .expect_err("strict parsing must reject a non-reference /Root");
    assert!(error.to_string().contains("not an indirect reference"));
}

#[test]
fn strict_object_stream_objects_reject_residual_bytes() {
    let mut dict = PdfDictionary::new();
    dict.insert("N", PdfValue::Integer(1));
    dict.insert("First", PdfValue::Integer(4));
    let data = b"1 0 42 trailing";

    let strict = parser(b"%PDF-1.7\n", ParseMode::Strict, 0);
    assert!(strict
        .parse_object_from_stream(data, 0, &dict)
        .expect_err("strict object streams must reject residual bytes")
        .to_string()
        .contains("Residual bytes"));

    let tolerant = parser(b"%PDF-1.7\n", ParseMode::Tolerant, 10);
    assert_eq!(
        tolerant
            .parse_object_from_stream(data, 0, &dict)
            .expect("tolerant object streams should recover"),
        PdfValue::Integer(42)
    );
}

#[test]
fn loaded_objects_are_cached_and_reloaded_unchanged() {
    let data = b"%PDF-1.7\n1 0 obj\n<< /A 7 >>\nendobj\n".to_vec();
    let mut parser = parser(&data, ParseMode::Strict, 0);
    parser.document.xref.entries.insert(
        ObjectId::new(1, 0),
        XRefEntry::InUse {
            offset: 9,
            generation: 0,
        },
    );
    let first = parser.load_object(&ObjectId::new(1, 0)).expect("object loads");
    let second = parser.load_object(&ObjectId::new(1, 0)).expect("object reloads");
    assert_eq!(first, second);
    assert_eq!(parser.object_cache.len(), 1);
}

#[test]
fn missing_xref_entries_fail_strictly_and_give_null_tolerantly() {
    let mut strict = parser(b"%PDF-1.7\n", ParseMode::Strict, 0);
    let error = strict.load_object(&ObjectId::new(3, 0)).expect_err("no entry");
    assert_eq!(error.to_string(), "Parse error: Missing xref entry for object 3 0");

    let mut tolerant = parser(b"%PDF-1.7\n", ParseMode::Tolerant, 5);
    assert_eq!(tolerant.load_object(&ObjectId::new(3, 0)).unwrap(), PdfValue::Null);
    assert_eq!(tolerant.document.diagnostics[0].error_code, "missing_xref");
}

#[test]
fn object_id_mismatch_is_reported() {
    let data = b"%PDF-1.7\n2 0 obj\n5\nendobj\n".to_vec();
    let mut strict = parser(&data, ParseMode::Strict, 0);
    strict.document.xref.entries.insert(
        ObjectId::new(1, 0),
        XRefEntry::InUse {
            offset: 9,
            generation: 0,
        },
    );
    let error = strict.load_object(&ObjectId::new(1, 0)).expect_err("mismatch");
    assert_eq!(
        error.to_string(),
        "Parse error: Object ID mismatch: expected 1 0, got 2 0"
    );
}

#[test]
fn deep_loads_stop_at_the_depth_limit() {
    let mut limits = PerformanceLimits {
        max_depth: 0,
        ..PerformanceLimits::default()
    };
    limits.refresh_budget();
    let mut strict =
        PdfFileParser::new_with_limits(b"%PDF-1.7\n".to_vec(), ParseMode::Strict, 0, limits)
            .expect("parser");
    let error = strict.load_object(&ObjectId::new(1, 0)).expect_err("too deep");
    assert_eq!(error.to_string(), "Parse error: Exceeded max object load depth: 0");
}

#[test]
fn resource_categories_merge_name_by_name() {
    let mut parent_fonts = PdfDictionary::new();
    parent_fonts.insert("F1", PdfValue::Integer(1));
    parent_fonts.insert("F2", PdfValue::Integer(2));
    let mut parent = PdfDictionary::new();
    parent.insert("Font", PdfValue::Dictionary(parent_fonts));
    parent.insert("ProcSet", PdfValue::Integer(9));

    let mut child_fonts = PdfDictionary::new();
    child_fonts.insert("F2", PdfValue::Integer(20));
    child_fonts.insert("F3", PdfValue::Integer(3));
    let mut child = PdfDictionary::new();
    child.insert("Font", PdfValue::Dictionary(child_fonts));
    child.insert("ProcSet", PdfValue::Integer(10));

    let merged = PdfFileParser::merge_resource_dictionaries(&parent, &child);
    let fonts = merged.get("Font").and_then(|v| v.as_dict()).expect("fonts");
    assert_eq!(fonts.get("F1"), Some(&PdfValue::Integer(1)));
    assert_eq!(fonts.get("F2"), Some(&PdfValue::Integer(20)));
    assert_eq!(fonts.get("F3"), Some(&PdfValue::Integer(3)));
    assert_eq!(merged.get("ProcSet"), Some(&PdfValue::Integer(10)));
}

#[test]
fn parses_a_small_document() {
    let mut data = b"%PDF-1.7\n".to_vec();
    let o1 = data.len();
    data.extend_from_slice(b"1 0 obj\n<< /Type /Catalog /Pages 2 0 R >>\nendobj\n");
    let o2 = data.len();
    data.extend_from_slice(b"2 0 obj\n<< /Type /Pages /Kids [3 0 R] /Count 1 >>\nendobj\n");
    let o3 = data.len();
    data.extend_from_slice(b"3 0 obj\n<< /Type /Page /Parent 2 0 R >>\nendobj\n");
    let xref = data.len();
    data.extend_from_slice(b"xref\n0 4\n0000000000 65535 f \n");
    for o in [o1, o2, o3] {
        data.extend_from_slice(format!("{:010} 00000 n \n", o).as_bytes());
    }
    data.extend_from_slice(b"trailer\n<< /Size 4 /Root 1 0 R >>\n");
    data.extend_from_slice(format!("startxref\n{}\n%%EOF\n", xref).as_bytes());

    let document = parser(&data, ParseMode::Strict, 0).parse().expect("document parses");
    assert!(document.catalog.is_some());
    assert_eq!(document.revisions.len(), 1);
    let pages = document
        .ast
        .nodes()
        .iter()
        .filter(|n| n.node_type == NodeType::Page)
        .count();
    assert!(pages >= 1);
    assert!(document.trailer.get("Root").is_some());
}

#[test]
fn tolerant_load_of_missing_entry_records_full_confidence_diagnostic() {
    let mut parser = parser(b"%PDF-1.7\n", ParseMode::Tolerant, 10);
    let value = parser.load_object(&ObjectId::new(7, 0)).expect("tolerant load gives Null");
    assert!(matches!(value, PdfValue::Null));
    let last = parser.document.diagnostics.last().expect("a diagnostic is recorded");
    assert_eq!(last.error_code, "missing_xref");
    assert_eq!(last.confidence_percent, 100);
}

#[test]
fn strict_load_of_missing_entry_names_the_object() {
    let mut parser = parser(b"%PDF-1.7\n", ParseMode::Strict, 0);
    let error = parser.load_object(&ObjectId::new(7, 2)).expect_err("strict load fails");
    assert_eq!(error.to_string(), "Parse error: Missing xref entry for object 7 2");
}

#[test]
fn free_entry_loads_as_null() {
    let mut parser = parser(b"%PDF-1.7\n", ParseMode::Strict, 0);
    parser
        .document
        .xref
        .entries
        .insert(ObjectId::new(3, 0), XRefEntry::Free { next_free_object: 0, generation: 1 });
    let value = parser.load_object(&ObjectId::new(3, 0)).expect("free object loads");
    assert!(matches!(value, PdfValue::Null));
}

#[test]
fn trailer_with_string_over_input_budget_is_refused() {
    let budget = ResourceBudget::new(1, 1024, 1024, 100, 10, 10, 10, 8);
    assert!(PdfFileParser::extract_trailer_dict_with_budget(b"trailer << /Name (long value) >>", 256, &budget)
        .is_none());
    assert!(PdfFileParser::extract_trailer_dict(b"trailer << /Nested [1] >>", 256).is_some());
}

#[test]
fn xfa_value_without_references_resolves_to_itself() {
    let mut parser = parser(b"%PDF-1.7\n", ParseMode::Strict, 0);
    let value = PdfValue::Array(PdfArray::from(vec![
        PdfValue::Array(PdfArray::from(vec![PdfValue::Integer(1)])),
        PdfValue::Integer(2),
    ]));
    let resolved = parser.resolve_xfa_value(&value).expect("plain XFA value resolves");
    assert_eq!(resolved, value);
}
