use pdf_ast::limits::PerformanceLimits;
use pdf_ast::types::{PdfArray, PdfDictionary, PdfReal, PdfStream, PdfValue};
use pdf_ast::xref::{parse_linearization_dict, parse_xref_stream, parse_xref_stream_entry, XRefEntry};

fn xref_stream(w: Vec<PdfValue>, index: Option<Vec<PdfValue>>) -> PdfStream {
    let mut dict = PdfDictionary::new();
    dict.insert("W", PdfValue::Array(PdfArray::from(w)));
    dict.insert("Size", PdfValue::Integer(1));
    if let Some(index) = index {
        dict.insert("Index", PdfValue::Array(PdfArray::from(index)));
    }
    PdfStream::new(dict, vec![1, 0, 0, 0, 0, 0, 0, 0, 0])
}

#[test]
fn rejects_negative_xref_widths() {
    let stream = xref_stream(
        vec![
            PdfValue::Integer(-1),
            PdfValue::Integer(1),
            PdfValue::Integer(1),
        ],
        None,
    );

    let error = parse_xref_stream(&stream, &PerformanceLimits::default())
        .expect_err("negative width must be rejected");
    assert!(error.contains("non-negative"));
}

#[test]
fn rejects_negative_xref_index_values() {
    let stream = xref_stream(
        vec![
            PdfValue::Integer(1),
            PdfValue::Integer(1),
            PdfValue::Integer(1),
        ],
        Some(vec![PdfValue::Integer(-1), PdfValue::Integer(1)]),
    );

    let error = parse_xref_stream(&stream, &PerformanceLimits::default())
        .expect_err("negative index must be rejected");
    assert!(error.contains("non-negative"));
}

#[test]
fn rejects_xref_fields_wider_than_u64() {
    let stream = xref_stream(
        vec![
            PdfValue::Integer(9),
            PdfValue::Integer(0),
            PdfValue::Integer(0),
        ],
        None,
    );

    let error = parse_xref_stream(&stream, &PerformanceLimits::default())
        .expect_err("wide field must be rejected");
    assert!(error.contains("8 bytes"));
}

#[test]
fn rejects_xref_stream_field_truncation() {
    let error = parse_xref_stream_entry(&[1, 0, 0, 0, 0, 0, 1, 0, 0, 0], 1, 5, 4)
        .expect_err("generation values wider than u16 must be rejected");
    assert!(error.contains("generation"));
}

#[test]
fn rejects_xref_data_over_shared_decode_budget() {
    let stream = xref_stream(
        vec![
            PdfValue::Integer(1),
            PdfValue::Integer(1),
            PdfValue::Integer(1),
        ],
        None,
    );
    let mut limits = PerformanceLimits::default();
    limits.max_object_size_mb = 0;
    limits.refresh_budget();

    let error = parse_xref_stream(&stream, &limits)
        .expect_err("xref data over the shared budget must be rejected");
    assert!(error.contains("DecodedBytes"));
}

#[test]
fn rejects_negative_linearization_offsets() {
    let mut dict = PdfDictionary::new();
    dict.insert("Linearized", PdfValue::Real(PdfReal::new(10, 1)));
    dict.insert("L", PdfValue::Integer(-1));
    dict.insert(
        "H",
        PdfValue::Array(PdfArray::from(vec![
            PdfValue::Integer(0),
            PdfValue::Integer(0),
        ])),
    );
    dict.insert("N", PdfValue::Integer(1));
    dict.insert("O", PdfValue::Integer(1));
    dict.insert("E", PdfValue::Integer(1));
    dict.insert("T", PdfValue::Integer(1));
    let stream = PdfStream::new(dict, Vec::new());

    let error = parse_linearization_dict(&stream)
        .expect_err("negative linearization length must be rejected");
    assert!(error.contains("non-negative"));
}

#[test]
fn reads_a_complete_linearization_dictionary() {
    let mut dict = PdfDictionary::new();
    dict.insert("Linearized", PdfValue::Integer(1));
    dict.insert("L", PdfValue::Integer(4096));
    dict.insert(
        "H",
        PdfValue::Array(PdfArray::from(vec![
            PdfValue::Integer(512),
            PdfValue::Integer(64),
        ])),
    );
    dict.insert("N", PdfValue::Integer(3));
    dict.insert("O", PdfValue::Integer(7));
    dict.insert("E", PdfValue::Integer(2048));
    dict.insert("T", PdfValue::Integer(3000));
    let info = parse_linearization_dict(&PdfStream::new(dict, Vec::new())).unwrap();
    assert_eq!(info.file_length, 4096);
    assert_eq!(info.hint_stream_offset, 512);
    assert_eq!(info.hint_stream_length, Some(64));
    assert_eq!(info.object_count, 3);
    assert_eq!(info.first_page_object_number, 7);
    assert_eq!(info.first_page_end_offset, 2048);
    assert_eq!(info.main_xref_table_entries, 3000);
}

#[test]
fn linearization_requires_the_marker_entry() {
    let error = parse_linearization_dict(&PdfStream::new(PdfDictionary::new(), Vec::new()))
        .expect_err("a dictionary without /Linearized is not one");
    assert_eq!(error, "Not a linearized PDF - missing /Linearized entry");
}

#[test]
fn decodes_big_endian_xref_stream_rows() {
    let entry = parse_xref_stream_entry(&[1, 0x01, 0x02, 0, 5], 1, 2, 2).unwrap();
    assert_eq!(
        entry,
        XRefEntry::InUse {
            offset: 0x0102,
            generation: 5
        }
    );
    let entry = parse_xref_stream_entry(&[2, 0, 9, 0, 3], 1, 2, 2).unwrap();
    assert_eq!(
        entry,
        XRefEntry::Compressed {
            stream_object: 9,
            index: 3
        }
    );
    let entry = parse_xref_stream_entry(&[0, 0, 4, 0, 1], 1, 2, 2).unwrap();
    assert_eq!(
        entry,
        XRefEntry::Free {
            next_free_object: 4,
            generation: 1
        }
    );
    assert!(parse_xref_stream_entry(&[3, 0, 0, 0, 0], 1, 2, 2)
        .unwrap_err()
        .contains("Invalid XRef entry type: 3"));
}

#[test]
fn parses_an_unfiltered_xref_stream() {
    let mut dict = PdfDictionary::new();
    dict.insert(
        "W",
        PdfValue::Array(PdfArray::from(vec![
            PdfValue::Integer(1),
            PdfValue::Integer(2),
            PdfValue::Integer(1),
        ])),
    );
    dict.insert("Size", PdfValue::Integer(2));
    let stream = PdfStream::new(dict, vec![0, 0, 0, 255, 1, 0, 16, 0]);
    let entries = parse_xref_stream(&stream, &PerformanceLimits::default()).unwrap();
    assert_eq!(entries.len(), 2);
    assert_eq!(entries[1].0.number, 1);
    assert_eq!(
        entries[1].1,
        XRefEntry::InUse {
            offset: 16,
            generation: 0
        }
    );
    assert!(entries[0].1.is_free());
    assert_eq!(entries[1].1.offset(), Some(16));
}

#[test]
fn rejects_xref_numeric_overflow_without_panicking() {
    assert!(
        pdf_ast::xref::parse_xref_table(b"xref\n999999999999999999999999 1\n0000000000 00000 n\n")
            .is_err()
    );
    assert!(pdf_ast::xref::parse_xref_table(b"xref\n0 1\n999999999999999999999999 00000 n\n").is_err());
    assert!(pdf_ast::xref::parse_xref_table(b"xref\n0 1\n0000000000 99999 n\n").is_err());
}

#[test]
fn classic_tables_keep_the_counted_rows() {
    let data = b"xref\n3 2\n0000000010 00000 n \n0000000020 00001 n \n0000000030 00000 n \ntrailer";
    let (entries, _) = pdf_ast::xref::parse_xref_table(data).expect("table parses");
    assert_eq!(entries.len(), 2);
    assert_eq!(entries[0].0.number, 3);
    assert_eq!(entries[1].0.number, 4);
    assert_eq!(entries[1].0.generation, 1);
}

#[test]
fn hybrid_sections_read_a_table_without_a_stream() {
    let data = b"xref\n0 1\n0000000000 65535 f \ntrailer << >>";
    let ((entries, stream), _) =
        pdf_ast::xref::parse_hybrid_xref(data, &PerformanceLimits::default()).expect("table parses");
    assert_eq!(entries.len(), 1);
    assert!(stream.is_none());
    assert!(pdf_ast::xref::parse_hybrid_xref(b"nothing here", &PerformanceLimits::default()).is_err());
}
