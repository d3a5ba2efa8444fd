use pdf_ast::limits::ResourceBudget;
use pdf_ast::object_parser::{
    parse_indirect_object, parse_integer, parse_object_header, parse_object_stream_offsets, parse_value,
};
use pdf_ast::reference_resolver::filter_names;
use pdf_ast::types::{PdfArray, PdfDictionary, PdfName, PdfValue};
use pdf_ast::xref::{parse_xref_table, XRefEntry};

#[test]
fn integer_takes_sign_and_longest_digit_run() {
    assert_eq!(parse_integer(b"-42 rest", 0), Some((-42, 3)));
    assert_eq!(parse_integer(b"+7x", 0), Some((7, 2)));
    assert_eq!(parse_integer(b"abc", 0), None);
    assert_eq!(parse_integer(b"-", 0), None);
    assert_eq!(parse_integer(b"99999999999999999999", 0), None);
    assert_eq!(parse_integer(b"9223372036854775807", 0), Some((i64::MAX, 19)));
}

#[test]
fn object_header_reads_number_and_generation() {
    let (id, end) = parse_object_header(b"12 3 obj <<>>", 0).unwrap();
    assert_eq!((id.number, id.generation), (12, 3));
    assert_eq!(end, 8);
    assert!(parse_object_header(b"12 3 ob", 0).is_err());
    assert!(parse_object_header(b"12 70000 obj", 0).is_err());
}

#[test]
fn scalar_values_are_read_exactly() {
    let budget = ResourceBudget::default();
    match parse_value(b"  (a\\)b)", 0, 0, 10, &budget) {
        Ok((PdfValue::String(s), end)) => {
            assert_eq!(s.bytes, b"a)b".to_vec());
            assert_eq!(end, 8);
        },
        other => panic!("unexpected {:?}", other),
    }
    match parse_value(b"<41 4>", 0, 0, 10, &budget) {
        Ok((PdfValue::String(s), end)) => {
            assert_eq!(s.bytes, vec![0x41, 0x40]);
            assert_eq!(end, 6);
        },
        other => panic!("unexpected {:?}", other),
    }
    match parse_value(b"5 0 R", 0, 0, 10, &budget) {
        Ok((PdfValue::Reference(r), end)) => {
            assert_eq!((r.object_number, r.generation_number), (5, 0));
            assert_eq!(end, 5);
        },
        other => panic!("unexpected {:?}", other),
    }
    match parse_value(b"-1.50", 0, 0, 10, &budget) {
        Ok((PdfValue::Real(x), end)) => {
            assert_eq!((x.mantissa, x.scale), (-150, 2));
            assert_eq!(end, 5);
        },
        other => panic!("unexpected {:?}", other),
    }
    assert!(matches!(parse_value(b"true]", 0, 0, 10, &budget), Ok((PdfValue::Boolean(true), 4))));
    assert!(parse_value(b"truex", 0, 0, 10, &budget).is_err());
    assert!(parse_value(b"<4G>", 0, 0, 10, &budget).is_err());
}

#[test]
fn object_stream_offsets_count_from_first() {
    let budget = ResourceBudget::default();
    assert_eq!(parse_object_stream_offsets(b"10 0 11 25", 2, 100, &budget), Ok(vec![100, 125]));
    assert!(parse_object_stream_offsets(b"10 0 11", 2, 100, &budget).is_err());
}

#[test]
fn filter_names_joins_array_names() {
    let mut dict = PdfDictionary::new();
    dict.insert(
        "Filter",
        PdfValue::Array(PdfArray::from(vec![
            PdfValue::Name(PdfName::new("FlateDecode")),
            PdfValue::Integer(3),
            PdfValue::Name(PdfName::new("DCTDecode")),
        ])),
    );
    assert_eq!(filter_names(&dict), "FlateDecode,DCTDecode");
    let empty = PdfDictionary::new();
    assert_eq!(filter_names(&empty), "");
}

#[test]
fn xref_table_keeps_count_rows_of_each_subsection() {
    let data = b"xref\n0 2\n0000000000 65535 f \n0000000017 00000 n \n";
    let (entries, end) = parse_xref_table(data).unwrap();
    assert_eq!(end, data.len());
    assert_eq!(entries.len(), 2);
    assert_eq!(entries[1].1, XRefEntry::InUse { offset: 17, generation: 0 });
    assert_eq!(entries[1].0.number, 1);
}

#[test]
fn composite_values_are_read_whole() {
    let budget = ResourceBudget::default();
    match parse_value(b"<< /A [1 (x) /B] /C << /D null >> /A 2 >>", 0, 0, 10, &budget) {
        Ok((PdfValue::Dictionary(d), end)) => {
            assert_eq!(end, 41);
            assert!(matches!(d.get("A"), Some(PdfValue::Integer(2))));
            match d.get("C") {
                Some(PdfValue::Dictionary(inner)) => assert!(matches!(inner.get("D"), Some(PdfValue::Null))),
                other => panic!("unexpected {:?}", other),
            }
        },
        other => panic!("unexpected {:?}", other),
    }
    assert!(parse_value(b"[[1]]", 0, 0, 1, &budget).is_err());
    assert!(parse_value(b"[1 2", 0, 0, 10, &budget).is_err());
}

#[test]
fn stream_data_follows_declared_length() {
    let budget = ResourceBudget::default();
    let data = b"4 0 obj\n<< /Length 15 >>\nstream\nabcendstreamxyz\nendstream\nendobj\n";
    match parse_indirect_object(data, 0, 10, &budget, None) {
        Ok(((id, PdfValue::Stream(s)), _)) => {
            assert_eq!((id.number, id.generation), (4, 0));
            assert_eq!(s.raw_data(), Some(&b"abcendstreamxyz"[..]));
        },
        other => panic!("unexpected {:?}", other),
    }
    match parse_indirect_object(data, 0, 10, &budget, Some(3)) {
        Ok(((_, PdfValue::Stream(s)), _)) => assert_eq!(s.raw_data(), Some(&b"abc"[..])),
        other => panic!("unexpected {:?}", other),
    }
}
