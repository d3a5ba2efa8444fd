use pdf_ast::ast::NodeType;
use pdf_ast::reconstruction::{extract_object_number, find_object_start, DocumentReconstructor};
use pdf_ast::recovery::{FragmentType, ReconstructionConfig};

fn reconstructor() -> DocumentReconstructor {
    DocumentReconstructor::new(ReconstructionConfig::default())
}

#[test]
fn header_fragment_runs_to_end_of_line() {
    let data = b"%PDF-1.7\n1 0 obj\n<< >>\nendobj\n";
    let f = reconstructor().extract_next_fragment(data, 0, 0).unwrap();
    assert_eq!(f.fragment_type, FragmentType::Header);
    assert_eq!(f.offset, 0);
    assert_eq!(f.data, b"%PDF-1.7\n".to_vec());
    assert_eq!(f.confidence, 90);
    assert_eq!(f.fragment_id, "frag_0");
    assert_eq!(f.metadata.encoding_hints, vec!["ascii".to_string()]);
    assert_eq!(f.metadata.structural_hints, vec!["document_header".to_string()]);
}

#[test]
fn header_without_line_break_takes_eight_bytes() {
    let data = b"%PDF-1.7xyzzy";
    let f = reconstructor().extract_next_fragment(data, 0, 3).unwrap();
    assert_eq!(f.data, b"%PDF-1.7".to_vec());
    assert_eq!(f.fragment_id, "frag_3");
}

#[test]
fn object_fragment_runs_to_endobj() {
    let data = b"%PDF-1.7\n1 0 obj\n<< >>\nendobj\n";
    let f = reconstructor().extract_next_fragment(data, 9, 1).unwrap();
    assert_eq!(f.fragment_type, FragmentType::Object);
    assert_eq!(f.offset, 9);
    assert_eq!(f.data, b"1 0 obj\n<< >>\nendobj".to_vec());
    assert_eq!(f.confidence, 80);
    assert_eq!(f.metadata.likely_object_number, Some(1));
    assert_eq!(f.metadata.structural_hints, vec!["pdf_object".to_string()]);
    assert!(f.metadata.encoding_hints.is_empty());
}

#[test]
fn object_start_is_line_number_times_line_length() {
    // The header sits on the second line, 7 bytes long: the object is taken to start 7 bytes in.
    let data = b"ab\n5 0 obj\nendobj";
    assert_eq!(find_object_start(data), Some(7));
    let f = reconstructor().extract_next_fragment(data, 0, 0).unwrap();
    assert_eq!(f.offset, 7);
    assert_eq!(f.data, b"obj\nendobj".to_vec());
    assert_eq!(f.metadata.likely_object_number, None);
}

#[test]
fn stream_fragment_runs_to_endstream() {
    let data = b"stream\nabc\nendstream\nmore";
    let f = reconstructor().extract_next_fragment(data, 0, 2).unwrap();
    assert_eq!(f.fragment_type, FragmentType::Stream);
    assert_eq!(f.data, b"stream\nabc\nendstream".to_vec());
    assert_eq!(f.confidence, 70);
    assert_eq!(f.metadata.likely_node_type, Some(NodeType::ContentStream));
}

#[test]
fn xref_fragment_stops_before_trailer() {
    let data = b"xref\n0 1\n0000000000 65535 f \ntrailer\n<< /Size 1 >>";
    let f = reconstructor().extract_next_fragment(data, 0, 0).unwrap();
    assert_eq!(f.fragment_type, FragmentType::XrefTable);
    assert_eq!(f.data, b"xref\n0 1\n0000000000 65535 f \n".to_vec());
    assert_eq!(f.metadata.structural_hints, vec!["cross_reference".to_string()]);
}

#[test]
fn trailer_fragment_takes_hundred_bytes_after_startxref() {
    let mut data = b"trailer\n<< /Size 1 >>\nstartxref\n".to_vec();
    data.extend(std::iter::repeat(b' ').take(120));
    let f = reconstructor().extract_next_fragment(&data, 0, 0).unwrap();
    assert_eq!(f.fragment_type, FragmentType::Trailer);
    assert_eq!(f.data.len(), 22 + 100);
    assert_eq!(f.confidence, 90);
}

#[test]
fn unknown_chunk_and_short_tail() {
    let data = b"garbage bytes with nothing in them";
    let f = reconstructor().extract_next_fragment(data, 0, 0).unwrap();
    assert_eq!(f.fragment_type, FragmentType::Unknown);
    assert_eq!(f.data.len(), data.len());
    assert_eq!(f.confidence, 10);
    assert!(reconstructor().extract_next_fragment(b"junk!", 0, 0).is_none());
}

#[test]
fn nothing_past_the_end() {
    let data = b"%PDF-1.7\n";
    assert!(reconstructor().extract_next_fragment(data, data.len(), 0).is_none());
    assert!(reconstructor().extract_next_fragment(data, 100, 0).is_none());
}

#[test]
fn object_number_from_header() {
    assert_eq!(extract_object_number(b"12 0 obj\n<< >>"), Some(12));
    assert_eq!(extract_object_number(b"no header"), None);
    assert_eq!(extract_object_number(b"99999999999 0 obj"), None);
}
