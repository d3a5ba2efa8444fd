use pdf_ast::encoding::font_identity;
use pdf_ast::performance::memory_mb_from_status;
use pdf_ast::types::{PdfDictionary, PdfName, PdfValue};

#[test]
fn vmrss_line_gives_megabytes() {
    let status = b"Name:\tcat\nVmPeak:\t  9000 kB\nVmRSS:\t  20480 kB\nThreads:\t1\n";
    assert_eq!(memory_mb_from_status(status), Some(20));
    assert_eq!(memory_mb_from_status(b"Name:\tcat\n"), None);
    assert_eq!(memory_mb_from_status(b"VmRSS: lots\nVmRSS: 3072 kB"), Some(3));
    assert_eq!(memory_mb_from_status(b"VmRSS:"), None);
}

#[test]
fn font_names_prefer_the_top_dictionary() {
    let mut top = PdfDictionary::new();
    top.insert("Subtype", PdfValue::Name(PdfName::new("Type0")));
    top.insert("Encoding", PdfValue::Name(PdfName::new("Identity-H")));
    let mut descendant = PdfDictionary::new();
    descendant.insert("BaseFont", PdfValue::Name(PdfName::new("Helvetica")));
    let empty = PdfDictionary::new();
    let (subtype, base, encoding) = font_identity("F1", &top, &descendant, &empty);
    assert_eq!(subtype, "Type0");
    assert_eq!(base, "Helvetica");
    assert_eq!(encoding, "Identity-H");
    let (subtype, base, encoding) = font_identity("F2", &empty, &empty, &empty);
    assert_eq!(subtype, "Unknown");
    assert_eq!(base, "F2");
    assert_eq!(encoding, "StandardEncoding");
}
