use pdf_ast::encoding::{decode_mac_roman_byte, decode_win_ansi_byte, glyph_name_to_unicode, parse_differences};
use pdf_ast::types::{PdfName, PdfValue};

#[test]
fn mac_roman_bytes_decode_through_the_table() {
    let decoded: String = [0x8e, 0xdb, 0xff]
        .iter()
        .map(|byte| decode_mac_roman_byte(*byte))
        .collect();
    assert_eq!(decoded, "é€ˇ");
    assert_eq!(decode_mac_roman_byte(b'A'), 'A');
}

#[test]
fn win_ansi_bytes_decode_with_the_windows_extensions() {
    assert_eq!(decode_win_ansi_byte(0x80), '€');
    assert_eq!(decode_win_ansi_byte(0x93), '"');
    assert_eq!(decode_win_ansi_byte(0xE9), 'é');
    assert_eq!(decode_win_ansi_byte(b'z'), 'z');
}

#[test]
fn glyph_names_map_to_text() {
    assert_eq!(glyph_name_to_unicode("Euro").as_deref(), Some("€"));
    assert_eq!(glyph_name_to_unicode("space").as_deref(), Some(" "));
    assert_eq!(glyph_name_to_unicode("Q").as_deref(), Some("Q"));
    assert_eq!(glyph_name_to_unicode("notaglyph"), None);
}

#[test]
fn differences_assign_consecutive_codes() {
    let value = PdfValue::Array(vec![
        PdfValue::Integer(65),
        PdfValue::Name(PdfName::new("Euro")),
        PdfValue::Name(PdfName::new("Aacute")),
        PdfValue::Integer(300),
        PdfValue::Name(PdfName::new("bullet")),
    ]);
    let mut differences = parse_differences(Some(&value));
    differences.sort();
    assert_eq!(
        differences,
        vec![(65, "€".to_string()), (66, "Á".to_string())]
    );
    assert!(parse_differences(None).is_empty());
}
