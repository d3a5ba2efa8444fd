use pdf_ast::text::{i64_text, u64_text, usize_text};

#[test]
fn decimal_texts() {
    assert_eq!(u64_text(0), "0");
    assert_eq!(u64_text(12345), "12345");
    assert_eq!(u64_text(u64::MAX), "18446744073709551615");
    assert_eq!(usize_text(907), "907");
    assert_eq!(i64_text(-42), "-42");
    assert_eq!(i64_text(i64::MIN), "-9223372036854775808");
    assert_eq!(i64_text(7), "7");
}
