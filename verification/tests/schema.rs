use pdf_ast::schema::{SchemaVersion, SCHEMA_VERSION};

#[test]
fn test_schema_version() {
    let v1 = SchemaVersion::current();
    let v2 = SchemaVersion::from_string("1.0.0").unwrap();
    assert!(v1.is_compatible_with(&v2));

    let v3 = SchemaVersion::from_string("2.0.0").unwrap();
    assert!(!v1.is_compatible_with(&v3));
}

#[test]
fn current_schema_version_is_the_declared_one() {
    let v = SchemaVersion::current();
    assert_eq!((v.major, v.minor, v.patch), (1, 1, 0));
    assert_eq!(SCHEMA_VERSION, "1.1.0");
}

#[test]
fn malformed_schema_versions_are_refused() {
    assert!(SchemaVersion::from_string("1.0").is_err());
    assert!(SchemaVersion::from_string("1.x.0").is_err());
    assert!(SchemaVersion::from_string("1.0.0.0").is_err());
}

#[test]
fn compatibility_is_symmetric_on_major_versions() {
    let a = SchemaVersion::from_string("1.4.2").unwrap();
    let b = SchemaVersion::from_string("1.0.9").unwrap();
    assert_eq!(a.is_compatible_with(&b), b.is_compatible_with(&a));
}
