use vexlake::Error;

#[test]
fn test_error_display() {
    let err = Error::NotFound("test_key".to_string());
    assert!(err.message().contains("test_key"));
}

#[test]
fn error_test_dimension_mismatch() {
    let err = Error::DimensionMismatch { expected: 128, actual: 256 };
    assert!(err.message().contains("128"));
    assert!(err.message().contains("256"));
}

#[test]
fn messages() {
    assert_eq!(Error::DimensionMismatch { expected: 3, actual: 2 }.message(), "Dimension mismatch: expected 3, got 2");
    assert_eq!(Error::Index("x".to_string()).message(), "Index error: x");
    assert_eq!(Error::Other("plain".to_string()).message(), "plain");
}
