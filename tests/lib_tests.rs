use vexlake::health_check;

#[test]
fn lib_test_health_check() {
    assert!(health_check());
}

#[test]
fn lib_test_version() {
    assert!(!vexlake::VERSION.is_empty());
}
