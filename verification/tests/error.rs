use std::io;

use scrutt::error::ScruttError;
use scrutt::pkg_json::{manifest_read_error, read_error};

#[test]
fn converts_io_error_with_generic_context() {
    let error = std::io::Error::other("boom");
    let scrutt_error = ScruttError::from(error);

    match scrutt_error {
        ScruttError::IoError { path, source } => {
            assert!(path.is_none());
            assert_eq!(source.kind(), std::io::ErrorKind::Other);
        }
        other => panic!("expected IoError, got {other:?}"),
    }
}

#[test]
fn converts_json_error_with_generic_context() {
    let error = serde_json::from_str::<serde_json::Value>("{").unwrap_err();
    let scrutt_error = ScruttError::from(error);

    match scrutt_error {
        ScruttError::ParseError { path, .. } => {
            assert!(path.is_none());
        }
        other => panic!("expected ParseError, got {other:?}"),
    }
}

#[test]
fn named_constructors_keep_the_path() {
    match ScruttError::read_failure("a/package.json".to_string(), std::io::Error::other("x")) {
        ScruttError::IoError { path, .. } => assert_eq!(path.as_deref(), Some("a/package.json")),
        other => panic!("expected IoError, got {other:?}"),
    }
    let json = serde_json::from_str::<serde_json::Value>("[").unwrap_err();
    match ScruttError::invalid_json("b/package.json".to_string(), json) {
        ScruttError::ParseError { path, .. } => assert_eq!(path.as_deref(), Some("b/package.json")),
        other => panic!("expected ParseError, got {other:?}"),
    }
}

#[test]
fn manifest_read_errors_tell_missing_from_unreadable() {
    match manifest_read_error("m/package.json", io::Error::from(io::ErrorKind::NotFound)) {
        ScruttError::MissingFile { path } => assert_eq!(path, "m/package.json"),
        other => panic!("expected MissingFile, got {other:?}"),
    }
    match manifest_read_error("m/package.json", io::Error::from(io::ErrorKind::PermissionDenied)) {
        ScruttError::IoError { path, source } => {
            assert_eq!(path.as_deref(), Some("m/package.json"));
            assert_eq!(source.kind(), io::ErrorKind::PermissionDenied);
        }
        other => panic!("expected IoError, got {other:?}"),
    }
    assert!(matches!(
        read_error("p", io::Error::other("x"), true),
        ScruttError::MissingFile { .. }
    ));
}
