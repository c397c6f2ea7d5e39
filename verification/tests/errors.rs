use homeedge::errors::{AppError, RepositoryError};

#[test]
fn node_not_found_error_serializes_correctly() {
    let err = AppError::NodeNotFound;
    let body = err.to_error_response();

    assert_eq!(err.status_code(), 404);
    assert_eq!(body.error, "node_not_found");
    assert_eq!(body.message, "node not found");
}

#[test]
fn bad_request_error_serializes_correctly() {
    let err = AppError::BadRequest("name must not be empty".to_string());
    let body = err.to_error_response();

    assert_eq!(err.status_code(), 400);
    assert_eq!(body.error, "bad_request");
    assert!(body.message.contains("name must not be empty"));
}

#[test]
fn internal_error_serializes_correctly() {
    let err = AppError::Internal("unexpected state".to_string());
    let body = err.to_error_response();

    assert_eq!(err.status_code(), 500);
    assert_eq!(body.error, "internal_error");
}

#[test]
fn every_error_kind_has_its_status_and_text() {
    let cases = vec![
        (AppError::ServiceNotFound, 404, "service_not_found", "service not found".to_string()),
        (AppError::Conflict("dup".into()), 409, "conflict", "conflict: dup".to_string()),
        (AppError::Internal("boom".into()), 500, "internal_error", "internal error: boom".to_string()),
        (
            AppError::Repository(RepositoryError::NotFound("node")),
            500,
            "repository_error",
            "repository error: entity not found: node".to_string(),
        ),
    ];
    for (err, status, kind, message) in cases {
        assert_eq!(err.status_code(), status);
        assert_eq!(err.kind(), kind);
        assert_eq!(err.message(), message);
    }
    assert_eq!(RepositoryError::Conflict("x".into()).message(), "conflict: x");
    assert_eq!(RepositoryError::Serialization("bad".into()).message(), "serialization error: bad");
    assert_eq!(RepositoryError::Storage("disk".into()).message(), "storage error: disk");
}
