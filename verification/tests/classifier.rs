//! The error classifier: statuses, operations and local conditions.

use s3_fs::errors::{process_error, BackendFailure, S3PathError, S3PathOp};

#[test]
fn status_404_on_existence_check_is_missing_object() {
    let e = process_error(Some(BackendFailure::Status(404)), None, S3PathOp::HeadObject);
    assert_eq!(e, S3PathError::ObjectDoesNotExist);
}

#[test]
fn status_404_on_listing_is_unknown() {
    let e = process_error(Some(BackendFailure::Status(404)), None, S3PathOp::ListObjects);
    assert_eq!(e, S3PathError::Unknown);
}

#[test]
fn status_400_is_expired_token_for_every_operation() {
    for op in [
        S3PathOp::HeadObject,
        S3PathOp::GetObject,
        S3PathOp::PutObject,
        S3PathOp::ListObjects,
    ] {
        let e = process_error(Some(BackendFailure::Status(400)), None, op);
        assert_eq!(e, S3PathError::ExpiredToken);
    }
}

#[test]
fn status_301_follows_the_404_rule() {
    let head = process_error(Some(BackendFailure::Status(301)), None, S3PathOp::HeadObject);
    assert_eq!(head, S3PathError::ObjectDoesNotExist);
    let put = process_error(Some(BackendFailure::Status(301)), None, S3PathOp::PutObject);
    assert_eq!(put, S3PathError::Unknown);
}

#[test]
fn unrecognized_status_degrades_to_unknown() {
    let e = process_error(Some(BackendFailure::Status(500)), None, S3PathOp::GetObject);
    assert_eq!(e, S3PathError::Unknown);
}

#[test]
fn failure_without_status_is_unknown() {
    let e = process_error(Some(BackendFailure::NoStatus), None, S3PathOp::HeadObject);
    assert_eq!(e, S3PathError::Unknown);
}

#[test]
fn local_condition_passes_verbatim() {
    let already = process_error(None, Some(S3PathError::ObjectAlreadyExists), S3PathOp::PutObject);
    assert_eq!(already, S3PathError::ObjectAlreadyExists);
    let not_dir = process_error(None, Some(S3PathError::NotADirectory), S3PathOp::ListObjects);
    assert_eq!(not_dir, S3PathError::NotADirectory);
}

#[test]
fn nothing_at_all_degrades_to_unknown() {
    let e = process_error(None, None, S3PathOp::GetObject);
    assert_eq!(e, S3PathError::Unknown);
}

#[test]
fn backend_failure_outranks_local_condition() {
    let e = process_error(
        Some(BackendFailure::Status(400)),
        Some(S3PathError::NotADirectory),
        S3PathOp::GetObject,
    );
    assert_eq!(e, S3PathError::ExpiredToken);
}
