//! The closed error taxonomy and the classifier that maps backend response
//! codes onto it.

use vstd::prelude::*;

verus! {

/// The kinds of failure a path operation can report.
#[derive(Clone, Copy, Debug, PartialEq, Eq, Structural)]
pub enum S3PathError {
    Unknown,
    ExpiredToken,
    ObjectDoesNotExist,
    ObjectAlreadyExists,
    NotADirectory,
    InvalidPath,
}

/// The operation that was being attempted when a failure came back.
#[derive(Clone, Copy, Debug, PartialEq, Eq, Structural)]
pub enum S3PathOp {
    HeadObject,
    GetObject,
    PutObject,
    ListObjects,
}

/// What the backend reported for a failed request: a response with an HTTP
/// status code, or a request-level failure that carries none (a service
/// error, a dispatch or credential problem, a parse failure).
#[derive(Clone, Copy, Debug, PartialEq, Eq, Structural)]
pub enum BackendFailure {
    Status(u16),
    NoStatus,
}

/// The classification rule: a `400` means an expired token; `404` and `301`
/// mean a missing object, but only when the operation was an existence
/// check; everything else, and any failure without a status, degrades to
/// `Unknown`. A locally detected condition, passed in as `local`, bypasses
/// status classification and comes back verbatim.
pub open spec fn spec_classify(
    failure: Option<BackendFailure>,
    local: Option<S3PathError>,
    op: S3PathOp,
) -> S3PathError {
    match failure {
        None => match local {
            Some(e) => e,
            None => S3PathError::Unknown,
        },
        Some(BackendFailure::NoStatus) => S3PathError::Unknown,
        Some(BackendFailure::Status(code)) => if code == 400 {
            S3PathError::ExpiredToken
        } else if (code == 404 || code == 301) && op is HeadObject {
            S3PathError::ObjectDoesNotExist
        } else {
            S3PathError::Unknown
        },
    }
}

/// Map a backend failure, or a locally detected condition, to exactly one
/// error kind. The classifier is total: it never fails, and an unrecognized
/// status always degrades to `Unknown`.
pub fn process_error(
    failure: Option<BackendFailure>,
    local: Option<S3PathError>,
    op: S3PathOp,
) -> (r: S3PathError)
    ensures
        r == spec_classify(failure, local, op),
{
    match failure {
        None => match local {
            Some(e) => e,
            None => S3PathError::Unknown,
        },
        Some(BackendFailure::NoStatus) => S3PathError::Unknown,
        Some(BackendFailure::Status(code)) => {
            if code == 400 {
                S3PathError::ExpiredToken
            } else if code == 404 || code == 301 {
                match op {
                    S3PathOp::HeadObject => S3PathError::ObjectDoesNotExist,
                    _ => S3PathError::Unknown,
                }
            } else {
                S3PathError::Unknown
            }
        },
    }
}

} // verus!
