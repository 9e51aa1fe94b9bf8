//! The result classes and numbers of completion events.

use vstd::prelude::*;

use crate::blob_url::BlobUrlError;
use crate::clone_bridge::CloneError;
use crate::error::FileApiError;

verus! {

/// The class of a read.
pub open spec fn core_class(error: Option<FileApiError>) -> Seq<char> {
    match error {
        None => "ok"@,
        Some(FileApiError::Cancelled) => "cancelled"@,
        Some(FileApiError::ResourceLimit(_)) => "quota"@,
        Some(FileApiError::NotFound) => "not_found"@,
        Some(FileApiError::PermissionDenied) => "permission"@,
        Some(FileApiError::FileLocked) => "permission"@,
        Some(FileApiError::SnapshotChanged) => "snapshot_changed"@,
        Some(FileApiError::InvalidRange) => "invalid_range"@,
        Some(_) => "error"@,
    }
}

/// The class of a read; no error is a success.
pub fn result_class_for_core(error: Option<FileApiError>) -> (class: &'static str)
    ensures
        class@ == core_class(error),
{
    match error {
        None => "ok",
        Some(FileApiError::Cancelled) => "cancelled",
        Some(FileApiError::ResourceLimit(_)) => "quota",
        Some(FileApiError::NotFound) => "not_found",
        Some(FileApiError::PermissionDenied) => "permission",
        Some(FileApiError::FileLocked) => "permission",
        Some(FileApiError::SnapshotChanged) => "snapshot_changed",
        Some(FileApiError::InvalidRange) => "invalid_range",
        Some(_) => "error",
    }
}

/// The class of a read of a host resource: one that the shutdown cancelled has a
/// class of its own.
pub fn result_class_for_resource(shutdown: bool, error: Option<FileApiError>) -> (class:
    &'static str)
    ensures
        class@ == if shutdown && error == Some(FileApiError::Cancelled) {
            "shutdown"@
        } else {
            core_class(error)
        },
{
    match error {
        Some(FileApiError::Cancelled) => if shutdown {
            "shutdown"
        } else {
            "cancelled"
        },
        other => result_class_for_core(other),
    }
}

/// The class of a blob URL operation; missing and foreign entries have one class.
pub fn result_class_for_blob_url(error: Option<BlobUrlError>) -> (class: &'static str)
    ensures
        class@ == match error {
            None => "ok"@,
            Some(BlobUrlError::LimitExceeded) => "quota"@,
            Some(BlobUrlError::Shutdown) => "shutdown"@,
            Some(BlobUrlError::Forbidden) => "permission"@,
            Some(BlobUrlError::Malformed) => "not_found"@,
            Some(BlobUrlError::Unavailable) => "not_found"@,
            Some(_) => "error"@,
        },
{
    match error {
        None => "ok",
        Some(BlobUrlError::LimitExceeded) => "quota",
        Some(BlobUrlError::Shutdown) => "shutdown",
        Some(BlobUrlError::Forbidden) => "permission",
        Some(BlobUrlError::Malformed) => "not_found",
        Some(BlobUrlError::Unavailable) => "not_found",
        Some(_) => "error",
    }
}

/// The class of a clone operation.
pub fn result_class_for_clone(error: Option<CloneError>) -> (class: &'static str)
    ensures
        class@ == match error {
            None => "ok"@,
            Some(CloneError::LimitExceeded) => "quota"@,
            Some(CloneError::Shutdown) => "shutdown"@,
            Some(_) => "error"@,
        },
{
    match error {
        None => "ok",
        Some(CloneError::LimitExceeded) => "quota",
        Some(CloneError::Shutdown) => "shutdown",
        Some(_) => "error",
    }
}

/// Elapsed milliseconds, saturated.
pub fn elapsed_ms(millis: u128) -> (elapsed: u64)
    ensures
        elapsed == if millis > u64::MAX {
            u64::MAX as int
        } else {
            millis as int
        },
{
    if millis > u64::MAX as u128 {
        u64::MAX
    } else {
        millis as u64
    }
}

/// The chunk count of an operation in one piece: an empty one has none.
pub fn single_chunk_count(succeeded: bool, size: u64) -> (chunks: u64)
    ensures
        chunks == if succeeded && size > 0 {
            1int
        } else {
            0int
        },
{
    if succeeded && size > 0 {
        1
    } else {
        0
    }
}


/// Only what succeeded is reported as a success, and the time that it took is
/// reported as it was measured, as far as the range goes.
pub proof fn lemma_only_successes_are_reported_as_such(
    core: Option<FileApiError>,
    url: Option<BlobUrlError>,
    clone: Option<CloneError>,
    classes: (&str, &str, &str, &str),
    shutdown: bool,
    millis: u128,
    elapsed: u64,
)
    requires
        call_ensures(result_class_for_core, (core,), classes.0),
        call_ensures(result_class_for_resource, (shutdown, core), classes.1),
        call_ensures(result_class_for_blob_url, (url,), classes.2),
        call_ensures(result_class_for_clone, (clone,), classes.3),
        call_ensures(elapsed_ms, (millis,), elapsed),
    ensures
        classes.0@ == "ok"@ <==> core is None,
        classes.1@ == "ok"@ <==> core is None,
        classes.2@ == "ok"@ <==> url is None,
        classes.3@ == "ok"@ <==> clone is None,
        millis <= u64::MAX ==> elapsed == millis,
        millis > u64::MAX ==> elapsed == u64::MAX,
{
    reveal_strlit("ok");
    reveal_strlit("cancelled");
    reveal_strlit("quota");
    reveal_strlit("not_found");
    reveal_strlit("permission");
    reveal_strlit("snapshot_changed");
    reveal_strlit("invalid_range");
    reveal_strlit("shutdown");
    reveal_strlit("error");
    assert("ok"@.len() == 2);
}

} // verus!
