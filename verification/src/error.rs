//! Failure types of the File API and their mapping onto script errors.

use vstd::prelude::*;

use crate::text::join3;

verus! {

/// The resource ceiling that an operation ran into.
#[derive(Clone, Copy, Debug, PartialEq, Eq, Structural)]
pub enum ResourceLimitKind {
    /// Logical size of one blob.
    BlobSize,
    /// Number of segments of one blob.
    BlobSegments,
    /// Number of parts handed to one constructor.
    BlobParts,
    /// Bytes materialized by one read.
    MaterializeBytes,
    /// Characters of one data URL.
    DataUrlOutput,
}

/// A typed failure of a blob operation.
#[derive(Clone, Copy, Debug, PartialEq, Eq, Structural)]
pub enum FileApiError {
    /// The resource does not exist.
    NotFound,
    /// The resource may not be exposed.
    UnsafeFile,
    /// Too many reads are running.
    TooManyReads,
    /// The host denied access.
    PermissionDenied,
    /// The resource changed after its snapshot.
    SnapshotChanged,
    /// Another party holds the resource.
    FileLocked,
    /// A range left the resource, or a source answered with a wrong length.
    InvalidRange,
    /// A resource ceiling was exceeded.
    ResourceLimit(ResourceLimitKind),
    /// The operation was cancelled.
    Cancelled,
    /// Anything else.
    Internal,
}

impl FileApiError {
    /// The text of the failure: its class, and nothing of the resource.
    pub open spec fn text(self) -> Seq<char> {
        match self {
            FileApiError::NotFound => "the resource was not found"@,
            FileApiError::UnsafeFile => "the resource may not be exposed"@,
            FileApiError::TooManyReads => "too many concurrent reads"@,
            FileApiError::PermissionDenied => "permission denied"@,
            FileApiError::SnapshotChanged => "the resource changed since its snapshot"@,
            FileApiError::FileLocked => "the resource is locked"@,
            FileApiError::InvalidRange => "invalid range"@,
            FileApiError::ResourceLimit(ResourceLimitKind::BlobSize) => "blob size"@,
            FileApiError::ResourceLimit(ResourceLimitKind::BlobSegments) => "blob segments"@,
            FileApiError::ResourceLimit(ResourceLimitKind::BlobParts) => "blob parts"@,
            FileApiError::ResourceLimit(ResourceLimitKind::MaterializeBytes) =>
                "materialized bytes"@,
            FileApiError::ResourceLimit(ResourceLimitKind::DataUrlOutput) => "data URL output"@,
            FileApiError::Cancelled => "the operation was cancelled"@,
            FileApiError::Internal => "internal error"@,
        }
    }

    /// The text of the failure.
    pub fn message(&self) -> (text: &'static str)
        ensures
            text@ == self.text(),
    {
        match self {
            FileApiError::NotFound => "the resource was not found",
            FileApiError::UnsafeFile => "the resource may not be exposed",
            FileApiError::TooManyReads => "too many concurrent reads",
            FileApiError::PermissionDenied => "permission denied",
            FileApiError::SnapshotChanged => "the resource changed since its snapshot",
            FileApiError::FileLocked => "the resource is locked",
            FileApiError::InvalidRange => "invalid range",
            FileApiError::ResourceLimit(ResourceLimitKind::BlobSize) => "blob size",
            FileApiError::ResourceLimit(ResourceLimitKind::BlobSegments) => "blob segments",
            FileApiError::ResourceLimit(ResourceLimitKind::BlobParts) => "blob parts",
            FileApiError::ResourceLimit(ResourceLimitKind::MaterializeBytes) =>
                "materialized bytes",
            FileApiError::ResourceLimit(ResourceLimitKind::DataUrlOutput) => "data URL output",
            FileApiError::Cancelled => "the operation was cancelled",
            FileApiError::Internal => "internal error",
        }
    }
}

/// The script error class of a [`JsError`].
#[derive(Clone, Copy, Debug, PartialEq, Eq, Structural)]
pub enum JsErrorKind {
    /// `Error`.
    Error,
    /// `TypeError`.
    Type,
    /// `RangeError`.
    Range,
}

/// A script error: its class and its message.
#[derive(Clone, Debug)]
pub struct JsError {
    /// The class of the error.
    pub kind: JsErrorKind,
    /// The message of the error.
    pub message: String,
}

impl View for JsError {
    type V = (JsErrorKind, Seq<char>);

    open spec fn view(&self) -> (JsErrorKind, Seq<char>) {
        (self.kind, self.message@)
    }
}

/// A `DOMException`: its name and its message.
#[derive(Clone, Copy, Debug)]
pub struct DomException {
    /// The exception name, such as `NotReadableError`.
    pub name: &'static str,
    /// A generic message without paths, bytes or source details.
    pub message: &'static str,
}

impl View for DomException {
    type V = (Seq<char>, Seq<char>);

    open spec fn view(&self) -> (Seq<char>, Seq<char>) {
        (self.name@, self.message@)
    }
}

/// What a synchronous script call throws.
#[derive(Clone, Debug)]
pub enum Thrown {
    /// A script error.
    Js(JsError),
    /// A `DOMException`.
    Dom(DomException),
}

/// Why a registration was refused.
#[derive(Clone, Debug)]
pub enum RegisterError {
    /// Another extension is registered in this context.
    AlreadyRegistered,
    /// The global object is not extensible.
    GlobalNotExtensible,
    /// A required global name is already an own property of the global object.
    NameConflict(String),
    /// The streams shim is disabled and no host stream adapter exists.
    StreamsShimDisabled,
    /// The DOM shim is disabled and no host DOM adapter exists.
    DomShimDisabled,
    /// The host structured-clone bridge speaks a foreign version.
    CloneBridgeIncompatible(String),
    /// The process ran out of registration or context identifiers.
    IoIdsExhausted,
    /// The engine failed while classes were built or installed.
    Js(JsError),
}

/// The contents of a [`RegisterError`].
pub enum RegisterFailure {
    /// Another extension is registered in this context.
    AlreadyRegistered,
    /// The global object is not extensible.
    GlobalNotExtensible,
    /// A required global name is taken.
    NameConflict(Seq<char>),
    /// The streams shim is disabled.
    StreamsShimDisabled,
    /// The DOM shim is disabled.
    DomShimDisabled,
    /// The structured-clone bridge speaks a foreign version.
    CloneBridgeIncompatible(Seq<char>),
    /// No identifiers are left.
    IoIdsExhausted,
    /// A script error.
    Js((JsErrorKind, Seq<char>)),
}

impl View for RegisterError {
    type V = RegisterFailure;

    open spec fn view(&self) -> RegisterFailure {
        match self {
            RegisterError::AlreadyRegistered => RegisterFailure::AlreadyRegistered,
            RegisterError::GlobalNotExtensible => RegisterFailure::GlobalNotExtensible,
            RegisterError::NameConflict(name) => RegisterFailure::NameConflict(name@),
            RegisterError::StreamsShimDisabled => RegisterFailure::StreamsShimDisabled,
            RegisterError::DomShimDisabled => RegisterFailure::DomShimDisabled,
            RegisterError::CloneBridgeIncompatible(name) =>
                RegisterFailure::CloneBridgeIncompatible(name@),
            RegisterError::IoIdsExhausted => RegisterFailure::IoIdsExhausted,
            RegisterError::Js(error) => RegisterFailure::Js(error@),
        }
    }
}

/// The text of a [`RegisterError`], with the message of a wrapped script error
/// passed through unchanged.
pub open spec fn register_error_text(error: RegisterError) -> Seq<char> {
    match error {
        RegisterError::AlreadyRegistered =>
            "the File API extension is already registered in this context"@,
        RegisterError::GlobalNotExtensible => "the global object is not extensible"@,
        RegisterError::NameConflict(name) => "global name `"@ + name@ + "` is already defined"@,
        RegisterError::StreamsShimDisabled =>
            "the streams shim is disabled and no host stream adapter is available"@,
        RegisterError::DomShimDisabled =>
            "the DOM shim is disabled and no host DOM adapter is available"@,
        RegisterError::CloneBridgeIncompatible(name) => "the structured-clone bridge `"@ + name@
            + "` speaks an incompatible version"@,
        RegisterError::IoIdsExhausted => "the file I/O identifiers are exhausted"@,
        RegisterError::Js(js) => js.message@,
    }
}

impl RegisterError {
    /// The human-readable text of this error.
    pub fn message(&self) -> (text: String)
        ensures
            text@ == register_error_text(*self),
    {
        match self {
            RegisterError::AlreadyRegistered =>
                "the File API extension is already registered in this context".to_owned(),
            RegisterError::GlobalNotExtensible => "the global object is not extensible".to_owned(),
            RegisterError::NameConflict(name) => join3(
                "global name `",
                name.as_str(),
                "` is already defined",
            ),
            RegisterError::StreamsShimDisabled =>
                "the streams shim is disabled and no host stream adapter is available".to_owned(),
            RegisterError::DomShimDisabled =>
                "the DOM shim is disabled and no host DOM adapter is available".to_owned(),
            RegisterError::CloneBridgeIncompatible(name) => join3(
                "the structured-clone bridge `",
                name.as_str(),
                "` speaks an incompatible version",
            ),
            RegisterError::IoIdsExhausted => "the file I/O identifiers are exhausted".to_owned(),
            RegisterError::Js(js) => js.message.clone(),
        }
    }
}

/// A `TypeError` with the given message.
pub fn type_error(message: &str) -> (error: JsError)
    ensures
        error@ == (JsErrorKind::Type, message@),
{
    JsError { kind: JsErrorKind::Type, message: message.to_owned() }
}

/// A `RangeError` with the given message.
pub fn range_error(message: &str) -> (error: JsError)
    ensures
        error@ == (JsErrorKind::Range, message@),
{
    JsError { kind: JsErrorKind::Range, message: message.to_owned() }
}

/// The plain `Error` used when a failure cannot be expressed as a
/// `DOMException`.
pub fn js_read_error() -> (error: JsError)
    ensures
        error@ == (JsErrorKind::Error, "blob read failed"@),
{
    JsError { kind: JsErrorKind::Error, message: "blob read failed".to_owned() }
}

/// The script error for a failed blob operation.
///
/// Ceilings on blob size and segment count are a `RangeError`; every other
/// failure is a `TypeError`.
pub open spec fn js_from_core_view(error: FileApiError) -> (JsErrorKind, Seq<char>) {
    if error == FileApiError::ResourceLimit(ResourceLimitKind::BlobSize) || error
        == FileApiError::ResourceLimit(ResourceLimitKind::BlobSegments) {
        (JsErrorKind::Range, "blob limit exceeded: "@ + error.text())
    } else {
        (JsErrorKind::Type, "blob operation failed: "@ + error.text())
    }
}

/// Maps a failed blob operation onto the matching script error.
pub fn js_from_core(error: FileApiError) -> (js: JsError)
    ensures
        js@ == js_from_core_view(error),
{
    match error {
        FileApiError::ResourceLimit(ResourceLimitKind::BlobSize)
        | FileApiError::ResourceLimit(ResourceLimitKind::BlobSegments) => {
            let mut text = "blob limit exceeded: ".to_owned();
            text.push_str(error.message());
            JsError { kind: JsErrorKind::Range, message: text }
        },
        _ => {
            let mut text = "blob operation failed: ".to_owned();
            text.push_str(error.message());
            JsError { kind: JsErrorKind::Type, message: text }
        },
    }
}

} // verus!
