//! The gates between script values and native data.
//!
//! What a value carries natively decides, never its properties: a brand cannot
//! be made or copied by script.

use vstd::prelude::*;

use crate::blob::BlobData;
use crate::error::{type_error, JsError, JsErrorKind};
use crate::file::FileNative;
use crate::file_list::FileListNative;

verus! {

/// What a script value carries natively.
pub enum Branded {
    /// It is no object.
    Primitive,
    /// An object of any other kind.
    Other,
    /// A blob.
    Blob(BlobData),
    /// A file.
    File(FileNative),
    /// A list of files.
    FileList(FileListNative),
}

/// The payload of a blob or a file.
pub open spec fn blob_of(value: Branded) -> Option<BlobData> {
    match value {
        Branded::Blob(data) => Some(data),
        Branded::File(file) => Some(file.data),
        _ => None,
    }
}

/// The payload of a blob; a file is a blob.
pub fn require_blob(value: &Branded) -> (result: Result<&BlobData, JsError>)
    ensures
        match result {
            Ok(data) => blob_of(*value) == Some(*data),
            Err(error) => blob_of(*value) is None && error@ == (
                JsErrorKind::Type,
                "illegal invocation: expected a Blob"@,
            ),
        },
{
    match value {
        Branded::Blob(data) => Ok(data),
        Branded::File(file) => Ok(&file.data),
        _ => Err(type_error("illegal invocation: expected a Blob")),
    }
}

/// The file; a blob is none.
pub fn require_file(value: &Branded) -> (result: Result<&FileNative, JsError>)
    ensures
        match result {
            Ok(file) => *value == Branded::File(*file),
            Err(error) => !(value is File) && error@ == (
                JsErrorKind::Type,
                "illegal invocation: expected a File"@,
            ),
        },
{
    match value {
        Branded::File(file) => Ok(file),
        _ => Err(type_error("illegal invocation: expected a File")),
    }
}

/// Tests that the host handed over a file.
pub fn require_file_object(value: &Branded) -> (result: Result<(), JsError>)
    ensures
        match result {
            Ok(_) => value is File,
            Err(error) => !(value is File) && error@ == (
                JsErrorKind::Type,
                "expected a File object"@,
            ),
        },
{
    match value {
        Branded::File(_) => Ok(()),
        _ => Err(type_error("expected a File object")),
    }
}

/// The number of files of a list.
pub fn require_file_list(value: &Branded) -> (result: Result<usize, JsError>)
    ensures
        match result {
            Ok(count) => value matches Branded::FileList(list) && count == list.spec_len(),
            Err(error) => !(value is FileList) && error@ == (
                JsErrorKind::Type,
                "illegal invocation: expected a FileList"@,
            ),
        },
{
    match value {
        Branded::FileList(list) => Ok(list.len()),
        _ => Err(type_error("illegal invocation: expected a FileList")),
    }
}

/// The payload of the first argument of a read; `None` is a call without
/// arguments.
pub fn blob_argument(argument: Option<&Branded>) -> (result: Result<&BlobData, JsError>)
    ensures
        match result {
            Ok(data) => argument is Some && blob_of(*argument->0) == Some(*data),
            Err(error) => error@.0 == JsErrorKind::Type && match argument {
                None => error@.1 == "read requires a Blob argument"@,
                Some(value) => blob_of(*value) is None && error@.1
                    == "illegal invocation: expected a Blob"@,
            },
        },
{
    match argument {
        None => Err(type_error("read requires a Blob argument")),
        Some(value) => require_blob(value),
    }
}

/// The interfaces whose objects carry native state but no payload.
#[derive(Clone, Copy, Debug, PartialEq, Eq, Structural)]
pub enum Interface {
    /// `EventTarget`.
    EventTarget,
    /// `Event`.
    Event,
    /// `ProgressEvent`, an `Event`.
    ProgressEvent,
    /// `DOMException`.
    DomException,
    /// `FileReader`, an `EventTarget`.
    FileReader,
    /// `FileReaderSync`.
    FileReaderSync,
    /// `ReadableStream`.
    Stream,
    /// `ReadableStreamDefaultReader`.
    StreamReader,
    /// The `URL` namespace.
    Url,
}

/// Whether an object of the interface `found` can stand where `wanted` is
/// expected: it is one, or inherits from one.
pub open spec fn serves_as(found: Interface, wanted: Interface) -> bool {
    ||| found == wanted
    ||| found == Interface::ProgressEvent && wanted == Interface::Event
    ||| found == Interface::FileReader && wanted == Interface::EventTarget
}

/// What a call on a foreign object is answered.
pub open spec fn expected_text(wanted: Interface) -> Seq<char> {
    match wanted {
        Interface::EventTarget => "illegal invocation: expected an EventTarget"@,
        Interface::Event => "illegal invocation: expected an Event"@,
        Interface::ProgressEvent => "illegal invocation: expected a ProgressEvent"@,
        Interface::DomException => "illegal invocation: expected a DOMException"@,
        Interface::FileReader => "illegal invocation: expected a FileReader"@,
        Interface::FileReaderSync => "illegal invocation: expected a FileReaderSync"@,
        Interface::Stream => "illegal invocation: expected a ReadableStream"@,
        Interface::StreamReader =>
            "illegal invocation: expected a ReadableStreamDefaultReader"@,
        Interface::Url => "illegal invocation: expected URL"@,
    }
}

/// Whether an object of one interface can stand where another is expected.
fn is_served(found: Interface, wanted: Interface) -> (served: bool)
    ensures
        served == serves_as(found, wanted),
{
    if found == wanted {
        return true;
    }
    match wanted {
        Interface::Event => found == Interface::ProgressEvent,
        Interface::EventTarget => found == Interface::FileReader,
        _ => false,
    }
}

/// Tests the object that a method or getter is called on; `found` is what it
/// carries natively.
pub fn require_interface(found: Option<Interface>, wanted: Interface) -> (result: Result<
    (),
    JsError,
>)
    ensures
        match result {
            Ok(_) => found is Some && serves_as(found->0, wanted),
            Err(error) => {
                &&& !(found is Some && serves_as(found->0, wanted))
                &&& error@ == (JsErrorKind::Type, expected_text(wanted))
            },
        },
{
    match found {
        Some(interface) => if is_served(interface, wanted) {
            return Ok(());
        },
        None => {},
    }
    let text = match wanted {
        Interface::EventTarget => "illegal invocation: expected an EventTarget",
        Interface::Event => "illegal invocation: expected an Event",
        Interface::ProgressEvent => "illegal invocation: expected a ProgressEvent",
        Interface::DomException => "illegal invocation: expected a DOMException",
        Interface::FileReader => "illegal invocation: expected a FileReader",
        Interface::FileReaderSync => "illegal invocation: expected a FileReaderSync",
        Interface::Stream => "illegal invocation: expected a ReadableStream",
        Interface::StreamReader => "illegal invocation: expected a ReadableStreamDefaultReader",
        Interface::Url => "illegal invocation: expected URL",
    };
    Err(type_error(text))
}

/// Tests the argument of `dispatchEvent`.
pub fn require_dispatched_event(found: Option<Interface>) -> (result: Result<(), JsError>)
    ensures
        match result {
            Ok(_) => found is Some && serves_as(found->0, Interface::Event),
            Err(error) => {
                &&& !(found is Some && serves_as(found->0, Interface::Event))
                &&& error@ == (JsErrorKind::Type, "dispatchEvent requires an Event"@)
            },
        },
{
    match found {
        Some(interface) => if is_served(interface, Interface::Event) {
            return Ok(());
        },
        None => {},
    }
    Err(type_error("dispatchEvent requires an Event"))
}

/// The interfaces that script calls as functions.
#[derive(Clone, Copy, Debug, PartialEq, Eq, Structural)]
pub enum Constructor {
    /// `EventTarget`.
    EventTarget,
    /// `Event`.
    Event,
    /// `ProgressEvent`.
    ProgressEvent,
    /// `DOMException`.
    DomException,
    /// `FileReader`.
    FileReader,
    /// `FileReaderSync`.
    FileReaderSync,
    /// `ReadableStream` and its reader: they are never made by script.
    Stream,
}

/// Why a constructor call is refused, if it is: without `new`, or an event
/// without a type.
pub open spec fn construct_refusal(
    constructor: Constructor,
    constructing: bool,
    typed: bool,
) -> Option<Seq<char>> {
    match constructor {
        Constructor::EventTarget => if constructing {
            None
        } else {
            Some("EventTarget constructor requires 'new'"@)
        },
        Constructor::Event => if !constructing {
            Some("Event constructor requires 'new'"@)
        } else if !typed {
            Some("Event constructor requires a type"@)
        } else {
            None
        },
        Constructor::ProgressEvent => if !constructing {
            Some("ProgressEvent constructor requires 'new'"@)
        } else if !typed {
            Some("ProgressEvent constructor requires a type"@)
        } else {
            None
        },
        Constructor::DomException => if constructing {
            None
        } else {
            Some("DOMException constructor requires 'new'"@)
        },
        Constructor::FileReader => if constructing {
            None
        } else {
            Some("FileReader constructor requires 'new'"@)
        },
        Constructor::FileReaderSync => if constructing {
            None
        } else {
            Some("FileReaderSync constructor requires 'new'"@)
        },
        Constructor::Stream => Some("ReadableStream shim constructors are not constructible"@),
    }
}

/// Tests a constructor call; `typed` tells whether there is a first argument.
pub fn check_construct(constructor: Constructor, constructing: bool, typed: bool) -> (result: Result<
    (),
    JsError,
>)
    ensures
        match result {
            Ok(_) => construct_refusal(constructor, constructing, typed) is None,
            Err(error) => error@.0 == JsErrorKind::Type && construct_refusal(
                constructor,
                constructing,
                typed,
            ) == Some(error@.1),
        },
{
    let without_new = match constructor {
        Constructor::EventTarget => "EventTarget constructor requires 'new'",
        Constructor::Event => "Event constructor requires 'new'",
        Constructor::ProgressEvent => "ProgressEvent constructor requires 'new'",
        Constructor::DomException => "DOMException constructor requires 'new'",
        Constructor::FileReader => "FileReader constructor requires 'new'",
        Constructor::FileReaderSync => "FileReaderSync constructor requires 'new'",
        Constructor::Stream => {
            return Err(type_error("ReadableStream shim constructors are not constructible"));
        },
    };
    if !constructing {
        return Err(type_error(without_new));
    }
    if !typed {
        match constructor {
            Constructor::Event => {
                return Err(type_error("Event constructor requires a type"));
            },
            Constructor::ProgressEvent => {
                return Err(type_error("ProgressEvent constructor requires a type"));
            },
            _ => {},
        }
    }
    Ok(())
}


/// An object serves for its own interface, a progress event for an event and a
/// reader for an event target; nothing else serves for anything, and what is no
/// object of the library serves for nothing.
pub proof fn lemma_interfaces_are_told_apart(
    found: Option<Interface>,
    wanted: Interface,
    result: Result<(), JsError>,
    dispatched: Result<(), JsError>,
)
    requires
        call_ensures(require_interface, (found, wanted), result),
        call_ensures(require_dispatched_event, (found,), dispatched),
    ensures
        found is None ==> result is Err && dispatched is Err,
        found == Some(wanted) ==> result is Ok,
        result is Ok && found != Some(wanted) ==> (found == Some(Interface::ProgressEvent)
            && wanted is Event) || (found == Some(Interface::FileReader) && wanted is EventTarget),
        found == Some(Interface::ProgressEvent) && wanted is Event ==> result is Ok,
        found == Some(Interface::FileReader) && wanted is EventTarget ==> result is Ok,
        dispatched is Ok <==> found == Some(Interface::Event) || found == Some(
            Interface::ProgressEvent,
        ),
{
}

/// A file serves as a blob with the very bytes that it holds, and a blob serves
/// as no file; a list serves as neither.
pub proof fn lemma_files_serve_as_blobs(
    value: Branded,
    blob: Result<&BlobData, JsError>,
    file: Result<&FileNative, JsError>,
    count: Result<usize, JsError>,
    argument: Result<&BlobData, JsError>,
    absent: Result<&BlobData, JsError>,
)
    requires
        call_ensures(require_blob, (&value,), blob),
        call_ensures(require_file, (&value,), file),
        call_ensures(require_file_list, (&value,), count),
        call_ensures(blob_argument, (Some(&value),), argument),
        call_ensures(blob_argument, (None,), absent),
    ensures
        absent is Err,
        match value {
            Branded::Blob(data) => {
                &&& blob matches Ok(found) && *found == data
                &&& argument matches Ok(found) && *found == data
                &&& file is Err && count is Err
            },
            Branded::File(native) => {
                &&& blob matches Ok(found) && *found == native.data
                &&& argument matches Ok(found) && *found == native.data
                &&& file matches Ok(found) && *found == native
                &&& count is Err
            },
            Branded::FileList(list) => {
                &&& count matches Ok(found) && found == list.spec_len()
                &&& blob is Err && file is Err && argument is Err
            },
            _ => blob is Err && file is Err && count is Err && argument is Err,
        },
{
}

} // verus!
