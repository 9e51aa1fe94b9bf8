use std::cell::{Cell, RefCell};

use boa_fapi::blob::BlobData;
use boa_fapi::blob_url::BlobUrlError;
use boa_fapi::brand::{
    blob_argument, check_construct, require_blob, require_dispatched_event, require_file,
    require_file_list, require_file_object, require_interface, Branded, Constructor, Interface,
};
use boa_fapi::clone_bridge::CloneError;
use boa_fapi::dom::{
    exception_arguments, map_core_error, parse_event_init, to_capture, to_listener, CaptureValue,
    Dispatch, EventFlags, EventInit, ListEntry, ListenerList, ListenerValue,
};
use boa_fapi::error::{js_from_core, FileApiError, JsErrorKind, ResourceLimitKind};
use boa_fapi::extension::HostFileOptions;
use boa_fapi::file::FileNative;
use boa_fapi::file_list::FileListNative;
use boa_fapi::ids::{FileApiContextId, IdCounter};
use boa_fapi::lifecycle::ShutdownFlag;
use boa_fapi::limits::FileApiLimits;
use boa_fapi::observability::{
    elapsed_ms, result_class_for_blob_url, result_class_for_clone, result_class_for_core,
    result_class_for_resource, single_chunk_count,
};
use boa_fapi::resource::{check_import, read_range, CancelProbe, FileResource, SnapshotState};
use boa_fapi::{Clock, FileApiExtension, FileApiHandle};

struct Fixed;

impl Clock for Fixed {
    fn now_unix_millis(&self) -> i64 {
        77
    }
}

fn handle() -> FileApiHandle {
    let extension = FileApiExtension::builder().build(&mut IdCounter::new());
    FileApiHandle::new(extension.config, FileApiContextId::from_raw(1))
}

fn blob(text: &str) -> BlobData {
    BlobData::from_bytes(text.as_bytes().to_vec(), "", &FileApiLimits::default()).expect("blob")
}

fn a_file() -> Branded {
    Branded::File(FileNative::new(blob("x"), "f".to_string(), 0))
}

fn listener(event_type: &str, callback: u64, capture: bool) -> ListEntry {
    ListEntry {
        event_type: event_type.to_string(),
        callback,
        capture,
    }
}

#[test]
fn listeners_are_told_apart_by_type_function_and_capture() {
    let mut list = ListenerList::new();
    list.add_listener(listener("load", 1, false));
    list.add_listener(listener("load", 2, false));
    list.add_listener(listener("load", 1, false));
    list.add_listener(listener("load", 1, true));
    list.add_listener(listener("error", 3, false));
    assert_eq!(list.callbacks("load"), [1, 2, 1]);
    list.remove_listener(&listener("load", 1, false));
    assert_eq!(list.callbacks("load"), [2, 1]);
    list.remove_listener(&listener("load", 9, false));
    list.remove_listener(&listener("abort", 2, false));
    assert_eq!(list.callbacks("load"), [2, 1]);
    assert_eq!(list.callbacks("error"), [3]);
    assert!(listener("a", 1, true).same_tuple(&listener("a", 1, true)));
    assert!(!listener("a", 1, true).same_tuple(&listener("a", 1, false)));
}

#[test]
fn a_dispatch_calls_the_handler_first() {
    let mut list = ListenerList::new();
    list.add_listener(listener("load", 1, false));
    list.add_listener(listener("load", 2, false));
    let mut dispatch = Dispatch::begin(Some(9), &list, "load");
    list.remove_listener(&listener("load", 2, false));
    let mut called = Vec::new();
    while let Some(callback) = dispatch.next(false) {
        called.push(callback);
    }
    assert_eq!(called, [9, 1, 2]);
    assert_eq!(dispatch.outcome(false), Ok(true));
    assert_eq!(dispatch.outcome(true), Ok(false));
}

#[test]
fn a_stopped_event_calls_no_further_listener() {
    let mut list = ListenerList::new();
    list.add_listener(listener("load", 1, false));
    list.add_listener(listener("load", 2, false));
    let mut dispatch = Dispatch::begin(None, &list, "load");
    assert_eq!(dispatch.next(false), Some(1));
    assert_eq!(dispatch.next(true), None);
    assert_eq!(dispatch.next(true), None);
}

#[test]
fn the_first_exception_is_reported() {
    let mut list = ListenerList::new();
    list.add_listener(listener("load", 1, false));
    list.add_listener(listener("load", 2, false));
    let mut dispatch = Dispatch::begin(None, &list, "load");
    dispatch.next(false);
    dispatch.report(11);
    assert_eq!(dispatch.next(false), Some(2));
    dispatch.report(12);
    assert_eq!(dispatch.outcome(false), Err(11));
}

#[test]
fn only_cancelable_events_are_prevented() {
    let mut plain = EventFlags::new(false, false);
    plain.prevent_default();
    assert!(!plain.default_prevented);
    let mut cancelable = EventFlags::new(true, true);
    cancelable.prevent_default();
    cancelable.stop_immediate_propagation();
    assert!(cancelable.default_prevented && cancelable.stopped && cancelable.bubbles);
}

#[test]
fn event_arguments_are_read() {
    assert_eq!(parse_event_init(EventInit::Nullish).expect("none"), (false, false));
    let given = EventInit::Object {
        bubbles: true,
        cancelable: false,
    };
    assert_eq!(parse_event_init(given).expect("given"), (true, false));
    let error = parse_event_init(EventInit::NotAnObject).expect_err("number");
    assert_eq!(error.message, "the event init value is not an object");
    assert_eq!(to_listener(ListenerValue::Nullish).expect("none"), None);
    assert_eq!(to_listener(ListenerValue::Function(4)).expect("function"), Some(4));
    let error = to_listener(ListenerValue::Other).expect_err("object");
    assert_eq!(error.message, "the event listener must be a function or null");
    assert_eq!(exception_arguments(None, None), ("Error".to_string(), String::new()));
    assert_eq!(
        exception_arguments(Some("why".to_string()), Some("AbortError".to_string())),
        ("AbortError".to_string(), "why".to_string())
    );
}

#[test]
fn failures_map_to_exceptions() {
    let names: Vec<&str> = [
        FileApiError::NotFound,
        FileApiError::UnsafeFile,
        FileApiError::TooManyReads,
        FileApiError::PermissionDenied,
        FileApiError::SnapshotChanged,
        FileApiError::FileLocked,
        FileApiError::InvalidRange,
        FileApiError::ResourceLimit(ResourceLimitKind::BlobSize),
        FileApiError::Cancelled,
        FileApiError::Internal,
    ]
    .into_iter()
    .map(|error| map_core_error(error).name)
    .collect();
    assert_eq!(
        names,
        [
            "NotFoundError",
            "SecurityError",
            "SecurityError",
            "SecurityError",
            "NotReadableError",
            "NotReadableError",
            "NotReadableError",
            "QuotaExceededError",
            "AbortError",
            "NotReadableError"
        ]
    );
    let limit = js_from_core(FileApiError::ResourceLimit(ResourceLimitKind::BlobSize));
    assert_eq!(limit.kind, JsErrorKind::Range);
}

#[test]
fn closers_fire_once() {
    let mut flag = ShutdownFlag::new();
    assert_eq!(flag.track(1), None);
    assert_eq!(flag.track(2), None);
    assert!(!flag.is_shutdown());
    assert_eq!(flag.close(), [1, 2]);
    assert!(flag.close().is_empty());
    assert_eq!(flag.track(3), Some(3));
    assert!(flag.is_shutdown());
}

#[test]
fn results_have_classes() {
    assert_eq!(result_class_for_core(None), "ok");
    assert_eq!(result_class_for_core(Some(FileApiError::FileLocked)), "permission");
    assert_eq!(result_class_for_core(Some(FileApiError::SnapshotChanged)), "snapshot_changed");
    assert_eq!(result_class_for_core(Some(FileApiError::TooManyReads)), "error");
    assert_eq!(result_class_for_resource(true, Some(FileApiError::Cancelled)), "shutdown");
    assert_eq!(result_class_for_resource(false, Some(FileApiError::Cancelled)), "cancelled");
    assert_eq!(result_class_for_resource(true, None), "ok");
    assert_eq!(result_class_for_blob_url(Some(BlobUrlError::Malformed)), "not_found");
    assert_eq!(result_class_for_blob_url(Some(BlobUrlError::Collision)), "error");
    assert_eq!(result_class_for_clone(Some(CloneError::LimitExceeded)), "quota");
    assert_eq!(result_class_for_clone(None), "ok");
    assert_eq!(elapsed_ms(5), 5);
    assert_eq!(elapsed_ms(u128::MAX), u64::MAX);
    assert_eq!(single_chunk_count(true, 9), 1);
    assert_eq!(single_chunk_count(true, 0), 0);
    assert_eq!(single_chunk_count(false, 9), 0);
}

/// A resource of ten bytes whose state changes after some looks.
struct Disk {
    states: RefCell<Vec<SnapshotState>>,
    answer: Result<&'static [u8], FileApiError>,
    reads: Cell<usize>,
}

impl FileResource for Disk {
    fn current_snapshot(&self) -> Result<SnapshotState, FileApiError> {
        let mut states = self.states.borrow_mut();
        if states.is_empty() {
            return Err(FileApiError::NotFound);
        }
        Ok(states.remove(0))
    }

    fn read_at(&self, _offset: u64, _len: usize) -> Result<Vec<u8>, FileApiError> {
        self.reads.set(self.reads.get() + 1);
        self.answer.map(|bytes| bytes.to_vec())
    }
}

/// Says that the work is given up after some looks.
struct Patience(Cell<usize>);

impl CancelProbe for Patience {
    fn is_cancelled(&self) -> bool {
        let left = self.0.get();
        self.0.set(left.saturating_sub(1));
        left == 0
    }
}

fn state(modified: i64) -> SnapshotState {
    SnapshotState::Filesystem {
        size: 10,
        identity: 5,
        modified,
    }
}

fn disk(states: &[SnapshotState], answer: Result<&'static [u8], FileApiError>) -> Disk {
    Disk {
        states: RefCell::new(states.to_vec()),
        answer,
        reads: Cell::new(0),
    }
}

fn read(disk: &Disk, patience: usize, closed: bool, end: u64) -> Result<Vec<u8>, FileApiError> {
    read_range(disk, &Patience(Cell::new(patience)), closed, state(1), 2, end)
}

#[test]
fn a_read_sees_one_state() {
    let same = [state(1), state(1)];
    assert_eq!(read(&disk(&same, Ok(b"abc")), 9, false, 5), Ok(b"abc".to_vec()));
    let changed = disk(&[state(2)], Ok(b"abc"));
    assert_eq!(read(&changed, 9, false, 5), Err(FileApiError::SnapshotChanged));
    assert_eq!(changed.reads.get(), 0);
    let during = disk(&[state(1), state(2)], Ok(b"abc"));
    assert_eq!(read(&during, 9, false, 5), Err(FileApiError::SnapshotChanged));
    let gone = disk(&[state(1)], Ok(b"abc"));
    assert_eq!(read(&gone, 9, false, 5), Err(FileApiError::NotFound));
    assert!(read(&disk(&same, Ok(b"ab")), 9, false, 5).is_err());
    let locked = disk(&same, Err(FileApiError::FileLocked));
    assert_eq!(read(&locked, 9, false, 5), Err(FileApiError::FileLocked));
}

#[test]
fn refused_reads_ask_nothing() {
    let same = [state(1), state(1)];
    let untouched = disk(&same, Ok(b"abc"));
    assert_eq!(read(&untouched, 0, false, 5), Err(FileApiError::Cancelled));
    assert_eq!(read(&untouched, 9, true, 5), Err(FileApiError::Cancelled));
    assert_eq!(read(&untouched, 9, false, 1), Err(FileApiError::InvalidRange));
    assert_eq!(read(&untouched, 9, false, 11), Err(FileApiError::InvalidRange));
    assert_eq!(read(&untouched, 9, false, 2), Ok(Vec::new()));
    assert_eq!(untouched.states.borrow().len(), 2);
    assert_eq!(read(&untouched, 1, false, 5), Err(FileApiError::Cancelled));
    assert_eq!(untouched.reads.get(), 0);
}

#[test]
fn imports_are_tested() {
    assert_eq!(check_import(Ok(state(1)), state(1), true), Ok(()));
    assert_eq!(
        check_import(Ok(state(1)), state(1), false),
        Err(FileApiError::PermissionDenied)
    );
    assert_eq!(
        check_import(Ok(state(2)), state(1), true),
        Err(FileApiError::SnapshotChanged)
    );
    assert_eq!(
        check_import(Err(FileApiError::NotFound), state(1), true),
        Err(FileApiError::NotFound)
    );
}

#[test]
fn files_over_resources_are_closed_at_shutdown() {
    let mut handle = handle();
    let options = HostFileOptions::default();
    let file = handle
        .file_from_resource(3, 30, Ok(state(1)), state(1), true, "a/b", &options, &Fixed)
        .expect("file");
    assert_eq!((file.name(), file.last_modified(), file.blob_data().size()), ("a:b", 77, 10));
    assert!(handle
        .file_from_resource(4, 40, Ok(state(2)), state(1), true, "x", &options, &Fixed)
        .is_err());
    assert_eq!(handle.shutdown().closers, [30]);
    assert!(handle.shutdown().closers.is_empty());
    let error = handle
        .file_from_resource(5, 50, Ok(state(1)), state(1), true, "x", &options, &Fixed)
        .expect_err("closed");
    assert_eq!(error.message, "the File API runtime is shut down");
}

#[test]
fn hosts_make_blobs_files_and_lists() {
    let mut handle = handle();
    let data = handle.blob_from_bytes(b"abc".to_vec(), "Text/Plain").expect("blob");
    assert_eq!((data.size(), data.media_type()), (3, "text/plain"));
    let options = HostFileOptions {
        media_type: "A/B".to_string(),
        last_modified: Some(5),
    };
    let file = handle.file_from_bytes(b"ab".to_vec(), "n/m", &options, &Fixed).expect("file");
    assert_eq!(file.name(), "n:m");
    assert_eq!((file.last_modified(), file.blob_data().media_type()), (5, "a/b"));
    let late = handle.file_from_data(data, "d", None, &Fixed);
    assert_eq!((late.last_modified(), late.blob_data().size()), (77, 3));
    assert_eq!(handle.file_list(&vec![a_file(), a_file()]).expect("list").len(), 2);
    let error = handle.file_list(&vec![a_file(), Branded::Blob(blob("x"))]).expect_err("blob");
    assert_eq!(error.message, "expected a File object");
    handle.shutdown();
    assert!(handle.blob_from_bytes(Vec::new(), "").is_err());
    assert!(handle.file_list(&Vec::new()).is_err());
}

#[test]
fn lists_are_indexed() {
    let list = FileListNative::create(3).expect("list");
    assert_eq!(list.item(0), Some(0));
    assert_eq!(list.item(2.9f64.to_bits()), Some(2));
    assert_eq!(list.item(3f64.to_bits()), None);
    assert_eq!(list.item((-1f64).to_bits()), None);
    assert_eq!(list.item(f64::NAN.to_bits()), Some(0));
    assert_eq!(list.item(4294967297f64.to_bits()), Some(1));
    let error = FileListNative::create(4294967295).expect_err("too many");
    assert_eq!(error.message, "too many files in the FileList");
}

#[test]
fn brands_decide() {
    let file = a_file();
    let plain = Branded::Blob(blob("xy"));
    assert_eq!(require_blob(&file).expect("a file is a blob").size(), 1);
    assert_eq!(require_blob(&plain).expect("blob").size(), 2);
    assert_eq!(
        require_blob(&Branded::Primitive).expect_err("number").message,
        "illegal invocation: expected a Blob"
    );
    assert_eq!(require_file(&file).expect("file").name(), "f");
    assert_eq!(
        require_file(&plain).expect_err("blob").message,
        "illegal invocation: expected a File"
    );
    assert!(require_file_object(&file).is_ok());
    assert_eq!(
        require_file_object(&plain).expect_err("blob").message,
        "expected a File object"
    );
    let list = Branded::FileList(FileListNative::create(4).expect("list"));
    assert_eq!(require_file_list(&list).expect("list"), 4);
    assert_eq!(
        require_file_list(&Branded::Other).expect_err("object").message,
        "illegal invocation: expected a FileList"
    );
}

#[test]
fn interfaces_inherit() {
    let event = Some(Interface::Event);
    let progress = Some(Interface::ProgressEvent);
    assert!(require_interface(progress, Interface::Event).is_ok());
    assert!(require_interface(Some(Interface::FileReader), Interface::EventTarget).is_ok());
    assert!(require_interface(event, Interface::Event).is_ok());
    assert_eq!(
        require_interface(event, Interface::ProgressEvent).expect_err("event").message,
        "illegal invocation: expected a ProgressEvent"
    );
    assert_eq!(
        require_interface(None, Interface::Url).expect_err("nothing").message,
        "illegal invocation: expected URL"
    );
    assert!(require_dispatched_event(progress).is_ok());
    assert_eq!(
        require_dispatched_event(Some(Interface::Stream)).expect_err("stream").message,
        "dispatchEvent requires an Event"
    );
}

#[test]
fn constructors_are_called_with_new() {
    assert!(check_construct(Constructor::FileReader, true, false).is_ok());
    assert!(check_construct(Constructor::Event, true, true).is_ok());
    let text = |constructor, constructing, typed| {
        check_construct(constructor, constructing, typed).expect_err("refused").message
    };
    assert_eq!(
        text(Constructor::Event, false, true),
        "Event constructor requires 'new'"
    );
    assert_eq!(
        text(Constructor::ProgressEvent, true, false),
        "ProgressEvent constructor requires a type"
    );
    assert_eq!(
        text(Constructor::DomException, false, false),
        "DOMException constructor requires 'new'"
    );
    assert_eq!(
        text(Constructor::Stream, true, true),
        "ReadableStream shim constructors are not constructible"
    );
}

#[test]
fn read_arguments_are_blobs() {
    assert_eq!(
        blob_argument(None).expect_err("nothing").message,
        "read requires a Blob argument"
    );
    assert_eq!(
        blob_argument(Some(&Branded::Other)).expect_err("object").message,
        "illegal invocation: expected a Blob"
    );
    assert_eq!(blob_argument(Some(&a_file())).expect("file").size(), 1);
    assert!(!to_capture(CaptureValue::Nullish));
    assert!(to_capture(CaptureValue::Object { capture: true }));
    assert!(to_capture(CaptureValue::Primitive(true)));
    assert!(matches!(handle().blob_from_data(blob("xy")), Branded::Blob(data) if data.size() == 2));
}
