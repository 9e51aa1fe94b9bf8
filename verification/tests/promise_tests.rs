use boa_fapi::blob::{BlobData, ByteSource};
use boa_fapi::bridge::IoBridge;
use boa_fapi::dom::map_core_error;
use boa_fapi::error::{FileApiError, ResourceLimitKind};
use boa_fapi::execute::HostReader;
use boa_fapi::ids::{FileApiContextId, IdCounter};
use boa_fapi::io::FileIoSubmitError;
use boa_fapi::limits::FileApiLimits;
use boa_fapi::poll::PollJob;
use boa_fapi::promise_read::{
    promise_submit_failed, read_promise, settle_completion, PendingReads, PromiseValue, ReadMode,
    Settlement, StartPromise,
};
use boa_fapi::resource::CancelProbe;
use boa_fapi::{FileApiExtension, FileApiHandle};

struct Failing;

impl HostReader for Failing {
    fn read(&self, _handle: u64, _offset: u64, _len: u64) -> Result<Vec<u8>, FileApiError> {
        Err(FileApiError::Cancelled)
    }
}

struct Never;

impl CancelProbe for Never {
    fn is_cancelled(&self) -> bool {
        false
    }
}

fn bridge() -> IoBridge {
    IoBridge::new(FileApiContextId::from_raw(1), 4)
}

/// Reads `data` to the end and says how its promise settles.
fn verdict(data: &BlobData, limits: &FileApiLimits, mode: ReadMode) -> String {
    let mut reads = PendingReads::new();
    let mut bridge = bridge();
    let task = match read_promise(&mut reads, &mut bridge, data, limits, mode, false) {
        StartPromise::Submit(task) => task,
        StartPromise::Reject(error) => {
            let exception = map_core_error(error);
            return format!("dom:{}:{}", exception.name, exception.message);
        }
    };
    assert!(bridge.push_completion(task.execute(&Failing, &Never, false)));
    for completion in bridge.take_completions() {
        let operation = completion.operation_id();
        bridge.release(operation);
        match settle_completion(&mut reads, operation, completion.result) {
            Some(Settlement::Resolve(value)) => return format!("{value:?}"),
            Some(Settlement::Reject(exception)) => {
                assert!(!bridge.has_pending());
                return format!("dom:{}:{}", exception.name, exception.message);
            }
            None => {}
        }
    }
    "pending".to_string()
}

fn memory(bytes: &[u8]) -> BlobData {
    BlobData::from_bytes(bytes.to_vec(), "", &FileApiLimits::default()).expect("blob")
}

#[test]
fn non_limit_error_rejects_with_mapped_dom_exception() {
    let limits = FileApiLimits::default();
    let data =
        BlobData::from_source(ByteSource::Host { handle: 1, len: 3 }, "", &limits).expect("blob");
    let (size_before, segments_before) = (data.size(), data.segment_count());
    assert_eq!(
        verdict(&data, &limits, ReadMode::Text),
        "dom:AbortError:the read was aborted"
    );
    assert_eq!(data.size(), size_before);
    assert_eq!(data.segment_count(), segments_before);
}

#[test]
fn limit_error_rejects_with_quota_exceeded_dom_exception() {
    let data = memory(b"hello");
    let mut tight = FileApiLimits::default();
    tight.max_materialize_bytes = 4;
    let (size_before, segments_before) = (data.size(), data.segment_count());
    assert_eq!(
        verdict(&data, &tight, ReadMode::Text),
        "dom:QuotaExceededError:the operation exceeds the configured quota",
        "limit mapping must reject with QuotaExceededError"
    );
    assert_eq!(data.size(), size_before);
    assert_eq!(data.segment_count(), segments_before);
}

#[test]
fn every_mode_packages_the_bytes() {
    let limits = FileApiLimits::default();
    let data = memory(&[0x61, 0xFF, 0xC3, 0xA9]);
    assert_eq!(verdict(&data, &limits, ReadMode::Text), format!("{:?}", PromiseValue::Text("a\u{fffd}\u{e9}".to_string())));
    assert_eq!(
        verdict(&data, &limits, ReadMode::ArrayBuffer),
        format!("{:?}", PromiseValue::ArrayBuffer(vec![0x61, 0xFF, 0xC3, 0xA9]))
    );
    assert_eq!(
        verdict(&data, &limits, ReadMode::Bytes),
        format!("{:?}", PromiseValue::Bytes(vec![0x61, 0xFF, 0xC3, 0xA9]))
    );
}

#[test]
fn reads_are_refused_when_nothing_is_free() {
    let limits = FileApiLimits::default();
    let mut reads = PendingReads::new();
    let mut bridge = IoBridge::new(FileApiContextId::from_raw(1), 1);
    let data = memory(b"x");
    assert!(matches!(
        read_promise(&mut reads, &mut bridge, &data, &limits, ReadMode::Text, true),
        StartPromise::Reject(FileApiError::Cancelled)
    ));
    assert!(matches!(
        read_promise(&mut reads, &mut bridge, &data, &limits, ReadMode::Text, false),
        StartPromise::Submit(_)
    ));
    assert!(matches!(
        read_promise(&mut reads, &mut bridge, &data, &limits, ReadMode::Text, false),
        StartPromise::Reject(FileApiError::TooManyReads)
    ));
    let mut tight = limits;
    tight.max_materialize_bytes = 0;
    assert!(matches!(
        read_promise(&mut reads, &mut bridge, &data, &tight, ReadMode::Text, false),
        StartPromise::Reject(FileApiError::ResourceLimit(ResourceLimitKind::MaterializeBytes))
    ));
}

#[test]
fn a_handle_reads_promises() {
    let extension = FileApiExtension::builder().build(&mut IdCounter::new());
    let context = FileApiContextId::from_raw(1);
    let found = (context, extension.config.identity);
    let mut handle = FileApiHandle::new(extension.config, context);
    let StartPromise::Submit(first) = handle.read_promise(&memory(b"one"), ReadMode::Text) else {
        panic!("refused");
    };
    let StartPromise::Submit(second) = handle.read_promise(&memory(b"two"), ReadMode::Text) else {
        panic!("refused");
    };
    assert!(handle.push_completion(second.execute(&Failing, &Never, false)));
    assert!(handle.poll_io(Some(found)).expect("poll").jobs.is_empty());
    let error = FileIoSubmitError::Shutdown;
    let failed = handle.promise_submit_failed(first.operation_id(), error);
    assert_eq!(failed, Some(FileApiError::TooManyReads));
    let jobs = handle.poll_io(Some(found)).expect("poll").jobs;
    assert!(matches!(
        jobs.as_slice(),
        [PollJob::Promise { settlement: Settlement::Resolve(PromiseValue::Text(text)), .. }]
            if text == "two"
    ));
    assert!(!handle.has_pending_io());
    handle.shutdown();
    assert!(matches!(
        handle.read_promise(&memory(b"x"), ReadMode::Text),
        StartPromise::Reject(FileApiError::Cancelled)
    ));
}

#[test]
fn a_promise_settles_once() {
    let limits = FileApiLimits::default();
    let mut reads = PendingReads::new();
    let mut bridge = bridge();
    let StartPromise::Submit(task) =
        read_promise(&mut reads, &mut bridge, &memory(b"x"), &limits, ReadMode::Bytes, false)
    else {
        panic!("refused");
    };
    let id = task.operation_id();
    assert!(settle_completion(&mut reads, id, Ok(vec![1])).is_some());
    assert!(settle_completion(&mut reads, id, Ok(vec![1])).is_none());
}

#[test]
fn a_refused_task_rejects_its_promise() {
    let limits = FileApiLimits::default();
    let mut reads = PendingReads::new();
    let mut bridge = bridge();
    let StartPromise::Submit(task) =
        read_promise(&mut reads, &mut bridge, &memory(b"x"), &limits, ReadMode::Bytes, false)
    else {
        panic!("refused");
    };
    let id = task.operation_id();
    let failed = promise_submit_failed(&mut reads, &mut bridge, id, FileIoSubmitError::QueueFull);
    assert_eq!(failed, Some(FileApiError::TooManyReads));
    assert!(!bridge.has_pending());
    assert!(reads.take(id.get()).is_none());
}
