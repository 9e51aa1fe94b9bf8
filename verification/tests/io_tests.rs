use boa_fapi::blob::{BlobData, ByteSource};
use boa_fapi::bridge::{takes_delivery, IoBridge};
use boa_fapi::error::{FileApiError, ResourceLimitKind};
use boa_fapi::execute::{read_blob_range, HostReader};
use boa_fapi::ids::{FileApiContextId, FileIoOperationId, IdCounter, RegistrationIdentity};
use boa_fapi::io::{
    plan_chunk, pool_size, settle_chunk, ChunkKind, ChunkPlan, ChunkWindow, FileIoCompletion,
    FileIoExecutor, FileIoSubmitError, FileIoTask, FileIoWake, FileReaderChunkCompletion,
    FileReaderChunkTask, NoopWake, PollIoError, ReserveError, StreamChunkCompletion,
    StreamChunkTask,
};
use boa_fapi::limits::FileApiLimits;
use boa_fapi::resource::CancelProbe;

struct RejectingExecutor;

impl FileIoExecutor for RejectingExecutor {
    fn submit(&self, _task: FileIoTask) -> Result<(), FileIoSubmitError> {
        Err(FileIoSubmitError::WorkerLost)
    }
}

struct Resource {
    bytes: Vec<u8>,
}

impl HostReader for Resource {
    fn read(&self, handle: u64, offset: u64, len: u64) -> Result<Vec<u8>, FileApiError> {
        if handle != 3 {
            return Err(FileApiError::NotFound);
        }
        Ok(self.bytes[offset as usize..(offset + len) as usize].to_vec())
    }
}

struct Short;

impl HostReader for Short {
    fn read(&self, _handle: u64, _offset: u64, _len: u64) -> Result<Vec<u8>, FileApiError> {
        Ok(vec![1])
    }
}

struct Probe(bool);

impl CancelProbe for Probe {
    fn is_cancelled(&self) -> bool {
        self.0
    }
}

fn whole(id: FileIoOperationId, byte: u8) -> FileIoCompletion {
    FileIoCompletion {
        context_id: FileApiContextId::from_raw(1),
        operation_id: id,
        result: Ok(vec![byte]),
    }
}

fn host_blob() -> BlobData {
    let limits = FileApiLimits::default();
    let mut data = BlobData::from_bytes(b"ab".to_vec(), "", &limits).expect("memory");
    let host = BlobData::from_source(ByteSource::Host { handle: 3, len: 4 }, "", &limits).expect("host");
    let mut parts = 1_usize;
    data.push_shared(&host, &limits, &mut parts).expect("joined");
    data
}

#[test]
fn operation_id_exhaustion_fails_closed_without_reuse() {
    let mut bridge = IoBridge::with_first_operation(FileApiContextId::from_raw(7), 2, u64::MAX - 1);
    let reserved = bridge.reserve();
    assert!(reserved.is_ok(), "last id before sentinel must reserve");
    let Some(last_id) = reserved.ok() else {
        return;
    };
    assert_eq!(last_id.get(), u64::MAX - 1);
    bridge.unreserve(last_id);

    assert!(matches!(bridge.reserve(), Err(ReserveError::QuotaFull)));
    assert!(matches!(bridge.reserve(), Err(ReserveError::QuotaFull)));
}

#[test]
fn late_stream_completion_after_eof_release_is_a_strict_noop() {
    let mut bridge = IoBridge::new(FileApiContextId::from_raw(8), 1);
    let reserved = bridge.reserve();
    assert!(reserved.is_ok(), "first reservation must succeed");
    let Ok(eof_operation) = reserved else {
        return;
    };
    bridge.unreserve(eof_operation);
    let replacement = bridge.reserve();
    assert!(replacement.is_ok(), "replacement reservation must succeed");
    let Ok(live_operation) = replacement else {
        return;
    };

    bridge.push_stream_completion(StreamChunkCompletion {
        context_id: FileApiContextId::from_raw(8),
        operation_id: eof_operation,
        generation: 1,
        kind: ChunkKind::Eof,
    });

    assert!(
        bridge.take_stream_completions().is_empty(),
        "late completion must not be delivered to poll_io"
    );
    assert!(
        bridge.active_count() == 1,
        "late completion must not release the replacement stream slot"
    );
    bridge.unreserve(live_operation);
}

#[test]
fn quota_is_released_exactly_once() {
    let mut bridge = IoBridge::new(FileApiContextId::from_raw(1), 1);
    let first = bridge.reserve().expect("slot");
    assert!(matches!(bridge.reserve(), Err(ReserveError::QuotaFull)));
    assert!(bridge.is_reserved(first));
    assert!(bridge.unreserve(first));
    assert!(!bridge.unreserve(first));
    assert_eq!(bridge.active_count(), 0);
    let second = bridge.reserve().expect("slot");
    assert_eq!(second.get(), first.get() + 1);
    assert!(!bridge.release(first));
    assert!(bridge.is_reserved(second));
}

#[test]
fn whole_reads_settle_in_submission_order() {
    let mut bridge = IoBridge::new(FileApiContextId::from_raw(1), 4);
    let a = bridge.reserve().expect("a");
    let b = bridge.reserve().expect("b");
    assert!(bridge.push_completion(whole(b, 2)));
    assert!(bridge.take_completions().is_empty());
    assert!(bridge.push_completion(whole(a, 1)));
    assert!(!bridge.push_completion(whole(a, 9)));
    let order: Vec<u64> = bridge
        .take_completions()
        .iter()
        .map(|completion| completion.operation_id().get())
        .collect();
    assert_eq!(order, [a.get(), b.get()]);
    assert!(bridge.take_completions().is_empty());
    assert!(bridge.has_pending());
}

#[test]
fn a_chunked_operation_holds_no_whole_read_up() {
    let mut bridge = IoBridge::new(FileApiContextId::from_raw(1), 4);
    let stream = bridge.reserve_chunked().expect("stream");
    let read = bridge.reserve().expect("read");
    assert!(bridge.push_completion(whole(read, 7)));
    let order: Vec<u64> = bridge
        .take_completions()
        .iter()
        .map(|completion| completion.operation_id().get())
        .collect();
    assert_eq!(order, [read.get()]);
    assert!(bridge.is_reserved(stream));
}

#[test]
fn chunked_reservations_share_the_quota() {
    let mut bridge = IoBridge::new(FileApiContextId::from_raw(1), 2);
    let first = bridge.reserve().expect("first");
    let second = bridge.reserve_chunked().expect("second");
    assert_eq!(second.get(), first.get() + 1);
    assert!(matches!(bridge.reserve_chunked(), Err(ReserveError::QuotaFull)));
    bridge.shutdown();
    assert!(matches!(bridge.reserve_chunked(), Err(ReserveError::Shutdown)));
}

#[test]
fn reader_chunks_come_back_to_the_front() {
    let mut bridge = IoBridge::new(FileApiContextId::from_raw(1), 2);
    let id = bridge.reserve().expect("slot");
    for generation in 1..=3 {
        assert!(bridge.push_reader_completion(FileReaderChunkCompletion {
            context_id: FileApiContextId::from_raw(1),
            operation_id: id,
            generation,
            kind: ChunkKind::Eof,
        }));
    }
    let mut taken = bridge.take_reader_completions();
    assert_eq!(taken.len(), 3);
    let last = taken.pop().expect("third");
    let middle = taken.pop().expect("second");
    assert!(bridge.requeue_reader_completion(last));
    assert!(bridge.requeue_reader_completion(middle));
    let again: Vec<u64> = bridge.take_reader_completions().iter().map(|c| c.generation()).collect();
    assert_eq!(again, [2, 3]);
}

#[test]
fn shutdown_cancels_and_refuses() {
    let mut bridge = IoBridge::new(FileApiContextId::from_raw(1), 2);
    let id = bridge.reserve().expect("slot");
    assert_eq!(bridge.shutdown(), [id.get()]);
    assert!(bridge.shutdown().is_empty());
    assert!(bridge.is_shutdown());
    assert!(matches!(bridge.reserve(), Err(ReserveError::Shutdown)));
    assert!(!bridge.push_completion(whole(id, 1)));
    assert!(!bridge.has_pending());
}

#[test]
fn identifiers_start_at_one_and_run_out() {
    let mut counter = IdCounter::new();
    assert_eq!(FileApiContextId::fresh(&mut counter).expect("first").get(), 1);
    assert_eq!(FileApiContextId::fresh(&mut counter).expect("second").get(), 2);
    let mut last = IdCounter::starting_at(u64::MAX - 1);
    assert_eq!(FileApiContextId::fresh(&mut last).expect("last").get(), u64::MAX - 1);
    assert!(FileApiContextId::fresh(&mut last).is_none());
    assert!(RegistrationIdentity::fresh(&mut last).is_exhausted());
    assert!(!RegistrationIdentity::fresh(&mut counter).is_exhausted());
}

#[test]
fn chunk_requests_are_planned() {
    assert_eq!(plan_chunk(true, 10, 0, 4), ChunkPlan::Cancelled);
    assert_eq!(plan_chunk(false, 10, 10, 4), ChunkPlan::Eof);
    assert_eq!(plan_chunk(false, 10, 11, 4), ChunkPlan::Invalid);
    assert_eq!(plan_chunk(false, 10, 0, 0), ChunkPlan::Invalid);
    assert_eq!(plan_chunk(false, 10, 8, 4), ChunkPlan::Read { start: 8, end: 10 });
    assert_eq!(plan_chunk(false, 10, 2, u64::MAX), ChunkPlan::Read { start: 2, end: 10 });
    let plan = ChunkPlan::Read { start: 0, end: 3 };
    assert!(matches!(settle_chunk(plan, Ok(vec![1, 2, 3])), ChunkKind::Chunk(bytes) if bytes == [1, 2, 3]));
    assert!(matches!(settle_chunk(plan, Ok(vec![1])), ChunkKind::Error(FileApiError::InvalidRange)));
    assert!(matches!(
        settle_chunk(plan, Err(FileApiError::FileLocked)),
        ChunkKind::Error(FileApiError::FileLocked)
    ));
}

#[test]
fn ranges_are_read_across_sources() {
    let data = host_blob();
    let host = Resource { bytes: b"cdef".to_vec() };
    assert_eq!(read_blob_range(&data, 0, 6, &host, &Probe(false)).expect("all"), b"abcdef");
    assert_eq!(read_blob_range(&data, 1, 4, &host, &Probe(false)).expect("some"), b"bcd");
    assert_eq!(read_blob_range(&data, 2, 7, &host, &Probe(false)), Err(FileApiError::InvalidRange));
    assert_eq!(read_blob_range(&data, 0, 6, &host, &Probe(true)), Err(FileApiError::Cancelled));
    assert_eq!(read_blob_range(&data, 0, 6, &Short, &Probe(false)), Err(FileApiError::InvalidRange));
}

/// Says that the work is given up from the given question on.
struct Later(std::cell::Cell<u32>);

impl CancelProbe for Later {
    fn is_cancelled(&self) -> bool {
        let left = self.0.get();
        if left == 0 {
            return true;
        }
        self.0.set(left - 1);
        false
    }
}

#[test]
fn the_probe_is_asked_before_every_segment() {
    let data = host_blob();
    let host = Resource { bytes: b"cdef".to_vec() };
    assert_eq!(read_blob_range(&data, 3, 3, &host, &Probe(false)), Ok(Vec::new()));
    assert_eq!(read_blob_range(&data, 3, 3, &host, &Probe(true)), Err(FileApiError::Cancelled));
    let probe = |questions| Later(std::cell::Cell::new(questions));
    assert_eq!(read_blob_range(&data, 0, 2, &host, &probe(2)), Ok(b"ab".to_vec()));
    assert_eq!(read_blob_range(&data, 0, 2, &host, &probe(1)), Err(FileApiError::Cancelled));
    assert_eq!(read_blob_range(&BlobData::empty(""), 0, 0, &host, &Probe(true)), Ok(Vec::new()));
}

#[test]
fn tasks_carry_their_answers() {
    let limits = FileApiLimits::default();
    let host = Resource { bytes: b"cdef".to_vec() };
    let task = FileIoTask {
        context_id: FileApiContextId::from_raw(4),
        operation_id: FileIoOperationId::from_raw(5),
        data: host_blob(),
        limits,
    };
    let done = task.execute(&host, &Probe(false), false);
    assert_eq!(done.context_id().get(), 4);
    assert_eq!(done.operation_id().get(), 5);
    assert_eq!(done.result, Ok(b"abcdef".to_vec()));
    assert_eq!(task.execute(&host, &Probe(false), true).result, Err(FileApiError::Cancelled));
    let mut tight = limits;
    tight.max_materialize_bytes = 5;
    let refused = FileIoTask { limits: tight, ..task };
    assert_eq!(
        refused.execute(&host, &Probe(false), false).result,
        Err(FileApiError::ResourceLimit(ResourceLimitKind::MaterializeBytes))
    );
    let window = ChunkWindow { generation: 2, offset: 4, len: 16 };
    let chunk = FileReaderChunkTask {
        context_id: FileApiContextId::from_raw(4),
        operation_id: FileIoOperationId::from_raw(5),
        data: host_blob(),
        limits,
        window,
    };
    assert_eq!((chunk.generation(), chunk.offset(), chunk.len(), chunk.is_empty()), (2, 4, 16, false));
    let done = chunk.execute(&host, &Probe(false), false);
    assert_eq!(done.generation(), 2);
    assert!(matches!(done.kind, ChunkKind::Chunk(bytes) if bytes == b"ef"));
    let stream = StreamChunkTask {
        context_id: FileApiContextId::from_raw(4),
        operation_id: FileIoOperationId::from_raw(5),
        data: host_blob(),
        limits,
        window: ChunkWindow { generation: 1, offset: 6, len: 1 },
    };
    assert!(matches!(stream.execute(&host, &Probe(false), false).kind, ChunkKind::Eof));
    assert!(matches!(
        stream.execute(&host, &Probe(true), false).kind,
        ChunkKind::Error(FileApiError::Cancelled)
    ));
}

#[test]
fn executors_refuse_chunks_unless_they_say_otherwise() {
    let data = BlobData::empty("");
    let window = ChunkWindow { generation: 1, offset: 0, len: 1 };
    let limits = FileApiLimits::default();
    let context_id = FileApiContextId::from_raw(1);
    let operation_id = FileIoOperationId::from_raw(1);
    let reader = FileReaderChunkTask { context_id, operation_id, data: data.reference(), limits, window };
    let stream = StreamChunkTask { context_id, operation_id, data, limits, window };
    assert_eq!(RejectingExecutor.submit_reader(reader), Err(FileIoSubmitError::WorkerLost));
    assert_eq!(RejectingExecutor.submit_stream(stream), Err(FileIoSubmitError::WorkerLost));
    NoopWake.wake(context_id);
}

#[test]
fn failures_have_their_texts() {
    assert_eq!(FileIoSubmitError::QueueFull.to_file_api_error(), FileApiError::TooManyReads);
    assert_eq!(ReserveError::Shutdown.to_file_api_error(), FileApiError::Cancelled);
    assert!(!FileIoSubmitError::WorkerLost.message().is_empty());
    assert_ne!(PollIoError::NotRegistered.message(), PollIoError::ForeignContext.message());
}

#[test]
fn pools_are_bounded() {
    assert_eq!(pool_size(0, 0), (1, 1));
    assert_eq!(pool_size(4, 128), (4, 128));
    assert_eq!(pool_size(99, 99_999), (32, 4096));
}

#[test]
fn late_deliveries_wake_nobody() {
    assert!(takes_delivery(false, true, false));
    assert!(!takes_delivery(true, true, false));
    assert!(!takes_delivery(false, false, false));
    assert!(!takes_delivery(false, true, true));
}
