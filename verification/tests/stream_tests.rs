use boa_fapi::blob::{BlobData, ByteSource};
use boa_fapi::error::{FileApiError, JsErrorKind};
use boa_fapi::execute::HostReader;
use boa_fapi::ids::{FileApiContextId, IdCounter, RegistrationIdentity};
use boa_fapi::io::{FileIoSubmitError, StreamChunkTask};
use boa_fapi::limits::FileApiLimits;
use boa_fapi::poll::PollJob;
use boa_fapi::promise_read::{PromiseValue, ReadMode, Settlement, StartPromise};
use boa_fapi::resource::CancelProbe;
use boa_fapi::streams::{
    get_reader, EndpointClaim, ReadCall, ReadResult, ReaderEndpoint, Settled, StreamCancel,
    StreamMode, StreamRefusal, StreamStep,
};
use boa_fapi::{FileApiExtension, FileApiHandle};

struct Failing;

impl HostReader for Failing {
    fn read(&self, _handle: u64, _offset: u64, _len: u64) -> Result<Vec<u8>, FileApiError> {
        Err(FileApiError::Cancelled)
    }
}

struct Never;

impl CancelProbe for Never {
    fn is_cancelled(&self) -> bool {
        false
    }
}

/// A host loop without a script engine.
struct Sim {
    handle: FileApiHandle,
    found: (FileApiContextId, RegistrationIdentity),
    tasks: Vec<StreamChunkTask>,
    executed: usize,
    /// What the promises settled with: the call, and how.
    log: Vec<(u64, String)>,
    abandoned: Vec<u64>,
}

impl Sim {
    fn with_limits(limits: FileApiLimits) -> Self {
        let mut identities = IdCounter::new();
        let extension = FileApiExtension::builder().limits(limits).build(&mut identities);
        let context = FileApiContextId::from_raw(1);
        let found = (context, extension.config.identity);
        Sim {
            handle: FileApiHandle::new(extension.config, context),
            found,
            tasks: Vec::new(),
            executed: 0,
            log: Vec::new(),
            abandoned: Vec::new(),
        }
    }

    fn new() -> Self {
        Sim::with_limits(FileApiLimits::default())
    }

    fn stream(&mut self, data: BlobData, mode: StreamMode) -> Result<usize, StreamRefusal> {
        self.handle.create_stream(data, mode)?;
        Ok(self.handle.streams.len() - 1)
    }

    fn reader(&mut self, data: BlobData, mode: StreamMode) -> usize {
        let at = self.stream(data, mode).expect("stream");
        self.handle.get_reader(at).expect("reader");
        at
    }

    fn read(&mut self, at: usize) -> u64 {
        let call = self.handle.reader_read(at, false);
        match call {
            ReadCall::Queued { seq, submit } => {
                self.tasks.extend(submit);
                seq
            }
            ReadCall::Settled(result) => {
                self.log.push((u64::MAX, show(&result)));
                u64::MAX
            }
            ReadCall::Refused(error) => panic!("refused: {error:?}"),
            ReadCall::Abandoned => u64::MAX,
        }
    }

    fn settle(&mut self, settled: Vec<Settled>) {
        for one in settled {
            self.log.push((one.seq, show(&one.result)));
        }
    }

    fn work(&mut self) {
        for task in std::mem::take(&mut self.tasks) {
            self.executed += 1;
            let completion = task.execute(&Failing, &Never, self.handle.is_shutdown());
            self.handle.push_stream_completion(completion);
        }
    }

    fn drive(&mut self) {
        for _ in 0..50 {
            self.work();
            let outcome = self.handle.poll_io(Some(self.found)).expect("poll");
            self.abandoned.extend(outcome.abandoned);
            for job in outcome.jobs {
                let PollJob::Stream { operation, step } = job else {
                    panic!("only streams here");
                };
                match step {
                    StreamStep::Stale => {}
                    StreamStep::Settle { settled, submit } => {
                        self.settle(settled);
                        self.tasks.extend(submit);
                    }
                    StreamStep::Package { demand, bytes } => {
                        let at = self
                            .handle
                            .streams
                            .iter()
                            .position(|s| s.lease.operation == operation)
                            .expect("stream");
                        self.log.push((demand.seq, format!("chunk:{}", bytes.len())));
                        let submit = self.handle.chunk_packaged(at, bytes.len());
                        self.tasks.extend(submit);
                    }
                }
            }
            if self.tasks.is_empty() {
                return;
            }
        }
        panic!("not quiescent");
    }
}

fn show(result: &ReadResult) -> String {
    match result {
        ReadResult::Text(text) => format!("text:{text}"),
        ReadResult::Done => "done".to_string(),
        ReadResult::Reject(exception) => format!("dom:{}", exception.name),
    }
}

fn memory(text: &str) -> BlobData {
    BlobData::from_bytes(text.as_bytes().to_vec(), "", &FileApiLimits::default()).expect("blob")
}

fn failing() -> BlobData {
    BlobData::from_source(ByteSource::Host { handle: 1, len: 3 }, "", &FileApiLimits::default())
        .expect("blob")
}

#[test]
fn pending_read_survives_gc_with_exact_chunk() {
    let mut sim = Sim::new();
    let at = sim.reader(memory("gc-exact"), StreamMode::Bytes);
    let seq = sim.read(at);
    sim.drive();
    assert_eq!(sim.log, [(seq, "chunk:8".to_string())]);
}

#[test]
fn two_queued_reads_survive_gc_fifo_exact() {
    let mut sim = Sim::new();
    let at = sim.reader(memory("ab"), StreamMode::Bytes);
    let first = sim.read(at);
    let second = sim.read(at);
    sim.drive();
    assert_eq!(
        sim.log,
        [(first, "chunk:2".to_string()), (second, "done".to_string())]
    );
}

#[test]
fn gc_then_cancel_and_error_paths_settle() {
    let mut sim = Sim::new();
    let at = sim.reader(memory("cancel-me"), StreamMode::Bytes);
    let seq = sim.read(at);
    let settled = sim.handle.reader_cancel(at, false).expect("cancelled");
    sim.settle(settled);
    sim.drive();
    assert_eq!(sim.log, [(seq, "done".to_string())]);

    let mut sim = Sim::new();
    let at = sim.reader(failing(), StreamMode::Bytes);
    let seq = sim.read(at);
    sim.drive();
    assert_eq!(sim.log, [(seq, "dom:AbortError".to_string())]);
}

#[test]
fn errored_stream_rejects_with_mapped_dom_exception() {
    let mut sim = Sim::new();
    let data = failing();
    let (size_before, segments_before) = (data.size(), data.segment_count());
    let at = sim.reader(data.reference(), StreamMode::Bytes);
    let seq = sim.read(at);
    assert!(sim.log.is_empty());
    sim.drive();
    assert_eq!(sim.log, [(seq, "dom:AbortError".to_string())]);
    assert_eq!((data.size(), data.segment_count()), (size_before, segments_before));
}

#[test]
fn errored_stream_future_reads_reject_without_new_reads() {
    let mut sim = Sim::new();
    let at = sim.reader(failing(), StreamMode::Bytes);
    sim.read(at);
    sim.drive();
    let executed = sim.executed;
    sim.log.clear();
    sim.read(at);
    sim.drive();
    assert_eq!(sim.log, [(u64::MAX, "dom:AbortError".to_string())]);
    assert_eq!(sim.executed, executed);
}

#[test]
fn chunks_come_one_per_read() {
    let mut sim = Sim::with_limits(FileApiLimits {
        default_chunk_size: 16384,
        ..FileApiLimits::default()
    });
    let at = sim.reader(memory(&"z".repeat(40_000)), StreamMode::Bytes);
    sim.drive();
    assert_eq!(sim.executed, 0);
    let mut sizes = Vec::new();
    for _ in 0..4 {
        sim.read(at);
        assert_eq!(sim.tasks.len(), 1);
        sim.drive();
        sizes.push(sim.log.pop().expect("settled").1);
    }
    assert_eq!(sizes, ["chunk:16384", "chunk:16384", "chunk:7232", "done"]);
    assert!(!sim.handle.has_pending_io());
}

#[test]
fn text_chunks_join_to_the_text() {
    let mut sim = Sim::with_limits(FileApiLimits {
        default_chunk_size: 16384,
        ..FileApiLimits::default()
    });
    let text = "\u{20ac}".repeat(6000);
    let at = sim.reader(memory(&text), StreamMode::Text);
    let mut joined = String::new();
    loop {
        sim.read(at);
        sim.drive();
        let (_, entry) = sim.log.pop().expect("settled");
        match entry.strip_prefix("text:") {
            Some(piece) => joined.push_str(piece),
            None => break,
        }
    }
    assert_eq!(joined, text);
}

#[test]
fn leftover_text_bytes_end_as_replacements() {
    let mut sim = Sim::new();
    let data = BlobData::from_bytes(vec![0x61, 0xE2, 0x82], "", &FileApiLimits::default()).expect("blob");
    let at = sim.reader(data, StreamMode::Text);
    sim.read(at);
    sim.read(at);
    sim.read(at);
    sim.drive();
    let shown: Vec<&str> = sim.log.iter().map(|entry| entry.1.as_str()).collect();
    assert_eq!(shown, ["text:a", "text:\u{fffd}\u{fffd}", "done"]);
}

#[test]
fn a_stream_is_locked_by_one_reader() {
    let mut sim = Sim::new();
    let at = sim.stream(memory("x"), StreamMode::Bytes).expect("stream");
    let mut endpoint = ReaderEndpoint {
        claim: EndpointClaim::fresh(),
        released: false,
    };
    sim.handle.get_reader(at).expect("first");
    let error = sim.handle.get_reader(at).expect_err("locked");
    assert_eq!(error.message, "the stream is already locked");
    assert!(matches!(sim.handle.stream_cancel(at), StreamCancel::Refused(_)));
    assert!(sim.handle.reader_cancel(at, true).is_err());
    sim.read(at);
    let error = sim.handle.release_lock(at, &mut endpoint).expect_err("queued");
    assert_eq!(error.message, "cannot release the lock with queued read requests");
    sim.drive();
    sim.handle.release_lock(at, &mut endpoint).expect("released");
    let error = sim.handle.release_lock(at, &mut endpoint).expect_err("twice");
    assert_eq!(error.message, "the reader has been released");
    assert!(matches!(sim.handle.stream_cancel(at), StreamCancel::Cancelled(_)));
    assert!(get_reader(&mut sim.handle.streams[at], false).is_err());
}

#[test]
fn an_unread_stream_without_objects_gives_its_slot_up() {
    let mut sim = Sim::new();
    let at = sim.stream(memory("x"), StreamMode::Bytes).expect("stream");
    sim.handle.endpoint_dropped(at, false);
    assert_eq!(sim.handle.cleanups.len(), 1);
    let outcome = sim.handle.poll_io(Some(sim.found)).expect("poll");
    assert_eq!(outcome.abandoned, [sim.handle.streams[at].lease.operation]);
    assert!(!sim.handle.has_pending_io());
    assert_eq!(sim.handle.stream_ops.live_stream_operation_count(), 0);
    let outcome = sim.handle.poll_io(Some(sim.found)).expect("poll");
    assert!(outcome.abandoned.is_empty());
}

#[test]
fn streams_are_forgotten_when_they_are_over() {
    let mut sim = Sim::new();
    let first = sim.stream(memory("x"), StreamMode::Bytes).expect("first");
    let second = sim.stream(memory("y"), StreamMode::Bytes).expect("second");
    let kept = sim.handle.streams[second].lease.operation;
    sim.handle.forget_streams();
    assert_eq!(sim.handle.streams.len(), 2);
    sim.handle.endpoint_dropped(first, false);
    sim.handle.poll_io(Some(sim.found)).expect("poll");
    sim.handle.forget_streams();
    let left: Vec<u64> = sim.handle.streams.iter().map(|s| s.lease.operation).collect();
    assert_eq!(left, [kept]);
}

#[test]
fn an_unread_stream_holds_no_promise_up() {
    let mut sim = Sim::new();
    sim.stream(memory("unread"), StreamMode::Bytes).expect("stream");
    let StartPromise::Submit(task) = sim.handle.read_promise(&memory("text"), ReadMode::Text)
    else {
        panic!("refused");
    };
    assert!(sim.handle.push_completion(task.execute(&Failing, &Never, false)));
    let jobs = sim.handle.poll_io(Some(sim.found)).expect("poll").jobs;
    assert!(matches!(
        jobs.as_slice(),
        [PollJob::Promise { settlement: Settlement::Resolve(PromiseValue::Text(text)), .. }]
            if text == "text"
    ));
}

#[test]
fn a_demand_outlives_its_objects() {
    let mut sim = Sim::new();
    let at = sim.reader(memory("xyz"), StreamMode::Bytes);
    let seq = sim.read(at);
    for is_reader in [true, false] {
        sim.handle.endpoint_dropped(at, is_reader);
        assert!(sim.handle.cleanups.is_empty());
    }
    sim.drive();
    assert_eq!(sim.log, [(seq, "chunk:3".to_string())]);
    assert_eq!(sim.abandoned, [sim.handle.streams[at].lease.operation]);
    assert!(!sim.handle.has_pending_io());
}

#[test]
fn a_foreign_note_changes_nothing() {
    let mut sim = Sim::new();
    let at = sim.stream(memory("x"), StreamMode::Bytes).expect("stream");
    let lease = sim.handle.streams[at].lease;
    sim.handle.cleanups.push(boa_fapi::streams::CleanupRecord {
        context: 99,
        operation: lease.operation,
        generation: 1,
    });
    let outcome = sim.handle.poll_io(Some(sim.found)).expect("poll");
    assert!(outcome.abandoned.is_empty());
    assert!(sim.handle.cleanups.is_empty());
    assert!(sim.handle.has_pending_io());
}

#[test]
fn a_refused_submission_fails_the_stream() {
    let mut sim = Sim::new();
    let at = sim.reader(memory("x"), StreamMode::Bytes);
    let seq = sim.read(at);
    sim.tasks.clear();
    let settled = sim.handle.stream_submit_failed(at, FileIoSubmitError::WorkerLost);
    sim.settle(settled);
    assert_eq!(sim.log, [(seq, "dom:NotReadableError".to_string())]);
    assert!(!sim.handle.has_pending_io());
}

#[test]
fn a_chunk_that_cannot_be_packaged_fails_the_stream() {
    let mut sim = Sim::new();
    let at = sim.reader(memory("x"), StreamMode::Bytes);
    let first = sim.read(at);
    let second = sim.read(at);
    sim.work();
    let mut outcome = sim.handle.poll_io(Some(sim.found)).expect("poll");
    let Some(PollJob::Stream { step: StreamStep::Package { demand, .. }, .. }) = outcome.jobs.pop()
    else {
        panic!("no chunk");
    };
    let settled = sim.handle.chunk_packaging_failed(at, demand);
    sim.settle(settled);
    let rejected = "dom:NotReadableError".to_string();
    assert_eq!(sim.log, [(first, rejected.clone()), (second, rejected)]);
    assert!(!sim.handle.has_pending_io());
}

#[test]
fn streams_are_refused() {
    let mut sim = Sim::with_limits(FileApiLimits {
        max_concurrent_reads_per_global: 1,
        ..FileApiLimits::default()
    });
    sim.stream(memory("x"), StreamMode::Bytes).expect("first");
    assert!(matches!(
        sim.stream(memory("x"), StreamMode::Bytes),
        Err(StreamRefusal::Core(FileApiError::TooManyReads))
    ));
    let mut sim = Sim::with_limits(FileApiLimits {
        default_chunk_size: 1,
        ..FileApiLimits::default()
    });
    assert!(matches!(
        sim.stream(memory("x"), StreamMode::Bytes),
        Err(StreamRefusal::Js(error)) if error.kind == JsErrorKind::Type
            && error.message == "blob stream chunk size is out of range"
    ));
    let mut sim = Sim::new();
    sim.handle.shutdown();
    assert!(matches!(
        sim.stream(memory("x"), StreamMode::Bytes),
        Err(StreamRefusal::Js(error)) if error.message == "the File API runtime is shut down"
    ));
}
