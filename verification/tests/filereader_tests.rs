use std::cell::Cell;
use std::collections::VecDeque;

use boa_fapi::blob::{BlobData, ByteSource};
use boa_fapi::error::{FileApiError, Thrown};
use boa_fapi::execute::HostReader;
use boa_fapi::filereader::{
    buffered_chunk_count, finish_at_eof, finish_dispatch, poll_reader_once, run_dispatch,
    submit_first_chunk, DispatchJob, EventKind, FileReaderResult, PumpJob,
    PumpPhase, ReadRequest, ReaderEvent, StartRead,
};
use boa_fapi::ids::{FileApiContextId, IdCounter, RegistrationIdentity};
use boa_fapi::io::{FileIoSubmitError, FileReaderChunkTask};
use boa_fapi::limits::FileApiLimits;
use boa_fapi::poll::PollJob;
use boa_fapi::resource::CancelProbe;
use boa_fapi::{FileApiExtension, FileApiHandle};

const TEST_TIME: i64 = 1_700_000_000_000;

/// What the host's one resource does when it is read.
enum Answer {
    Bytes(Vec<u8>),
    Fixed(&'static [u8]),
    Fail(FileApiError),
}

struct Host {
    answer: Answer,
    reads: Cell<usize>,
}

impl HostReader for Host {
    fn read(&self, _handle: u64, offset: u64, len: u64) -> Result<Vec<u8>, FileApiError> {
        self.reads.set(self.reads.get() + 1);
        match &self.answer {
            Answer::Bytes(bytes) => Ok(bytes[offset as usize..(offset + len) as usize].to_vec()),
            Answer::Fixed(bytes) => Ok(bytes.to_vec()),
            Answer::Fail(error) => Err(*error),
        }
    }
}

struct Never;

impl CancelProbe for Never {
    fn is_cancelled(&self) -> bool {
        false
    }
}

enum Job {
    Pump(usize, PumpJob),
    Dispatch(usize, DispatchJob),
}

type Script = fn(&mut Sim, usize, ReaderEvent);

/// A host loop without a script engine.
struct Sim {
    handle: FileApiHandle,
    found: (FileApiContextId, RegistrationIdentity),
    host: Host,
    jobs: VecDeque<Job>,
    tasks: Vec<FileReaderChunkTask>,
    log: Vec<String>,
    script: Script,
    armed: bool,
}

impl Sim {
    fn new(limits: FileApiLimits, answer: Answer, script: Script) -> Self {
        let mut identities = IdCounter::new();
        let extension = FileApiExtension::builder().limits(limits).build(&mut identities);
        let context = FileApiContextId::from_raw(1);
        let found = (context, extension.config.identity);
        Sim {
            handle: FileApiHandle::new(extension.config, context),
            found,
            host: Host {
                answer,
                reads: Cell::new(0),
            },
            jobs: VecDeque::new(),
            tasks: Vec::new(),
            log: Vec::new(),
            script,
            armed: true,
        }
    }

    fn reader(&mut self) -> usize {
        let at = self.handle.readers.len();
        self.handle.add_reader(at as u64 + 10);
        at
    }

    fn start(&mut self, at: usize, request: ReadRequest) -> Option<Thrown> {
        let started = self.handle.start_read(at, request);
        match started {
            StartRead::Refused(thrown) => return Some(thrown),
            StartRead::Failed(job) => self.jobs.push_back(Job::Dispatch(at, job)),
            StartRead::AtEnd(job) => self.jobs.push_back(Job::Pump(at, job)),
            StartRead::Submit(task) => self.tasks.push(task),
        }
        None
    }

    fn abort(&mut self, at: usize) {
        let outcome = self.handle.abort(at);
        if let Some(job) = outcome.job {
            self.jobs.push_back(Job::Dispatch(at, job));
        }
    }

    fn fire(&mut self, at: usize, event: Option<ReaderEvent>) {
        if let Some(event) = event {
            (self.script)(self, at, event);
        }
    }

    fn pump(&mut self, at: usize, job: PumpJob) {
        let (generation, operation) = (job.generation, job.operation);
        let mut chunk = Some(job.chunk);
        let mut step = self.handle.run_pump(at, generation, operation, job.state);
        loop {
            self.fire(at, step.fire);
            step = match step.next {
                PumpPhase::Done => return,
                PumpPhase::Queue(job) => {
                    self.jobs.push_back(Job::Dispatch(at, job));
                    return;
                }
                PumpPhase::Submit(task) => {
                    self.tasks.push(task);
                    return;
                }
                PumpPhase::Apply(state) => {
                    let chunk = chunk.take().expect("one chunk");
                    self.handle
                        .apply_chunk(at, generation, operation, state, chunk, TEST_TIME)
                }
                PumpPhase::Continue(state) => {
                    self.handle.continue_pump(at, generation, operation, state)
                }
                PumpPhase::Finish(state) => {
                    finish_at_eof(&self.handle.readers[at], generation, state)
                }
                PumpPhase::Publish(state) => {
                    self.handle.publish_result(at, generation, operation, state)
                }
            };
        }
    }

    fn dispatch(&mut self, at: usize, job: DispatchJob) {
        let closed = self.handle.is_shutdown();
        let event = run_dispatch(&self.handle.readers[at], &job, closed);
        if event.is_some() {
            self.fire(at, event);
            if let Some(next) = finish_dispatch(&mut self.handle.readers[at], &job) {
                self.jobs.push_back(Job::Dispatch(at, next));
            }
        }
    }

    fn run_jobs(&mut self) {
        while let Some(job) = self.jobs.pop_front() {
            match job {
                Job::Pump(at, job) => self.pump(at, job),
                Job::Dispatch(at, job) => self.dispatch(at, job),
            }
        }
    }

    fn work(&mut self) {
        for task in std::mem::take(&mut self.tasks) {
            let completion = task.execute(&self.host, &Never, self.handle.is_shutdown());
            self.handle.push_reader_completion(completion);
        }
    }

    fn poll(&mut self) -> usize {
        let outcome = self.handle.poll_io(Some(self.found)).expect("own context");
        let settled = outcome.jobs.len();
        for job in outcome.jobs {
            match job {
                PollJob::Reader { reader, job } => {
                    let at = self.handle.readers.iter().position(|r| r.key == reader);
                    self.jobs.push_back(Job::Pump(at.expect("reader"), job));
                }
                _ => panic!("only readers here"),
            }
        }
        settled
    }

    fn drain(&mut self) {
        for _ in 0..50 {
            self.work();
            self.poll();
            self.run_jobs();
            if self.tasks.is_empty() && self.jobs.is_empty() {
                return;
            }
        }
        panic!("not quiescent");
    }

    fn state(&self, at: usize) -> String {
        let native = &self.handle.readers[at];
        let result = match &native.result {
            None => "null",
            Some(FileReaderResult::Bytes(_)) => "object",
            Some(_) => "string",
        };
        let error = match &native.error {
            None => "null",
            Some(error) => error.name,
        };
        format!("{}:{}:{}", native.ready_state, result, error)
    }

    fn text_result(&self, at: usize) -> String {
        match &self.handle.readers[at].result {
            Some(FileReaderResult::Text(text)) => text.clone(),
            other => panic!("no text: {other:?}"),
        }
    }

    fn assert_quota_recovered(&mut self) {
        let script = self.script;
        self.script = silent;
        let at = self.reader();
        assert!(self.start(at, ReadRequest::text(memory("ok"), None)).is_none());
        self.drain();
        assert_eq!(self.text_result(at), "ok", "quota slot must be released after failure");
        self.script = script;
    }
}

fn silent(_sim: &mut Sim, _at: usize, _event: ReaderEvent) {}

fn log_all(sim: &mut Sim, at: usize, event: ReaderEvent) {
    let entry = format!("{}:{}", event.kind.name(), sim.state(at));
    sim.log.push(entry);
}

fn log_names(sim: &mut Sim, _at: usize, event: ReaderEvent) {
    sim.log.push(event.kind.name().to_string());
}

fn memory(text: &str) -> BlobData {
    BlobData::from_bytes(text.as_bytes().to_vec(), "", &FileApiLimits::default()).expect("blob")
}

fn resource(len: u64) -> BlobData {
    BlobData::from_source(ByteSource::Host { handle: 1, len }, "", &FileApiLimits::default())
        .expect("blob")
}

fn quota_one_limits() -> FileApiLimits {
    FileApiLimits {
        max_concurrent_reads_per_global: 1,
        ..FileApiLimits::default()
    }
}

fn failing_read(answer: Answer, len: u64) {
    let mut sim = Sim::new(quota_one_limits(), answer, log_all);
    let at = sim.reader();
    assert!(sim.start(at, ReadRequest::array_buffer(resource(len))).is_none());
    sim.drain();
    assert_eq!(
        sim.log.join("|"),
        "loadstart:1:null:null|error:2:null:NotReadableError|loadend:2:null:NotReadableError"
    );
    assert_eq!(sim.state(at), "2:null:NotReadableError");
    sim.assert_quota_recovered();
}

#[test]
fn short_source_response_fails_as_not_readable_error() {
    failing_read(Answer::Fixed(b"shor"), 5);
}

#[test]
fn long_source_response_fails_as_not_readable_error() {
    failing_read(Answer::Fixed(b"toolong!"), 5);
}

#[test]
fn failing_source_fails_as_not_readable_error() {
    failing_read(Answer::Fail(FileApiError::FileLocked), 3);
}

#[test]
fn loadstart_abort_performs_no_source_read() {
    fn script(sim: &mut Sim, at: usize, event: ReaderEvent) {
        sim.log.push(event.kind.name().to_string());
        if event.kind == EventKind::LoadStart {
            sim.abort(at);
        }
    }
    let mut sim = Sim::new(quota_one_limits(), Answer::Bytes(b"abc".to_vec()), script);
    let at = sim.reader();
    sim.start(at, ReadRequest::array_buffer(resource(3)));
    sim.drain();
    assert_eq!(
        sim.host.reads.get(),
        1,
        "worker produced the first chunk off-thread; the stale pump must drop it unread"
    );
    assert_eq!(sim.log.join("|"), "loadstart|abort|loadend");
    assert_eq!(sim.state(at), "2:null:null");
    sim.assert_quota_recovered();
}

#[test]
fn loadstart_abort_then_restart_emits_only_new_operation() {
    fn script(sim: &mut Sim, at: usize, event: ReaderEvent) {
        sim.log.push(event.kind.name().to_string());
        if event.kind == EventKind::LoadStart && sim.armed {
            sim.armed = false;
            sim.abort(at);
            assert!(sim.start(at, ReadRequest::text(memory("new"), None)).is_none());
        }
    }
    let mut sim = Sim::new(quota_one_limits(), Answer::Bytes(b"old".to_vec()), script);
    let at = sim.reader();
    sim.start(at, ReadRequest::array_buffer(resource(3)));
    sim.drain();
    sim.drain();
    assert_eq!(
        sim.host.reads.get(),
        1,
        "old worker produced one chunk off-thread; the stale pump drops it unread"
    );
    assert_eq!(
        sim.log.join("|"),
        "loadstart|loadstart|progress|load|loadend",
        "old abort/loadend are stale and emit nothing"
    );
    assert_eq!(sim.text_result(at), "new");
    sim.assert_quota_recovered();
}

#[test]
fn progress_abort_freezes_source_reads() {
    fn script(sim: &mut Sim, at: usize, event: ReaderEvent) {
        sim.log.push(format!("{}:{}", event.kind.name(), event.loaded));
        if event.kind == EventKind::Progress {
            sim.abort(at);
        }
    }
    let limits = FileApiLimits {
        default_chunk_size: 16 * 1024,
        ..FileApiLimits::default()
    };
    let mut sim = Sim::new(limits, Answer::Bytes(vec![7_u8; 3 * 16384]), script);
    let at = sim.reader();
    sim.start(at, ReadRequest::array_buffer(resource(3 * 16384)));
    sim.drain();
    sim.drain();
    assert_eq!(
        sim.host.reads.get(),
        1,
        "no chunk may be produced after the aborting progress handler"
    );
    assert_eq!(
        sim.log.join("|"),
        "loadstart:0|progress:16384|abort:16384|loadend:16384"
    );
    assert_eq!(sim.state(at), "2:null:null");
}

#[test]
fn error_handler_restart_suppresses_old_loadend() {
    fn script(sim: &mut Sim, at: usize, event: ReaderEvent) {
        sim.log.push(event.kind.name().to_string());
        if event.kind == EventKind::Error {
            assert!(sim.start(at, ReadRequest::text(memory("ok"), None)).is_none());
        }
    }
    let mut sim = Sim::new(quota_one_limits(), Answer::Fail(FileApiError::FileLocked), script);
    let at = sim.reader();
    sim.start(at, ReadRequest::array_buffer(resource(3)));
    sim.drain();
    sim.drain();
    assert_eq!(
        sim.log.join("|"),
        "loadstart|error|loadstart|progress|load|loadend",
        "old loadend is suppressed, new operation completes"
    );
    assert_eq!(sim.text_result(at), "ok");
    assert_eq!(sim.state(at), "2:string:null");
    sim.assert_quota_recovered();
}

#[test]
fn every_kind_of_result() {
    let mut sim = Sim::new(FileApiLimits::default(), Answer::Bytes(b"hi".to_vec()), silent);
    let bytes = sim.reader();
    sim.start(bytes, ReadRequest::array_buffer(resource(2)));
    let binary = sim.reader();
    sim.start(binary, ReadRequest::binary_string(resource(2)));
    let url = sim.reader();
    sim.start(url, ReadRequest::data_url(resource(2)));
    let text = sim.reader();
    sim.start(text, ReadRequest::text(memory("caf\u{e9}"), Some("utf-8")));
    sim.drain();
    assert!(matches!(&sim.handle.readers[bytes].result, Some(FileReaderResult::Bytes(b)) if b == b"hi"));
    assert!(matches!(&sim.handle.readers[binary].result, Some(FileReaderResult::BinaryString(s)) if s == "hi"));
    assert_eq!(sim.text_result(url), "data:;base64,aGk=");
    assert_eq!(sim.text_result(text), "caf\u{e9}");
}

#[test]
fn an_empty_blob_loads_at_once() {
    let mut sim = Sim::new(FileApiLimits::default(), Answer::Fixed(b""), log_names);
    let at = sim.reader();
    sim.start(at, ReadRequest::text(memory(""), None));
    assert!(sim.tasks.is_empty());
    sim.drain();
    assert_eq!(sim.log.join("|"), "loadstart|progress|load|loadend");
    assert_eq!(sim.text_result(at), "");
}

#[test]
fn a_busy_reader_refuses_another_read() {
    let mut sim = Sim::new(FileApiLimits::default(), Answer::Bytes(b"abc".to_vec()), silent);
    let at = sim.reader();
    sim.start(at, ReadRequest::text(resource(3), None));
    let thrown = sim.start(at, ReadRequest::text(memory("x"), None));
    assert!(matches!(thrown, Some(Thrown::Dom(error)) if error.name == "InvalidStateError"));
    sim.drain();
    assert_eq!(sim.text_result(at), "abc");
}

#[test]
fn too_many_reads_fail_with_a_security_error() {
    let mut sim = Sim::new(quota_one_limits(), Answer::Bytes(b"abc".to_vec()), log_all);
    let first = sim.reader();
    let second = sim.reader();
    sim.start(first, ReadRequest::text(resource(3), None));
    sim.start(second, ReadRequest::text(resource(3), None));
    sim.run_jobs();
    assert_eq!(
        sim.log.join("|"),
        "error:2:null:SecurityError|loadend:2:null:SecurityError"
    );
    sim.drain();
    assert_eq!(sim.text_result(first), "abc");
}

#[test]
fn a_data_url_over_the_limit_is_refused() {
    let limits = FileApiLimits {
        max_data_url_output: 10,
        ..FileApiLimits::default()
    };
    let mut sim = Sim::new(limits, Answer::Fixed(b""), log_all);
    let at = sim.reader();
    sim.start(at, ReadRequest::data_url(resource(2)));
    sim.drain();
    assert_eq!(sim.host.reads.get(), 0);
    assert_eq!(sim.state(at), "2:null:QuotaExceededError");
}

#[test]
fn a_bad_chunk_size_is_thrown() {
    let limits = FileApiLimits {
        default_chunk_size: 1,
        ..FileApiLimits::default()
    };
    let mut sim = Sim::new(limits, Answer::Fixed(b""), silent);
    let at = sim.reader();
    let thrown = sim.start(at, ReadRequest::text(memory("x"), None));
    assert!(matches!(thrown, Some(Thrown::Js(error)) if error.message == "the read chunk size is out of range"));
    assert!(!sim.handle.has_pending_io());
}

#[test]
fn a_first_chunk_can_be_asked_for_again() {
    let mut sim = Sim::new(quota_one_limits(), Answer::Bytes(b"abc".to_vec()), log_names);
    let at = sim.reader();
    sim.start(at, ReadRequest::text(resource(3), None));
    let lost = sim.tasks.pop().expect("task");
    let handle = &sim.handle;
    let again = |operation, closed| {
        poll_reader_once(&handle.reader_ops, &handle.readers[at], &handle.bridge, operation, closed)
    };
    let operation = lost.operation_id().get();
    assert!(again(operation, true).is_none());
    assert!(again(operation + 1, false).is_none());
    let task = again(operation, false).expect("task");
    assert_eq!((task.generation(), task.offset(), task.len()), (lost.generation(), 0, 3));
    sim.tasks.push(task);
    sim.drain();
    assert_eq!(sim.text_result(at), "abc");
    let handle = &sim.handle;
    assert!(submit_first_chunk(
        &handle.reader_ops,
        &handle.readers[at],
        &handle.bridge,
        operation,
        lost.generation()
    )
    .is_none());
}

#[test]
fn the_sixty_fifth_reader_is_refused() {
    let mut sim = Sim::new(FileApiLimits::default(), Answer::Bytes(b"abc".to_vec()), log_all);
    for _ in 0..65 {
        let at = sim.reader();
        assert!(sim.start(at, ReadRequest::text(resource(3), None)).is_none());
    }
    assert_eq!(sim.tasks.len(), 64);
    assert_eq!(sim.state(64), "2:null:SecurityError");
}

#[test]
fn a_refused_next_submission_fails_the_read() {
    let limits = FileApiLimits {
        default_chunk_size: 16384,
        ..quota_one_limits()
    };
    let bytes = vec![7; 40_000];
    let mut sim = Sim::new(limits, Answer::Bytes(bytes), log_names);
    let at = sim.reader();
    sim.start(at, ReadRequest::array_buffer(resource(40_000)));
    sim.work();
    sim.poll();
    sim.run_jobs();
    let task = sim.tasks.pop().expect("second chunk");
    assert_eq!((task.offset(), task.len()), (16384, 16384));
    let error = FileIoSubmitError::QueueFull;
    let job = sim.handle.next_submit_failed(at, &task, 40_000, error);
    sim.jobs.push_back(Job::Dispatch(at, job.expect("job")));
    sim.drain();
    assert_eq!(sim.state(at), "2:null:SecurityError");
    assert!(!sim.handle.has_pending_io());
}

#[test]
fn a_refused_submission_fails_the_read() {
    let mut sim = Sim::new(quota_one_limits(), Answer::Bytes(b"abc".to_vec()), log_names);
    let at = sim.reader();
    sim.start(at, ReadRequest::text(resource(3), None));
    let task = sim.tasks.pop().expect("task");
    let error = FileIoSubmitError::WorkerLost;
    let job = sim.handle.first_submit_failed(at, &task, 3, error);
    sim.jobs.push_back(Job::Dispatch(at, job.expect("job")));
    sim.drain();
    assert_eq!(sim.log.join("|"), "error|loadend");
    assert_eq!(sim.state(at), "2:null:NotReadableError");
    sim.assert_quota_recovered();
}

#[test]
fn many_chunks_make_one_result() {
    let limits = FileApiLimits {
        default_chunk_size: 16 * 1024,
        ..FileApiLimits::default()
    };
    let bytes: Vec<u8> = (0..50_000_u32).map(|i| (i % 251) as u8).collect();
    let mut sim = Sim::new(limits, Answer::Bytes(bytes.clone()), log_names);
    let at = sim.reader();
    sim.start(at, ReadRequest::array_buffer(resource(50_000)));
    sim.drain();
    assert_eq!(sim.host.reads.get(), 4);
    assert_eq!(buffered_chunk_count(50_000, 16 * 1024), 4);
    assert!(matches!(&sim.handle.readers[at].result, Some(FileReaderResult::Bytes(b)) if *b == bytes));
    assert_eq!(sim.log.join("|"), "loadstart|progress|progress|load|loadend");
}

#[test]
fn a_budget_leaves_chunks_for_the_next_poll() {
    let mut sim = Sim::new(FileApiLimits::default(), Answer::Bytes(b"abc".to_vec()), silent);
    let readers: Vec<usize> = (0..3).map(|_| sim.reader()).collect();
    for at in &readers {
        sim.start(*at, ReadRequest::text(resource(3), None));
    }
    sim.handle.set_poll_io_budget(Some(2));
    sim.work();
    let outcome = sim.handle.poll_io(Some(sim.found)).expect("poll");
    assert_eq!(outcome.jobs.len(), 2);
    assert!(outcome.wake);
    let outcome = sim.handle.poll_io(Some(sim.found)).expect("poll");
    assert_eq!(outcome.jobs.len(), 1);
    assert!(!outcome.wake);
    sim.handle.set_poll_io_budget(Some(0));
    let outcome = sim.handle.poll_io(Some(sim.found)).expect("poll");
    assert!(outcome.jobs.is_empty() && !outcome.wake);
}

#[test]
fn readers_are_forgotten_by_their_key() {
    let mut sim = Sim::new(FileApiLimits::default(), Answer::Bytes(b"abc".to_vec()), silent);
    let readers: Vec<usize> = (0..3).map(|_| sim.reader()).collect();
    let keys: Vec<u64> = readers.iter().map(|at| sim.handle.readers[*at].key).collect();
    sim.handle.forget_reader(keys[1]);
    sim.handle.forget_reader(99);
    let left: Vec<u64> = sim.handle.readers.iter().map(|reader| reader.key).collect();
    assert_eq!(left, [keys[0], keys[2]]);
}

#[test]
fn a_chunk_put_back_is_settled_next() {
    let mut sim = Sim::new(FileApiLimits::default(), Answer::Bytes(b"abc".to_vec()), silent);
    let readers: Vec<usize> = (0..2).map(|_| sim.reader()).collect();
    for at in &readers {
        sim.start(*at, ReadRequest::text(resource(3), None));
    }
    sim.handle.set_poll_io_budget(Some(1));
    sim.work();
    for (turn, at) in readers.iter().enumerate() {
        let key = sim.handle.readers[*at].key;
        let outcome = sim.handle.poll_io(Some(sim.found)).expect("poll");
        assert!(matches!(
            outcome.jobs.as_slice(),
            [PollJob::Reader { reader, .. }] if *reader == key
        ));
        assert_eq!(outcome.wake, turn == 0);
    }
}

#[test]
fn nothing_fires_after_shutdown() {
    let mut sim = Sim::new(FileApiLimits::default(), Answer::Bytes(b"abc".to_vec()), log_names);
    let at = sim.reader();
    sim.start(at, ReadRequest::text(resource(3), None));
    sim.work();
    let work = sim.handle.shutdown();
    assert_eq!(work.cancelled, [1]);
    assert_eq!(sim.poll(), 0);
    sim.run_jobs();
    assert!(sim.log.is_empty());
    let late = sim.reader();
    sim.start(late, ReadRequest::text(memory("x"), None));
    assert_eq!(sim.state(late), "2:null:AbortError");
    assert!(sim.handle.shutdown().cancelled.is_empty());
}

#[test]
fn a_foreign_context_is_not_polled() {
    let mut sim = Sim::new(FileApiLimits::default(), Answer::Bytes(b"abc".to_vec()), silent);
    let at = sim.reader();
    sim.start(at, ReadRequest::text(resource(3), None));
    sim.work();
    assert!(sim.handle.poll_io(None).is_err());
    let foreign = (FileApiContextId::from_raw(2), sim.found.1);
    assert!(sim.handle.poll_io(Some(foreign)).is_err());
    assert_eq!(sim.poll(), 1);
}

#[test]
fn abort_of_an_idle_reader_clears_its_result() {
    let mut sim = Sim::new(FileApiLimits::default(), Answer::Bytes(b"abc".to_vec()), log_names);
    let at = sim.reader();
    sim.start(at, ReadRequest::text(resource(3), None));
    sim.drain();
    assert_eq!(sim.state(at), "2:string:null");
    sim.log.clear();
    sim.abort(at);
    sim.drain();
    assert!(sim.log.is_empty());
    assert_eq!(sim.state(at), "2:null:null");
}
