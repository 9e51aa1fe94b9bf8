//! The `FileReader` state machine.
//!
//! A read runs as a chain of jobs. Chunks are read by workers; a job applies
//! one chunk, fires `loadstart` and `progress` while it runs, and asks for the
//! next chunk. Terminal events are queued as jobs of their own. Handlers run
//! while a job is under way and may abort the read or start another one: after
//! every event the generation of the reader is compared again, and a job whose
//! generation is gone does nothing more.
//!
//! The host fires the events, submits the chunk requests and queues the jobs
//! that the functions of this module return.

use vstd::prelude::*;

use crate::blob::BlobData;
use crate::bridge::{
    is_chunked, is_live, reservation_refused, reservation_undone, slot_of, slot_released,
    slot_reserved, IoBridge,
};
use crate::dom::{map_core_error, mapped_error};
use crate::error::{type_error, DomException, FileApiError, JsErrorKind, ResourceLimitKind, Thrown};
use crate::ids::FileIoOperationId;
use crate::io::{
    ChunkKind, ChunkWindow, FileIoSubmitError, FileReaderChunkCompletion, FileReaderChunkTask,
};
use crate::limits::{FileApiLimits, MAX_CHUNK, MIN_CHUNK};
use crate::package::{
    append_decoded_text, append_refused, binary_string, completed_piece, data_url, data_url_len,
    data_url_size, decoded_text, decoding_refused, package_binary_string, package_data_url,
    resolve_text_encoding, IncrementalDecoder, TextEncoding,
};
use crate::read::append_bytes;

verus! {

/// No operation was started.
pub const EMPTY: u8 = 0;

/// An operation is under way.
pub const LOADING: u8 = 1;

/// The last operation is over.
pub const DONE: u8 = 2;

/// Milliseconds between two `progress` events.
pub const PROGRESS_INTERVAL: i64 = 50;

/// The operation number of jobs that hold no slot.
pub const NO_OPERATION: u64 = u64::MAX;

/// What a read packages its bytes as.
#[derive(Clone, Copy, Debug, PartialEq, Eq, Structural)]
pub enum ReadKind {
    /// The bytes themselves.
    ArrayBuffer,
    /// One character per byte.
    BinaryString,
    /// Decoded text.
    Text,
    /// A data URL.
    DataUrl,
}

/// How an operation ended.
#[derive(Clone, Copy, Debug, PartialEq, Eq, Structural)]
pub enum TerminalKind {
    /// With a result.
    Load,
    /// With a failure.
    Error,
    /// By `abort()`.
    Abort,
}

/// The events of a `FileReader`.
#[derive(Clone, Copy, Debug, PartialEq, Eq, Structural)]
pub enum EventKind {
    /// The first chunk arrived.
    LoadStart,
    /// More bytes arrived.
    Progress,
    /// The result is there.
    Load,
    /// The read failed.
    Error,
    /// The read was aborted.
    Abort,
    /// The operation is over.
    LoadEnd,
}

impl EventKind {
    /// The event type.
    pub open spec fn spec_name(self) -> Seq<char> {
        match self {
            EventKind::LoadStart => "loadstart"@,
            EventKind::Progress => "progress"@,
            EventKind::Load => "load"@,
            EventKind::Error => "error"@,
            EventKind::Abort => "abort"@,
            EventKind::LoadEnd => "loadend"@,
        }
    }

    /// The event type.
    pub fn name(&self) -> (name: &'static str)
        ensures
            name@ == self.spec_name(),
    {
        match self {
            EventKind::LoadStart => "loadstart",
            EventKind::Progress => "progress",
            EventKind::Load => "load",
            EventKind::Error => "error",
            EventKind::Abort => "abort",
            EventKind::LoadEnd => "loadend",
        }
    }
}

/// A progress event to fire.
#[derive(Clone, Copy, Debug, PartialEq, Eq, Structural)]
pub struct ReaderEvent {
    /// Which event.
    pub kind: EventKind,
    /// Bytes read so far.
    pub loaded: u64,
    /// Bytes of the whole read.
    pub total: u64,
}

/// A queued job that fires one event.
#[derive(Clone, Copy, Debug, PartialEq, Eq, Structural)]
pub struct DispatchJob {
    /// The generation that the event belongs to.
    pub generation: u64,
    /// The operation that it belongs to.
    pub operation: u64,
    /// The event.
    pub event: ReaderEvent,
    /// How the operation ended, for the event that says so.
    pub terminal: Option<TerminalKind>,
}

/// A successful result.
#[derive(Clone, Debug)]
pub enum FileReaderResult {
    /// Text or a data URL.
    Text(String),
    /// Bytes.
    Bytes(Vec<u8>),
    /// One character per byte.
    BinaryString(String),
}

/// The contents of a result.
pub enum ResultView {
    /// Text or a data URL.
    Text(Seq<char>),
    /// Bytes.
    Bytes(Seq<u8>),
    /// One character per byte.
    BinaryString(Seq<char>),
}

impl View for FileReaderResult {
    type V = ResultView;

    open spec fn view(&self) -> ResultView {
        match *self {
            FileReaderResult::Text(text) => ResultView::Text(text@),
            FileReaderResult::Bytes(bytes) => ResultView::Bytes(bytes@),
            FileReaderResult::BinaryString(text) => ResultView::BinaryString(text@),
        }
    }
}

/// The state of one `FileReader` object.
#[derive(Debug)]
pub struct FileReaderNative {
    /// The number that the host gave the object.
    pub key: u64,
    /// `EMPTY`, `LOADING` or `DONE`.
    pub ready_state: u8,
    /// The result, if there is one.
    pub result: Option<FileReaderResult>,
    /// The failure, if there is one.
    pub error: Option<DomException>,
    /// The generation of the last operation.
    pub generation: u64,
    /// Whether this generation has fired its terminal event.
    pub terminal_dispatched: bool,
    /// Bytes of the last operation.
    pub total: u64,
    /// Bytes read so far by the last operation.
    pub loaded: u64,
}

/// The contents of a [`FileReaderNative`].
pub struct ReaderView {
    /// The number that the host gave the object.
    pub key: u64,
    /// `EMPTY`, `LOADING` or `DONE`.
    pub ready_state: u8,
    /// The result, if there is one.
    pub result: Option<ResultView>,
    /// The name and message of the failure, if there is one.
    pub error: Option<(Seq<char>, Seq<char>)>,
    /// The generation of the last operation.
    pub generation: u64,
    /// Whether this generation has fired its terminal event.
    pub terminal_dispatched: bool,
    /// Bytes of the last operation.
    pub total: u64,
    /// Bytes read so far by the last operation.
    pub loaded: u64,
}

impl View for FileReaderNative {
    type V = ReaderView;

    open spec fn view(&self) -> ReaderView {
        ReaderView {
            key: self.key,
            ready_state: self.ready_state,
            result: match self.result {
                Some(result) => Some(result@),
                None => None,
            },
            error: match self.error {
                Some(error) => Some(error@),
                None => None,
            },
            generation: self.generation,
            terminal_dispatched: self.terminal_dispatched,
            total: self.total,
            loaded: self.loaded,
        }
    }
}

/// A reader without an operation.
pub open spec fn fresh_reader(key: u64) -> ReaderView {
    ReaderView {
        key,
        ready_state: EMPTY,
        result: None,
        error: None,
        generation: 0,
        terminal_dispatched: false,
        total: 0,
        loaded: 0,
    }
}

impl FileReaderNative {
    /// A reader without an operation.
    pub fn fresh(key: u64) -> (native: FileReaderNative)
        ensures
            native@ == fresh_reader(key),
    {
        FileReaderNative {
            key,
            ready_state: EMPTY,
            result: None,
            error: None,
            generation: 0,
            terminal_dispatched: false,
            total: 0,
            loaded: 0,
        }
    }
}

/// The reader after a failure that consumed no bytes of this operation.
pub open spec fn failed_reader(
    reader: ReaderView,
    generation: u64,
    total: u64,
    error: (Seq<char>, Seq<char>),
) -> ReaderView {
    ReaderView {
        ready_state: DONE,
        result: None,
        error: Some(error),
        generation,
        terminal_dispatched: false,
        total,
        loaded: 0,
        ..reader
    }
}

/// The reader at the start of an operation.
pub open spec fn loading_reader(reader: ReaderView, generation: u64, total: u64) -> ReaderView {
    ReaderView {
        ready_state: LOADING,
        result: None,
        error: None,
        generation,
        terminal_dispatched: false,
        total,
        loaded: 0,
        ..reader
    }
}

/// The job that fires `error`.
pub open spec fn error_job(generation: u64, operation: u64, total: u64) -> DispatchJob {
    DispatchJob {
        generation,
        operation,
        event: ReaderEvent { kind: EventKind::Error, loaded: 0, total },
        terminal: Some(TerminalKind::Error),
    }
}

/// The counters of one context.
#[derive(Clone, Copy, Debug, PartialEq, Eq, Structural)]
pub struct FileReadingQueue {
    /// Operations under way.
    pub active: usize,
    /// The next generation.
    pub next_generation: u64,
}

/// The generation that comes after `generation`; zero is skipped.
pub open spec fn generation_after(generation: u64) -> u64 {
    if generation == u64::MAX {
        1
    } else {
        (generation + 1) as u64
    }
}

/// The generation that is issued next.
pub open spec fn issued_generation(queue: FileReadingQueue) -> u64 {
    if queue.next_generation == 0 {
        1
    } else {
        queue.next_generation
    }
}

impl FileReadingQueue {
    /// No operation and no generation yet.
    pub fn fresh() -> (queue: FileReadingQueue)
        ensures
            queue == (FileReadingQueue { active: 0, next_generation: 1 }),
    {
        FileReadingQueue { active: 0, next_generation: 1 }
    }
}

/// Issues the next generation. It is never zero and differs from the one
/// issued before.
pub fn next_generation(queue: &mut FileReadingQueue) -> (generation: u64)
    ensures
        generation == issued_generation(*old(queue)),
        generation != 0,
        *final(queue) == (FileReadingQueue {
            next_generation: generation_after(generation),
            ..*old(queue)
        }),
        issued_generation(*final(queue)) != generation,
{
    let generation: u64 = if queue.next_generation == 0 {
        1
    } else {
        queue.next_generation
    };
    queue.next_generation = if generation == u64::MAX {
        1
    } else {
        generation + 1
    };
    generation
}

/// The packaging state of one read, handed from job to job.
pub struct PumpState {
    /// Bytes of the whole read.
    pub total: u64,
    /// The ceilings when the read started.
    pub limits: FileApiLimits,
    /// Bytes per chunk request.
    pub chunk_size: usize,
    /// What to package the bytes as.
    pub kind: ReadKind,
    /// The encoding of a text read.
    pub encoding: TextEncoding,
    /// The media type of a data URL.
    pub media_type: String,
    /// The ceiling of a data URL.
    pub data_url_limit: u64,
    /// Bytes consumed so far.
    pub loaded: u64,
    /// When the last `progress` fired; `i64::MIN` before the first.
    pub last_progress_at: i64,
    /// Whether `loadstart` fired.
    pub loadstart_sent: bool,
    /// The bytes so far, unless text is decoded.
    pub buffered: Vec<u8>,
    /// The text so far.
    pub text: String,
    /// The decoder of a text read.
    pub decoder: IncrementalDecoder,
    /// Whether the last `progress` fired.
    pub final_progress_sent: bool,
}

impl PumpState {
    /// The bytes consumed so far.
    pub open spec fn consumed(self) -> Seq<u8> {
        if self.kind == ReadKind::Text {
            self.decoder.consumed()
        } else {
            self.buffered@
        }
    }

    /// Text so far is what the decoder has emitted; the decoder of other reads
    /// is untouched; no more is loaded than there is.
    pub open spec fn wf(self) -> bool {
        &&& self.decoder.wf()
        &&& !self.decoder.is_finished()
        &&& self.kind == ReadKind::Text ==> self.text@ == self.decoder.emitted()
        &&& self.decoder.effective(self.encoding) == self.encoding.spec_name()
        &&& self.loaded <= self.total
        &&& MIN_CHUNK <= self.chunk_size <= MAX_CHUNK
    }

    /// Everything but the progress of the read is the same.
    pub open spec fn same_read(self, other: PumpState) -> bool {
        &&& self.total == other.total
        &&& self.limits == other.limits
        &&& self.chunk_size == other.chunk_size
        &&& self.kind == other.kind
        &&& self.encoding == other.encoding
        &&& self.media_type == other.media_type
        &&& self.data_url_limit == other.data_url_limit
    }
}

/// A queued job that applies one chunk.
pub struct PumpJob {
    /// The generation of the read.
    pub generation: u64,
    /// The operation of the read.
    pub operation: u64,
    /// The packaging state.
    pub state: PumpState,
    /// What came of the chunk request.
    pub chunk: ChunkKind,
}

/// One operation under way.
pub struct ReaderOp {
    /// The operation.
    pub operation: u64,
    /// The reader that started it.
    pub reader: u64,
    /// Its generation.
    pub generation: u64,
    /// What it reads.
    pub data: BlobData,
    /// The packaging state while a chunk is being read.
    pub pump: Option<PumpState>,
}

/// The position of `operation` among `ops`, if it is there.
pub open spec fn op_of(ops: Seq<ReaderOp>, operation: u64) -> Option<int>
    decreases ops.len(),
{
    if ops.len() == 0 {
        None
    } else if ops.last().operation == operation {
        Some(ops.len() - 1)
    } else {
        op_of(ops.drop_last(), operation)
    }
}

/// The position of the operation of `reader` among `ops`, if it has one.
pub open spec fn op_of_reader(ops: Seq<ReaderOp>, reader: u64) -> Option<int>
    decreases ops.len(),
{
    if ops.len() == 0 {
        None
    } else if ops.last().reader == reader {
        Some(ops.len() - 1)
    } else {
        op_of_reader(ops.drop_last(), reader)
    }
}

pub(crate) proof fn lemma_op_of(ops: Seq<ReaderOp>, operation: u64)
    ensures
        match op_of(ops, operation) {
            Some(i) => 0 <= i < ops.len() && ops[i].operation == operation,
            None => forall|i: int| 0 <= i < ops.len() ==> (#[trigger] ops[i]).operation != operation,
        },
    decreases ops.len(),
{
    if ops.len() > 0 && ops.last().operation != operation {
        let front = ops.drop_last();
        lemma_op_of(front, operation);
        assert forall|i: int| 0 <= i < front.len() implies front[i] == #[trigger] ops[i] by {}
    }
}

proof fn lemma_op_of_reader(ops: Seq<ReaderOp>, reader: u64)
    ensures
        match op_of_reader(ops, reader) {
            Some(i) => 0 <= i < ops.len() && ops[i].reader == reader,
            None => forall|i: int| 0 <= i < ops.len() ==> (#[trigger] ops[i]).reader != reader,
        },
    decreases ops.len(),
{
    if ops.len() > 0 && ops.last().reader != reader {
        let front = ops.drop_last();
        lemma_op_of_reader(front, reader);
        assert forall|i: int| 0 <= i < front.len() implies front[i] == #[trigger] ops[i] by {}
    }
}

/// The `FileReader` operations of one context.
pub struct ReaderTable {
    /// The operations under way.
    pub ops: Vec<ReaderOp>,
    /// The counters.
    pub queue: FileReadingQueue,
}

/// No operation occurs twice.
pub open spec fn ops_distinct(ops: Seq<ReaderOp>) -> bool {
    forall|i: int, j: int|
        0 <= i < j < ops.len() ==> (#[trigger] ops[i]).operation != (#[trigger] ops[j]).operation
}

/// Every operation holds a slot of the bridge for reading in chunks, unless the
/// bridge is closed.
pub open spec fn ops_reserved(ops: Seq<ReaderOp>, bridge: IoBridge) -> bool {
    bridge.is_closed() || forall|i: int|
        0 <= i < ops.len() ==> is_chunked(bridge.slots(), (#[trigger] ops[i]).operation)
}

/// The payloads and packaging states are well-formed.
pub open spec fn ops_wf(ops: Seq<ReaderOp>) -> bool {
    forall|i: int|
        0 <= i < ops.len() ==> (#[trigger] ops[i]).data.wf() && (ops[i].pump matches Some(state)
            ==> state.wf())
}

impl ReaderTable {
    /// The active count is that of the operations, which are distinct and
    /// well-formed.
    pub open spec fn wf(self) -> bool {
        &&& self.queue.active == self.ops@.len()
        &&& ops_distinct(self.ops@)
        &&& ops_wf(self.ops@)
    }

    /// A table without operations.
    pub fn new() -> (table: ReaderTable)
        ensures
            table.wf(),
            table.ops@ == Seq::<ReaderOp>::empty(),
            table.queue == (FileReadingQueue { active: 0, next_generation: 1 }),
    {
        ReaderTable { ops: Vec::new(), queue: FileReadingQueue::fresh() }
    }

    /// The number of operations under way.
    pub fn active_count(&self) -> (count: usize)
        ensures
            count == self.queue.active,
    {
        self.queue.active
    }

    /// The position of an operation.
    fn find(&self, operation: u64) -> (found: Option<usize>)
        ensures
            match found {
                Some(i) => op_of(self.ops@, operation) == Some(i as int) && i < self.ops@.len(),
                None => op_of(self.ops@, operation) is None,
            },
    {
        let mut i: usize = self.ops.len();
        proof {
            assert(self.ops@.take(i as int) =~= self.ops@);
        }
        while i > 0
            invariant
                i <= self.ops@.len(),
                op_of(self.ops@, operation) == op_of(self.ops@.take(i as int), operation),
            decreases i,
        {
            proof {
                let here = self.ops@.take(i as int);
                assert(here.last() == self.ops@[i - 1]);
                assert(here.drop_last() =~= self.ops@.take(i - 1));
            }
            if self.ops[i - 1].operation == operation {
                return Some(i - 1);
            }
            i = i - 1;
        }
        None
    }

    /// The position of the operation of a reader.
    fn find_reader(&self, reader: u64) -> (found: Option<usize>)
        ensures
            match found {
                Some(i) => op_of_reader(self.ops@, reader) == Some(i as int) && i < self.ops@.len(),
                None => op_of_reader(self.ops@, reader) is None,
            },
    {
        let mut i: usize = self.ops.len();
        proof {
            assert(self.ops@.take(i as int) =~= self.ops@);
        }
        while i > 0
            invariant
                i <= self.ops@.len(),
                op_of_reader(self.ops@, reader) == op_of_reader(self.ops@.take(i as int), reader),
            decreases i,
        {
            proof {
                let here = self.ops@.take(i as int);
                assert(here.last() == self.ops@[i - 1]);
                assert(here.drop_last() =~= self.ops@.take(i - 1));
            }
            if self.ops[i - 1].reader == reader {
                return Some(i - 1);
            }
            i = i - 1;
        }
        None
    }

    /// The reader that an operation belongs to, if it is under way.
    pub fn reader_of(&self, operation: u64) -> (reader: Option<u64>)
        ensures
            reader == match op_of(self.ops@, operation) {
                Some(i) => Some(self.ops@[i].reader),
                None => None,
            },
    {
        match self.find(operation) {
            Some(i) => Some(self.ops[i].reader),
            None => None,
        }
    }

    /// The operation of a reader, if it has one.
    pub fn pending_operation_for_reader(&self, reader: u64) -> (operation: Option<u64>)
        ensures
            operation == match op_of_reader(self.ops@, reader) {
                Some(i) => Some(self.ops@[i].operation),
                None => None,
            },
    {
        match self.find_reader(reader) {
            Some(i) => Some(self.ops[i].operation),
            None => None,
        }
    }

    /// Removes an operation and releases its count, if it is under way.
    fn remove_op(&mut self, operation: u64) -> (removed: bool)
        requires
            old(self).wf(),
        ensures
            final(self).wf(),
            removed == op_of(old(self).ops@, operation) is Some,
            final(self).queue.next_generation == old(self).queue.next_generation,
            final(self).ops@ == match op_of(old(self).ops@, operation) {
                Some(i) => old(self).ops@.remove(i),
                None => old(self).ops@,
            },
    {
        match self.find(operation) {
            Some(i) => {
                let _ = self.ops.remove(i);
                self.queue.active = self.queue.active - 1;
                proof {
                    lemma_remove_keeps_table(old(self).ops@, i as int);
                }
                true
            },
            None => false,
        }
    }

    /// Drops an operation when the runtime shuts down.
    pub fn drop_pending_for_shutdown(&mut self, operation: u64) -> (removed: bool)
        requires
            old(self).wf(),
        ensures
            final(self).wf(),
            removed == op_of(old(self).ops@, operation) is Some,
            final(self).queue.next_generation == old(self).queue.next_generation,
            final(self).ops@ == match op_of(old(self).ops@, operation) {
                Some(i) => old(self).ops@.remove(i),
                None => old(self).ops@,
            },
    {
        self.remove_op(operation)
    }
}

proof fn lemma_remove_keeps_table(ops: Seq<ReaderOp>, at: int)
    requires
        0 <= at < ops.len(),
        ops_distinct(ops),
        ops_wf(ops),
    ensures
        ops_distinct(ops.remove(at)),
        ops_wf(ops.remove(at)),
{
    let rest = ops.remove(at);
    assert forall|i: int| 0 <= i < rest.len() implies (#[trigger] rest[i]).data.wf() && (
    rest[i].pump matches Some(state) ==> state.wf()) by {
        let x = if i < at {
            i
        } else {
            i + 1
        };
        assert(rest[i] == ops[x]);
        assert(ops[x].data.wf());
    }
    assert forall|i: int, j: int| 0 <= i < j < rest.len() implies (#[trigger] rest[i]).operation
        != (#[trigger] rest[j]).operation by {
        let x = if i < at {
            i
        } else {
            i + 1
        };
        let y = if j < at {
            j
        } else {
            j + 1
        };
        assert(ops[x].operation != ops[y].operation);
    }
}

/// A table and a bridge that agree: both well-formed, and every operation
/// holds a slot.
pub open spec fn consistent(table: ReaderTable, bridge: IoBridge) -> bool {
    &&& table.wf()
    &&& bridge.wf()
    &&& ops_reserved(table.ops@, bridge)
}

proof fn lemma_slot_ids_below_next(bridge: IoBridge, id: u64)
    requires
        bridge.wf(),
        is_live(bridge.slots(), id),
    ensures
        id < bridge.next_id(),
{
    crate::bridge::lemma_slot_of(bridge.slots(), id);
    let at = slot_of(bridge.slots(), id)->0;
    assert(0 < bridge.slots()[at].id < bridge.next_id());
}

/// A slot that was released takes no other operation's slot away.
proof fn lemma_reserved_after_release(
    ops: Seq<ReaderOp>,
    at: int,
    before: IoBridge,
    after: IoBridge,
)
    requires
        0 <= at < ops.len(),
        ops_distinct(ops),
        before.wf(),
        ops_reserved(ops, before),
        after.is_closed() == before.is_closed(),
        after.slots() == match slot_of(before.slots(), ops[at].operation) {
            Some(i) => before.slots().remove(i),
            None => before.slots(),
        },
    ensures
        ops_reserved(ops.remove(at), after),
{
    if !before.is_closed() {
        let rest = ops.remove(at);
        let id = ops[at].operation;
        assert(is_chunked(before.slots(), id));
        assert forall|i: int| 0 <= i < rest.len() implies is_chunked(
            after.slots(),
            (#[trigger] rest[i]).operation,
        ) by {
            let x = if i < at {
                i
            } else {
                i + 1
            };
            assert(rest[i] == ops[x]);
            assert(is_chunked(before.slots(), ops[x].operation));
            assert(ops[x].operation != id) by {
                if x < at {
                    assert(ops[x].operation != ops[at].operation);
                } else {
                    assert(ops[at].operation != ops[x].operation);
                }
            }
            crate::bridge::lemma_release_keeps_others(before.slots(), id, ops[x].operation);
        }
    }
}

/// The chunk size of a read, unless it is out of range.
pub fn chunk_ceiling(limits: &FileApiLimits) -> (result: Result<usize, FileApiError>)
    ensures
        match result {
            Ok(size) => limits.chunk_size_valid() && size == limits.default_chunk_size,
            Err(error) => !limits.chunk_size_valid() && error == FileApiError::ResourceLimit(
                ResourceLimitKind::MaterializeBytes,
            ),
        },
{
    if limits.default_chunk_size < MIN_CHUNK || limits.default_chunk_size > MAX_CHUNK {
        return Err(FileApiError::ResourceLimit(ResourceLimitKind::MaterializeBytes));
    }
    Ok(limits.default_chunk_size)
}

/// What a read method asks for.
pub struct ReadRequest {
    /// What to read.
    pub data: BlobData,
    /// What to package it as.
    pub kind: ReadKind,
    /// The encoding of a text read.
    pub encoding: TextEncoding,
    /// The media type of a data URL.
    pub media_type: String,
}

/// What the host has to do after a read method.
pub enum StartRead {
    /// Throw.
    Refused(Thrown),
    /// Queue the job; the read failed before it started.
    Failed(DispatchJob),
    /// Queue the job; there is nothing to read.
    AtEnd(PumpJob),
    /// Submit the first chunk request.
    Submit(FileReaderChunkTask),
}

/// How a read method goes.
#[derive(Clone, Copy, Debug, PartialEq, Eq, Structural)]
pub enum StartClass {
    /// The reader is busy.
    Loading,
    /// The runtime is shut down.
    ShutDown,
    /// Too many reads are under way.
    TooMany,
    /// The chunk size is out of range.
    BadChunk,
    /// The read starts.
    Begin,
}

/// The number of reads that may be under way.
pub open spec fn read_limit(limits: FileApiLimits) -> usize {
    if limits.max_concurrent_reads_per_global == 0 {
        1
    } else {
        limits.max_concurrent_reads_per_global
    }
}

/// How a read method goes, tested in this order.
pub open spec fn start_class(
    ready_state: u8,
    shutdown: bool,
    active: usize,
    limits: FileApiLimits,
    bridge: IoBridge,
) -> StartClass {
    if ready_state == LOADING {
        StartClass::Loading
    } else if shutdown {
        StartClass::ShutDown
    } else if active >= read_limit(limits) || crate::bridge::reserve_refusal(bridge) is Some {
        StartClass::TooMany
    } else if !limits.chunk_size_valid() {
        StartClass::BadChunk
    } else {
        StartClass::Begin
    }
}

/// The packaging state that a read starts with.
pub open spec fn is_initial(state: PumpState, request: ReadRequest, limits: FileApiLimits) -> bool {
    &&& state.wf()
    &&& state.total == request.data.spec_size()
    &&& state.limits == limits
    &&& state.chunk_size == limits.default_chunk_size
    &&& state.kind == request.kind
    &&& state.encoding == request.encoding
    &&& state.media_type@ == request.media_type@
    &&& state.data_url_limit == limits.max_data_url_output
    &&& state.loaded == 0
    &&& state.last_progress_at == i64::MIN
    &&& !state.loadstart_sent
    &&& !state.final_progress_sent
    &&& state.consumed() == Seq::<u8>::empty()
    &&& state.text@ == Seq::<char>::empty()
}

/// What a read method changes and asks of the host.
pub open spec fn start_effect(
    class: StartClass,
    request: ReadRequest,
    limits: FileApiLimits,
    reader: ReaderView,
    table: ReaderTable,
    bridge: IoBridge,
    reader_after: ReaderView,
    table_after: ReaderTable,
    bridge_after: IoBridge,
    outcome: StartRead,
) -> bool {
    let generation = issued_generation(table.queue);
    let total = request.data.spec_size();
    match class {
        StartClass::Loading => {
            &&& outcome matches StartRead::Refused(Thrown::Dom(exception)) && exception@ == (
                "InvalidStateError"@,
                "the FileReader is already loading"@,
            )
            &&& reader_after == reader
            &&& table_after == table
            &&& bridge_after == bridge
        },
        StartClass::ShutDown => {
            &&& outcome == StartRead::Failed(error_job(generation, NO_OPERATION, total))
            &&& reader_after == failed_reader(
                reader,
                generation,
                total,
                ("AbortError"@, "the File API runtime is shut down"@),
            )
            &&& table_after.ops == table.ops
            &&& table_after.queue.next_generation == generation_after(generation)
            &&& bridge_after == bridge
        },
        StartClass::TooMany => {
            &&& outcome == StartRead::Failed(error_job(generation, NO_OPERATION, total))
            &&& reader_after == failed_reader(
                reader,
                generation,
                total,
                ("SecurityError"@, "too many concurrent reads"@),
            )
            &&& table_after.ops == table.ops
            &&& table_after.queue.next_generation == generation_after(generation)
            &&& reservation_refused(bridge, bridge_after)
        },
        StartClass::BadChunk => {
            &&& outcome matches StartRead::Refused(Thrown::Js(error)) && error@ == (
                JsErrorKind::Type,
                "the read chunk size is out of range"@,
            )
            &&& reader_after == reader
            &&& table_after.ops == table.ops
            &&& table_after.queue.next_generation == generation_after(generation)
            &&& reservation_undone(bridge, bridge_after)
        },
        StartClass::Begin => {
            let operation = bridge.next_id();
            &&& reader_after == loading_reader(reader, generation, total)
            &&& table_after.queue.next_generation == generation_after(generation)
            &&& table_after.ops@.len() == table.ops@.len() + 1
            &&& table_after.ops@.drop_last() == table.ops@
            &&& table_after.ops@.last().operation == operation
            &&& table_after.ops@.last().reader == reader.key
            &&& table_after.ops@.last().generation == generation
            &&& table_after.ops@.last().data == request.data
            &&& slot_reserved(bridge, bridge_after, operation, true)
            &&& match outcome {
                StartRead::AtEnd(job) => {
                    &&& total == 0
                    &&& job.generation == generation
                    &&& job.operation == operation
                    &&& job.chunk == ChunkKind::Eof
                    &&& is_initial(job.state, request, limits)
                    &&& table_after.ops@.last().pump is None
                },
                StartRead::Submit(task) => {
                    &&& total > 0
                    &&& task.context_id == bridge.context()
                    &&& task.operation_id.spec_get() == operation
                    &&& task.data@ == request.data@
                    &&& task.limits == limits
                    &&& task.window.generation == generation
                    &&& task.window.offset == 0
                    &&& task.window.len == if limits.default_chunk_size < total {
                        limits.default_chunk_size as u64
                    } else {
                        total
                    }
                    &&& table_after.ops@.last().pump matches Some(state) && is_initial(
                        state,
                        request,
                        limits,
                    )
                },
                _ => false,
            }
        },
    }
}

/// Ends an operation before it starts.
fn fail_fast(
    table: &mut ReaderTable,
    native: &mut FileReaderNative,
    total: u64,
    error: DomException,
) -> (job: DispatchJob)
    requires
        old(table).wf(),
    ensures
        final(table).wf(),
        final(table).ops == old(table).ops,
        final(table).queue.next_generation == generation_after(
            issued_generation(old(table).queue),
        ),
        final(native)@ == failed_reader(
            old(native)@,
            issued_generation(old(table).queue),
            total,
            error@,
        ),
        job == error_job(issued_generation(old(table).queue), NO_OPERATION, total),
{
    let generation: u64 = next_generation(&mut table.queue);
    native.ready_state = DONE;
    native.result = None;
    native.error = Some(error);
    native.generation = generation;
    native.terminal_dispatched = false;
    native.total = total;
    native.loaded = 0;
    DispatchJob {
        generation,
        operation: NO_OPERATION,
        event: ReaderEvent { kind: EventKind::Error, loaded: 0, total },
        terminal: Some(TerminalKind::Error),
    }
}

/// Starts a read.
///
/// A busy reader throws and keeps everything. A runtime that is shut down or
/// has too many reads under way lets the read fail with an event and without a
/// slot. Otherwise the reader is `LOADING`, one slot is taken, and the first
/// chunk is asked for; a blob without bytes needs none.
pub fn start_read(
    table: &mut ReaderTable,
    native: &mut FileReaderNative,
    bridge: &mut IoBridge,
    request: ReadRequest,
    limits: &FileApiLimits,
    shutdown: bool,
) -> (outcome: StartRead)
    requires
        consistent(*old(table), *old(bridge)),
        request.data.wf(),
    ensures
        consistent(*final(table), *final(bridge)),
        start_effect(
            start_class(
                old(native).ready_state,
                shutdown,
                old(table).queue.active,
                *limits,
                *old(bridge),
            ),
            request,
            *limits,
            old(native)@,
            *old(table),
            *old(bridge),
            final(native)@,
            *final(table),
            *final(bridge),
            outcome,
        ),
{
    if native.ready_state == LOADING {
        return StartRead::Refused(
            Thrown::Dom(
                DomException {
                    name: "InvalidStateError",
                    message: "the FileReader is already loading",
                },
            ),
        );
    }
    let total: u64 = request.data.size();
    if shutdown {
        return StartRead::Failed(
            fail_fast(
                table,
                native,
                total,
                DomException { name: "AbortError", message: "the File API runtime is shut down" },
            ),
        );
    }
    let allowed: usize = if limits.max_concurrent_reads_per_global == 0 {
        1
    } else {
        limits.max_concurrent_reads_per_global
    };
    if table.active_count() >= allowed {
        return StartRead::Failed(
            fail_fast(
                table,
                native,
                total,
                DomException { name: "SecurityError", message: "too many concurrent reads" },
            ),
        );
    }
    let operation_id = match bridge.reserve_chunked() {
        Ok(id) => id,
        Err(_) => {
            return StartRead::Failed(
                fail_fast(
                    table,
                    native,
                    total,
                    DomException { name: "SecurityError", message: "too many concurrent reads" },
                ),
            );
        },
    };
    let ghost reserved = *bridge;
    proof {
        crate::bridge::lemma_reserve_keeps(*old(bridge), *bridge);
        assert forall|i: int| 0 <= i < table.ops@.len() implies is_chunked(
            bridge.slots(),
            (#[trigger] table.ops@[i]).operation,
        ) by {
            assert(is_chunked(old(bridge).slots(), old(table).ops@[i].operation));
        }
    }
    let generation: u64 = next_generation(&mut table.queue);
    let chunk_size: usize = match chunk_ceiling(limits) {
        Ok(size) => size,
        Err(_) => {
            let _ = bridge.unreserve(operation_id);
            proof {
                let fresh = reserved.slots().last();
                assert(reserved.slots() =~= old(bridge).slots().push(fresh));
                crate::bridge::lemma_reserve_release_round_trip(old(bridge).slots(), fresh);
                assert forall|i: int| 0 <= i < table.ops@.len() implies is_chunked(
                    bridge.slots(),
                    (#[trigger] table.ops@[i]).operation,
                ) by {
                    assert(is_chunked(old(bridge).slots(), old(table).ops@[i].operation));
                }
            }
            return StartRead::Refused(
                Thrown::Js(type_error("the read chunk size is out of range")),
            );
        },
    };
    native.ready_state = LOADING;
    native.result = None;
    native.error = None;
    native.generation = generation;
    native.terminal_dispatched = false;
    native.total = total;
    native.loaded = 0;
    let ReadRequest { data, kind, encoding, media_type } = request;
    let text = String::new();
    let state = PumpState {
        total,
        limits: *limits,
        chunk_size,
        kind,
        encoding,
        media_type,
        data_url_limit: limits.max_data_url_output,
        loaded: 0,
        last_progress_at: i64::MIN,
        loadstart_sent: false,
        buffered: Vec::new(),
        text,
        decoder: IncrementalDecoder::new(),
        final_progress_sent: false,
    };
    proof {
        reveal_strlit("");
        assert(text@ =~= Seq::<char>::empty());
        assert(state.wf());
    }
    let operation: u64 = operation_id.get();
    let outcome;
    let pump;
    if total == 0 {
        outcome =
        StartRead::AtEnd(PumpJob { generation, operation, state, chunk: ChunkKind::Eof });
        pump = None;
    } else {
        let first: u64 = if (chunk_size as u64) < total {
            chunk_size as u64
        } else {
            total
        };
        outcome =
        StartRead::Submit(
            FileReaderChunkTask {
                context_id: bridge.context_id(),
                operation_id,
                data: data.reference(),
                limits: *limits,
                window: ChunkWindow { generation, offset: 0, len: first },
            },
        );
        pump = Some(state);
    }
    let ghost before = table.ops@;
    table.ops.push(ReaderOp { operation, reader: native.key, generation, data, pump });
    table.queue.active = table.queue.active + 1;
    proof {
        let ops = table.ops@;
        assert(ops.drop_last() =~= before);
        assert forall|i: int| 0 <= i < ops.len() implies is_chunked(
            bridge.slots(),
            (#[trigger] ops[i]).operation,
        ) by {
            if i < before.len() {
                assert(is_chunked(bridge.slots(), before[i].operation));
            }
        }
        assert forall|i: int, j: int| 0 <= i < j < ops.len() implies (#[trigger] ops[i]).operation
            != (#[trigger] ops[j]).operation by {
            if j < before.len() {
                assert(before[i].operation != before[j].operation);
            } else {
                assert(is_chunked(old(bridge).slots(), before[i].operation));
                lemma_slot_ids_below_next(*old(bridge), before[i].operation);
            }
        }
        assert forall|i: int| 0 <= i < ops.len() implies (#[trigger] ops[i]).data.wf() && (
        ops[i].pump matches Some(held) ==> held.wf()) by {
            if i < before.len() {
                assert(before[i].data.wf());
            }
        }
    }
    outcome
}

/// Whether `operation` was taken out of the table and its slot released, if it
/// was under way; else nothing changed.
pub open spec fn operation_released(
    table: ReaderTable,
    bridge: IoBridge,
    table_after: ReaderTable,
    bridge_after: IoBridge,
    operation: u64,
) -> bool {
    match op_of(table.ops@, operation) {
        Some(i) => {
            &&& table_after.ops@ == table.ops@.remove(i)
            &&& slot_released(bridge, bridge_after, operation)
        },
        None => {
            &&& table_after.ops@ == table.ops@
            &&& bridge_after.same_setup(bridge)
            &&& reservation_refused(bridge, bridge_after)
        },
    }
}

/// Takes an operation out of the table and releases its slot, if it is under
/// way.
fn release_operation(table: &mut ReaderTable, bridge: &mut IoBridge, operation: u64) -> (released:
    bool)
    requires
        consistent(*old(table), *old(bridge)),
    ensures
        consistent(*final(table), *final(bridge)),
        released == op_of(old(table).ops@, operation) is Some,
        final(table).queue.next_generation == old(table).queue.next_generation,
        operation_released(*old(table), *old(bridge), *final(table), *final(bridge), operation),
{
    proof {
        lemma_op_of(table.ops@, operation);
    }
    let released = table.remove_op(operation);
    if released {
        let _ = bridge.unreserve(FileIoOperationId::from_raw(operation));
        proof {
            let at = op_of(old(table).ops@, operation)->0;
            lemma_reserved_after_release(old(table).ops@, at, *old(bridge), *bridge);
        }
    }
    released
}

impl ReadRequest {
    /// A request for the bytes.
    pub fn array_buffer(data: BlobData) -> (request: ReadRequest)
        ensures
            request.data == data,
            request.kind == ReadKind::ArrayBuffer,
            request.encoding.spec_name() == "UTF-8"@,
            request.media_type@ == ""@,
    {
        ReadRequest {
            data,
            kind: ReadKind::ArrayBuffer,
            encoding: TextEncoding::utf_8(),
            media_type: "".to_owned(),
        }
    }

    /// A request for one character per byte.
    pub fn binary_string(data: BlobData) -> (request: ReadRequest)
        ensures
            request.data == data,
            request.kind == ReadKind::BinaryString,
            request.encoding.spec_name() == "UTF-8"@,
            request.media_type@ == ""@,
    {
        ReadRequest {
            data,
            kind: ReadKind::BinaryString,
            encoding: TextEncoding::utf_8(),
            media_type: "".to_owned(),
        }
    }

    /// A request for text, under an optional label.
    pub fn text(data: BlobData, label: Option<&str>) -> (request: ReadRequest)
        ensures
            request.data == data,
            request.kind == ReadKind::Text,
            request.encoding.spec_name() == crate::package::resolved_encoding(
                match label {
                    Some(text) => Some(text@),
                    None => None,
                },
                data.spec_media_type(),
            ),
            request.media_type@ == ""@,
    {
        let encoding = resolve_text_encoding(label, data.media_type());
        ReadRequest { data, kind: ReadKind::Text, encoding, media_type: "".to_owned() }
    }

    /// A request for a data URL.
    pub fn data_url(data: BlobData) -> (request: ReadRequest)
        ensures
            request.data == data,
            request.kind == ReadKind::DataUrl,
            request.encoding.spec_name() == "UTF-8"@,
            request.media_type@ == data.spec_media_type(),
    {
        let media_type = data.media_type().to_owned();
        ReadRequest { data, kind: ReadKind::DataUrl, encoding: TextEncoding::utf_8(), media_type }
    }
}

/// Whether the data URL of `data` fits under the ceiling.
pub open spec fn data_url_fits(data: BlobData, limits: FileApiLimits) -> bool {
    &&& data.spec_size() + 2 <= u64::MAX
    &&& vstd::utf8::encode_utf8(data.spec_media_type()).len() + 13 <= usize::MAX
    &&& data_url_size(data.spec_media_type(), data.spec_size() as int)
        <= limits.max_data_url_output
}

/// What starting a data URL read changes and asks of the host: too many reads
/// and a URL that would be too long end it, anything else is as for every read.
pub open spec fn data_url_start_effect(
    request: ReadRequest,
    limits: FileApiLimits,
    shutdown: bool,
    reader: ReaderView,
    table: ReaderTable,
    bridge: IoBridge,
    reader_after: ReaderView,
    table_after: ReaderTable,
    bridge_after: IoBridge,
    outcome: StartRead,
) -> bool {
    let generation = issued_generation(table.queue);
    let total = request.data.spec_size();
    if reader.ready_state != LOADING && (table.queue.active >= read_limit(limits) || !data_url_fits(
        request.data,
        limits,
    )) {
        &&& outcome == StartRead::Failed(error_job(generation, NO_OPERATION, total))
        &&& reader_after == failed_reader(
            reader,
            generation,
            total,
            if table.queue.active >= read_limit(limits) {
                ("SecurityError"@, "too many concurrent reads"@)
            } else {
                ("QuotaExceededError"@, "data URL output exceeds the configured limit"@)
            },
        )
        &&& table_after.ops == table.ops
        &&& table_after.queue.next_generation == generation_after(generation)
        &&& bridge_after == bridge
    } else {
        start_effect(
            start_class(reader.ready_state, shutdown, table.queue.active, limits, bridge),
            request,
            limits,
            reader,
            table,
            bridge,
            reader_after,
            table_after,
            bridge_after,
            outcome,
        )
    }
}

/// Starts a data URL read, unless its output would be too long.
///
/// A busy reader and too many reads are reported before the length.
pub fn read_as_data_url(
    table: &mut ReaderTable,
    native: &mut FileReaderNative,
    bridge: &mut IoBridge,
    request: ReadRequest,
    limits: &FileApiLimits,
    shutdown: bool,
) -> (outcome: StartRead)
    requires
        consistent(*old(table), *old(bridge)),
        request.data.wf(),
        request.kind == ReadKind::DataUrl,
    ensures
        consistent(*final(table), *final(bridge)),
        data_url_start_effect(
            request,
            *limits,
            shutdown,
            old(native)@,
            *old(table),
            *old(bridge),
            final(native)@,
            *final(table),
            *final(bridge),
            outcome,
        ),
{
    if native.ready_state != LOADING {
        let total: u64 = request.data.size();
        let allowed: usize = if limits.max_concurrent_reads_per_global == 0 {
            1
        } else {
            limits.max_concurrent_reads_per_global
        };
        if table.active_count() >= allowed {
            return StartRead::Failed(
                fail_fast(
                    table,
                    native,
                    total,
                    DomException { name: "SecurityError", message: "too many concurrent reads" },
                ),
            );
        }
        let fits = match data_url_len(request.data.media_type(), total) {
            Some(length) => length <= limits.max_data_url_output,
            None => false,
        };
        if !fits {
            return StartRead::Failed(
                fail_fast(
                    table,
                    native,
                    total,
                    DomException {
                        name: "QuotaExceededError",
                        message: "data URL output exceeds the configured limit",
                    },
                ),
            );
        }
    }
    start_read(table, native, bridge, request, limits, shutdown)
}

/// Whether the first chunk of an operation can still be asked for: it is under
/// way in this generation of its reader, holds its slot, and nothing has come of
/// it yet.
pub open spec fn awaits_first_chunk(
    table: ReaderTable,
    reader: ReaderView,
    bridge: IoBridge,
    operation: u64,
    generation: u64,
) -> bool {
    &&& is_live(bridge.slots(), operation)
    &&& reader.generation == generation
    &&& op_of(table.ops@, operation) matches Some(i) && {
        &&& table.ops@[i].reader == reader.key
        &&& table.ops@[i].pump matches Some(state) && !state.loadstart_sent && state.loaded == 0
    }
}

/// Whether `task` asks for the first chunk of an operation.
pub open spec fn is_first_task(
    task: FileReaderChunkTask,
    table: ReaderTable,
    bridge: IoBridge,
    operation: u64,
    generation: u64,
) -> bool {
    let op = table.ops@[op_of(table.ops@, operation)->0];
    let state = op.pump->0;
    &&& task.context_id == bridge.context()
    &&& task.operation_id.spec_get() == operation
    &&& task.data@ == op.data@
    &&& task.data.wf()
    &&& task.limits == state.limits
    &&& task.window == (ChunkWindow {
        generation,
        offset: 0,
        len: if state.chunk_size < state.total {
            state.chunk_size as u64
        } else {
            state.total
        },
    })
}

/// Asks for the first chunk of an operation again, if it is still wanted.
pub fn submit_first_chunk(
    table: &ReaderTable,
    native: &FileReaderNative,
    bridge: &IoBridge,
    operation: u64,
    generation: u64,
) -> (submit: Option<FileReaderChunkTask>)
    requires
        consistent(*table, *bridge),
    ensures
        match submit {
            Some(task) => awaits_first_chunk(*table, native@, *bridge, operation, generation)
                && is_first_task(task, *table, *bridge, operation, generation),
            None => !awaits_first_chunk(*table, native@, *bridge, operation, generation),
        },
{
    let operation_id = FileIoOperationId::from_raw(operation);
    if !bridge.is_reserved(operation_id) || native.generation != generation {
        return None;
    }
    let at: usize = match table.find(operation) {
        Some(at) => at,
        None => {
            return None;
        },
    };
    let op = &table.ops[at];
    proof {
        assert(table.ops@[at as int].data.wf());
    }
    if op.reader != native.key {
        return None;
    }
    match &op.pump {
        Some(state) => {
            if state.loadstart_sent || state.loaded != 0 {
                return None;
            }
            let len: u64 = if (state.chunk_size as u64) < state.total {
                state.chunk_size as u64
            } else {
                state.total
            };
            Some(
                FileReaderChunkTask {
                    context_id: bridge.context_id(),
                    operation_id,
                    data: op.data.reference(),
                    limits: state.limits,
                    window: ChunkWindow { generation, offset: 0, len },
                },
            )
        },
        None => None,
    }
}

/// Asks for the first chunk of an operation again, in the generation that it
/// belongs to; never once the runtime is shut down.
pub fn poll_reader_once(
    table: &ReaderTable,
    native: &FileReaderNative,
    bridge: &IoBridge,
    operation: u64,
    shutdown: bool,
) -> (submit: Option<FileReaderChunkTask>)
    requires
        consistent(*table, *bridge),
    ensures
        ({
            let at = op_of(table.ops@, operation);
            let generation = table.ops@[at->0].generation;
            match submit {
                Some(task) => !shutdown && at is Some && awaits_first_chunk(
                    *table,
                    native@,
                    *bridge,
                    operation,
                    generation,
                ) && is_first_task(task, *table, *bridge, operation, generation),
                None => shutdown || at is None || !awaits_first_chunk(
                    *table,
                    native@,
                    *bridge,
                    operation,
                    generation,
                ),
            }
        }),
{
    if shutdown {
        return None;
    }
    match table.find(operation) {
        Some(at) => {
            let generation: u64 = table.ops[at].generation;
            submit_first_chunk(table, native, bridge, operation, generation)
        },
        None => None,
    }
}

/// Ends the start of a read whose first chunk request was refused.
pub fn first_submit_failed(
    table: &mut ReaderTable,
    native: &mut FileReaderNative,
    bridge: &mut IoBridge,
    task: &FileReaderChunkTask,
    total: u64,
    error: FileIoSubmitError,
) -> (job: Option<DispatchJob>)
    requires
        consistent(*old(table), *old(bridge)),
    ensures
        consistent(*final(table), *final(bridge)),
        final(table).queue.next_generation == old(table).queue.next_generation,
        operation_released(
            *old(table),
            *old(bridge),
            *final(table),
            *final(bridge),
            task.operation_id.spec_get(),
        ),
        final(native)@ == failure_applied(
            old(native)@,
            task.window.generation,
            mapped_error(error.settles_as()),
        ),
        job == if old(native).generation == task.window.generation {
            Some(error_job(task.window.generation, NO_OPERATION, total))
        } else {
            None
        },
{
    let _ = release_operation(table, bridge, task.operation_id.get());
    fail_reader(native, task.window.generation, NO_OPERATION, total, error.to_file_api_error())
}

/// The reader after a failure of `generation`: settled, unless that generation
/// is gone.
pub open spec fn failure_applied(
    reader: ReaderView,
    generation: u64,
    error: (Seq<char>, Seq<char>),
) -> ReaderView {
    if reader.generation != generation {
        reader
    } else {
        ReaderView {
            ready_state: DONE,
            result: None,
            error: Some(error),
            terminal_dispatched: false,
            ..reader
        }
    }
}

/// Settles a reader with a failure, unless the generation is gone.
fn fail_reader(
    native: &mut FileReaderNative,
    generation: u64,
    operation: u64,
    total: u64,
    error: FileApiError,
) -> (job: Option<DispatchJob>)
    ensures
        final(native)@ == failure_applied(old(native)@, generation, mapped_error(error)),
        job == if old(native).generation == generation {
            Some(error_job(generation, operation, total))
        } else {
            None
        },
{
    if native.generation != generation {
        return None;
    }
    native.ready_state = DONE;
    native.result = None;
    native.error = Some(map_core_error(error));
    native.terminal_dispatched = false;
    Some(
        DispatchJob {
            generation,
            operation,
            event: ReaderEvent { kind: EventKind::Error, loaded: 0, total },
            terminal: Some(TerminalKind::Error),
        },
    )
}

/// Whether nothing changed: neither operations nor slots.
pub open spec fn untouched(
    table: ReaderTable,
    bridge: IoBridge,
    table_after: ReaderTable,
    bridge_after: IoBridge,
) -> bool {
    &&& table_after == table
    &&& bridge_after == bridge
}

/// What a failure of `generation` comes to.
pub open spec fn failure_effect(
    reader: ReaderView,
    table: ReaderTable,
    bridge: IoBridge,
    reader_after: ReaderView,
    table_after: ReaderTable,
    bridge_after: IoBridge,
    job: Option<DispatchJob>,
    generation: u64,
    operation: u64,
    total: u64,
    error: FileApiError,
) -> bool {
    &&& reader_after == failure_applied(reader, generation, mapped_error(error))
    &&& table_after.queue.next_generation == table.queue.next_generation
    &&& if reader.generation == generation {
        &&& job == Some(error_job(generation, operation, total))
        &&& operation_released(table, bridge, table_after, bridge_after, operation)
    } else {
        &&& job is None
        &&& untouched(table, bridge, table_after, bridge_after)
    }
}

/// Ends an operation with a failure and releases its slot, unless the
/// generation is gone.
pub fn fail_operation(
    table: &mut ReaderTable,
    native: &mut FileReaderNative,
    bridge: &mut IoBridge,
    generation: u64,
    operation: u64,
    total: u64,
    error: FileApiError,
) -> (job: Option<DispatchJob>)
    requires
        consistent(*old(table), *old(bridge)),
    ensures
        consistent(*final(table), *final(bridge)),
        failure_effect(
            old(native)@,
            *old(table),
            *old(bridge),
            final(native)@,
            *final(table),
            *final(bridge),
            job,
            generation,
            operation,
            total,
            error,
        ),
{
    if native.generation != generation {
        return None;
    }
    let _ = release_operation(table, bridge, operation);
    fail_reader(native, generation, operation, total, error)
}

/// What the host has to do after `abort()`.
pub struct AbortOutcome {
    /// The job to queue.
    pub job: Option<DispatchJob>,
    /// The operation whose work is to be cancelled.
    pub cancel: Option<u64>,
}

/// What `abort()` changes and asks of the host.
pub open spec fn abort_effect(
    reader: ReaderView,
    table: ReaderTable,
    bridge: IoBridge,
    reader_after: ReaderView,
    table_after: ReaderTable,
    bridge_after: IoBridge,
    outcome: AbortOutcome,
) -> bool {
    if reader.ready_state != LOADING {
        &&& outcome.job is None
        &&& outcome.cancel is None
        &&& reader_after == (ReaderView { result: None, ..reader })
        &&& untouched(table, bridge, table_after, bridge_after)
    } else {
        let generation = issued_generation(table.queue);
        let operation = match op_of_reader(table.ops@, reader.key) {
            Some(i) => table.ops@[i].operation,
            None => NO_OPERATION,
        };
        &&& reader_after == (ReaderView {
            ready_state: DONE,
            result: None,
            error: None,
            generation,
            terminal_dispatched: false,
            ..reader
        })
        &&& table_after.queue.next_generation == generation_after(generation)
        &&& outcome.job == Some(
            DispatchJob {
                generation,
                operation,
                event: ReaderEvent {
                    kind: EventKind::Abort,
                    loaded: reader.loaded,
                    total: reader.total,
                },
                terminal: Some(TerminalKind::Abort),
            },
        )
        &&& match op_of_reader(table.ops@, reader.key) {
            Some(i) => {
                &&& operation_released(table, bridge, table_after, bridge_after, operation)
                &&& outcome.cancel == if is_live(bridge.slots(), operation) {
                    Some(operation)
                } else {
                    None
                }
            },
            None => {
                &&& table_after.ops@ == table.ops@
                &&& bridge_after == bridge
                &&& outcome.cancel is None
            },
        }
    }
}

/// `abort()`.
///
/// A reader that is not busy only loses its result. A busy one is settled
/// without a result and without a failure under a fresh generation, so that
/// every job of the old one does nothing more, and its slot is released.
pub fn abort(table: &mut ReaderTable, native: &mut FileReaderNative, bridge: &mut IoBridge) -> (
outcome: AbortOutcome)
    requires
        consistent(*old(table), *old(bridge)),
    ensures
        consistent(*final(table), *final(bridge)),
        abort_effect(
            old(native)@,
            *old(table),
            *old(bridge),
            final(native)@,
            *final(table),
            *final(bridge),
            outcome,
        ),
{
    if native.ready_state != LOADING {
        native.result = None;
        return AbortOutcome { job: None, cancel: None };
    }
    let found = table.pending_operation_for_reader(native.key);
    let generation: u64 = next_generation(&mut table.queue);
    let mut cancel: Option<u64> = None;
    let operation: u64 = match found {
        Some(operation) => {
            if bridge.is_reserved(FileIoOperationId::from_raw(operation)) {
                cancel = Some(operation);
            }
            let _ = release_operation(table, bridge, operation);
            operation
        },
        None => NO_OPERATION,
    };
    native.ready_state = DONE;
    native.result = None;
    native.error = None;
    native.generation = generation;
    native.terminal_dispatched = false;
    let event = ReaderEvent {
        kind: EventKind::Abort,
        loaded: native.loaded,
        total: native.total,
    };
    AbortOutcome {
        job: Some(
            DispatchJob { generation, operation, event, terminal: Some(TerminalKind::Abort) },
        ),
        cancel,
    }
}

/// Where a job stands: what it does after the event, if there is one, was
/// fired.
pub enum PumpPhase {
    /// Nothing more.
    Done,
    /// Queue the job.
    Queue(DispatchJob),
    /// Apply the chunk: [`apply_chunk`].
    Apply(PumpState),
    /// Go on after a chunk: [`continue_pump`].
    Continue(PumpState),
    /// All bytes are there: [`finish_at_eof`].
    Finish(PumpState),
    /// Package the result: [`publish_result`].
    Publish(PumpState),
    /// Submit the next chunk request; [`next_submit_failed`] if it is refused.
    Submit(FileReaderChunkTask),
}

/// One step of a job: the event to fire now, and what follows.
pub struct PumpStep {
    /// The event to fire.
    pub fire: Option<ReaderEvent>,
    /// What follows.
    pub next: PumpPhase,
}

/// Whether `loadstart` and `progress` of `generation` may fire.
pub open spec fn event_live(reader: ReaderView, generation: u64) -> bool {
    &&& reader.generation == generation
    &&& reader.ready_state == LOADING
    &&& !reader.terminal_dispatched
}

/// The event, if events of `generation` may fire.
pub open spec fn live_event(reader: ReaderView, generation: u64, event: ReaderEvent) -> Option<
    ReaderEvent,
> {
    if event_live(reader, generation) {
        Some(event)
    } else {
        None
    }
}

/// The event, if events of `generation` may fire.
fn when_live(native: &FileReaderNative, generation: u64, event: ReaderEvent) -> (fire: Option<
    ReaderEvent,
>)
    ensures
        fire == live_event(native@, generation, event),
{
    if native.generation == generation && native.ready_state == LOADING
        && !native.terminal_dispatched {
        Some(event)
    } else {
        None
    }
}

/// What starting a job comes to: nothing where its generation is gone, the
/// release of its slot after a shutdown, else `loadstart` for the first job.
pub open spec fn pump_effect(
    reader: ReaderView,
    table: ReaderTable,
    bridge: IoBridge,
    generation: u64,
    operation: u64,
    state: PumpState,
    shutdown: bool,
    table_after: ReaderTable,
    bridge_after: IoBridge,
    step: PumpStep,
) -> bool {
    &&& table_after.queue.next_generation == table.queue.next_generation
    &&& if reader.generation != generation {
        &&& step.fire is None
        &&& step.next is Done
        &&& untouched(table, bridge, table_after, bridge_after)
    } else if shutdown {
        &&& step.fire is None
        &&& step.next is Done
        &&& operation_released(table, bridge, table_after, bridge_after, operation)
    } else {
        &&& untouched(table, bridge, table_after, bridge_after)
        &&& step.fire == if state.loadstart_sent {
            None
        } else {
            live_event(
                reader,
                generation,
                ReaderEvent { kind: EventKind::LoadStart, loaded: 0, total: state.total },
            )
        }
        &&& step.next == PumpPhase::Apply(PumpState { loadstart_sent: true, ..state })
    }
}

/// Starts a job that applies one chunk.
///
/// A job whose generation is gone does nothing. After a shutdown the job only
/// releases its slot. The first job of a read fires `loadstart`.
pub fn run_pump(
    table: &mut ReaderTable,
    native: &FileReaderNative,
    bridge: &mut IoBridge,
    generation: u64,
    operation: u64,
    state: PumpState,
    shutdown: bool,
) -> (step: PumpStep)
    requires
        consistent(*old(table), *old(bridge)),
        state.wf(),
    ensures
        consistent(*final(table), *final(bridge)),
        pump_effect(
            native@,
            *old(table),
            *old(bridge),
            generation,
            operation,
            state,
            shutdown,
            *final(table),
            *final(bridge),
            step,
        ),
{
    if native.generation != generation {
        return PumpStep { fire: None, next: PumpPhase::Done };
    }
    if shutdown {
        let _ = release_operation(table, bridge, operation);
        return PumpStep { fire: None, next: PumpPhase::Done };
    }
    let mut state = state;
    let fire = if state.loadstart_sent {
        None
    } else {
        when_live(
            native,
            generation,
            ReaderEvent { kind: EventKind::LoadStart, loaded: 0, total: state.total },
        )
    };
    state.loadstart_sent = true;
    PumpStep { fire, next: PumpPhase::Apply(state) }
}

/// The bytes loaded after a chunk of `len` bytes.
pub open spec fn loaded_after(state: PumpState, len: int) -> u64 {
    if state.loaded + len > state.total {
        state.total
    } else {
        (state.loaded + len) as u64
    }
}

/// Whether a `progress` event is due: the first one at once, every other one
/// after the interval.
pub open spec fn progress_due(last: i64, now: i64) -> bool {
    last == i64::MIN || (now - last <= i64::MAX && now - last >= PROGRESS_INTERVAL)
}

/// What applying a chunk of `bytes` changes in the packaging state.
pub open spec fn chunk_applied(
    before: PumpState,
    after: PumpState,
    bytes: Seq<u8>,
    now: i64,
) -> bool {
    &&& after.wf()
    &&& after.same_read(before)
    &&& after.loaded == loaded_after(before, bytes.len() as int)
    &&& after.consumed() == before.consumed() + bytes
    &&& after.kind == ReadKind::Text ==> after.text@ == decoded_text(
        after.encoding.spec_name(),
        after.consumed(),
        false,
    )
    &&& after.loadstart_sent == before.loadstart_sent
    &&& after.final_progress_sent == before.final_progress_sent
    &&& after.last_progress_at == if progress_due(before.last_progress_at, now) && after.loaded
        < after.total {
        now
    } else {
        before.last_progress_at
    }
}

/// Whether decoding the chunk `bytes` of a text read may find no room: for the
/// text that it completes, or for appending that text.
pub open spec fn chunk_refused(state: PumpState, bytes: Seq<u8>) -> bool {
    ||| decoding_refused(bytes.len() as int)
    ||| append_refused(
        completed_piece(
            state.encoding.spec_name(),
            state.text@,
            state.consumed() + bytes,
            false,
        ),
    )
}

/// What applying what came of a chunk request comes to.
pub open spec fn apply_effect(
    reader: ReaderView,
    table: ReaderTable,
    bridge: IoBridge,
    generation: u64,
    operation: u64,
    state: PumpState,
    chunk: ChunkKind,
    now: i64,
    reader_after: ReaderView,
    table_after: ReaderTable,
    bridge_after: IoBridge,
    step: PumpStep,
) -> bool {
    if reader.generation != generation {
        &&& step.fire is None
        &&& step.next is Done
        &&& reader_after == reader
        &&& untouched(table, bridge, table_after, bridge_after)
    } else {
        match chunk {
            ChunkKind::Error(error) => {
                &&& step.fire is None
                &&& step.next matches PumpPhase::Queue(job) && failure_effect(
                    reader,
                    table,
                    bridge,
                    reader_after,
                    table_after,
                    bridge_after,
                    Some(job),
                    generation,
                    operation,
                    state.total,
                    error,
                )
            },
            ChunkKind::Eof => {
                &&& step.fire is None
                &&& step.next == PumpPhase::Finish(state)
                &&& reader_after == reader
                &&& untouched(table, bridge, table_after, bridge_after)
            },
            ChunkKind::Chunk(bytes) => match step.next {
                PumpPhase::Continue(after) => {
                    &&& chunk_applied(state, after, bytes@, now)
                    &&& reader_after == (ReaderView { loaded: after.loaded, ..reader })
                    &&& untouched(table, bridge, table_after, bridge_after)
                    &&& step.fire == if progress_due(state.last_progress_at, now) && after.loaded
                        < after.total {
                        live_event(
                            reader_after,
                            generation,
                            ReaderEvent {
                                kind: EventKind::Progress,
                                loaded: after.loaded,
                                total: after.total,
                            },
                        )
                    } else {
                        None
                    }
                },
                PumpPhase::Queue(job) => {
                    &&& state.kind == ReadKind::Text
                    &&& chunk_refused(state, bytes@)
                    &&& step.fire is None
                    &&& failure_effect(
                        reader,
                        table,
                        bridge,
                        reader_after,
                        table_after,
                        bridge_after,
                        Some(job),
                        generation,
                        operation,
                        state.total,
                        FileApiError::ResourceLimit(ResourceLimitKind::MaterializeBytes),
                    )
                },
                _ => false,
            },
        }
    }
}

/// Applies what came of a chunk request.
///
/// Bytes are appended or decoded and `progress` fires when it is due and there
/// is more to come; the end of the blob finishes the read; a failure ends it, and
/// so does a text that the allocator refused room for.
pub fn apply_chunk(
    table: &mut ReaderTable,
    native: &mut FileReaderNative,
    bridge: &mut IoBridge,
    generation: u64,
    operation: u64,
    state: PumpState,
    chunk: ChunkKind,
    now: i64,
) -> (step: PumpStep)
    requires
        consistent(*old(table), *old(bridge)),
        state.wf(),
    ensures
        consistent(*final(table), *final(bridge)),
        apply_effect(
            old(native)@,
            *old(table),
            *old(bridge),
            generation,
            operation,
            state,
            chunk,
            now,
            final(native)@,
            *final(table),
            *final(bridge),
            step,
        ),
{
    if native.generation != generation {
        return PumpStep { fire: None, next: PumpPhase::Done };
    }
    let total: u64 = state.total;
    match chunk {
        ChunkKind::Error(error) => fail_step(
            table,
            native,
            bridge,
            generation,
            operation,
            total,
            error,
        ),
        ChunkKind::Eof => PumpStep { fire: None, next: PumpPhase::Finish(state) },
        ChunkKind::Chunk(bytes) => {
            let mut state = state;
            let ghost before = state;
            let reach: u64 = state.loaded.saturating_add(bytes.len() as u64);
            state.loaded = if reach < total {
                reach
            } else {
                total
            };
            match state.kind {
                ReadKind::Text => {
                    let piece = match state.decoder.push(&state.encoding, bytes.as_slice()) {
                        Ok(piece) => piece,
                        Err(error) => {
                            return fail_step(
                                table,
                                native,
                                bridge,
                                generation,
                                operation,
                                total,
                                error,
                            );
                        },
                    };
                    proof {
                        assert(piece@ =~= completed_piece(
                            before.encoding.spec_name(),
                            before.text@,
                            before.consumed() + bytes@,
                            false,
                        ));
                    }
                    match append_decoded_text(&mut state.text, piece.as_str()) {
                        Ok(_) => {},
                        Err(error) => {
                            return fail_step(
                                table,
                                native,
                                bridge,
                                generation,
                                operation,
                                total,
                                error,
                            );
                        },
                    }
                },
                _ => {
                    append_bytes(&mut state.buffered, &bytes);
                },
            }
            native.loaded = state.loaded;
            let due = state.last_progress_at == i64::MIN || match now.checked_sub(
                state.last_progress_at,
            ) {
                Some(delta) => delta >= PROGRESS_INTERVAL,
                None => false,
            };
            proof {
                assert(due == progress_due(before.last_progress_at, now));
            }
            let mut fire: Option<ReaderEvent> = None;
            if due && state.loaded < state.total {
                state.last_progress_at = now;
                fire =
                when_live(
                    native,
                    generation,
                    ReaderEvent { kind: EventKind::Progress, loaded: state.loaded, total },
                );
            }
            PumpStep { fire, next: PumpPhase::Continue(state) }
        },
    }
}

/// Ends the operation of a job with a failure.
fn fail_step(
    table: &mut ReaderTable,
    native: &mut FileReaderNative,
    bridge: &mut IoBridge,
    generation: u64,
    operation: u64,
    total: u64,
    error: FileApiError,
) -> (step: PumpStep)
    requires
        consistent(*old(table), *old(bridge)),
        old(native).generation == generation,
    ensures
        consistent(*final(table), *final(bridge)),
        step.fire is None,
        step.next matches PumpPhase::Queue(job) && failure_effect(
            old(native)@,
            *old(table),
            *old(bridge),
            final(native)@,
            *final(table),
            *final(bridge),
            Some(job),
            generation,
            operation,
            total,
            error,
        ),
{
    match fail_operation(table, native, bridge, generation, operation, total, error) {
        Some(job) => PumpStep { fire: None, next: PumpPhase::Queue(job) },
        None => PumpStep { fire: None, next: PumpPhase::Done },
    }
}

/// The chunk request that follows `state`.
pub open spec fn next_window(state: PumpState, generation: u64) -> ChunkWindow {
    let remaining = state.total - state.loaded;
    ChunkWindow {
        generation,
        offset: state.loaded,
        len: if state.chunk_size < remaining {
            state.chunk_size as u64
        } else {
            remaining as u64
        },
    }
}

/// What going on after a chunk comes to.
pub open spec fn continue_effect(
    reader: ReaderView,
    table: ReaderTable,
    bridge: IoBridge,
    generation: u64,
    operation: u64,
    state: PumpState,
    table_after: ReaderTable,
    step: PumpStep,
) -> bool {
    let at = op_of(table.ops@, operation);
    &&& step.fire is None
    &&& table_after.queue == table.queue
    &&& if reader.generation != generation {
        step.next is Done && table_after == table
    } else if state.loaded >= state.total {
        step.next == PumpPhase::Finish(state) && table_after == table
    } else if at is None || !is_live(bridge.slots(), operation) {
        step.next is Done && table_after == table
    } else {
        &&& step.next matches PumpPhase::Submit(task) && {
            &&& task.context_id == bridge.context()
            &&& task.operation_id.spec_get() == operation
            &&& task.data@ == table.ops@[at->0].data@
            &&& task.data.wf()
            &&& task.limits == state.limits
            &&& task.window == next_window(state, generation)
        }
        &&& table_after.ops@ == table.ops@.update(
            at->0,
            ReaderOp { pump: Some(state), ..table.ops@[at->0] },
        )
    }
}

/// Goes on after a chunk: finishes the read when all bytes are there, else asks
/// for exactly one more chunk. Nothing is asked for once the slot is gone.
pub fn continue_pump(
    table: &mut ReaderTable,
    native: &FileReaderNative,
    bridge: &IoBridge,
    generation: u64,
    operation: u64,
    state: PumpState,
) -> (step: PumpStep)
    requires
        consistent(*old(table), *bridge),
        state.wf(),
    ensures
        consistent(*final(table), *bridge),
        continue_effect(
            native@,
            *old(table),
            *bridge,
            generation,
            operation,
            state,
            *final(table),
            step,
        ),
{
    if native.generation != generation {
        return PumpStep { fire: None, next: PumpPhase::Done };
    }
    if state.loaded >= state.total {
        return PumpStep { fire: None, next: PumpPhase::Finish(state) };
    }
    let operation_id = FileIoOperationId::from_raw(operation);
    if !bridge.is_reserved(operation_id) {
        return PumpStep { fire: None, next: PumpPhase::Done };
    }
    let at: usize = match table.find(operation) {
        Some(at) => at,
        None => {
            return PumpStep { fire: None, next: PumpPhase::Done };
        },
    };
    let ghost before = table.ops@;
    proof {
        assert(before[at as int].data.wf());
    }
    let remaining: u64 = state.total - state.loaded;
    let len: u64 = if (state.chunk_size as u64) < remaining {
        state.chunk_size as u64
    } else {
        remaining
    };
    let task = FileReaderChunkTask {
        context_id: bridge.context_id(),
        operation_id,
        data: table.ops[at].data.reference(),
        limits: state.limits,
        window: ChunkWindow { generation, offset: state.loaded, len },
    };
    table.ops[at].pump = Some(state);
    proof {
        let after = table.ops@;
        assert forall|i: int| 0 <= i < after.len() implies (#[trigger] after[i]).data.wf() && (
        after[i].pump matches Some(held) ==> held.wf()) by {
            assert(before[i].data.wf());
        }
        assert forall|i: int, j: int| 0 <= i < j < after.len() implies (
        #[trigger] after[i]).operation != (#[trigger] after[j]).operation by {
            assert(before[i].operation != before[j].operation);
        }
        if !bridge.is_closed() {
            assert forall|i: int| 0 <= i < after.len() implies is_chunked(
                bridge.slots(),
                (#[trigger] after[i]).operation,
            ) by {
                assert(is_chunked(bridge.slots(), before[i].operation));
            }
        }
    }
    PumpStep { fire: None, next: PumpPhase::Submit(task) }
}

/// Ends a read whose next chunk request was refused.
pub fn next_submit_failed(
    table: &mut ReaderTable,
    native: &mut FileReaderNative,
    bridge: &mut IoBridge,
    task: &FileReaderChunkTask,
    total: u64,
    error: FileIoSubmitError,
) -> (job: Option<DispatchJob>)
    requires
        consistent(*old(table), *old(bridge)),
    ensures
        consistent(*final(table), *final(bridge)),
        failure_effect(
            old(native)@,
            *old(table),
            *old(bridge),
            final(native)@,
            *final(table),
            *final(bridge),
            job,
            task.window.generation,
            task.operation_id.spec_get(),
            total,
            error.settles_as(),
        ),
{
    fail_operation(
        table,
        native,
        bridge,
        task.window.generation,
        task.operation_id.get(),
        total,
        error.to_file_api_error(),
    )
}

/// All bytes are there: fires the last `progress`, at most once.
pub fn finish_at_eof(native: &FileReaderNative, generation: u64, state: PumpState) -> (step:
    PumpStep)
    requires
        state.wf(),
    ensures
        native.generation != generation ==> step.fire is None && step.next is Done,
        native.generation == generation ==> {
            &&& step.fire == if state.final_progress_sent {
                None
            } else {
                live_event(
                    native@,
                    generation,
                    ReaderEvent {
                        kind: EventKind::Progress,
                        loaded: state.total,
                        total: state.total,
                    },
                )
            }
            &&& step.next == PumpPhase::Publish(PumpState { final_progress_sent: true, ..state })
        },
{
    if native.generation != generation {
        return PumpStep { fire: None, next: PumpPhase::Done };
    }
    let mut state = state;
    let fire = if state.final_progress_sent {
        None
    } else {
        when_live(
            native,
            generation,
            ReaderEvent { kind: EventKind::Progress, loaded: state.total, total: state.total },
        )
    };
    state.final_progress_sent = true;
    PumpStep { fire, next: PumpPhase::Publish(state) }
}

/// The result that a read of `kind` gives for `bytes`.
pub open spec fn packaged(
    kind: ReadKind,
    encoding: Seq<char>,
    media_type: Seq<char>,
    bytes: Seq<u8>,
) -> ResultView {
    match kind {
        ReadKind::ArrayBuffer => ResultView::Bytes(bytes),
        ReadKind::BinaryString => ResultView::BinaryString(binary_string(bytes)),
        ReadKind::Text => ResultView::Text(decoded_text(encoding, bytes, true)),
        ReadKind::DataUrl => ResultView::Text(data_url(media_type, bytes)),
    }
}

/// Whether flushing the decoder of a text read may find no room: for the text
/// of an incomplete tail, or for appending it.
pub open spec fn flush_refused(state: PumpState) -> bool {
    ||| decoding_refused(0)
    ||| append_refused(
        completed_piece(state.encoding.spec_name(), state.text@, state.consumed(), true),
    )
}

/// Whether packaging may fail with `error`: a text only where the allocator
/// refused room for it, a data URL exactly where it is too long, nothing else
/// ever.
pub open spec fn package_failure(
    kind: ReadKind,
    media_type: Seq<char>,
    bytes: Seq<u8>,
    limit: u64,
    refused: bool,
    error: FileApiError,
) -> bool {
    match kind {
        ReadKind::Text => refused && error == FileApiError::ResourceLimit(
            ResourceLimitKind::MaterializeBytes,
        ),
        ReadKind::DataUrl => error == FileApiError::ResourceLimit(ResourceLimitKind::DataUrlOutput)
            && (data_url_size(media_type, bytes.len() as int) > limit || data_url_size(
            media_type,
            bytes.len() as int,
        ) > isize::MAX),
        _ => false,
    }
}

/// Packages everything that a read consumed.
fn package_state(state: PumpState) -> (result: Result<FileReaderResult, FileApiError>)
    requires
        state.wf(),
    ensures
        match result {
            Ok(packed) => {
                &&& packed@ == packaged(
                    state.kind,
                    state.encoding.spec_name(),
                    state.media_type@,
                    state.consumed(),
                )
                &&& state.kind == ReadKind::DataUrl ==> data_url_size(
                    state.media_type@,
                    state.consumed().len() as int,
                ) <= state.data_url_limit
            },
            Err(error) => package_failure(
                state.kind,
                state.media_type@,
                state.consumed(),
                state.data_url_limit,
                flush_refused(state),
                error,
            ),
        },
{
    let ghost before = state;
    let mut state = state;
    match state.kind {
        ReadKind::ArrayBuffer => Ok(FileReaderResult::Bytes(state.buffered)),
        ReadKind::BinaryString => Ok(
            FileReaderResult::BinaryString(package_binary_string(state.buffered.as_slice())),
        ),
        ReadKind::Text => {
            let tail = match state.decoder.finish(&state.encoding) {
                Ok(tail) => tail,
                Err(error) => {
                    return Err(error);
                },
            };
            proof {
                assert(tail@ =~= completed_piece(
                    before.encoding.spec_name(),
                    before.text@,
                    before.consumed(),
                    true,
                ));
            }
            match append_decoded_text(&mut state.text, tail.as_str()) {
                Ok(_) => Ok(FileReaderResult::Text(state.text)),
                Err(error) => Err(error),
            }
        },
        ReadKind::DataUrl => {
            match package_data_url(
                state.media_type.as_str(),
                state.buffered.as_slice(),
                state.data_url_limit,
            ) {
                Ok(text) => Ok(FileReaderResult::Text(text)),
                Err(error) => Err(error),
            }
        },
    }
}

/// What packaging a read comes to: the result and a `load` job, or a failure.
pub open spec fn publish_effect(
    state: PumpState,
    reader: ReaderView,
    table: ReaderTable,
    bridge: IoBridge,
    reader_after: ReaderView,
    table_after: ReaderTable,
    bridge_after: IoBridge,
    job: DispatchJob,
    generation: u64,
    operation: u64,
) -> bool {
    if reader_after.error is None {
        &&& job == (DispatchJob {
            generation,
            operation,
            event: ReaderEvent { kind: EventKind::Load, loaded: state.total, total: state.total },
            terminal: Some(TerminalKind::Load),
        })
        &&& reader_after == (ReaderView {
            ready_state: DONE,
            result: Some(
                packaged(
                    state.kind,
                    state.encoding.spec_name(),
                    state.media_type@,
                    state.consumed(),
                ),
            ),
            error: None,
            terminal_dispatched: false,
            loaded: state.total,
            ..reader
        })
        &&& operation_released(table, bridge, table_after, bridge_after, operation)
        &&& table_after.queue.next_generation == table.queue.next_generation
        &&& state.kind == ReadKind::DataUrl ==> data_url_size(
            state.media_type@,
            state.consumed().len() as int,
        ) <= state.data_url_limit
    } else {
        exists|error: FileApiError|
            #![trigger mapped_error(error)]
            package_failure(
                state.kind,
                state.media_type@,
                state.consumed(),
                state.data_url_limit,
                flush_refused(state),
                error,
            ) && failure_effect(
                reader,
                table,
                bridge,
                reader_after,
                table_after,
                bridge_after,
                Some(job),
                generation,
                operation,
                state.total,
                error,
            )
    }
}

/// What publishing comes to, unless the generation is gone.
pub open spec fn publish_step(
    state: PumpState,
    reader: ReaderView,
    table: ReaderTable,
    bridge: IoBridge,
    reader_after: ReaderView,
    table_after: ReaderTable,
    bridge_after: IoBridge,
    step: PumpStep,
    generation: u64,
    operation: u64,
) -> bool {
    &&& step.fire is None
    &&& if reader.generation != generation {
        &&& step.next is Done
        &&& reader_after == reader
        &&& untouched(table, bridge, table_after, bridge_after)
    } else {
        step.next matches PumpPhase::Queue(job) && publish_effect(
            state,
            reader,
            table,
            bridge,
            reader_after,
            table_after,
            bridge_after,
            job,
            generation,
            operation,
        )
    }
}

/// Settles a read with its result and releases its slot, unless the generation
/// is gone; a result that cannot be packaged is a failure.
pub fn publish_result(
    table: &mut ReaderTable,
    native: &mut FileReaderNative,
    bridge: &mut IoBridge,
    generation: u64,
    operation: u64,
    state: PumpState,
) -> (step: PumpStep)
    requires
        consistent(*old(table), *old(bridge)),
        state.wf(),
    ensures
        consistent(*final(table), *final(bridge)),
        publish_step(
            state,
            old(native)@,
            *old(table),
            *old(bridge),
            final(native)@,
            *final(table),
            *final(bridge),
            step,
            generation,
            operation,
        ),
{
    if native.generation != generation {
        return PumpStep { fire: None, next: PumpPhase::Done };
    }
    let total: u64 = state.total;
    match package_state(state) {
        Ok(result) => {
            native.ready_state = DONE;
            native.result = Some(result);
            native.error = None;
            native.terminal_dispatched = false;
            native.loaded = total;
            let _ = release_operation(table, bridge, operation);
            PumpStep {
                fire: None,
                next: PumpPhase::Queue(
                    DispatchJob {
                        generation,
                        operation,
                        event: ReaderEvent { kind: EventKind::Load, loaded: total, total },
                        terminal: Some(TerminalKind::Load),
                    },
                ),
            }
        },
        Err(error) => {
            let step = fail_step(table, native, bridge, generation, operation, total, error);
            proof {
                assert(native@.error == Some(mapped_error(error)));
            }
            step
        },
    }
}

/// Whether a dispatch job fires its event: its generation is current, the
/// runtime is up, a terminal event finds the settled reader and fires once,
/// `loadend` follows a terminal event, and the others need a busy reader.
pub open spec fn dispatch_fires(reader: ReaderView, job: DispatchJob, shutdown: bool) -> bool {
    &&& reader.generation == job.generation
    &&& !shutdown
    &&& match job.terminal {
        Some(kind) => {
            &&& !reader.terminal_dispatched
            &&& reader.ready_state == DONE
            &&& kind == TerminalKind::Error ==> reader.error is Some
        },
        None => if job.event.kind == EventKind::LoadEnd {
            reader.terminal_dispatched
        } else {
            reader.ready_state == LOADING && !reader.terminal_dispatched
        },
    }
}

/// Starts a dispatch job: the event to fire, if it is to be fired.
pub fn run_dispatch(native: &FileReaderNative, job: &DispatchJob, shutdown: bool) -> (fire: Option<
    ReaderEvent,
>)
    ensures
        fire == if dispatch_fires(native@, *job, shutdown) {
            Some(job.event)
        } else {
            None
        },
{
    if native.generation != job.generation || shutdown {
        return None;
    }
    match job.terminal {
        Some(kind) => {
            if native.terminal_dispatched || native.ready_state != DONE {
                return None;
            }
            if kind == TerminalKind::Error && native.error.is_none() {
                return None;
            }
        },
        None => {
            if job.event.kind == EventKind::LoadEnd {
                if !native.terminal_dispatched {
                    return None;
                }
            } else if native.ready_state != LOADING || native.terminal_dispatched {
                return None;
            }
        },
    }
    Some(job.event)
}

/// The job that fires `loadend` after a terminal event.
pub open spec fn loadend_job(job: DispatchJob) -> DispatchJob {
    DispatchJob {
        generation: job.generation,
        operation: job.operation,
        event: ReaderEvent {
            kind: EventKind::LoadEnd,
            loaded: job.event.loaded,
            total: job.event.total,
        },
        terminal: None,
    }
}

/// The reader after a dispatch job whose event was fired, and the job that
/// follows: a terminal event is noted and followed by `loadend`, unless the
/// generation was replaced meanwhile.
pub open spec fn dispatch_finished(reader: ReaderView, job: DispatchJob) -> (
    ReaderView,
    Option<DispatchJob>,
) {
    if job.terminal is Some && reader.generation == job.generation {
        (ReaderView { terminal_dispatched: true, ..reader }, Some(loadend_job(job)))
    } else {
        (reader, None)
    }
}

/// Ends a dispatch job whose event was fired. A terminal event is noted and
/// followed by `loadend`, unless a handler has started another operation.
pub fn finish_dispatch(native: &mut FileReaderNative, job: &DispatchJob) -> (follow_up: Option<
    DispatchJob,
>)
    ensures
        (final(native)@, follow_up) == dispatch_finished(old(native)@, *job),
{
    if job.terminal.is_none() || native.generation != job.generation {
        return None;
    }
    native.terminal_dispatched = true;
    Some(
        DispatchJob {
            generation: job.generation,
            operation: job.operation,
            event: ReaderEvent {
                kind: EventKind::LoadEnd,
                loaded: job.event.loaded,
                total: job.event.total,
            },
            terminal: None,
        },
    )
}

/// Whether a drained chunk completion belongs to a read that waits for it.
pub open spec fn completion_wanted(
    table: ReaderTable,
    reader: ReaderView,
    completion: FileReaderChunkCompletion,
    shutdown: bool,
) -> bool {
    match op_of(table.ops@, completion.operation_id.spec_get()) {
        Some(i) => {
            &&& table.ops@[i].generation == completion.generation
            &&& !shutdown
            &&& table.ops@[i].reader == reader.key
            &&& reader.generation == completion.generation
            &&& table.ops@[i].pump is Some
        },
        None => false,
    }
}

/// What settling a drained chunk completion does: the packaging state goes into
/// the job.
pub open spec fn reader_settled(
    table: ReaderTable,
    reader: ReaderView,
    completion: FileReaderChunkCompletion,
    shutdown: bool,
    table_after: ReaderTable,
    job: Option<PumpJob>,
) -> bool {
    &&& table_after.queue == table.queue
    &&& job is Some == completion_wanted(table, reader, completion, shutdown)
    &&& match job {
        Some(pump) => {
            let at = op_of(table.ops@, completion.operation_id.spec_get())->0;
            &&& pump.generation == completion.generation
            &&& pump.operation == completion.operation_id.spec_get()
            &&& pump.chunk == completion.kind
            &&& Some(pump.state) == table.ops@[at].pump
            &&& pump.state.wf()
            &&& table_after.ops@ == table.ops@.update(
                at,
                ReaderOp { pump: None, ..table.ops@[at] },
            )
        },
        None => table_after.ops@ == table.ops@,
    }
}

/// Turns a drained chunk completion into a job; a late one is dropped and
/// changes nothing.
pub fn settle_reader_completion(
    table: &mut ReaderTable,
    native: &FileReaderNative,
    completion: FileReaderChunkCompletion,
    shutdown: bool,
) -> (job: Option<PumpJob>)
    requires
        old(table).wf(),
    ensures
        final(table).wf(),
        reader_settled(*old(table), native@, completion, shutdown, *final(table), job),
{
    let operation: u64 = completion.operation_id.get();
    let at: usize = match table.find(operation) {
        Some(at) => at,
        None => {
            return None;
        },
    };
    if table.ops[at].generation != completion.generation || shutdown {
        return None;
    }
    if table.ops[at].reader != native.key || native.generation != completion.generation {
        return None;
    }
    let ghost before = table.ops@;
    proof {
        assert(before[at as int].data.wf());
    }
    let state = match table.ops[at].pump.take() {
        Some(state) => state,
        None => {
            proof {
                assert(table.ops@ =~= before);
            }
            return None;
        },
    };
    proof {
        let after = table.ops@;
        assert forall|i: int| 0 <= i < after.len() implies (#[trigger] after[i]).data.wf() && (
        after[i].pump matches Some(held) ==> held.wf()) by {
            assert(before[i].data.wf());
        }
        assert forall|i: int, j: int| 0 <= i < j < after.len() implies (
        #[trigger] after[i]).operation != (#[trigger] after[j]).operation by {
            assert(before[i].operation != before[j].operation);
        }
    }
    Some(
        PumpJob { generation: completion.generation, operation, state, chunk: completion.kind },
    )
}

/// The number of chunks that a read of `total` bytes takes.
pub fn buffered_chunk_count(total: u64, chunk_size: u64) -> (count: u64)
    ensures
        total == 0 ==> count == 0,
        total > 0 ==> ({
            let size = if chunk_size == 0 {
                1
            } else {
                chunk_size
            };
            (count - 1) * size < total <= count * size
        }),
{
    if total == 0 {
        return 0;
    }
    let size: u64 = if chunk_size == 0 {
        1
    } else {
        chunk_size
    };
    let whole: u64 = total / size;
    let rest: u64 = total % size;
    proof {
        vstd::arithmetic::div_mod::lemma_fundamental_div_mod(total as int, size as int);
        assert(size * whole == whole * size) by (nonlinear_arith);
        assert((whole + 1) * size == whole * size + size) by (nonlinear_arith);
        assert((whole - 1) * size == whole * size - size) by (nonlinear_arith);
        assert(whole <= total) by (nonlinear_arith)
            requires
                total == size * whole + rest,
                size >= 1,
        ;
        assert(rest > 0 ==> whole < total) by (nonlinear_arith)
            requires
                total == size * whole + rest,
                size >= 1,
        ;
    }
    if rest == 0 {
        whole
    } else {
        whole + 1
    }
}

/// A read gives what it read: along any run of chunks, where the worker answers
/// every request with the bytes of `content` at its place, the packaged result
/// of the finished read is that of `content`.
pub proof fn lemma_read_gives_content(
    states: Seq<PumpState>,
    chunks: Seq<Seq<u8>>,
    times: Seq<i64>,
    request: ReadRequest,
    limits: FileApiLimits,
    content: Seq<u8>,
)
    requires
        states.len() == chunks.len() + 1,
        times.len() == chunks.len(),
        is_initial(states[0], request, limits),
        content.len() == request.data.spec_size(),
        forall|i: int|
            0 <= i < chunks.len() ==> chunk_applied(
                states[i],
                states[i + 1],
                #[trigger] chunks[i],
                times[i],
            ),
        forall|i: int|
            0 <= i < chunks.len() ==> states[i].loaded + (#[trigger] chunks[i]).len()
                <= content.len() && chunks[i] == content.subrange(
                states[i].loaded as int,
                states[i].loaded + chunks[i].len(),
            ),
        states.last().loaded == states.last().total,
    ensures
        packaged(
            states.last().kind,
            states.last().encoding.spec_name(),
            states.last().media_type@,
            states.last().consumed(),
        ) == packaged(request.kind, request.encoding.spec_name(), request.media_type@, content),
{
    lemma_run_prefix(states, chunks, times, request, limits, content, chunks.len() as int);
    assert(content.take(content.len() as int) =~= content);
}

proof fn lemma_run_prefix(
    states: Seq<PumpState>,
    chunks: Seq<Seq<u8>>,
    times: Seq<i64>,
    request: ReadRequest,
    limits: FileApiLimits,
    content: Seq<u8>,
    at: int,
)
    requires
        states.len() == chunks.len() + 1,
        times.len() == chunks.len(),
        is_initial(states[0], request, limits),
        content.len() == request.data.spec_size(),
        forall|i: int|
            0 <= i < chunks.len() ==> chunk_applied(
                states[i],
                states[i + 1],
                #[trigger] chunks[i],
                times[i],
            ),
        forall|i: int|
            0 <= i < chunks.len() ==> states[i].loaded + (#[trigger] chunks[i]).len()
                <= content.len() && chunks[i] == content.subrange(
                states[i].loaded as int,
                states[i].loaded + chunks[i].len(),
            ),
        0 <= at <= chunks.len(),
    ensures
        states[at].total == content.len(),
        states[at].loaded <= states[at].total,
        states[at].consumed() == content.take(states[at].loaded as int),
        states[at].kind == request.kind,
        states[at].encoding == request.encoding,
        states[at].media_type@ == request.media_type@,
    decreases at,
{
    if at > 0 {
        lemma_run_prefix(states, chunks, times, request, limits, content, at - 1);
        let before = states[at - 1];
        let after = states[at];
        let bytes = chunks[at - 1];
        assert(chunk_applied(before, after, bytes, times[at - 1]));
        assert(after.consumed() =~= content.take(after.loaded as int));
    } else {
        assert(content.take(0) =~= Seq::<u8>::empty());
    }
}

/// A generation fires at most one terminal event: once one was fired, no
/// terminal job of this generation fires any more.
pub proof fn lemma_one_terminal_event(reader: ReaderView, job: DispatchJob, shutdown: bool)
    requires
        job.terminal is Some,
        job.generation == reader.generation,
    ensures
        !dispatch_fires(ReaderView { terminal_dispatched: true, ..reader }, job, shutdown),
{
}

/// No `loadstart` or `progress` fires once a generation is settled.
pub proof fn lemma_no_progress_after_settlement(reader: ReaderView, job: DispatchJob, shutdown: bool)
    requires
        reader.ready_state == DONE,
        job.terminal is None,
        job.event.kind != EventKind::LoadEnd,
    ensures
        !dispatch_fires(reader, job, shutdown),
        !event_live(reader, job.generation),
{
}

/// A job of a generation that is gone fires nothing.
pub proof fn lemma_stale_job_fires_nothing(reader: ReaderView, job: DispatchJob, shutdown: bool)
    requires
        job.generation != reader.generation,
    ensures
        !dispatch_fires(reader, job, shutdown),
        !event_live(reader, job.generation),
{
}

/// A slot is released once: after the release the operation is unknown, so a
/// second release changes nothing.
pub proof fn lemma_released_once(ops: Seq<ReaderOp>, operation: u64)
    requires
        ops_distinct(ops),
        op_of(ops, operation) is Some,
    ensures
        op_of(ops.remove(op_of(ops, operation)->0), operation) is None,
{
    lemma_op_of(ops, operation);
    let at = op_of(ops, operation)->0;
    let rest = ops.remove(at);
    lemma_op_of(rest, operation);
    if op_of(rest, operation) is Some {
        let k = op_of(rest, operation)->0;
        if k < at {
            assert(ops[k].operation != ops[at].operation);
        } else {
            assert(rest[k] == ops[k + 1]);
            assert(ops[at].operation != ops[k + 1].operation);
        }
    }
}

/// Two `progress` events of chunks are at least the interval apart.
pub proof fn lemma_progress_is_throttled(last: i64, now: i64)
    requires
        last != i64::MIN,
        progress_due(last, now),
    ensures
        now - last >= PROGRESS_INTERVAL,
{
}

} // verus!
