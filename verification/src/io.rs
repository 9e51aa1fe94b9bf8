//! File I/O tasks, their completions, and the bridge between the script thread
//! and the workers.
//!
//! Every operation holds one slot of the bridge from its reservation to its
//! release. Workers hand completions in; the script thread drains them. Whole
//! reads settle in the order in which they were submitted, chunk completions
//! in the order in which they arrived. Completions for released operations are
//! dropped.

use vstd::prelude::*;

use crate::blob::BlobData;
use crate::error::FileApiError;
use crate::ids::{FileApiContextId, FileIoOperationId};
use crate::limits::FileApiLimits;

verus! {

/// Why an executor refused a task.
#[derive(Clone, Copy, Debug, PartialEq, Eq, Structural)]
pub enum FileIoSubmitError {
    /// The executor queue is full.
    QueueFull,
    /// The runtime is shut down.
    Shutdown,
    /// No worker can run the task.
    WorkerLost,
}

impl FileIoSubmitError {
    /// The text of the error.
    pub open spec fn text(self) -> Seq<char> {
        match self {
            FileIoSubmitError::QueueFull => "file I/O queue is full"@,
            FileIoSubmitError::Shutdown => "file I/O runtime is shut down"@,
            FileIoSubmitError::WorkerLost => "file I/O worker is unavailable"@,
        }
    }

    /// The text of the error.
    pub fn message(&self) -> (text: &'static str)
        ensures
            text@ == self.text(),
    {
        match self {
            FileIoSubmitError::QueueFull => "file I/O queue is full",
            FileIoSubmitError::Shutdown => "file I/O runtime is shut down",
            FileIoSubmitError::WorkerLost => "file I/O worker is unavailable",
        }
    }

    /// The failure that a read settles with when its task was refused.
    pub open spec fn settles_as(self) -> FileApiError {
        match self {
            FileIoSubmitError::WorkerLost => FileApiError::Internal,
            _ => FileApiError::TooManyReads,
        }
    }

    /// The failure that a read settles with when its task was refused.
    pub fn to_file_api_error(&self) -> (error: FileApiError)
        ensures
            error == self.settles_as(),
    {
        match self {
            FileIoSubmitError::WorkerLost => FileApiError::Internal,
            FileIoSubmitError::QueueFull | FileIoSubmitError::Shutdown =>
                FileApiError::TooManyReads,
        }
    }
}

/// Why completions could not be drained.
#[derive(Clone, Copy, Debug, PartialEq, Eq, Structural)]
pub enum PollIoError {
    /// The context has no File API registration.
    NotRegistered,
    /// The context belongs to another registration.
    ForeignContext,
}

impl PollIoError {
    /// The text of the error.
    pub open spec fn text(self) -> Seq<char> {
        match self {
            PollIoError::NotRegistered =>
                "the File API extension is not registered in this context"@,
            PollIoError::ForeignContext => "poll_io called with a foreign context"@,
        }
    }

    /// The text of the error.
    pub fn message(&self) -> (text: &'static str)
        ensures
            text@ == self.text(),
    {
        match self {
            PollIoError::NotRegistered =>
                "the File API extension is not registered in this context",
            PollIoError::ForeignContext => "poll_io called with a foreign context",
        }
    }
}

/// Why no slot was reserved.
#[derive(Clone, Copy, Debug, PartialEq, Eq, Structural)]
pub enum ReserveError {
    /// Every slot is taken, or no identifier is left.
    QuotaFull,
    /// Too many completions wait to be drained.
    CompletionFull,
    /// The runtime is shut down.
    Shutdown,
}

impl ReserveError {
    /// The failure that a read settles with when it got no slot.
    pub open spec fn settles_as(self) -> FileApiError {
        match self {
            ReserveError::Shutdown => FileApiError::Cancelled,
            _ => FileApiError::TooManyReads,
        }
    }

    /// The failure that a read settles with when it got no slot.
    pub fn to_file_api_error(&self) -> (error: FileApiError)
        ensures
            error == self.settles_as(),
    {
        match self {
            ReserveError::Shutdown => FileApiError::Cancelled,
            ReserveError::QuotaFull | ReserveError::CompletionFull => FileApiError::TooManyReads,
        }
    }
}

/// A request to read a whole blob.
#[derive(Clone, Debug)]
pub struct FileIoTask {
    /// The owning context.
    pub context_id: FileApiContextId,
    /// The operation.
    pub operation_id: FileIoOperationId,
    /// What to read.
    pub data: BlobData,
    /// The ceilings at submission.
    pub limits: FileApiLimits,
}

impl FileIoTask {
    /// The completion with the bytes that were read.
    pub fn complete_ok(&self, bytes: Vec<u8>) -> (completion: FileIoCompletion)
        ensures
            completion.context_id == self.context_id,
            completion.operation_id == self.operation_id,
            completion.result == Ok::<Vec<u8>, FileApiError>(bytes),
    {
        FileIoCompletion {
            context_id: self.context_id,
            operation_id: self.operation_id,
            result: Ok(bytes),
        }
    }

    /// The completion with a failure.
    pub fn complete_err(&self, error: FileApiError) -> (completion: FileIoCompletion)
        ensures
            completion.context_id == self.context_id,
            completion.operation_id == self.operation_id,
            completion.result == Err::<Vec<u8>, FileApiError>(error),
    {
        FileIoCompletion {
            context_id: self.context_id,
            operation_id: self.operation_id,
            result: Err(error),
        }
    }
}

/// The outcome of reading a whole blob.
#[derive(Debug)]
pub struct FileIoCompletion {
    /// The owning context.
    pub context_id: FileApiContextId,
    /// The operation.
    pub operation_id: FileIoOperationId,
    /// The bytes, or why they could not be read.
    pub result: Result<Vec<u8>, FileApiError>,
}

/// Where a chunk request stands in its read.
#[derive(Clone, Copy, Debug, PartialEq, Eq, Structural)]
pub struct ChunkWindow {
    /// The generation of the read.
    pub generation: u64,
    /// The first byte.
    pub offset: u64,
    /// The number of bytes.
    pub len: u64,
}

/// A request to read one chunk of a `FileReader` operation.
#[derive(Clone, Debug)]
pub struct FileReaderChunkTask {
    /// The owning context.
    pub context_id: FileApiContextId,
    /// The operation.
    pub operation_id: FileIoOperationId,
    /// What to read.
    pub data: BlobData,
    /// The ceilings at submission.
    pub limits: FileApiLimits,
    /// Which part of it.
    pub window: ChunkWindow,
}

/// A request to read one chunk of a stream.
#[derive(Clone, Debug)]
pub struct StreamChunkTask {
    /// The owning context.
    pub context_id: FileApiContextId,
    /// The operation.
    pub operation_id: FileIoOperationId,
    /// What to read.
    pub data: BlobData,
    /// The ceilings at submission.
    pub limits: FileApiLimits,
    /// Which part of it.
    pub window: ChunkWindow,
}

/// The outcome of one chunk request.
#[derive(Clone, Debug)]
pub enum ChunkKind {
    /// The bytes of the chunk.
    Chunk(Vec<u8>),
    /// The read was at the end of the blob.
    Eof,
    /// The chunk could not be read.
    Error(FileApiError),
}

/// The outcome of one chunk request of a `FileReader` operation.
#[derive(Clone, Debug)]
pub struct FileReaderChunkCompletion {
    /// The owning context.
    pub context_id: FileApiContextId,
    /// The operation.
    pub operation_id: FileIoOperationId,
    /// The generation of the operation.
    pub generation: u64,
    /// What came of the request.
    pub kind: ChunkKind,
}

/// The outcome of one chunk request of a stream.
#[derive(Clone, Debug)]
pub struct StreamChunkCompletion {
    /// The owning context.
    pub context_id: FileApiContextId,
    /// The operation.
    pub operation_id: FileIoOperationId,
    /// The generation of the stream.
    pub generation: u64,
    /// What came of the request.
    pub kind: ChunkKind,
}

impl FileIoTask {
    /// The owning context.
    pub fn context_id(&self) -> (value: FileApiContextId)
        ensures
            value == self.context_id,
    {
        self.context_id
    }

    /// The operation.
    pub fn operation_id(&self) -> (value: FileIoOperationId)
        ensures
            value == self.operation_id,
    {
        self.operation_id
    }
}

impl FileIoCompletion {
    /// The owning context.
    pub fn context_id(&self) -> (value: FileApiContextId)
        ensures
            value == self.context_id,
    {
        self.context_id
    }

    /// The operation.
    pub fn operation_id(&self) -> (value: FileIoOperationId)
        ensures
            value == self.operation_id,
    {
        self.operation_id
    }
}

impl FileReaderChunkTask {
    /// The owning context.
    pub fn context_id(&self) -> (value: FileApiContextId)
        ensures
            value == self.context_id,
    {
        self.context_id
    }

    /// The operation.
    pub fn operation_id(&self) -> (value: FileIoOperationId)
        ensures
            value == self.operation_id,
    {
        self.operation_id
    }

    /// The generation of the read.
    pub fn generation(&self) -> (value: u64)
        ensures
            value == self.window.generation,
    {
        self.window.generation
    }

    /// The first byte.
    pub fn offset(&self) -> (value: u64)
        ensures
            value == self.window.offset,
    {
        self.window.offset
    }

    /// The number of bytes.
    pub fn len(&self) -> (value: u64)
        ensures
            value == self.window.len,
    {
        self.window.len
    }

    /// Whether no byte is asked for.
    pub fn is_empty(&self) -> (value: bool)
        ensures
            value == (self.window.len == 0),
    {
        self.window.len == 0
    }
}

impl FileReaderChunkCompletion {
    /// The owning context.
    pub fn context_id(&self) -> (value: FileApiContextId)
        ensures
            value == self.context_id,
    {
        self.context_id
    }

    /// The operation.
    pub fn operation_id(&self) -> (value: FileIoOperationId)
        ensures
            value == self.operation_id,
    {
        self.operation_id
    }

    /// The generation of the read.
    pub fn generation(&self) -> (value: u64)
        ensures
            value == self.generation,
    {
        self.generation
    }
}

impl StreamChunkTask {
    /// The owning context.
    pub fn context_id(&self) -> (value: FileApiContextId)
        ensures
            value == self.context_id,
    {
        self.context_id
    }

    /// The operation.
    pub fn operation_id(&self) -> (value: FileIoOperationId)
        ensures
            value == self.operation_id,
    {
        self.operation_id
    }

    /// The generation of the read.
    pub fn generation(&self) -> (value: u64)
        ensures
            value == self.window.generation,
    {
        self.window.generation
    }

    /// The first byte.
    pub fn offset(&self) -> (value: u64)
        ensures
            value == self.window.offset,
    {
        self.window.offset
    }

    /// The number of bytes.
    pub fn len(&self) -> (value: u64)
        ensures
            value == self.window.len,
    {
        self.window.len
    }

    /// Whether no byte is asked for.
    pub fn is_empty(&self) -> (value: bool)
        ensures
            value == (self.window.len == 0),
    {
        self.window.len == 0
    }
}

impl StreamChunkCompletion {
    /// The owning context.
    pub fn context_id(&self) -> (value: FileApiContextId)
        ensures
            value == self.context_id,
    {
        self.context_id
    }

    /// The operation.
    pub fn operation_id(&self) -> (value: FileIoOperationId)
        ensures
            value == self.operation_id,
    {
        self.operation_id
    }

    /// The generation of the read.
    pub fn generation(&self) -> (value: u64)
        ensures
            value == self.generation,
    {
        self.generation
    }
}

/// The most workers of a pool.
pub const MAX_WORKERS: usize = 32;

/// The most requests that may wait in a pool.
pub const MAX_QUEUE: usize = 4096;

/// `wanted` as a size between one and `most`.
pub open spec fn clamped_size(wanted: usize, most: usize) -> usize {
    if wanted == 0 {
        1
    } else if wanted > most {
        most
    } else {
        wanted
    }
}

/// The workers and the queue length of a pool: both within bounds.
pub fn pool_size(worker_count: usize, queue_cap: usize) -> (size: (usize, usize))
    ensures
        size.0 == clamped_size(worker_count, MAX_WORKERS),
        size.1 == clamped_size(queue_cap, MAX_QUEUE),
{
    let workers: usize = if worker_count == 0 {
        1
    } else if worker_count > MAX_WORKERS {
        MAX_WORKERS
    } else {
        worker_count
    };
    let queue: usize = if queue_cap == 0 {
        1
    } else if queue_cap > MAX_QUEUE {
        MAX_QUEUE
    } else {
        queue_cap
    };
    (workers, queue)
}

/// The host's executor. A task runs away from the script thread, and its
/// completion is handed to the bridge.
pub trait FileIoExecutor: Send + Sync + 'static {
    /// Queues a whole read.
    fn submit(&self, task: FileIoTask) -> Result<(), FileIoSubmitError>;

    /// Queues a chunk of a `FileReader` operation.
    fn submit_reader(&self, task: FileReaderChunkTask) -> Result<(), FileIoSubmitError> {
        Err(FileIoSubmitError::WorkerLost)
    }

    /// Queues a chunk of a stream.
    fn submit_stream(&self, task: StreamChunkTask) -> Result<(), FileIoSubmitError> {
        Err(FileIoSubmitError::WorkerLost)
    }
}

/// The host's wake hook, signalled when a completion waits.
pub trait FileIoWake: Send + Sync + 'static {
    /// Signals that a completion waits for `context_id`.
    fn wake(&self, context_id: FileApiContextId);
}

/// A wake hook that does nothing.
#[derive(Clone, Copy, Debug, Default)]
pub struct NoopWake;

impl FileIoWake for NoopWake {
    fn wake(&self, context_id: FileApiContextId) {
    }
}

/// What a worker does with a chunk request.
#[derive(Clone, Copy, Debug, PartialEq, Eq, Structural)]
pub enum ChunkPlan {
    /// Nothing: the operation is cancelled.
    Cancelled,
    /// Nothing: the read is at the end.
    Eof,
    /// Nothing: the window lies outside the blob.
    Invalid,
    /// Reads the bytes `start..end`.
    Read {
        /// The first byte.
        start: u64,
        /// The byte after the last one.
        end: u64,
    },
}

/// What a worker does with the request for `len` bytes from `offset` of a blob
/// of `size` bytes.
pub open spec fn chunk_plan(cancelled: bool, size: u64, offset: u64, len: u64) -> ChunkPlan {
    if cancelled {
        ChunkPlan::Cancelled
    } else if offset == size {
        ChunkPlan::Eof
    } else if offset > size || len == 0 {
        ChunkPlan::Invalid
    } else if offset + len > size {
        ChunkPlan::Read { start: offset, end: size }
    } else {
        ChunkPlan::Read { start: offset, end: (offset + len) as u64 }
    }
}

/// Decides what a worker does with a chunk request.
pub fn plan_chunk(cancelled: bool, size: u64, offset: u64, len: u64) -> (plan: ChunkPlan)
    ensures
        plan == chunk_plan(cancelled, size, offset, len),
{
    if cancelled {
        return ChunkPlan::Cancelled;
    }
    if offset == size {
        return ChunkPlan::Eof;
    }
    let reach: u64 = offset.saturating_add(len);
    let end: u64 = if reach < size {
        reach
    } else {
        size
    };
    if end <= offset {
        return ChunkPlan::Invalid;
    }
    ChunkPlan::Read { start: offset, end }
}

/// What a chunk request comes to, given what reading its range came to. Only
/// an answer of exactly the planned length is a chunk.
pub open spec fn chunk_outcome(plan: ChunkPlan, read: Result<Vec<u8>, FileApiError>) -> ChunkKind {
    match plan {
        ChunkPlan::Cancelled => ChunkKind::Error(FileApiError::Cancelled),
        ChunkPlan::Eof => ChunkKind::Eof,
        ChunkPlan::Invalid => ChunkKind::Error(FileApiError::InvalidRange),
        ChunkPlan::Read { start, end } => match read {
            Ok(bytes) => if bytes@.len() == end - start {
                ChunkKind::Chunk(bytes)
            } else {
                ChunkKind::Error(FileApiError::InvalidRange)
            },
            Err(error) => ChunkKind::Error(error),
        },
    }
}

/// Settles a chunk request with what reading its range came to.
pub fn settle_chunk(plan: ChunkPlan, read: Result<Vec<u8>, FileApiError>) -> (kind: ChunkKind)
    requires
        plan matches ChunkPlan::Read { start, end } ==> start <= end,
    ensures
        kind == chunk_outcome(plan, read),
{
    match plan {
        ChunkPlan::Cancelled => ChunkKind::Error(FileApiError::Cancelled),
        ChunkPlan::Eof => ChunkKind::Eof,
        ChunkPlan::Invalid => ChunkKind::Error(FileApiError::InvalidRange),
        ChunkPlan::Read { start, end } => match read {
            Ok(bytes) => {
                if bytes.len() as u64 == end - start {
                    ChunkKind::Chunk(bytes)
                } else {
                    ChunkKind::Error(FileApiError::InvalidRange)
                }
            },
            Err(error) => ChunkKind::Error(error),
        },
    }
}

/// A chunk that a worker hands back is never empty and never longer than the
/// request.
pub proof fn lemma_chunks_are_bounded(
    cancelled: bool,
    size: u64,
    offset: u64,
    len: u64,
    read: Result<Vec<u8>, FileApiError>,
)
    ensures
        chunk_outcome(chunk_plan(cancelled, size, offset, len), read) matches ChunkKind::Chunk(
            bytes,
        ) ==> 0 < bytes@.len() <= len && offset + bytes@.len() <= size,
{
}


/// A request inside the blob is planned as the bytes from its offset on, as many
/// as were asked for or are left; a request at the end is planned as the end, one
/// beyond it or for nothing is refused, and a cancelled one reads nothing.
pub proof fn lemma_requests_are_planned_from_their_offset(
    cancelled: bool,
    size: u64,
    offset: u64,
    len: u64,
    plan: ChunkPlan,
)
    requires
        call_ensures(plan_chunk, (cancelled, size, offset, len), plan),
    ensures
        cancelled ==> plan == ChunkPlan::Cancelled,
        !cancelled && offset == size ==> plan == ChunkPlan::Eof,
        !cancelled && offset > size ==> plan == ChunkPlan::Invalid,
        !cancelled && offset < size && len == 0 ==> plan == ChunkPlan::Invalid,
        !cancelled && offset < size && len > 0 ==> {
            &&& plan matches ChunkPlan::Read { start, end }
            &&& start == offset
            &&& end - start == if len <= size - offset {
                len as int
            } else {
                size - offset
            }
        },
{
}

/// A chunk is settled with the bytes that were read, whenever they are as many as
/// were planned; a failure of the host stays what it was, and nothing but a
/// planned read ever gives bytes.
pub proof fn lemma_chunks_are_the_bytes_read(
    plan: ChunkPlan,
    read: Result<Vec<u8>, FileApiError>,
    kind: ChunkKind,
)
    requires
        plan matches ChunkPlan::Read { start, end } ==> start <= end,
        call_ensures(settle_chunk, (plan, read), kind),
    ensures
        kind matches ChunkKind::Chunk(bytes) ==> read == Ok::<Vec<u8>, FileApiError>(bytes) && (
        plan matches ChunkPlan::Read { start, end } && bytes@.len() == end - start),
        plan matches ChunkPlan::Read { start, end } ==> match read {
            Ok(bytes) => if bytes@.len() == end - start {
                kind == ChunkKind::Chunk(bytes)
            } else {
                kind is Error
            },
            Err(error) => kind == ChunkKind::Error(error),
        },
        kind is Eof <==> plan is Eof,
        plan is Cancelled ==> kind == ChunkKind::Error(FileApiError::Cancelled),
        plan is Invalid ==> kind == ChunkKind::Error(FileApiError::InvalidRange),
{
}

/// A pool has the workers and the places that were asked for, but never none and
/// never more than the ceilings.
pub proof fn lemma_pools_are_bounded(worker_count: usize, queue_cap: usize, size: (usize, usize))
    requires
        call_ensures(pool_size, (worker_count, queue_cap), size),
    ensures
        1 <= size.0 <= MAX_WORKERS,
        1 <= size.1 <= MAX_QUEUE,
        1 <= worker_count <= MAX_WORKERS ==> size.0 == worker_count,
        1 <= queue_cap <= MAX_QUEUE ==> size.1 == queue_cap,
        worker_count > MAX_WORKERS ==> size.0 == MAX_WORKERS,
        queue_cap > MAX_QUEUE ==> size.1 == MAX_QUEUE,
        worker_count == 0 ==> size.0 == 1,
        queue_cap == 0 ==> size.1 == 1,
{
}

} // verus!
