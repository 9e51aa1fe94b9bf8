//! The stream state machine behind `stream()` and `textStream()`.
//!
//! Every `read()` queues one demand. At most one chunk request is under way
//! per stream, and one chunk settles one demand, oldest first. The end of the
//! blob, a failure, a cancellation, the shutdown and the loss of every script
//! object that could read are terminal; the first of them releases the slot of
//! the stream, and nothing is read after it.
//!
//! The host settles the promises, submits the requests and cancels the work
//! that the functions of this module name.

use vstd::prelude::*;
use vstd::utf8::{decode_utf8, valid_utf8};

use crate::blob::BlobData;
use crate::bridge::{
    is_chunked, is_live, reservation_refused, reservation_undone, reserve_refusal, slot_of,
    slot_released, slot_reserved, IoBridge,
};
use crate::dom::{map_core_error, mapped_error};
use crate::error::{type_error, DomException, FileApiError, JsError, JsErrorKind, ResourceLimitKind};
use crate::ids::FileIoOperationId;
use crate::io::{
    ChunkKind, ChunkWindow, FileIoSubmitError, ReserveError, StreamChunkCompletion, StreamChunkTask,
};
use crate::limits::{FileApiLimits, MAX_CHUNK, MIN_CHUNK};
use crate::utf8::{
    decode_piece, decode_pieces, joined, lemma_split_safe, replacements, Utf8Decoder,
};

verus! {

/// What a stream's chunks are.
#[derive(Clone, Copy, Debug, PartialEq, Eq, Structural)]
pub enum StreamMode {
    /// Bytes.
    Bytes,
    /// Text, decoded as UTF-8.
    Text,
}

/// The identity of a stream operation, and how far its end has come.
#[derive(Clone, Copy, Debug, PartialEq, Eq, Structural)]
pub struct StreamLease {
    /// The owning context.
    pub context: u64,
    /// The operation.
    pub operation: u64,
    /// The generation at creation.
    pub generation: u64,
    /// Whether a terminal transition has happened.
    pub terminal: bool,
    /// Whether the slot was released by it.
    pub released: bool,
}

impl StreamLease {
    /// The lease of a stream that is under way.
    pub fn fresh(context: u64, operation: u64, generation: u64) -> (lease: StreamLease)
        ensures
            lease == (StreamLease {
                context,
                operation,
                generation,
                terminal: false,
                released: false,
            }),
    {
        StreamLease { context, operation, generation, terminal: false, released: false }
    }
}

/// One queued demand.
#[derive(Clone, Copy, Debug, PartialEq, Eq, Structural)]
pub struct PendingRead {
    /// The number of the `read()` call.
    pub seq: u64,
    /// The generation of the stream at the call.
    pub generation: u64,
}

/// The state that a stream object and its readers share.
#[derive(Debug)]
pub struct StreamShared {
    /// What is read; `None` after the end.
    pub data: Option<BlobData>,
    /// Bytes consumed so far.
    pub loaded: u64,
    /// Bytes per chunk request.
    pub chunk_size: usize,
    /// What the chunks are.
    pub mode: StreamMode,
    /// The decoder of a text stream.
    pub decoder: Utf8Decoder,
    /// Whether a reader holds the stream.
    pub locked: bool,
    /// Whether the stream was cancelled.
    pub cancelled: bool,
    /// The failure that every later read is answered with.
    pub errored: Option<DomException>,
    /// The queued demands, oldest first.
    pub queue: Vec<PendingRead>,
    /// The number of the next `read()` call.
    pub next_seq: u64,
    /// The generation; it moves on at every terminal transition but the end.
    pub generation: u64,
    /// Whether a chunk request is under way.
    pub in_flight: bool,
    /// Whether the stream object is alive.
    pub stream_registered: bool,
    /// Whether a reader object is alive.
    pub reader_registered: bool,
    /// The operation.
    pub lease: StreamLease,
}

/// The contents of a [`StreamShared`].
pub struct StreamView {
    /// What is read; `None` after the end.
    pub data: Option<BlobData>,
    /// Bytes consumed so far.
    pub loaded: u64,
    /// Bytes per chunk request.
    pub chunk_size: usize,
    /// What the chunks are.
    pub mode: StreamMode,
    /// The bytes that wait in the decoder.
    pub waiting: Seq<u8>,
    /// Whether a reader holds the stream.
    pub locked: bool,
    /// Whether the stream was cancelled.
    pub cancelled: bool,
    /// The name and message of the failure.
    pub errored: Option<(Seq<char>, Seq<char>)>,
    /// The queued demands, oldest first.
    pub queue: Seq<PendingRead>,
    /// The number of the next `read()` call.
    pub next_seq: u64,
    /// The generation.
    pub generation: u64,
    /// Whether a chunk request is under way.
    pub in_flight: bool,
    /// Whether the stream object is alive.
    pub stream_registered: bool,
    /// Whether a reader object is alive.
    pub reader_registered: bool,
    /// The operation.
    pub lease: StreamLease,
}

impl View for StreamShared {
    type V = StreamView;

    open spec fn view(&self) -> StreamView {
        StreamView {
            data: self.data,
            loaded: self.loaded,
            chunk_size: self.chunk_size,
            mode: self.mode,
            waiting: self.decoder@,
            locked: self.locked,
            cancelled: self.cancelled,
            errored: match self.errored {
                Some(error) => Some(error@),
                None => None,
            },
            queue: self.queue@,
            next_seq: self.next_seq,
            generation: self.generation,
            in_flight: self.in_flight,
            stream_registered: self.stream_registered,
            reader_registered: self.reader_registered,
            lease: self.lease,
        }
    }
}

/// A stream operation under way.
pub struct StreamOp {
    /// The operation.
    pub operation: u64,
    /// The generation at creation.
    pub generation: u64,
    /// What is read.
    pub data: BlobData,
}

/// The position of `operation` among `ops`, if it is under way.
pub open spec fn stream_op_of(ops: Seq<StreamOp>, operation: u64) -> Option<int>
    decreases ops.len(),
{
    if ops.len() == 0 {
        None
    } else if ops.last().operation == operation {
        Some(ops.len() - 1)
    } else {
        stream_op_of(ops.drop_last(), operation)
    }
}

/// The stream operations of one context that are under way.
pub struct StreamTable {
    /// The operations.
    pub ops: Vec<StreamOp>,
}

/// No operation occurs twice.
pub open spec fn stream_ops_distinct(ops: Seq<StreamOp>) -> bool {
    forall|i: int, j: int|
        0 <= i < j < ops.len() ==> (#[trigger] ops[i]).operation != (#[trigger] ops[j]).operation
}

/// Every operation holds a slot of the bridge for reading in chunks, unless the
/// bridge is closed.
pub open spec fn stream_ops_reserved(ops: Seq<StreamOp>, bridge: IoBridge) -> bool {
    bridge.is_closed() || forall|i: int|
        0 <= i < ops.len() ==> is_chunked(bridge.slots(), (#[trigger] ops[i]).operation)
}

/// Every payload is well-formed.
pub open spec fn stream_ops_wf(ops: Seq<StreamOp>) -> bool {
    forall|i: int| 0 <= i < ops.len() ==> (#[trigger] ops[i]).data.wf()
}

/// A table and a bridge that agree.
pub open spec fn streams_consistent(table: StreamTable, bridge: IoBridge) -> bool {
    &&& bridge.wf()
    &&& stream_ops_distinct(table.ops@)
    &&& stream_ops_wf(table.ops@)
    &&& stream_ops_reserved(table.ops@, bridge)
}

/// A stream that is under way has its payload, and was neither cancelled nor
/// failed; at most an incomplete character waits in its decoder.
pub open spec fn stream_wf(stream: StreamView) -> bool {
    &&& stream.data matches Some(data) ==> data.wf()
    &&& !stream.lease.terminal ==> stream.data is Some && !stream.cancelled && stream.errored
        is None
    &&& stream.waiting.len() <= 3
    &&& MIN_CHUNK <= stream.chunk_size <= MAX_CHUNK
    &&& stream.generation != 0
}

pub(crate) proof fn lemma_stream_op_of(ops: Seq<StreamOp>, operation: u64)
    ensures
        match stream_op_of(ops, operation) {
            Some(i) => 0 <= i < ops.len() && ops[i].operation == operation,
            None => forall|i: int| 0 <= i < ops.len() ==> (#[trigger] ops[i]).operation != operation,
        },
    decreases ops.len(),
{
    if ops.len() > 0 && ops.last().operation != operation {
        let front = ops.drop_last();
        lemma_stream_op_of(front, operation);
        assert forall|i: int| 0 <= i < front.len() implies front[i] == #[trigger] ops[i] by {}
    }
}

proof fn lemma_streams_after_release(
    ops: Seq<StreamOp>,
    at: int,
    before: IoBridge,
    after: IoBridge,
)
    requires
        0 <= at < ops.len(),
        stream_ops_distinct(ops),
        stream_ops_wf(ops),
        before.wf(),
        stream_ops_reserved(ops, before),
        after.is_closed() == before.is_closed(),
        after.slots() == match slot_of(before.slots(), ops[at].operation) {
            Some(i) => before.slots().remove(i),
            None => before.slots(),
        },
    ensures
        stream_ops_distinct(ops.remove(at)),
        stream_ops_wf(ops.remove(at)),
        stream_ops_reserved(ops.remove(at), after),
{
    let rest = ops.remove(at);
    assert forall|i: int, j: int| 0 <= i < j < rest.len() implies (#[trigger] rest[i]).operation
        != (#[trigger] rest[j]).operation by {
        let x = if i < at {
            i
        } else {
            i + 1
        };
        let y = if j < at {
            j
        } else {
            j + 1
        };
        assert(ops[x].operation != ops[y].operation);
    }
    assert forall|i: int| 0 <= i < rest.len() implies (#[trigger] rest[i]).data.wf() by {
        let x = if i < at {
            i
        } else {
            i + 1
        };
        assert(ops[x].data.wf());
    }
    if !before.is_closed() {
        let id = ops[at].operation;
        assert(is_chunked(before.slots(), id));
        assert forall|i: int| 0 <= i < rest.len() implies is_chunked(
            after.slots(),
            (#[trigger] rest[i]).operation,
        ) by {
            let x = if i < at {
                i
            } else {
                i + 1
            };
            assert(rest[i] == ops[x]);
            assert(is_chunked(before.slots(), ops[x].operation));
            assert(ops[x].operation != id) by {
                if x < at {
                    assert(ops[x].operation != ops[at].operation);
                } else {
                    assert(ops[at].operation != ops[x].operation);
                }
            }
            crate::bridge::lemma_release_keeps_others(before.slots(), id, ops[x].operation);
        }
    }
}

impl StreamTable {
    /// A table without operations.
    pub fn new() -> (table: StreamTable)
        ensures
            table.ops@ == Seq::<StreamOp>::empty(),
    {
        StreamTable { ops: Vec::new() }
    }

    /// The number of operations under way.
    pub fn live_stream_operation_count(&self) -> (count: usize)
        ensures
            count == self.ops@.len(),
    {
        self.ops.len()
    }

    /// The position of an operation.
    fn find(&self, operation: u64) -> (found: Option<usize>)
        ensures
            match found {
                Some(i) => stream_op_of(self.ops@, operation) == Some(i as int) && i
                    < self.ops@.len(),
                None => stream_op_of(self.ops@, operation) is None,
            },
    {
        let mut i: usize = self.ops.len();
        proof {
            assert(self.ops@.take(i as int) =~= self.ops@);
        }
        while i > 0
            invariant
                i <= self.ops@.len(),
                stream_op_of(self.ops@, operation) == stream_op_of(
                    self.ops@.take(i as int),
                    operation,
                ),
            decreases i,
        {
            proof {
                let here = self.ops@.take(i as int);
                assert(here.last() == self.ops@[i - 1]);
                assert(here.drop_last() =~= self.ops@.take(i - 1));
            }
            if self.ops[i - 1].operation == operation {
                return Some(i - 1);
            }
            i = i - 1;
        }
        None
    }

    /// Whether an operation is under way.
    pub fn is_under_way(&self, operation: u64) -> (under_way: bool)
        ensures
            under_way == stream_op_of(self.ops@, operation) is Some,
    {
        self.find(operation).is_some()
    }

    /// Drops every operation when the runtime shuts down.
    pub fn drop_all_stream_state_for_shutdown(&mut self)
        ensures
            final(self).ops@ == Seq::<StreamOp>::empty(),
    {
        self.ops.clear();
    }
}

/// Whether `operation` was taken out of the table and its slot released, if it
/// was under way; else nothing changed.
pub open spec fn stream_released(
    table: StreamTable,
    bridge: IoBridge,
    table_after: StreamTable,
    bridge_after: IoBridge,
    operation: u64,
) -> bool {
    match stream_op_of(table.ops@, operation) {
        Some(i) => {
            &&& table_after.ops@ == table.ops@.remove(i)
            &&& slot_released(bridge, bridge_after, operation)
        },
        None => {
            &&& table_after.ops@ == table.ops@
            &&& bridge_after == bridge
        },
    }
}

/// Takes an operation out of the table and releases its slot, if it is under
/// way. Returns whether it was.
fn release_operation(table: &mut StreamTable, bridge: &mut IoBridge, operation: u64) -> (released:
    bool)
    requires
        streams_consistent(*old(table), *old(bridge)),
    ensures
        streams_consistent(*final(table), *final(bridge)),
        released == stream_op_of(old(table).ops@, operation) is Some,
        stream_released(*old(table), *old(bridge), *final(table), *final(bridge), operation),
{
    proof {
        lemma_stream_op_of(table.ops@, operation);
    }
    match table.find(operation) {
        Some(at) => {
            let _ = table.ops.remove(at);
            let _ = bridge.unreserve(FileIoOperationId::from_raw(operation));
            proof {
                lemma_streams_after_release(old(table).ops@, at as int, *old(bridge), *bridge);
            }
            true
        },
        None => false,
    }
}

/// The chunk size of a stream, unless it is out of range.
pub fn stream_chunk_ceiling(limits: &FileApiLimits) -> (result: Result<usize, FileApiError>)
    ensures
        match result {
            Ok(size) => limits.chunk_size_valid() && size == limits.default_chunk_size,
            Err(error) => !limits.chunk_size_valid() && error == FileApiError::ResourceLimit(
                ResourceLimitKind::MaterializeBytes,
            ),
        },
{
    if limits.default_chunk_size < MIN_CHUNK || limits.default_chunk_size > MAX_CHUNK {
        return Err(FileApiError::ResourceLimit(ResourceLimitKind::MaterializeBytes));
    }
    Ok(limits.default_chunk_size)
}

/// Why a stream is not created.
#[derive(Clone, Debug)]
pub enum StreamRefusal {
    /// A script error is thrown.
    Js(JsError),
    /// A failure is thrown as its script error.
    Core(FileApiError),
}

/// The contents of a [`StreamRefusal`].
pub enum RefusalView {
    /// A script error is thrown.
    Js((JsErrorKind, Seq<char>)),
    /// A failure is thrown as its script error.
    Core(FileApiError),
}

impl View for StreamRefusal {
    type V = RefusalView;

    open spec fn view(&self) -> RefusalView {
        match *self {
            StreamRefusal::Js(error) => RefusalView::Js(error@),
            StreamRefusal::Core(error) => RefusalView::Core(error),
        }
    }
}

/// Why a stream is not created, if it is not: the runtime is shut down, the
/// chunk size is out of range, no slot is free, or there is no shim.
pub open spec fn create_refusal(
    shutdown: bool,
    limits: FileApiLimits,
    bridge: IoBridge,
    shim: bool,
) -> Option<RefusalView> {
    if shutdown || (limits.chunk_size_valid() && reserve_refusal(bridge) == Some(
        ReserveError::Shutdown,
    )) {
        Some(RefusalView::Js((JsErrorKind::Type, "the File API runtime is shut down"@)))
    } else if !limits.chunk_size_valid() {
        Some(RefusalView::Js((JsErrorKind::Type, "blob stream chunk size is out of range"@)))
    } else if reserve_refusal(bridge) is Some {
        Some(RefusalView::Core(FileApiError::TooManyReads))
    } else if !shim {
        Some(RefusalView::Js((JsErrorKind::Type, "the streams shim is not registered"@)))
    } else {
        None
    }
}

/// The stream at its creation.
pub open spec fn fresh_stream(
    data: BlobData,
    chunk_size: usize,
    mode: StreamMode,
    context: u64,
    operation: u64,
) -> StreamView {
    StreamView {
        data: Some(data),
        loaded: 0,
        chunk_size,
        mode,
        waiting: Seq::empty(),
        locked: false,
        cancelled: false,
        errored: None,
        queue: Seq::empty(),
        next_seq: 0,
        generation: 1,
        in_flight: false,
        stream_registered: true,
        reader_registered: false,
        lease: StreamLease {
            context,
            operation,
            generation: 1,
            terminal: false,
            released: false,
        },
    }
}

/// What creating a stream over `data` changes.
pub open spec fn create_effect(
    table: StreamTable,
    bridge: IoBridge,
    data: BlobData,
    limits: FileApiLimits,
    mode: StreamMode,
    shutdown: bool,
    shim: bool,
    table_after: StreamTable,
    bridge_after: IoBridge,
    result: Result<StreamView, RefusalView>,
) -> bool {
    let refusal = create_refusal(shutdown, limits, bridge, shim);
    let operation = bridge.next_id();
    match result {
        Ok(stream) => {
            &&& refusal is None
            &&& stream == fresh_stream(
                data,
                limits.default_chunk_size,
                mode,
                bridge.context().spec_get(),
                operation,
            )
            &&& table_after.ops@.len() == table.ops@.len() + 1
            &&& table_after.ops@.drop_last() == table.ops@
            &&& table_after.ops@.last().operation == operation
            &&& table_after.ops@.last().generation == 1
            &&& table_after.ops@.last().data@ == data@
            &&& slot_reserved(bridge, bridge_after, operation, true)
        },
        Err(error) => {
            &&& refusal == Some(error)
            &&& table_after.ops@ == table.ops@
            &&& if create_refusal(shutdown, limits, bridge, true) is Some {
                reservation_refused(bridge, bridge_after)
            } else {
                reservation_undone(bridge, bridge_after)
            }
        },
    }
}

/// Creates a stream over `data`. It takes one slot and reads nothing yet.
pub fn create_stream(
    table: &mut StreamTable,
    bridge: &mut IoBridge,
    data: BlobData,
    limits: &FileApiLimits,
    mode: StreamMode,
    shutdown: bool,
    shim: bool,
) -> (result: Result<StreamShared, StreamRefusal>)
    requires
        streams_consistent(*old(table), *old(bridge)),
        data.wf(),
    ensures
        streams_consistent(*final(table), *final(bridge)),
        result matches Ok(stream) ==> stream_wf(stream@),
        create_effect(
            *old(table),
            *old(bridge),
            data,
            *limits,
            mode,
            shutdown,
            shim,
            *final(table),
            *final(bridge),
            match result {
                Ok(stream) => Ok(stream@),
                Err(refusal) => Err(refusal@),
            },
        ),
{
    if shutdown {
        return Err(StreamRefusal::Js(type_error("the File API runtime is shut down")));
    }
    let chunk_size: usize = match stream_chunk_ceiling(limits) {
        Ok(size) => size,
        Err(_) => {
            return Err(StreamRefusal::Js(type_error("blob stream chunk size is out of range")));
        },
    };
    let operation_id = match bridge.reserve_chunked() {
        Ok(id) => id,
        Err(ReserveError::Shutdown) => {
            return Err(StreamRefusal::Js(type_error("the File API runtime is shut down")));
        },
        Err(_) => {
            return Err(StreamRefusal::Core(FileApiError::TooManyReads));
        },
    };
    let ghost reserved = *bridge;
    proof {
        crate::bridge::lemma_reserve_keeps(*old(bridge), *bridge);
        assert forall|i: int| 0 <= i < table.ops@.len() implies is_chunked(
            bridge.slots(),
            (#[trigger] table.ops@[i]).operation,
        ) by {
            assert(is_chunked(old(bridge).slots(), old(table).ops@[i].operation));
        }
    }
    if !shim {
        let _ = bridge.unreserve(operation_id);
        proof {
            let fresh = reserved.slots().last();
            assert(reserved.slots() =~= old(bridge).slots().push(fresh));
            crate::bridge::lemma_reserve_release_round_trip(old(bridge).slots(), fresh);
            assert forall|i: int| 0 <= i < table.ops@.len() implies is_chunked(
                bridge.slots(),
                (#[trigger] table.ops@[i]).operation,
            ) by {
                assert(is_chunked(old(bridge).slots(), old(table).ops@[i].operation));
            }
        }
        return Err(StreamRefusal::Js(type_error("the streams shim is not registered")));
    }
    let operation: u64 = operation_id.get();
    let ghost before = table.ops@;
    table.ops.push(StreamOp { operation, generation: 1, data: data.reference() });
    proof {
        let ops = table.ops@;
        assert(ops.drop_last() =~= before);
        assert forall|i: int| 0 <= i < ops.len() implies is_chunked(
            bridge.slots(),
            (#[trigger] ops[i]).operation,
        ) by {
            if i < before.len() {
                assert(is_chunked(bridge.slots(), before[i].operation));
            }
        }
        assert forall|i: int, j: int| 0 <= i < j < ops.len() implies (#[trigger] ops[i]).operation
            != (#[trigger] ops[j]).operation by {
            if j < before.len() {
                assert(before[i].operation != before[j].operation);
            } else {
                let id = before[i].operation;
                assert(is_chunked(old(bridge).slots(), id));
                crate::bridge::lemma_slot_of(old(bridge).slots(), id);
                let at = slot_of(old(bridge).slots(), id)->0;
                assert(old(bridge).slots()[at].id < old(bridge).next_id());
            }
        }
        assert forall|i: int| 0 <= i < ops.len() implies (#[trigger] ops[i]).data.wf() by {
            if i < before.len() {
                assert(before[i].data.wf());
            }
        }
    }
    let stream = StreamShared {
        data: Some(data),
        loaded: 0,
        chunk_size,
        mode,
        decoder: Utf8Decoder::new(),
        locked: false,
        cancelled: false,
        errored: None,
        queue: Vec::new(),
        next_seq: 0,
        generation: 1,
        in_flight: false,
        stream_registered: true,
        reader_registered: false,
        lease: StreamLease::fresh(bridge.context_id().get(), operation, 1),
    };
    Ok(stream)
}

/// What a `read()` promise settles with.
#[derive(Clone, Debug)]
pub enum ReadResult {
    /// A text chunk.
    Text(String),
    /// The end.
    Done,
    /// A rejection.
    Reject(DomException),
}

/// The contents of a [`ReadResult`].
pub enum ReadResultView {
    /// A text chunk.
    Text(Seq<char>),
    /// The end.
    Done,
    /// The name and message of a rejection.
    Reject((Seq<char>, Seq<char>)),
}

impl View for ReadResult {
    type V = ReadResultView;

    open spec fn view(&self) -> ReadResultView {
        match *self {
            ReadResult::Text(text) => ReadResultView::Text(text@),
            ReadResult::Done => ReadResultView::Done,
            ReadResult::Reject(exception) => ReadResultView::Reject(exception@),
        }
    }
}

/// The settlement of one demand.
#[derive(Clone, Debug)]
pub struct Settled {
    /// The number of the `read()` call.
    pub seq: u64,
    /// What its promise settles with.
    pub result: ReadResult,
}

impl View for Settled {
    type V = (u64, ReadResultView);

    open spec fn view(&self) -> (u64, ReadResultView) {
        (self.seq, self.result@)
    }
}

/// The contents of a list of settlements.
pub open spec fn settlements(settled: Seq<Settled>) -> Seq<(u64, ReadResultView)> {
    Seq::new(settled.len(), |i: int| settled[i]@)
}

/// Every demand of `queue` settled with `result`, oldest first.
pub open spec fn all_settled(queue: Seq<PendingRead>, result: ReadResultView) -> Seq<
    (u64, ReadResultView),
> {
    Seq::new(queue.len(), |i: int| (queue[i].seq, result))
}

/// The generation after `generation`; zero is skipped.
pub open spec fn stream_generation_after(generation: u64) -> u64 {
    crate::filereader::generation_after(generation)
}

/// The generation after `generation`.
fn bump_generation(generation: u64) -> (next: u64)
    ensures
        next == stream_generation_after(generation),
        next != 0,
{
    if generation == u64::MAX {
        1
    } else {
        generation + 1
    }
}

/// What locking a stream for a reader comes to: a locked stream throws; without
/// the shim the lock is taken back.
pub open spec fn lock_effect(
    stream: StreamView,
    shim: bool,
    stream_after: StreamView,
    failure: Option<(JsErrorKind, Seq<char>)>,
) -> bool {
    if stream.locked {
        &&& failure == Some((JsErrorKind::Type, "the stream is already locked"@))
        &&& stream_after == stream
    } else if !shim {
        &&& failure == Some((JsErrorKind::Type, "the streams shim is not registered"@))
        &&& stream_after == (StreamView { locked: false, reader_registered: false, ..stream })
    } else {
        &&& failure is None
        &&& stream_after == (StreamView { locked: true, reader_registered: true, ..stream })
    }
}

/// The failure of a call, if it failed.
pub open spec fn failure_of(result: Result<(), JsError>) -> Option<(JsErrorKind, Seq<char>)> {
    match result {
        Ok(_) => None,
        Err(error) => Some(error@),
    }
}

/// Locks the stream for a reader. A locked stream throws; without the shim the
/// lock is taken back.
pub fn get_reader(stream: &mut StreamShared, shim: bool) -> (result: Result<(), JsError>)
    ensures
        lock_effect(old(stream)@, shim, final(stream)@, failure_of(result)),
{
    if stream.locked {
        return Err(type_error("the stream is already locked"));
    }
    if !shim {
        stream.reader_registered = false;
        stream.locked = false;
        return Err(type_error("the streams shim is not registered"));
    }
    stream.locked = true;
    stream.reader_registered = true;
    Ok(())
}

/// The claim on one endpoint of a stream: it is given up once.
#[derive(Clone, Copy, Debug, PartialEq, Eq, Structural)]
pub struct EndpointClaim {
    /// Whether the endpoint is gone.
    pub dropped: bool,
}

impl EndpointClaim {
    /// The claim of a live endpoint.
    pub fn fresh() -> (claim: EndpointClaim)
        ensures
            !claim.dropped,
    {
        EndpointClaim { dropped: false }
    }

    /// Gives the endpoint up; only the first call does.
    pub fn claim_drop(&mut self) -> (first: bool)
        ensures
            first == !old(self).dropped,
            final(self).dropped,
    {
        if self.dropped {
            false
        } else {
            self.dropped = true;
            true
        }
    }
}

/// The state of a reader object.
#[derive(Clone, Copy, Debug, PartialEq, Eq, Structural)]
pub struct ReaderEndpoint {
    /// The claim on the stream's reader side.
    pub claim: EndpointClaim,
    /// Whether `releaseLock()` was called.
    pub released: bool,
}

/// What `releaseLock()` comes to: refused while a demand waits or a request is
/// under way, and only once.
pub open spec fn release_effect(
    stream: StreamView,
    reader: ReaderEndpoint,
    stream_after: StreamView,
    reader_after: ReaderEndpoint,
    failure: Option<(JsErrorKind, Seq<char>)>,
) -> bool {
    let busy = stream.queue.len() > 0 || stream.in_flight;
    if reader.released || busy || reader.claim.dropped {
        &&& failure == Some(
            (
                JsErrorKind::Type,
                if !reader.released && busy {
                    "cannot release the lock with queued read requests"@
                } else {
                    "the reader has been released"@
                },
            ),
        )
        &&& stream_after == stream
        &&& reader_after == reader
    } else {
        &&& failure is None
        &&& stream_after == (StreamView { locked: false, reader_registered: false, ..stream })
        &&& reader_after == (ReaderEndpoint {
            claim: EndpointClaim { dropped: true },
            released: true,
        })
    }
}

/// `releaseLock()`: refused while a demand waits or a request is under way.
pub fn release_lock(stream: &mut StreamShared, reader: &mut ReaderEndpoint) -> (result: Result<
    (),
    JsError,
>)
    ensures
        release_effect(
            old(stream)@,
            *old(reader),
            final(stream)@,
            *final(reader),
            failure_of(result),
        ),
{
    if reader.released {
        return Err(type_error("the reader has been released"));
    }
    if stream.queue.len() > 0 || stream.in_flight {
        return Err(type_error("cannot release the lock with queued read requests"));
    }
    if !reader.claim.claim_drop() {
        return Err(type_error("the reader has been released"));
    }
    reader.released = true;
    stream.reader_registered = false;
    stream.locked = false;
    Ok(())
}

/// A note that the last script object of a stream is gone.
#[derive(Clone, Copy, Debug, PartialEq, Eq, Structural)]
pub struct CleanupRecord {
    /// The owning context.
    pub context: u64,
    /// The operation.
    pub operation: u64,
    /// The generation of the stream.
    pub generation: u64,
}

/// The stream after one endpoint went away.
pub open spec fn endpoint_gone(stream: StreamView, is_reader: bool) -> StreamView {
    if is_reader {
        StreamView {
            reader_registered: false,
            locked: stream.locked && !stream.stream_registered,
            ..stream
        }
    } else {
        StreamView { stream_registered: false, ..stream }
    }
}

/// The note that is published when an endpoint goes away: the last one of a
/// stream that is under way and that nobody waits for.
pub open spec fn cleanup_note(stream: StreamView, is_reader: bool) -> Option<CleanupRecord> {
    let after = endpoint_gone(stream, is_reader);
    if !after.stream_registered && !after.reader_registered && !stream.lease.terminal
        && !stream.lease.released && stream.queue.len() == 0 && !stream.in_flight {
        Some(
            CleanupRecord {
                context: stream.lease.context,
                operation: stream.lease.operation,
                generation: stream.generation,
            },
        )
    } else {
        None
    }
}

/// Notes that an endpoint went away.
///
/// A reader that goes away unlocks a live stream. A record is published when
/// the last endpoint of a stream that is under way goes away and no demand
/// waits.
pub fn deregister_stream_endpoint_inner(stream: &mut StreamShared, is_reader: bool) -> (record:
    Option<CleanupRecord>)
    ensures
        final(stream)@ == endpoint_gone(old(stream)@, is_reader),
        record == cleanup_note(old(stream)@, is_reader),
{
    if is_reader {
        stream.reader_registered = false;
        if stream.stream_registered {
            stream.locked = false;
        }
    } else {
        stream.stream_registered = false;
    }
    let last = !stream.stream_registered && !stream.reader_registered;
    let terminal = stream.lease.terminal || stream.lease.released;
    let live_demand = stream.queue.len() > 0 || stream.in_flight;
    if last && !terminal && !live_demand {
        Some(
            CleanupRecord {
                context: stream.lease.context,
                operation: stream.lease.operation,
                generation: stream.generation,
            },
        )
    } else {
        None
    }
}

/// Takes every demand out of the queue and settles it with `result`.
fn drain_queue(stream: &mut StreamShared, settled: &mut Vec<Settled>, reject: Option<DomException>)
    ensures
        final(stream)@ == (StreamView { queue: Seq::empty(), ..old(stream)@ }),
        settlements(final(settled)@) == settlements(old(settled)@) + all_settled(
            old(stream).queue@,
            match reject {
                Some(exception) => ReadResultView::Reject(exception@),
                None => ReadResultView::Done,
            },
        ),
{
    let ghost queue = stream.queue@;
    let ghost first = settled@;
    let ghost result = match reject {
        Some(exception) => ReadResultView::Reject(exception@),
        None => ReadResultView::Done,
    };
    let mut i: usize = 0;
    while i < stream.queue.len()
        invariant
            stream@ == old(stream)@,
            queue == stream.queue@,
            i <= queue.len(),
            settled@.len() == first.len() + i,
            result == match reject {
                Some(exception) => ReadResultView::Reject(exception@),
                None => ReadResultView::Done,
            },
            forall|k: int| 0 <= k < first.len() ==> (#[trigger] settled@[k])@ == first[k]@,
            forall|k: int|
                first.len() <= k < settled@.len() ==> (#[trigger] settled@[k])@ == (
                    queue[k - first.len()].seq,
                    result,
                ),
        decreases queue.len() - i,
    {
        let outcome = match reject {
            Some(exception) => ReadResult::Reject(exception),
            None => ReadResult::Done,
        };
        settled.push(Settled { seq: stream.queue[i].seq, result: outcome });
        i = i + 1;
    }
    assert(settlements(settled@) =~= settlements(first) + all_settled(queue, result));
    stream.queue.clear();
    assert(stream.queue@ =~= Seq::<PendingRead>::empty());
}

/// The stream after a cancellation.
pub open spec fn cancelled_stream(stream: StreamView, live: bool) -> StreamView {
    StreamView {
        cancelled: true,
        data: None,
        in_flight: false,
        generation: stream_generation_after(stream.generation),
        queue: if live && !stream.lease.terminal {
            Seq::empty()
        } else {
            stream.queue
        },
        lease: StreamLease {
            terminal: true,
            released: stream.lease.released || live,
            ..stream.lease
        },
        ..stream
    }
}

/// What cancelling a stream changes, and what its demands settle with.
pub open spec fn cancel_effect(
    stream: StreamView,
    table: StreamTable,
    bridge: IoBridge,
    stream_after: StreamView,
    table_after: StreamTable,
    bridge_after: IoBridge,
    settled: Seq<(u64, ReadResultView)>,
) -> bool {
    let operation = stream.lease.operation;
    let live = stream_op_of(table.ops@, operation) is Some;
    &&& stream_after == cancelled_stream(stream, live)
    &&& settled == if live && !stream.lease.terminal {
        all_settled(stream.queue, ReadResultView::Done)
    } else {
        Seq::empty()
    }
    &&& stream_released(table, bridge, table_after, bridge_after, operation)
}

/// Cancels a stream: nothing is read any more, every queued demand is done, and
/// the slot is released.
///
/// A stream that has ended already only notes the cancellation.
pub fn cancel_shared(stream: &mut StreamShared, table: &mut StreamTable, bridge: &mut IoBridge) -> (
settled: Vec<Settled>)
    requires
        streams_consistent(*old(table), *old(bridge)),
        stream_wf(old(stream)@),
    ensures
        streams_consistent(*final(table), *final(bridge)),
        stream_wf(final(stream)@),
        cancel_effect(
            old(stream)@,
            *old(table),
            *old(bridge),
            final(stream)@,
            *final(table),
            *final(bridge),
            settlements(settled@),
        ),
{
    let operation: u64 = stream.lease.operation;
    let winner = !stream.lease.terminal;
    stream.cancelled = true;
    stream.data = None;
    stream.in_flight = false;
    stream.generation = bump_generation(stream.generation);
    stream.lease.terminal = true;
    let mut settled: Vec<Settled> = Vec::new();
    assert(settlements(settled@) =~= Seq::empty());
    let live = release_operation(table, bridge, operation);
    if live {
        stream.lease.released = true;
        if winner {
            drain_queue(stream, &mut settled, None);
            assert(settlements(settled@) =~= all_settled(old(stream).queue@, ReadResultView::Done));
        }
    }
    settled
}

/// What the host has to do after `stream.cancel()`.
pub enum StreamCancel {
    /// Reject the promise.
    Refused(JsError),
    /// Settle these demands, then resolve the promise.
    Cancelled(Vec<Settled>),
}

/// What `stream.cancel()` comes to: a locked stream is refused.
pub open spec fn cancel_call_effect(
    stream: StreamView,
    table: StreamTable,
    bridge: IoBridge,
    stream_after: StreamView,
    table_after: StreamTable,
    bridge_after: IoBridge,
    outcome: StreamCancel,
) -> bool {
    if stream.locked {
        &&& outcome matches StreamCancel::Refused(error) && error@ == (
            JsErrorKind::Type,
            "cannot cancel a locked stream"@,
        )
        &&& stream_after == stream
        &&& table_after == table
        &&& bridge_after == bridge
    } else {
        outcome matches StreamCancel::Cancelled(settled) && cancel_effect(
            stream,
            table,
            bridge,
            stream_after,
            table_after,
            bridge_after,
            settlements(settled@),
        )
    }
}

/// `stream.cancel()`: a locked stream is refused.
pub fn stream_cancel(stream: &mut StreamShared, table: &mut StreamTable, bridge: &mut IoBridge) -> (
outcome: StreamCancel)
    requires
        streams_consistent(*old(table), *old(bridge)),
        stream_wf(old(stream)@),
    ensures
        streams_consistent(*final(table), *final(bridge)),
        stream_wf(final(stream)@),
        cancel_call_effect(
            old(stream)@,
            *old(table),
            *old(bridge),
            final(stream)@,
            *final(table),
            *final(bridge),
            outcome,
        ),
{
    if stream.locked {
        return StreamCancel::Refused(type_error("cannot cancel a locked stream"));
    }
    StreamCancel::Cancelled(cancel_shared(stream, table, bridge))
}

/// Whether the next chunk request may go out: a demand waits, no request is
/// under way, the stream has not ended, and it holds its slot.
pub open spec fn may_submit(stream: StreamView, table: StreamTable, bridge: IoBridge) -> bool {
    &&& !stream.in_flight
    &&& !stream.cancelled
    &&& stream.errored is None
    &&& stream.queue.len() > 0
    &&& stream.data is Some
    &&& is_live(bridge.slots(), stream.lease.operation)
    &&& stream_op_of(table.ops@, stream.lease.operation) is Some
}

/// The stream after it was given the chance to ask for a chunk.
pub open spec fn after_submit(
    stream: StreamView,
    table: StreamTable,
    bridge: IoBridge,
) -> StreamView {
    if may_submit(stream, table, bridge) {
        StreamView { in_flight: true, ..stream }
    } else {
        stream
    }
}

/// Whether `task` is the next chunk request of the stream: at most one chunk
/// from where it stands, and a request for nothing at the end.
pub open spec fn is_next_task(
    task: StreamChunkTask,
    stream: StreamView,
    table: StreamTable,
    bridge: IoBridge,
    limits: FileApiLimits,
) -> bool {
    let at = stream_op_of(table.ops@, stream.lease.operation)->0;
    let size = stream.data->0.spec_size();
    let remaining = if stream.loaded < size {
        size - stream.loaded
    } else {
        0
    };
    &&& task.context_id == bridge.context()
    &&& task.operation_id.spec_get() == stream.lease.operation
    &&& task.data@ == table.ops@[at].data@
    &&& task.data.wf()
    &&& task.limits == limits
    &&& task.window.generation == stream.generation
    &&& task.window.offset == stream.loaded
    &&& task.window.len == if stream.chunk_size < remaining {
        stream.chunk_size as int
    } else {
        remaining
    }
}

/// Whether `submit` is what the stream asks for.
pub open spec fn is_submission(
    submit: Option<StreamChunkTask>,
    stream: StreamView,
    table: StreamTable,
    bridge: IoBridge,
    limits: FileApiLimits,
) -> bool {
    match submit {
        Some(task) => may_submit(stream, table, bridge) && is_next_task(
            task,
            stream,
            table,
            bridge,
            limits,
        ),
        None => !may_submit(stream, table, bridge),
    }
}

/// Asks for the next chunk, if it may.
pub fn maybe_submit_next(
    stream: &mut StreamShared,
    table: &StreamTable,
    bridge: &IoBridge,
    limits: &FileApiLimits,
) -> (submit: Option<StreamChunkTask>)
    requires
        streams_consistent(*table, *bridge),
        stream_wf(old(stream)@),
    ensures
        stream_wf(final(stream)@),
        final(stream)@ == after_submit(old(stream)@, *table, *bridge),
        is_submission(submit, old(stream)@, *table, *bridge, *limits),
{
    if stream.in_flight || stream.cancelled || stream.errored.is_some() || stream.queue.len() == 0 {
        return None;
    }
    let total: u64 = match &stream.data {
        Some(data) => data.size(),
        None => {
            return None;
        },
    };
    let operation_id = FileIoOperationId::from_raw(stream.lease.operation);
    if !bridge.is_reserved(operation_id) {
        return None;
    }
    let at: usize = match table.find(stream.lease.operation) {
        Some(at) => at,
        None => {
            return None;
        },
    };
    proof {
        assert(table.ops@[at as int].data.wf());
    }
    let remaining: u64 = total.saturating_sub(stream.loaded);
    let len: u64 = if (stream.chunk_size as u64) < remaining {
        stream.chunk_size as u64
    } else {
        remaining
    };
    stream.in_flight = true;
    Some(
        StreamChunkTask {
            context_id: bridge.context_id(),
            operation_id,
            data: table.ops[at].data.reference(),
            limits: *limits,
            window: ChunkWindow { generation: stream.generation, offset: stream.loaded, len },
        },
    )
}

/// The stream after a failure.
pub open spec fn failed_stream(
    stream: StreamView,
    error: (Seq<char>, Seq<char>),
    live: bool,
) -> StreamView {
    StreamView {
        errored: Some(error),
        data: None,
        in_flight: false,
        generation: stream_generation_after(stream.generation),
        queue: Seq::empty(),
        lease: StreamLease {
            terminal: true,
            released: stream.lease.released || live,
            ..stream.lease
        },
        ..stream
    }
}

/// What ending a stream with a failure changes: every demand of `demands` is
/// rejected.
pub open spec fn fail_effect(
    stream: StreamView,
    table: StreamTable,
    bridge: IoBridge,
    demands: Seq<PendingRead>,
    error: FileApiError,
    stream_after: StreamView,
    table_after: StreamTable,
    bridge_after: IoBridge,
    settled: Seq<(u64, ReadResultView)>,
) -> bool {
    let operation = stream.lease.operation;
    let live = stream_op_of(table.ops@, operation) is Some;
    &&& stream_after == failed_stream(stream, mapped_error(error), live)
    &&& settled == all_settled(demands, ReadResultView::Reject(mapped_error(error)))
    &&& stream_released(table, bridge, table_after, bridge_after, operation)
}

/// Ends a stream with a failure: the demand that met it and every queued one
/// are rejected, later reads will be, and the slot is released.
pub fn fail_stream_with(
    stream: &mut StreamShared,
    table: &mut StreamTable,
    bridge: &mut IoBridge,
    demand: PendingRead,
    error: FileApiError,
) -> (settled: Vec<Settled>)
    requires
        streams_consistent(*old(table), *old(bridge)),
        stream_wf(old(stream)@),
    ensures
        streams_consistent(*final(table), *final(bridge)),
        stream_wf(final(stream)@),
        fail_effect(
            old(stream)@,
            *old(table),
            *old(bridge),
            seq![demand] + old(stream).queue@,
            error,
            final(stream)@,
            *final(table),
            *final(bridge),
            settlements(settled@),
        ),
{
    let exception = map_core_error(error);
    stream.errored = Some(exception);
    stream.data = None;
    stream.in_flight = false;
    stream.generation = bump_generation(stream.generation);
    stream.lease.terminal = true;
    let mut settled: Vec<Settled> = Vec::new();
    settled.push(Settled { seq: demand.seq, result: ReadResult::Reject(exception) });
    let ghost first = settled@;
    drain_queue(stream, &mut settled, Some(exception));
    proof {
        let result = ReadResultView::Reject(mapped_error(error));
        assert(settlements(settled@) =~= all_settled(seq![demand] + old(stream).queue@, result));
    }
    if release_operation(table, bridge, stream.lease.operation) {
        stream.lease.released = true;
    }
    settled
}

/// What the host has to do after `reader.read()`.
pub enum ReadCall {
    /// Throw.
    Refused(JsError),
    /// Settle the promise at once, by a job.
    Settled(ReadResult),
    /// Leave the promise pending for ever.
    Abandoned,
    /// Keep the promise under this number, and submit the request if there is
    /// one.
    Queued {
        /// The number of the call.
        seq: u64,
        /// The chunk request.
        submit: Option<StreamChunkTask>,
    },
}

/// What a `read()` of a stream that has ended gives, if it has: the stored
/// failure, or the end.
pub open spec fn ended_result(stream: StreamView) -> Option<ReadResultView> {
    if stream.errored is Some {
        Some(ReadResultView::Reject(stream.errored->0))
    } else if stream.cancelled || stream.data is None {
        Some(ReadResultView::Done)
    } else {
        None
    }
}

/// The stream with one more demand.
pub open spec fn with_demand(stream: StreamView) -> StreamView {
    StreamView {
        queue: stream.queue.push(
            PendingRead { seq: stream.next_seq, generation: stream.generation },
        ),
        next_seq: if stream.next_seq == u64::MAX {
            0
        } else {
            (stream.next_seq + 1) as u64
        },
        ..stream
    }
}

/// What `reader.read()` changes and asks of the host.
pub open spec fn read_effect(
    before: StreamView,
    table: StreamTable,
    bridge: IoBridge,
    limits: FileApiLimits,
    released: bool,
    shutdown: bool,
    after: StreamView,
    call: ReadCall,
) -> bool {
    let queued = with_demand(before);
    let numbered = StreamView { next_seq: queued.next_seq, ..before };
    if released {
        &&& call matches ReadCall::Refused(error) && error@ == (
            JsErrorKind::Type,
            "the reader has been released"@,
        )
        &&& after == before
    } else if ended_result(before) is Some {
        &&& call matches ReadCall::Settled(result) && Some(result@) == ended_result(before)
        &&& after == before
    } else if shutdown {
        &&& call is Abandoned
        &&& after == before
    } else if stream_op_of(table.ops@, before.lease.operation) is None {
        &&& call matches ReadCall::Settled(result) && result@ == ReadResultView::Done
        &&& after == numbered
    } else {
        &&& call matches ReadCall::Queued { seq, submit } && {
            &&& seq == before.next_seq
            &&& is_submission(submit, queued, table, bridge, limits)
        }
        &&& after == after_submit(queued, table, bridge)
    }
}

/// `reader.read()`.
///
/// A released reader throws. A stream that has ended answers at once, without
/// asking anyone. After a shutdown the promise stays pending. Otherwise the
/// demand is queued, and one chunk is asked for unless a request is under way.
pub fn reader_read(
    stream: &mut StreamShared,
    table: &StreamTable,
    bridge: &IoBridge,
    limits: &FileApiLimits,
    released: bool,
    shutdown: bool,
) -> (call: ReadCall)
    requires
        streams_consistent(*table, *bridge),
        stream_wf(old(stream)@),
    ensures
        stream_wf(final(stream)@),
        read_effect(
            old(stream)@,
            *table,
            *bridge,
            *limits,
            released,
            shutdown,
            final(stream)@,
            call,
        ),
{
    if released {
        return ReadCall::Refused(type_error("the reader has been released"));
    }
    match stream.errored {
        Some(exception) => {
            return ReadCall::Settled(ReadResult::Reject(exception));
        },
        None => {},
    }
    if stream.cancelled || stream.data.is_none() {
        return ReadCall::Settled(ReadResult::Done);
    }
    if shutdown {
        return ReadCall::Abandoned;
    }
    let seq: u64 = stream.next_seq;
    stream.next_seq = if seq == u64::MAX {
        0
    } else {
        seq + 1
    };
    if table.find(stream.lease.operation).is_none() {
        return ReadCall::Settled(ReadResult::Done);
    }
    let generation: u64 = stream.generation;
    stream.queue.push(PendingRead { seq, generation });
    let submit = maybe_submit_next(stream, table, bridge, limits);
    ReadCall::Queued { seq, submit }
}

/// What a refused chunk request comes to: a stream with demands fails.
pub open spec fn submit_failed_effect(
    stream: StreamView,
    table: StreamTable,
    bridge: IoBridge,
    error: FileApiError,
    stream_after: StreamView,
    table_after: StreamTable,
    bridge_after: IoBridge,
    settled: Seq<(u64, ReadResultView)>,
) -> bool {
    if stream.queue.len() == 0 {
        &&& stream_after == (StreamView { in_flight: false, ..stream })
        &&& settled == Seq::<(u64, ReadResultView)>::empty()
        &&& table_after == table
        &&& bridge_after == bridge
    } else {
        fail_effect(
            stream,
            table,
            bridge,
            stream.queue,
            error,
            stream_after,
            table_after,
            bridge_after,
            settled,
        )
    }
}

/// Ends a stream whose chunk request was refused: every queued demand is
/// rejected.
pub fn fail_stream_from_submit(
    stream: &mut StreamShared,
    table: &mut StreamTable,
    bridge: &mut IoBridge,
    error: FileIoSubmitError,
) -> (settled: Vec<Settled>)
    requires
        streams_consistent(*old(table), *old(bridge)),
        stream_wf(old(stream)@),
    ensures
        streams_consistent(*final(table), *final(bridge)),
        stream_wf(final(stream)@),
        submit_failed_effect(
            old(stream)@,
            *old(table),
            *old(bridge),
            error.settles_as(),
            final(stream)@,
            *final(table),
            *final(bridge),
            settlements(settled@),
        ),
{
    stream.in_flight = false;
    if stream.queue.len() == 0 {
        let none: Vec<Settled> = Vec::new();
        assert(settlements(none@) =~= Seq::<(u64, ReadResultView)>::empty());
        return none;
    }
    let ghost queue = stream.queue@;
    let demand = stream.queue.remove(0);
    proof {
        assert(seq![demand] + stream.queue@ =~= queue);
    }
    fail_stream_with(stream, table, bridge, demand, error.to_file_api_error())
}

/// The stream at its end.
pub open spec fn ended_stream(stream: StreamView) -> StreamView {
    StreamView {
        data: None,
        in_flight: false,
        lease: StreamLease { terminal: true, ..stream.lease },
        ..stream
    }
}

/// Ends a stream: nothing is read any more, and the slot is released. Done
/// twice it changes nothing more.
fn transition_stream_eof(stream: &mut StreamShared, table: &mut StreamTable, bridge: &mut IoBridge)
    requires
        streams_consistent(*old(table), *old(bridge)),
        stream_wf(old(stream)@),
    ensures
        streams_consistent(*final(table), *final(bridge)),
        stream_wf(final(stream)@),
        final(stream)@ == ended_stream(old(stream)@),
        stream_released(
            *old(table),
            *old(bridge),
            *final(table),
            *final(bridge),
            old(stream).lease.operation,
        ),
{
    stream.data = None;
    stream.in_flight = false;
    stream.lease.terminal = true;
    let _ = release_operation(table, bridge, stream.lease.operation);
}

/// What comes of a drained chunk completion.
pub enum StreamStep {
    /// Nothing: it was late.
    Stale,
    /// Settle these demands, then submit the request if there is one.
    Settle {
        /// The settlements, in order.
        settled: Vec<Settled>,
        /// The next chunk request.
        submit: Option<StreamChunkTask>,
    },
    /// Package the bytes for this demand; then [`chunk_packaged`] or
    /// [`chunk_packaging_failed`].
    Package {
        /// The demand.
        demand: PendingRead,
        /// The bytes.
        bytes: Vec<u8>,
    },
}

/// Whether a drained completion belongs to a stream that is under way.
pub open spec fn stream_completion_current(
    stream: StreamView,
    table: StreamTable,
    completion: StreamChunkCompletion,
    shutdown: bool,
) -> bool {
    &&& completion.operation_id.spec_get() == stream.lease.operation
    &&& !shutdown
    &&& match stream_op_of(table.ops@, stream.lease.operation) {
        Some(i) => table.ops@[i].generation == completion.generation,
        None => false,
    }
}

/// The stream without its oldest demand, and with no request under way.
pub open spec fn without_oldest(stream: StreamView) -> StreamView {
    StreamView {
        in_flight: false,
        queue: if stream.queue.len() > 0 {
            stream.queue.skip(1)
        } else {
            stream.queue
        },
        ..stream
    }
}

/// The stream after `bytes` were consumed.
pub open spec fn advanced(stream: StreamView, bytes: Seq<u8>) -> StreamView {
    StreamView {
        loaded: if stream.loaded + bytes.len() > u64::MAX {
            u64::MAX
        } else {
            (stream.loaded + bytes.len()) as u64
        },
        ..stream
    }
}

/// What a chunk gives for the oldest demand of a stream that is under way;
/// `popped` is the stream without it.
pub open spec fn chunk_effect(
    popped: StreamView,
    demand: PendingRead,
    bytes: Seq<u8>,
    limits: FileApiLimits,
    table: StreamTable,
    bridge: IoBridge,
    after: StreamView,
    step: StreamStep,
) -> bool {
    if bytes.len() == 0 {
        &&& after == after_submit(popped, table, bridge)
        &&& step matches StreamStep::Settle { settled, submit } && {
            &&& settlements(settled@) == seq![
                (demand.seq, ReadResultView::Reject(mapped_error(FileApiError::InvalidRange))),
            ]
            &&& is_submission(submit, popped, table, bridge, limits)
        }
    } else if popped.mode == StreamMode::Bytes {
        &&& after == popped
        &&& step matches StreamStep::Package { demand: wanted, bytes: payload } && wanted == demand
            && payload@ == bytes
    } else {
        let (text, waiting) = decode_piece(popped.waiting, bytes);
        let decoded = StreamView { waiting, ..advanced(popped, bytes) };
        let kept = if text.len() == 0 {
            StreamView { queue: seq![demand] + decoded.queue, ..decoded }
        } else {
            decoded
        };
        &&& after == after_submit(kept, table, bridge)
        &&& step matches StreamStep::Settle { settled, submit } && {
            &&& settlements(settled@) == if text.len() == 0 {
                Seq::empty()
            } else {
                seq![(demand.seq, ReadResultView::Text(text))]
            }
            &&& is_submission(submit, kept, table, bridge, limits)
        }
    }
}

/// What the end of the blob gives for the demands of a stream: leftover bytes
/// of a text stream make a last chunk for the oldest one; all others are done.
pub open spec fn eof_settlements(
    popped: StreamView,
    demand: PendingRead,
) -> Seq<(u64, ReadResultView)> {
    let first = if popped.mode == StreamMode::Text && popped.waiting.len() > 0 {
        ReadResultView::Text(replacements(popped.waiting.len()))
    } else {
        ReadResultView::Done
    };
    seq![(demand.seq, first)] + all_settled(popped.queue, ReadResultView::Done)
}

/// The stream after its end was met.
pub open spec fn eof_stream(popped: StreamView) -> StreamView {
    StreamView {
        waiting: if popped.mode == StreamMode::Text {
            Seq::empty()
        } else {
            popped.waiting
        },
        queue: Seq::empty(),
        ..ended_stream(popped)
    }
}

/// What settling a drained chunk completion does.
pub open spec fn stream_settled(
    stream: StreamView,
    table: StreamTable,
    bridge: IoBridge,
    limits: FileApiLimits,
    completion: StreamChunkCompletion,
    shutdown: bool,
    stream_after: StreamView,
    table_after: StreamTable,
    bridge_after: IoBridge,
    step: StreamStep,
) -> bool {
    let before = stream;
    let popped = without_oldest(before);
    if !stream_completion_current(before, table, completion, shutdown) {
        &&& step is Stale
        &&& stream_after == before
        &&& table_after == table
        &&& bridge_after == bridge
    } else if before.lease.terminal || before.queue.len() == 0
        || before.queue[0].generation != completion.generation {
        &&& step is Stale
        &&& stream_after == popped
        &&& table_after == table
        &&& bridge_after == bridge
    } else {
        let demand = before.queue[0];
        match completion.kind {
            ChunkKind::Chunk(bytes) => {
                &&& table_after == table
                &&& bridge_after == bridge
                &&& chunk_effect(
                    popped,
                    demand,
                    bytes@,
                    limits,
                    table,
                    bridge,
                    stream_after,
                    step,
                )
            },
            ChunkKind::Eof => {
                &&& stream_after == eof_stream(popped)
                &&& step matches StreamStep::Settle { settled, submit } && submit is None
                    && settlements(settled@) == eof_settlements(popped, demand)
                &&& stream_released(
                    table,
                    bridge,
                    table_after,
                    bridge_after,
                    before.lease.operation,
                )
            },
            ChunkKind::Error(error) => {
                &&& stream_after == failed_stream(popped, mapped_error(error), true)
                &&& step matches StreamStep::Settle { settled, submit } && submit is None
                    && settlements(settled@) == all_settled(
                    before.queue,
                    ReadResultView::Reject(mapped_error(error)),
                )
                &&& stream_released(
                    table,
                    bridge,
                    table_after,
                    bridge_after,
                    before.lease.operation,
                )
            },
        }
    }
}

/// Settles a drained chunk completion.
///
/// A late one changes nothing but what a request under way stood for. One
/// completion settles the oldest demand; the end settles all of them, and a
/// failure rejects all of them.
pub fn settle_stream_completion(
    stream: &mut StreamShared,
    table: &mut StreamTable,
    bridge: &mut IoBridge,
    limits: &FileApiLimits,
    completion: StreamChunkCompletion,
    shutdown: bool,
) -> (step: StreamStep)
    requires
        streams_consistent(*old(table), *old(bridge)),
        stream_wf(old(stream)@),
    ensures
        streams_consistent(*final(table), *final(bridge)),
        stream_wf(final(stream)@),
        stream_settled(
            old(stream)@,
            *old(table),
            *old(bridge),
            *limits,
            completion,
            shutdown,
            final(stream)@,
            *final(table),
            *final(bridge),
            step,
        ),
{
    let operation: u64 = completion.operation_id.get();
    if operation != stream.lease.operation || shutdown {
        return StreamStep::Stale;
    }
    match table.find(operation) {
        Some(at) => {
            if table.ops[at].generation != completion.generation {
                return StreamStep::Stale;
            }
        },
        None => {
            return StreamStep::Stale;
        },
    }
    stream.in_flight = false;
    if stream.queue.len() == 0 {
        return StreamStep::Stale;
    }
    let ghost queue = stream.queue@;
    let demand = stream.queue.remove(0);
    proof {
        assert(stream.queue@ =~= queue.skip(1));
        assert(seq![demand] + stream.queue@ =~= queue);
        assert(stream@ == without_oldest(old(stream)@));
    }
    if stream.lease.terminal || demand.generation != completion.generation {
        return StreamStep::Stale;
    }
    match completion.kind {
        ChunkKind::Error(error) => {
            let settled = fail_stream_with(stream, table, bridge, demand, error);
            StreamStep::Settle { settled, submit: None }
        },
        ChunkKind::Eof => {
            let settled = settle_stream_eof(stream, table, bridge, demand);
            StreamStep::Settle { settled, submit: None }
        },
        ChunkKind::Chunk(bytes) => settle_stream_chunk(stream, table, bridge, limits, demand, bytes),
    }
}

/// Settles the end of the blob.
fn settle_stream_eof(
    stream: &mut StreamShared,
    table: &mut StreamTable,
    bridge: &mut IoBridge,
    demand: PendingRead,
) -> (settled: Vec<Settled>)
    requires
        streams_consistent(*old(table), *old(bridge)),
        stream_wf(old(stream)@),
    ensures
        streams_consistent(*final(table), *final(bridge)),
        stream_wf(final(stream)@),
        final(stream)@ == eof_stream(old(stream)@),
        settlements(settled@) == eof_settlements(old(stream)@, demand),
        stream_released(
            *old(table),
            *old(bridge),
            *final(table),
            *final(bridge),
            old(stream).lease.operation,
        ),
{
    let ghost waiting = stream.decoder@;
    let first = match stream.mode {
        StreamMode::Text => {
            let tail = stream.decoder.flush();
            if tail.as_str().is_empty() {
                ReadResult::Done
            } else {
                ReadResult::Text(tail)
            }
        },
        StreamMode::Bytes => ReadResult::Done,
    };
    transition_stream_eof(stream, table, bridge);
    let mut settled: Vec<Settled> = Vec::new();
    settled.push(Settled { seq: demand.seq, result: first });
    let ghost head = settled@;
    drain_queue(stream, &mut settled, None);
    proof {
        assert(settlements(head) =~= seq![(demand.seq, first@)]);
        assert(settlements(settled@) =~= eof_settlements(old(stream)@, demand));
    }
    settled
}

/// Settles a chunk for its demand.
fn settle_stream_chunk(
    stream: &mut StreamShared,
    table: &StreamTable,
    bridge: &IoBridge,
    limits: &FileApiLimits,
    demand: PendingRead,
    bytes: Vec<u8>,
) -> (step: StreamStep)
    requires
        streams_consistent(*table, *bridge),
        stream_wf(old(stream)@),
    ensures
        stream_wf(final(stream)@),
        chunk_effect(
            old(stream)@,
            demand,
            bytes@,
            *limits,
            *table,
            *bridge,
            final(stream)@,
            step,
        ),
{
    if bytes.len() == 0 {
        let mut settled: Vec<Settled> = Vec::new();
        settled.push(
            Settled {
                seq: demand.seq,
                result: ReadResult::Reject(map_core_error(FileApiError::InvalidRange)),
            },
        );
        assert(settlements(settled@) =~= seq![
            (demand.seq, ReadResultView::Reject(mapped_error(FileApiError::InvalidRange))),
        ]);
        let submit = maybe_submit_next(stream, table, bridge, limits);
        return StreamStep::Settle { settled, submit };
    }
    match stream.mode {
        StreamMode::Bytes => StreamStep::Package { demand, bytes },
        StreamMode::Text => {
            let text = stream.decoder.push(bytes.as_slice());
            stream.loaded = stream.loaded.saturating_add(bytes.len() as u64);
            let mut settled: Vec<Settled> = Vec::new();
            if text.as_str().is_empty() {
                let ghost queue = stream.queue@;
                stream.queue.insert(0, demand);
                assert(stream.queue@ =~= seq![demand] + queue);
                assert(settlements(settled@) =~= Seq::empty());
            } else {
                settled.push(Settled { seq: demand.seq, result: ReadResult::Text(text) });
                assert(settlements(settled@) =~= seq![
                    (demand.seq, ReadResultView::Text(text@)),
                ]);
            }
            let submit = maybe_submit_next(stream, table, bridge, limits);
            StreamStep::Settle { settled, submit }
        },
    }
}

/// What going on after a packaged chunk comes to.
pub open spec fn packaged_effect(
    before: StreamView,
    table: StreamTable,
    bridge: IoBridge,
    limits: FileApiLimits,
    len: int,
    after: StreamView,
    submit: Option<StreamChunkTask>,
) -> bool {
    let counted = StreamView {
        loaded: if before.loaded + len > u64::MAX {
            u64::MAX
        } else {
            (before.loaded + len) as u64
        },
        ..before
    };
    &&& after == after_submit(counted, table, bridge)
    &&& is_submission(submit, counted, table, bridge, limits)
}

/// Goes on after the bytes of a chunk were packaged: they count as consumed,
/// and the next chunk is asked for.
pub fn chunk_packaged(
    stream: &mut StreamShared,
    table: &StreamTable,
    bridge: &IoBridge,
    limits: &FileApiLimits,
    len: usize,
) -> (submit: Option<StreamChunkTask>)
    requires
        streams_consistent(*table, *bridge),
        stream_wf(old(stream)@),
    ensures
        stream_wf(final(stream)@),
        packaged_effect(
            old(stream)@,
            *table,
            *bridge,
            *limits,
            len as int,
            final(stream)@,
            submit,
        ),
{
    stream.loaded = stream.loaded.saturating_add(len as u64);
    maybe_submit_next(stream, table, bridge, limits)
}

/// Ends a stream whose chunk could not be packaged.
pub fn chunk_packaging_failed(
    stream: &mut StreamShared,
    table: &mut StreamTable,
    bridge: &mut IoBridge,
    demand: PendingRead,
) -> (settled: Vec<Settled>)
    requires
        streams_consistent(*old(table), *old(bridge)),
        stream_wf(old(stream)@),
    ensures
        streams_consistent(*final(table), *final(bridge)),
        stream_wf(final(stream)@),
        fail_effect(
            old(stream)@,
            *old(table),
            *old(bridge),
            seq![demand] + old(stream).queue@,
            FileApiError::Internal,
            final(stream)@,
            *final(table),
            *final(bridge),
            settlements(settled@),
        ),
{
    fail_stream_with(stream, table, bridge, demand, FileApiError::Internal)
}

/// Whether a stream is abandoned: it is under way in this generation, no
/// script object can read it, and no demand waits.
pub open spec fn is_abandoned(
    stream: StreamView,
    table: StreamTable,
    operation: u64,
    generation: u64,
) -> bool {
    &&& stream_op_of(table.ops@, operation) is Some
    &&& stream.lease.operation == operation
    &&& stream.generation == generation
    &&& !stream.lease.terminal
    &&& !stream.lease.released
    &&& !stream.stream_registered
    &&& !stream.reader_registered
    &&& stream.queue.len() == 0
    &&& !stream.in_flight
}

/// What trying to abandon a stream does: an abandoned one ends and gives its
/// slot up, any other stays as it is.
pub open spec fn abandon_tried(
    stream: StreamView,
    table: StreamTable,
    bridge: IoBridge,
    operation: u64,
    generation: u64,
    stream_after: StreamView,
    table_after: StreamTable,
    bridge_after: IoBridge,
) -> bool {
    if is_abandoned(stream, table, operation, generation) {
        &&& stream_after == (StreamView {
            data: None,
            in_flight: false,
            generation: stream_generation_after(generation),
            lease: StreamLease { terminal: true, released: true, ..stream.lease },
            ..stream
        })
        &&& stream_released(table, bridge, table_after, bridge_after, operation)
    } else {
        &&& stream_after == stream
        &&& table_after == table
        &&& bridge_after == bridge
    }
}

/// Ends an abandoned stream and releases its slot; any other stream is left
/// alone. Returns whether the stream was abandoned: its work is then to be
/// cancelled.
pub fn try_abandon_stream_operation(
    stream: &mut StreamShared,
    table: &mut StreamTable,
    bridge: &mut IoBridge,
    operation: u64,
    generation: u64,
) -> (abandoned: bool)
    requires
        streams_consistent(*old(table), *old(bridge)),
        stream_wf(old(stream)@),
    ensures
        streams_consistent(*final(table), *final(bridge)),
        stream_wf(final(stream)@),
        abandoned == is_abandoned(old(stream)@, *old(table), operation, generation),
        abandon_tried(
            old(stream)@,
            *old(table),
            *old(bridge),
            operation,
            generation,
            final(stream)@,
            *final(table),
            *final(bridge),
        ),
{
    if table.find(operation).is_none() {
        return false;
    }
    let eligible = stream.lease.operation == operation && stream.generation == generation
        && !stream.lease.terminal && !stream.lease.released && !stream.stream_registered
        && !stream.reader_registered && stream.queue.len() == 0 && !stream.in_flight;
    if !eligible {
        return false;
    }
    stream.lease.terminal = true;
    stream.data = None;
    stream.in_flight = false;
    stream.generation = bump_generation(stream.generation);
    if release_operation(table, bridge, operation) {
        stream.lease.released = true;
    }
    true
}

/// A demand is never abandoned: a stream with a queued demand or a request
/// under way is left alone.
pub proof fn lemma_demand_is_not_abandoned(
    stream: StreamView,
    table: StreamTable,
    operation: u64,
    generation: u64,
)
    requires
        stream.queue.len() > 0 || stream.in_flight,
    ensures
        !is_abandoned(stream, table, operation, generation),
{
}

/// Backpressure: while a request is under way no other one goes out.
pub proof fn lemma_one_request_at_a_time(stream: StreamView, table: StreamTable, bridge: IoBridge)
    ensures
        !may_submit(after_submit(stream, table, bridge), table, bridge),
{
}

/// Without a demand nothing is read.
pub proof fn lemma_no_read_ahead(stream: StreamView, table: StreamTable, bridge: IoBridge)
    requires
        stream.queue.len() == 0,
    ensures
        !may_submit(stream, table, bridge),
{
}

/// After its end a stream answers every read the same way and asks for
/// nothing: an ended or cancelled one is done, a failed one replays its
/// failure.
pub proof fn lemma_ended_streams_stay_ended(
    stream: StreamView,
    table: StreamTable,
    bridge: IoBridge,
    error: (Seq<char>, Seq<char>),
    live: bool,
)
    requires
        stream.errored is None,
    ensures
        ended_result(eof_stream(stream)) == Some(ReadResultView::Done),
        ended_result(cancelled_stream(stream, live)) == Some(ReadResultView::Done),
        ended_result(failed_stream(stream, error, live)) == Some(ReadResultView::Reject(error)),
        !may_submit(eof_stream(stream), table, bridge),
        !may_submit(cancelled_stream(stream, live), table, bridge),
        !may_submit(failed_stream(stream, error, live), table, bridge),
{
}

/// A slot is released once: after the release the operation is unknown.
pub proof fn lemma_stream_released_once(ops: Seq<StreamOp>, operation: u64)
    requires
        stream_ops_distinct(ops),
        stream_op_of(ops, operation) is Some,
    ensures
        stream_op_of(ops.remove(stream_op_of(ops, operation)->0), operation) is None,
{
    lemma_stream_op_of(ops, operation);
    let at = stream_op_of(ops, operation)->0;
    let rest = ops.remove(at);
    lemma_stream_op_of(rest, operation);
    if stream_op_of(rest, operation) is Some {
        let k = stream_op_of(rest, operation)->0;
        if k < at {
            assert(ops[k].operation != ops[at].operation);
        } else {
            assert(rest[k] == ops[k + 1]);
            assert(ops[at].operation != ops[k + 1].operation);
        }
    }
}

/// An unlocked stream can be locked again: releasing the lock undoes taking
/// it.
pub proof fn lemma_release_undoes_lock(stream: StreamView)
    requires
        !stream.locked,
        !stream.reader_registered,
    ensures
        ({
            let locked = StreamView { locked: true, reader_registered: true, ..stream };
            (StreamView { locked: false, reader_registered: false, ..locked }) == stream
        }),
{
}

/// `chunk` is what `content` holds from `from` up to `to`.
pub open spec fn chunk_follows(from: int, to: int, chunk: Seq<u8>, content: Seq<u8>) -> bool {
    0 <= from <= to <= content.len() && chunk == content.subrange(from, to)
}

/// A byte stream gives what it reads: chunks that follow each other from the
/// start to the end of `content` make up `content`.
pub proof fn lemma_byte_stream_gives_content(
    starts: Seq<int>,
    chunks: Seq<Seq<u8>>,
    content: Seq<u8>,
)
    requires
        starts.len() == chunks.len() + 1,
        starts[0] == 0,
        starts.last() == content.len(),
        forall|i: int|
            0 <= i < chunks.len() ==> #[trigger] chunk_follows(
                starts[i],
                starts[i + 1],
                chunks[i],
                content,
            ),
    ensures
        joined(chunks) == content,
{
    lemma_chunks_join(starts, chunks, content, chunks.len() as int);
    assert(chunks.take(chunks.len() as int) =~= chunks);
    assert(content.take(content.len() as int) =~= content);
}

proof fn lemma_chunks_join(
    starts: Seq<int>,
    chunks: Seq<Seq<u8>>,
    content: Seq<u8>,
    count: int,
)
    requires
        starts.len() == chunks.len() + 1,
        starts[0] == 0,
        forall|i: int|
            0 <= i < chunks.len() ==> #[trigger] chunk_follows(
                starts[i],
                starts[i + 1],
                chunks[i],
                content,
            ),
        0 <= count <= chunks.len(),
    ensures
        0 <= starts[count],
        starts[count] <= content.len() || count == 0,
        count == 0 || joined(chunks.take(count)) == content.take(starts[count]),
        count == 0 ==> joined(chunks.take(count)) == Seq::<u8>::empty(),
    decreases count,
{
    if count > 0 {
        lemma_chunks_join(starts, chunks, content, count - 1);
        let here = chunks.take(count);
        assert(here.drop_last() =~= chunks.take(count - 1));
        assert(here.last() == chunks[count - 1]);
        assert(chunk_follows(starts[count - 1], starts[count - 1 + 1], chunks[count - 1], content));
        assert(joined(here) =~= content.take(starts[count]));
    }
}

/// The texts, one after the other.
pub open spec fn joined_text(texts: Seq<Seq<char>>) -> Seq<char>
    decreases texts.len(),
{
    if texts.len() == 0 {
        Seq::empty()
    } else {
        joined_text(texts.drop_last()) + texts.last()
    }
}

/// A text stream gives what it reads: wherever the chunks of a valid text are
/// cut, the text chunks together are its characters, and nothing is left for
/// the end.
pub proof fn lemma_text_stream_gives_content(
    waiting: Seq<Seq<u8>>,
    texts: Seq<Seq<char>>,
    chunks: Seq<Seq<u8>>,
)
    requires
        waiting.len() == chunks.len() + 1,
        texts.len() == chunks.len(),
        waiting[0] == Seq::<u8>::empty(),
        forall|i: int|
            0 <= i < chunks.len() ==> (texts[i], waiting[i + 1]) == decode_piece(
                waiting[i],
                #[trigger] chunks[i],
            ),
        valid_utf8(joined(chunks)),
    ensures
        joined_text(texts) == decode_utf8(joined(chunks)),
        waiting.last() == Seq::<u8>::empty(),
{
    lemma_text_run(waiting, texts, chunks, chunks.len() as int);
    assert(chunks.take(chunks.len() as int) =~= chunks);
    assert(texts.take(texts.len() as int) =~= texts);
    lemma_split_safe(chunks);
}

proof fn lemma_text_run(
    waiting: Seq<Seq<u8>>,
    texts: Seq<Seq<char>>,
    chunks: Seq<Seq<u8>>,
    count: int,
)
    requires
        waiting.len() == chunks.len() + 1,
        texts.len() == chunks.len(),
        waiting[0] == Seq::<u8>::empty(),
        forall|i: int|
            0 <= i < chunks.len() ==> (texts[i], waiting[i + 1]) == decode_piece(
                waiting[i],
                #[trigger] chunks[i],
            ),
        0 <= count <= chunks.len(),
    ensures
        decode_pieces(chunks.take(count)) == (joined_text(texts.take(count)), waiting[count]),
    decreases count,
{
    if count > 0 {
        lemma_text_run(waiting, texts, chunks, count - 1);
        let here = chunks.take(count);
        let written = texts.take(count);
        assert(here.drop_last() =~= chunks.take(count - 1));
        assert(here.last() == chunks[count - 1]);
        assert(written.drop_last() =~= texts.take(count - 1));
        assert(written.last() == texts[count - 1]);
    }
}


/// Whether an operation is under way.
pub open spec fn under_way(ops: Seq<StreamOp>, operation: u64) -> bool {
    exists|i: int| 0 <= i < ops.len() && (#[trigger] ops[i]).operation == operation
}

/// The operation whose entry a terminal transition takes out is no longer under
/// way, and every other one is under way as before.
proof fn lemma_only_the_released_ends(
    table: StreamTable,
    bridge: IoBridge,
    table_after: StreamTable,
    bridge_after: IoBridge,
    operation: u64,
    other: u64,
)
    requires
        stream_ops_distinct(table.ops@),
        stream_released(table, bridge, table_after, bridge_after, operation),
    ensures
        !under_way(table_after.ops@, operation),
        other != operation ==> (under_way(table_after.ops@, other) <==> under_way(
            table.ops@,
            other,
        )),
        table_after.ops@.len() == table.ops@.len() - if under_way(table.ops@, operation) {
            1int
        } else {
            0
        },
{
    let before = table.ops@;
    let after = table_after.ops@;
    lemma_stream_op_of(before, operation);
    if let Some(at) = stream_op_of(before, operation) {
        assert(before[at].operation == operation);
        assert forall|i: int| 0 <= i < after.len() implies (#[trigger] after[i]).operation
            != operation by {
            if i < at {
                assert(after[i] == before[i]);
            } else {
                assert(after[i] == before[i + 1]);
            }
        }
        if other != operation && under_way(before, other) {
            let i = choose|i: int| 0 <= i < before.len() && (#[trigger] before[i]).operation
                == other;
            if i < at {
                assert(after[i].operation == other);
            } else {
                assert(after[i - 1].operation == other);
            }
        }
        if under_way(after, other) {
            let i = choose|i: int| 0 <= i < after.len() && (#[trigger] after[i]).operation
                == other;
            if i < at {
                assert(before[i].operation == other);
            } else {
                assert(before[i + 1].operation == other);
            }
        }
    }
}

/// A stream that is cancelled while its operation is under way answers every
/// waiting read as done, in the order of the calls, ends its operation and no
/// other, and hands nothing out any more. A locked stream is not cancelled, and
/// nothing happens to it.
pub proof fn lemma_cancelling_answers_the_waiting_reads(
    stream: &mut StreamShared,
    table: &mut StreamTable,
    bridge: &mut IoBridge,
    outcome: StreamCancel,
    other: u64,
)
    requires
        streams_consistent(*table, *bridge),
        stream_wf(stream@),
        call_ensures(stream_cancel, (stream, table, bridge), outcome),
    ensures
        old(stream)@.locked ==> {
            &&& outcome is Refused
            &&& final(stream)@ == old(stream)@
            &&& final(table).ops@ == old(table).ops@
            &&& *final(bridge) == *old(bridge)
        },
        !old(stream)@.locked ==> {
            &&& outcome is Cancelled
            &&& final(stream)@.cancelled
            &&& final(stream)@.data is None
            &&& !final(stream)@.in_flight
            &&& final(stream)@.errored == old(stream)@.errored
            &&& !under_way(final(table).ops@, old(stream)@.lease.operation)
            &&& other != old(stream)@.lease.operation ==> (under_way(final(table).ops@, other)
                <==> under_way(old(table).ops@, other))
        },
        !old(stream)@.locked && !old(stream)@.lease.terminal && under_way(
            old(table).ops@,
            old(stream)@.lease.operation,
        ) ==> ({
            let settled = outcome->Cancelled_0;
            &&& final(stream)@.queue.len() == 0
            &&& settled@.len() == old(stream)@.queue.len()
            &&& forall|i: int|
                0 <= i < settled@.len() ==> (#[trigger] settled@[i]).seq
                    == old(stream)@.queue[i].seq && settled@[i].result is Done
        }),
{
    if !stream.locked {
        let operation = stream.lease.operation;
        lemma_stream_op_of(table.ops@, operation);
        lemma_only_the_released_ends(
            *old(table),
            *old(bridge),
            *final(table),
            *final(bridge),
            operation,
            other,
        );
        let settled = outcome->Cancelled_0;
        if !stream.lease.terminal && under_way(table.ops@, operation) {
            assert(settlements(settled@).len() == settled@.len());
            assert forall|i: int| 0 <= i < settled@.len() implies (#[trigger] settled@[i]).seq
                == stream.queue@[i].seq && settled@[i].result is Done by {
                assert(settlements(settled@)[i] == settled@[i]@);
            }
        }
    }
}

/// A stream that fails rejects the read under way and every waiting one with one
/// and the same failure, in the order of the calls, keeps that failure for later
/// reads, and ends its operation and no other.
pub proof fn lemma_failing_rejects_the_waiting_reads(
    stream: &mut StreamShared,
    table: &mut StreamTable,
    bridge: &mut IoBridge,
    demand: PendingRead,
    error: FileApiError,
    settled: Vec<Settled>,
    other: u64,
)
    requires
        streams_consistent(*table, *bridge),
        stream_wf(stream@),
        call_ensures(fail_stream_with, (stream, table, bridge, demand, error), settled),
    ensures
        settled@.len() == old(stream)@.queue.len() + 1,
        settled@[0].seq == demand.seq,
        forall|i: int|
            1 <= i < settled@.len() ==> (#[trigger] settled@[i]).seq == old(stream)@.queue[i
                - 1].seq,
        forall|i: int|
            0 <= i < settled@.len() ==> ((#[trigger] settled@[i]).result matches ReadResult::Reject(
                exception,
            ) && final(stream)@.errored == Some(exception@)),
        final(stream)@.queue.len() == 0,
        final(stream)@.data is None,
        !final(stream)@.in_flight,
        !under_way(final(table).ops@, old(stream)@.lease.operation),
        other != old(stream)@.lease.operation ==> (under_way(final(table).ops@, other)
            <==> under_way(old(table).ops@, other)),
{
    lemma_only_the_released_ends(
        *old(table),
        *old(bridge),
        *final(table),
        *final(bridge),
        stream.lease.operation,
        other,
    );
    let demands = seq![demand] + stream.queue@;
    lemma_rejected_in_order(settled@, demands, mapped_error(error));
    assert forall|i: int| 1 <= i < settled@.len() implies (#[trigger] settled@[i]).seq
        == stream.queue@[i - 1].seq by {
        assert(demands[i] == stream.queue@[i - 1]);
    }
}

proof fn lemma_rejected_in_order(
    settled: Seq<Settled>,
    demands: Seq<PendingRead>,
    error: (Seq<char>, Seq<char>),
)
    requires
        settlements(settled) == all_settled(demands, ReadResultView::Reject(error)),
    ensures
        settled.len() == demands.len(),
        forall|i: int|
            0 <= i < settled.len() ==> (#[trigger] settled[i]).seq == demands[i].seq && (
            settled[i].result matches ReadResult::Reject(exception) && exception@ == error),
{
    assert(settlements(settled).len() == settled.len());
    assert forall|i: int| 0 <= i < settled.len() implies (#[trigger] settled[i]).seq
        == demands[i].seq && (settled[i].result matches ReadResult::Reject(exception)
        && exception@ == error) by {
        assert(settlements(settled)[i] == settled[i]@);
        assert(settled[i].result@ == ReadResultView::Reject(error));
    }
}

/// A `read()` is refused by a reader that was released; it is rejected by a
/// stream that has failed, with its failure, and done on one that has ended or
/// was cancelled. On a stream that is under way it waits behind every earlier
/// one, under a number of its own, and asks for a chunk exactly when none is
/// under way.
pub proof fn lemma_reads_wait_in_line(
    stream: &mut StreamShared,
    table: StreamTable,
    bridge: IoBridge,
    limits: FileApiLimits,
    released: bool,
    shutdown: bool,
    call: ReadCall,
)
    requires
        streams_consistent(table, bridge),
        stream_wf(stream@),
        call_ensures(reader_read, (stream, &table, &bridge, &limits, released, shutdown), call),
    ensures
        released ==> call is Refused && final(stream)@ == old(stream)@,
        !released && old(stream)@.errored is Some ==> (call matches ReadCall::Settled(
            ReadResult::Reject(exception),
        ) && Some(exception@) == old(stream)@.errored) && final(stream)@ == old(stream)@,
        !released && old(stream)@.errored is None && (old(stream)@.cancelled
            || old(stream)@.data is None) ==> (call matches ReadCall::Settled(result)
            && result is Done) && final(stream)@ == old(stream)@,
        !released && old(stream)@.errored is None && !old(stream)@.cancelled
            && old(stream)@.data is Some && shutdown ==> call is Abandoned && final(stream)@
            == old(stream)@,
        !released && !shutdown && old(stream)@.errored is None && !old(stream)@.cancelled
            && old(stream)@.data is Some && under_way(table.ops@, old(stream)@.lease.operation)
            && !bridge.is_closed() ==> ({
            &&& call matches ReadCall::Queued { seq, submit }
            &&& final(stream)@.queue.len() == old(stream)@.queue.len() + 1
            &&& final(stream)@.queue.drop_last() == old(stream)@.queue
            &&& final(stream)@.queue.last().seq == seq
            &&& final(stream)@.next_seq != seq
            &&& final(stream)@.loaded == old(stream)@.loaded
            &&& final(stream)@.in_flight
            &&& submit is Some <==> !old(stream)@.in_flight
        }),
{
    lemma_stream_op_of(table.ops@, stream.lease.operation);
    if !bridge.is_closed() && under_way(table.ops@, stream.lease.operation) {
        let i = stream_op_of(table.ops@, stream.lease.operation)->0;
        assert(is_chunked(bridge.slots(), table.ops@[i].operation));
        crate::bridge::lemma_slot_of(bridge.slots(), stream.lease.operation);
    }
    assert(with_demand(stream@).queue.drop_last() =~= stream@.queue);
}

/// A reader takes the stream exactly when it is free, and gives it back exactly
/// when no read waits; a reader that gave it back cannot do so again, and while
/// it is held nobody else takes it.
pub proof fn lemma_one_reader_at_a_time(
    stream: &mut StreamShared,
    taken: Result<(), JsError>,
    held: &mut StreamShared,
    reader: &mut ReaderEndpoint,
    given: Result<(), JsError>,
)
    requires
        call_ensures(get_reader, (stream, true), taken),
        call_ensures(release_lock, (held, reader), given),
    ensures
        taken is Ok <==> !old(stream)@.locked,
        final(stream)@.locked,
        final(stream)@ == (StreamView {
            locked: true,
            reader_registered: final(stream)@.reader_registered,
            ..old(stream)@
        }),
        given is Ok <==> !old(reader).released && !old(reader).claim.dropped
            && old(held)@.queue.len() == 0 && !old(held)@.in_flight,
        given is Ok ==> final(reader).released && !final(held)@.locked && final(held)@ == (
        StreamView { locked: false, reader_registered: false, ..old(held)@ }),
        given is Err ==> *final(reader) == *old(reader) && final(held)@ == old(held)@,
{
}

/// A completion of another operation, of an earlier generation, or after the
/// shutdown, answers nothing and counts no bytes.
pub proof fn lemma_stale_completions_answer_nothing(
    stream: &mut StreamShared,
    table: &mut StreamTable,
    bridge: &mut IoBridge,
    limits: FileApiLimits,
    completion: StreamChunkCompletion,
    shutdown: bool,
    step: StreamStep,
)
    requires
        streams_consistent(*table, *bridge),
        stream_wf(stream@),
        call_ensures(
            settle_stream_completion,
            (stream, table, bridge, &limits, completion, shutdown),
            step,
        ),
        shutdown || completion.operation_id.spec_get() != stream@.lease.operation || !under_way(
            table.ops@,
            stream@.lease.operation,
        ) || stream@.queue.len() == 0 || stream@.queue[0].generation != completion.generation
            || stream@.lease.terminal,
    ensures
        step is Stale,
        final(stream)@.loaded == old(stream)@.loaded,
        final(stream)@.waiting == old(stream)@.waiting,
        final(stream)@.errored == old(stream)@.errored,
        final(stream)@.data == old(stream)@.data,
        final(table).ops@ == old(table).ops@,
        *final(bridge) == *old(bridge),
{
    lemma_stream_op_of(table.ops@, stream.lease.operation);
}

/// What a current completion settles, it settles for the oldest read: bytes are
/// packaged for it, and neither the end nor a failure leaves a read unanswered.
pub proof fn lemma_completions_answer_the_oldest_read(
    stream: &mut StreamShared,
    table: &mut StreamTable,
    bridge: &mut IoBridge,
    limits: FileApiLimits,
    completion: StreamChunkCompletion,
    step: StreamStep,
)
    requires
        streams_consistent(*table, *bridge),
        stream_wf(stream@),
        call_ensures(
            settle_stream_completion,
            (stream, table, bridge, &limits, completion, false),
            step,
        ),
        completion.operation_id.spec_get() == stream@.lease.operation,
        under_way(table.ops@, stream@.lease.operation),
        forall|i: int|
            0 <= i < table.ops@.len() && (#[trigger] table.ops@[i]).operation
                == stream@.lease.operation ==> table.ops@[i].generation == completion.generation,
        !stream@.lease.terminal,
        stream@.queue.len() > 0,
        stream@.queue[0].generation == completion.generation,
    ensures
        completion.kind matches ChunkKind::Chunk(bytes) ==> bytes@.len() > 0
            && old(stream)@.mode == StreamMode::Bytes ==> {
            &&& step matches StreamStep::Package { demand, bytes: payload }
            &&& demand == old(stream)@.queue[0]
            &&& payload@ == bytes@
            &&& final(stream)@.loaded == old(stream)@.loaded
        },
        completion.kind is Eof || completion.kind is Error ==> ({
            &&& step matches StreamStep::Settle { settled, submit }
            &&& submit is None
            &&& settled@.len() == old(stream)@.queue.len()
            &&& forall|i: int|
                0 <= i < settled@.len() ==> (#[trigger] settled@[i]).seq
                    == old(stream)@.queue[i].seq
            &&& forall|i: int|
                1 <= i < settled@.len() && completion.kind is Eof ==> (#[trigger] settled@[i]).result
                    is Done
            &&& completion.kind is Eof ==> (settled@[0].result is Done <==> !(old(stream)@.mode
                == StreamMode::Text && old(stream)@.waiting.len() > 0))
            &&& forall|i: int|
                0 <= i < settled@.len() && completion.kind is Error ==> ((
                #[trigger] settled@[i]).result matches ReadResult::Reject(exception)
                    && final(stream)@.errored == Some(exception@))
            &&& final(stream)@.queue.len() == 0
            &&& final(stream)@.data is None
            &&& !under_way(final(table).ops@, old(stream)@.lease.operation)
        }),
{
    let operation = stream.lease.operation;
    let queue = stream.queue@;
    lemma_stream_op_of(table.ops@, operation);
    if completion.kind is Eof || completion.kind is Error {
        lemma_only_the_released_ends(
            *old(table),
            *old(bridge),
            *final(table),
            *final(bridge),
            operation,
            operation,
        );
        let settled = step->settled;
        assert(settlements(settled@).len() == settled@.len());
        assert forall|i: int| 0 <= i < settled@.len() implies #[trigger] settled@[i]@
            == settlements(settled@)[i] by {}
        assert(settlements(settled@)[0] == settled@[0]@);
        if completion.kind is Eof {
            assert forall|i: int| 1 <= i < settled@.len() implies (#[trigger] settled@[i]).seq
                == queue[i].seq && settled@[i].result is Done by {
                assert(settlements(settled@)[i] == (queue.skip(1)[i - 1].seq, ReadResultView::Done));
            }
        }
        if let ChunkKind::Error(error) = completion.kind {
            lemma_rejected_in_order(settled@, queue, mapped_error(error));
        }
    }
}

/// A stream is made over the blob that was given, with nothing read of it, free
/// and under way under an operation of its own; it is refused after the shutdown,
/// without the shim and while no slot is free, and then nothing is under way that
/// was not before.
pub proof fn lemma_streams_begin_at_the_front(
    table: &mut StreamTable,
    bridge: &mut IoBridge,
    data: BlobData,
    limits: FileApiLimits,
    mode: StreamMode,
    shutdown: bool,
    shim: bool,
    result: Result<StreamShared, StreamRefusal>,
)
    requires
        streams_consistent(*table, *bridge),
        data.wf(),
        call_ensures(
            create_stream,
            (table, bridge, data, &limits, mode, shutdown, shim),
            result,
        ),
    ensures
        result matches Ok(stream) ==> {
            &&& !shutdown && shim
            &&& MIN_CHUNK <= limits.default_chunk_size <= MAX_CHUNK
            &&& stream@.data == Some(data)
            &&& stream@.loaded == 0
            &&& stream@.mode == mode
            &&& stream@.chunk_size == limits.default_chunk_size
            &&& !stream@.locked && !stream@.cancelled && !stream@.in_flight
            &&& stream@.errored is None
            &&& stream@.queue.len() == 0
            &&& stream@.waiting.len() == 0
            &&& under_way(final(table).ops@, stream@.lease.operation)
            &&& final(table).ops@.len() == old(table).ops@.len() + 1
            &&& final(bridge).slots().len() == old(bridge).slots().len() + 1
        },
        result is Err ==> final(table).ops@ == old(table).ops@ && final(bridge).slots()
            == old(bridge).slots(),
        shutdown || !shim || !(MIN_CHUNK <= limits.default_chunk_size <= MAX_CHUNK) ==> result
            is Err,
{
    if let Ok(stream) = result {
        let ops = final(table).ops@;
        assert(ops[ops.len() - 1].operation == stream@.lease.operation);
    }
}

/// A stream is cleared away only when neither it nor a reader of it is alive and
/// no read waits; its slot is then free, and every other operation goes on.
pub proof fn lemma_only_unreachable_streams_are_cleared(
    stream: &mut StreamShared,
    table: &mut StreamTable,
    bridge: &mut IoBridge,
    operation: u64,
    generation: u64,
    abandoned: bool,
    other: u64,
)
    requires
        streams_consistent(*table, *bridge),
        stream_wf(stream@),
        call_ensures(
            try_abandon_stream_operation,
            (stream, table, bridge, operation, generation),
            abandoned,
        ),
    ensures
        abandoned ==> {
            &&& !old(stream)@.stream_registered && !old(stream)@.reader_registered
            &&& old(stream)@.queue.len() == 0 && !old(stream)@.in_flight
            &&& old(stream)@.lease.operation == operation
            &&& under_way(old(table).ops@, operation)
            &&& !under_way(final(table).ops@, operation)
            &&& final(stream)@.data is None
            &&& other != operation ==> (under_way(final(table).ops@, other) <==> under_way(
                old(table).ops@,
                other,
            ))
        },
        !abandoned ==> final(stream)@ == old(stream)@ && final(table).ops@ == old(table).ops@
            && *final(bridge) == *old(bridge),
        under_way(old(table).ops@, operation) && old(stream)@.lease.operation == operation
            && old(stream)@.generation == generation && !old(stream)@.lease.terminal
            && !old(stream)@.lease.released && !old(stream)@.stream_registered
            && !old(stream)@.reader_registered && old(stream)@.queue.len() == 0
            && !old(stream)@.in_flight ==> abandoned,
{
    lemma_stream_op_of(table.ops@, operation);
    if abandoned {
        lemma_only_the_released_ends(
            *old(table),
            *old(bridge),
            *final(table),
            *final(bridge),
            operation,
            other,
        );
        let i = stream_op_of(old(table).ops@, operation)->0;
        assert(old(table).ops@[i].operation == operation);
    }
}


/// When a script object of a stream is gone, the stream is free again if its
/// reader went and it is still there; it is noted for clearing exactly when
/// neither is left, no read waits and it had not ended.
pub proof fn lemma_lost_objects_free_the_stream(
    stream: &mut StreamShared,
    is_reader: bool,
    record: Option<CleanupRecord>,
)
    requires
        call_ensures(deregister_stream_endpoint_inner, (stream, is_reader), record),
    ensures
        is_reader ==> !final(stream)@.reader_registered && final(stream)@.stream_registered
            == old(stream)@.stream_registered,
        !is_reader ==> !final(stream)@.stream_registered && final(stream)@.reader_registered
            == old(stream)@.reader_registered && final(stream)@.locked == old(stream)@.locked,
        is_reader && old(stream)@.stream_registered ==> !final(stream)@.locked,
        final(stream)@.queue == old(stream)@.queue,
        final(stream)@.data == old(stream)@.data,
        record is Some <==> !final(stream)@.stream_registered
            && !final(stream)@.reader_registered && old(stream)@.queue.len() == 0
            && !old(stream)@.in_flight && !old(stream)@.lease.terminal
            && !old(stream)@.lease.released,
        record matches Some(note) ==> note.operation == old(stream)@.lease.operation
            && note.generation == old(stream)@.generation && note.context
            == old(stream)@.lease.context,
{
}

/// A chunk request that the host refuses rejects every waiting read with one and
/// the same failure, in the order of the calls; without a waiting read the stream
/// stays as it is, and can ask again.
pub proof fn lemma_refused_requests_reject_the_waiting_reads(
    stream: &mut StreamShared,
    table: &mut StreamTable,
    bridge: &mut IoBridge,
    error: FileIoSubmitError,
    settled: Vec<Settled>,
)
    requires
        streams_consistent(*table, *bridge),
        stream_wf(stream@),
        call_ensures(fail_stream_from_submit, (stream, table, bridge, error), settled),
    ensures
        !final(stream)@.in_flight,
        settled@.len() == old(stream)@.queue.len(),
        forall|i: int|
            0 <= i < settled@.len() ==> (#[trigger] settled@[i]).seq == old(stream)@.queue[i].seq
                && (settled@[i].result matches ReadResult::Reject(exception)
                && final(stream)@.errored == Some(exception@)),
        old(stream)@.queue.len() > 0 ==> final(stream)@.queue.len() == 0
            && final(stream)@.data is None && !under_way(
            final(table).ops@,
            old(stream)@.lease.operation,
        ),
        old(stream)@.queue.len() == 0 ==> final(stream)@ == (StreamView {
            in_flight: false,
            ..old(stream)@
        }) && final(table).ops@ == old(table).ops@,
{
    if stream.queue@.len() > 0 {
        lemma_only_the_released_ends(
            *old(table),
            *old(bridge),
            *final(table),
            *final(bridge),
            stream.lease.operation,
            stream.lease.operation,
        );
        lemma_rejected_in_order(settled@, stream.queue@, mapped_error(error.settles_as()));
    } else {
        assert(settlements(settled@).len() == settled@.len());
    }
}


/// Whether a stream can go on: it has not ended, its operation is under way, and
/// the bridge is open.
pub open spec fn goes_on(stream: StreamView, table: StreamTable, bridge: IoBridge) -> bool {
    &&& !stream.cancelled && stream.errored is None && stream.data is Some
    &&& under_way(table.ops@, stream.lease.operation)
    &&& !bridge.is_closed()
}

/// While a read waits on a stream that can go on, a chunk is being asked for: after
/// a chunk was packaged the next one is asked for exactly where a read waits, and
/// so it is when the chance is looked for otherwise. Nothing is asked for ahead of
/// a read.
pub proof fn lemma_waiting_reads_are_served(
    stream: &mut StreamShared,
    packaged: &mut StreamShared,
    table: StreamTable,
    bridge: IoBridge,
    limits: FileApiLimits,
    len: usize,
    submit: Option<StreamChunkTask>,
    next: Option<StreamChunkTask>,
)
    requires
        streams_consistent(table, bridge),
        stream_wf(stream@),
        stream_wf(packaged@),
        call_ensures(maybe_submit_next, (stream, &table, &bridge, &limits), submit),
        call_ensures(chunk_packaged, (packaged, &table, &bridge, &limits, len), next),
    ensures
        goes_on(old(stream)@, table, bridge) && !old(stream)@.in_flight
            && old(stream)@.queue.len() > 0 ==> (submit matches Some(task) && task.window.offset
            == old(stream)@.loaded) && final(stream)@.in_flight,
        old(stream)@.in_flight || old(stream)@.queue.len() == 0 ==> submit is None
            && final(stream)@ == old(stream)@,
        goes_on(old(packaged)@, table, bridge) && !old(packaged)@.in_flight
            && old(packaged)@.queue.len() > 0 ==> (next matches Some(task) && task.window.offset
            == final(packaged)@.loaded) && final(packaged)@.in_flight,
        old(packaged)@.queue.len() == 0 ==> next is None,
        final(packaged)@.queue == old(packaged)@.queue,
        final(stream)@.queue == old(stream)@.queue,
{
    lemma_going_is_live(stream@, table, bridge);
    lemma_going_is_live(packaged@, table, bridge);
}

proof fn lemma_going_is_live(stream: StreamView, table: StreamTable, bridge: IoBridge)
    requires
        streams_consistent(table, bridge),
    ensures
        goes_on(stream, table, bridge) ==> is_live(bridge.slots(), stream.lease.operation)
            && stream_op_of(table.ops@, stream.lease.operation) is Some,
{
    lemma_stream_op_of(table.ops@, stream.lease.operation);
    if goes_on(stream, table, bridge) {
        let i = stream_op_of(table.ops@, stream.lease.operation)->0;
        assert(is_chunked(bridge.slots(), table.ops@[i].operation));
    }
}

/// A chunk of a text stream is counted whole and settles the oldest read with the
/// text that is complete; where none is, that read goes on waiting at the front.
/// As long as a read waits, the next chunk is asked for.
pub proof fn lemma_text_chunks_settle_the_oldest_read(
    stream: &mut StreamShared,
    table: &mut StreamTable,
    bridge: &mut IoBridge,
    limits: FileApiLimits,
    completion: StreamChunkCompletion,
    bytes: Vec<u8>,
    step: StreamStep,
)
    requires
        streams_consistent(*table, *bridge),
        stream_wf(stream@),
        call_ensures(
            settle_stream_completion,
            (stream, table, bridge, &limits, completion, false),
            step,
        ),
        completion.kind == ChunkKind::Chunk(bytes),
        bytes@.len() > 0,
        stream@.mode == StreamMode::Text,
        completion.operation_id.spec_get() == stream@.lease.operation,
        goes_on(stream@, *table, *bridge),
        forall|i: int|
            0 <= i < table.ops@.len() && (#[trigger] table.ops@[i]).operation
                == stream@.lease.operation ==> table.ops@[i].generation == completion.generation,
        !stream@.lease.terminal,
        stream@.queue.len() > 0,
        stream@.queue[0].generation == completion.generation,
        stream@.loaded + bytes@.len() <= u64::MAX,
    ensures
        ({
            &&& step matches StreamStep::Settle { settled, submit }
            &&& settled@.len() <= 1
            &&& settled@.len() == 1 ==> settled@[0].seq == old(stream)@.queue[0].seq && (
            settled@[0].result matches ReadResult::Text(text) && text@.len() > 0)
                && final(stream)@.queue == old(stream)@.queue.skip(1)
            &&& settled@.len() == 0 ==> final(stream)@.queue == old(stream)@.queue
            &&& final(stream)@.loaded == old(stream)@.loaded + bytes@.len()
            &&& submit is Some <==> final(stream)@.queue.len() > 0
            &&& submit matches Some(task) ==> task.window.offset == final(stream)@.loaded
        }),
{
    let queue = stream.queue@;
    lemma_stream_op_of(table.ops@, stream.lease.operation);
    lemma_going_is_live(stream@, *table, *bridge);
    if let StreamStep::Settle { settled, submit } = step {
        assert(settlements(settled@).len() == settled@.len());
        if settled@.len() == 1 {
            assert(settlements(settled@)[0] == settled@[0]@);
        } else {
            assert(seq![queue[0]] + queue.skip(1) =~= queue);
        }
    }
}

} // verus!
