//! The operations that script starts, on the state of a registered context.
//!
//! Every operation keeps the state sound, takes its ceilings and the closed state
//! from it, and touches no other reader, stream or promise.

use vstd::prelude::*;

use crate::blob::BlobData;
use crate::bridge::{
    lemma_release_keeps, lemma_reserve_keeps, lemma_same_ids_keep, lemma_slot_of,
    reader_chunk_taken_in, slot_released, slot_reserved, stream_chunk_taken_in, taken_in,
};
use crate::dom::mapped_error;
use crate::error::{type_error, FileApiError, JsError, JsErrorKind};
use crate::filereader::{
    self, abort_effect, apply_effect, consistent, continue_effect, data_url_start_effect,
    dispatch_finished, error_job, failure_applied, failure_effect, fresh_reader, op_of,
    op_of_reader, operation_released, publish_step, pump_effect, start_class, start_effect,
    AbortOutcome, DispatchJob, FileReaderNative, PumpState, PumpStep, ReadKind, ReadRequest,
    StartRead, LOADING, NO_OPERATION,
};
use crate::handle::{
    all_streams_wf, lemma_bridge_keeps_state, lemma_fresh_operation_is_nobodys,
    lemma_readers_disturb_nobody, lemma_reads_disturb_nobody, lemma_streams_disturb_nobody, not_a_read, not_a_reader,
    not_a_stream, FileApiHandle,
};
use crate::ids::FileIoOperationId;
use crate::io::{
    ChunkKind, FileIoCompletion, FileIoSubmitError, FileReaderChunkCompletion, FileReaderChunkTask,
    StreamChunkCompletion, StreamChunkTask,
};
use crate::poll::{
    find_reader, lemma_op_position, lemma_read_step_wf, lemma_stream_change_wf, reader_at,
    reads_in_chunks,
};
use crate::promise_read::{self, promise_started, read_of, ReadMode, StartPromise};
use crate::streams::{
    self, cancel_call_effect, cancel_effect, cleanup_note, create_effect, endpoint_gone,
    fail_effect, failure_of, lock_effect, packaged_effect, read_effect, release_effect,
    settlements, stream_op_of, stream_wf, streams_consistent, submit_failed_effect, ReadCall,
    ReaderEndpoint, Settled, StreamCancel, StreamMode, StreamOp, StreamRefusal, StreamShared,
};

verus! {

/// Whether only the reader at `at`, the operations of readers and the bridge
/// differ.
pub open spec fn only_reader_changed(
    before: FileApiHandle,
    after: FileApiHandle,
    at: int,
) -> bool {
    &&& after == (FileApiHandle {
        readers: after.readers,
        reader_ops: after.reader_ops,
        bridge: after.bridge,
        ..before
    })
    &&& after.readers@.len() == before.readers@.len()
    &&& after.readers@ == before.readers@.update(at, after.readers@[at])
}

/// Readers whose operations and slots stay keep the state sound.
proof fn lemma_reader_kept(before: FileApiHandle, after: FileApiHandle)
    requires
        before.wf(),
        after == (FileApiHandle {
            readers: after.readers,
            reader_ops: after.reader_ops,
            bridge: after.bridge,
            ..before
        }),
        consistent(after.reader_ops, after.bridge),
        after.bridge.is_closed() == before.bridge.is_closed(),
        after.bridge.slots() == before.bridge.slots(),
        after.reader_ops.ops@.len() == before.reader_ops.ops@.len(),
        forall|i: int|
            0 <= i < before.reader_ops.ops@.len() ==> (
            #[trigger] after.reader_ops.ops@[i]).operation == before.reader_ops.ops@[i].operation,
    ensures
        after.wf(),
{
    lemma_same_ids_keep(before.bridge, after.bridge);
    assert forall|i: int| 0 <= i < after.reader_ops.ops@.len() implies not_a_stream(
        before,
        (#[trigger] after.reader_ops.ops@[i]).operation,
    ) && not_a_read(before, after.reader_ops.ops@[i].operation) by {
        lemma_reader_is_apart(before, i);
    }
    lemma_readers_disturb_nobody(before, after, None);
}

proof fn lemma_reader_is_apart(handle: FileApiHandle, i: int)
    requires
        handle.wf(),
        0 <= i < handle.reader_ops.ops@.len(),
    ensures
        not_a_stream(handle, handle.reader_ops.ops@[i].operation),
        not_a_read(handle, handle.reader_ops.ops@[i].operation),
{
    let operation = handle.reader_ops.ops@[i].operation;
    assert forall|j: int| 0 <= j < handle.stream_ops.ops@.len() implies (
    #[trigger] handle.stream_ops.ops@[j]).operation != operation by {
        assert(handle.reader_ops.ops@[i].operation != handle.stream_ops.ops@[j].operation);
    }
    assert forall|j: int| 0 <= j < handle.reads.reads@.len() implies (
    #[trigger] handle.reads.reads@[j]).operation != operation by {
        assert(handle.reader_ops.ops@[i].operation != handle.reads.reads@[j].operation);
    }
}

/// A reader that ends its operation keeps the state sound.
proof fn lemma_reader_released(before: FileApiHandle, after: FileApiHandle, operation: u64)
    requires
        before.wf(),
        after == (FileApiHandle {
            readers: after.readers,
            reader_ops: after.reader_ops,
            bridge: after.bridge,
            ..before
        }),
        consistent(after.reader_ops, after.bridge),
        operation_released(
            before.reader_ops,
            before.bridge,
            after.reader_ops,
            after.bridge,
            operation,
        ),
    ensures
        after.wf(),
{
    lemma_op_position(before.reader_ops.ops@, operation);
    match op_of(before.reader_ops.ops@, operation) {
        Some(at) => {
            let ops = before.reader_ops.ops@;
            lemma_release_keeps(before.bridge, after.bridge, operation);
            assert forall|i: int| 0 <= i < after.reader_ops.ops@.len() implies not_a_stream(
                before,
                (#[trigger] after.reader_ops.ops@[i]).operation,
            ) && not_a_read(before, after.reader_ops.ops@[i].operation) by {
                let k = if i < at {
                    i
                } else {
                    i + 1
                };
                assert(after.reader_ops.ops@[i] == ops[k]);
                lemma_reader_is_apart(before, k);
            }
            lemma_reader_is_apart(before, at);
            lemma_readers_disturb_nobody(before, after, Some(operation));
        },
        None => {
            lemma_reader_kept(before, after);
        },
    }
}

/// A reader that begins an operation keeps the state sound.
proof fn lemma_reader_begun(before: FileApiHandle, after: FileApiHandle)
    requires
        before.wf(),
        !before.bridge.is_closed(),
        after == (FileApiHandle {
            readers: after.readers,
            reader_ops: after.reader_ops,
            bridge: after.bridge,
            ..before
        }),
        consistent(after.reader_ops, after.bridge),
        after.reader_ops.ops@.len() == before.reader_ops.ops@.len() + 1,
        after.reader_ops.ops@.drop_last() == before.reader_ops.ops@,
        after.reader_ops.ops@.last().operation == before.bridge.next_id(),
        slot_reserved(before.bridge, after.bridge, before.bridge.next_id(), true),
    ensures
        after.wf(),
{
    lemma_reserve_keeps(before.bridge, after.bridge);
    lemma_fresh_operation_is_nobodys(before);
    let ops = before.reader_ops.ops@;
    assert forall|i: int| 0 <= i < after.reader_ops.ops@.len() implies not_a_stream(
        before,
        (#[trigger] after.reader_ops.ops@[i]).operation,
    ) && not_a_read(before, after.reader_ops.ops@[i].operation) by {
        if i < ops.len() {
            assert(after.reader_ops.ops@[i] == ops[i]);
            lemma_reader_is_apart(before, i);
        }
    }
    lemma_readers_disturb_nobody(before, after, None);
}

/// Whether a read of the reader at `at` was started: a data URL is measured
/// first.
pub open spec fn read_started(
    before: FileApiHandle,
    after: FileApiHandle,
    at: int,
    request: ReadRequest,
    outcome: StartRead,
) -> bool {
    let limits = before.config.limits;
    let closed = before.flag@.closed;
    let reader = before.readers@[at]@;
    if request.kind == ReadKind::DataUrl {
        data_url_start_effect(
            request,
            limits,
            closed,
            reader,
            before.reader_ops,
            before.bridge,
            after.readers@[at]@,
            after.reader_ops,
            after.bridge,
            outcome,
        )
    } else {
        start_effect(
            start_class(
                reader.ready_state,
                closed,
                before.reader_ops.queue.active,
                limits,
                before.bridge,
            ),
            request,
            limits,
            reader,
            before.reader_ops,
            before.bridge,
            after.readers@[at]@,
            after.reader_ops,
            after.bridge,
            outcome,
        )
    }
}

/// Whether the start of a read was ended since its first chunk request was
/// refused.
pub open spec fn first_refused(
    before: FileApiHandle,
    after: FileApiHandle,
    at: int,
    task: FileReaderChunkTask,
    total: u64,
    error: FileIoSubmitError,
    job: Option<DispatchJob>,
) -> bool {
    let reader = before.readers@[at]@;
    let generation = task.window.generation;
    &&& after.reader_ops.queue.next_generation == before.reader_ops.queue.next_generation
    &&& operation_released(
        before.reader_ops,
        before.bridge,
        after.reader_ops,
        after.bridge,
        task.operation_id.spec_get(),
    )
    &&& after.readers@[at]@ == failure_applied(
        reader,
        generation,
        mapped_error(error.settles_as()),
    )
    &&& job == if reader.generation == generation {
        Some(error_job(generation, NO_OPERATION, total))
    } else {
        None
    }
}

impl FileApiHandle {
    /// Starts a read of a `FileReader`.
    pub fn start_read(&mut self, at: usize, request: ReadRequest) -> (outcome: StartRead)
        requires
            old(self).wf(),
            at < old(self).readers@.len(),
            request.data.wf(),
        ensures
            final(self).wf(),
            only_reader_changed(*old(self), *final(self), at as int),
            read_started(*old(self), *final(self), at as int, request, outcome),
    {
        let closed = self.flag.is_shutdown();
        let ghost before = *self;
        let outcome = match request.kind {
            ReadKind::DataUrl => filereader::read_as_data_url(
                &mut self.reader_ops,
                &mut self.readers[at],
                &mut self.bridge,
                request,
                &self.config.limits,
                closed,
            ),
            _ => filereader::start_read(
                &mut self.reader_ops,
                &mut self.readers[at],
                &mut self.bridge,
                request,
                &self.config.limits,
                closed,
            ),
        };
        proof {
            assert(self.readers@ =~= before.readers@.update(at as int, self.readers@[at as int]));
            if self.reader_ops.ops@.len() == before.reader_ops.ops@.len() {
                lemma_reader_kept(before, *self);
            } else {
                lemma_reader_begun(before, *self);
            }
        }
        outcome
    }

    /// Ends the start of a read whose first chunk request was refused.
    pub fn first_submit_failed(
        &mut self,
        at: usize,
        task: &FileReaderChunkTask,
        total: u64,
        error: FileIoSubmitError,
    ) -> (job: Option<DispatchJob>)
        requires
            old(self).wf(),
            at < old(self).readers@.len(),
        ensures
            final(self).wf(),
            only_reader_changed(*old(self), *final(self), at as int),
            first_refused(*old(self), *final(self), at as int, *task, total, error, job),
    {
        let ghost before = *self;
        let job = filereader::first_submit_failed(
            &mut self.reader_ops,
            &mut self.readers[at],
            &mut self.bridge,
            task,
            total,
            error,
        );
        proof {
            assert(self.readers@ =~= before.readers@.update(at as int, self.readers@[at as int]));
            lemma_reader_released(before, *self, task.operation_id.spec_get());
        }
        job
    }

    /// Ends a read whose next chunk request was refused.
    pub fn next_submit_failed(
        &mut self,
        at: usize,
        task: &FileReaderChunkTask,
        total: u64,
        error: FileIoSubmitError,
    ) -> (job: Option<DispatchJob>)
        requires
            old(self).wf(),
            at < old(self).readers@.len(),
        ensures
            final(self).wf(),
            only_reader_changed(*old(self), *final(self), at as int),
            failure_effect(
                old(self).readers@[at as int]@,
                old(self).reader_ops,
                old(self).bridge,
                final(self).readers@[at as int]@,
                final(self).reader_ops,
                final(self).bridge,
                job,
                task.window.generation,
                task.operation_id.spec_get(),
                total,
                error.settles_as(),
            ),
    {
        let ghost before = *self;
        let job = filereader::next_submit_failed(
            &mut self.reader_ops,
            &mut self.readers[at],
            &mut self.bridge,
            task,
            total,
            error,
        );
        proof {
            assert(self.readers@ =~= before.readers@.update(at as int, self.readers@[at as int]));
            if before.readers@[at as int].generation == task.window.generation {
                lemma_reader_released(before, *self, task.operation_id.spec_get());
            } else {
                lemma_reader_kept(before, *self);
            }
        }
        job
    }

    /// `abort()` of a `FileReader`.
    pub fn abort(&mut self, at: usize) -> (outcome: AbortOutcome)
        requires
            old(self).wf(),
            at < old(self).readers@.len(),
        ensures
            final(self).wf(),
            only_reader_changed(*old(self), *final(self), at as int),
            abort_effect(
                old(self).readers@[at as int]@,
                old(self).reader_ops,
                old(self).bridge,
                final(self).readers@[at as int]@,
                final(self).reader_ops,
                final(self).bridge,
                outcome,
            ),
    {
        let ghost before = *self;
        let outcome = filereader::abort(
            &mut self.reader_ops,
            &mut self.readers[at],
            &mut self.bridge,
        );
        proof {
            assert(self.readers@ =~= before.readers@.update(at as int, self.readers@[at as int]));
            let reader = before.readers@[at as int]@;
            if reader.ready_state == LOADING && op_of_reader(
                before.reader_ops.ops@,
                reader.key,
            ) is Some {
                let found = op_of_reader(before.reader_ops.ops@, reader.key)->0;
                lemma_reader_released(before, *self, before.reader_ops.ops@[found].operation);
            } else {
                lemma_reader_kept(before, *self);
            }
        }
        outcome
    }

    /// Starts a job that applies one chunk.
    pub fn run_pump(&mut self, at: usize, generation: u64, operation: u64, state: PumpState) -> (
        step: PumpStep)
        requires
            old(self).wf(),
            at < old(self).readers@.len(),
            state.wf(),
        ensures
            final(self).wf(),
            only_reader_changed(*old(self), *final(self), at as int),
            final(self).readers@ == old(self).readers@,
            pump_effect(
                old(self).readers@[at as int]@,
                old(self).reader_ops,
                old(self).bridge,
                generation,
                operation,
                state,
                old(self).flag@.closed,
                final(self).reader_ops,
                final(self).bridge,
                step,
            ),
    {
        let closed = self.flag.is_shutdown();
        let ghost before = *self;
        let step = filereader::run_pump(
            &mut self.reader_ops,
            &self.readers[at],
            &mut self.bridge,
            generation,
            operation,
            state,
            closed,
        );
        proof {
            assert(self.readers@ =~= before.readers@.update(at as int, self.readers@[at as int]));
            if before.readers@[at as int].generation == generation && closed {
                lemma_reader_released(before, *self, operation);
            } else {
                lemma_reader_kept(before, *self);
            }
        }
        step
    }

    /// Applies what came of a chunk request.
    pub fn apply_chunk(
        &mut self,
        at: usize,
        generation: u64,
        operation: u64,
        state: PumpState,
        chunk: ChunkKind,
        now: i64,
    ) -> (step: PumpStep)
        requires
            old(self).wf(),
            at < old(self).readers@.len(),
            state.wf(),
        ensures
            final(self).wf(),
            only_reader_changed(*old(self), *final(self), at as int),
            apply_effect(
                old(self).readers@[at as int]@,
                old(self).reader_ops,
                old(self).bridge,
                generation,
                operation,
                state,
                chunk,
                now,
                final(self).readers@[at as int]@,
                final(self).reader_ops,
                final(self).bridge,
                step,
            ),
    {
        let ghost before = *self;
        let step = filereader::apply_chunk(
            &mut self.reader_ops,
            &mut self.readers[at],
            &mut self.bridge,
            generation,
            operation,
            state,
            chunk,
            now,
        );
        proof {
            assert(self.readers@ =~= before.readers@.update(at as int, self.readers@[at as int]));
            if before.readers@[at as int].generation == generation && step.next is Queue {
                lemma_reader_released(before, *self, operation);
            } else {
                lemma_reader_kept(before, *self);
            }
        }
        step
    }

    /// Goes on after a chunk.
    pub fn continue_pump(
        &mut self,
        at: usize,
        generation: u64,
        operation: u64,
        state: PumpState,
    ) -> (step: PumpStep)
        requires
            old(self).wf(),
            at < old(self).readers@.len(),
            state.wf(),
        ensures
            final(self).wf(),
            *final(self) == (FileApiHandle { reader_ops: final(self).reader_ops, ..*old(self) }),
            continue_effect(
                old(self).readers@[at as int]@,
                old(self).reader_ops,
                old(self).bridge,
                generation,
                operation,
                state,
                final(self).reader_ops,
                step,
            ),
    {
        let ghost before = *self;
        let step = filereader::continue_pump(
            &mut self.reader_ops,
            &self.readers[at],
            &self.bridge,
            generation,
            operation,
            state,
        );
        proof {
            lemma_op_position(before.reader_ops.ops@, operation);
            lemma_reader_kept(before, *self);
        }
        step
    }

    /// Settles a read with its result.
    pub fn publish_result(
        &mut self,
        at: usize,
        generation: u64,
        operation: u64,
        state: PumpState,
    ) -> (step: PumpStep)
        requires
            old(self).wf(),
            at < old(self).readers@.len(),
            state.wf(),
        ensures
            final(self).wf(),
            only_reader_changed(*old(self), *final(self), at as int),
            publish_step(
                state,
                old(self).readers@[at as int]@,
                old(self).reader_ops,
                old(self).bridge,
                final(self).readers@[at as int]@,
                final(self).reader_ops,
                final(self).bridge,
                step,
                generation,
                operation,
            ),
    {
        let ghost before = *self;
        let step = filereader::publish_result(
            &mut self.reader_ops,
            &mut self.readers[at],
            &mut self.bridge,
            generation,
            operation,
            state,
        );
        proof {
            assert(self.readers@ =~= before.readers@.update(at as int, self.readers@[at as int]));
            if before.readers@[at as int].generation == generation {
                lemma_reader_released(before, *self, operation);
            } else {
                lemma_reader_kept(before, *self);
            }
        }
        step
    }
}

/// Whether only the stream at `at`, the operations of streams and the bridge
/// differ.
pub open spec fn only_stream_changed(
    before: FileApiHandle,
    after: FileApiHandle,
    at: int,
) -> bool {
    &&& after == (FileApiHandle {
        streams: after.streams,
        stream_ops: after.stream_ops,
        bridge: after.bridge,
        ..before
    })
    &&& after.streams@.len() == before.streams@.len()
    &&& after.streams@ == before.streams@.update(at, after.streams@[at])
}

proof fn lemma_stream_is_apart(handle: FileApiHandle, i: int)
    requires
        handle.wf(),
        0 <= i < handle.stream_ops.ops@.len(),
    ensures
        not_a_reader(handle, handle.stream_ops.ops@[i].operation),
        not_a_read(handle, handle.stream_ops.ops@[i].operation),
{
    let operation = handle.stream_ops.ops@[i].operation;
    assert forall|j: int| 0 <= j < handle.reader_ops.ops@.len() implies (
    #[trigger] handle.reader_ops.ops@[j]).operation != operation by {
        assert(handle.reader_ops.ops@[j].operation != handle.stream_ops.ops@[i].operation);
    }
    assert forall|j: int| 0 <= j < handle.reads.reads@.len() implies (
    #[trigger] handle.reads.reads@[j]).operation != operation by {
        assert(handle.stream_ops.ops@[i].operation != handle.reads.reads@[j].operation);
    }
}

/// A stream that was created, or refused, keeps the state sound.
proof fn lemma_stream_created(before: FileApiHandle, after: FileApiHandle, fresh: bool)
    requires
        before.wf(),
        after == (FileApiHandle {
            streams: after.streams,
            stream_ops: after.stream_ops,
            bridge: after.bridge,
            ..before
        }),
        all_streams_wf(after.streams@),
        streams_consistent(after.stream_ops, after.bridge),
        after.bridge.is_closed() == before.bridge.is_closed(),
        fresh ==> {
            &&& !before.bridge.is_closed()
            &&& after.stream_ops.ops@.len() == before.stream_ops.ops@.len() + 1
            &&& after.stream_ops.ops@.drop_last() == before.stream_ops.ops@
            &&& after.stream_ops.ops@.last().operation == before.bridge.next_id()
            &&& slot_reserved(before.bridge, after.bridge, before.bridge.next_id(), true)
        },
        !fresh ==> {
            &&& after.stream_ops.ops@ == before.stream_ops.ops@
            &&& after.bridge.slots() == before.bridge.slots()
        },
    ensures
        after.wf(),
{
    if fresh {
        lemma_reserve_keeps(before.bridge, after.bridge);
        lemma_fresh_operation_is_nobodys(before);
    } else {
        lemma_same_ids_keep(before.bridge, after.bridge);
    }
    let ops = before.stream_ops.ops@;
    assert forall|i: int| 0 <= i < after.stream_ops.ops@.len() implies not_a_reader(
        before,
        (#[trigger] after.stream_ops.ops@[i]).operation,
    ) && not_a_read(before, after.stream_ops.ops@[i].operation) by {
        if i < ops.len() {
            assert(after.stream_ops.ops@[i] == ops[i]);
            lemma_stream_is_apart(before, i);
        }
    }
    lemma_streams_disturb_nobody(before, after, None);
}

/// Whether a stream over `data` was created, or refused.
pub open spec fn stream_created(
    before: FileApiHandle,
    after: FileApiHandle,
    data: BlobData,
    mode: StreamMode,
    result: Result<(), StreamRefusal>,
) -> bool {
    &&& after == (FileApiHandle {
        streams: after.streams,
        stream_ops: after.stream_ops,
        bridge: after.bridge,
        ..before
    })
    &&& match result {
        Ok(_) => {
            &&& after.streams@.len() == before.streams@.len() + 1
            &&& after.streams@.drop_last() == before.streams@
        },
        Err(_) => after.streams@ == before.streams@,
    }
    &&& create_effect(
        before.stream_ops,
        before.bridge,
        data,
        before.config.limits,
        mode,
        before.flag@.closed,
        before.config.streams_shim,
        after.stream_ops,
        after.bridge,
        match result {
            Ok(_) => Ok(after.streams@.last()@),
            Err(refusal) => Err(refusal@),
        },
    )
}

impl FileApiHandle {
    /// `stream()` and `textStream()`: the new stream stands last.
    pub fn create_stream(&mut self, data: BlobData, mode: StreamMode) -> (result: Result<
        (),
        StreamRefusal,
    >)
        requires
            old(self).wf(),
            data.wf(),
        ensures
            final(self).wf(),
            stream_created(*old(self), *final(self), data, mode, result),
    {
        let closed = self.flag.is_shutdown();
        let shim = self.config.streams_shim;
        let ghost before = *self;
        match streams::create_stream(
            &mut self.stream_ops,
            &mut self.bridge,
            data,
            &self.config.limits,
            mode,
            closed,
            shim,
        ) {
            Ok(stream) => {
                self.streams.push(stream);
                proof {
                    assert(self.streams@.drop_last() =~= before.streams@);
                    assert forall|i: int| 0 <= i < self.streams@.len() implies stream_wf(
                        (#[trigger] self.streams@[i])@,
                    ) by {
                        if i < before.streams@.len() {
                            assert(stream_wf(before.streams@[i]@));
                        }
                    }
                    lemma_stream_created(before, *self, true);
                }
                Ok(())
            },
            Err(refusal) => {
                proof {
                    lemma_stream_created(before, *self, false);
                }
                Err(refusal)
            },
        }
    }

    /// `getReader()`.
    pub fn get_reader(&mut self, at: usize) -> (result: Result<(), JsError>)
        requires
            old(self).wf(),
            at < old(self).streams@.len(),
        ensures
            final(self).wf(),
            only_stream_changed(*old(self), *final(self), at as int),
            final(self).stream_ops == old(self).stream_ops,
            final(self).bridge == old(self).bridge,
            lock_effect(
                old(self).streams@[at as int]@,
                old(self).config.streams_shim,
                final(self).streams@[at as int]@,
                failure_of(result),
            ),
    {
        let shim = self.config.streams_shim;
        let ghost before = *self;
        let result = streams::get_reader(&mut self.streams[at], shim);
        proof {
            assert(stream_wf(before.streams@[at as int]@));
            assert(self.streams@ =~= before.streams@.update(at as int, self.streams@[at as int]));
            lemma_stream_change_wf(
                before,
                *self,
                at as int,
                before.streams@[at as int].lease.operation,
            );
        }
        result
    }

    /// `releaseLock()`.
    pub fn release_lock(&mut self, at: usize, reader: &mut ReaderEndpoint) -> (result: Result<
        (),
        JsError,
    >)
        requires
            old(self).wf(),
            at < old(self).streams@.len(),
        ensures
            final(self).wf(),
            only_stream_changed(*old(self), *final(self), at as int),
            final(self).stream_ops == old(self).stream_ops,
            final(self).bridge == old(self).bridge,
            release_effect(
                old(self).streams@[at as int]@,
                *old(reader),
                final(self).streams@[at as int]@,
                *final(reader),
                failure_of(result),
            ),
    {
        let ghost before = *self;
        let result = streams::release_lock(&mut self.streams[at], reader);
        proof {
            assert(stream_wf(before.streams@[at as int]@));
            assert(self.streams@ =~= before.streams@.update(at as int, self.streams@[at as int]));
            lemma_stream_change_wf(
                before,
                *self,
                at as int,
                before.streams@[at as int].lease.operation,
            );
        }
        result
    }

    /// Takes note that a script object of a stream is gone.
    pub fn endpoint_dropped(&mut self, at: usize, is_reader: bool)
        requires
            old(self).wf(),
            at < old(self).streams@.len(),
        ensures
            final(self).wf(),
            *final(self) == (FileApiHandle {
                streams: final(self).streams,
                cleanups: final(self).cleanups,
                ..*old(self)
            }),
            final(self).streams@.len() == old(self).streams@.len(),
            final(self).streams@ == old(self).streams@.update(
                at as int,
                final(self).streams@[at as int],
            ),
            final(self).streams@[at as int]@ == endpoint_gone(
                old(self).streams@[at as int]@,
                is_reader,
            ),
            final(self).cleanups@ == match cleanup_note(
                old(self).streams@[at as int]@,
                is_reader,
            ) {
                Some(note) => old(self).cleanups@.push(note),
                None => old(self).cleanups@,
            },
    {
        let ghost before = *self;
        let note = streams::deregister_stream_endpoint_inner(&mut self.streams[at], is_reader);
        proof {
            assert(stream_wf(before.streams@[at as int]@));
            assert(self.streams@ =~= before.streams@.update(at as int, self.streams@[at as int]));
            lemma_stream_change_wf(
                before,
                *self,
                at as int,
                before.streams@[at as int].lease.operation,
            );
        }
        match note {
            Some(note) => {
                self.cleanups.push(note);
            },
            None => {},
        }
    }

    /// `cancel()` of a stream.
    pub fn stream_cancel(&mut self, at: usize) -> (outcome: StreamCancel)
        requires
            old(self).wf(),
            at < old(self).streams@.len(),
        ensures
            final(self).wf(),
            only_stream_changed(*old(self), *final(self), at as int),
            cancel_call_effect(
                old(self).streams@[at as int]@,
                old(self).stream_ops,
                old(self).bridge,
                final(self).streams@[at as int]@,
                final(self).stream_ops,
                final(self).bridge,
                outcome,
            ),
    {
        let ghost before = *self;
        proof {
            assert(stream_wf(before.streams@[at as int]@));
        }
        let outcome = streams::stream_cancel(
            &mut self.streams[at],
            &mut self.stream_ops,
            &mut self.bridge,
        );
        proof {
            assert(self.streams@ =~= before.streams@.update(at as int, self.streams@[at as int]));
            lemma_stream_change_wf(
                before,
                *self,
                at as int,
                before.streams@[at as int].lease.operation,
            );
        }
        outcome
    }

    /// `cancel()` of the reader of a stream.
    pub fn reader_cancel(&mut self, at: usize, released: bool) -> (result: Result<
        Vec<Settled>,
        JsError,
    >)
        requires
            old(self).wf(),
            at < old(self).streams@.len(),
        ensures
            final(self).wf(),
            only_stream_changed(*old(self), *final(self), at as int),
            match result {
                Ok(settled) => !released && cancel_effect(
                    old(self).streams@[at as int]@,
                    old(self).stream_ops,
                    old(self).bridge,
                    final(self).streams@[at as int]@,
                    final(self).stream_ops,
                    final(self).bridge,
                    settlements(settled@),
                ),
                Err(error) => {
                    &&& released
                    &&& error@ == (JsErrorKind::Type, "the reader has been released"@)
                    &&& *final(self) == *old(self)
                },
            },
    {
        let ghost before = *self;
        if released {
            assert(self.streams@ =~= before.streams@.update(at as int, self.streams@[at as int]));
            return Err(type_error("the reader has been released"));
        }
        proof {
            assert(stream_wf(before.streams@[at as int]@));
        }
        let settled = streams::cancel_shared(
            &mut self.streams[at],
            &mut self.stream_ops,
            &mut self.bridge,
        );
        proof {
            assert(self.streams@ =~= before.streams@.update(at as int, self.streams@[at as int]));
            lemma_stream_change_wf(
                before,
                *self,
                at as int,
                before.streams@[at as int].lease.operation,
            );
        }
        Ok(settled)
    }

    /// `read()` of the reader of a stream.
    pub fn reader_read(&mut self, at: usize, released: bool) -> (call: ReadCall)
        requires
            old(self).wf(),
            at < old(self).streams@.len(),
        ensures
            final(self).wf(),
            only_stream_changed(*old(self), *final(self), at as int),
            final(self).stream_ops == old(self).stream_ops,
            final(self).bridge == old(self).bridge,
            read_effect(
                old(self).streams@[at as int]@,
                old(self).stream_ops,
                old(self).bridge,
                old(self).config.limits,
                released,
                old(self).flag@.closed,
                final(self).streams@[at as int]@,
                call,
            ),
    {
        let closed = self.flag.is_shutdown();
        let ghost before = *self;
        proof {
            assert(stream_wf(before.streams@[at as int]@));
        }
        let call = streams::reader_read(
            &mut self.streams[at],
            &self.stream_ops,
            &self.bridge,
            &self.config.limits,
            released,
            closed,
        );
        proof {
            assert(self.streams@ =~= before.streams@.update(at as int, self.streams@[at as int]));
            lemma_stream_change_wf(
                before,
                *self,
                at as int,
                before.streams@[at as int].lease.operation,
            );
        }
        call
    }

    /// Ends a stream whose chunk request was refused.
    pub fn stream_submit_failed(&mut self, at: usize, error: FileIoSubmitError) -> (settled: Vec<
        Settled,
    >)
        requires
            old(self).wf(),
            at < old(self).streams@.len(),
        ensures
            final(self).wf(),
            only_stream_changed(*old(self), *final(self), at as int),
            submit_failed_effect(
                old(self).streams@[at as int]@,
                old(self).stream_ops,
                old(self).bridge,
                error.settles_as(),
                final(self).streams@[at as int]@,
                final(self).stream_ops,
                final(self).bridge,
                settlements(settled@),
            ),
    {
        let ghost before = *self;
        proof {
            assert(stream_wf(before.streams@[at as int]@));
        }
        let settled = streams::fail_stream_from_submit(
            &mut self.streams[at],
            &mut self.stream_ops,
            &mut self.bridge,
            error,
        );
        proof {
            assert(self.streams@ =~= before.streams@.update(at as int, self.streams@[at as int]));
            lemma_stream_change_wf(
                before,
                *self,
                at as int,
                before.streams@[at as int].lease.operation,
            );
        }
        settled
    }

    /// Goes on after the bytes of a chunk of a stream were packaged.
    pub fn chunk_packaged(&mut self, at: usize, len: usize) -> (submit: Option<StreamChunkTask>)
        requires
            old(self).wf(),
            at < old(self).streams@.len(),
        ensures
            final(self).wf(),
            only_stream_changed(*old(self), *final(self), at as int),
            final(self).stream_ops == old(self).stream_ops,
            final(self).bridge == old(self).bridge,
            packaged_effect(
                old(self).streams@[at as int]@,
                old(self).stream_ops,
                old(self).bridge,
                old(self).config.limits,
                len as int,
                final(self).streams@[at as int]@,
                submit,
            ),
    {
        let ghost before = *self;
        proof {
            assert(stream_wf(before.streams@[at as int]@));
        }
        let submit = streams::chunk_packaged(
            &mut self.streams[at],
            &self.stream_ops,
            &self.bridge,
            &self.config.limits,
            len,
        );
        proof {
            assert(self.streams@ =~= before.streams@.update(at as int, self.streams@[at as int]));
            lemma_stream_change_wf(
                before,
                *self,
                at as int,
                before.streams@[at as int].lease.operation,
            );
        }
        submit
    }

    /// Ends a stream whose chunk could not be packaged.
    pub fn chunk_packaging_failed(&mut self, at: usize, demand: streams::PendingRead) -> (settled:
        Vec<Settled>)
        requires
            old(self).wf(),
            at < old(self).streams@.len(),
        ensures
            final(self).wf(),
            only_stream_changed(*old(self), *final(self), at as int),
            fail_effect(
                old(self).streams@[at as int]@,
                old(self).stream_ops,
                old(self).bridge,
                seq![demand] + old(self).streams@[at as int].queue@,
                FileApiError::Internal,
                final(self).streams@[at as int]@,
                final(self).stream_ops,
                final(self).bridge,
                settlements(settled@),
            ),
    {
        let ghost before = *self;
        proof {
            assert(stream_wf(before.streams@[at as int]@));
        }
        let settled = streams::chunk_packaging_failed(
            &mut self.streams[at],
            &mut self.stream_ops,
            &mut self.bridge,
            demand,
        );
        proof {
            assert(self.streams@ =~= before.streams@.update(at as int, self.streams@[at as int]));
            lemma_stream_change_wf(
                before,
                *self,
                at as int,
                before.streams@[at as int].lease.operation,
            );
        }
        settled
    }
}

proof fn lemma_read_is_apart(handle: FileApiHandle, i: int)
    requires
        handle.wf(),
        0 <= i < handle.reads.reads@.len(),
    ensures
        not_a_reader(handle, handle.reads.reads@[i].operation),
        not_a_stream(handle, handle.reads.reads@[i].operation),
{
    let operation = handle.reads.reads@[i].operation;
    assert forall|j: int| 0 <= j < handle.reader_ops.ops@.len() implies (
    #[trigger] handle.reader_ops.ops@[j]).operation != operation by {
        assert(handle.reader_ops.ops@[j].operation != handle.reads.reads@[i].operation);
    }
    assert forall|j: int| 0 <= j < handle.stream_ops.ops@.len() implies (
    #[trigger] handle.stream_ops.ops@[j]).operation != operation by {
        assert(handle.stream_ops.ops@[j].operation != handle.reads.reads@[i].operation);
    }
}

/// Whether the read of an operation was given up since its task was refused. An
/// operation that reads in chunks has no such read.
pub open spec fn promise_given_up(
    before: FileApiHandle,
    after: FileApiHandle,
    operation: u64,
    error: FileIoSubmitError,
    reject: Option<FileApiError>,
) -> bool {
    if reads_in_chunks(before, operation) {
        after == before && reject is None
    } else {
        &&& after == (FileApiHandle { reads: after.reads, bridge: after.bridge, ..before })
        &&& slot_released(before.bridge, after.bridge, operation)
        &&& match read_of(before.reads.reads@, operation) {
            Some(i) => {
                &&& reject == Some(error.settles_as())
                &&& after.reads.reads@ == before.reads.reads@.remove(i)
            },
            None => reject is None && after.reads.reads@ == before.reads.reads@,
        }
    }
}

impl FileApiHandle {
    /// `text()`, `arrayBuffer()` and `bytes()` of a blob.
    pub fn read_promise(&mut self, data: &BlobData, mode: ReadMode) -> (outcome: StartPromise)
        requires
            old(self).wf(),
            data.wf(),
        ensures
            final(self).wf(),
            *final(self) == (FileApiHandle {
                reads: final(self).reads,
                bridge: final(self).bridge,
                ..*old(self)
            }),
            promise_started(
                old(self).reads.reads@,
                old(self).bridge,
                *data,
                old(self).config.limits,
                mode,
                old(self).flag@.closed,
                final(self).reads.reads@,
                final(self).bridge,
                outcome,
            ),
    {
        let closed = self.flag.is_shutdown();
        let ghost before = *self;
        let outcome = promise_read::read_promise(
            &mut self.reads,
            &mut self.bridge,
            data,
            &self.config.limits,
            mode,
            closed,
        );
        proof {
            let fresh = self.reads.reads@.len() > before.reads.reads@.len();
            if fresh {
                lemma_reserve_keeps(before.bridge, self.bridge);
                lemma_fresh_operation_is_nobodys(before);
            } else {
                lemma_same_ids_keep(before.bridge, self.bridge);
            }
            assert forall|i: int| 0 <= i < self.reads.reads@.len() implies not_a_reader(
                before,
                (#[trigger] self.reads.reads@[i]).operation,
            ) && not_a_stream(before, self.reads.reads@[i].operation) by {
                if i < before.reads.reads@.len() {
                    assert(self.reads.reads@[i] == before.reads.reads@[i]);
                    lemma_read_is_apart(before, i);
                }
            }
            lemma_reads_disturb_nobody(before, *self, None);
        }
        outcome
    }

    /// Gives a promise read up whose task was refused; gives the failure that its
    /// promise is rejected with.
    pub fn promise_submit_failed(
        &mut self,
        operation_id: FileIoOperationId,
        error: FileIoSubmitError,
    ) -> (reject: Option<FileApiError>)
        requires
            old(self).wf(),
        ensures
            final(self).wf(),
            promise_given_up(
                *old(self),
                *final(self),
                operation_id.spec_get(),
                error,
                reject,
            ),
    {
        let operation: u64 = operation_id.get();
        if self.reader_ops.reader_of(operation).is_some() || self.stream_ops.is_under_way(
            operation,
        ) {
            return None;
        }
        let ghost before = *self;
        let reject = promise_read::promise_submit_failed(
            &mut self.reads,
            &mut self.bridge,
            operation_id,
            error,
        );
        proof {
            lemma_read_step_wf(before, *self, operation);
        }
        reject
    }

    /// Takes the completion of a whole read in; tells whether it was taken.
    pub fn push_completion(&mut self, completion: FileIoCompletion) -> (accepted: bool)
        requires
            old(self).wf(),
        ensures
            final(self).wf(),
            *final(self) == (FileApiHandle { bridge: final(self).bridge, ..*old(self) }),
            taken_in(old(self).bridge, final(self).bridge, completion, accepted),
    {
        let ghost before = *self;
        let accepted = self.bridge.push_completion(completion);
        proof {
            lemma_slot_of(before.bridge.slots(), completion.operation_id.spec_get());
            lemma_same_ids_keep(before.bridge, self.bridge);
            lemma_bridge_keeps_state(before, *self);
        }
        accepted
    }

    /// Takes a chunk completion of a `FileReader` in; tells whether it was taken.
    pub fn push_reader_completion(&mut self, completion: FileReaderChunkCompletion) -> (accepted:
        bool)
        requires
            old(self).wf(),
        ensures
            final(self).wf(),
            *final(self) == (FileApiHandle { bridge: final(self).bridge, ..*old(self) }),
            reader_chunk_taken_in(old(self).bridge, final(self).bridge, completion, accepted),
    {
        let ghost before = *self;
        let accepted = self.bridge.push_reader_completion(completion);
        proof {
            lemma_same_ids_keep(before.bridge, self.bridge);
            lemma_bridge_keeps_state(before, *self);
        }
        accepted
    }

    /// Takes a chunk completion of a stream in; tells whether it was taken.
    pub fn push_stream_completion(&mut self, completion: StreamChunkCompletion) -> (accepted: bool)
        requires
            old(self).wf(),
        ensures
            final(self).wf(),
            *final(self) == (FileApiHandle { bridge: final(self).bridge, ..*old(self) }),
            stream_chunk_taken_in(old(self).bridge, final(self).bridge, completion, accepted),
    {
        let ghost before = *self;
        let accepted = self.bridge.push_stream_completion(completion);
        proof {
            lemma_same_ids_keep(before.bridge, self.bridge);
            lemma_bridge_keeps_state(before, *self);
        }
        accepted
    }

    /// Adds a reader that nothing was done with, under the number that the host
    /// gave its object.
    pub fn add_reader(&mut self, key: u64)
        requires
            old(self).wf(),
        ensures
            final(self).wf(),
            *final(self) == (FileApiHandle { readers: final(self).readers, ..*old(self) }),
            final(self).readers@.len() == old(self).readers@.len() + 1,
            final(self).readers@.drop_last() == old(self).readers@,
            final(self).readers@.last()@ == fresh_reader(key),
    {
        let ghost before = self.readers@;
        self.readers.push(FileReaderNative::fresh(key));
        assert(self.readers@.drop_last() =~= before);
    }

    /// Lets go of the reader of an object that is gone.
    pub fn forget_reader(&mut self, key: u64)
        requires
            old(self).wf(),
        ensures
            final(self).wf(),
            *final(self) == (FileApiHandle { readers: final(self).readers, ..*old(self) }),
            final(self).readers@ == match reader_at(old(self).readers@, key) {
                Some(at) => old(self).readers@.remove(at),
                None => old(self).readers@,
            },
    {
        if let Some(at) = find_reader(&self.readers, key) {
            let _ = self.readers.remove(at);
        }
    }

    /// Ends a dispatch job of the reader at `at`, whose event was fired.
    pub fn finish_dispatch(&mut self, at: usize, job: &DispatchJob) -> (follow_up: Option<
        DispatchJob,
    >)
        requires
            old(self).wf(),
            at < old(self).readers@.len(),
        ensures
            final(self).wf(),
            *final(self) == (FileApiHandle { readers: final(self).readers, ..*old(self) }),
            final(self).readers@ == old(self).readers@.update(
                at as int,
                final(self).readers@[at as int],
            ),
            (final(self).readers@[at as int]@, follow_up) == dispatch_finished(
                old(self).readers@[at as int]@,
                *job,
            ),
    {
        let ghost before = self.readers@;
        let follow_up = filereader::finish_dispatch(&mut self.readers[at], job);
        assert(self.readers@ =~= before.update(at as int, self.readers@[at as int]));
        follow_up
    }

    /// Lets go of the streams that are over: script has neither the stream nor a
    /// reader of it any more, and no operation of it is under way.
    pub fn forget_streams(&mut self)
        requires
            old(self).wf(),
        ensures
            final(self).wf(),
            *final(self) == (FileApiHandle { streams: final(self).streams, ..*old(self) }),
            final(self).streams@ == kept_streams(old(self).streams@, old(self).stream_ops.ops@),
    {
        let ghost all = self.streams@;
        let ghost ops = self.stream_ops.ops@;
        let mut i: usize = self.streams.len();
        proof {
            assert(all.take(i as int) =~= all);
            assert(self.streams@ =~= all.take(i as int) + Seq::<StreamShared>::empty());
            assert(kept_streams(all, ops) =~= kept_streams(all.take(i as int), ops) + Seq::<
                StreamShared,
            >::empty());
        }
        let ghost mut tail: Seq<StreamShared> = Seq::empty();
        while i > 0
            invariant
                i <= all.len(),
                self.wf(),
                *self == (FileApiHandle { streams: self.streams, ..*old(self) }),
                ops == self.stream_ops.ops@,
                self.streams@ == all.take(i as int) + tail,
                kept_streams(all, ops) == kept_streams(all.take(i as int), ops) + tail,
            decreases i,
        {
            i = i - 1;
            let ghost before = self.streams@;
            let ghost longer = all.take(i + 1);
            proof {
                assert(longer.drop_last() =~= all.take(i as int));
                assert(longer.last() == all[i as int]);
                assert(before[i as int] == all[i as int]);
            }
            let kept = self.streams[i].stream_registered || self.streams[i].reader_registered
                || self.stream_ops.is_under_way(self.streams[i].lease.operation);
            if kept {
                proof {
                    let one = seq![all[i as int]];
                    assert(before =~= all.take(i as int) + (one + tail));
                    assert(kept_streams(longer, ops) + tail =~= kept_streams(
                        all.take(i as int),
                        ops,
                    ) + (one + tail));
                    tail = one + tail;
                }
            } else {
                let _ = self.streams.remove(i);
                assert(self.streams@ =~= all.take(i as int) + tail);
                assert forall|k: int| 0 <= k < self.streams@.len() implies stream_wf(
                    (#[trigger] self.streams@[k])@,
                ) by {
                    let x = if k < i {
                        k
                    } else {
                        k + 1
                    };
                    assert(self.streams@[k] == before[x]);
                    assert(stream_wf(before[x]@));
                }
            }
        }
        proof {
            assert(all.take(0) =~= Seq::<StreamShared>::empty());
            assert(self.streams@ =~= tail);
            assert(kept_streams(all, ops) =~= tail);
        }
    }
}

/// Whether a stream is over: script has neither the stream nor a reader of it,
/// and no operation of it is under way.
pub open spec fn is_over(stream: StreamShared, ops: Seq<StreamOp>) -> bool {
    &&& !stream.stream_registered
    &&& !stream.reader_registered
    &&& stream_op_of(ops, stream.lease.operation) is None
}

/// The streams that are not over, in order.
pub open spec fn kept_streams(streams: Seq<StreamShared>, ops: Seq<StreamOp>) -> Seq<StreamShared>
    decreases streams.len(),
{
    if streams.len() == 0 {
        Seq::empty()
    } else {
        let before = kept_streams(streams.drop_last(), ops);
        if is_over(streams.last(), ops) {
            before
        } else {
            before.push(streams.last())
        }
    }
}


/// A stream that a context makes stands behind its earlier streams, over the blob
/// that was given, in the mode that was asked for and with nothing read; every
/// earlier stream stays as it is, and a refusal adds none.
pub proof fn lemma_contexts_make_streams(
    handle: &mut FileApiHandle,
    data: BlobData,
    mode: StreamMode,
    result: Result<(), StreamRefusal>,
    other: int,
)
    requires
        handle.wf(),
        data.wf(),
        call_ensures(FileApiHandle::create_stream, (handle, data, mode), result),
        0 <= other < handle.streams@.len() || handle.streams@.len() == 0,
    ensures
        result is Ok ==> {
            &&& final(handle).streams@.len() == old(handle).streams@.len() + 1
            &&& final(handle).streams@.last()@.data == Some(data)
            &&& final(handle).streams@.last()@.mode == mode
            &&& final(handle).streams@.last()@.loaded == 0
            &&& final(handle).streams@.last()@.queue.len() == 0
            &&& !final(handle).streams@.last()@.locked
            &&& final(handle).streams@.last()@.chunk_size
                == old(handle).config.limits.default_chunk_size
            &&& old(handle).streams@.len() > 0 ==> final(handle).streams@[other]
                == old(handle).streams@[other]
            &&& !old(handle).flag@.closed && old(handle).config.streams_shim
        },
        result is Err ==> final(handle).streams@ == old(handle).streams@
            && final(handle).stream_ops.ops@ == old(handle).stream_ops.ops@,
        !old(handle).flag@.closed && old(handle).config.streams_shim
            && old(handle).config.limits.chunk_size_valid() && !old(handle).bridge.is_closed()
            && !old(handle).bridge.out_of_ids() && old(handle).bridge.slots().len()
            < old(handle).bridge.limit() && 0 < old(handle).bridge.next_id() < u64::MAX
                ==> result is Ok,
        final(handle).readers == old(handle).readers,
        final(handle).reads == old(handle).reads,
        final(handle).urls == old(handle).urls,
{
    crate::bridge::lemma_completed_bounds(handle.bridge.slots());
    if result is Ok && handle.streams@.len() > 0 {
        let after = final(handle).streams@;
        assert(after.drop_last()[other] == after[other]);
    }
}

/// A read method of one reader of a context changes that reader alone; on a free
/// one the read begins at the front of the blob, whatever it is to become.
pub proof fn lemma_contexts_start_reads(
    handle: &mut FileApiHandle,
    at: usize,
    request: ReadRequest,
    outcome: StartRead,
    other: int,
)
    requires
        handle.wf(),
        at < handle.readers@.len(),
        request.data.wf(),
        call_ensures(FileApiHandle::start_read, (handle, at, request), outcome),
        0 <= other < handle.readers@.len(),
    ensures
        other != at ==> final(handle).readers@[other] == old(handle).readers@[other],
        final(handle).readers@.len() == old(handle).readers@.len(),
        final(handle).streams == old(handle).streams,
        final(handle).reads == old(handle).reads,
        old(handle).readers@[at as int].ready_state == LOADING ==> outcome is Refused
            && final(handle).readers@[at as int]@ == old(handle).readers@[at as int]@,
        outcome matches StartRead::Submit(task) ==> {
            &&& final(handle).readers@[at as int].ready_state == LOADING
            &&& task.window.offset == 0
            &&& task.data@ == request.data@
            &&& task.window.generation == final(handle).readers@[at as int].generation
            &&& task.operation_id.spec_get() == final(handle).reader_ops.ops@.last().operation
            &&& final(handle).reader_ops.ops@.last().reader
                == old(handle).readers@[at as int].key
        },
        request.kind != ReadKind::DataUrl && old(handle).readers@[at as int].ready_state
            != LOADING && !old(handle).flag@.closed && (old(handle).reader_ops.ops@.len()
            < old(handle).config.limits.max_concurrent_reads_per_global || old(handle).reader_ops.ops@.len() == 0) && old(handle).config.limits.chunk_size_valid()
            && !old(handle).bridge.is_closed() && !old(handle).bridge.out_of_ids()
            && old(handle).bridge.slots().len() < old(handle).bridge.limit() && 0
            < old(handle).bridge.next_id()
            < u64::MAX ==> final(handle).readers@[at as int].ready_state == LOADING && (
        request.data.spec_size() > 0 ==> outcome is Submit),
{
    crate::bridge::lemma_completed_bounds(handle.bridge.slots());
}

/// A `read()` on one stream of a context changes that stream alone, and so does a
/// chunk that was packaged, which counts its bytes.
pub proof fn lemma_contexts_read_streams_one_by_one(
    handle: &mut FileApiHandle,
    at: usize,
    call: ReadCall,
    packaging: &mut FileApiHandle,
    place: usize,
    len: usize,
    submit: Option<StreamChunkTask>,
    other: int,
    another: int,
)
    requires
        handle.wf(),
        at < handle.streams@.len(),
        call_ensures(FileApiHandle::reader_read, (handle, at, false), call),
        packaging.wf(),
        place < packaging.streams@.len(),
        call_ensures(FileApiHandle::chunk_packaged, (packaging, place, len), submit),
        0 <= other < handle.streams@.len(),
        0 <= another < packaging.streams@.len(),
    ensures
        other != at ==> final(handle).streams@[other] == old(handle).streams@[other],
        final(handle).streams@[at as int]@.loaded == old(handle).streams@[at as int]@.loaded,
        call matches ReadCall::Queued { seq, submit: Some(task) } ==> task.window.offset
            == old(handle).streams@[at as int]@.loaded,
        call is Queued ==> final(handle).streams@[at as int]@.queue.len()
            == old(handle).streams@[at as int]@.queue.len() + 1,
        another != place ==> final(packaging).streams@[another]
            == old(packaging).streams@[another],
        old(packaging).streams@[place as int]@.loaded + len <= u64::MAX
            ==> final(packaging).streams@[place as int]@.loaded
            == old(packaging).streams@[place as int]@.loaded + len,
        submit matches Some(task) ==> task.window.offset
            == final(packaging).streams@[place as int]@.loaded,
{
}

/// A stream that is locked is cancelled through its reader alone: the stream
/// itself refuses, and a reader that was released refuses too. Either way only
/// that stream ends.
pub proof fn lemma_contexts_cancel_streams(
    handle: &mut FileApiHandle,
    at: usize,
    outcome: StreamCancel,
    through: &mut FileApiHandle,
    place: usize,
    released: bool,
    result: Result<Vec<Settled>, JsError>,
    other: int,
    another: int,
)
    requires
        handle.wf(),
        at < handle.streams@.len(),
        call_ensures(FileApiHandle::stream_cancel, (handle, at), outcome),
        through.wf(),
        place < through.streams@.len(),
        call_ensures(FileApiHandle::reader_cancel, (through, place, released), result),
        0 <= other < handle.streams@.len(),
        0 <= another < through.streams@.len(),
    ensures
        outcome is Refused <==> old(handle).streams@[at as int]@.locked,
        outcome is Refused ==> final(handle).streams@[at as int]@
            == old(handle).streams@[at as int]@,
        outcome is Cancelled ==> final(handle).streams@[at as int]@.cancelled
            && final(handle).streams@[at as int]@.data is None,
        other != at ==> final(handle).streams@[other] == old(handle).streams@[other],
        result is Err <==> released,
        result is Err ==> final(through).streams@ == old(through).streams@,
        result is Ok ==> final(through).streams@[place as int]@.cancelled
            && final(through).streams@[place as int]@.data is None,
        another != place ==> final(through).streams@[another] == old(through).streams@[another],
{
}

/// A promise read that is accepted waits, asks for the very blob, and leaves
/// readers and streams as they are; one that is refused changes nothing that
/// waits.
pub proof fn lemma_contexts_promise_reads(
    handle: &mut FileApiHandle,
    data: BlobData,
    mode: ReadMode,
    outcome: StartPromise,
)
    requires
        handle.wf(),
        data.wf(),
        call_ensures(FileApiHandle::read_promise, (handle, &data, mode), outcome),
    ensures
        final(handle).readers == old(handle).readers,
        final(handle).streams == old(handle).streams,
        outcome matches StartPromise::Submit(task) ==> {
            &&& !old(handle).flag@.closed
            &&& data.spec_size() <= old(handle).config.limits.max_materialize_bytes
            &&& task.data@ == data@
            &&& final(handle).reads.reads@.len() == old(handle).reads.reads@.len() + 1
            &&& final(handle).reads.reads@.last().operation == task.operation_id.spec_get()
            &&& final(handle).reads.reads@.last().mode == mode
        },
        outcome is Reject ==> final(handle).reads.reads@ == old(handle).reads.reads@,
        old(handle).flag@.closed ==> outcome is Reject,
        !old(handle).flag@.closed && data.spec_size()
            <= old(handle).config.limits.max_materialize_bytes
                && !old(handle).bridge.is_closed() && !old(handle).bridge.out_of_ids()
                && old(handle).bridge.slots().len() < old(handle).bridge.limit() && 0
                < old(handle).bridge.next_id()
            < u64::MAX ==> outcome is Submit,
{
    crate::bridge::lemma_completed_bounds(handle.bridge.slots());
}

/// A stream is forgotten exactly when no script object can reach it and its
/// operation is over; the others keep their order.
pub proof fn lemma_only_unreachable_streams_are_forgotten(
    handle: &mut FileApiHandle,
    at: int,
)
    requires
        handle.wf(),
        call_ensures(FileApiHandle::forget_streams, (handle,), ()),
        0 <= at < handle.streams@.len(),
    ensures
        old(handle).streams@[at].stream_registered || old(handle).streams@[at].reader_registered
            || streams::under_way(
            old(handle).stream_ops.ops@,
            old(handle).streams@[at].lease.operation,
        ) ==> final(handle).streams@.contains(old(handle).streams@[at]),
        forall|k: int|
            0 <= k < final(handle).streams@.len() ==> {
                &&& old(handle).streams@.contains(#[trigger] final(handle).streams@[k])
                &&& final(handle).streams@[k].stream_registered
                    || final(handle).streams@[k].reader_registered || streams::under_way(
                    old(handle).stream_ops.ops@,
                    final(handle).streams@[k].lease.operation,
                )
            },
{
    lemma_kept(handle.streams@, handle.stream_ops.ops@);
    let stream = handle.streams@[at];
    streams::lemma_stream_op_of(handle.stream_ops.ops@, stream.lease.operation);
}

proof fn lemma_kept(all: Seq<StreamShared>, ops: Seq<StreamOp>)
    ensures
        forall|i: int|
            0 <= i < all.len() && !is_over(#[trigger] all[i], ops) ==> kept_streams(
                all,
                ops,
            ).contains(all[i]),
        forall|k: int|
            0 <= k < kept_streams(all, ops).len() ==> {
                &&& all.contains(#[trigger] kept_streams(all, ops)[k])
                &&& kept_streams(all, ops)[k].stream_registered || kept_streams(
                    all,
                    ops,
                )[k].reader_registered || streams::under_way(
                    ops,
                    kept_streams(all, ops)[k].lease.operation,
                )
            },
    decreases all.len(),
{
    if all.len() > 0 {
        let front = all.drop_last();
        let last = all.last();
        let before = kept_streams(front, ops);
        let kept = kept_streams(all, ops);
        lemma_kept(front, ops);
        streams::lemma_stream_op_of(ops, last.lease.operation);
        assert forall|i: int| 0 <= i < all.len() && !is_over(
            #[trigger] all[i],
            ops,
        ) implies kept.contains(all[i]) by {
            if i < front.len() {
                assert(front[i] == all[i]);
                let k = choose|k: int| 0 <= k < before.len() && before[k] == front[i];
                assert(kept[k] == all[i]);
            } else {
                assert(kept[kept.len() - 1] == all[i]);
            }
        }
        assert forall|k: int| 0 <= k < kept.len() implies all.contains(#[trigger] kept[k]) && (
        kept[k].stream_registered || kept[k].reader_registered || streams::under_way(
            ops,
            kept[k].lease.operation,
        )) by {
            if k < before.len() {
                assert(kept[k] == before[k]);
                let i = choose|i: int| 0 <= i < front.len() && front[i] == before[k];
                assert(all[i] == kept[k]);
            } else {
                assert(all[all.len() - 1] == kept[k]);
                if let Some(i) = stream_op_of(ops, last.lease.operation) {
                    assert(ops[i].operation == last.lease.operation);
                }
            }
        }
    }
}


/// What a context does to one of its readers it does to no other: a chunk is
/// counted and shown by `progress` when it is due, the next chunk is asked for
/// where the last one ended, and `abort()` settles a busy reader.
pub proof fn lemma_contexts_pump_readers_one_by_one(
    handle: &mut FileApiHandle,
    at: usize,
    generation: u64,
    operation: u64,
    state: PumpState,
    bytes: Vec<u8>,
    now: i64,
    step: PumpStep,
    going: &mut FileApiHandle,
    later: PumpState,
    next: PumpStep,
    aborting: &mut FileApiHandle,
    aborted: AbortOutcome,
    other: int,
)
    requires
        handle.wf(),
        going.wf(),
        aborting.wf(),
        at < handle.readers@.len(),
        at < going.readers@.len(),
        at < aborting.readers@.len(),
        state.wf(),
        later.wf(),
        call_ensures(
            FileApiHandle::apply_chunk,
            (handle, at, generation, operation, state, ChunkKind::Chunk(bytes), now),
            step,
        ),
        call_ensures(
            FileApiHandle::continue_pump,
            (going, at, generation, operation, later),
            next,
        ),
        call_ensures(FileApiHandle::abort, (aborting, at), aborted),
        0 <= other,
        other < handle.readers@.len(),
        other < aborting.readers@.len(),
    ensures
        other != at ==> final(handle).readers@[other] == old(handle).readers@[other],
        other != at ==> final(aborting).readers@[other] == old(aborting).readers@[other],
        final(handle).streams == old(handle).streams,
        final(aborting).streams == old(aborting).streams,
        old(handle).readers@[at as int].generation != generation
            ==> final(handle).readers@[at as int]@ == old(handle).readers@[at as int]@
            && step.fire is None,
        old(handle).readers@[at as int].generation == generation
            && old(handle).readers@[at as int].ready_state == LOADING
            && !old(handle).readers@[at as int].terminal_dispatched && !(step.next is Queue)
            && state.loaded
            + bytes@.len() < state.total ==> {
            &&& final(handle).readers@[at as int].loaded == state.loaded + bytes@.len()
            &&& step.fire is Some <==> state.last_progress_at == i64::MIN || 50 <= now
                - state.last_progress_at <= i64::MAX
        },
        next.next matches filereader::PumpPhase::Submit(task) ==> task.window.offset
            == later.loaded && task.window.generation == generation
            && task.operation_id.spec_get() == operation,
        old(aborting).readers@[at as int].ready_state == LOADING ==> {
            &&& final(aborting).readers@[at as int].ready_state == filereader::DONE
            &&& final(aborting).readers@[at as int]@.result is None
            &&& final(aborting).readers@[at as int]@.error is None
            &&& aborted.job is Some
        },
        old(aborting).readers@[at as int].ready_state != LOADING ==> aborted.job is None,
{
}

} // verus!
