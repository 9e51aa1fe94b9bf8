//! Turning drained completions into jobs of the script thread.

use vstd::prelude::*;

use crate::bridge::{
    due_completions, is_chunked, is_drained_slot, is_live, lemma_release_keeps, lemma_same_ids_keep,
    lemma_slot_of, reader_chunks, readers_drained, reads_drained, requeued, slot_of,
    slot_released, stream_chunks, streams_drained, IoBridge, Slot,
};
use crate::filereader::{
    op_of, reader_settled, settle_reader_completion, FileReaderNative, PumpJob, ReaderOp,
};
use crate::handle::{
    lemma_bridge_keeps_state, lemma_readers_disturb_nobody, lemma_reads_disturb_nobody,
    lemma_streams_disturb_nobody, not_a_read, not_a_reader, not_a_stream, FileApiHandle,
};
use crate::ids::{FileApiContextId, RegistrationIdentity};
use crate::io::{
    FileIoCompletion, FileReaderChunkCompletion, PollIoError, StreamChunkCompletion,
};
use crate::promise_read::{
    read_of, read_settled, settle_completion, PendingRead, Settlement,
};
use crate::streams::{
    abandon_tried, is_abandoned, settle_stream_completion, stream_op_of, stream_released,
    stream_settled, stream_wf, streams_consistent, try_abandon_stream_operation, CleanupRecord,
    StreamOp, StreamShared, StreamStep, StreamView,
};

verus! {

/// A job for the script thread.
pub enum PollJob {
    /// A chunk of a reader is to be pumped.
    Reader {
        /// The key of the reader.
        reader: u64,
        /// The job.
        job: PumpJob,
    },
    /// A chunk of a stream is to be settled.
    Stream {
        /// The operation.
        operation: u64,
        /// What to do.
        step: StreamStep,
    },
    /// A promise is to be settled.
    Promise {
        /// The operation.
        operation: u64,
        /// How.
        settlement: Settlement,
    },
}

/// What one poll gives.
pub struct PollOutcome {
    /// The jobs, in order.
    pub jobs: Vec<PollJob>,
    /// The operations of streams that were abandoned: their work is to be
    /// cancelled.
    pub abandoned: Vec<u64>,
    /// Whether the host is to be woken, since chunks were left.
    pub wake: bool,
}

/// The jobs that came of a run of completions, in order.
pub open spec fn jobs_of(outcomes: Seq<Option<PollJob>>) -> Seq<PollJob>
    decreases outcomes.len(),
{
    if outcomes.len() == 0 {
        Seq::empty()
    } else {
        match outcomes.last() {
            Some(job) => jobs_of(outcomes.drop_last()).push(job),
            None => jobs_of(outcomes.drop_last()),
        }
    }
}

/// The position of the reader with a key.
pub open spec fn reader_at(readers: Seq<FileReaderNative>, key: u64) -> Option<int>
    decreases readers.len(),
{
    if readers.len() == 0 {
        None
    } else if readers.last().key == key {
        Some(readers.len() - 1)
    } else {
        reader_at(readers.drop_last(), key)
    }
}

/// The position of the stream of an operation.
pub open spec fn stream_at(streams: Seq<StreamShared>, operation: u64) -> Option<int>
    decreases streams.len(),
{
    if streams.len() == 0 {
        None
    } else if streams.last().lease.operation == operation {
        Some(streams.len() - 1)
    } else {
        stream_at(streams.drop_last(), operation)
    }
}

/// The position of the reader that an operation belongs to.
pub open spec fn reader_of_operation(handle: FileApiHandle, operation: u64) -> Option<int> {
    match op_of(handle.reader_ops.ops@, operation) {
        Some(i) => reader_at(handle.readers@, handle.reader_ops.ops@[i].reader),
        None => None,
    }
}

/// Whether a job can be done: the packaging state of a pump and the payload of a
/// request are sound.
pub open spec fn job_sound(job: PollJob) -> bool {
    match job {
        PollJob::Reader { reader, job } => job.state.wf(),
        PollJob::Stream { operation, step } => match step {
            StreamStep::Settle { settled, submit } => submit matches Some(task)
                ==> task.data.wf(),
            _ => true,
        },
        PollJob::Promise { operation, settlement } => true,
    }
}

/// Whether every job can be done.
pub open spec fn jobs_sound(jobs: Seq<PollJob>) -> bool {
    forall|i: int| 0 <= i < jobs.len() ==> job_sound(#[trigger] jobs[i])
}

/// What settling one reader chunk does: at most one job comes of it.
pub open spec fn reader_step(
    before: FileApiHandle,
    completion: FileReaderChunkCompletion,
    after: FileApiHandle,
    outcome: Option<PollJob>,
) -> bool {
    &&& after == (FileApiHandle { reader_ops: after.reader_ops, ..before })
    &&& match reader_of_operation(before, completion.operation_id.spec_get()) {
        Some(at) => {
            &&& outcome matches Some(made) ==> made matches PollJob::Reader { reader, job }
                && reader == before.readers@[at].key
            &&& reader_settled(
                before.reader_ops,
                before.readers@[at]@,
                completion,
                before.flag@.closed,
                after.reader_ops,
                match outcome {
                    Some(PollJob::Reader { reader, job }) => Some(job),
                    _ => None,
                },
            )
        },
        None => outcome is None && after.reader_ops == before.reader_ops,
    }
}

/// The job of a stream chunk; a late one has none.
pub open spec fn stream_outcome(operation: u64, step: StreamStep) -> Option<PollJob> {
    if step is Stale {
        None
    } else {
        Some(PollJob::Stream { operation, step })
    }
}

/// Whether settling a chunk of `stream` may give `outcome`.
pub open spec fn stream_chunk_settled(
    before: FileApiHandle,
    stream: StreamView,
    completion: StreamChunkCompletion,
    after: FileApiHandle,
    stream_after: StreamView,
    outcome: Option<PollJob>,
) -> bool {
    exists|step: StreamStep| #[trigger]
        stream_settled(
            stream,
            before.stream_ops,
            before.bridge,
            before.config.limits,
            completion,
            before.flag@.closed,
            stream_after,
            after.stream_ops,
            after.bridge,
            step,
        ) && outcome == stream_outcome(completion.operation_id.spec_get(), step)
}

/// What settling one stream chunk does: at most one job comes of it.
pub open spec fn stream_step(
    before: FileApiHandle,
    completion: StreamChunkCompletion,
    after: FileApiHandle,
    outcome: Option<PollJob>,
) -> bool {
    let operation = completion.operation_id.spec_get();
    match stream_at(before.streams@, operation) {
        Some(at) => {
            &&& after == (FileApiHandle {
                streams: after.streams,
                stream_ops: after.stream_ops,
                bridge: after.bridge,
                ..before
            })
            &&& after.streams@ == before.streams@.update(at, after.streams@[at])
            &&& stream_chunk_settled(
                before,
                before.streams@[at]@,
                completion,
                after,
                after.streams@[at]@,
                outcome,
            )
        },
        None => outcome is None && after == before,
    }
}

/// Whether an operation reads in chunks: it belongs to a reader or a stream.
pub open spec fn reads_in_chunks(handle: FileApiHandle, operation: u64) -> bool {
    ||| op_of(handle.reader_ops.ops@, operation) is Some
    ||| stream_op_of(handle.stream_ops.ops@, operation) is Some
}

/// What settling one whole read does: its slot is released, and its promise
/// settled. An operation that reads in chunks has no whole read to settle.
pub open spec fn read_step(
    before: FileApiHandle,
    completion: FileIoCompletion,
    after: FileApiHandle,
    outcome: Option<PollJob>,
) -> bool {
    let operation = completion.operation_id.spec_get();
    if reads_in_chunks(before, operation) {
        after == before && outcome is None
    } else {
        &&& after == (FileApiHandle { reads: after.reads, bridge: after.bridge, ..before })
        &&& slot_released(before.bridge, after.bridge, operation)
        &&& exists|settlement: Option<Settlement>| #[trigger]
            read_settled(
                before.reads.reads@,
                operation,
                completion.result,
                after.reads.reads@,
                settlement,
            ) && outcome == match settlement {
                Some(how) => Some(PollJob::Promise { operation, settlement: how }),
                None => None,
            }
    }
}

/// What trying to abandon the stream of an operation does.
pub open spec fn abandon_step(
    before: FileApiHandle,
    target: (u64, u64),
    after: FileApiHandle,
    abandoned: bool,
) -> bool {
    match stream_at(before.streams@, target.0) {
        Some(at) => {
            &&& after == (FileApiHandle {
                streams: after.streams,
                stream_ops: after.stream_ops,
                bridge: after.bridge,
                ..before
            })
            &&& after.streams@ == before.streams@.update(at, after.streams@[at])
            &&& abandoned == is_abandoned(
                before.streams@[at]@,
                before.stream_ops,
                target.0,
                target.1,
            )
            &&& abandon_tried(
                before.streams@[at]@,
                before.stream_ops,
                before.bridge,
                target.0,
                target.1,
                after.streams@[at]@,
                after.stream_ops,
                after.bridge,
            )
        },
        None => !abandoned && after == before,
    }
}

/// The position of the reader with a key.
pub(crate) fn find_reader(readers: &Vec<FileReaderNative>, key: u64) -> (found: Option<usize>)
    ensures
        match found {
            Some(i) => reader_at(readers@, key) == Some(i as int) && i < readers@.len()
                && readers@[i as int].key == key,
            None => reader_at(readers@, key) is None,
        },
{
    let mut i: usize = readers.len();
    assert(readers@.take(i as int) =~= readers@);
    while i > 0
        invariant
            i <= readers@.len(),
            reader_at(readers@, key) == reader_at(readers@.take(i as int), key),
        decreases i,
    {
        proof {
            let here = readers@.take(i as int);
            assert(here.last() == readers@[i - 1]);
            assert(here.drop_last() =~= readers@.take(i - 1));
        }
        if readers[i - 1].key == key {
            return Some(i - 1);
        }
        i = i - 1;
    }
    None
}

/// The position of the stream of an operation.
fn find_stream(streams: &Vec<StreamShared>, operation: u64) -> (found: Option<usize>)
    ensures
        match found {
            Some(i) => stream_at(streams@, operation) == Some(i as int) && i < streams@.len(),
            None => stream_at(streams@, operation) is None,
        },
{
    let mut i: usize = streams.len();
    assert(streams@.take(i as int) =~= streams@);
    while i > 0
        invariant
            i <= streams@.len(),
            stream_at(streams@, operation) == stream_at(streams@.take(i as int), operation),
        decreases i,
    {
        proof {
            let here = streams@.take(i as int);
            assert(here.last() == streams@[i - 1]);
            assert(here.drop_last() =~= streams@.take(i - 1));
        }
        if streams[i - 1].lease.operation == operation {
            return Some(i - 1);
        }
        i = i - 1;
    }
    None
}

impl FileApiHandle {
    /// Settles one reader chunk.
    fn settle_reader_chunk(&mut self, completion: FileReaderChunkCompletion) -> (outcome: Option<
        PollJob,
    >)
        requires
            old(self).wf(),
        ensures
            final(self).wf(),
            reader_step(*old(self), completion, *final(self), outcome),
            outcome matches Some(job) ==> job_sound(job),
    {
        let operation: u64 = completion.operation_id.get();
        let key: u64 = match self.reader_ops.reader_of(operation) {
            Some(key) => key,
            None => {
                return None;
            },
        };
        let at: usize = match find_reader(&self.readers, key) {
            Some(at) => at,
            None => {
                return None;
            },
        };
        let closed = self.flag.is_shutdown();
        let ghost before = *self;
        let job = settle_reader_completion(
            &mut self.reader_ops,
            &self.readers[at],
            completion,
            closed,
        );
        proof {
            lemma_reader_step_wf(before, *self, completion, at as int, job);
        }
        match job {
            Some(job) => Some(PollJob::Reader { reader: key, job }),
            None => None,
        }
    }

    /// Settles one stream chunk.
    fn settle_stream_chunk(&mut self, completion: StreamChunkCompletion) -> (outcome: Option<
        PollJob,
    >)
        requires
            old(self).wf(),
        ensures
            final(self).wf(),
            stream_step(*old(self), completion, *final(self), outcome),
            final(self).streams@.len() == old(self).streams@.len(),
            outcome matches Some(job) ==> job_sound(job),
    {
        let operation: u64 = completion.operation_id.get();
        let at: usize = match find_stream(&self.streams, operation) {
            Some(at) => at,
            None => {
                return None;
            },
        };
        let closed = self.flag.is_shutdown();
        let ghost before = *self;
        let step = settle_stream_completion(
            &mut self.streams[at],
            &mut self.stream_ops,
            &mut self.bridge,
            &self.config.limits,
            completion,
            closed,
        );
        proof {
            assert(self.streams@ =~= before.streams@.update(at as int, self.streams@[at as int]));
            assert(stream_settled(
                before.streams@[at as int]@,
                before.stream_ops,
                before.bridge,
                before.config.limits,
                completion,
                before.flag@.closed,
                self.streams@[at as int]@,
                self.stream_ops,
                self.bridge,
                step,
            ));
            lemma_stream_change_wf(before, *self, at as int, before.streams@[at as int].lease.operation);
        }
        let ghost made = step;
        let outcome = match step {
            StreamStep::Stale => None,
            step => Some(PollJob::Stream { operation, step }),
        };
        assert(outcome == stream_outcome(operation, made));
        assert(stream_chunk_settled(
            before,
            before.streams@[at as int]@,
            completion,
            *self,
            self.streams@[at as int]@,
            outcome,
        ));
        outcome
    }

    /// Settles one whole read.
    fn settle_read(&mut self, completion: FileIoCompletion) -> (outcome: Option<PollJob>)
        requires
            old(self).wf(),
        ensures
            final(self).wf(),
            read_step(*old(self), completion, *final(self), outcome),
            outcome matches Some(job) ==> job_sound(job),
    {
        let operation_id = completion.operation_id;
        let operation: u64 = operation_id.get();
        if self.reader_ops.reader_of(operation).is_some() || self.stream_ops.is_under_way(operation) {
            return None;
        }
        let ghost before = *self;
        let _ = self.bridge.release(operation_id);
        let settlement = settle_completion(&mut self.reads, operation_id, completion.result);
        proof {
            lemma_read_step_wf(before, *self, operation);
            assert(read_settled(
                before.reads.reads@,
                operation,
                completion.result,
                self.reads.reads@,
                settlement,
            ));
        }
        match settlement {
            Some(settlement) => Some(PollJob::Promise { operation, settlement }),
            None => None,
        }
    }

    /// Ends the stream of an operation where it is abandoned.
    fn try_abandon(&mut self, operation: u64, generation: u64) -> (abandoned: bool)
        requires
            old(self).wf(),
        ensures
            final(self).wf(),
            abandon_step(*old(self), (operation, generation), *final(self), abandoned),
            final(self).streams@.len() == old(self).streams@.len(),
    {
        let at: usize = match find_stream(&self.streams, operation) {
            Some(at) => at,
            None => {
                return false;
            },
        };
        let ghost before = *self;
        let abandoned = try_abandon_stream_operation(
            &mut self.streams[at],
            &mut self.stream_ops,
            &mut self.bridge,
            operation,
            generation,
        );
        proof {
            assert(self.streams@ =~= before.streams@.update(at as int, self.streams@[at as int]));
            lemma_stream_change_wf(before, *self, at as int, operation);
        }
        abandoned
    }
}

proof fn lemma_reader_step_wf(
    before: FileApiHandle,
    after: FileApiHandle,
    completion: FileReaderChunkCompletion,
    at: int,
    job: Option<PumpJob>,
)
    requires
        before.wf(),
        after == (FileApiHandle { reader_ops: after.reader_ops, ..before }),
        after.reader_ops.wf(),
        reader_settled(
            before.reader_ops,
            before.readers@[at]@,
            completion,
            before.flag@.closed,
            after.reader_ops,
            job,
        ),
    ensures
        after.wf(),
{
    let old_ops = before.reader_ops.ops@;
    let ops = after.reader_ops.ops@;
    lemma_op_position(old_ops, completion.operation_id.spec_get());
    assert(ops.len() == old_ops.len());
    assert forall|i: int| 0 <= i < ops.len() implies (#[trigger] ops[i]).operation
        == old_ops[i].operation by {}
    if !after.bridge.is_closed() {
        assert forall|i: int| 0 <= i < ops.len() implies is_chunked(
            after.bridge.slots(),
            (#[trigger] ops[i]).operation,
        ) by {
            assert(is_chunked(before.bridge.slots(), old_ops[i].operation));
        }
    }
    assert forall|i: int| 0 <= i < ops.len() implies not_a_stream(
        before,
        (#[trigger] ops[i]).operation,
    ) && not_a_read(before, ops[i].operation) by {
        assert forall|j: int| 0 <= j < before.stream_ops.ops@.len() implies (
        #[trigger] before.stream_ops.ops@[j]).operation != ops[i].operation by {
            assert(old_ops[i].operation != before.stream_ops.ops@[j].operation);
        }
        assert forall|j: int| 0 <= j < before.reads.reads@.len() implies (
        #[trigger] before.reads.reads@[j]).operation != ops[i].operation by {
            assert(old_ops[i].operation != before.reads.reads@[j].operation);
        }
    }
    lemma_same_ids_keep(before.bridge, after.bridge);
    lemma_readers_disturb_nobody(before, after, None);
}

/// The position of an operation is where it stands.
pub proof fn lemma_op_position(ops: Seq<ReaderOp>, operation: u64)
    ensures
        op_of(ops, operation) matches Some(i) ==> 0 <= i < ops.len() && ops[i].operation
            == operation,
    decreases ops.len(),
{
    if ops.len() > 0 && ops.last().operation != operation {
        lemma_op_position(ops.drop_last(), operation);
    }
}

/// Whether the stream table and the bridge are as they were, or the operation was
/// taken out of both.
pub open spec fn stream_gone_or_kept(before: FileApiHandle, after: FileApiHandle, operation: u64) -> bool {
    ||| after.stream_ops == before.stream_ops && after.bridge == before.bridge
    ||| stream_released(
        before.stream_ops,
        before.bridge,
        after.stream_ops,
        after.bridge,
        operation,
    )
}

/// A stream that changes, and perhaps ends its operation, keeps the state sound.
pub proof fn lemma_stream_change_wf(
    before: FileApiHandle,
    after: FileApiHandle,
    at: int,
    operation: u64,
)
    requires
        before.wf(),
        0 <= at < before.streams@.len(),
        after == (FileApiHandle {
            streams: after.streams,
            stream_ops: after.stream_ops,
            bridge: after.bridge,
            ..before
        }),
        after.streams@ == before.streams@.update(at, after.streams@[at]),
        stream_wf(after.streams@[at]@),
        streams_consistent(after.stream_ops, after.bridge),
        stream_gone_or_kept(before, after, operation),
    ensures
        after.wf(),
{
    let old_ops = before.stream_ops.ops@;
    let ops = after.stream_ops.ops@;
    assert forall|i: int| 0 <= i < after.streams@.len() implies stream_wf(
        (#[trigger] after.streams@[i])@,
    ) by {
        if i != at {
            assert(stream_wf(before.streams@[i]@));
        }
    }
    lemma_stream_op_position(old_ops, operation);
    let found = stream_op_of(old_ops, operation);
    let changed = !(after.stream_ops == before.stream_ops && after.bridge == before.bridge)
        && found is Some;
    assert forall|k: int| 0 <= k < old_ops.len() implies not_a_reader(
        before,
        (#[trigger] old_ops[k]).operation,
    ) && not_a_read(before, old_ops[k].operation) by {
        assert forall|j: int| 0 <= j < before.reader_ops.ops@.len() implies (
        #[trigger] before.reader_ops.ops@[j]).operation != old_ops[k].operation by {}
        assert forall|j: int| 0 <= j < before.reads.reads@.len() implies (
        #[trigger] before.reads.reads@[j]).operation != old_ops[k].operation by {
            assert(old_ops[k].operation != before.reads.reads@[j].operation);
        }
    }
    assert forall|i: int| 0 <= i < ops.len() implies not_a_reader(
        before,
        (#[trigger] ops[i]).operation,
    ) && not_a_read(before, ops[i].operation) by {
        let k = if changed && i >= found->0 {
            i + 1
        } else {
            i
        };
        assert(old_ops[k] == ops[i]);
    }
    if changed {
        lemma_release_keeps(before.bridge, after.bridge, operation);
        assert(not_a_reader(before, old_ops[found->0].operation));
        lemma_streams_disturb_nobody(before, after, Some(operation));
    } else {
        lemma_same_ids_keep(before.bridge, after.bridge);
        lemma_streams_disturb_nobody(before, after, None);
    }
}

proof fn lemma_stream_op_position(ops: Seq<StreamOp>, operation: u64)
    ensures
        stream_op_of(ops, operation) matches Some(i) ==> 0 <= i < ops.len() && ops[i].operation
            == operation,
    decreases ops.len(),
{
    if ops.len() > 0 && ops.last().operation != operation {
        lemma_stream_op_position(ops.drop_last(), operation);
    }
}

proof fn lemma_read_position(reads: Seq<PendingRead>, operation: u64)
    ensures
        match read_of(reads, operation) {
            Some(i) => 0 <= i < reads.len() && reads[i].operation == operation,
            None => forall|i: int|
                0 <= i < reads.len() ==> (#[trigger] reads[i]).operation != operation,
        },
    decreases reads.len(),
{
    if reads.len() > 0 && reads.last().operation != operation {
        let front = reads.drop_last();
        lemma_read_position(front, operation);
        assert forall|i: int| 0 <= i < front.len() implies front[i] == #[trigger] reads[i] by {}
    }
}

proof fn lemma_op_absent(ops: Seq<ReaderOp>, operation: u64)
    requires
        op_of(ops, operation) is None,
    ensures
        forall|i: int| 0 <= i < ops.len() ==> (#[trigger] ops[i]).operation != operation,
    decreases ops.len(),
{
    if ops.len() > 0 {
        let front = ops.drop_last();
        lemma_op_absent(front, operation);
        assert forall|i: int| 0 <= i < front.len() implies front[i] == #[trigger] ops[i] by {}
    }
}

proof fn lemma_stream_op_absent(ops: Seq<StreamOp>, operation: u64)
    requires
        stream_op_of(ops, operation) is None,
    ensures
        forall|i: int| 0 <= i < ops.len() ==> (#[trigger] ops[i]).operation != operation,
    decreases ops.len(),
{
    if ops.len() > 0 {
        let front = ops.drop_last();
        lemma_stream_op_absent(front, operation);
        assert forall|i: int| 0 <= i < front.len() implies front[i] == #[trigger] ops[i] by {}
    }
}

/// A read that is released and taken out keeps the state sound.
pub proof fn lemma_read_step_wf(before: FileApiHandle, after: FileApiHandle, operation: u64)
    requires
        before.wf(),
        !reads_in_chunks(before, operation),
        after == (FileApiHandle { reads: after.reads, bridge: after.bridge, ..before }),
        after.bridge.wf(),
        slot_released(before.bridge, after.bridge, operation),
        after.reads.reads@ == match read_of(before.reads.reads@, operation) {
            Some(i) => before.reads.reads@.remove(i),
            None => before.reads.reads@,
        },
    ensures
        after.wf(),
{
    let old_reads = before.reads.reads@;
    let reads = after.reads.reads@;
    lemma_op_absent(before.reader_ops.ops@, operation);
    lemma_stream_op_absent(before.stream_ops.ops@, operation);
    lemma_read_position(old_reads, operation);
    lemma_release_keeps(before.bridge, after.bridge, operation);
    let gone = match read_of(old_reads, operation) {
        Some(i) => i,
        None => old_reads.len() as int,
    };
    assert forall|i: int| 0 <= i < reads.len() implies {
        let k = if i < gone {
            i
        } else {
            i + 1
        };
        0 <= k < old_reads.len() && k != gone && #[trigger] reads[i] == old_reads[k]
    } by {}
    assert forall|i: int, j: int| 0 <= i < j < reads.len() implies (#[trigger] reads[i]).operation
        != (#[trigger] reads[j]).operation by {
        let x = if i < gone {
            i
        } else {
            i + 1
        };
        let y = if j < gone {
            j
        } else {
            j + 1
        };
        assert(old_reads[x].operation != old_reads[y].operation);
    }
    if !after.bridge.is_closed() {
        assert forall|i: int| 0 <= i < reads.len() implies is_live(
            after.bridge.slots(),
            (#[trigger] reads[i]).operation,
        ) by {
            let x = if i < gone {
                i
            } else {
                i + 1
            };
            assert(is_live(before.bridge.slots(), old_reads[x].operation));
            if gone < old_reads.len() {
                if x < gone {
                    assert(old_reads[x].operation != old_reads[gone].operation);
                } else {
                    assert(old_reads[gone].operation != old_reads[x].operation);
                }
            } else {
                assert(old_reads[x].operation != operation);
            }
        }
    }
    assert forall|i: int| 0 <= i < reads.len() implies not_a_reader(
        before,
        (#[trigger] reads[i]).operation,
    ) && not_a_stream(before, reads[i].operation) by {
        let x = if i < gone {
            i
        } else {
            i + 1
        };
        assert forall|j: int| 0 <= j < before.reader_ops.ops@.len() implies (
        #[trigger] before.reader_ops.ops@[j]).operation != reads[i].operation by {
            assert(before.reader_ops.ops@[j].operation != old_reads[x].operation);
        }
        assert forall|j: int| 0 <= j < before.stream_ops.ops@.len() implies (
        #[trigger] before.stream_ops.ops@[j]).operation != reads[i].operation by {
            assert(before.stream_ops.ops@[j].operation != old_reads[x].operation);
        }
    }
    lemma_reads_disturb_nobody(before, after, Some(operation));
}

/// Whether a budget lets another chunk be settled after `settled` of them.
pub open spec fn within_budget(budget: Option<usize>, settled: int) -> bool {
    match budget {
        Some(limit) => settled < limit,
        None => true,
    }
}

/// The course of settling reader chunks.
pub struct ReaderRun {
    /// The states, one more than the chunks that were settled.
    pub states: Seq<FileApiHandle>,
    /// What came of each chunk.
    pub outcomes: Seq<Option<PollJob>>,
    /// The bridges while the rest was put back, one more than those chunks.
    pub bridges: Seq<IoBridge>,
}

/// Whether `run` leads from `before` to `after`: the chunks are taken in order,
/// settled while the budget lasts, and the rest is put back as it stood.
pub open spec fn is_reader_run(before: FileApiHandle, run: ReaderRun, after: FileApiHandle) -> bool {
    let chunks = reader_chunks(before.bridge.slots());
    let count = run.outcomes.len() as int;
    let left = chunks.len() - count;
    &&& 0 <= left
    &&& run.states.len() == count + 1
    &&& run.states[0] == (FileApiHandle { bridge: run.states[0].bridge, ..before })
    &&& readers_drained(before.bridge, run.states[0].bridge)
    &&& forall|i: int|
        0 <= i < count ==> #[trigger] reader_step(
            run.states[i],
            chunks[i],
            run.states[i + 1],
            run.outcomes[i],
        )
    &&& forall|i: int|
        0 <= i < count ==> within_budget(
            before.budget,
            jobs_of(#[trigger] run.outcomes.take(i)).len() as int,
        )
    &&& left > 0 ==> !within_budget(before.budget, jobs_of(run.outcomes).len() as int)
    &&& run.bridges.len() == left + 1
    &&& run.bridges[0] == run.states[count].bridge
    &&& forall|k: int|
        0 <= k < left ==> #[trigger] put_back(
            run.bridges[k],
            chunks[chunks.len() - 1 - k],
            run.bridges[k + 1],
        )
    &&& after == (FileApiHandle { bridge: run.bridges[left], ..run.states[count] })
}

/// Whether a chunk was put back, unless it is late.
pub open spec fn put_back(
    before: IoBridge,
    completion: FileReaderChunkCompletion,
    after: IoBridge,
) -> bool {
    exists|accepted: bool| requeued(before, completion, after, accepted)
}

/// Whether settling the reader chunks of `before` may lead to `after` with these
/// jobs, some chunks being left where `left` says so.
pub open spec fn readers_polled(
    before: FileApiHandle,
    after: FileApiHandle,
    jobs: Seq<PollJob>,
    left: bool,
) -> bool {
    exists|run: ReaderRun|
        {
            &&& #[trigger] is_reader_run(before, run, after)
            &&& jobs == jobs_of(run.outcomes)
            &&& left == (run.outcomes.len() < reader_chunks(before.bridge.slots()).len())
        }
}

proof fn lemma_drained_keeps(before: FileApiHandle, after: FileApiHandle)
    requires
        before.wf(),
        after.bridge.wf(),
        after == (FileApiHandle { bridge: after.bridge, ..before }),
        after.bridge.same_setup(before.bridge),
        after.bridge.slots().len() == before.bridge.slots().len(),
        forall|i: int|
            0 <= i < before.bridge.slots().len() ==> (#[trigger] after.bridge.slots()[i]).id
                == before.bridge.slots()[i].id && (before.bridge.slots()[i].chunked
                ==> after.bridge.slots()[i].chunked),
    ensures
        after.wf(),
{
    lemma_same_ids_keep(before.bridge, after.bridge);
    lemma_bridge_keeps_state(before, after);
}

impl FileApiHandle {
    /// Settles the reader chunks that wait, as far as the budget goes.
    fn poll_readers(&mut self, jobs: &mut Vec<PollJob>) -> (left: bool)
        requires
            old(self).wf(),
        ensures
            final(self).wf(),
            exists|made: Seq<PollJob>| #[trigger]
                readers_polled(*old(self), *final(self), made, left) && final(jobs)@ == old(jobs)@
                    + made,
            *final(self) == (FileApiHandle {
                reader_ops: final(self).reader_ops,
                bridge: final(self).bridge,
                ..*old(self)
            }),
            jobs_sound(old(jobs)@) ==> jobs_sound(final(jobs)@),
    {
        let ghost start = *self;
        let ghost first = jobs@;
        let chunks = self.bridge.take_reader_completions();
        let waiting: usize = chunks.len();
        let ghost all = chunks@;
        proof {
            lemma_drained_keeps(start, *self);
        }
        let ghost mut states = seq![*self];
        let ghost mut outcomes: Seq<Option<PollJob>> = Seq::empty();
        let mut settled: usize = 0;
        let budget = self.budget;
        let mut rest: Vec<FileReaderChunkCompletion> = Vec::new();
        for chunk in iter: chunks
            invariant
                iter.seq() == all,
                all.len() == waiting,
                self.wf(),
                *self == (FileApiHandle {
                    reader_ops: self.reader_ops,
                    bridge: self.bridge,
                    ..start
                }),
                jobs_sound(first) ==> jobs_sound(jobs@),
                budget == start.budget,
                all == reader_chunks(start.bridge.slots()),
                outcomes.len() + rest@.len() == iter.index(),
                states.len() == outcomes.len() + 1,
                states[0] == (FileApiHandle { bridge: states[0].bridge, ..start }),
                readers_drained(start.bridge, states[0].bridge),
                states.last() == *self,
                settled <= outcomes.len(),
                settled == jobs_of(outcomes).len(),
                jobs@ == first + jobs_of(outcomes),
                forall|i: int|
                    0 <= i < outcomes.len() ==> #[trigger] reader_step(
                        states[i],
                        all[i],
                        states[i + 1],
                        outcomes[i],
                    ),
                forall|i: int|
                    0 <= i < outcomes.len() ==> within_budget(
                        budget,
                        jobs_of(#[trigger] outcomes.take(i)).len() as int,
                    ),
                rest@.len() > 0 ==> !within_budget(budget, settled as int),
                forall|k: int|
                    0 <= k < rest@.len() ==> #[trigger] rest@[k] == all[outcomes.len() + k],
        {
            let done = match budget {
                Some(limit) => settled >= limit,
                None => false,
            };
            if done {
                rest.push(chunk);
            } else {
                let ghost before = *self;
                let ghost earlier = outcomes;
                let ghost seen = states;
                let outcome = self.settle_reader_chunk(chunk);
                proof {
                    assert(rest@.len() == 0);
                    outcomes = outcomes.push(outcome);
                    states = states.push(*self);
                    assert(outcomes.drop_last() =~= earlier);
                    assert forall|i: int| 0 <= i < outcomes.len() implies #[trigger] reader_step(
                        states[i],
                        all[i],
                        states[i + 1],
                        outcomes[i],
                    ) by {
                        if i < earlier.len() {
                            assert(reader_step(seen[i], all[i], seen[i + 1], earlier[i]));
                        }
                    }
                    assert forall|i: int| 0 <= i < outcomes.len() implies within_budget(
                        budget,
                        jobs_of(#[trigger] outcomes.take(i)).len() as int,
                    ) by {
                        if i < earlier.len() {
                            assert(outcomes.take(i) =~= earlier.take(i));
                        } else {
                            assert(outcomes.take(i) =~= earlier);
                        }
                    }
                }
                match outcome {
                    Some(job) => {
                        jobs.push(job);
                        settled = settled + 1;
                    },
                    None => {},
                }
                assert(jobs@ =~= first + jobs_of(outcomes));
            }
        }
        let left = rest.len() > 0;
        let ghost mut bridges = seq![self.bridge];
        let ghost settled_state = *self;
        let ghost total = rest@.len() as int;
        let ghost remaining = rest@;
        let mut k: usize = rest.len();
        while k > 0
            invariant
                self.wf(),
                settled_state == (FileApiHandle {
                    reader_ops: settled_state.reader_ops,
                    bridge: settled_state.bridge,
                    ..start
                }),
                k == rest@.len(),
                0 <= k <= total,
                rest@ == remaining.take(k as int),
                remaining.len() == total,
                *self == (FileApiHandle { bridge: self.bridge, ..settled_state }),
                bridges.len() == total - k + 1,
                bridges[0] == settled_state.bridge,
                bridges.last() == self.bridge,
                forall|m: int|
                    0 <= m < total - k ==> #[trigger] put_back(
                        bridges[m],
                        remaining[total - 1 - m],
                        bridges[m + 1],
                    ),
            decreases k,
        {
            let ghost before = *self;
            let ghost seen = bridges;
            k = k - 1;
            let chunk = rest.swap_remove(k);
            assert(rest@ =~= remaining.take(k as int));
            let accepted = self.bridge.requeue_reader_completion(chunk);
            proof {
                assert(requeued(before.bridge, chunk, self.bridge, accepted));
                assert(put_back(before.bridge, chunk, self.bridge));
                assert(chunk == remaining[k as int]);
                lemma_put_back_keeps(before, *self, chunk);
                bridges = bridges.push(self.bridge);
                assert forall|m: int| 0 <= m < total - k implies #[trigger] put_back(
                    bridges[m],
                    remaining[total - 1 - m],
                    bridges[m + 1],
                ) by {
                    if m < total - k - 1 {
                        assert(put_back(seen[m], remaining[total - 1 - m], seen[m + 1]));
                    }
                }
            }
        }
        proof {
            let run = ReaderRun { states, outcomes, bridges };
            let count = outcomes.len() as int;
            assert(all.len() - count == total);
            assert forall|m: int| 0 <= m < total implies #[trigger] put_back(
                run.bridges[m],
                all[all.len() - 1 - m],
                run.bridges[m + 1],
            ) by {
                assert(remaining[total - 1 - m] == all[count + (total - 1 - m)]);
                assert(put_back(bridges[m], remaining[total - 1 - m], bridges[m + 1]));
            }
            assert(is_reader_run(start, run, *self));
            assert(readers_polled(start, *self, jobs_of(outcomes), left));
        }
        left
    }
}

proof fn lemma_put_back_keeps(
    before: FileApiHandle,
    after: FileApiHandle,
    completion: FileReaderChunkCompletion,
)
    requires
        before.wf(),
        after.bridge.wf(),
        after == (FileApiHandle { bridge: after.bridge, ..before }),
        put_back(before.bridge, completion, after.bridge),
    ensures
        after.wf(),
{
    let accepted = choose|accepted: bool|
        requeued(before.bridge, completion, after.bridge, accepted);
    assert(requeued(before.bridge, completion, after.bridge, accepted));
    if accepted {
        let id = completion.operation_id.spec_get();
        lemma_slot_of(before.bridge.slots(), id);
        let at = slot_of(before.bridge.slots(), id)->0;
        assert forall|i: int| 0 <= i < before.bridge.slots().len() implies (
        #[trigger] after.bridge.slots()[i]).id == before.bridge.slots()[i].id by {
            if i != at {
                assert(after.bridge.slots()[i] == before.bridge.slots()[i]);
            }
        }
    }
    lemma_drained_keeps(before, after);
}

/// The course of settling completions one by one.
pub struct PollRun {
    /// The states, one more than the completions.
    pub states: Seq<FileApiHandle>,
    /// What came of each completion.
    pub outcomes: Seq<Option<PollJob>>,
}

/// Whether `run` leads from `before` to `after`: every stream chunk that waits is
/// taken and settled, in order.
pub open spec fn is_stream_run(before: FileApiHandle, run: PollRun, after: FileApiHandle) -> bool {
    let chunks = stream_chunks(before.bridge.slots());
    &&& run.outcomes.len() == chunks.len()
    &&& run.states.len() == chunks.len() + 1
    &&& run.states[0] == (FileApiHandle { bridge: run.states[0].bridge, ..before })
    &&& streams_drained(before.bridge, run.states[0].bridge)
    &&& forall|i: int|
        0 <= i < chunks.len() ==> #[trigger] stream_step(
            run.states[i],
            chunks[i],
            run.states[i + 1],
            run.outcomes[i],
        )
    &&& after == run.states.last()
}

/// Whether settling the stream chunks of `before` may lead to `after` with these
/// jobs.
pub open spec fn streams_polled(
    before: FileApiHandle,
    after: FileApiHandle,
    jobs: Seq<PollJob>,
) -> bool {
    exists|run: PollRun|
        #[trigger] is_stream_run(before, run, after) && jobs == jobs_of(run.outcomes)
}

/// Whether `run` leads from `before` to `after`: every whole read that is due is
/// taken and settled, in order.
pub open spec fn is_read_run(before: FileApiHandle, run: PollRun, after: FileApiHandle) -> bool {
    let due = due_completions(before.bridge.slots());
    &&& run.outcomes.len() == due.len()
    &&& run.states.len() == due.len() + 1
    &&& run.states[0] == (FileApiHandle { bridge: run.states[0].bridge, ..before })
    &&& reads_drained(before.bridge, run.states[0].bridge)
    &&& forall|i: int|
        0 <= i < due.len() ==> #[trigger] read_step(
            run.states[i],
            due[i],
            run.states[i + 1],
            run.outcomes[i],
        )
    &&& after == run.states.last()
}

/// Whether settling the whole reads of `before` may lead to `after` with these
/// jobs.
pub open spec fn reads_polled(
    before: FileApiHandle,
    after: FileApiHandle,
    jobs: Seq<PollJob>,
) -> bool {
    exists|run: PollRun|
        #[trigger] is_read_run(before, run, after) && jobs == jobs_of(run.outcomes)
}

/// The streams to look at for abandonment: those that the notes of this context
/// name, then all that are under way; none once the runtime is shut down.
pub open spec fn cleanup_targets(handle: FileApiHandle) -> Seq<(u64, u64)> {
    if handle.flag@.closed {
        Seq::empty()
    } else {
        noted_targets(handle.cleanups@, handle.bridge.context().spec_get())
            + handle.stream_ops.ops@.map_values(|op: StreamOp| (op.operation, op.generation))
    }
}

/// The streams that the notes of a context name, in order.
pub open spec fn noted_targets(cleanups: Seq<CleanupRecord>, context: u64) -> Seq<(u64, u64)>
    decreases cleanups.len(),
{
    if cleanups.len() == 0 {
        Seq::empty()
    } else {
        let before = noted_targets(cleanups.drop_last(), context);
        if cleanups.last().context == context {
            before.push((cleanups.last().operation, cleanups.last().generation))
        } else {
            before
        }
    }
}

/// The course of a cleanup.
pub struct CleanupRun {
    /// The states, one more than the streams looked at.
    pub states: Seq<FileApiHandle>,
    /// Whether each stream was abandoned.
    pub abandoned: Seq<bool>,
}

/// The operations of the streams that were abandoned.
pub open spec fn abandoned_of(targets: Seq<(u64, u64)>, abandoned: Seq<bool>) -> Seq<u64>
    decreases targets.len(),
{
    if targets.len() == 0 {
        Seq::empty()
    } else {
        let before = abandoned_of(targets.drop_last(), abandoned.drop_last());
        if abandoned.last() {
            before.push(targets.last().0)
        } else {
            before
        }
    }
}

/// Whether `run` leads from `before` to `after`: the notes are used up, and where
/// the runtime is open every stream named is looked at, in order.
pub open spec fn is_cleanup_run(
    before: FileApiHandle,
    targets: Seq<(u64, u64)>,
    run: CleanupRun,
    after: FileApiHandle,
) -> bool {
    &&& run.abandoned.len() == targets.len()
    &&& run.states.len() == targets.len() + 1
    &&& run.states[0] == (FileApiHandle { cleanups: run.states[0].cleanups, ..before })
    &&& run.states[0].cleanups@ == Seq::<CleanupRecord>::empty()
    &&& forall|i: int|
        0 <= i < targets.len() ==> #[trigger] abandon_step(
            run.states[i],
            targets[i],
            run.states[i + 1],
            run.abandoned[i],
        )
    &&& after == run.states.last()
}

/// Whether the cleanup of `before` may lead to `after` with these streams
/// abandoned.
pub open spec fn cleaned_up(
    before: FileApiHandle,
    after: FileApiHandle,
    abandoned: Seq<u64>,
) -> bool {
    exists|run: CleanupRun| #[trigger]
        is_cleanup_run(before, cleanup_targets(before), run, after) && abandoned == abandoned_of(
            cleanup_targets(before),
            run.abandoned,
        )
}

impl FileApiHandle {
    /// Settles the stream chunks that wait.
    fn poll_streams(&mut self, jobs: &mut Vec<PollJob>)
        requires
            old(self).wf(),
        ensures
            final(self).wf(),
            exists|made: Seq<PollJob>| #[trigger]
                streams_polled(*old(self), *final(self), made) && final(jobs)@ == old(jobs)@ + made,
            *final(self) == (FileApiHandle {
                streams: final(self).streams,
                stream_ops: final(self).stream_ops,
                bridge: final(self).bridge,
                ..*old(self)
            }),
            final(self).streams@.len() == old(self).streams@.len(),
            jobs_sound(old(jobs)@) ==> jobs_sound(final(jobs)@),
    {
        let ghost start = *self;
        let ghost first = jobs@;
        let chunks = self.bridge.take_stream_completions();
        let ghost all = chunks@;
        proof {
            lemma_drained_keeps(start, *self);
        }
        let ghost mut states = seq![*self];
        let ghost mut outcomes: Seq<Option<PollJob>> = Seq::empty();
        for chunk in iter: chunks
            invariant
                iter.seq() == all,
                self.wf(),
                *self == (FileApiHandle {
                    streams: self.streams,
                    stream_ops: self.stream_ops,
                    bridge: self.bridge,
                    ..start
                }),
                self.streams@.len() == start.streams@.len(),
                jobs_sound(first) ==> jobs_sound(jobs@),
                all == stream_chunks(start.bridge.slots()),
                outcomes.len() == iter.index(),
                states.len() == outcomes.len() + 1,
                states[0] == (FileApiHandle { bridge: states[0].bridge, ..start }),
                streams_drained(start.bridge, states[0].bridge),
                states.last() == *self,
                jobs@ == first + jobs_of(outcomes),
                forall|i: int|
                    0 <= i < outcomes.len() ==> #[trigger] stream_step(
                        states[i],
                        all[i],
                        states[i + 1],
                        outcomes[i],
                    ),
        {
            let ghost earlier = outcomes;
            let ghost seen = states;
            let outcome = self.settle_stream_chunk(chunk);
            proof {
                outcomes = outcomes.push(outcome);
                states = states.push(*self);
                assert(outcomes.drop_last() =~= earlier);
                assert forall|i: int| 0 <= i < outcomes.len() implies #[trigger] stream_step(
                    states[i],
                    all[i],
                    states[i + 1],
                    outcomes[i],
                ) by {
                    if i < earlier.len() {
                        assert(stream_step(seen[i], all[i], seen[i + 1], earlier[i]));
                    }
                }
            }
            match outcome {
                Some(job) => {
                    jobs.push(job);
                },
                None => {},
            }
            assert(jobs@ =~= first + jobs_of(outcomes));
        }
        proof {
            let run = PollRun { states, outcomes };
            assert(is_stream_run(start, run, *self));
            assert(streams_polled(start, *self, jobs_of(outcomes)));
        }
    }

    /// Settles the whole reads that are due.
    fn poll_reads(&mut self, jobs: &mut Vec<PollJob>)
        requires
            old(self).wf(),
        ensures
            final(self).wf(),
            exists|made: Seq<PollJob>| #[trigger]
                reads_polled(*old(self), *final(self), made) && final(jobs)@ == old(jobs)@ + made,
            *final(self) == (FileApiHandle {
                reads: final(self).reads,
                bridge: final(self).bridge,
                ..*old(self)
            }),
            jobs_sound(old(jobs)@) ==> jobs_sound(final(jobs)@),
    {
        let ghost start = *self;
        let ghost first = jobs@;
        let due = self.bridge.take_completions();
        let ghost all = due@;
        proof {
            assert forall|i: int| 0 <= i < start.bridge.slots().len() implies (
            #[trigger] self.bridge.slots()[i]).id == start.bridge.slots()[i].id by {
                assert(is_drained_slot(start.bridge.slots(), i, self.bridge.slots()[i]));
            }
            lemma_drained_keeps(start, *self);
        }
        let ghost mut states = seq![*self];
        let ghost mut outcomes: Seq<Option<PollJob>> = Seq::empty();
        for completion in iter: due
            invariant
                iter.seq() == all,
                self.wf(),
                *self == (FileApiHandle { reads: self.reads, bridge: self.bridge, ..start }),
                jobs_sound(first) ==> jobs_sound(jobs@),
                all == due_completions(start.bridge.slots()),
                outcomes.len() == iter.index(),
                states.len() == outcomes.len() + 1,
                states[0] == (FileApiHandle { bridge: states[0].bridge, ..start }),
                reads_drained(start.bridge, states[0].bridge),
                states.last() == *self,
                jobs@ == first + jobs_of(outcomes),
                forall|i: int|
                    0 <= i < outcomes.len() ==> #[trigger] read_step(
                        states[i],
                        all[i],
                        states[i + 1],
                        outcomes[i],
                    ),
        {
            let ghost earlier = outcomes;
            let ghost seen = states;
            let outcome = self.settle_read(completion);
            proof {
                outcomes = outcomes.push(outcome);
                states = states.push(*self);
                assert(outcomes.drop_last() =~= earlier);
                assert forall|i: int| 0 <= i < outcomes.len() implies #[trigger] read_step(
                    states[i],
                    all[i],
                    states[i + 1],
                    outcomes[i],
                ) by {
                    if i < earlier.len() {
                        assert(read_step(seen[i], all[i], seen[i + 1], earlier[i]));
                    }
                }
            }
            match outcome {
                Some(job) => {
                    jobs.push(job);
                },
                None => {},
            }
            assert(jobs@ =~= first + jobs_of(outcomes));
        }
        proof {
            let run = PollRun { states, outcomes };
            assert(is_read_run(start, run, *self));
            assert(reads_polled(start, *self, jobs_of(outcomes)));
        }
    }

    /// Ends the streams that nobody can read any more. The operations of those
    /// that it ended are appended.
    pub fn drain_stream_cleanups(&mut self, ended: &mut Vec<u64>)
        requires
            old(self).wf(),
        ensures
            final(self).wf(),
            exists|abandoned: Seq<u64>| #[trigger]
                cleaned_up(*old(self), *final(self), abandoned) && final(ended)@ == old(ended)@
                    + abandoned,
            *final(self) == (FileApiHandle {
                streams: final(self).streams,
                stream_ops: final(self).stream_ops,
                bridge: final(self).bridge,
                cleanups: final(self).cleanups,
                ..*old(self)
            }),
            final(self).streams@.len() == old(self).streams@.len(),
    {
        let ghost start = *self;
        let ghost first = ended@;
        let context: u64 = self.bridge.context_id().get();
        let closed = self.flag.is_shutdown();
        let mut records: Vec<CleanupRecord> = Vec::new();
        records.append(&mut self.cleanups);
        let ghost noted = records@;
        let mut targets: Vec<(u64, u64)> = Vec::new();
        if !closed {
            let mut i: usize = 0;
            assert(noted.take(0) =~= Seq::<CleanupRecord>::empty());
            while i < records.len()
                invariant
                    i <= records@.len(),
                    noted == records@,
                    targets@ == noted_targets(noted.take(i as int), context),
                decreases records@.len() - i,
            {
                proof {
                    let longer = noted.take(i + 1);
                    assert(longer.drop_last() =~= noted.take(i as int));
                    assert(longer.last() == noted[i as int]);
                }
                if records[i].context == context {
                    targets.push((records[i].operation, records[i].generation));
                }
                i = i + 1;
            }
            assert(noted.take(i as int) =~= noted);
            let ghost named = targets@;
            let ghost pairs = self.stream_ops.ops@.map_values(
                |op: StreamOp| (op.operation, op.generation),
            );
            let mut j: usize = 0;
            while j < self.stream_ops.ops.len()
                invariant
                    j <= self.stream_ops.ops@.len(),
                    pairs == self.stream_ops.ops@.map_values(
                        |op: StreamOp| (op.operation, op.generation),
                    ),
                    targets@ =~= named + pairs.take(j as int),
                decreases self.stream_ops.ops@.len() - j,
            {
                targets.push(
                    (self.stream_ops.ops[j].operation, self.stream_ops.ops[j].generation),
                );
                j = j + 1;
            }
            assert(pairs.take(j as int) =~= pairs);
        }
        let ghost all = targets@;
        proof {
            assert(self.cleanups@ =~= Seq::<CleanupRecord>::empty());
            assert(noted =~= start.cleanups@);
            assert(all =~= cleanup_targets(start));
        }
        let ghost mut states = seq![*self];
        let ghost mut outcomes: Seq<bool> = Seq::empty();
        let mut k: usize = 0;
        assert(all.take(0) =~= Seq::<(u64, u64)>::empty());
        while k < targets.len()
            invariant
                k <= targets@.len(),
                all == targets@,
                self.wf(),
                *self == (FileApiHandle {
                    streams: self.streams,
                    stream_ops: self.stream_ops,
                    bridge: self.bridge,
                    cleanups: self.cleanups,
                    ..start
                }),
                self.streams@.len() == start.streams@.len(),
                outcomes.len() == k,
                states.len() == k + 1,
                states[0] == (FileApiHandle { cleanups: states[0].cleanups, ..start }),
                states[0].cleanups@ == Seq::<CleanupRecord>::empty(),
                states.last() == *self,
                ended@ == first + abandoned_of(all.take(k as int), outcomes),
                forall|i: int|
                    0 <= i < k ==> #[trigger] abandon_step(
                        states[i],
                        all[i],
                        states[i + 1],
                        outcomes[i],
                    ),
            decreases targets@.len() - k,
        {
            let ghost earlier = outcomes;
            let ghost seen = states;
            let (operation, generation) = targets[k];
            let gone = self.try_abandon(operation, generation);
            proof {
                outcomes = outcomes.push(gone);
                states = states.push(*self);
                assert(outcomes.drop_last() =~= earlier);
                let longer = all.take(k + 1);
                assert(longer.drop_last() =~= all.take(k as int));
                assert(longer.last() == all[k as int]);
                assert forall|i: int| 0 <= i < outcomes.len() implies #[trigger] abandon_step(
                    states[i],
                    all[i],
                    states[i + 1],
                    outcomes[i],
                ) by {
                    if i < earlier.len() {
                        assert(abandon_step(seen[i], all[i], seen[i + 1], earlier[i]));
                    }
                }
            }
            if gone {
                ended.push(operation);
            }
            k = k + 1;
            assert(ended@ =~= first + abandoned_of(all.take(k as int), outcomes));
        }
        proof {
            assert(all.take(k as int) =~= all);
            let run = CleanupRun { states, abandoned: outcomes };
            assert(is_cleanup_run(start, all, run, *self));
            assert(cleaned_up(start, *self, abandoned_of(all, outcomes)));
        }
    }
}

/// The course of one poll: the states after each part, and what each part gave.
pub struct PollCourse {
    /// After the reader chunks.
    pub after_readers: FileApiHandle,
    /// After the first cleanup.
    pub after_cleanup: FileApiHandle,
    /// After the stream chunks.
    pub after_streams: FileApiHandle,
    /// After the second cleanup.
    pub after_sweep: FileApiHandle,
    /// The jobs of the reader chunks.
    pub reader_jobs: Seq<PollJob>,
    /// The jobs of the stream chunks.
    pub stream_jobs: Seq<PollJob>,
    /// The jobs of the whole reads.
    pub read_jobs: Seq<PollJob>,
    /// The streams that the first cleanup ended.
    pub cleaned: Seq<u64>,
    /// The streams that the second cleanup ended.
    pub swept: Seq<u64>,
}

/// Whether `course` leads from `before` to `after`: reader chunks first, then the
/// cleanup of streams, their chunks, another cleanup, and the whole reads.
pub open spec fn is_poll_course(
    before: FileApiHandle,
    course: PollCourse,
    after: FileApiHandle,
    outcome: PollOutcome,
) -> bool {
    &&& readers_polled(before, course.after_readers, course.reader_jobs, outcome.wake)
    &&& cleaned_up(course.after_readers, course.after_cleanup, course.cleaned)
    &&& streams_polled(course.after_cleanup, course.after_streams, course.stream_jobs)
    &&& cleaned_up(course.after_streams, course.after_sweep, course.swept)
    &&& reads_polled(course.after_sweep, after, course.read_jobs)
    &&& outcome.jobs@ == course.reader_jobs + course.stream_jobs + course.read_jobs
    &&& outcome.abandoned@ == course.cleaned + course.swept
}

/// Whether a poll of `before` may lead to `after` with this outcome.
pub open spec fn polled(before: FileApiHandle, after: FileApiHandle, outcome: PollOutcome) -> bool {
    exists|course: PollCourse| #[trigger] is_poll_course(before, course, after, outcome)
}

/// Why a context is not polled, if it is not; `found` is what the context carries.
pub open spec fn poll_refusal(
    handle: FileApiHandle,
    found: Option<(FileApiContextId, RegistrationIdentity)>,
) -> Option<PollIoError> {
    match found {
        None => Some(PollIoError::NotRegistered),
        Some((context, identity)) => if context != handle.bridge.context() || identity
            != handle.config.identity {
            Some(PollIoError::ForeignContext)
        } else {
            None
        },
    }
}

impl FileApiHandle {
    /// Turns the completions that wait into jobs for the script thread.
    ///
    /// A context that carries another registration, or none, is refused without
    /// any change. Nothing blocks: work that is not done yet is not seen. The
    /// number of completions that became jobs is the number of jobs.
    pub fn poll_io(&mut self, found: Option<(FileApiContextId, RegistrationIdentity)>) -> (result:
        Result<PollOutcome, PollIoError>)
        requires
            old(self).wf(),
        ensures
            final(self).wf(),
            *final(self) == (FileApiHandle {
                reader_ops: final(self).reader_ops,
                streams: final(self).streams,
                stream_ops: final(self).stream_ops,
                reads: final(self).reads,
                bridge: final(self).bridge,
                cleanups: final(self).cleanups,
                ..*old(self)
            }),
            final(self).streams@.len() == old(self).streams@.len(),
            match result {
                Ok(outcome) => {
                    &&& poll_refusal(*old(self), found) is None
                    &&& polled(*old(self), *final(self), outcome)
                    &&& jobs_sound(outcome.jobs@)
                },
                Err(error) => {
                    &&& poll_refusal(*old(self), found) == Some(error)
                    &&& *final(self) == *old(self)
                },
            },
    {
        match found {
            None => {
                return Err(PollIoError::NotRegistered);
            },
            Some((context, identity)) => {
                if context != self.bridge.context_id() || identity != self.config.identity {
                    return Err(PollIoError::ForeignContext);
                }
            },
        }
        let ghost start = *self;
        let mut jobs: Vec<PollJob> = Vec::new();
        let mut abandoned: Vec<u64> = Vec::new();
        let wake = self.poll_readers(&mut jobs);
        let ghost after_readers = *self;
        let ghost reader_jobs = choose|made: Seq<PollJob>| #[trigger]
            readers_polled(start, after_readers, made, wake) && jobs@ == Seq::<PollJob>::empty()
                + made;
        let ghost first_jobs = jobs@;
        self.drain_stream_cleanups(&mut abandoned);
        let ghost after_cleanup = *self;
        let ghost cleaned = choose|made: Seq<u64>| #[trigger]
            cleaned_up(after_readers, after_cleanup, made) && abandoned@ == Seq::<u64>::empty()
                + made;
        let ghost first_abandoned = abandoned@;
        self.poll_streams(&mut jobs);
        let ghost after_streams = *self;
        let ghost stream_jobs = choose|made: Seq<PollJob>| #[trigger]
            streams_polled(after_cleanup, after_streams, made) && jobs@ == first_jobs + made;
        let ghost second_jobs = jobs@;
        self.drain_stream_cleanups(&mut abandoned);
        let ghost after_sweep = *self;
        let ghost swept = choose|made: Seq<u64>| #[trigger]
            cleaned_up(after_streams, after_sweep, made) && abandoned@ == first_abandoned + made;
        self.poll_reads(&mut jobs);
        let ghost read_jobs = choose|made: Seq<PollJob>| #[trigger]
            reads_polled(after_sweep, *self, made) && jobs@ == second_jobs + made;
        let outcome = PollOutcome { jobs, abandoned, wake };
        proof {
            let course = PollCourse {
                after_readers,
                after_cleanup,
                after_streams,
                after_sweep,
                reader_jobs,
                stream_jobs,
                read_jobs,
                cleaned,
                swept,
            };
            assert(first_jobs =~= reader_jobs);
            assert(first_abandoned =~= cleaned);
            assert(is_poll_course(start, course, *self, outcome));
        }
        Ok(outcome)
    }
}

proof fn lemma_jobs_grow(outcomes: Seq<Option<PollJob>>)
    requires
        outcomes.len() > 0,
    ensures
        jobs_of(outcomes).len() <= jobs_of(outcomes.take(outcomes.len() - 1)).len() + 1,
{
    assert(outcomes.take(outcomes.len() - 1) =~= outcomes.drop_last());
}

/// A budget bounds the reader chunks that one poll settles; the rest waits for
/// the next one, and the host is woken for it.
pub proof fn lemma_budget_bounds_jobs(
    before: FileApiHandle,
    after: FileApiHandle,
    jobs: Seq<PollJob>,
    left: bool,
    limit: usize,
)
    requires
        readers_polled(before, after, jobs, left),
        before.budget == Some(limit),
    ensures
        jobs.len() <= limit,
        left ==> jobs.len() == limit,
{
    let run = choose|run: ReaderRun|
        {
            &&& #[trigger] is_reader_run(before, run, after)
            &&& jobs == jobs_of(run.outcomes)
            &&& left == (run.outcomes.len() < reader_chunks(before.bridge.slots()).len())
        };
    let count = run.outcomes.len() as int;
    if count > 0 {
        lemma_jobs_grow(run.outcomes);
        assert(within_budget(before.budget, jobs_of(run.outcomes.take(count - 1)).len() as int));
    }
}

proof fn lemma_reader_states_keep_bridge(
    states: Seq<FileApiHandle>,
    chunks: Seq<FileReaderChunkCompletion>,
    outcomes: Seq<Option<PollJob>>,
    count: int,
)
    requires
        states.len() == outcomes.len() + 1,
        outcomes.len() <= chunks.len(),
        0 <= count <= outcomes.len(),
        forall|i: int|
            0 <= i < outcomes.len() ==> #[trigger] reader_step(
                states[i],
                chunks[i],
                states[i + 1],
                outcomes[i],
            ),
    ensures
        states[count].bridge == states[0].bridge,
    decreases count,
{
    if count > 0 {
        lemma_reader_states_keep_bridge(states, chunks, outcomes, count - 1);
        let k = count - 1;
        assert(reader_step(states[k], chunks[k], states[k + 1], outcomes[k]));
    }
}

proof fn lemma_no_reader_chunks(slots: Seq<Slot>)
    requires
        forall|i: int|
            0 <= i < slots.len() ==> (#[trigger] slots[i]).reader@ == Seq::<
                FileReaderChunkCompletion,
            >::empty(),
    ensures
        reader_chunks(slots) == Seq::<FileReaderChunkCompletion>::empty(),
    decreases slots.len(),
{
    if slots.len() > 0 {
        let front = slots.drop_last();
        assert forall|i: int| 0 <= i < front.len() implies (#[trigger] front[i]).reader@ == Seq::<
            FileReaderChunkCompletion,
        >::empty() by {
            assert(slots[i].reader@ == Seq::<FileReaderChunkCompletion>::empty());
        }
        lemma_no_reader_chunks(front);
        assert(reader_chunks(slots) =~= Seq::<FileReaderChunkCompletion>::empty());
    }
}

/// A reader chunk is settled once: where none was left by the budget, the next
/// poll finds no reader chunk any more.
pub proof fn lemma_reader_chunks_settle_once(
    before: FileApiHandle,
    after: FileApiHandle,
    jobs: Seq<PollJob>,
)
    requires
        readers_polled(before, after, jobs, false),
    ensures
        reader_chunks(after.bridge.slots()) == Seq::<FileReaderChunkCompletion>::empty(),
{
    let run = choose|run: ReaderRun|
        {
            &&& #[trigger] is_reader_run(before, run, after)
            &&& jobs == jobs_of(run.outcomes)
            &&& false == (run.outcomes.len() < reader_chunks(before.bridge.slots()).len())
        };
    let chunks = reader_chunks(before.bridge.slots());
    let count = run.outcomes.len() as int;
    lemma_reader_states_keep_bridge(run.states, chunks, run.outcomes, count);
    assert(after.bridge == run.states[0].bridge);
    let slots = after.bridge.slots();
    assert forall|i: int| 0 <= i < slots.len() implies (#[trigger] slots[i]).reader@ == Seq::<
        FileReaderChunkCompletion,
    >::empty() by {}
    lemma_no_reader_chunks(slots);
}

proof fn lemma_closed_readers(
    before: FileApiHandle,
    after: FileApiHandle,
    jobs: Seq<PollJob>,
    left: bool,
)
    requires
        before.bridge.is_closed(),
        before.bridge.slots() == Seq::<Slot>::empty(),
        readers_polled(before, after, jobs, left),
    ensures
        after == (FileApiHandle { bridge: after.bridge, ..before }),
        after.bridge.is_closed(),
        after.bridge.slots() == Seq::<Slot>::empty(),
        jobs == Seq::<PollJob>::empty(),
        !left,
{
    let run = choose|run: ReaderRun|
        {
            &&& #[trigger] is_reader_run(before, run, after)
            &&& jobs == jobs_of(run.outcomes)
            &&& left == (run.outcomes.len() < reader_chunks(before.bridge.slots()).len())
        };
    assert(reader_chunks(before.bridge.slots()).len() == 0);
    assert(run.outcomes =~= Seq::<Option<PollJob>>::empty());
    assert(after.bridge.slots() =~= Seq::<Slot>::empty());
}

proof fn lemma_closed_streams(before: FileApiHandle, after: FileApiHandle, jobs: Seq<PollJob>)
    requires
        before.bridge.is_closed(),
        before.bridge.slots() == Seq::<Slot>::empty(),
        streams_polled(before, after, jobs),
    ensures
        after == (FileApiHandle { bridge: after.bridge, ..before }),
        after.bridge.is_closed(),
        after.bridge.slots() == Seq::<Slot>::empty(),
        jobs == Seq::<PollJob>::empty(),
{
    let run = choose|run: PollRun|
        #[trigger] is_stream_run(before, run, after) && jobs == jobs_of(run.outcomes);
    assert(stream_chunks(before.bridge.slots()).len() == 0);
    assert(run.outcomes =~= Seq::<Option<PollJob>>::empty());
    assert(after.bridge.slots() =~= Seq::<Slot>::empty());
}

proof fn lemma_closed_reads(before: FileApiHandle, after: FileApiHandle, jobs: Seq<PollJob>)
    requires
        before.bridge.is_closed(),
        before.bridge.slots() == Seq::<Slot>::empty(),
        reads_polled(before, after, jobs),
    ensures
        after == (FileApiHandle { bridge: after.bridge, ..before }),
        jobs == Seq::<PollJob>::empty(),
{
    let run = choose|run: PollRun|
        #[trigger] is_read_run(before, run, after) && jobs == jobs_of(run.outcomes);
    assert(due_completions(before.bridge.slots()).len() == 0);
    assert(run.outcomes =~= Seq::<Option<PollJob>>::empty());
}

proof fn lemma_closed_cleanup(before: FileApiHandle, after: FileApiHandle, abandoned: Seq<u64>)
    requires
        before.flag@.closed,
        cleaned_up(before, after, abandoned),
    ensures
        after == (FileApiHandle { cleanups: after.cleanups, ..before }),
        abandoned == Seq::<u64>::empty(),
{
    let run = choose|run: CleanupRun| #[trigger]
        is_cleanup_run(before, cleanup_targets(before), run, after) && abandoned == abandoned_of(
            cleanup_targets(before),
            run.abandoned,
        );
    assert(cleanup_targets(before).len() == 0);
}

/// After the shutdown a poll settles nothing: no job, no stream ended, no wake,
/// and every reader, stream and promise stays as it was.
pub proof fn lemma_nothing_settles_after_shutdown(
    before: FileApiHandle,
    after: FileApiHandle,
    outcome: PollOutcome,
)
    requires
        before.wf(),
        before.flag@.closed,
        polled(before, after, outcome),
    ensures
        outcome.jobs@ == Seq::<PollJob>::empty(),
        outcome.abandoned@ == Seq::<u64>::empty(),
        !outcome.wake,
        after == (FileApiHandle { bridge: after.bridge, cleanups: after.cleanups, ..before }),
{
    let course = choose|course: PollCourse| #[trigger]
        is_poll_course(before, course, after, outcome);
    lemma_closed_readers(before, course.after_readers, course.reader_jobs, outcome.wake);
    lemma_closed_cleanup(course.after_readers, course.after_cleanup, course.cleaned);
    lemma_closed_streams(course.after_cleanup, course.after_streams, course.stream_jobs);
    lemma_closed_cleanup(course.after_streams, course.after_sweep, course.swept);
    lemma_closed_reads(course.after_sweep, after, course.read_jobs);
    assert(outcome.jobs@ =~= Seq::<PollJob>::empty());
    assert(outcome.abandoned@ =~= Seq::<u64>::empty());
}

} // verus!
