//! What one poll settles: the reads that promises wait for, the chunks of streams
//! and readers, and the streams that nobody can reach any more.

use vstd::prelude::*;

use crate::bridge::{
    chunk_waits, comes_next, due_completions, is_handed_out, lemma_chunked_never_blocks, lemma_due_are_next,
    lemma_due_in_submission_order, lemma_slot_of, lemma_slot_of_is, reader_chunks,
    requeued, slot_of, stream_chunks, Slot,
};
use crate::budget::lemma_reader_states;
use crate::error::FileApiError;
use crate::filereader::{lemma_op_of, op_of, FileReaderNative, PumpState};
use crate::handle::{not_a_reader, not_a_stream, FileApiHandle};
use crate::ids::{FileApiContextId, RegistrationIdentity};
use crate::io::{ChunkKind, FileReaderChunkCompletion, StreamChunkCompletion};
use crate::poll::{
    abandon_step, abandoned_of, cleaned_up, cleanup_targets, is_cleanup_run, is_poll_course,
    is_read_run, is_reader_run, is_stream_run, jobs_of, noted_targets, put_back, read_step, reader_at,
    reader_step, reads_in_chunks,
    stream_at, stream_gone_or_kept, stream_outcome, stream_step, CleanupRun, PollCourse, PollJob,
    PollOutcome, PollRun, ReaderRun,
};
use crate::promise_read::{
    read_of, read_settled, reads_distinct, PendingRead, PromiseValue, ReadMode, Settlement,
};
use crate::streams::{
    self, lemma_stream_op_of, stream_op_of, stream_settled, StreamMode, StreamShared, StreamStep,
};
use crate::utf8::utf8_lossy;

verus! {

/// Whether two rows of slots hold the same reads: only their chunks may differ.
spec fn same_reads(slots: Seq<Slot>, other: Seq<Slot>) -> bool {
    &&& slots.len() == other.len()
    &&& forall|i: int|
        0 <= i < slots.len() ==> {
            &&& (#[trigger] slots[i]).id == other[i].id
            &&& slots[i].queued == other[i].queued
            &&& slots[i].chunked == other[i].chunked
            &&& slots[i].completion == other[i].completion
        }
}

/// The slots of streams read in chunks.
spec fn streams_are_chunked(handle: FileApiHandle) -> bool {
    let slots = handle.bridge.slots();
    forall|i: int|
        0 <= i < slots.len() && !not_a_stream(handle, (#[trigger] slots[i]).id)
            ==> slots[i].chunked
}

/// Whether the reads are as they were.
spec fn reads_stay(before: FileApiHandle, after: FileApiHandle) -> bool {
    &&& streams_are_chunked(after)
    &&& due_completions(after.bridge.slots()) == due_completions(before.bridge.slots())
    &&& after.reads == before.reads
    &&& forall|id: u64| not_a_reader(before, id) ==> #[trigger] not_a_reader(after, id)
    &&& forall|id: u64| not_a_stream(before, id) ==> #[trigger] not_a_stream(after, id)
}

proof fn lemma_same_due(slots: Seq<Slot>, other: Seq<Slot>)
    requires
        same_reads(slots, other),
    ensures
        due_completions(slots) == due_completions(other),
    decreases slots.len(),
{
    if slots.len() > 0 {
        let rest = slots.skip(1);
        let others = other.skip(1);
        assert(slots[0].completion == other[0].completion);
        assert forall|i: int| 0 <= i < rest.len() implies {
            &&& (#[trigger] rest[i]).id == others[i].id
            &&& rest[i].queued == others[i].queued
            &&& rest[i].chunked == others[i].chunked
            &&& rest[i].completion == others[i].completion
        } by {
            assert(rest[i] == slots[i + 1]);
            assert(others[i] == other[i + 1]);
        }
        lemma_same_due(rest, others);
    }
}

proof fn lemma_same_reads_stay(before: FileApiHandle, after: FileApiHandle)
    requires
        streams_are_chunked(before),
        same_reads(after.bridge.slots(), before.bridge.slots()),
        after.reads == before.reads,
        after.stream_ops == before.stream_ops,
        forall|id: u64| not_a_reader(before, id) ==> #[trigger] not_a_reader(after, id),
    ensures
        reads_stay(before, after),
{
    let slots = after.bridge.slots();
    let was = before.bridge.slots();
    lemma_same_due(slots, was);
    assert forall|i: int| 0 <= i < slots.len() && !not_a_stream(
        after,
        (#[trigger] slots[i]).id,
    ) implies slots[i].chunked by {
        assert(!not_a_stream(before, was[i].id));
    }
}

proof fn lemma_stream_gone(before: FileApiHandle, after: FileApiHandle, operation: u64)
    requires
        streams_are_chunked(before),
        after.reads == before.reads,
        after.reader_ops == before.reader_ops,
        stream_gone_or_kept(before, after, operation),
    ensures
        reads_stay(before, after),
{
    let ops = before.stream_ops.ops@;
    let kept = after.stream_ops.ops@;
    let slots = before.bridge.slots();
    let rest = after.bridge.slots();
    lemma_stream_op_of(ops, operation);
    lemma_slot_of(slots, operation);
    let unchanged = after.stream_ops == before.stream_ops && after.bridge == before.bridge;
    if !unchanged && stream_op_of(ops, operation) is Some {
        let at = stream_op_of(ops, operation)->0;
        assert(ops[at].operation == operation);
        assert(!not_a_stream(before, operation));
        assert forall|id: u64| not_a_stream(before, id) implies #[trigger] not_a_stream(
            after,
            id,
        ) by {
            assert forall|j: int| 0 <= j < kept.len() implies (#[trigger] kept[j]).operation
                != id by {
                let x = if j < at {
                    j
                } else {
                    j + 1
                };
                assert(kept[j] == ops[x]);
            }
        }
        if let Some(held) = slot_of(slots, operation) {
            assert(slots[held].chunked);
            lemma_chunked_never_blocks(slots, held);
            assert forall|i: int| 0 <= i < rest.len() && !not_a_stream(
                after,
                (#[trigger] rest[i]).id,
            ) implies rest[i].chunked by {
                let x = if i < held {
                    i
                } else {
                    i + 1
                };
                assert(rest[i] == slots[x]);
                assert(!not_a_stream(before, slots[x].id));
            }
        } else {
            assert forall|i: int| 0 <= i < rest.len() && !not_a_stream(
                after,
                (#[trigger] rest[i]).id,
            ) implies rest[i].chunked by {
                assert(!not_a_stream(before, slots[i].id));
            }
        }
    } else {
        assert forall|id: u64| not_a_stream(before, id) implies #[trigger] not_a_stream(
            after,
            id,
        ) by {
            assert(kept == ops);
        }
        assert forall|i: int| 0 <= i < rest.len() && !not_a_stream(
            after,
            (#[trigger] rest[i]).id,
        ) implies rest[i].chunked by {
            assert(rest == slots);
            assert(!not_a_stream(before, slots[i].id));
        }
    }
}

proof fn lemma_stays_through(first: FileApiHandle, second: FileApiHandle, third: FileApiHandle)
    requires
        reads_stay(first, second),
        reads_stay(second, third),
    ensures
        reads_stay(first, third),
{
    assert forall|id: u64| not_a_reader(first, id) implies #[trigger] not_a_reader(third, id) by {
        assert(not_a_reader(second, id));
    }
    assert forall|id: u64| not_a_stream(first, id) implies #[trigger] not_a_stream(third, id) by {
        assert(not_a_stream(second, id));
    }
}

proof fn lemma_cleanup_stays(
    before: FileApiHandle,
    run: CleanupRun,
    after: FileApiHandle,
    count: int,
)
    requires
        streams_are_chunked(before),
        is_cleanup_run(before, cleanup_targets(before), run, after),
        0 <= count < run.states.len(),
    ensures
        reads_stay(before, run.states[count]),
    decreases count,
{
    if count == 0 {
        lemma_same_reads_stay(before, run.states[0]);
    } else {
        let k = count - 1;
        let target = cleanup_targets(before)[k];
        lemma_cleanup_stays(before, run, after, k);
        let here = run.states[k];
        let next = run.states[k + 1];
        assert(abandon_step(here, target, next, run.abandoned[k]));
        match stream_at(here.streams@, target.0) {
            Some(at) => {
                assert(stream_gone_or_kept(here, next, target.0));
                lemma_stream_gone(here, next, target.0);
            },
            None => {
                lemma_same_reads_stay(here, next);
            },
        }
        lemma_stays_through(before, here, next);
    }
}

proof fn lemma_cleaned_stays(before: FileApiHandle, after: FileApiHandle, abandoned: Seq<u64>)
    requires
        streams_are_chunked(before),
        cleaned_up(before, after, abandoned),
    ensures
        reads_stay(before, after),
{
    let run = choose|run: CleanupRun| #[trigger]
        is_cleanup_run(before, cleanup_targets(before), run, after) && abandoned == abandoned_of(
            cleanup_targets(before),
            run.abandoned,
        );
    lemma_cleanup_stays(before, run, after, run.states.len() - 1);
}

proof fn lemma_streams_stay(before: FileApiHandle, run: PollRun, after: FileApiHandle, count: int)
    requires
        streams_are_chunked(before),
        is_stream_run(before, run, after),
        0 <= count < run.states.len(),
    ensures
        reads_stay(before, run.states[count]),
    decreases count,
{
    let chunks = stream_chunks(before.bridge.slots());
    if count == 0 {
        lemma_same_reads_stay(before, run.states[0]);
    } else {
        let k = count - 1;
        lemma_streams_stay(before, run, after, k);
        let here = run.states[k];
        let next = run.states[k + 1];
        let completion = chunks[k];
        assert(stream_step(here, completion, next, run.outcomes[k]));
        match stream_at(here.streams@, completion.operation_id.spec_get()) {
            Some(at) => {
                let stream = here.streams@[at]@;
                let step = choose|step: StreamStep| #[trigger]
                    stream_settled(
                        stream,
                        here.stream_ops,
                        here.bridge,
                        here.config.limits,
                        completion,
                        here.flag@.closed,
                        next.streams@[at]@,
                        next.stream_ops,
                        next.bridge,
                        step,
                    );
                assert(stream_gone_or_kept(here, next, stream.lease.operation));
                lemma_stream_gone(here, next, stream.lease.operation);
            },
            None => {
                lemma_same_reads_stay(here, next);
            },
        }
        lemma_stays_through(before, here, next);
    }
}

proof fn lemma_put_back_stays(
    run: ReaderRun,
    chunks: Seq<FileReaderChunkCompletion>,
    left: int,
    count: int,
)
    requires
        0 <= count <= left < run.bridges.len(),
        left <= chunks.len(),
        forall|k: int|
            0 <= k < left ==> #[trigger] put_back(
                run.bridges[k],
                chunks[chunks.len() - 1 - k],
                run.bridges[k + 1],
            ),
    ensures
        same_reads(run.bridges[count].slots(), run.bridges[0].slots()),
    decreases count,
{
    if count > 0 {
        let k = count - 1;
        lemma_put_back_stays(run, chunks, left, k);
        let chunk = chunks[chunks.len() - 1 - k];
        let was = run.bridges[k].slots();
        let slots = run.bridges[k + 1].slots();
        assert(put_back(run.bridges[k], chunk, run.bridges[k + 1]));
        let bridge = run.bridges[k];
        let next = run.bridges[k + 1];
        let accepted = choose|accepted: bool| requeued(bridge, chunk, next, accepted);
        lemma_slot_of(was, chunk.operation_id.spec_get());
        assert forall|i: int| 0 <= i < slots.len() implies {
            &&& (#[trigger] slots[i]).id == was[i].id
            &&& slots[i].queued == was[i].queued
            &&& slots[i].chunked == was[i].chunked
            &&& slots[i].completion == was[i].completion
        } by {
            if accepted {
                let at = slot_of(was, chunk.operation_id.spec_get())->0;
                if i != at {
                    assert(slots[i] == was[i]);
                }
            }
        }
    }
}

proof fn lemma_readers_stay(before: FileApiHandle, run: ReaderRun, after: FileApiHandle)
    requires
        streams_are_chunked(before),
        is_reader_run(before, run, after),
    ensures
        reads_stay(before, after),
{
    let chunks = reader_chunks(before.bridge.slots());
    let count = run.outcomes.len() as int;
    let left = chunks.len() - count;
    lemma_reader_states(run.states, chunks, run.outcomes, count);
    lemma_put_back_stays(run, chunks, left, left);
    assert(same_reads(after.bridge.slots(), before.bridge.slots()));
    let ops = before.reader_ops.ops@;
    let kept = after.reader_ops.ops@;
    assert(run.states[0].reader_ops == before.reader_ops);
    assert forall|id: u64| not_a_reader(before, id) implies #[trigger] not_a_reader(after, id) by {
        assert forall|i: int| 0 <= i < kept.len() implies (#[trigger] kept[i]).operation != id by {
            assert(kept[i].operation == ops[i].operation);
        }
    }
    lemma_same_reads_stay(before, after);
}

/// Whether the first `count` completions that are handed out hold one of
/// `operation`.
spec fn among_first(slots: Seq<Slot>, count: int, operation: u64) -> bool {
    exists|k: int|
        0 <= k < count && (#[trigger] due_completions(slots)[k]).operation_id.spec_get()
            == operation
}

/// Which reads wait once the first `count` completions are settled: those that
/// none of them is for.
spec fn waits_after(slots: Seq<Slot>, count: int, reads: Seq<PendingRead>, left: Seq<PendingRead>)
    -> bool {
    &&& reads_distinct(left)
    &&& forall|i: int|
        0 <= i < left.len() ==> reads.contains(#[trigger] left[i]) && !among_first(
            slots,
            count,
            left[i].operation,
        )
    &&& forall|i: int|
        0 <= i < reads.len() && !among_first(slots, count, (#[trigger] reads[i]).operation)
            ==> left.contains(reads[i])
}

proof fn lemma_read_run(before: FileApiHandle, run: PollRun, after: FileApiHandle, count: int)
    requires
        is_read_run(before, run, after),
        reads_distinct(before.reads.reads@),
        forall|i: int|
            0 <= i < before.reads.reads@.len() ==> not_a_reader(
                before,
                (#[trigger] before.reads.reads@[i]).operation,
            ) && not_a_stream(before, before.reads.reads@[i].operation),
        forall|i: int, j: int|
            0 <= i < j < due_completions(before.bridge.slots()).len() ==> (
            #[trigger] due_completions(before.bridge.slots())[i]).operation_id.spec_get() < (
            #[trigger] due_completions(before.bridge.slots())[j]).operation_id.spec_get(),
        0 <= count < run.states.len(),
    ensures
        run.states[count].reader_ops == before.reader_ops,
        run.states[count].stream_ops == before.stream_ops,
        waits_after(
            before.bridge.slots(),
            count,
            before.reads.reads@,
            run.states[count].reads.reads@,
        ),
    decreases count,
{
    let slots = before.bridge.slots();
    let due = due_completions(slots);
    let reads = before.reads.reads@;
    if count > 0 {
        let k = count - 1;
        lemma_read_run(before, run, after, k);
        let here = run.states[k];
        let next = run.states[k + 1];
        let was = here.reads.reads@;
        let left = next.reads.reads@;
        let operation = due[k].operation_id.spec_get();
        assert(read_step(here, due[k], next, run.outcomes[k]));
        assert forall|id: u64| #[trigger] among_first(slots, count, id) implies among_first(
            slots,
            k,
            id,
        ) || id == operation by {
            let x = choose|x: int|
                0 <= x < count && (#[trigger] due[x]).operation_id.spec_get() == id;
            if x < k {
                assert(among_first(slots, k, id));
            }
        }
        assert forall|id: u64| #[trigger] among_first(slots, k, id) implies among_first(
            slots,
            count,
            id,
        ) by {
            let x = choose|x: int| 0 <= x < k && (#[trigger] due[x]).operation_id.spec_get() == id;
            assert(due[x].operation_id.spec_get() == id);
        }
        assert(among_first(slots, count, operation)) by {
            assert(due[k].operation_id.spec_get() == operation);
        }
        lemma_read_found(was, operation);
        if reads_in_chunks(here, operation) {
            lemma_op_of(here.reader_ops.ops@, operation);
            lemma_stream_op_of(here.stream_ops.ops@, operation);
            assert forall|i: int| 0 <= i < left.len() implies reads.contains(#[trigger] left[i])
                && !among_first(slots, count, left[i].operation) by {
                let x = choose|x: int| 0 <= x < reads.len() && reads[x] == left[i];
                assert(not_a_reader(before, reads[x].operation));
                assert(not_a_stream(before, reads[x].operation));
            }
        } else {
            let settlement = choose|settlement: Option<Settlement>| #[trigger]
                read_settled(was, operation, due[k].result, left, settlement) && run.outcomes[k]
                    == match settlement {
                    Some(how) => Some(PollJob::Promise { operation, settlement: how }),
                    None => None,
                };
            match read_of(was, operation) {
                Some(at) => {
                    assert forall|i: int, j: int| 0 <= i < j < left.len() implies (
                    #[trigger] left[i]).operation != (#[trigger] left[j]).operation by {
                        let x = if i < at {
                            i
                        } else {
                            i + 1
                        };
                        let y = if j < at {
                            j
                        } else {
                            j + 1
                        };
                        assert(was[x].operation != was[y].operation);
                    }
                    assert forall|i: int| 0 <= i < left.len() implies reads.contains(
                        #[trigger] left[i],
                    ) && !among_first(slots, count, left[i].operation) by {
                        let x = if i < at {
                            i
                        } else {
                            i + 1
                        };
                        assert(left[i] == was[x]);
                        assert(was[x].operation != was[at].operation);
                    }
                    assert forall|i: int|
                        0 <= i < reads.len() && !among_first(
                            slots,
                            count,
                            (#[trigger] reads[i]).operation,
                        ) implies left.contains(reads[i]) by {
                        assert(!among_first(slots, k, reads[i].operation));
                        let x = choose|x: int| 0 <= x < was.len() && was[x] == reads[i];
                        if x < at {
                            assert(left[x] == reads[i]);
                        } else {
                            assert(left[x - 1] == reads[i]);
                        }
                    }
                },
                None => {
                    assert forall|i: int| 0 <= i < left.len() implies reads.contains(
                        #[trigger] left[i],
                    ) && !among_first(slots, count, left[i].operation) by {
                        assert(was[i].operation != operation);
                    }
                    assert forall|i: int|
                        0 <= i < reads.len() && !among_first(
                            slots,
                            count,
                            (#[trigger] reads[i]).operation,
                        ) implies left.contains(reads[i]) by {
                        assert(!among_first(slots, k, reads[i].operation));
                    }
                },
            }
        }
    } else {
        assert forall|i: int| 0 <= i < reads.len() implies reads.contains(#[trigger] reads[i]) by {}
    }
}

proof fn lemma_read_found(reads: Seq<PendingRead>, operation: u64)
    ensures
        match read_of(reads, operation) {
            Some(i) => 0 <= i < reads.len() && reads[i].operation == operation,
            None => forall|i: int|
                0 <= i < reads.len() ==> (#[trigger] reads[i]).operation != operation,
        },
    decreases reads.len(),
{
    if reads.len() > 0 && reads.last().operation != operation {
        let front = reads.drop_last();
        lemma_read_found(front, operation);
        assert forall|i: int| 0 <= i < front.len() implies front[i] == #[trigger] reads[i] by {}
    }
}

proof fn lemma_job_is_kept(outcomes: Seq<Option<PollJob>>, at: int)
    requires
        0 <= at < outcomes.len(),
        outcomes[at] is Some,
    ensures
        jobs_of(outcomes).contains(outcomes[at]->0),
    decreases outcomes.len(),
{
    let front = outcomes.drop_last();
    let jobs = jobs_of(outcomes);
    if at < front.len() {
        lemma_job_is_kept(front, at);
        let before = jobs_of(front);
        let j = choose|j: int| 0 <= j < before.len() && before[j] == front[at]->0;
        assert(jobs[j] == outcomes[at]->0);
    } else {
        assert(jobs[jobs.len() - 1] == outcomes[at]->0);
    }
}

/// Whether `job` settles the promise of a read of `mode` with what was delivered
/// for it: bytes become what the read asked for, and a failure rejects.
pub open spec fn settles_read(
    job: PollJob,
    operation: u64,
    mode: ReadMode,
    result: Result<Vec<u8>, FileApiError>,
) -> bool {
    job matches PollJob::Promise { operation: settled, settlement } && settled == operation
        && match result {
        Ok(bytes) => match mode {
            ReadMode::Text => settlement matches Settlement::Resolve(PromiseValue::Text(text))
                && text@ == utf8_lossy(bytes@),
            ReadMode::ArrayBuffer => settlement matches Settlement::Resolve(
                PromiseValue::ArrayBuffer(copy),
            ) && copy@ == bytes@,
            ReadMode::Bytes => settlement matches Settlement::Resolve(PromiseValue::Bytes(copy))
                && copy@ == bytes@,
        },
        Err(_) => settlement is Reject,
    }
}

/// Whether some of `jobs` settles the read.
pub open spec fn some_job_settles(
    jobs: Seq<PollJob>,
    operation: u64,
    mode: ReadMode,
    result: Result<Vec<u8>, FileApiError>,
) -> bool {
    exists|j: int| 0 <= j < jobs.len() && settles_read(#[trigger] jobs[j], operation, mode, result)
}

/// A poll settles every promise read whose bytes, or failure, were delivered and
/// whose earlier reads are all complete, with exactly what was delivered, and it
/// waits no longer. A read that cannot be settled yet goes on waiting.
pub proof fn lemma_polls_settle_what_was_delivered(
    handle: &mut FileApiHandle,
    found: Option<(FileApiContextId, RegistrationIdentity)>,
    outcome: PollOutcome,
    slot: int,
    read: int,
)
    requires
        handle.wf(),
        call_ensures(FileApiHandle::poll_io, (handle, found), Ok(outcome)),
        0 <= slot < handle.bridge.slots().len(),
        0 <= read < handle.reads.reads@.len(),
        handle.reads.reads@[read].operation == handle.bridge.slots()[slot].id,
    ensures
        comes_next(old(handle).bridge.slots(), slot) ==> {
            &&& some_job_settles(
                outcome.jobs@,
                old(handle).reads.reads@[read].operation,
                old(handle).reads.reads@[read].mode,
                old(handle).bridge.slots()[slot].completion->0.result,
            )
            &&& forall|i: int|
                0 <= i < final(handle).reads.reads@.len() ==> (
                #[trigger] final(handle).reads.reads@[i]).operation
                    != old(handle).reads.reads@[read].operation
        },
        !comes_next(old(handle).bridge.slots(), slot) ==> final(handle).reads.reads@.contains(
            old(handle).reads.reads@[read],
        ),
{
    let before = *handle;
    let after = *final(handle);
    let slots = before.bridge.slots();
    let reads = before.reads.reads@;
    let due = due_completions(slots);
    let operation = reads[read].operation;
    assert(!before.bridge.is_closed());
    assert forall|i: int| 0 <= i < slots.len() && !not_a_stream(
        before,
        (#[trigger] slots[i]).id,
    ) implies slots[i].chunked by {
        let ops = before.stream_ops.ops@;
        let k = choose|k: int| 0 <= k < ops.len() && (#[trigger] ops[k]).operation == slots[i].id;
        assert(crate::bridge::is_chunked(slots, ops[k].operation));
        lemma_slot_of_is(slots, slots[i].id, i);
    }
    let course = choose|course: PollCourse| #[trigger]
        is_poll_course(before, course, after, outcome);
    let readers = choose|run: ReaderRun|
        {
            &&& #[trigger] is_reader_run(before, run, course.after_readers)
            &&& course.reader_jobs == jobs_of(run.outcomes)
            &&& outcome.wake == (run.outcomes.len() < reader_chunks(slots).len())
        };
    lemma_readers_stay(before, readers, course.after_readers);
    lemma_cleaned_stays(course.after_readers, course.after_cleanup, course.cleaned);
    let streams = choose|run: PollRun| #[trigger]
        is_stream_run(course.after_cleanup, run, course.after_streams) && course.stream_jobs
            == jobs_of(run.outcomes);
    lemma_streams_stay(
        course.after_cleanup,
        streams,
        course.after_streams,
        streams.states.len() - 1,
    );
    lemma_cleaned_stays(course.after_streams, course.after_sweep, course.swept);
    lemma_stays_through(before, course.after_readers, course.after_cleanup);
    lemma_stays_through(before, course.after_cleanup, course.after_streams);
    lemma_stays_through(before, course.after_streams, course.after_sweep);
    let sweep = course.after_sweep;
    let run = choose|run: PollRun| #[trigger]
        is_read_run(sweep, run, after) && course.read_jobs == jobs_of(run.outcomes);
    assert(due_completions(sweep.bridge.slots()) == due);
    assert forall|i: int, j: int| 0 <= i < j < due.len() implies (
    #[trigger] due[i]).operation_id.spec_get() < (#[trigger] due[j]).operation_id.spec_get() by {
        lemma_due_in_submission_order(slots, i, j);
    }
    assert forall|i: int| 0 <= i < reads.len() implies not_a_reader(
        sweep,
        (#[trigger] reads[i]).operation,
    ) && not_a_stream(sweep, reads[i].operation) by {
        lemma_reads_are_apart(before, i);
    }
    lemma_read_run(sweep, run, after, run.states.len() - 1);
    lemma_due_are_next(slots);
    if comes_next(slots, slot) {
        let completion = slots[slot].completion->0;
        assert(crate::bridge::own_completion(slots[slot]));
        let k = choose|k: int| 0 <= k < due.len() && due[k] == completion;
        assert(due[k].operation_id.spec_get() == operation);
        lemma_read_run(sweep, run, after, k);
        let here = run.states[k];
        let was = here.reads.reads@;
        let left = run.states[k + 1].reads.reads@;
        assert(read_step(here, due[k], run.states[k + 1], run.outcomes[k]));
        assert(!among_first(sweep.bridge.slots(), k, operation)) by {
            if among_first(sweep.bridge.slots(), k, operation) {
                let x = choose|x: int|
                    0 <= x < k && (#[trigger] due[x]).operation_id.spec_get() == operation;
                assert(due[x].operation_id.spec_get() < due[k].operation_id.spec_get());
            }
        }
        assert(was.contains(reads[read]));
        assert(not_a_reader(sweep, reads[read].operation));
        lemma_op_of(here.reader_ops.ops@, operation);
        lemma_stream_op_of(here.stream_ops.ops@, operation);
        assert(!reads_in_chunks(here, operation));
        lemma_read_found(was, operation);
        let x = choose|x: int| 0 <= x < was.len() && was[x] == reads[read];
        let at = read_of(was, operation)->0;
        assert(at == x);
        let settlement = choose|settlement: Option<Settlement>| #[trigger]
            read_settled(was, operation, due[k].result, left, settlement) && run.outcomes[k]
                == match settlement {
                Some(how) => Some(PollJob::Promise { operation, settlement: how }),
                None => None,
            };
        let job = run.outcomes[k]->0;
        assert(settles_read(job, operation, reads[read].mode, completion.result));
        lemma_job_is_kept(run.outcomes, k);
        let jobs = course.read_jobs;
        let j = choose|j: int| 0 <= j < jobs.len() && jobs[j] == job;
        let place = course.reader_jobs.len() + course.stream_jobs.len() + j;
        assert(outcome.jobs@[place as int] == job);
        assert(among_first(sweep.bridge.slots(), run.states.len() - 1, operation)) by {
            assert(due[k].operation_id.spec_get() == operation);
        }
    } else {
        assert(!among_first(sweep.bridge.slots(), run.states.len() - 1, operation)) by {
            if among_first(sweep.bridge.slots(), run.states.len() - 1, operation) {
                let x = choose|x: int|
                    0 <= x < run.states.len() - 1 && (
                    #[trigger] due[x]).operation_id.spec_get() == operation;
                assert(is_handed_out(slots, due[x]));
                let i = choose|i: int|
                    0 <= i < slots.len() && #[trigger] comes_next(slots, i)
                        && slots[i].completion == Some(due[x]);
                assert(crate::bridge::own_completion(slots[i]));
                assert(slots[i].id == slots[slot].id);
                assert(i == slot);
            }
        }
    }
}

proof fn lemma_reads_are_apart(handle: FileApiHandle, at: int)
    requires
        handle.wf(),
        0 <= at < handle.reads.reads@.len(),
    ensures
        not_a_reader(handle, handle.reads.reads@[at].operation),
        not_a_stream(handle, handle.reads.reads@[at].operation),
{
    let reads = handle.reads.reads@;
    assert forall|i: int| 0 <= i < handle.reader_ops.ops@.len() implies (
    #[trigger] handle.reader_ops.ops@[i]).operation != reads[at].operation by {}
    assert forall|i: int| 0 <= i < handle.stream_ops.ops@.len() implies (
    #[trigger] handle.stream_ops.ops@[i]).operation != reads[at].operation by {}
}


/// Whether the one chunk that waits for `operation` is `chunk`, and every waiting
/// chunk lies in the slot of its own operation.
spec fn one_chunk_waits(slots: Seq<Slot>, operation: u64, chunk: StreamChunkCompletion) -> bool {
    &&& exists|i: int| 0 <= i < slots.len() && (#[trigger] slots[i]).id == operation
    &&& forall|i: int|
        0 <= i < slots.len() && (#[trigger] slots[i]).id == operation ==> slots[i].queued
            && slots[i].stream@ == seq![chunk]
    &&& forall|i: int, k: int|
        0 <= i < slots.len() && 0 <= k < slots[i].stream@.len() ==> (
        #[trigger] slots[i].stream@[k]).operation_id.spec_get() == slots[i].id
}

/// Whether no other stream has the operation of the stream at `at`.
pub open spec fn has_its_own_operation(streams: Seq<StreamShared>, at: int) -> bool {
    forall|i: int|
        0 <= i < streams.len() && i != at ==> (#[trigger] streams[i])@.lease.operation
            != streams[at]@.lease.operation
}

/// Whether the stream at `at` is as it was, and its operation under way as it was.
spec fn stream_stays(before: FileApiHandle, after: FileApiHandle, at: int) -> bool {
    let operation = before.streams@[at]@.lease.operation;
    &&& after.flag == before.flag
    &&& after.config == before.config
    &&& after.streams@.len() == before.streams@.len()
    &&& after.streams@[at]@ == before.streams@[at]@
    &&& forall|i: int|
        0 <= i < after.streams@.len() ==> (#[trigger] after.streams@[i])@.lease.operation
            == before.streams@[i]@.lease.operation
    &&& stream_op_of(after.stream_ops.ops@, operation) is Some
    &&& forall|i: int|
        0 <= i < after.stream_ops.ops@.len() && (#[trigger] after.stream_ops.ops@[i]).operation
            == operation ==> before.stream_ops.ops@.contains(after.stream_ops.ops@[i])
}

proof fn lemma_stays_on(first: FileApiHandle, second: FileApiHandle, third: FileApiHandle, at: int)
    requires
        0 <= at < first.streams@.len(),
        stream_stays(first, second, at),
        stream_stays(second, third, at),
    ensures
        stream_stays(first, third, at),
{
    let operation = first.streams@[at]@.lease.operation;
    let ops = third.stream_ops.ops@;
    let middle = second.stream_ops.ops@;
    assert forall|i: int| 0 <= i < ops.len() && (#[trigger] ops[i]).operation
        == operation implies first.stream_ops.ops@.contains(ops[i]) by {
        assert(middle.contains(ops[i]));
        let k = choose|k: int| 0 <= k < middle.len() && middle[k] == ops[i];
        assert(middle[k].operation == operation);
    }
    assert forall|i: int| 0 <= i < third.streams@.len() implies (
    #[trigger] third.streams@[i])@.lease.operation == first.streams@[i]@.lease.operation by {
        assert(second.streams@[i]@.lease.operation == first.streams@[i]@.lease.operation);
    }
}

proof fn lemma_untouched_stays(before: FileApiHandle, after: FileApiHandle, at: int)
    requires
        0 <= at < before.streams@.len(),
        after.flag == before.flag,
        after.config == before.config,
        after.streams@.len() == before.streams@.len(),
        forall|i: int|
            0 <= i < after.streams@.len() ==> (#[trigger] after.streams@[i])@
                == before.streams@[i]@,
        after.stream_ops.ops@ == before.stream_ops.ops@,
        stream_op_of(before.stream_ops.ops@, before.streams@[at]@.lease.operation) is Some,
    ensures
        stream_stays(before, after, at),
{
    let ops = before.stream_ops.ops@;
    assert forall|i: int| 0 <= i < ops.len() implies ops.contains(#[trigger] ops[i]) by {}
}

/// A change of another stream leaves this one, its operation and its chunk.
proof fn lemma_other_stream_changes(
    before: FileApiHandle,
    after: FileApiHandle,
    other: u64,
    found: int,
    at: int,
    chunk: StreamChunkCompletion,
)
    requires
        0 <= at < before.streams@.len(),
        0 <= found < before.streams@.len(),
        found != at,
        after.flag == before.flag,
        after.config == before.config,
        after.streams@ == before.streams@.update(found, after.streams@[found]),
        after.streams@[found]@.lease.operation == before.streams@[found]@.lease.operation,
        other != before.streams@[at]@.lease.operation,
        stream_gone_or_kept(before, after, other),
        stream_op_of(before.stream_ops.ops@, before.streams@[at]@.lease.operation) is Some,
    ensures
        stream_stays(before, after, at),
        one_chunk_waits(before.bridge.slots(), before.streams@[at]@.lease.operation, chunk)
            ==> one_chunk_waits(
            after.bridge.slots(),
            before.streams@[at]@.lease.operation,
            chunk,
        ),
{
    let operation = before.streams@[at]@.lease.operation;
    let ops = before.stream_ops.ops@;
    let kept = after.stream_ops.ops@;
    let slots = before.bridge.slots();
    let rest = after.bridge.slots();
    lemma_stream_op_of(ops, other);
    lemma_stream_op_of(ops, operation);
    lemma_stream_op_of(kept, operation);
    lemma_slot_of(slots, other);
    let mine = stream_op_of(ops, operation)->0;
    let unchanged = after.stream_ops == before.stream_ops && after.bridge == before.bridge;
    if !unchanged && stream_op_of(ops, other) is Some {
        let gone = stream_op_of(ops, other)->0;
        if mine < gone {
            assert(kept[mine] == ops[mine]);
        } else {
            assert(kept[mine - 1] == ops[mine]);
        }
        assert forall|i: int| 0 <= i < kept.len() && (#[trigger] kept[i]).operation
            == operation implies ops.contains(kept[i]) by {
            if i < gone {
                assert(kept[i] == ops[i]);
            } else {
                assert(kept[i] == ops[i + 1]);
            }
        }
        if one_chunk_waits(slots, operation, chunk) && slot_of(slots, other) is Some {
            let held = slot_of(slots, other)->0;
            let own = choose|i: int| 0 <= i < slots.len() && (#[trigger] slots[i]).id == operation;
            if own < held {
                assert(rest[own] == slots[own]);
                assert(rest[own].id == operation);
            } else {
                assert(rest[own - 1] == slots[own]);
                assert(rest[own - 1].id == operation);
            }
            assert forall|i: int| 0 <= i < rest.len() && (#[trigger] rest[i]).id
                == operation implies rest[i].queued && rest[i].stream@ == seq![chunk] by {
                let x = if i < held {
                    i
                } else {
                    i + 1
                };
                assert(rest[i] == slots[x]);
            }
            assert forall|i: int, k: int|
                0 <= i < rest.len() && 0 <= k < rest[i].stream@.len() implies (
            #[trigger] rest[i].stream@[k]).operation_id.spec_get() == rest[i].id by {
                let x = if i < held {
                    i
                } else {
                    i + 1
                };
                assert(rest[i] == slots[x]);
                assert(slots[x].stream@[k].operation_id.spec_get() == slots[x].id);
            }
        }
    } else {
        assert(kept == ops);
        assert(rest == slots);
        assert forall|i: int| 0 <= i < kept.len() implies ops.contains(#[trigger] kept[i]) by {}
    }
}

proof fn lemma_stream_at(streams: Seq<StreamShared>, operation: u64)
    ensures
        match stream_at(streams, operation) {
            Some(i) => 0 <= i < streams.len() && streams[i]@.lease.operation == operation,
            None => forall|i: int|
                0 <= i < streams.len() ==> (#[trigger] streams[i])@.lease.operation != operation,
        },
    decreases streams.len(),
{
    if streams.len() > 0 && streams.last().lease.operation != operation {
        let front = streams.drop_last();
        lemma_stream_at(front, operation);
        assert forall|i: int| 0 <= i < front.len() implies front[i] == #[trigger] streams[i] by {}
    }
}

proof fn lemma_cleanup_keeps_stream(
    before: FileApiHandle,
    run: CleanupRun,
    after: FileApiHandle,
    at: int,
    chunk: StreamChunkCompletion,
    count: int,
)
    requires
        is_cleanup_run(before, cleanup_targets(before), run, after),
        0 <= at < before.streams@.len(),
        has_its_own_operation(before.streams@, at),
        before.streams@[at]@.queue.len() > 0,
        stream_op_of(before.stream_ops.ops@, before.streams@[at]@.lease.operation) is Some,
        one_chunk_waits(before.bridge.slots(), before.streams@[at]@.lease.operation, chunk),
        0 <= count < run.states.len(),
    ensures
        stream_stays(before, run.states[count], at),
        one_chunk_waits(
            run.states[count].bridge.slots(),
            before.streams@[at]@.lease.operation,
            chunk,
        ),
    decreases count,
{
    let operation = before.streams@[at]@.lease.operation;
    if count == 0 {
        lemma_untouched_stays(before, run.states[0], at);
    } else {
        let k = count - 1;
        let target = cleanup_targets(before)[k];
        lemma_cleanup_keeps_stream(before, run, after, at, chunk, k);
        let here = run.states[k];
        let next = run.states[k + 1];
        assert(abandon_step(here, target, next, run.abandoned[k]));
        lemma_stream_at(here.streams@, target.0);
        match stream_at(here.streams@, target.0) {
            Some(found) => {
                assert(stream_gone_or_kept(here, next, target.0));
                if found != at {
                    assert(here.streams@[found]@.lease.operation
                        == before.streams@[found]@.lease.operation);
                    lemma_other_stream_changes(here, next, target.0, found, at, chunk);
                } else {
                    assert(next.streams@[at]@ == here.streams@[at]@);
                    lemma_untouched_stays(here, next, at);
                }
            },
            None => {
                lemma_untouched_stays(here, next, at);
            },
        }
        lemma_stays_on(before, here, next, at);
    }
}

proof fn lemma_streams_keep_stream(
    before: FileApiHandle,
    run: PollRun,
    after: FileApiHandle,
    at: int,
    chunk: StreamChunkCompletion,
    count: int,
)
    requires
        is_stream_run(before, run, after),
        0 <= at < before.streams@.len(),
        has_its_own_operation(before.streams@, at),
        stream_op_of(before.stream_ops.ops@, before.streams@[at]@.lease.operation) is Some,
        0 <= count < run.states.len(),
        forall|k: int|
            0 <= k < count ==> (#[trigger] stream_chunks(
                before.bridge.slots(),
            )[k]).operation_id.spec_get() != before.streams@[at]@.lease.operation,
    ensures
        stream_stays(before, run.states[count], at),
    decreases count,
{
    let operation = before.streams@[at]@.lease.operation;
    let chunks = stream_chunks(before.bridge.slots());
    if count == 0 {
        lemma_untouched_stays(before, run.states[0], at);
    } else {
        let k = count - 1;
        lemma_streams_keep_stream(before, run, after, at, chunk, k);
        let here = run.states[k];
        let next = run.states[k + 1];
        let completion = chunks[k];
        assert(stream_step(here, completion, next, run.outcomes[k]));
        lemma_stream_at(here.streams@, completion.operation_id.spec_get());
        match stream_at(here.streams@, completion.operation_id.spec_get()) {
            Some(found) => {
                let stream = here.streams@[found]@;
                let step = choose|step: StreamStep| #[trigger]
                    stream_settled(
                        stream,
                        here.stream_ops,
                        here.bridge,
                        here.config.limits,
                        completion,
                        here.flag@.closed,
                        next.streams@[found]@,
                        next.stream_ops,
                        next.bridge,
                        step,
                    );
                assert(stream_gone_or_kept(here, next, stream.lease.operation));
                assert(next.streams@[found]@.lease.operation == stream.lease.operation);
                lemma_other_stream_changes(here, next, stream.lease.operation, found, at, chunk);
            },
            None => {
                lemma_untouched_stays(here, next, at);
            },
        }
        lemma_stays_on(before, here, next, at);
    }
}

proof fn lemma_chunks_come_from_slots(slots: Seq<Slot>)
    ensures
        forall|j: int|
            0 <= j < stream_chunks(slots).len() ==> stream_chunk_waits(
                slots,
                #[trigger] stream_chunks(slots)[j],
            ),
        forall|i: int, k: int|
            0 <= i < slots.len() && slots[i].queued && 0 <= k < slots[i].stream@.len()
                ==> stream_chunks(slots).contains(#[trigger] slots[i].stream@[k]),
    decreases slots.len(),
{
    let chunks = stream_chunks(slots);
    if slots.len() > 0 {
        let front = slots.drop_last();
        let last = slots.last();
        let before = stream_chunks(front);
        lemma_chunks_come_from_slots(front);
        assert forall|j: int| 0 <= j < chunks.len() implies stream_chunk_waits(
            slots,
            #[trigger] chunks[j],
        ) by {
            if j < before.len() {
                assert(stream_chunk_waits(front, before[j]));
                let i = choose|i: int|
                    0 <= i < front.len() && (#[trigger] front[i]).stream@.contains(before[j]);
                assert(slots[i].stream@.contains(chunks[j]));
            } else {
                let k = j - before.len();
                assert(last.stream@[k] == chunks[j]);
                assert(slots[slots.len() - 1].stream@.contains(chunks[j]));
            }
        }
        assert forall|i: int, k: int|
            0 <= i < slots.len() && slots[i].queued && 0 <= k
                < slots[i].stream@.len() implies chunks.contains(#[trigger] slots[i].stream@[k]) by {
            if i < front.len() {
                assert(front[i] == slots[i]);
                assert(before.contains(front[i].stream@[k]));
                let j = choose|j: int| 0 <= j < before.len() && before[j] == front[i].stream@[k];
                assert(chunks[j] == slots[i].stream@[k]);
            } else {
                assert(chunks[before.len() + k] == slots[i].stream@[k]);
            }
        }
    }
}

/// Whether `chunk` waits in some slot.
spec fn stream_chunk_waits(slots: Seq<Slot>, chunk: StreamChunkCompletion) -> bool {
    exists|i: int| 0 <= i < slots.len() && (#[trigger] slots[i]).stream@.contains(chunk)
}

proof fn lemma_first_chunk(
    slots: Seq<Slot>,
    operation: u64,
    chunk: StreamChunkCompletion,
) -> (first: int)
    requires
        one_chunk_waits(slots, operation, chunk),
        chunk.operation_id.spec_get() == operation,
    ensures
        0 <= first < stream_chunks(slots).len(),
        stream_chunks(slots)[first] == chunk,
        forall|k: int|
            0 <= k < first ==> (#[trigger] stream_chunks(slots)[k]).operation_id.spec_get()
                != operation,
{
    let chunks = stream_chunks(slots);
    lemma_chunks_come_from_slots(slots);
    let own = choose|i: int| 0 <= i < slots.len() && (#[trigger] slots[i]).id == operation;
    assert(slots[own].stream@[0] == chunk);
    assert(chunks.contains(chunk));
    let place = choose|j: int| 0 <= j < chunks.len() && chunks[j] == chunk;
    let first = lemma_least(chunks, operation, place);
    assert(stream_chunk_waits(slots, chunks[first]));
    let i = choose|i: int| 0 <= i < slots.len() && (#[trigger] slots[i]).stream@.contains(
        chunks[first],
    );
    let k = choose|k: int|
        0 <= k < slots[i].stream@.len() && slots[i].stream@[k] == chunks[first];
    assert(slots[i].stream@[k].operation_id.spec_get() == slots[i].id);
    assert(slots[i].stream@ == seq![chunk]);
    first
}

proof fn lemma_least(
    chunks: Seq<StreamChunkCompletion>,
    operation: u64,
    place: int,
) -> (first: int)
    requires
        0 <= place < chunks.len(),
        chunks[place].operation_id.spec_get() == operation,
    ensures
        0 <= first <= place,
        chunks[first].operation_id.spec_get() == operation,
        forall|k: int|
            0 <= k < first ==> (#[trigger] chunks[k]).operation_id.spec_get() != operation,
    decreases place,
{
    if exists|k: int|
        0 <= k < place && (#[trigger] chunks[k]).operation_id.spec_get() == operation {
        let k = choose|k: int|
            0 <= k < place && (#[trigger] chunks[k]).operation_id.spec_get() == operation;
        lemma_least(chunks, operation, k)
    } else {
        place
    }
}

/// Whether `job` hands the bytes to the read that waits for them.
pub open spec fn packages(
    job: PollJob,
    operation: u64,
    demand: streams::PendingRead,
    bytes: Seq<u8>,
) -> bool {
    job matches PollJob::Stream { operation: settled, step } && settled == operation && (
    step matches StreamStep::Package { demand: wanted, bytes: payload } && wanted == demand
        && payload@ == bytes)
}

/// Whether some of `jobs` does.
pub open spec fn some_job_packages(
    jobs: Seq<PollJob>,
    operation: u64,
    demand: streams::PendingRead,
    bytes: Seq<u8>,
) -> bool {
    exists|j: int| 0 <= j < jobs.len() && packages(#[trigger] jobs[j], operation, demand, bytes)
}

/// A poll hands a chunk that was delivered for a stream of bytes to the oldest
/// read of that stream, in full.
pub proof fn lemma_polls_package_what_was_delivered(
    handle: &mut FileApiHandle,
    found: Option<(FileApiContextId, RegistrationIdentity)>,
    outcome: PollOutcome,
    at: int,
    slot: int,
    chunk: StreamChunkCompletion,
    bytes: Vec<u8>,
)
    requires
        handle.wf(),
        call_ensures(FileApiHandle::poll_io, (handle, found), Ok(outcome)),
        !handle.flag@.closed,
        0 <= at < handle.streams@.len(),
        has_its_own_operation(handle.streams@, at),
        handle.streams@[at]@.mode == StreamMode::Bytes,
        !handle.streams@[at]@.lease.terminal,
        handle.streams@[at]@.queue.len() > 0,
        // One chunk of it waits.
        0 <= slot < handle.bridge.slots().len(),
        handle.bridge.slots()[slot].id == handle.streams@[at]@.lease.operation,
        handle.bridge.slots()[slot].queued,
        handle.bridge.slots()[slot].stream@ == seq![chunk],
        chunk.kind == ChunkKind::Chunk(bytes),
        bytes@.len() > 0,
        // It is of the current generation.
        chunk.generation == handle.streams@[at]@.queue[0].generation,
        streams::under_way(handle.stream_ops.ops@, handle.streams@[at]@.lease.operation),
        forall|i: int|
            0 <= i < handle.stream_ops.ops@.len() && (
            #[trigger] handle.stream_ops.ops@[i]).operation
                == handle.streams@[at]@.lease.operation ==> handle.stream_ops.ops@[i].generation
                == chunk.generation,
    ensures
        some_job_packages(
            outcome.jobs@,
            old(handle).streams@[at]@.lease.operation,
            old(handle).streams@[at]@.queue[0],
            bytes@,
        ),
{
    let before = *handle;
    let after = *final(handle);
    let slots = before.bridge.slots();
    let stream = before.streams@[at]@;
    let operation = stream.lease.operation;
    lemma_stream_op_of(before.stream_ops.ops@, operation);
    let course = choose|course: PollCourse| #[trigger]
        is_poll_course(before, course, after, outcome);
    let readers = choose|run: ReaderRun|
        {
            &&& #[trigger] is_reader_run(before, run, course.after_readers)
            &&& course.reader_jobs == jobs_of(run.outcomes)
            &&& outcome.wake == (run.outcomes.len() < reader_chunks(slots).len())
        };
    assert forall|i: int, k: int|
        0 <= i < slots.len() && 0 <= k < slots[i].stream@.len() implies (
    #[trigger] slots[i].stream@[k]).operation_id.spec_get() == slots[i].id by {
        assert(crate::bridge::own_completion(slots[i]));
    }
    assert(slots[slot].stream@[0] == chunk);
    assert(one_chunk_waits(slots, operation, chunk));
    // The readers come first.
    let first = course.after_readers;
    lemma_readers_keep_chunks(before, readers, first);
    let early = first.bridge.slots();
    assert(early[slot].id == operation);
    assert forall|i: int, k: int|
        0 <= i < early.len() && 0 <= k < early[i].stream@.len() implies (
    #[trigger] early[i].stream@[k]).operation_id.spec_get() == early[i].id by {
        assert(slots[i].stream@[k].operation_id.spec_get() == slots[i].id);
    }
    assert(one_chunk_waits(early, operation, chunk));
    lemma_untouched_stays(before, first, at);
    // Then streams that nobody can reach are cleared away.
    let cleanup = choose|run: CleanupRun| #[trigger]
        is_cleanup_run(first, cleanup_targets(first), run, course.after_cleanup) && course.cleaned
            == abandoned_of(cleanup_targets(first), run.abandoned);
    lemma_cleanup_keeps_stream(
        first,
        cleanup,
        course.after_cleanup,
        at,
        chunk,
        cleanup.states.len() - 1,
    );
    let second = course.after_cleanup;
    lemma_stays_on(before, first, second, at);
    // Then the chunks of the streams are settled.
    let run = choose|run: PollRun| #[trigger]
        is_stream_run(second, run, course.after_streams) && course.stream_jobs == jobs_of(
            run.outcomes,
        );
    let chunks = stream_chunks(second.bridge.slots());
    let place = lemma_first_chunk(second.bridge.slots(), operation, chunk);
    assert(has_its_own_operation(second.streams@, at)) by {
        assert forall|i: int| 0 <= i < second.streams@.len() && i != at implies (
        #[trigger] second.streams@[i])@.lease.operation != second.streams@[at]@.lease.operation by {
            assert(second.streams@[i]@.lease.operation == before.streams@[i]@.lease.operation);
        }
    }
    lemma_streams_keep_stream(second, run, course.after_streams, at, chunk, place);
    let here = run.states[place];
    let next = run.states[place + 1];
    lemma_stays_on(before, second, here, at);
    assert(stream_step(here, chunks[place], next, run.outcomes[place]));
    lemma_stream_at(here.streams@, operation);
    let there = stream_at(here.streams@, operation)->0;
    assert(here.streams@[at]@.lease.operation == operation);
    assert(there == at) by {
        if there != at {
            assert(here.streams@[there]@.lease.operation
                == before.streams@[there]@.lease.operation);
        }
    }
    let step = choose|step: StreamStep| #[trigger]
        stream_settled(
            here.streams@[at]@,
            here.stream_ops,
            here.bridge,
            here.config.limits,
            chunk,
            here.flag@.closed,
            next.streams@[at]@,
            next.stream_ops,
            next.bridge,
            step,
        ) && run.outcomes[place] == stream_outcome(operation, step);
    let ops = here.stream_ops.ops@;
    lemma_stream_op_of(ops, operation);
    let mine = stream_op_of(ops, operation)->0;
    assert(before.stream_ops.ops@.contains(ops[mine]));
    let k = choose|k: int|
        0 <= k < before.stream_ops.ops@.len() && before.stream_ops.ops@[k] == ops[mine];
    assert(before.stream_ops.ops@[k].operation == operation);
    let job = run.outcomes[place]->0;
    assert(packages(job, operation, stream.queue[0], bytes@));
    lemma_job_is_kept(run.outcomes, place);
    let jobs = course.stream_jobs;
    let j = choose|j: int| 0 <= j < jobs.len() && jobs[j] == job;
    assert(outcome.jobs@[course.reader_jobs.len() + j] == job);
}

proof fn lemma_readers_keep_chunks(before: FileApiHandle, run: ReaderRun, after: FileApiHandle)
    requires
        is_reader_run(before, run, after),
    ensures
        after.flag == before.flag,
        after.config == before.config,
        after.streams == before.streams,
        after.stream_ops == before.stream_ops,
        after.bridge.slots().len() == before.bridge.slots().len(),
        forall|i: int|
            0 <= i < after.bridge.slots().len() ==> {
                &&& (#[trigger] after.bridge.slots()[i]).id == before.bridge.slots()[i].id
                &&& after.bridge.slots()[i].queued == before.bridge.slots()[i].queued
                &&& after.bridge.slots()[i].stream == before.bridge.slots()[i].stream
            },
{
    let chunks = reader_chunks(before.bridge.slots());
    let count = run.outcomes.len() as int;
    let left = chunks.len() - count;
    lemma_reader_states(run.states, chunks, run.outcomes, count);
    lemma_put_back_keeps_streams(run, chunks, left, left);
}

proof fn lemma_put_back_keeps_streams(
    run: ReaderRun,
    chunks: Seq<FileReaderChunkCompletion>,
    left: int,
    count: int,
)
    requires
        0 <= count <= left < run.bridges.len(),
        left <= chunks.len(),
        forall|k: int|
            0 <= k < left ==> #[trigger] put_back(
                run.bridges[k],
                chunks[chunks.len() - 1 - k],
                run.bridges[k + 1],
            ),
    ensures
        run.bridges[count].slots().len() == run.bridges[0].slots().len(),
        forall|i: int|
            0 <= i < run.bridges[count].slots().len() ==> {
                &&& (#[trigger] run.bridges[count].slots()[i]).id == run.bridges[0].slots()[i].id
                &&& run.bridges[count].slots()[i].queued == run.bridges[0].slots()[i].queued
                &&& run.bridges[count].slots()[i].stream == run.bridges[0].slots()[i].stream
            },
    decreases count,
{
    if count > 0 {
        let k = count - 1;
        lemma_put_back_keeps_streams(run, chunks, left, k);
        let chunk = chunks[chunks.len() - 1 - k];
        let bridge = run.bridges[k];
        let next = run.bridges[k + 1];
        let was = bridge.slots();
        let slots = next.slots();
        assert(put_back(bridge, chunk, next));
        let accepted = choose|accepted: bool| requeued(bridge, chunk, next, accepted);
        lemma_slot_of(was, chunk.operation_id.spec_get());
        assert forall|i: int| 0 <= i < slots.len() implies {
            &&& (#[trigger] slots[i]).id == was[i].id
            &&& slots[i].queued == was[i].queued
            &&& slots[i].stream == was[i].stream
        } by {
            if accepted {
                let at = slot_of(was, chunk.operation_id.spec_get())->0;
                if i != at {
                    assert(slots[i] == was[i]);
                }
            }
        }
    }
}


/// Whether `job` hands the chunk to a reader, with the packaging state of its read.
pub open spec fn pumps(
    job: PollJob,
    reader: u64,
    operation: u64,
    kind: ChunkKind,
    state: PumpState,
) -> bool {
    job matches PollJob::Reader { reader: key, job: pump } && key == reader && pump.operation
        == operation && pump.chunk == kind && pump.state == state
}

/// Whether some of `jobs` does.
pub open spec fn some_job_pumps(
    jobs: Seq<PollJob>,
    reader: u64,
    operation: u64,
    kind: ChunkKind,
    state: PumpState,
) -> bool {
    exists|j: int| 0 <= j < jobs.len() && pumps(#[trigger] jobs[j], reader, operation, kind, state)
}

/// A poll without a budget hands a chunk that was delivered for a read to the
/// reader that waits for it, whatever became of the request.
pub proof fn lemma_polls_pump_what_was_delivered(
    handle: &mut FileApiHandle,
    found: Option<(FileApiContextId, RegistrationIdentity)>,
    outcome: PollOutcome,
    at: int,
    op: int,
    slot: int,
    chunk: FileReaderChunkCompletion,
)
    requires
        handle.wf(),
        call_ensures(FileApiHandle::poll_io, (handle, found), Ok(outcome)),
        !handle.flag@.closed,
        handle.budget is None,
        0 <= at < handle.readers@.len(),
        forall|i: int|
            0 <= i < handle.readers@.len() && i != at ==> (#[trigger] handle.readers@[i]).key
                != handle.readers@[at].key,
        // A read of it waits for its chunk.
        0 <= op < handle.reader_ops.ops@.len(),
        handle.reader_ops.ops@[op].reader == handle.readers@[at].key,
        handle.reader_ops.ops@[op].pump is Some,
        handle.reader_ops.ops@[op].generation == chunk.generation,
        handle.readers@[at].generation == chunk.generation,
        // And that chunk is there.
        0 <= slot < handle.bridge.slots().len(),
        handle.bridge.slots()[slot].id == handle.reader_ops.ops@[op].operation,
        handle.bridge.slots()[slot].queued,
        handle.bridge.slots()[slot].reader@ == seq![chunk],
    ensures
        some_job_pumps(
            outcome.jobs@,
            old(handle).readers@[at].key,
            old(handle).reader_ops.ops@[op].operation,
            chunk.kind,
            old(handle).reader_ops.ops@[op].pump->0,
        ),
{
    let before = *handle;
    let after = *final(handle);
    let slots = before.bridge.slots();
    let operation = before.reader_ops.ops@[op].operation;
    let chunks = reader_chunks(slots);
    let course = choose|course: PollCourse| #[trigger]
        is_poll_course(before, course, after, outcome);
    let run = choose|run: ReaderRun|
        {
            &&& #[trigger] is_reader_run(before, run, course.after_readers)
            &&& course.reader_jobs == jobs_of(run.outcomes)
            &&& outcome.wake == (run.outcomes.len() < chunks.len())
        };
    assert(run.outcomes.len() == chunks.len());
    assert(crate::bridge::own_completion(slots[slot]));
    assert(slots[slot].reader@[0] == chunk);
    assert(chunk.operation_id.spec_get() == operation);
    lemma_reader_chunks_come_from_slots(slots);
    assert(chunks.contains(chunk));
    let some_place = choose|j: int| 0 <= j < chunks.len() && chunks[j] == chunk;
    let place = lemma_least_reader(chunks, operation, some_place);
    assert(chunk_waits(slots, chunks[place]));
    let i = choose|i: int|
        0 <= i < slots.len() && (#[trigger] slots[i]).queued && slots[i].reader@.contains(
            chunks[place],
        );
    assert(crate::bridge::own_completion(slots[i]));
    assert(slots[i].id == operation);
    assert(i == slot);
    assert(chunks[place] == chunk);
    lemma_other_chunks_leave_the_read(before, run, course.after_readers, op, place);
    let here = run.states[place];
    let next = run.states[place + 1];
    assert(reader_step(here, chunks[place], next, run.outcomes[place]));
    let ops = here.reader_ops.ops@;
    lemma_op_of(ops, operation);
    let mine = op_of(ops, operation)->0;
    assert(mine == op);
    lemma_reader_at(here.readers@, before.readers@[at].key);
    assert(reader_at(here.readers@, before.readers@[at].key) == Some(at));
    let job = run.outcomes[place]->0;
    assert(run.outcomes[place] is Some);
    assert(pumps(
        job,
        before.readers@[at].key,
        operation,
        chunk.kind,
        before.reader_ops.ops@[op].pump->0,
    ));
    lemma_job_is_kept(run.outcomes, place);
    let jobs = course.reader_jobs;
    let j = choose|j: int| 0 <= j < jobs.len() && jobs[j] == job;
    assert(outcome.jobs@[j] == job);
}

proof fn lemma_reader_at(readers: Seq<FileReaderNative>, key: u64)
    ensures
        match reader_at(readers, key) {
            Some(i) => 0 <= i < readers.len() && readers[i].key == key,
            None => forall|i: int| 0 <= i < readers.len() ==> (#[trigger] readers[i]).key != key,
        },
    decreases readers.len(),
{
    if readers.len() > 0 && readers.last().key != key {
        let front = readers.drop_last();
        lemma_reader_at(front, key);
        assert forall|i: int| 0 <= i < front.len() implies front[i] == #[trigger] readers[i] by {}
    }
}

proof fn lemma_least_reader(
    chunks: Seq<FileReaderChunkCompletion>,
    operation: u64,
    place: int,
) -> (first: int)
    requires
        0 <= place < chunks.len(),
        chunks[place].operation_id.spec_get() == operation,
    ensures
        0 <= first <= place,
        chunks[first].operation_id.spec_get() == operation,
        forall|k: int|
            0 <= k < first ==> (#[trigger] chunks[k]).operation_id.spec_get() != operation,
    decreases place,
{
    if exists|k: int|
        0 <= k < place && (#[trigger] chunks[k]).operation_id.spec_get() == operation {
        let k = choose|k: int|
            0 <= k < place && (#[trigger] chunks[k]).operation_id.spec_get() == operation;
        lemma_least_reader(chunks, operation, k)
    } else {
        place
    }
}

proof fn lemma_reader_chunks_come_from_slots(slots: Seq<Slot>)
    ensures
        forall|j: int|
            0 <= j < reader_chunks(slots).len() ==> chunk_waits(
                slots,
                #[trigger] reader_chunks(slots)[j],
            ),
        forall|i: int, k: int|
            0 <= i < slots.len() && slots[i].queued && 0 <= k < slots[i].reader@.len()
                ==> reader_chunks(slots).contains(#[trigger] slots[i].reader@[k]),
    decreases slots.len(),
{
    let chunks = reader_chunks(slots);
    if slots.len() > 0 {
        let front = slots.drop_last();
        let last = slots.last();
        let before = reader_chunks(front);
        lemma_reader_chunks_come_from_slots(front);
        assert forall|j: int| 0 <= j < chunks.len() implies chunk_waits(
            slots,
            #[trigger] chunks[j],
        ) by {
            if j < before.len() {
                assert(chunk_waits(front, before[j]));
                let i = choose|i: int|
                    0 <= i < front.len() && (#[trigger] front[i]).queued
                        && front[i].reader@.contains(before[j]);
                assert(slots[i].queued && slots[i].reader@.contains(chunks[j]));
            } else {
                let k = j - before.len();
                assert(last.reader@[k] == chunks[j]);
                assert(slots[slots.len() - 1].queued);
            }
        }
        assert forall|i: int, k: int|
            0 <= i < slots.len() && slots[i].queued && 0 <= k
                < slots[i].reader@.len() implies chunks.contains(#[trigger] slots[i].reader@[k]) by {
            if i < front.len() {
                assert(front[i] == slots[i]);
                assert(before.contains(front[i].reader@[k]));
                let j = choose|j: int| 0 <= j < before.len() && before[j] == front[i].reader@[k];
                assert(chunks[j] == slots[i].reader@[k]);
            } else {
                assert(chunks[before.len() + k] == slots[i].reader@[k]);
            }
        }
    }
}

proof fn lemma_other_chunks_leave_the_read(
    before: FileApiHandle,
    run: ReaderRun,
    after: FileApiHandle,
    op: int,
    count: int,
)
    requires
        is_reader_run(before, run, after),
        0 <= op < before.reader_ops.ops@.len(),
        0 <= count < run.states.len(),
        forall|k: int|
            0 <= k < count ==> (#[trigger] reader_chunks(
                before.bridge.slots(),
            )[k]).operation_id.spec_get() != before.reader_ops.ops@[op].operation,
        forall|i: int, j: int|
            0 <= i < j < before.reader_ops.ops@.len() ==> (
            #[trigger] before.reader_ops.ops@[i]).operation != (
            #[trigger] before.reader_ops.ops@[j]).operation,
    ensures
        run.states[count].readers == before.readers,
        run.states[count].flag == before.flag,
        run.states[count].reader_ops.ops@.len() == before.reader_ops.ops@.len(),
        run.states[count].reader_ops.ops@[op] == before.reader_ops.ops@[op],
        forall|i: int|
            0 <= i < before.reader_ops.ops@.len() ==> (
            #[trigger] run.states[count].reader_ops.ops@[i]).operation
                == before.reader_ops.ops@[i].operation,
    decreases count,
{
    let chunks = reader_chunks(before.bridge.slots());
    if count > 0 {
        let k = count - 1;
        lemma_other_chunks_leave_the_read(before, run, after, op, k);
        let here = run.states[k];
        let next = run.states[k + 1];
        assert(reader_step(here, chunks[k], next, run.outcomes[k]));
        lemma_op_of(here.reader_ops.ops@, chunks[k].operation_id.spec_get());
        assert(here.reader_ops.ops@[op].operation == before.reader_ops.ops@[op].operation);
        assert forall|i: int| 0 <= i < before.reader_ops.ops@.len() implies (
        #[trigger] next.reader_ops.ops@[i]).operation == before.reader_ops.ops@[i].operation by {
            assert(here.reader_ops.ops@[i].operation == before.reader_ops.ops@[i].operation);
        }
    }
}


/// A stream that no script object can reach any more, that has not ended and for
/// which no read waits, is ended by the next cleanup: its operation is over, its
/// slot is free, and the host is told to give up its work.
pub proof fn lemma_unreachable_streams_are_cleared_away(
    handle: &mut FileApiHandle,
    ended: &mut Vec<u64>,
    at: int,
)
    requires
        handle.wf(),
        call_ensures(FileApiHandle::drain_stream_cleanups, (handle, ended), ()),
        !handle.flag@.closed,
        0 <= at < handle.streams@.len(),
        has_its_own_operation(handle.streams@, at),
        !handle.streams@[at]@.stream_registered,
        !handle.streams@[at]@.reader_registered,
        handle.streams@[at]@.queue.len() == 0,
        !handle.streams@[at]@.in_flight,
        !handle.streams@[at]@.lease.terminal,
        !handle.streams@[at]@.lease.released,
        streams::under_way(handle.stream_ops.ops@, handle.streams@[at]@.lease.operation),
        forall|i: int|
            0 <= i < handle.stream_ops.ops@.len() && (
            #[trigger] handle.stream_ops.ops@[i]).operation
                == handle.streams@[at]@.lease.operation ==> handle.stream_ops.ops@[i].generation
                == handle.streams@[at]@.generation,
    ensures
        !streams::under_way(
            final(handle).stream_ops.ops@,
            old(handle).streams@[at]@.lease.operation,
        ),
        final(ended)@.contains(old(handle).streams@[at]@.lease.operation),
{
    let before = *handle;
    let after = *final(handle);
    let stream = before.streams@[at]@;
    let operation = stream.lease.operation;
    let ops = before.stream_ops.ops@;
    lemma_stream_op_of(ops, operation);
    let targets = cleanup_targets(before);
    let mine = stream_op_of(ops, operation)->0;
    assert(ops[mine].generation == stream.generation);
    let noted = noted_targets(before.cleanups@, before.bridge.context().spec_get());
    let wanted = (operation, stream.generation);
    assert(targets[noted.len() + mine] == wanted);
    let abandoned = choose|abandoned: Seq<u64>| #[trigger]
        cleaned_up(before, after, abandoned) && final(ended)@ == old(ended)@ + abandoned;
    let run = choose|run: CleanupRun| #[trigger]
        is_cleanup_run(before, targets, run, after) && abandoned == abandoned_of(
            targets,
            run.abandoned,
        );
    let place = lemma_first_target(targets, wanted, noted.len() + mine);
    lemma_others_are_cleared_first(before, run, after, at, place);
    let here = run.states[place];
    let next = run.states[place + 1];
    assert(abandon_step(here, targets[place], next, run.abandoned[place]));
    lemma_stream_at(here.streams@, operation);
    let there = stream_at(here.streams@, operation)->0;
    assert(here.streams@[at]@.lease.operation == operation);
    assert(there == at) by {
        if there != at {
            assert(here.streams@[there]@.lease.operation
                == before.streams@[there]@.lease.operation);
        }
    }
    assert(run.abandoned[place]);
    lemma_stream_op_of(here.stream_ops.ops@, operation);
    lemma_kept_distinct(before, run, after, place);
    streams::lemma_stream_released_once(here.stream_ops.ops@, operation);
    lemma_stream_op_of(next.stream_ops.ops@, operation);
    lemma_over_stays_over(before, run, after, operation, place + 1, run.states.len() - 1);
    lemma_abandoned_is_named(targets, run.abandoned, place);
    let j = choose|j: int| 0 <= j < abandoned.len() && abandoned[j] == operation;
    assert(final(ended)@[old(ended)@.len() + j] == operation);
}

proof fn lemma_first_target(
    targets: Seq<(u64, u64)>,
    wanted: (u64, u64),
    place: int,
) -> (first: int)
    requires
        0 <= place < targets.len(),
        targets[place] == wanted,
    ensures
        0 <= first <= place,
        targets[first] == wanted,
        forall|k: int| 0 <= k < first ==> #[trigger] targets[k] != wanted,
    decreases place,
{
    if exists|k: int| 0 <= k < place && #[trigger] targets[k] == wanted {
        let k = choose|k: int| 0 <= k < place && #[trigger] targets[k] == wanted;
        lemma_first_target(targets, wanted, k)
    } else {
        place
    }
}

proof fn lemma_others_are_cleared_first(
    before: FileApiHandle,
    run: CleanupRun,
    after: FileApiHandle,
    at: int,
    count: int,
)
    requires
        is_cleanup_run(before, cleanup_targets(before), run, after),
        0 <= at < before.streams@.len(),
        has_its_own_operation(before.streams@, at),
        stream_op_of(before.stream_ops.ops@, before.streams@[at]@.lease.operation) is Some,
        0 <= count < run.states.len(),
        forall|k: int|
            0 <= k < count ==> #[trigger] cleanup_targets(before)[k] != (
                before.streams@[at]@.lease.operation,
                before.streams@[at]@.generation,
            ),
    ensures
        stream_stays(before, run.states[count], at),
    decreases count,
{
    if count == 0 {
        lemma_untouched_stays(before, run.states[0], at);
    } else {
        let k = count - 1;
        let target = cleanup_targets(before)[k];
        lemma_others_are_cleared_first(before, run, after, at, k);
        let here = run.states[k];
        let next = run.states[k + 1];
        assert(abandon_step(here, target, next, run.abandoned[k]));
        lemma_stream_at(here.streams@, target.0);
        match stream_at(here.streams@, target.0) {
            Some(found) => {
                assert(stream_gone_or_kept(here, next, target.0));
                if found != at {
                    assert(here.streams@[found]@.lease.operation
                        == before.streams@[found]@.lease.operation);
                    lemma_other_stream_changes(here, next, target.0, found, at, arbitrary());
                } else {
                    assert(next.streams@[at]@ == here.streams@[at]@);
                    lemma_untouched_stays(here, next, at);
                }
            },
            None => {
                lemma_untouched_stays(here, next, at);
            },
        }
        lemma_stays_on(before, here, next, at);
    }
}

proof fn lemma_kept_distinct(
    before: FileApiHandle,
    run: CleanupRun,
    after: FileApiHandle,
    count: int,
)
    requires
        is_cleanup_run(before, cleanup_targets(before), run, after),
        streams::stream_ops_distinct(before.stream_ops.ops@),
        0 <= count < run.states.len(),
    ensures
        streams::stream_ops_distinct(run.states[count].stream_ops.ops@),
    decreases count,
{
    if count > 0 {
        let k = count - 1;
        lemma_kept_distinct(before, run, after, k);
        let here = run.states[k];
        let next = run.states[k + 1];
        let target = cleanup_targets(before)[k];
        assert(abandon_step(here, target, next, run.abandoned[k]));
        let ops = here.stream_ops.ops@;
        let kept = next.stream_ops.ops@;
        lemma_stream_op_of(ops, target.0);
        if kept != ops {
            let gone = stream_op_of(ops, target.0)->0;
            assert forall|i: int, j: int| 0 <= i < j < kept.len() implies (
            #[trigger] kept[i]).operation != (#[trigger] kept[j]).operation by {
                let x = if i < gone {
                    i
                } else {
                    i + 1
                };
                let y = if j < gone {
                    j
                } else {
                    j + 1
                };
                assert(ops[x].operation != ops[y].operation);
            }
        }
    }
}

proof fn lemma_over_stays_over(
    before: FileApiHandle,
    run: CleanupRun,
    after: FileApiHandle,
    operation: u64,
    from: int,
    to: int,
)
    requires
        is_cleanup_run(before, cleanup_targets(before), run, after),
        0 <= from <= to < run.states.len(),
        !streams::under_way(run.states[from].stream_ops.ops@, operation),
    ensures
        !streams::under_way(run.states[to].stream_ops.ops@, operation),
    decreases to - from,
{
    if from < to {
        let k = to - 1;
        lemma_over_stays_over(before, run, after, operation, from, k);
        let here = run.states[k];
        let next = run.states[k + 1];
        let target = cleanup_targets(before)[k];
        assert(abandon_step(here, target, next, run.abandoned[k]));
        let ops = here.stream_ops.ops@;
        let kept = next.stream_ops.ops@;
        lemma_stream_op_of(ops, target.0);
        assert forall|i: int| 0 <= i < kept.len() implies (#[trigger] kept[i]).operation
            != operation by {
            if kept != ops {
                let gone = stream_op_of(ops, target.0)->0;
                let x = if i < gone {
                    i
                } else {
                    i + 1
                };
                assert(kept[i] == ops[x]);
                assert(ops[x].operation != operation);
            } else {
                assert(ops[i].operation != operation);
            }
        }
    }
}

proof fn lemma_abandoned_is_named(targets: Seq<(u64, u64)>, abandoned: Seq<bool>, at: int)
    requires
        targets.len() == abandoned.len(),
        0 <= at < targets.len(),
        abandoned[at],
    ensures
        abandoned_of(targets, abandoned).contains(targets[at].0),
    decreases targets.len(),
{
    let named = abandoned_of(targets, abandoned);
    let front = targets.drop_last();
    if at < front.len() {
        lemma_abandoned_is_named(front, abandoned.drop_last(), at);
        let before = abandoned_of(front, abandoned.drop_last());
        let j = choose|j: int| 0 <= j < before.len() && before[j] == front[at].0;
        assert(named[j] == targets[at].0);
    } else {
        assert(named[named.len() - 1] == targets[at].0);
    }
}

} // verus!
