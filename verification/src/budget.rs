//! What a poll budget leaves: the reader chunks that it did not settle wait, in
//! their order, for the next poll.

use vstd::prelude::*;

use crate::bridge::{
    ids_increase, is_chunked, is_drained_slot, lemma_slot_of, lemma_slot_of_is, own_completion,
    reader_chunks, readers_drained, requeued, slot_of, slot_released, IoBridge, Slot,
};
use crate::filereader::{op_of, ReaderOp};
use crate::handle::{not_a_reader, not_a_stream, FileApiHandle};
use crate::io::FileReaderChunkCompletion;
use crate::poll::{
    abandon_step, abandoned_of, cleanup_targets, is_cleanup_run, is_poll_course, is_read_run,
    is_reader_run, is_stream_run, jobs_of, polled, put_back, read_step, reader_step, stream_at,
    stream_gone_or_kept, stream_step, within_budget, CleanupRun, PollCourse, PollJob, PollOutcome,
    PollRun, ReaderRun,
};
use crate::streams::{stream_op_of, stream_settled, StreamOp, StreamStep};

verus! {

/// The reader chunks that a slot adds to those that wait.
pub open spec fn waiting_chunks(slot: Slot) -> Seq<FileReaderChunkCompletion> {
    if slot.queued {
        slot.reader@
    } else {
        Seq::empty()
    }
}

/// Whether every reader chunk that waits is one of a reader.
pub open spec fn chunks_have_readers(handle: FileApiHandle) -> bool {
    let slots = handle.bridge.slots();
    forall|i: int|
        0 <= i < slots.len() && waiting_chunks(slots[i]).len() > 0 ==> !not_a_reader(
            handle,
            (#[trigger] slots[i]).id,
        )
}

/// Every slot with reader chunks reads in chunks and belongs to a reader and to
/// no stream.
spec fn readers_wait(handle: FileApiHandle) -> bool {
    let slots = handle.bridge.slots();
    &&& ids_increase(slots)
    &&& forall|i: int|
        0 <= i < slots.len() && waiting_chunks(slots[i]).len() > 0 ==> {
            &&& (#[trigger] slots[i]).chunked
            &&& !not_a_reader(handle, slots[i].id)
            &&& not_a_stream(handle, slots[i].id)
        }
}

/// Whether `after` has the readers of `before`, and the same chunks wait.
spec fn chunks_kept(before: FileApiHandle, after: FileApiHandle) -> bool {
    &&& readers_wait(after)
    &&& reader_chunks(after.bridge.slots()) == reader_chunks(before.bridge.slots())
    &&& after.budget == before.budget
}

proof fn lemma_no_chunks(slots: Seq<Slot>)
    requires
        forall|i: int|
            0 <= i < slots.len() ==> waiting_chunks(#[trigger] slots[i]) == Seq::<
                FileReaderChunkCompletion,
            >::empty(),
    ensures
        reader_chunks(slots) == Seq::<FileReaderChunkCompletion>::empty(),
    decreases slots.len(),
{
    if slots.len() > 0 {
        let front = slots.drop_last();
        assert forall|i: int| 0 <= i < front.len() implies waiting_chunks(#[trigger] front[i])
            == Seq::<FileReaderChunkCompletion>::empty() by {
            assert(front[i] == slots[i]);
        }
        lemma_no_chunks(front);
        assert(waiting_chunks(slots[slots.len() - 1]) == Seq::<FileReaderChunkCompletion>::empty());
        assert(reader_chunks(slots) =~= Seq::<FileReaderChunkCompletion>::empty());
    }
}

proof fn lemma_same_chunks(slots: Seq<Slot>, other: Seq<Slot>)
    requires
        slots.len() == other.len(),
        forall|i: int|
            0 <= i < slots.len() ==> waiting_chunks(#[trigger] slots[i]) == waiting_chunks(
                other[i],
            ),
    ensures
        reader_chunks(slots) == reader_chunks(other),
    decreases slots.len(),
{
    if slots.len() > 0 {
        let front = slots.drop_last();
        let rest = other.drop_last();
        assert forall|i: int| 0 <= i < front.len() implies waiting_chunks(#[trigger] front[i])
            == waiting_chunks(rest[i]) by {
            assert(front[i] == slots[i]);
        }
        lemma_same_chunks(front, rest);
        assert(waiting_chunks(slots[slots.len() - 1]) == waiting_chunks(other[slots.len() - 1]));
    }
}

proof fn lemma_remove_silent(slots: Seq<Slot>, at: int)
    requires
        0 <= at < slots.len(),
        waiting_chunks(slots[at]).len() == 0,
    ensures
        reader_chunks(slots.remove(at)) == reader_chunks(slots),
    decreases slots.len(),
{
    let rest = slots.remove(at);
    if at == slots.len() - 1 {
        assert(rest =~= slots.drop_last());
        assert(reader_chunks(slots) =~= reader_chunks(rest));
    } else {
        lemma_remove_silent(slots.drop_last(), at);
        assert(rest.drop_last() =~= slots.drop_last().remove(at));
        assert(rest.last() == slots.last());
    }
}

proof fn lemma_insert_front(
    slots: Seq<Slot>,
    after: Seq<Slot>,
    at: int,
    chunk: FileReaderChunkCompletion,
)
    requires
        0 <= at < slots.len() == after.len(),
        after[at].queued,
        slots[at].queued,
        after[at].reader@ == seq![chunk] + slots[at].reader@,
        forall|i: int| 0 <= i < slots.len() && i != at ==> #[trigger] after[i] == slots[i],
        forall|i: int| 0 <= i < at ==> waiting_chunks(#[trigger] slots[i]).len() == 0,
    ensures
        reader_chunks(after) == seq![chunk] + reader_chunks(slots),
    decreases slots.len(),
{
    let front = slots.drop_last();
    let rest = after.drop_last();
    if at == slots.len() - 1 {
        assert(rest =~= front);
        assert forall|i: int| 0 <= i < front.len() implies waiting_chunks(#[trigger] front[i])
            == Seq::<FileReaderChunkCompletion>::empty() by {
            assert(front[i] == slots[i]);
            assert(waiting_chunks(slots[i]) =~= Seq::<FileReaderChunkCompletion>::empty());
        }
        lemma_no_chunks(front);
        assert(reader_chunks(slots) =~= slots[at].reader@);
        assert(reader_chunks(after) =~= after[at].reader@);
    } else {
        assert forall|i: int| 0 <= i < front.len() && i != at implies #[trigger] rest[i]
            == front[i] by {
            assert(after[i] == slots[i]);
        }
        assert forall|i: int| 0 <= i < at implies waiting_chunks(#[trigger] front[i]).len()
            == 0 by {
            assert(front[i] == slots[i]);
        }
        lemma_insert_front(front, rest, at, chunk);
        assert(after[slots.len() - 1] == slots[slots.len() - 1]);
        assert(reader_chunks(after) =~= seq![chunk] + reader_chunks(slots));
    }
}

/// The chunks that wait are sorted by operation, and each waits in the slot of
/// its operation.
proof fn lemma_chunks_in_order(slots: Seq<Slot>)
    requires
        ids_increase(slots),
        forall|i: int| 0 <= i < slots.len() ==> own_completion(#[trigger] slots[i]),
    ensures
        forall|a: int, b: int|
            0 <= a <= b < reader_chunks(slots).len() ==> (#[trigger] reader_chunks(
                slots,
            )[a]).operation_id.spec_get() <= (#[trigger] reader_chunks(
                slots,
            )[b]).operation_id.spec_get(),
        forall|a: int|
            0 <= a < reader_chunks(slots).len() ==> exists|i: int|
                0 <= i < slots.len() && (#[trigger] slots[i]).queued && slots[i].id
                    == (#[trigger] reader_chunks(slots)[a]).operation_id.spec_get(),
    decreases slots.len(),
{
    if slots.len() > 0 {
        let front = slots.drop_last();
        let last = slots.last();
        let chunks = reader_chunks(slots);
        let before = reader_chunks(front);
        assert forall|i: int, j: int| 0 <= i < j < front.len() implies (#[trigger] front[i]).id < (
        #[trigger] front[j]).id by {
            assert(slots[i].id < slots[j].id);
        }
        assert forall|i: int| 0 <= i < front.len() implies own_completion(#[trigger] front[i]) by {
            assert(own_completion(slots[i]));
        }
        lemma_chunks_in_order(front);
        assert(own_completion(slots[slots.len() - 1]));
        assert forall|a: int| 0 <= a < chunks.len() implies exists|i: int|
            0 <= i < slots.len() && (#[trigger] slots[i]).queued && slots[i].id
                == (#[trigger] chunks[a]).operation_id.spec_get() by {
            if a < before.len() {
                assert(chunks[a] == before[a]);
                let i = choose|i: int|
                    0 <= i < front.len() && (#[trigger] front[i]).queued && front[i].id
                        == before[a].operation_id.spec_get();
                assert(slots[i] == front[i]);
                assert(slots[i].queued);
            } else {
                assert(chunks[a] == last.reader@[a - before.len()]);
                assert(slots[slots.len() - 1].queued);
            }
        }
        assert forall|a: int, b: int| 0 <= a <= b < chunks.len() implies (
        #[trigger] chunks[a]).operation_id.spec_get() <= (
        #[trigger] chunks[b]).operation_id.spec_get() by {
            if b < before.len() {
                assert(chunks[a] == before[a]);
                assert(chunks[b] == before[b]);
            } else {
                assert(chunks[b] == last.reader@[b - before.len()]);
                if a < before.len() {
                    assert(chunks[a] == before[a]);
                    let i = choose|i: int|
                        0 <= i < front.len() && (#[trigger] front[i]).queued && front[i].id
                            == before[a].operation_id.spec_get();
                    assert(slots[i] == front[i]);
                    assert(slots[i].id < slots[slots.len() - 1].id);
                } else {
                    assert(chunks[a] == last.reader@[a - before.len()]);
                }
            }
        }
    }
}

/// How the bridge stands once the last `count` of `chunks` were put back: they
/// wait, in their order, and nothing else does.
spec fn put_back_so_far(
    before: IoBridge,
    chunks: Seq<FileReaderChunkCompletion>,
    count: int,
    bridge: IoBridge,
) -> bool {
    let slots = bridge.slots();
    let was = before.slots();
    &&& bridge.same_setup(before)
    &&& slots.len() == was.len()
    &&& reader_chunks(slots) == chunks.skip(chunks.len() - count)
    &&& forall|i: int|
        0 <= i < slots.len() ==> {
            &&& (#[trigger] slots[i]).id == was[i].id
            &&& slots[i].queued == was[i].queued
            &&& slots[i].chunked == was[i].chunked
            &&& waiting_chunks(slots[i]).len() > 0 ==> {
                &&& count > 0
                &&& slots[i].id >= chunks[chunks.len() - count].operation_id.spec_get()
                &&& waiting_chunks(was[i]).len() > 0
            }
        }
}

proof fn lemma_put_back_step(
    before: IoBridge,
    chunks: Seq<FileReaderChunkCompletion>,
    count: int,
    bridge: IoBridge,
    after: IoBridge,
)
    requires
        before.wf(),
        chunks == reader_chunks(before.slots()),
        0 <= count < chunks.len(),
        put_back_so_far(before, chunks, count, bridge),
        put_back(bridge, chunks[chunks.len() - 1 - count], after),
    ensures
        put_back_so_far(before, chunks, count + 1, after),
{
    let was = before.slots();
    let slots = bridge.slots();
    let next = after.slots();
    let at = chunks.len() - 1 - count;
    let chunk = chunks[at];
    let id = chunk.operation_id.spec_get();
    lemma_chunks_in_order(was);
    lemma_chunk_has_slot(was, at);
    let i = choose|i: int|
        0 <= i < was.len() && (#[trigger] was[i]).id == id && was[i].queued
            && was[i].reader@.len() > 0;
    assert(slots[i].id == id);
    assert(ids_increase(slots)) by {
        assert forall|a: int, b: int| 0 <= a < b < slots.len() implies (#[trigger] slots[a]).id < (
        #[trigger] slots[b]).id by {
            assert(was[a].id < was[b].id);
        }
    }
    lemma_slot_of_is(slots, id, i);
    assert(!before.is_closed());
    let accepted = choose|accepted: bool| requeued(bridge, chunk, after, accepted);
    assert(requeued(bridge, chunk, after, accepted));
    assert(accepted);
    assert forall|m: int| 0 <= m < i implies waiting_chunks(#[trigger] slots[m]).len() == 0 by {
        assert(slots[m].id < slots[i].id);
        if waiting_chunks(slots[m]).len() > 0 {
            assert(chunks[at].operation_id.spec_get() <= chunks[at + 1].operation_id.spec_get());
        }
    }
    lemma_insert_front(slots, next, i, chunk);
    assert(seq![chunk] + chunks.skip(at + 1) =~= chunks.skip(at));
    assert forall|m: int| 0 <= m < next.len() implies {
        &&& (#[trigger] next[m]).id == was[m].id
        &&& next[m].queued == was[m].queued
        &&& next[m].chunked == was[m].chunked
        &&& waiting_chunks(next[m]).len() > 0 ==> next[m].id >= id && waiting_chunks(was[m]).len()
            > 0
    } by {
        assert(slots[m].id == was[m].id);
        if m != i {
            assert(next[m] == slots[m]);
            if waiting_chunks(slots[m]).len() > 0 {
                assert(chunks[at].operation_id.spec_get()
                    <= chunks[at + 1].operation_id.spec_get());
            }
        }
    }
}

proof fn lemma_chunk_has_slot(slots: Seq<Slot>, at: int)
    requires
        forall|i: int| 0 <= i < slots.len() ==> own_completion(#[trigger] slots[i]),
        0 <= at < reader_chunks(slots).len(),
    ensures
        exists|i: int|
            0 <= i < slots.len() && (#[trigger] slots[i]).id == reader_chunks(
                slots,
            )[at].operation_id.spec_get() && slots[i].queued && slots[i].reader@.len() > 0,
    decreases slots.len(),
{
    let front = slots.drop_last();
    let before = reader_chunks(front);
    if at < before.len() {
        assert forall|i: int| 0 <= i < front.len() implies own_completion(#[trigger] front[i]) by {
            assert(own_completion(slots[i]));
        }
        lemma_chunk_has_slot(front, at);
        let i = choose|i: int|
            0 <= i < front.len() && (#[trigger] front[i]).id == before[at].operation_id.spec_get()
                && front[i].queued && front[i].reader@.len() > 0;
        assert(slots[i] == front[i]);
    } else {
        assert(own_completion(slots[slots.len() - 1]));
        assert(slots.last().reader@[at - before.len()] == reader_chunks(slots)[at]);
        assert(slots[slots.len() - 1].queued);
    }
}

proof fn lemma_put_back_run(
    before: IoBridge,
    chunks: Seq<FileReaderChunkCompletion>,
    bridges: Seq<IoBridge>,
    left: int,
    count: int,
)
    requires
        before.wf(),
        chunks == reader_chunks(before.slots()),
        0 <= count <= left <= chunks.len(),
        bridges.len() == left + 1,
        readers_drained(before, bridges[0]),
        forall|k: int|
            0 <= k < left ==> #[trigger] put_back(
                bridges[k],
                chunks[chunks.len() - 1 - k],
                bridges[k + 1],
            ),
    ensures
        put_back_so_far(before, chunks, count, bridges[count]),
    decreases count,
{
    if count == 0 {
        let slots = bridges[0].slots();
        assert forall|i: int| 0 <= i < slots.len() implies waiting_chunks(#[trigger] slots[i])
            == Seq::<FileReaderChunkCompletion>::empty() by {
            assert(slots[i].reader@ == Seq::<FileReaderChunkCompletion>::empty());
        }
        lemma_no_chunks(slots);
        assert(chunks.skip(chunks.len() as int) =~= Seq::<FileReaderChunkCompletion>::empty());
    } else {
        let k = count - 1;
        lemma_put_back_run(before, chunks, bridges, left, k);
        assert(put_back(bridges[k], chunks[chunks.len() - 1 - k], bridges[k + 1]));
        lemma_put_back_step(before, chunks, k, bridges[k], bridges[count]);
    }
}

proof fn lemma_same_readers(before: Seq<ReaderOp>, after: Seq<ReaderOp>, id: u64)
    requires
        after.len() == before.len(),
        forall|i: int|
            0 <= i < before.len() ==> (#[trigger] after[i]).operation == before[i].operation,
        exists|i: int| 0 <= i < before.len() && (#[trigger] before[i]).operation == id,
    ensures
        exists|i: int| 0 <= i < after.len() && (#[trigger] after[i]).operation == id,
{
    let i = choose|i: int| 0 <= i < before.len() && (#[trigger] before[i]).operation == id;
    assert(after[i].operation == id);
}

/// Settling reader chunks keeps the operations of the readers, and the bridge.
pub(crate) proof fn lemma_reader_states(
    states: Seq<FileApiHandle>,
    chunks: Seq<FileReaderChunkCompletion>,
    outcomes: Seq<Option<PollJob>>,
    count: int,
)
    requires
        states.len() == outcomes.len() + 1,
        outcomes.len() <= chunks.len(),
        0 <= count <= outcomes.len(),
        forall|i: int|
            0 <= i < outcomes.len() ==> #[trigger] reader_step(
                states[i],
                chunks[i],
                states[i + 1],
                outcomes[i],
            ),
    ensures
        states[count] == (FileApiHandle { reader_ops: states[count].reader_ops, ..states[0] }),
        states[count].reader_ops.ops@.len() == states[0].reader_ops.ops@.len(),
        forall|i: int|
            0 <= i < states[0].reader_ops.ops@.len() ==> (
            #[trigger] states[count].reader_ops.ops@[i]).operation
                == states[0].reader_ops.ops@[i].operation,
    decreases count,
{
    if count > 0 {
        let k = count - 1;
        lemma_reader_states(states, chunks, outcomes, k);
        assert(reader_step(states[k], chunks[k], states[k + 1], outcomes[k]));
        let ops = states[k].reader_ops.ops@;
        crate::poll::lemma_op_position(ops, chunks[k].operation_id.spec_get());
        assert forall|i: int| 0 <= i < ops.len() implies (
        #[trigger] states[count].reader_ops.ops@[i]).operation == ops[i].operation by {}
    }
}

/// After the reader chunks were settled as far as the budget goes, exactly the
/// others wait, in their order.
proof fn lemma_readers_leave(
    before: FileApiHandle,
    run: ReaderRun,
    after: FileApiHandle,
)
    requires
        before.wf(),
        chunks_have_readers(before),
        is_reader_run(before, run, after),
    ensures
        reader_chunks(after.bridge.slots()) == reader_chunks(before.bridge.slots()).skip(
            run.outcomes.len() as int,
        ),
        readers_wait(after),
        after.budget == before.budget,
{
    let chunks = reader_chunks(before.bridge.slots());
    let count = run.outcomes.len() as int;
    let left = chunks.len() - count;
    lemma_reader_states(run.states, chunks, run.outcomes, count);
    lemma_put_back_run(before.bridge, chunks, run.bridges, left, left);
    let was = before.bridge.slots();
    let slots = after.bridge.slots();
    assert(ids_increase(slots)) by {
        assert forall|a: int, b: int| 0 <= a < b < slots.len() implies (#[trigger] slots[a]).id < (
        #[trigger] slots[b]).id by {
            assert(was[a].id < was[b].id);
        }
    }
    assert forall|i: int| 0 <= i < slots.len() && waiting_chunks(slots[i]).len() > 0 implies {
        &&& (#[trigger] slots[i]).chunked
        &&& !not_a_reader(after, slots[i].id)
        &&& not_a_stream(after, slots[i].id)
    } by {
        let id = slots[i].id;
        assert(waiting_chunks(was[i]).len() > 0);
        assert(was[i].id == id);
        assert(!not_a_reader(before, id));
        let ops = before.reader_ops.ops@;
        let k = choose|k: int| 0 <= k < ops.len() && (#[trigger] ops[k]).operation == id;
        assert(ops[k].operation == id);
        assert(!before.bridge.is_closed());
        assert(is_chunked(was, ops[k].operation));
        lemma_slot_of_is(was, id, i);
        lemma_same_readers(ops, after.reader_ops.ops@, id);
        assert forall|j: int| 0 <= j < before.stream_ops.ops@.len() implies (
        #[trigger] before.stream_ops.ops@[j]).operation != id by {
            assert(ops[k].operation != before.stream_ops.ops@[j].operation);
        }
    }
}

/// A slot that is released without reader chunks takes none away.
proof fn lemma_release_silent(before: FileApiHandle, after: FileApiHandle, operation: u64)
    requires
        readers_wait(before),
        after.reader_ops == before.reader_ops,
        after.budget == before.budget,
        slot_released(before.bridge, after.bridge, operation),
        not_a_reader(before, operation) || !not_a_stream(before, operation),
        forall|id: u64| not_a_stream(before, id) ==> #[trigger] not_a_stream(after, id),
    ensures
        chunks_kept(before, after),
{
    let slots = before.bridge.slots();
    let rest = after.bridge.slots();
    lemma_slot_of(slots, operation);
    match slot_of(slots, operation) {
        Some(at) => {
            assert(slots[at].id == operation);
            assert(waiting_chunks(slots[at]).len() == 0);
            lemma_remove_silent(slots, at);
            assert forall|i: int, j: int| 0 <= i < j < rest.len() implies (#[trigger] rest[i]).id
                < (#[trigger] rest[j]).id by {
                let x = if i < at {
                    i
                } else {
                    i + 1
                };
                let y = if j < at {
                    j
                } else {
                    j + 1
                };
                assert(slots[x].id < slots[y].id);
            }
            assert forall|i: int| 0 <= i < rest.len() && waiting_chunks(rest[i]).len() > 0 implies {
                &&& (#[trigger] rest[i]).chunked
                &&& !not_a_reader(after, rest[i].id)
                &&& not_a_stream(after, rest[i].id)
            } by {
                let x = if i < at {
                    i
                } else {
                    i + 1
                };
                assert(rest[i] == slots[x]);
                assert(!not_a_reader(before, slots[x].id));
                assert(not_a_stream(before, slots[x].id));
            }
        },
        None => {
            assert forall|i: int| 0 <= i < rest.len() && waiting_chunks(rest[i]).len() > 0 implies {
                &&& (#[trigger] rest[i]).chunked
                &&& !not_a_reader(after, rest[i].id)
                &&& not_a_stream(after, rest[i].id)
            } by {
                assert(!not_a_reader(before, slots[i].id));
                assert(not_a_stream(before, slots[i].id));
            }
        },
    }
}

/// A stream that ends takes no reader chunk away.
proof fn lemma_stream_gone_silent(before: FileApiHandle, after: FileApiHandle, operation: u64)
    requires
        readers_wait(before),
        after.reader_ops == before.reader_ops,
        after.budget == before.budget,
        stream_gone_or_kept(before, after, operation),
    ensures
        chunks_kept(before, after),
{
    let ops = before.stream_ops.ops@;
    let kept = after.stream_ops.ops@;
    lemma_stream_position(ops, operation);
    let found = stream_op_of(ops, operation);
    if after.stream_ops == before.stream_ops && after.bridge == before.bridge || found is None {
        let slots = before.bridge.slots();
        assert forall|i: int| 0 <= i < slots.len() && waiting_chunks(slots[i]).len() > 0 implies {
            &&& (#[trigger] slots[i]).chunked
            &&& !not_a_reader(after, slots[i].id)
            &&& not_a_stream(after, slots[i].id)
        } by {
            assert(!not_a_reader(before, slots[i].id));
            assert(not_a_stream(before, slots[i].id));
        }
    } else {
        let at = found->0;
        assert(ops[at].operation == operation);
        assert forall|id: u64| not_a_stream(before, id) implies #[trigger] not_a_stream(
            after,
            id,
        ) by {
            assert forall|j: int| 0 <= j < kept.len() implies (#[trigger] kept[j]).operation
                != id by {
                let x = if j < at {
                    j
                } else {
                    j + 1
                };
                assert(kept[j] == ops[x]);
            }
        }
        lemma_release_silent(before, after, operation);
    }
}

proof fn lemma_stream_position(ops: Seq<StreamOp>, operation: u64)
    ensures
        stream_op_of(ops, operation) matches Some(i) ==> 0 <= i < ops.len() && ops[i].operation
            == operation,
    decreases ops.len(),
{
    if ops.len() > 0 && ops.last().operation != operation {
        lemma_stream_position(ops.drop_last(), operation);
    }
}

proof fn lemma_abandon_silent(
    before: FileApiHandle,
    target: (u64, u64),
    after: FileApiHandle,
    abandoned: bool,
)
    requires
        readers_wait(before),
        abandon_step(before, target, after, abandoned),
    ensures
        chunks_kept(before, after),
{
    match stream_at(before.streams@, target.0) {
        Some(at) => {
            assert(stream_gone_or_kept(before, after, target.0));
            lemma_stream_gone_silent(before, after, target.0);
        },
        None => {},
    }
}

proof fn lemma_cleanup_silent(before: FileApiHandle, run: CleanupRun, after: FileApiHandle, count: int)
    requires
        readers_wait(before),
        is_cleanup_run(before, cleanup_targets(before), run, after),
        0 <= count < run.states.len(),
    ensures
        chunks_kept(before, run.states[count]),
    decreases count,
{
    let targets = cleanup_targets(before);
    if count == 0 {
        lemma_same_state(before, run.states[0]);
    } else {
        let k = count - 1;
        lemma_cleanup_silent(before, run, after, k);
        assert(abandon_step(run.states[k], targets[k], run.states[k + 1], run.abandoned[k]));
        lemma_abandon_silent(run.states[k], targets[k], run.states[count], run.abandoned[k]);
    }
}

/// Slots that add the same chunks, of the same operations, keep what waits.
proof fn lemma_same_slots(before: FileApiHandle, after: FileApiHandle)
    requires
        readers_wait(before),
        after.reader_ops == before.reader_ops,
        after.stream_ops == before.stream_ops,
        after.budget == before.budget,
        after.bridge.slots().len() == before.bridge.slots().len(),
        forall|i: int|
            0 <= i < before.bridge.slots().len() ==> {
                let was = before.bridge.slots()[i];
                let is = #[trigger] after.bridge.slots()[i];
                &&& is.id == was.id
                &&& is.chunked == was.chunked
                &&& waiting_chunks(is) == waiting_chunks(was)
            },
    ensures
        chunks_kept(before, after),
{
    let was = before.bridge.slots();
    let slots = after.bridge.slots();
    assert forall|i: int| 0 <= i < slots.len() implies waiting_chunks(#[trigger] slots[i])
        == waiting_chunks(was[i]) by {}
    lemma_same_chunks(slots, was);
    assert forall|a: int, b: int| 0 <= a < b < slots.len() implies (#[trigger] slots[a]).id < (
    #[trigger] slots[b]).id by {
        assert(was[a].id < was[b].id);
    }
    assert forall|i: int| 0 <= i < slots.len() && waiting_chunks(slots[i]).len() > 0 implies {
        &&& (#[trigger] slots[i]).chunked
        &&& !not_a_reader(after, slots[i].id)
        &&& not_a_stream(after, slots[i].id)
    } by {
        assert(was[i].chunked);
        assert(!not_a_reader(before, was[i].id));
        assert(not_a_stream(before, was[i].id));
    }
}

proof fn lemma_same_state(before: FileApiHandle, after: FileApiHandle)
    requires
        readers_wait(before),
        after == (FileApiHandle { cleanups: after.cleanups, ..before }),
    ensures
        chunks_kept(before, after),
{
    lemma_same_slots(before, after);
}

proof fn lemma_stream_step_silent(
    before: FileApiHandle,
    completion: crate::io::StreamChunkCompletion,
    after: FileApiHandle,
    outcome: Option<PollJob>,
)
    requires
        readers_wait(before),
        stream_step(before, completion, after, outcome),
    ensures
        chunks_kept(before, after),
{
    match stream_at(before.streams@, completion.operation_id.spec_get()) {
        Some(at) => {
            let stream = before.streams@[at]@;
            let step = choose|step: StreamStep| #[trigger]
                stream_settled(
                    stream,
                    before.stream_ops,
                    before.bridge,
                    before.config.limits,
                    completion,
                    before.flag@.closed,
                    after.streams@[at]@,
                    after.stream_ops,
                    after.bridge,
                    step,
                );
            assert(stream_gone_or_kept(before, after, stream.lease.operation));
            lemma_stream_gone_silent(before, after, stream.lease.operation);
        },
        None => {},
    }
}

proof fn lemma_streams_silent(before: FileApiHandle, run: PollRun, after: FileApiHandle, count: int)
    requires
        readers_wait(before),
        is_stream_run(before, run, after),
        0 <= count < run.states.len(),
    ensures
        chunks_kept(before, run.states[count]),
    decreases count,
{
    let chunks = crate::bridge::stream_chunks(before.bridge.slots());
    if count == 0 {
        lemma_same_slots(before, run.states[0]);
    } else {
        let k = count - 1;
        lemma_streams_silent(before, run, after, k);
        assert(stream_step(run.states[k], chunks[k], run.states[k + 1], run.outcomes[k]));
        lemma_stream_step_silent(run.states[k], chunks[k], run.states[count], run.outcomes[k]);
    }
}

proof fn lemma_reads_silent(before: FileApiHandle, run: PollRun, after: FileApiHandle, count: int)
    requires
        readers_wait(before),
        is_read_run(before, run, after),
        0 <= count < run.states.len(),
    ensures
        chunks_kept(before, run.states[count]),
    decreases count,
{
    let due = crate::bridge::due_completions(before.bridge.slots());
    if count == 0 {
        let was = before.bridge.slots();
        let slots = run.states[0].bridge.slots();
        assert forall|i: int| 0 <= i < was.len() implies {
            let is = #[trigger] slots[i];
            &&& is.id == was[i].id
            &&& is.chunked == was[i].chunked
            &&& waiting_chunks(is) == waiting_chunks(was[i])
        } by {
            assert(is_drained_slot(was, i, slots[i]));
            if waiting_chunks(was[i]).len() == 0 {
                assert(waiting_chunks(slots[i]) =~= waiting_chunks(was[i]));
            } else {
                assert(was[i].chunked);
            }
        }
        lemma_same_slots(before, run.states[0]);
    } else {
        let k = count - 1;
        lemma_reads_silent(before, run, after, k);
        let here = run.states[k];
        let next = run.states[count];
        assert(read_step(run.states[k], due[k], run.states[k + 1], run.outcomes[k]));
        let operation = due[k].operation_id.spec_get();
        if !crate::poll::reads_in_chunks(here, operation) {
            lemma_absent(here.reader_ops.ops@, operation);
            lemma_release_silent(here, next, operation);
        }
    }
}

proof fn lemma_absent(ops: Seq<ReaderOp>, operation: u64)
    requires
        op_of(ops, operation) is None,
    ensures
        forall|i: int| 0 <= i < ops.len() ==> (#[trigger] ops[i]).operation != operation,
    decreases ops.len(),
{
    if ops.len() > 0 {
        let front = ops.drop_last();
        lemma_absent(front, operation);
        assert forall|i: int| 0 <= i < front.len() implies front[i] == #[trigger] ops[i] by {}
    }
}

/// Whether a poll of `before` settled exactly the first `count` reader chunks
/// that waited, and left the others.
pub open spec fn settled_first(
    before: FileApiHandle,
    after: FileApiHandle,
    outcome: PollOutcome,
    count: int,
) -> bool {
    exists|run: ReaderRun, middle: FileApiHandle|
        {
            &&& #[trigger] is_reader_run(before, run, middle)
            &&& run.outcomes.len() == count
            &&& jobs_of(run.outcomes).is_prefix_of(outcome.jobs@)
            &&& outcome.wake == (count < reader_chunks(before.bridge.slots()).len())
            &&& reader_chunks(after.bridge.slots()) == reader_chunks(before.bridge.slots()).skip(
                count,
            )
        }
}

/// What the budget leaves waits: a poll settles the first of the reader chunks
/// that wait, and exactly the others wait afterwards, in their order. The host is
/// woken, once, exactly where some were left.
pub proof fn lemma_left_chunks_wait(
    before: FileApiHandle,
    after: FileApiHandle,
    outcome: PollOutcome,
)
    requires
        before.wf(),
        chunks_have_readers(before),
        polled(before, after, outcome),
    ensures
        exists|count: int|
            0 <= count <= reader_chunks(before.bridge.slots()).len() && #[trigger] settled_first(
                before,
                after,
                outcome,
                count,
            ),
        chunks_have_readers(after),
        after.budget == before.budget,
{
    let course = choose|course: PollCourse| #[trigger]
        is_poll_course(before, course, after, outcome);
    let chunks = reader_chunks(before.bridge.slots());
    let run = choose|run: ReaderRun|
        {
            &&& #[trigger] is_reader_run(before, run, course.after_readers)
            &&& course.reader_jobs == jobs_of(run.outcomes)
            &&& outcome.wake == (run.outcomes.len() < chunks.len())
        };
    lemma_readers_leave(before, run, course.after_readers);
    let cleanup = choose|run: CleanupRun| #[trigger]
        is_cleanup_run(
            course.after_readers,
            cleanup_targets(course.after_readers),
            run,
            course.after_cleanup,
        ) && course.cleaned == abandoned_of(
            cleanup_targets(course.after_readers),
            run.abandoned,
        );
    lemma_cleanup_silent(
        course.after_readers,
        cleanup,
        course.after_cleanup,
        cleanup.states.len() - 1,
    );
    let streams = choose|run: PollRun| #[trigger]
        is_stream_run(course.after_cleanup, run, course.after_streams) && course.stream_jobs
            == jobs_of(run.outcomes);
    lemma_streams_silent(
        course.after_cleanup,
        streams,
        course.after_streams,
        streams.states.len() - 1,
    );
    let sweep = choose|run: CleanupRun| #[trigger]
        is_cleanup_run(
            course.after_streams,
            cleanup_targets(course.after_streams),
            run,
            course.after_sweep,
        ) && course.swept == abandoned_of(cleanup_targets(course.after_streams), run.abandoned);
    lemma_cleanup_silent(
        course.after_streams,
        sweep,
        course.after_sweep,
        sweep.states.len() - 1,
    );
    let reads = choose|run: PollRun| #[trigger]
        is_read_run(course.after_sweep, run, after) && course.read_jobs == jobs_of(run.outcomes);
    lemma_reads_silent(course.after_sweep, reads, after, reads.states.len() - 1);
    let count = run.outcomes.len() as int;
    assert(jobs_of(run.outcomes).is_prefix_of(outcome.jobs@));
    assert(settled_first(before, after, outcome, count));
    let slots = after.bridge.slots();
    assert forall|i: int| 0 <= i < slots.len() && waiting_chunks(slots[i]).len()
        > 0 implies !not_a_reader(after, (#[trigger] slots[i]).id) by {
        assert(slots[i].chunked);
    }
}

/// A chunk that the budget put back is the one that the next poll settles first,
/// as long as the budget allows any.
pub proof fn lemma_left_chunk_is_next(
    first: FileApiHandle,
    second: FileApiHandle,
    third: FileApiHandle,
    outcome: PollOutcome,
    next: PollOutcome,
)
    requires
        first.wf(),
        second.wf(),
        chunks_have_readers(first),
        polled(first, second, outcome),
        polled(second, third, next),
        outcome.wake,
        first.budget != Some(0usize),
    ensures
        exists|count: int, more: int|
            {
                let chunks = reader_chunks(first.bridge.slots());
                &&& 0 <= count < chunks.len()
                &&& 0 < more <= chunks.len() - count
                &&& #[trigger] settled_first(first, second, outcome, count)
                &&& #[trigger] settled_first(second, third, next, more)
                &&& reader_chunks(second.bridge.slots())[0] == chunks[count]
                &&& reader_chunks(third.bridge.slots()) == chunks.skip(count + more)
            },
{
    lemma_left_chunks_wait(first, second, outcome);
    lemma_left_chunks_wait(second, third, next);
    let chunks = reader_chunks(first.bridge.slots());
    let rest = reader_chunks(second.bridge.slots());
    let count = choose|count: int|
        0 <= count <= chunks.len() && #[trigger] settled_first(first, second, outcome, count);
    let more = choose|more: int|
        0 <= more <= rest.len() && #[trigger] settled_first(second, third, next, more);
    assert(rest == chunks.skip(count));
    let (run, middle) = choose|run: ReaderRun, middle: FileApiHandle|
        {
            &&& #[trigger] is_reader_run(second, run, middle)
            &&& run.outcomes.len() == more
            &&& jobs_of(run.outcomes).is_prefix_of(next.jobs@)
            &&& next.wake == (more < rest.len())
            &&& reader_chunks(third.bridge.slots()) == rest.skip(more)
        };
    if more == 0 {
        assert(run.outcomes =~= Seq::<Option<PollJob>>::empty());
        assert(jobs_of(run.outcomes).len() == 0);
        assert(!within_budget(second.budget, 0));
    }
    assert(rest.skip(more) =~= chunks.skip(count + more));
}

} // verus!
