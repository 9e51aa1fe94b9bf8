//! A `FileReader` over a whole read that nobody disturbs: which chunks it asks
//! for, which events it fires when, and what it ends with.

use vstd::prelude::*;

use crate::blob::{lemma_segments_bytes_len, BlobData};
use crate::bridge::{is_live, IoBridge};
use crate::error::FileApiError;
use crate::execute::{
    chunk_read, is_faithful, lemma_chunk_gives_bytes, never_cancelled, HostReader,
};
use crate::filereader::{
    abort, apply_chunk, apply_effect, consistent, continue_effect, fail_operation, finish_at_eof,
    finish_dispatch, first_submit_failed, op_of, poll_reader_once, publish_step, pump_effect, read_as_data_url, run_dispatch,
    settle_reader_completion, start_class, start_effect, start_read, AbortOutcome, DispatchJob,
    EventKind, FileReaderNative, PumpJob, PumpPhase, PumpState, PumpStep, ReadKind, ReadRequest,
    ReaderEvent, ReaderTable, ReaderView, ResultView, StartRead, DONE, LOADING,
};
use crate::io::{ChunkKind, FileIoSubmitError, FileReaderChunkCompletion, FileReaderChunkTask};
use crate::limits::FileApiLimits;
use crate::package::{data_url_len, decoded_text};
use crate::resource::CancelProbe;

verus! {

/// A read under way: the reader, its packaging state, the chunk request, the
/// events that were fired, and when the last `progress` was.
pub struct Reading {
    /// The reader.
    pub reader: ReaderView,
    /// The packaging state.
    pub state: PumpState,
    /// The chunk request under way.
    pub request: Option<FileReaderChunkTask>,
    /// The events so far.
    pub fired: Seq<ReaderEvent>,
    /// When the last `progress` of a chunk was fired.
    pub progressed: Option<i64>,
}

/// What one chunk brings about.
pub struct Round {
    /// The operations while the chunk is applied.
    pub table: ReaderTable,
    /// The bridge.
    pub bridge: IoBridge,
    /// What the worker delivered.
    pub kind: ChunkKind,
    /// The time.
    pub now: i64,
    /// How the job started.
    pub started: PumpStep,
    /// How the chunk was applied.
    pub applied: PumpStep,
    /// How the read went on.
    pub continued: PumpStep,
    /// The operations after it.
    pub table_after: ReaderTable,
}

/// A read begins.
pub open spec fn reading_begins(
    reading: Reading,
    request: ReadRequest,
    limits: FileApiLimits,
    reader: ReaderView,
    tables: (ReaderTable, ReaderTable),
    bridges: (IoBridge, IoBridge),
    outcome: StartRead,
) -> bool {
    &&& start_effect(
        start_class(reader.ready_state, false, tables.0.queue.active, limits, bridges.0),
        request,
        limits,
        reader,
        tables.0,
        bridges.0,
        reading.reader,
        tables.1,
        bridges.1,
        outcome,
    )
    &&& outcome matches StartRead::Submit(task) && reading.request == Some(task)
    &&& tables.1.ops@.last().pump == Some(reading.state)
    &&& reading.fired == Seq::<ReaderEvent>::empty()
    &&& reading.progressed is None
}

/// The events of a step.
pub open spec fn fired_by(step: PumpStep) -> Seq<ReaderEvent> {
    match step.fire {
        Some(event) => seq![event],
        None => Seq::empty(),
    }
}

/// Whether the operation of a read is under way.
pub open spec fn holds_operation(
    table: ReaderTable,
    bridge: IoBridge,
    operation: u64,
    data: BlobData,
) -> bool {
    &&& is_live(bridge.slots(), operation)
    &&& op_of(table.ops@, operation) matches Some(at) && table.ops@[at].data@ == data@
}

/// A worker answers the request, the chunk is applied and the read goes on.
pub open spec fn reading_goes_on<H: HostReader, P: CancelProbe>(
    host: H,
    probe: P,
    before: Reading,
    after: Reading,
    round: Round,
    data: BlobData,
    generation: u64,
    operation: u64,
) -> bool {
    &&& holds_operation(round.table, round.bridge, operation, data)
    &&& before.request matches Some(task) && chunk_read(
        host,
        probe,
        task.data,
        task.window,
        false,
        round.kind,
    )
    &&& pump_effect(
        before.reader,
        round.table,
        round.bridge,
        generation,
        operation,
        before.state,
        false,
        round.table,
        round.bridge,
        round.started,
    )
    &&& round.started.next matches PumpPhase::Apply(opened) && apply_effect(
        before.reader,
        round.table,
        round.bridge,
        generation,
        operation,
        opened,
        round.kind,
        round.now,
        after.reader,
        round.table,
        round.bridge,
        round.applied,
    )
    &&& round.applied.next == PumpPhase::Continue(after.state)
    &&& continue_effect(
        after.reader,
        round.table,
        round.bridge,
        generation,
        operation,
        after.state,
        round.table_after,
        round.continued,
    )
    &&& after.request == match round.continued.next {
        PumpPhase::Submit(task) => Some(task),
        _ => None,
    }
    &&& after.fired == before.fired + fired_by(round.started) + fired_by(round.applied)
    &&& after.progressed == if round.applied.fire is Some {
        Some(round.now)
    } else {
        before.progressed
    }
}

/// Where a read stands after some rounds.
spec fn reading_stands(
    reading: Reading,
    request: ReadRequest,
    limits: FileApiLimits,
    content: Seq<u8>,
    generation: u64,
    rounds: int,
) -> bool {
    let size = request.data.spec_size();
    let state = reading.state;
    &&& reading.reader.ready_state == LOADING
    &&& !reading.reader.terminal_dispatched
    &&& reading.reader.generation == generation
    &&& reading.reader.total == size
    &&& reading.reader.result is None && reading.reader.error is None
    &&& reading.reader.loaded == state.loaded
    &&& state.wf()
    &&& state.total == size
    &&& state.chunk_size == limits.default_chunk_size
    &&& state.kind == request.kind
    &&& state.encoding == request.encoding
    &&& state.media_type@ == request.media_type@
    &&& state.data_url_limit == limits.max_data_url_output
    &&& state.loadstart_sent == (rounds > 0)
    &&& !state.final_progress_sent
    &&& state.loaded == if rounds * limits.default_chunk_size <= size {
        rounds * limits.default_chunk_size
    } else {
        size as int
    }
    &&& state.consumed() == content.take(state.loaded as int)
    &&& reading.progressed == if state.last_progress_at == i64::MIN {
        None
    } else {
        Some(state.last_progress_at)
    }
    &&& reading.fired.len() > 0 <==> rounds > 0
    &&& if state.loaded < size {
        reading.request matches Some(task) && {
            &&& task.data@ == request.data@
            &&& task.data.wf()
            &&& task.window.offset == state.loaded
            &&& task.window.len == if limits.default_chunk_size < size - state.loaded {
                limits.default_chunk_size as int
            } else {
                size - state.loaded
            }
        }
    } else {
        reading.request is None
    }
}

/// Whether a `progress` is due at `now` where the last one was fired at
/// `progressed`: the first at once, every other one fifty milliseconds later.
pub open spec fn fifty_later(progressed: Option<i64>, now: i64) -> bool {
    progressed matches Some(last) ==> 50 <= now - last <= i64::MAX
}

/// The events of one round: `loadstart` in the first, and a `progress` with the
/// bytes read so far where one is due and more is to come.
pub open spec fn round_events(
    before: Reading,
    after: Reading,
    now: i64,
    first: bool,
    size: u64,
) -> Seq<ReaderEvent> {
    let start = if first {
        seq![ReaderEvent { kind: EventKind::LoadStart, loaded: 0, total: size }]
    } else {
        Seq::empty()
    };
    let progress = if fifty_later(before.progressed, now) && after.reader.loaded < size {
        seq![
            ReaderEvent { kind: EventKind::Progress, loaded: after.reader.loaded, total: size },
        ]
    } else {
        Seq::empty()
    };
    start + progress
}

#[verifier::rlimit(60)]
#[verifier::spinoff_prover]
proof fn lemma_round<H: HostReader, P: CancelProbe>(
    host: H,
    probe: P,
    resources: Map<u64, Seq<u8>>,
    request: ReadRequest,
    limits: FileApiLimits,
    generation: u64,
    operation: u64,
    before: Reading,
    after: Reading,
    round: Round,
    rounds: int,
)
    requires
        request.data.wf(),
        request.data.held_by(resources),
        is_faithful(host, resources),
        never_cancelled(probe),
        limits.chunk_size_valid(),
        rounds >= 0,
        round.now != i64::MIN,
        reading_stands(
            before,
            request,
            limits,
            request.data.content(resources),
            generation,
            rounds,
        ),
        reading_goes_on(
            host,
            probe,
            before,
            after,
            round,
            request.data,
            generation,
            operation,
        ),
    ensures
        reading_stands(
            after,
            request,
            limits,
            request.data.content(resources),
            generation,
            rounds + 1,
        ),
        after.fired == before.fired + round_events(
            before,
            after,
            round.now,
            rounds == 0,
            request.data.spec_size(),
        ),
{
    let content = request.data.content(resources);
    let size = request.data.spec_size() as int;
    let task = before.request->0;
    let chunk = limits.default_chunk_size as int;
    lemma_segments_bytes_len(request.data.segments(), resources);
    assert(before.state.loaded < size);
    assert(rounds * chunk < size);
    assert((rounds + 1) * chunk == rounds * chunk + chunk) by (nonlinear_arith);
    lemma_chunk_gives_bytes(host, probe, resources, task.data, task.window, round.kind);
    let bytes = round.kind->Chunk_0@;
    let from = before.state.loaded as int;
    assert(bytes == content.subrange(from, from + task.window.len));
    assert(content.take(from) + bytes =~= content.take(from + bytes.len()));
    assert(after.fired =~= before.fired + round_events(
        before,
        after,
        round.now,
        rounds == 0,
        request.data.spec_size(),
    ));
}

proof fn lemma_rounds<H: HostReader, P: CancelProbe>(
    host: H,
    probe: P,
    resources: Map<u64, Seq<u8>>,
    request: ReadRequest,
    limits: FileApiLimits,
    reader: ReaderView,
    tables: (ReaderTable, ReaderTable),
    bridges: (IoBridge, IoBridge),
    outcome: StartRead,
    generation: u64,
    operation: u64,
    readings: Seq<Reading>,
    rounds: Seq<Round>,
    at: int,
)
    requires
        request.data.wf(),
        request.data.held_by(resources),
        is_faithful(host, resources),
        never_cancelled(probe),
        readings.len() == rounds.len() + 1,
        0 <= at <= rounds.len(),
        reading_begins(readings[0], request, limits, reader, tables, bridges, outcome),
        generation == readings[0].reader.generation,
        operation == tables.1.ops@.last().operation,
        forall|i: int|
            0 <= i < rounds.len() ==> (#[trigger] rounds[i]).now != i64::MIN && reading_goes_on(
                host,
                probe,
                readings[i],
                readings[i + 1],
                rounds[i],
                request.data,
                generation,
                operation,
            ),
    ensures
        limits.chunk_size_valid(),
        reading_stands(
            readings[at],
            request,
            limits,
            request.data.content(resources),
            generation,
            at,
        ),
    decreases at,
{
    let content = request.data.content(resources);
    if at == 0 {
        assert(content.take(0) =~= Seq::<u8>::empty());
        assert(0 * limits.default_chunk_size as int == 0) by (nonlinear_arith);
    } else {
        lemma_rounds(
            host,
            probe,
            resources,
            request,
            limits,
            reader,
            tables,
            bridges,
            outcome,
            generation,
            operation,
            readings,
            rounds,
            at - 1,
        );
        assert(rounds[at - 1].now != i64::MIN);
        lemma_round(
            host,
            probe,
            resources,
            request,
            limits,
            generation,
            operation,
            readings[at - 1],
            readings[at - 1 + 1],
            rounds[at - 1],
            at - 1,
        );
    }
}

/// A read asks for its chunks one behind the other. After every chunk the reader
/// has loaded that much more, up to the size of the blob; it is still loading,
/// without result or failure. The first round fires `loadstart`; every round in
/// which fifty milliseconds have passed since the last `progress`, and after which
/// more is to come, fires `progress` with the bytes loaded so far, and no other
/// round does.
pub proof fn lemma_reading_course<H: HostReader, P: CancelProbe>(
    host: H,
    probe: P,
    resources: Map<u64, Seq<u8>>,
    request: ReadRequest,
    limits: FileApiLimits,
    reader: ReaderView,
    tables: (ReaderTable, ReaderTable),
    bridges: (IoBridge, IoBridge),
    outcome: StartRead,
    readings: Seq<Reading>,
    rounds: Seq<Round>,
    at: int,
)
    requires
        request.data.wf(),
        request.data.held_by(resources),
        is_faithful(host, resources),
        never_cancelled(probe),
        readings.len() == rounds.len() + 1,
        0 <= at < rounds.len(),
        reading_begins(readings[0], request, limits, reader, tables, bridges, outcome),
        forall|i: int|
            0 <= i < rounds.len() ==> (#[trigger] rounds[i]).now != i64::MIN && reading_goes_on(
                host,
                probe,
                readings[i],
                readings[i + 1],
                rounds[i],
                request.data,
                readings[0].reader.generation,
                tables.1.ops@.last().operation,
            ),
    ensures
        ({
            let before = readings[at];
            let after = readings[at + 1];
            let size = request.data.spec_size();
            let chunk = limits.default_chunk_size;
            &&& before.reader.loaded == at * chunk
            &&& after.reader.loaded == if (at + 1) * chunk < size {
                (at + 1) * chunk
            } else {
                size as int
            }
            &&& before.request matches Some(task) && task.window.offset == at * chunk
            &&& after.request is Some <==> after.reader.loaded < size
            &&& after.reader.ready_state == LOADING
            &&& after.reader.result is None && after.reader.error is None
            &&& after.reader.total == size
            &&& after.state.consumed() == request.data.content(resources).take(
                after.reader.loaded as int,
            )
            &&& after.fired == before.fired + round_events(
                before,
                after,
                rounds[at].now,
                at == 0,
                size,
            )
        }),
{
    let generation = readings[0].reader.generation;
    let operation = tables.1.ops@.last().operation;
    lemma_rounds(
        host,
        probe,
        resources,
        request,
        limits,
        reader,
        tables,
        bridges,
        outcome,
        generation,
        operation,
        readings,
        rounds,
        at,
    );
    assert(rounds[at].now != i64::MIN);
    lemma_round(
        host,
        probe,
        resources,
        request,
        limits,
        generation,
        operation,
        readings[at],
        readings[at + 1],
        rounds[at],
        at,
    );
}

/// Whether `result` is what a read of `content` is to end with: the bytes, one
/// character for each of them, the decoded text, or the data URL.
pub open spec fn is_result(
    kind: ReadKind,
    encoding: Seq<char>,
    media_type: Seq<char>,
    content: Seq<u8>,
    result: ResultView,
) -> bool {
    match kind {
        ReadKind::ArrayBuffer => result == ResultView::Bytes(content),
        ReadKind::BinaryString => result matches ResultView::BinaryString(text) && text.len()
            == content.len() && forall|i: int|
            0 <= i < text.len() ==> (#[trigger] text[i]) as u32 == content[i],
        ReadKind::Text => result == ResultView::Text(decoded_text(encoding, content, true)),
        ReadKind::DataUrl => result matches ResultView::Text(text) && text == "data:"@ + media_type
            + ";base64,"@ + crate::package::base64_text(content),
    }
}

/// A read that has loaded everything fires a last `progress` for the whole, then
/// `load` when the reader is done, and `loadend` behind it. The result is that of
/// the content of the blob, and there is no failure. A read for bytes always ends
/// so; another one may fail instead, with `error` and then `loadend`.
#[verifier::rlimit(60)]
#[verifier::spinoff_prover]
pub proof fn lemma_reading_ends<H: HostReader, P: CancelProbe>(
    host: H,
    probe: P,
    resources: Map<u64, Seq<u8>>,
    request: ReadRequest,
    limits: FileApiLimits,
    reader: ReaderView,
    tables: (ReaderTable, ReaderTable),
    bridges: (IoBridge, IoBridge),
    outcome: StartRead,
    readings: Seq<Reading>,
    rounds: Seq<Round>,
    native: FileReaderNative,
    finished: PumpStep,
    before: (ReaderTable, IoBridge),
    after: (ReaderTable, IoBridge),
    done: FileReaderNative,
    published: PumpStep,
    fire: Option<ReaderEvent>,
    dispatched: FileReaderNative,
    follow_up: Option<DispatchJob>,
    last_fire: Option<ReaderEvent>,
)
    requires
        request.data.wf(),
        request.data.held_by(resources),
        is_faithful(host, resources),
        never_cancelled(probe),
        readings.len() == rounds.len() + 1,
        reading_begins(readings[0], request, limits, reader, tables, bridges, outcome),
        forall|i: int|
            0 <= i < rounds.len() ==> (#[trigger] rounds[i]).now != i64::MIN && reading_goes_on(
                host,
                probe,
                readings[i],
                readings[i + 1],
                rounds[i],
                request.data,
                readings[0].reader.generation,
                tables.1.ops@.last().operation,
            ),
        readings.last().request is None,
        // All bytes are there.
        native@ == readings.last().reader,
        call_ensures(
            finish_at_eof,
            (&native, native.generation, readings.last().state),
            finished,
        ),
        finished.next matches PumpPhase::Publish(state) && publish_step(
            state,
            native@,
            before.0,
            before.1,
            done@,
            after.0,
            after.1,
            published,
            native.generation,
            tables.1.ops@.last().operation,
        ),
        // The terminal event, and what follows it.
        published.next matches PumpPhase::Queue(job) && {
            &&& call_ensures(run_dispatch, (&done, &job, false), fire)
            &&& crate::filereader::dispatch_finished(done@, job) == (dispatched@, follow_up)
        },
        follow_up matches Some(job) ==> call_ensures(
            run_dispatch,
            (&dispatched, &job, false),
            last_fire,
        ),
    ensures
        ({
            let size = request.data.spec_size();
            &&& finished.fire == Some(
                ReaderEvent { kind: EventKind::Progress, loaded: size, total: size },
            )
            &&& done.ready_state == DONE
            &&& done.error is None ==> {
                &&& fire == Some(ReaderEvent { kind: EventKind::Load, loaded: size, total: size })
                &&& last_fire == Some(
                    ReaderEvent { kind: EventKind::LoadEnd, loaded: size, total: size },
                )
                &&& done@.result matches Some(result) && is_result(
                    request.kind,
                    request.encoding.spec_name(),
                    request.media_type@,
                    request.data.content(resources),
                    result,
                )
                &&& dispatched@.result == done@.result
            }
            &&& done.error is Some ==> {
                &&& fire == Some(ReaderEvent { kind: EventKind::Error, loaded: 0, total: size })
                &&& last_fire == Some(
                    ReaderEvent { kind: EventKind::LoadEnd, loaded: 0, total: size },
                )
                &&& done@.result is None
                &&& request.kind == ReadKind::Text || request.kind == ReadKind::DataUrl
            }
            &&& follow_up is Some
        }),
{
    let content = request.data.content(resources);
    lemma_rounds(
        host,
        probe,
        resources,
        request,
        limits,
        reader,
        tables,
        bridges,
        outcome,
        readings[0].reader.generation,
        tables.1.ops@.last().operation,
        readings,
        rounds,
        rounds.len() as int,
    );
    lemma_segments_bytes_len(request.data.segments(), resources);
    assert(content.take(content.len() as int) =~= content);
    let state = finished.next->Publish_0;
    assert(state.consumed() == readings.last().state.consumed());
    if done.error is None && request.kind == ReadKind::BinaryString {
        let text = done@.result->0->BinaryString_0;
        assert forall|i: int| 0 <= i < text.len() implies (#[trigger] text[i]) as u32
            == content[i] by {
            crate::package::lemma_byte_char(content[i]);
        }
    }
}

/// A chunk that leaves more to read fires `progress` where fifty milliseconds have
/// passed since the last one, or none was fired yet, and fires nothing where they
/// have not: the event tells the bytes read so far.
pub proof fn lemma_progress_is_live_and_throttled(
    table: &mut ReaderTable,
    native: &mut FileReaderNative,
    bridge: &mut IoBridge,
    generation: u64,
    operation: u64,
    state: PumpState,
    chunk: ChunkKind,
    now: i64,
    step: PumpStep,
)
    requires
        call_ensures(
            apply_chunk,
            (table, native, bridge, generation, operation, state, chunk, now),
            step,
        ),
        native.generation == generation,
        native.ready_state == LOADING,
        !native.terminal_dispatched,
        chunk matches ChunkKind::Chunk(bytes) && state.loaded + bytes@.len() < state.total,
        !(step.next is Queue),
    ensures
        ({
            let loaded = state.loaded + chunk->Chunk_0@.len();
            let last = state.last_progress_at;
            &&& last == i64::MIN || 50 <= now - last <= i64::MAX ==> step.fire == Some(
                ReaderEvent { kind: EventKind::Progress, loaded: loaded as u64, total: state.total },
            )
            &&& last != i64::MIN && !(50 <= now - last <= i64::MAX) ==> step.fire is None
            &&& step.next matches PumpPhase::Continue(after) && {
                &&& after.loaded == loaded
                &&& after.consumed() == state.consumed() + chunk->Chunk_0@
                &&& after.last_progress_at == if step.fire is Some {
                    now
                } else {
                    last
                }
            }
            &&& final(native).loaded == loaded
        }),
{
}

/// Aborting a busy reader leaves it done, without result or failure, and queues
/// `abort` with the bytes that were loaded; nothing that its old generation still
/// queues is fired. Aborting any other reader only takes its result away.
pub proof fn lemma_abort_ends_the_read(
    table: &mut ReaderTable,
    native: &mut FileReaderNative,
    bridge: &mut IoBridge,
    outcome: AbortOutcome,
    stale: DispatchJob,
    aborted: FileReaderNative,
    fire: Option<ReaderEvent>,
    late: Option<ReaderEvent>,
)
    requires
        call_ensures(abort, (table, native, bridge), outcome),
        aborted@ == final(native)@,
        stale.generation == native.generation,
        native.generation != table.queue.next_generation,
        table.queue.next_generation != 0,
        outcome.job matches Some(job) ==> call_ensures(run_dispatch, (&aborted, &job, false), fire),
        call_ensures(run_dispatch, (&aborted, &stale, false), late),
    ensures
        old(native).ready_state == LOADING ==> {
            &&& aborted.ready_state == DONE
            &&& aborted@.result is None && aborted@.error is None
            &&& outcome.job is Some
            &&& fire == Some(
                ReaderEvent {
                    kind: EventKind::Abort,
                    loaded: old(native).loaded,
                    total: old(native).total,
                },
            )
            &&& late is None
        },
        old(native).ready_state != LOADING ==> {
            &&& outcome.job is None
            &&& aborted@.result is None
            &&& aborted@.error == old(native)@.error
            &&& aborted.ready_state == old(native).ready_state
            &&& aborted.generation == old(native).generation
        },
{
}


/// A busy reader refuses a second read and stays as it is. After the shutdown,
/// and while too many reads are under way, a read fails with an event and takes
/// no slot. Any other read begins: the reader is busy and has neither a result
/// nor a failure, one more operation is under way, and the chunk asked for is the
/// first one of the blob; only an empty blob asks for none.
pub proof fn lemma_read_methods_begin_a_read(
    table: &mut ReaderTable,
    native: &mut FileReaderNative,
    bridge: &mut IoBridge,
    request: ReadRequest,
    limits: FileApiLimits,
    shutdown: bool,
    outcome: StartRead,
)
    requires
        consistent(*table, *bridge),
        request.data.wf(),
        call_ensures(start_read, (table, native, bridge, request, &limits, shutdown), outcome),
    ensures
        old(native).ready_state == LOADING ==> {
            &&& outcome is Refused
            &&& final(native)@ == old(native)@
            &&& final(table).ops@ == old(table).ops@
            &&& final(bridge).slots() == old(bridge).slots()
        },
        old(native).ready_state != LOADING && shutdown ==> {
            &&& outcome is Failed
            &&& final(native).ready_state == DONE
            &&& final(native)@.result is None
            &&& final(native)@.error matches Some(error) && error.0 == "AbortError"@
            &&& final(table).ops@ == old(table).ops@
            &&& final(bridge).slots() == old(bridge).slots()
        },
        old(native).ready_state != LOADING && !shutdown && (old(table).ops@.len()
            >= limits.max_concurrent_reads_per_global && old(table).ops@.len() > 0 || old(
            bridge,
        ).slots().len() >= old(bridge).limit()) ==> {
            &&& outcome is Failed
            &&& final(native).ready_state == DONE
            &&& final(native)@.result is None
            &&& final(native)@.error matches Some(error) && error.0 == "SecurityError"@
            &&& final(table).ops@ == old(table).ops@
            &&& final(bridge).slots() == old(bridge).slots()
        },
        old(native).ready_state != LOADING && !shutdown && (old(table).ops@.len()
            < limits.max_concurrent_reads_per_global || old(table).ops@.len() == 0)
            && limits.chunk_size_valid() && !old(bridge).is_closed() && !old(bridge).out_of_ids()
            && old(bridge).slots().len() < old(bridge).limit() && 0 < old(bridge).next_id()
            < u64::MAX ==> ({
            let size = request.data.spec_size();
            &&& final(native).ready_state == LOADING
            &&& final(native)@.result is None && final(native)@.error is None
            &&& final(native).loaded == 0 && final(native).total == size
            &&& final(table).ops@.len() == old(table).ops@.len() + 1
            &&& final(bridge).slots().len() == old(bridge).slots().len() + 1
            &&& size == 0 ==> outcome is AtEnd
            &&& size > 0 ==> (outcome matches StartRead::Submit(task) && {
                &&& task.window.offset == 0
                &&& task.window.len == if limits.default_chunk_size < size {
                    limits.default_chunk_size as int
                } else {
                    size as int
                }
                &&& task.data@ == request.data@
                &&& task.operation_id.spec_get() == final(bridge).slots().last().id
                &&& task.window.generation == final(native).generation
            })
        }),
{
    crate::bridge::lemma_completed_bounds(bridge.slots());
}

/// A read as a data URL fails for its length exactly when the URL would be longer
/// than the ceiling, and otherwise begins as every read does.
pub proof fn lemma_data_url_reads_keep_the_ceiling(
    table: &mut ReaderTable,
    native: &mut FileReaderNative,
    bridge: &mut IoBridge,
    request: ReadRequest,
    limits: FileApiLimits,
    outcome: StartRead,
    media_type: &str,
    len: Option<u64>,
)
    requires
        consistent(*table, *bridge),
        request.data.wf(),
        request.kind == ReadKind::DataUrl,
        call_ensures(read_as_data_url, (table, native, bridge, request, &limits, false), outcome),
        media_type@ == request.data.spec_media_type(),
        call_ensures(data_url_len, (media_type, request.data.spec_size()), len),
        native.ready_state != LOADING,
        table.ops@.len() < limits.max_concurrent_reads_per_global || table.ops@.len() == 0,
        limits.chunk_size_valid(),
        !bridge.is_closed(),
        !bridge.out_of_ids(),
        bridge.slots().len() < bridge.limit(),
        0 < bridge.next_id() < u64::MAX,
    ensures
        len is None || len->0 > limits.max_data_url_output ==> {
            &&& outcome is Failed
            &&& final(native).ready_state == DONE
            &&& final(native)@.error matches Some(error) && error.0 == "QuotaExceededError"@
            &&& final(table).ops@ == old(table).ops@
            &&& final(bridge).slots() == old(bridge).slots()
        },
        len is Some && len->0 <= limits.max_data_url_output ==> {
            &&& outcome is Submit || outcome is AtEnd
            &&& final(native).ready_state == LOADING
            &&& final(table).ops@.len() == old(table).ops@.len() + 1
        },
{
    crate::bridge::lemma_completed_bounds(bridge.slots());
}

/// A read that fails settles its reader without a result and with the failure,
/// ends its operation and no other, and fires `error` and then `loadend`, each
/// once; a failure that comes too late for the generation does nothing.
pub proof fn lemma_failed_reads_report_once(
    table: &mut ReaderTable,
    native: &mut FileReaderNative,
    bridge: &mut IoBridge,
    generation: u64,
    operation: u64,
    total: u64,
    error: FileApiError,
    job: Option<DispatchJob>,
    settled: FileReaderNative,
    fire: Option<ReaderEvent>,
    after: &mut FileReaderNative,
    follow_up: Option<DispatchJob>,
    ended: FileReaderNative,
    last: Option<ReaderEvent>,
    again: Option<ReaderEvent>,
    other: int,
)
    requires
        consistent(*table, *bridge),
        call_ensures(
            fail_operation,
            (table, native, bridge, generation, operation, total, error),
            job,
        ),
        settled@ == final(native)@,
        after@ == settled@,
        ended@ == final(after)@,
        job matches Some(queued) ==> {
            &&& call_ensures(run_dispatch, (&settled, &queued, false), fire)
            &&& call_ensures(finish_dispatch, (after, &queued), follow_up)
            &&& call_ensures(run_dispatch, (&ended, &queued, false), again)
            &&& follow_up matches Some(next) ==> call_ensures(
                run_dispatch,
                (&ended, &next, false),
                last,
            )
        },
        0 <= other < table.ops@.len() || table.ops@.len() == 0,
    ensures
        old(native).generation != generation ==> {
            &&& job is None
            &&& settled@ == old(native)@
            &&& final(table).ops@ == old(table).ops@
            &&& *final(bridge) == *old(bridge)
        },
        old(native).generation == generation ==> {
            &&& settled.ready_state == DONE
            &&& settled@.result is None
            &&& settled@.error is Some
            &&& job is Some && follow_up is Some
            &&& fire == Some(ReaderEvent { kind: EventKind::Error, loaded: 0, total })
            &&& last == Some(ReaderEvent { kind: EventKind::LoadEnd, loaded: 0, total })
            &&& again is None
            &&& forall|i: int|
                0 <= i < final(table).ops@.len() ==> (#[trigger] final(table).ops@[i]).operation
                    != operation
            &&& old(table).ops@.len() > 0 && old(table).ops@[other].operation != operation
                ==> final(table).ops@.contains(old(table).ops@[other])
        },
{
    let before = table.ops@;
    crate::filereader::lemma_op_of(before, operation);
    if native.generation == generation {
        let rest = final(table).ops@;
        if let Some(at) = op_of(before, operation) {
            assert forall|i: int| 0 <= i < rest.len() implies (#[trigger] rest[i]).operation
                != operation by {
                if i < at {
                    assert(rest[i] == before[i]);
                } else {
                    assert(rest[i] == before[i + 1]);
                }
            }
            if before.len() > 0 && before[other].operation != operation {
                if other < at {
                    assert(rest[other] == before[other]);
                } else {
                    assert(rest[other - 1] == before[other]);
                }
            }
        } else if before.len() > 0 {
            assert(rest[other] == before[other]);
        }
    }
}

/// A chunk that could not be read fails the read.
pub proof fn lemma_failed_chunks_fail_the_read(
    table: &mut ReaderTable,
    native: &mut FileReaderNative,
    bridge: &mut IoBridge,
    generation: u64,
    operation: u64,
    state: PumpState,
    error: FileApiError,
    now: i64,
    step: PumpStep,
    settled: FileReaderNative,
    fire: Option<ReaderEvent>,
)
    requires
        consistent(*table, *bridge),
        state.wf(),
        call_ensures(
            apply_chunk,
            (table, native, bridge, generation, operation, state, ChunkKind::Error(error), now),
            step,
        ),
        native.generation == generation,
        settled@ == final(native)@,
        step.next matches PumpPhase::Queue(job) ==> call_ensures(
            run_dispatch,
            (&settled, &job, false),
            fire,
        ),
    ensures
        step.fire is None,
        step.next is Queue,
        settled.ready_state == DONE,
        settled@.result is None,
        settled@.error is Some,
        fire == Some(ReaderEvent { kind: EventKind::Error, loaded: 0, total: state.total }),
{
}

/// A delivered chunk is handed to the read that waits for it, with the packaging
/// state that the read had, and to it alone: a chunk of another generation, of
/// another reader or after the shutdown is dropped, and a second one finds
/// nothing that waits.
pub proof fn lemma_chunks_reach_the_waiting_read(
    table: &mut ReaderTable,
    native: FileReaderNative,
    completion: FileReaderChunkCompletion,
    shutdown: bool,
    job: Option<PumpJob>,
    at: int,
)
    requires
        table.wf(),
        call_ensures(settle_reader_completion, (table, &native, completion, shutdown), job),
        0 <= at < table.ops@.len(),
        table.ops@[at].operation == completion.operation_id.spec_get(),
    ensures
        job is Some <==> !shutdown && old(table).ops@[at].generation == completion.generation
            && native.generation == completion.generation && old(table).ops@[at].reader
            == native.key && old(table).ops@[at].pump is Some,
        job matches Some(pump) ==> {
            &&& pump.chunk == completion.kind
            &&& Some(pump.state) == old(table).ops@[at].pump
            &&& pump.generation == completion.generation
            &&& pump.operation == completion.operation_id.spec_get()
            &&& final(table).ops@[at].pump is None
            &&& final(table).ops@[at].data == old(table).ops@[at].data
        },
        job is None ==> final(table).ops@ == old(table).ops@,
{
    crate::filereader::lemma_op_of(table.ops@, completion.operation_id.spec_get());
}

/// An event of an earlier operation, or after the shutdown, is never fired; a
/// terminal event is fired on a settled reader and `loadend` after it, and events
/// of a read only while the reader is busy.
pub proof fn lemma_events_belong_to_their_operation(
    native: FileReaderNative,
    job: DispatchJob,
    shutdown: bool,
    fire: Option<ReaderEvent>,
)
    requires
        call_ensures(run_dispatch, (&native, &job, shutdown), fire),
    ensures
        shutdown || native.generation != job.generation ==> fire is None,
        fire matches Some(event) ==> event == job.event,
        fire is Some && job.terminal is Some ==> native.ready_state == DONE
            && !native.terminal_dispatched,
        fire is Some && job.terminal is None && job.event.kind == EventKind::LoadEnd
            ==> native.terminal_dispatched,
        fire is Some && job.terminal is None && job.event.kind != EventKind::LoadEnd
            ==> native.ready_state == LOADING,
        !shutdown && native.generation == job.generation && job.terminal is Some
            && native.ready_state == DONE && !native.terminal_dispatched && native.error is Some
            ==> fire is Some,
{
}


/// The first chunk is asked for again only while nothing has come of the read, and
/// then from the front of the blob; a request that the host refuses fails the read
/// and ends its operation.
pub proof fn lemma_first_requests_are_repeated_or_fail(
    table: ReaderTable,
    native: FileReaderNative,
    bridge: IoBridge,
    operation: u64,
    shutdown: bool,
    submit: Option<FileReaderChunkTask>,
    failing: &mut ReaderTable,
    reader: &mut FileReaderNative,
    slots: &mut IoBridge,
    task: FileReaderChunkTask,
    total: u64,
    error: FileIoSubmitError,
    job: Option<DispatchJob>,
    at: int,
)
    requires
        consistent(table, bridge),
        call_ensures(
            poll_reader_once,
            (&table, &native, &bridge, operation, shutdown),
            submit,
        ),
        consistent(*failing, *slots),
        call_ensures(first_submit_failed, (failing, reader, slots, &task, total, error), job),
        0 <= at < table.ops@.len(),
        table.ops@[at].operation == operation,
    ensures
        shutdown ==> submit is None,
        submit matches Some(asked) ==> {
            &&& asked.window.offset == 0
            &&& asked.window.generation == native.generation
            &&& asked.operation_id.spec_get() == operation
            &&& asked.data@ == table.ops@[at].data@
            &&& table.ops@[at].pump matches Some(state) && state.loaded == 0
                && !state.loadstart_sent
        },
        old(reader).generation == task.window.generation ==> {
            &&& job is Some
            &&& final(reader).ready_state == DONE
            &&& final(reader)@.result is None
            &&& final(reader)@.error is Some
        },
        old(reader).generation != task.window.generation ==> job is None && final(reader)@
            == old(reader)@,
        forall|i: int|
            0 <= i < final(failing).ops@.len() ==> (#[trigger] final(failing).ops@[i]).operation
                != task.operation_id.spec_get(),
{
    crate::filereader::lemma_op_of(table.ops@, operation);
    let id = task.operation_id.spec_get();
    let before = failing.ops@;
    let rest = final(failing).ops@;
    crate::filereader::lemma_op_of(before, id);
    if let Some(gone) = op_of(before, id) {
        assert forall|i: int| 0 <= i < rest.len() implies (#[trigger] rest[i]).operation != id by {
            if i < gone {
                assert(rest[i] == before[i]);
            } else {
                assert(rest[i] == before[i + 1]);
            }
        }
    }
}

} // verus!
