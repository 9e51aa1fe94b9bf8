//! The events of a reader over a whole course: what each generation emits, and
//! in which order.

use vstd::prelude::*;

use crate::bridge::IoBridge;
use crate::error::FileApiError;
use crate::filereader::{
    abort_effect, dispatch_finished, dispatch_fires, failure_effect, issued_generation, live_event,
    loadend_job, loading_reader, publish_step, start_class, start_effect, AbortOutcome,
    DispatchJob, EventKind, PumpPhase, PumpState, PumpStep, ReadRequest, ReaderEvent, ReaderTable,
    ReaderView, StartRead, TerminalKind, DONE, EMPTY, LOADING,
};
use crate::limits::FileApiLimits;

verus! {

/// An event that reached the handlers.
pub struct Emitted {
    /// The generation that it belongs to.
    pub generation: u64,
    /// Which event.
    pub kind: EventKind,
    /// The `readyState` that the handlers saw.
    pub ready_state: u8,
}

/// Where the current generation of a reader stands.
pub enum Stage {
    /// No operation was started yet.
    Idle,
    /// Chunks are read.
    Reading,
    /// The job of the terminal event waits.
    Queued(DispatchJob),
    /// The terminal event was fired, and its handlers run.
    Firing(DispatchJob),
    /// The job of `loadend` waits.
    Ending(DispatchJob),
    /// Nothing more is to come.
    Over,
}

/// A reader, where it stands, the generations that it had and what it emitted.
pub struct Course {
    /// The reader.
    pub reader: ReaderView,
    /// Where its generation stands.
    pub stage: Stage,
    /// The generations so far.
    pub issued: Set<u64>,
    /// The events so far.
    pub emitted: Seq<Emitted>,
}

/// What a generation emitted, in order.
pub open spec fn emitted_by(emitted: Seq<Emitted>, generation: u64) -> Seq<Emitted>
    decreases emitted.len(),
{
    if emitted.len() == 0 {
        Seq::empty()
    } else if emitted.last().generation == generation {
        emitted_by(emitted.drop_last(), generation).push(emitted.last())
    } else {
        emitted_by(emitted.drop_last(), generation)
    }
}

/// Whether an event says how an operation ended.
pub open spec fn is_terminal(kind: EventKind) -> bool {
    kind == EventKind::Load || kind == EventKind::Error || kind == EventKind::Abort
}

/// `loadstart` and `progress`, seen while the reader was busy.
pub open spec fn all_progress(events: Seq<Emitted>) -> bool {
    forall|i: int|
        0 <= i < events.len() ==> {
            &&& (#[trigger] events[i]).kind == EventKind::LoadStart || events[i].kind
                == EventKind::Progress
            &&& events[i].ready_state == LOADING
        }
}

/// The same, and then one terminal event, seen when the reader was done.
pub open spec fn ends_terminal(events: Seq<Emitted>) -> bool {
    &&& events.len() > 0
    &&& all_progress(events.drop_last())
    &&& is_terminal(events.last().kind)
    &&& events.last().ready_state == DONE
}

/// The same, and then `loadend`.
pub open spec fn ends_complete(events: Seq<Emitted>) -> bool {
    &&& events.len() > 0
    &&& ends_terminal(events.drop_last())
    &&& events.last().kind == EventKind::LoadEnd
    &&& events.last().ready_state == DONE
}

/// Whether `job` fires the terminal event of the settled reader.
pub open spec fn settles(reader: ReaderView, job: DispatchJob) -> bool {
    &&& reader.ready_state == DONE
    &&& !reader.terminal_dispatched
    &&& job.generation == reader.generation
    &&& is_terminal(job.event.kind)
    &&& job.terminal is Some
    &&& job.terminal == Some(TerminalKind::Error) ==> reader.error is Some
}

/// A read begins, under a generation that the reader never had.
pub open spec fn begins(before: Course, after: Course) -> bool {
    let generation = after.reader.generation;
    &&& before.reader.ready_state != LOADING
    &&& !before.issued.contains(generation)
    &&& after.reader == loading_reader(before.reader, generation, after.reader.total)
    &&& after == (Course {
        reader: after.reader,
        stage: Stage::Reading,
        issued: before.issued.insert(generation),
        ..before
    })
}

/// A fresh generation is settled at once: a read fails at its start, or a busy
/// reader is aborted.
pub open spec fn settles_afresh(before: Course, after: Course) -> bool {
    let generation = after.reader.generation;
    &&& !before.issued.contains(generation)
    &&& after.stage matches Stage::Queued(job) && settles(after.reader, job)
    &&& after == (Course {
        reader: after.reader,
        stage: after.stage,
        issued: before.issued.insert(generation),
        ..before
    })
}

/// The read under way is settled.
pub open spec fn is_settled(before: Course, after: Course) -> bool {
    &&& before.stage is Reading
    &&& after.reader.generation == before.reader.generation
    &&& after.stage matches Stage::Queued(job) && settles(after.reader, job)
    &&& after == (Course { reader: after.reader, stage: after.stage, ..before })
}

/// More bytes of the read under way are there, or a reader that is not busy
/// loses its result.
pub open spec fn changes_quietly(before: Course, after: Course) -> bool {
    &&& after.reader == (ReaderView {
        loaded: after.reader.loaded,
        result: after.reader.result,
        ..before.reader
    })
    &&& after == (Course { reader: after.reader, ..before })
}

/// `loadstart` or `progress` is fired.
pub open spec fn fires_progress(before: Course, after: Course, event: ReaderEvent) -> bool {
    &&& before.stage is Reading
    &&& event.kind == EventKind::LoadStart || event.kind == EventKind::Progress
    &&& live_event(before.reader, before.reader.generation, event) is Some
    &&& after == (Course { emitted: after.emitted, ..before })
    &&& after.emitted == before.emitted.push(
        Emitted {
            generation: before.reader.generation,
            kind: event.kind,
            ready_state: before.reader.ready_state,
        },
    )
}

/// A dispatch job fires its event, if it fires at all.
pub open spec fn dispatches(before: Course, after: Course, job: DispatchJob) -> bool {
    if dispatch_fires(before.reader, job, false) {
        &&& before.stage == Stage::Queued(job) || before.stage == Stage::Ending(job)
        &&& after.stage == if before.stage is Queued {
            Stage::Firing(job)
        } else {
            Stage::Over
        }
        &&& after == (Course { stage: after.stage, emitted: after.emitted, ..before })
        &&& after.emitted == before.emitted.push(
            Emitted {
                generation: job.generation,
                kind: job.event.kind,
                ready_state: before.reader.ready_state,
            },
        )
    } else {
        after == before
    }
}

/// A dispatch job whose terminal event was fired ends, and the job that follows
/// it, if one does, waits. The handlers may have started another operation.
pub open spec fn finishes(before: Course, after: Course, job: DispatchJob) -> bool {
    let (reader, follow_up) = dispatch_finished(before.reader, job);
    &&& job.terminal is Some
    &&& before.stage == Stage::Firing(job) || before.reader.generation != job.generation
    &&& after == (Course { reader: after.reader, stage: after.stage, ..before })
    &&& after.reader == reader
    &&& after.stage == match follow_up {
        Some(next) => Stage::Ending(next),
        None => before.stage,
    }
}

/// One step of a course.
pub open spec fn course_step(before: Course, after: Course) -> bool {
    ||| begins(before, after)
    ||| settles_afresh(before, after)
    ||| is_settled(before, after)
    ||| changes_quietly(before, after)
    ||| exists|event: ReaderEvent| fires_progress(before, after, event)
    ||| exists|job: DispatchJob| dispatches(before, after, job)
    ||| exists|job: DispatchJob| finishes(before, after, job)
}

/// A reader that nothing was done with.
pub open spec fn is_fresh(course: Course) -> bool {
    &&& course.reader.ready_state == EMPTY
    &&& !course.reader.terminal_dispatched
    &&& course.stage is Idle
    &&& course.issued == Set::<u64>::empty().insert(course.reader.generation)
    &&& course.emitted == Seq::<Emitted>::empty()
}

/// Where every generation stands: the current one as its stage says, every other
/// one has emitted some `loadstart` and `progress` events, or after them one
/// terminal event, or after that `loadend`.
pub open spec fn course_wf(course: Course) -> bool {
    let own = emitted_by(course.emitted, course.reader.generation);
    &&& course.issued.contains(course.reader.generation)
    &&& forall|generation: u64|
        !course.issued.contains(generation) ==> #[trigger] emitted_by(course.emitted, generation)
            == Seq::<Emitted>::empty()
    &&& forall|generation: u64|
        {
            let events = #[trigger] emitted_by(course.emitted, generation);
            all_progress(events) || ends_terminal(events) || ends_complete(events)
        }
    &&& match course.stage {
        Stage::Idle => {
            &&& course.reader.ready_state == EMPTY
            &&& all_progress(own)
        },
        Stage::Reading => {
            &&& course.reader.ready_state == LOADING
            &&& !course.reader.terminal_dispatched
            &&& all_progress(own)
        },
        Stage::Queued(job) => {
            &&& settles(course.reader, job)
            &&& all_progress(own)
        },
        Stage::Firing(job) => {
            &&& settles(course.reader, job)
            &&& ends_terminal(own)
        },
        Stage::Ending(job) => {
            &&& course.reader.ready_state == DONE
            &&& course.reader.terminal_dispatched
            &&& job.generation == course.reader.generation
            &&& job.terminal is None
            &&& job.event.kind == EventKind::LoadEnd
            &&& ends_terminal(own)
        },
        Stage::Over => {
            &&& course.reader.ready_state == DONE
            &&& course.reader.terminal_dispatched
            &&& ends_complete(own)
        },
    }
}

proof fn lemma_emitted_push(emitted: Seq<Emitted>, event: Emitted, generation: u64)
    ensures
        emitted_by(emitted.push(event), generation) == if event.generation == generation {
            emitted_by(emitted, generation).push(event)
        } else {
            emitted_by(emitted, generation)
        },
{
    assert(emitted.push(event).drop_last() =~= emitted);
}

/// Every step keeps the order of the events, and a generation that was replaced
/// emits nothing more.
pub proof fn lemma_course_step(before: Course, after: Course)
    requires
        course_wf(before),
        course_step(before, after),
    ensures
        course_wf(after),
        before.issued.subset_of(after.issued),
        forall|generation: u64|
            before.issued.contains(generation) && generation != before.reader.generation
                ==> generation != after.reader.generation && #[trigger] emitted_by(
                after.emitted,
                generation,
            ) == emitted_by(before.emitted, generation),
{
    let current = before.reader.generation;
    let own = emitted_by(before.emitted, current);
    if after.emitted != before.emitted {
        let event = after.emitted.last();
        if exists|event: ReaderEvent| fires_progress(before, after, event) {
            let fired = choose|event: ReaderEvent| fires_progress(before, after, event);
            assert(after.emitted == before.emitted.push(event));
        } else {
            let job = choose|job: DispatchJob| dispatches(before, after, job);
            assert(after.emitted == before.emitted.push(event));
        }
        assert(event.generation == current);
        assert forall|generation: u64| #[trigger]
            emitted_by(after.emitted, generation) == if generation == current {
                own.push(event)
            } else {
                emitted_by(before.emitted, generation)
            } by {
            lemma_emitted_push(before.emitted, event, generation);
        }
        assert(own.push(event).drop_last() =~= own);
        assert(all_progress(own.push(event)) || ends_terminal(own.push(event)) || ends_complete(
            own.push(event),
        ));
    } else if before.issued.contains(after.reader.generation) {
        assert(after.reader.generation == current);
    } else {
        assert(emitted_by(before.emitted, after.reader.generation) == Seq::<Emitted>::empty());
    }
}

/// Whether `courses` are the steps of one course, from a fresh reader on.
pub open spec fn is_course(courses: Seq<Course>) -> bool {
    &&& courses.len() > 0
    &&& is_fresh(courses[0])
    &&& forall|i: int|
        0 <= i < courses.len() - 1 ==> course_step(#[trigger] courses[i], courses[i + 1])
}

/// Over a whole course every generation emits `loadstart` and `progress` while
/// the reader is busy, then at most one terminal event and, after it, at most one
/// `loadend`, both when the reader is done; nothing comes after that.
pub proof fn lemma_course_is_ordered(courses: Seq<Course>, at: int)
    requires
        is_course(courses),
        0 <= at < courses.len(),
    ensures
        course_wf(courses[at]),
    decreases at,
{
    if at == 0 {
        assert forall|generation: u64| #[trigger]
            emitted_by(courses[0].emitted, generation) == Seq::<Emitted>::empty() by {}
    } else {
        lemma_course_is_ordered(courses, at - 1);
        assert(course_step(courses[at - 1], courses[at - 1 + 1]));
        lemma_course_step(courses[at - 1], courses[at]);
    }
}

/// A generation that was replaced emits nothing more, however the course goes on.
pub proof fn lemma_replaced_generation_is_silent(
    courses: Seq<Course>,
    generation: u64,
    from: int,
    to: int,
)
    requires
        is_course(courses),
        0 <= from <= to < courses.len(),
        courses[from].issued.contains(generation),
        courses[from].reader.generation != generation,
    ensures
        emitted_by(courses[to].emitted, generation) == emitted_by(
            courses[from].emitted,
            generation,
        ),
        courses[to].issued.contains(generation),
        courses[to].reader.generation != generation,
    decreases to - from,
{
    if from < to {
        lemma_replaced_generation_is_silent(courses, generation, from, to - 1);
        lemma_course_is_ordered(courses, to - 1);
        assert(course_step(courses[to - 1], courses[to - 1 + 1]));
        lemma_course_step(courses[to - 1], courses[to]);
    }
}

/// `loadend` follows a terminal event exactly where no handler started another
/// operation.
///
/// While the handlers of the terminal event run, the generation has emitted that
/// event last. When they are done, the job that ends the dispatch leads to
/// `loadend` if the generation is still the current one, and to nothing if it was
/// replaced; and the generation never emits anything else.
pub proof fn lemma_loadend_follows_unless_replaced(
    courses: Seq<Course>,
    fired: int,
    ended: int,
    job: DispatchJob,
)
    requires
        is_course(courses),
        0 <= fired < ended < courses.len() - 1,
        courses[fired].stage == Stage::Firing(job),
        finishes(courses[ended], courses[ended + 1], job),
    ensures
        ends_terminal(emitted_by(courses[fired].emitted, job.generation)),
        if courses[ended].reader.generation == job.generation {
            &&& courses[ended + 1].stage == Stage::Ending(loadend_job(job))
            &&& dispatch_fires(courses[ended + 1].reader, loadend_job(job), false)
        } else {
            forall|to: int|
                ended < to < courses.len() ==> emitted_by(
                    (#[trigger] courses[to]).emitted,
                    job.generation,
                ) == emitted_by(courses[ended].emitted, job.generation)
        },
        forall|to: int|
            fired <= to < courses.len() ==> ({
                let events = emitted_by((#[trigger] courses[to]).emitted, job.generation);
                ends_terminal(events) || ends_complete(events)
            }),
{
    lemma_course_is_ordered(courses, fired);
    lemma_course_is_ordered(courses, ended);
    lemma_course_is_ordered(courses, ended + 1);
    assert forall|to: int| fired <= to < courses.len() implies ({
        let events = emitted_by((#[trigger] courses[to]).emitted, job.generation);
        ends_terminal(events) || ends_complete(events)
    }) && courses[to].issued.contains(job.generation) by {
        lemma_terminal_stays(courses, job.generation, fired, to);
    }
    if courses[ended].reader.generation != job.generation {
        assert(courses[ended].issued.contains(job.generation));
        assert forall|to: int| ended < to < courses.len() implies emitted_by(
            (#[trigger] courses[to]).emitted,
            job.generation,
        ) == emitted_by(courses[ended].emitted, job.generation) by {
            lemma_replaced_generation_is_silent(courses, job.generation, ended, to);
        }
    }
}

proof fn lemma_terminal_stays(courses: Seq<Course>, generation: u64, from: int, to: int)
    requires
        is_course(courses),
        0 <= from <= to < courses.len(),
        courses[from].issued.contains(generation),
        ({
            let events = emitted_by(courses[from].emitted, generation);
            ends_terminal(events) || ends_complete(events)
        }),
    ensures
        courses[to].issued.contains(generation),
        ({
            let events = emitted_by(courses[to].emitted, generation);
            ends_terminal(events) || ends_complete(events)
        }),
    decreases to - from,
{
    if from < to {
        lemma_terminal_stays(courses, generation, from, to - 1);
        lemma_course_is_ordered(courses, to - 1);
        lemma_course_is_ordered(courses, to);
        assert(course_step(courses[to - 1], courses[to - 1 + 1]));
        lemma_course_step(courses[to - 1], courses[to]);
        lemma_own_terminal_stays(courses[to - 1], courses[to], generation);
    }
}

proof fn lemma_own_terminal_stays(before: Course, after: Course, generation: u64)
    requires
        course_wf(before),
        course_wf(after),
        course_step(before, after),
        before.issued.contains(generation),
        ({
            let events = emitted_by(before.emitted, generation);
            ends_terminal(events) || ends_complete(events)
        }),
    ensures
        ({
            let events = emitted_by(after.emitted, generation);
            ends_terminal(events) || ends_complete(events)
        }),
{
    let events = emitted_by(before.emitted, generation);
    if after.emitted != before.emitted {
        let event = after.emitted.last();
        if exists|event: ReaderEvent| fires_progress(before, after, event) {
            let fired = choose|event: ReaderEvent| fires_progress(before, after, event);
            assert(after.emitted == before.emitted.push(event));
        } else {
            let job = choose|job: DispatchJob| dispatches(before, after, job);
            assert(after.emitted == before.emitted.push(event));
        }
        lemma_emitted_push(before.emitted, event, generation);
        if event.generation == generation {
            lemma_not_progress(events);
            assert(events.push(event).drop_last() =~= events);
            lemma_not_progress(events.push(event));
        }
    }
}

proof fn lemma_not_progress(events: Seq<Emitted>)
    requires
        ends_terminal(events) || ends_complete(events),
    ensures
        !all_progress(events),
{
    let last = events[events.len() - 1];
    assert(last == events.last());
}

/// The course after a read was asked for.
pub open spec fn started(before: Course, reader: ReaderView, outcome: StartRead) -> Course {
    match outcome {
        StartRead::Refused(_) => before,
        StartRead::Failed(job) => Course {
            reader,
            stage: Stage::Queued(job),
            issued: before.issued.insert(reader.generation),
            ..before
        },
        _ => Course {
            reader,
            stage: Stage::Reading,
            issued: before.issued.insert(reader.generation),
            ..before
        },
    }
}

/// Asking for a read is a step of the course.
pub proof fn lemma_start_is_step(
    before: Course,
    request: ReadRequest,
    limits: FileApiLimits,
    shutdown: bool,
    table: ReaderTable,
    bridge: IoBridge,
    reader_after: ReaderView,
    table_after: ReaderTable,
    bridge_after: IoBridge,
    outcome: StartRead,
)
    requires
        course_wf(before),
        !before.issued.contains(issued_generation(table.queue)),
        start_effect(
            start_class(
                before.reader.ready_state,
                shutdown,
                table.queue.active,
                limits,
                bridge,
            ),
            request,
            limits,
            before.reader,
            table,
            bridge,
            reader_after,
            table_after,
            bridge_after,
            outcome,
        ),
    ensures
        course_step(before, started(before, reader_after, outcome)),
{
    let after = started(before, reader_after, outcome);
    match outcome {
        StartRead::Refused(_) => {
            assert(changes_quietly(before, after));
        },
        StartRead::Failed(job) => {
            assert(settles_afresh(before, after));
        },
        _ => {
            assert(begins(before, after));
        },
    }
}

/// Settling a read with its result is a step of the course.
pub proof fn lemma_publish_is_step(
    before: Course,
    state: PumpState,
    table: ReaderTable,
    bridge: IoBridge,
    reader_after: ReaderView,
    table_after: ReaderTable,
    bridge_after: IoBridge,
    step: PumpStep,
    operation: u64,
)
    requires
        before.stage is Reading,
        publish_step(
            state,
            before.reader,
            table,
            bridge,
            reader_after,
            table_after,
            bridge_after,
            step,
            before.reader.generation,
            operation,
        ),
    ensures
        step.next matches PumpPhase::Queue(job) && course_step(
            before,
            Course { reader: reader_after, stage: Stage::Queued(job), ..before },
        ),
{
    let job = step.next->Queue_0;
    let after = Course { reader: reader_after, stage: Stage::Queued(job), ..before };
    assert(settles(reader_after, job));
    assert(is_settled(before, after));
}

/// Settling a read with a failure is a step of the course.
pub proof fn lemma_failure_is_step(
    before: Course,
    table: ReaderTable,
    bridge: IoBridge,
    reader_after: ReaderView,
    table_after: ReaderTable,
    bridge_after: IoBridge,
    job: Option<DispatchJob>,
    operation: u64,
    total: u64,
    error: FileApiError,
)
    requires
        before.stage is Reading,
        failure_effect(
            before.reader,
            table,
            bridge,
            reader_after,
            table_after,
            bridge_after,
            job,
            before.reader.generation,
            operation,
            total,
            error,
        ),
    ensures
        job matches Some(queued) && course_step(
            before,
            Course { reader: reader_after, stage: Stage::Queued(queued), ..before },
        ),
{
    let queued = job->0;
    let after = Course { reader: reader_after, stage: Stage::Queued(queued), ..before };
    assert(settles(reader_after, queued));
    assert(is_settled(before, after));
}

/// `abort()` is a step of the course.
pub proof fn lemma_abort_is_step(
    before: Course,
    table: ReaderTable,
    bridge: IoBridge,
    reader_after: ReaderView,
    table_after: ReaderTable,
    bridge_after: IoBridge,
    outcome: AbortOutcome,
)
    requires
        course_wf(before),
        !before.issued.contains(issued_generation(table.queue)),
        abort_effect(
            before.reader,
            table,
            bridge,
            reader_after,
            table_after,
            bridge_after,
            outcome,
        ),
    ensures
        course_step(
            before,
            match outcome.job {
                Some(job) => Course {
                    reader: reader_after,
                    stage: Stage::Queued(job),
                    issued: before.issued.insert(reader_after.generation),
                    ..before
                },
                None => Course { reader: reader_after, ..before },
            },
        ),
{
    match outcome.job {
        Some(job) => {
            let after = Course {
                reader: reader_after,
                stage: Stage::Queued(job),
                issued: before.issued.insert(reader_after.generation),
                ..before
            };
            assert(settles(reader_after, job));
            assert(settles_afresh(before, after));
        },
        None => {
            assert(changes_quietly(before, Course { reader: reader_after, ..before }));
        },
    }
}

} // verus!
