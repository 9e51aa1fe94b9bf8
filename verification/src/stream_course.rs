//! A stream over a whole course: which chunks are asked for, what the reads are
//! answered with, and in which order.

use vstd::prelude::*;

use crate::blob::{lemma_segments_bytes_len, BlobData};
use crate::bridge::{is_live, IoBridge};
use crate::execute::{
    chunk_done, chunk_read, is_faithful, lemma_chunk_gives_bytes, never_cancelled, HostReader,
};
use crate::io::{StreamChunkCompletion, StreamChunkTask};
use crate::limits::FileApiLimits;
use crate::resource::CancelProbe;
use crate::streams::{
    create_effect, packaged_effect, read_effect, settlements, stream_op_of,
    stream_settled, ReadCall, ReadResultView, RefusalView, StreamMode, StreamStep, StreamTable,
    StreamView,
};
use crate::utf8::{decode_piece, joined, lemma_split_safe, replacements, tail_len, utf8_lossy};

verus! {

/// What a `read()` was answered with.
pub enum Answer {
    /// A chunk of bytes.
    Bytes(Seq<u8>),
    /// A chunk of text.
    Text(Seq<char>),
    /// The end.
    Done,
    /// A failure.
    Reject((Seq<char>, Seq<char>)),
}

/// A stream, what it has asked for, and what its reads were answered with.
pub struct StreamCourse {
    /// The stream.
    pub stream: StreamView,
    /// The operations under way.
    pub table: StreamTable,
    /// The bridge.
    pub bridge: IoBridge,
    /// The chunk request under way.
    pub request: Option<StreamChunkTask>,
    /// The answers so far: the number of the `read()` call, and what it was given.
    pub answers: Seq<(u64, Answer)>,
}

/// A settlement as an answer.
pub open spec fn answered(settled: (u64, ReadResultView)) -> (u64, Answer) {
    (
        settled.0,
        match settled.1 {
            ReadResultView::Text(text) => Answer::Text(text),
            ReadResultView::Done => Answer::Done,
            ReadResultView::Reject(error) => Answer::Reject(error),
        },
    )
}

/// Settlements as answers.
pub open spec fn all_answered(settled: Seq<(u64, ReadResultView)>) -> Seq<(u64, Answer)> {
    Seq::new(settled.len(), |i: int| answered(settled[i]))
}

/// A course begins with the creation of the stream.
pub open spec fn course_begins(
    course: StreamCourse,
    data: BlobData,
    limits: FileApiLimits,
    mode: StreamMode,
    table: StreamTable,
    bridge: IoBridge,
) -> bool {
    &&& create_effect(
        table,
        bridge,
        data,
        limits,
        mode,
        false,
        true,
        course.table,
        course.bridge,
        Ok::<StreamView, RefusalView>(course.stream),
    )
    &&& course.request is None
    &&& course.answers == Seq::<(u64, Answer)>::empty()
}

/// The script calls `read()`, and the request that it leads to goes out.
pub open spec fn course_reads(
    before: StreamCourse,
    after: StreamCourse,
    limits: FileApiLimits,
    call: ReadCall,
) -> bool {
    &&& read_effect(
        before.stream,
        before.table,
        before.bridge,
        limits,
        false,
        false,
        after.stream,
        call,
    )
    &&& after.request == match call {
        ReadCall::Queued { seq, submit } => match submit {
            Some(task) => Some(task),
            None => before.request,
        },
        _ => before.request,
    }
    &&& after == (StreamCourse { stream: after.stream, request: after.request, ..before })
}

/// A worker answers the request under way; the answer is settled, a chunk of bytes
/// is packaged, and the request that follows goes out.
pub open spec fn course_goes_on<H: HostReader, P: CancelProbe>(
    host: H,
    probe: P,
    before: StreamCourse,
    after: StreamCourse,
    limits: FileApiLimits,
    completion: StreamChunkCompletion,
    settled: StreamView,
    step: StreamStep,
) -> bool {
    &&& before.request matches Some(task) && {
        &&& chunk_read(host, probe, task.data, task.window, false, completion.kind)
        &&& completion.operation_id == task.operation_id
        &&& completion.generation == task.window.generation
    }
    &&& stream_settled(
        before.stream,
        before.table,
        before.bridge,
        limits,
        completion,
        false,
        settled,
        after.table,
        after.bridge,
        step,
    )
    &&& match step {
        StreamStep::Stale => {
            &&& after.stream == settled
            &&& after.request is None
            &&& after.answers == before.answers
        },
        StreamStep::Settle { settled: list, submit } => {
            &&& after.stream == settled
            &&& after.request == submit
            &&& after.answers == before.answers + all_answered(settlements(list@))
        },
        StreamStep::Package { demand, bytes } => {
            &&& packaged_effect(
                settled,
                after.table,
                after.bridge,
                limits,
                bytes@.len() as int,
                after.stream,
                after.request,
            )
            &&& after.answers == before.answers.push((demand.seq, Answer::Bytes(bytes@)))
        },
    }
}

/// One step of a course.
pub open spec fn stream_step<H: HostReader, P: CancelProbe>(
    host: H,
    probe: P,
    before: StreamCourse,
    after: StreamCourse,
    limits: FileApiLimits,
) -> bool {
    ||| exists|call: ReadCall| course_reads(before, after, limits, call)
    ||| exists|completion: StreamChunkCompletion, settled: StreamView, step: StreamStep|
        course_goes_on(host, probe, before, after, limits, completion, settled, step)
}

/// The bytes of answers.
pub open spec fn answered_bytes(answers: Seq<(u64, Answer)>) -> Seq<u8>
    decreases answers.len(),
{
    if answers.len() == 0 {
        Seq::empty()
    } else {
        answered_bytes(answers.drop_last()) + match answers.last().1 {
            Answer::Bytes(bytes) => bytes,
            _ => Seq::empty(),
        }
    }
}

/// The text of answers.
pub open spec fn answered_text(answers: Seq<(u64, Answer)>) -> Seq<char>
    decreases answers.len(),
{
    if answers.len() == 0 {
        Seq::empty()
    } else {
        answered_text(answers.drop_last()) + match answers.last().1 {
            Answer::Text(text) => text,
            _ => Seq::empty(),
        }
    }
}

/// What the answers so far come to, when `loaded` bytes are consumed.
spec fn given_up_to(
    answers: Seq<(u64, Answer)>,
    mode: StreamMode,
    waiting: Seq<u8>,
    content: Seq<u8>,
    loaded: int,
) -> bool {
    match mode {
        StreamMode::Bytes => answered_bytes(answers) == content.take(loaded),
        StreamMode::Text => (answered_text(answers), waiting) == decode_piece(
            Seq::empty(),
            content.take(loaded),
        ),
    }
}

/// Answers that are all chunks of the stream, none of them empty or too long.
pub open spec fn all_chunks(answers: Seq<(u64, Answer)>, mode: StreamMode, most: int) -> bool {
    forall|i: int|
        0 <= i < answers.len() ==> match (#[trigger] answers[i]).1 {
            Answer::Bytes(bytes) => mode == StreamMode::Bytes && 0 < bytes.len() <= most,
            Answer::Text(text) => mode == StreamMode::Text && text.len() > 0,
            _ => false,
        }
}

/// The reads were answered in the order of the calls.
pub open spec fn in_call_order(answers: Seq<(u64, Answer)>) -> bool {
    forall|i: int| 0 <= i < answers.len() ==> (#[trigger] answers[i]).0 == i
}

/// A course before its end.
spec fn under_way(
    course: StreamCourse,
    data: BlobData,
    limits: FileApiLimits,
    mode: StreamMode,
    content: Seq<u8>,
    steps: int,
) -> bool {
    let stream = course.stream;
    let operation = stream.lease.operation;
    &&& stream.data == Some(data)
    &&& stream.mode == mode
    &&& stream.chunk_size == limits.default_chunk_size
    &&& !stream.cancelled && stream.errored is None && !stream.lease.terminal
    &&& stream.generation == 1
    &&& is_live(course.bridge.slots(), operation)
    &&& stream_op_of(course.table.ops@, operation) matches Some(at) && {
        &&& course.table.ops@[at].data@ == data@
        &&& course.table.ops@[at].generation == 1
    }
    &&& stream.loaded <= data.spec_size()
    &&& course.answers.len() + stream.queue.len() <= steps
    &&& stream.next_seq == course.answers.len() + stream.queue.len()
    &&& in_call_order(course.answers)
    &&& forall|i: int|
        0 <= i < stream.queue.len() ==> (#[trigger] stream.queue[i]).generation == 1
            && stream.queue[i].seq == course.answers.len() + i
    &&& all_chunks(course.answers, mode, limits.default_chunk_size as int)
    &&& given_up_to(course.answers, mode, stream.waiting, content, stream.loaded as int)
    &&& match course.request {
        None => !stream.in_flight && stream.queue.len() == 0,
        Some(task) => {
            &&& stream.in_flight && stream.queue.len() > 0
            &&& asks_for_the_next_bytes(task, course, data)
        },
    }
}

/// Whether a request asks for the bytes that follow those consumed so far: a whole
/// chunk of them, or as many as are left.
pub open spec fn asks_for_the_next_bytes(
    task: StreamChunkTask,
    course: StreamCourse,
    data: BlobData,
) -> bool {
    &&& task.data@ == data@
    &&& task.data.wf()
    &&& task.operation_id.spec_get() == course.stream.lease.operation
    &&& task.window.generation == course.stream.generation
    &&& task.window.offset == course.stream.loaded
    &&& task.window.len <= course.stream.chunk_size
    &&& task.window.offset + task.window.len <= data.spec_size()
    &&& task.window.len == course.stream.chunk_size || task.window.offset + task.window.len
        == data.spec_size()
}

/// A course at its end: after the chunks, the reads that waited are done.
spec fn over(
    course: StreamCourse,
    limits: FileApiLimits,
    mode: StreamMode,
    content: Seq<u8>,
    steps: int,
) -> bool {
    let done = ended_from(course.answers);
    &&& course.stream.data is None
    &&& course.stream.errored is None
    &&& course.request is None
    &&& in_call_order(course.answers)
    &&& 0 <= done <= course.answers.len() <= steps
    &&& all_chunks(course.answers.take(done), mode, limits.default_chunk_size as int)
    &&& forall|i: int| done <= i < course.answers.len() ==> (#[trigger] course.answers[i]).1 is Done
    &&& whole_given(course.answers, mode, content)
    &&& done < course.answers.len() || (mode == StreamMode::Text && tail_len(content) > 0)
}

/// What all answers together come to at the end.
pub open spec fn whole_given(
    answers: Seq<(u64, Answer)>,
    mode: StreamMode,
    content: Seq<u8>,
) -> bool {
    match mode {
        StreamMode::Bytes => answered_bytes(answers) == content,
        StreamMode::Text => {
            let cut = content.len() - tail_len(content);
            answered_text(answers) == utf8_lossy(content.take(cut)) + replacements(
                tail_len(content) as nat,
            )
        },
    }
}

/// How many answers come before the first that says the stream is done.
pub open spec fn ended_from(answers: Seq<(u64, Answer)>) -> int
    decreases answers.len(),
{
    if answers.len() > 0 && answers.last().1 is Done {
        ended_from(answers.drop_last())
    } else {
        answers.len() as int
    }
}

proof fn lemma_bytes_push(answers: Seq<(u64, Answer)>, answer: (u64, Answer))
    ensures
        answered_bytes(answers.push(answer)) == answered_bytes(answers) + match answer.1 {
            Answer::Bytes(bytes) => bytes,
            _ => Seq::empty(),
        },
        answered_text(answers.push(answer)) == answered_text(answers) + match answer.1 {
            Answer::Text(text) => text,
            _ => Seq::empty(),
        },
{
    assert(answers.push(answer).drop_last() =~= answers);
}

proof fn lemma_done_adds_nothing(answers: Seq<(u64, Answer)>, more: Seq<(u64, Answer)>)
    requires
        forall|i: int| 0 <= i < more.len() ==> (#[trigger] more[i]).1 is Done,
    ensures
        answered_bytes(answers + more) == answered_bytes(answers),
        answered_text(answers + more) == answered_text(answers),
        more.len() > 0 || !(answers.len() > 0 && answers.last().1 is Done) ==> ended_from(
            answers + more,
        ) == ended_from(answers),
    decreases more.len(),
{
    if more.len() == 0 {
        assert(answers + more =~= answers);
    } else {
        let front = more.drop_last();
        assert forall|i: int| 0 <= i < front.len() implies (#[trigger] front[i]).1 is Done by {
            assert(more[i].1 is Done);
        }
        lemma_done_adds_nothing(answers, front);
        assert((answers + more).drop_last() =~= answers + front);
        assert((answers + more).last() == more.last());
        assert(more[more.len() - 1].1 is Done);
        if front.len() == 0 {
            assert(answers + front =~= answers);
        }
        assert(answered_bytes(answers + more) =~= answered_bytes(answers));
        assert(answered_text(answers + more) =~= answered_text(answers));
    }
}

proof fn lemma_chunks_do_not_end(answers: Seq<(u64, Answer)>, mode: StreamMode, most: int)
    requires
        all_chunks(answers, mode, most),
    ensures
        ended_from(answers) == answers.len(),
{
    if answers.len() > 0 {
        assert(answers[answers.len() - 1] == answers.last());
    }
}

/// A read keeps a course on its way.
#[verifier::rlimit(60)]
#[verifier::spinoff_prover]
proof fn lemma_read_keeps_course(
    before: StreamCourse,
    after: StreamCourse,
    data: BlobData,
    limits: FileApiLimits,
    mode: StreamMode,
    content: Seq<u8>,
    steps: int,
    call: ReadCall,
)
    requires
        limits.chunk_size_valid(),
        0 <= steps < u64::MAX,
        under_way(before, data, limits, mode, content, steps) || over(
            before,
            limits,
            mode,
            content,
            steps,
        ),
        course_reads(before, after, limits, call),
    ensures
        under_way(after, data, limits, mode, content, steps + 1) || over(
            after,
            limits,
            mode,
            content,
            steps + 1,
        ),
{
    if under_way(before, data, limits, mode, content, steps) {
        assert(call is Queued);
        let queue = before.stream.queue;
        assert forall|i: int| 0 <= i < after.stream.queue.len() implies (
        #[trigger] after.stream.queue[i]).generation == 1 && after.stream.queue[i].seq
            == after.answers.len() + i by {
            if i < queue.len() {
                assert(after.stream.queue[i] == queue[i]);
            }
        }
    }
}

/// An answer of a faithful host keeps a course on its way, or ends it.
#[verifier::rlimit(80)]
#[verifier::spinoff_prover]
proof fn lemma_answer_keeps_course<H: HostReader, P: CancelProbe>(
    host: H,
    probe: P,
    resources: Map<u64, Seq<u8>>,
    before: StreamCourse,
    after: StreamCourse,
    data: BlobData,
    limits: FileApiLimits,
    mode: StreamMode,
    steps: int,
    completion: StreamChunkCompletion,
    settled: StreamView,
    step: StreamStep,
)
    requires
        data.wf(),
        data.held_by(resources),
        is_faithful(host, resources),
        never_cancelled(probe),
        limits.chunk_size_valid(),
        0 <= steps < u64::MAX,
        under_way(before, data, limits, mode, data.content(resources), steps),
        course_goes_on(host, probe, before, after, limits, completion, settled, step),
    ensures
        under_way(after, data, limits, mode, data.content(resources), steps + 1) || over(
            after,
            limits,
            mode,
            data.content(resources),
            steps + 1,
        ),
{
    let content = data.content(resources);
    let task = before.request->0;
    let stream = before.stream;
    let demand = stream.queue[0];
    let most = limits.default_chunk_size as int;
    lemma_segments_bytes_len(data.segments(), resources);
    assert(demand.generation == 1 && demand.seq == before.answers.len());
    let popped = crate::streams::without_oldest(stream);
    assert forall|i: int| 0 <= i < popped.queue.len() implies (#[trigger] popped.queue[i])
        == stream.queue[i + 1] by {}
    assert(chunk_done(host, probe, task.data, task.window, false, completion.kind));
    if stream.loaded < data.spec_size() {
        lemma_chunk_gives_bytes(host, probe, resources, task.data, task.window, completion.kind);
        let bytes = completion.kind->Chunk_0@;
        let from = stream.loaded as int;
        let to = from + bytes.len();
        assert(content.take(to) =~= content.take(from) + bytes);
        if mode == StreamMode::Bytes {
            lemma_bytes_push(before.answers, (demand.seq, Answer::Bytes(bytes)));
            assert(after.answers[before.answers.len() as int].1 == Answer::Bytes(bytes));
            assert(under_way(after, data, limits, mode, content, steps + 1));
        } else {
            let (text, waiting) = decode_piece(stream.waiting, bytes);
            lemma_decode_goes_on(content.take(from), bytes);
            let list = step->settled;
            if text.len() == 0 {
                assert(all_answered(settlements(list@)) =~= Seq::<(u64, Answer)>::empty());
                assert(after.answers =~= before.answers);
                assert(after.stream.queue =~= stream.queue);
                assert(answered_text(before.answers) + text =~= answered_text(before.answers));
                assert(under_way(after, data, limits, mode, content, steps + 1));
            } else {
                let answer = (demand.seq, Answer::Text(text));
                assert(all_answered(settlements(list@)) =~= seq![answer]);
                assert(after.answers =~= before.answers.push(answer));
                lemma_bytes_push(before.answers, answer);
                assert(after.answers[before.answers.len() as int] == answer);
                assert(under_way(after, data, limits, mode, content, steps + 1));
            }
        }
    } else {
        assert(completion.kind is Eof);
        assert(content.take(content.len() as int) =~= content);
        let list = settlements(step->settled@);
        let more = all_answered(list);
        let rest = crate::streams::all_settled(popped.queue, ReadResultView::Done);
        let waits = mode == StreamMode::Text && stream.waiting.len() > 0;
        assert(list.len() == stream.queue.len());
        assert forall|i: int| 1 <= i < more.len() implies (#[trigger] more[i]) == (
            (before.answers.len() + i) as u64,
            Answer::Done,
        ) by {
            assert(list[i] == rest[i - 1]);
            assert(popped.queue[i - 1] == stream.queue[i]);
        }
        assert(Seq::<u8>::empty() + content =~= content);
        assert(after.answers == before.answers + more);
        assert forall|i: int| 0 <= i < after.answers.len() implies (
        #[trigger] after.answers[i]).0 == i by {
            if i < before.answers.len() {
                assert(after.answers[i] == before.answers[i]);
            } else {
                assert(after.answers[i] == more[i - before.answers.len()]);
            }
        }
        lemma_chunks_do_not_end(before.answers, mode, most);
        if waits {
            let last = Answer::Text(replacements(stream.waiting.len()));
            assert(more[0] == (demand.seq, last));
            let front = before.answers.push(more[0]);
            let tail = more.skip(1);
            assert(front + tail =~= after.answers);
            lemma_bytes_push(before.answers, more[0]);
            assert(all_chunks(front, mode, most)) by {
                assert forall|i: int| 0 <= i < front.len() implies match (#[trigger] front[i]).1 {
                    Answer::Bytes(bytes) => false,
                    Answer::Text(text) => text.len() > 0,
                    _ => false,
                } by {
                    if i < before.answers.len() {
                        assert(front[i] == before.answers[i]);
                    }
                }
            }
            lemma_chunks_do_not_end(front, mode, most);
            lemma_done_adds_nothing(front, tail);
            assert(after.answers.take(front.len() as int) =~= front);
            assert(over(after, limits, mode, content, steps + 1));
        } else {
            assert(more[0] == (demand.seq, Answer::Done));
            lemma_done_adds_nothing(before.answers, more);
            assert(after.answers.take(before.answers.len() as int) =~= before.answers);
            assert(over(after, limits, mode, content, steps + 1));
        }
    }
}

/// Decoding goes on where it stopped.
proof fn lemma_decode_goes_on(before: Seq<u8>, bytes: Seq<u8>)
    ensures
        ({
            let (text, waiting) = decode_piece(Seq::empty(), before);
            let (more, rest) = decode_piece(waiting, bytes);
            decode_piece(Seq::empty(), before + bytes) == (text + more, rest)
        }),
{
    let pieces = seq![before, bytes];
    lemma_split_safe(pieces);
    assert(pieces.drop_last() =~= seq![before]);
    assert(seq![before].drop_last() =~= Seq::<Seq<u8>>::empty());
    reveal_with_fuel(joined, 3);
    reveal_with_fuel(crate::utf8::decode_pieces, 3);
    assert(joined(pieces) =~= before + bytes);
    let (text, waiting) = decode_piece(Seq::empty(), before);
    assert(Seq::<char>::empty() + text =~= text);
}

proof fn lemma_course<H: HostReader, P: CancelProbe>(
    host: H,
    probe: P,
    resources: Map<u64, Seq<u8>>,
    data: BlobData,
    limits: FileApiLimits,
    mode: StreamMode,
    table: StreamTable,
    bridge: IoBridge,
    courses: Seq<StreamCourse>,
    at: int,
)
    requires
        data.wf(),
        data.held_by(resources),
        is_faithful(host, resources),
        never_cancelled(probe),
        0 <= at < courses.len() <= u64::MAX,
        course_begins(courses[0], data, limits, mode, table, bridge),
        forall|i: int|
            0 <= i < courses.len() - 1 ==> #[trigger] stream_step(
                host,
                probe,
                courses[i],
                courses[i + 1],
                limits,
            ),
    ensures
        under_way(courses[at], data, limits, mode, data.content(resources), at) || over(
            courses[at],
            limits,
            mode,
            data.content(resources),
            at,
        ),
        limits.chunk_size_valid(),
    decreases at,
{
    let content = data.content(resources);
    if at == 0 {
        let course = courses[0];
        let operation = course.stream.lease.operation;
        assert(stream_op_of(course.table.ops@, operation) is Some);
        assert(is_live(course.bridge.slots(), operation));
        assert(content.take(0) =~= Seq::<u8>::empty());
        let none = Seq::<u8>::empty();
        assert(none + none =~= none);
        assert(none.take(0) =~= none);
        assert(none.skip(0) =~= none);
        assert(decode_piece(none, none) == (Seq::<char>::empty(), none));
    } else {
        lemma_course(host, probe, resources, data, limits, mode, table, bridge, courses, at - 1);
        let before = courses[at - 1];
        let after = courses[at - 1 + 1];
        assert(stream_step(host, probe, courses[at - 1], courses[at - 1 + 1], limits));
        if exists|call: ReadCall| course_reads(before, after, limits, call) {
            let call = choose|call: ReadCall| course_reads(before, after, limits, call);
            lemma_read_keeps_course(before, after, data, limits, mode, content, at - 1, call);
        } else {
            let (completion, settled, step) = choose|
                completion: StreamChunkCompletion,
                settled: StreamView,
                step: StreamStep,
            |
                course_goes_on(host, probe, before, after, limits, completion, settled, step);
            lemma_answer_keeps_course(
                host,
                probe,
                resources,
                before,
                after,
                data,
                limits,
                mode,
                at - 1,
                completion,
                settled,
                step,
            );
        }
    }
}

/// The reads of a byte stream are answered in the order of the calls, each with
/// the bytes that follow those of the one before. Every request asks for the bytes
/// behind those consumed so far. Once a read is done, the chunks before it are the
/// whole content of the blob, and all reads after it are done too.
pub proof fn lemma_byte_stream_course<H: HostReader, P: CancelProbe>(
    host: H,
    probe: P,
    resources: Map<u64, Seq<u8>>,
    data: BlobData,
    limits: FileApiLimits,
    table: StreamTable,
    bridge: IoBridge,
    courses: Seq<StreamCourse>,
)
    requires
        data.wf(),
        data.held_by(resources),
        is_faithful(host, resources),
        never_cancelled(probe),
        0 < courses.len() <= u64::MAX,
        course_begins(courses[0], data, limits, StreamMode::Bytes, table, bridge),
        forall|i: int|
            0 <= i < courses.len() - 1 ==> #[trigger] stream_step(
                host,
                probe,
                courses[i],
                courses[i + 1],
                limits,
            ),
    ensures
        ({
            let last = courses.last();
            let answers = last.answers;
            let content = data.content(resources);
            &&& forall|i: int| 0 <= i < answers.len() ==> (#[trigger] answers[i]).0 == i
            &&& forall|i: int|
                0 <= i < answers.len() ==> match (#[trigger] answers[i]).1 {
                    Answer::Bytes(bytes) => 0 < bytes.len() <= limits.default_chunk_size,
                    Answer::Done => answered_bytes(answers) == content && forall|k: int|
                        i <= k < answers.len() ==> (#[trigger] answers[k]).1 is Done,
                    _ => false,
                }
            &&& answered_bytes(answers).is_prefix_of(content)
            &&& last.request matches Some(task) ==> task.window.offset == answered_bytes(
                answers,
            ).len() && (task.window.len == limits.default_chunk_size || task.window.offset
                + task.window.len == content.len())
        }),
{
    let at = courses.len() - 1;
    lemma_course(
        host,
        probe,
        resources,
        data,
        limits,
        StreamMode::Bytes,
        table,
        bridge,
        courses,
        at,
    );
    let content = data.content(resources);
    lemma_segments_bytes_len(data.segments(), resources);
    let last = courses.last();
    let answers = last.answers;
    if under_way(last, data, limits, StreamMode::Bytes, content, at) {
        assert(all_chunks(answers, StreamMode::Bytes, limits.default_chunk_size as int));
    } else {
        lemma_over_answers(last, limits, StreamMode::Bytes, content, at);
    }
}

proof fn lemma_over_answers(
    course: StreamCourse,
    limits: FileApiLimits,
    mode: StreamMode,
    content: Seq<u8>,
    steps: int,
)
    requires
        over(course, limits, mode, content, steps),
    ensures
        ({
            let answers = course.answers;
            forall|i: int|
                0 <= i < answers.len() ==> match (#[trigger] answers[i]).1 {
                    Answer::Bytes(bytes) => mode == StreamMode::Bytes && 0 < bytes.len()
                        <= limits.default_chunk_size,
                    Answer::Text(text) => mode == StreamMode::Text && text.len() > 0,
                    Answer::Done => forall|k: int|
                        i <= k < answers.len() ==> (#[trigger] answers[k]).1 is Done,
                    _ => false,
                }
        }),
{
    let answers = course.answers;
    let done = ended_from(answers);
    let front = answers.take(done);
    assert forall|i: int| 0 <= i < answers.len() implies match (#[trigger] answers[i]).1 {
        Answer::Bytes(bytes) => mode == StreamMode::Bytes && 0 < bytes.len()
            <= limits.default_chunk_size,
        Answer::Text(text) => mode == StreamMode::Text && text.len() > 0,
        Answer::Done => forall|k: int|
            i <= k < answers.len() ==> (#[trigger] answers[k]).1 is Done,
        _ => false,
    } by {
        if i < done {
            assert(front[i] == answers[i]);
        }
    }
}

/// The reads of a text stream are answered in the order of the calls, each with
/// some characters. Once a read is done, the texts before it are the text of the
/// whole content, wherever the chunks were cut; of what is incomplete at the very
/// end every byte is replaced.
pub proof fn lemma_text_stream_course<H: HostReader, P: CancelProbe>(
    host: H,
    probe: P,
    resources: Map<u64, Seq<u8>>,
    data: BlobData,
    limits: FileApiLimits,
    table: StreamTable,
    bridge: IoBridge,
    courses: Seq<StreamCourse>,
)
    requires
        data.wf(),
        data.held_by(resources),
        is_faithful(host, resources),
        never_cancelled(probe),
        0 < courses.len() <= u64::MAX,
        course_begins(courses[0], data, limits, StreamMode::Text, table, bridge),
        forall|i: int|
            0 <= i < courses.len() - 1 ==> #[trigger] stream_step(
                host,
                probe,
                courses[i],
                courses[i + 1],
                limits,
            ),
    ensures
        ({
            let answers = courses.last().answers;
            let content = data.content(resources);
            let cut = content.len() - tail_len(content);
            &&& forall|i: int| 0 <= i < answers.len() ==> (#[trigger] answers[i]).0 == i
            &&& forall|i: int|
                0 <= i < answers.len() ==> match (#[trigger] answers[i]).1 {
                    Answer::Text(text) => text.len() > 0,
                    Answer::Done => answered_text(answers) == utf8_lossy(content.take(cut))
                        + replacements(tail_len(content) as nat) && forall|k: int|
                        i <= k < answers.len() ==> (#[trigger] answers[k]).1 is Done,
                    _ => false,
                }
            &&& vstd::utf8::valid_utf8(content) && courses.last().stream.data is None
                ==> answered_text(answers) == vstd::utf8::decode_utf8(content)
        }),
{
    let at = courses.len() - 1;
    lemma_course(
        host,
        probe,
        resources,
        data,
        limits,
        StreamMode::Text,
        table,
        bridge,
        courses,
        at,
    );
    let content = data.content(resources);
    let last = courses.last();
    if under_way(last, data, limits, StreamMode::Text, content, at) {
        assert(all_chunks(last.answers, StreamMode::Text, limits.default_chunk_size as int));
    } else {
        lemma_over_answers(last, limits, StreamMode::Text, content, at);
        if vstd::utf8::valid_utf8(content) {
            let whole = seq![content];
            reveal_with_fuel(joined, 2);
            assert(whole.drop_last() =~= Seq::<Seq<u8>>::empty());
            assert(joined(whole) =~= content);
            lemma_split_safe(whole);
            crate::utf8::lemma_valid_is_not_replaced(content);
            crate::utf8::lemma_no_tail(content);
            assert(content.take(content.len() as int) =~= content);
            assert(answered_text(last.answers) =~= utf8_lossy(content));
        }
    }
}

} // verus!
