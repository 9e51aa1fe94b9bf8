//! The work of a task away from the script thread.

use vstd::prelude::*;
use vstd::utf8::{decode_utf8, valid_utf8};

use crate::blob::{
    lemma_slice_bytes, lemma_slice_held, lemma_slice_prefix, lemma_slice_segments,
    lemma_total_len_concat, lemma_total_len_nonnegative, segments_held, slice_segments, total_len,
    BlobData, BlobSegment, ByteSource,
};
use crate::error::{FileApiError, ResourceLimitKind};
use crate::filereader::{
    chunk_applied, is_initial, lemma_read_gives_content, next_window, packaged, PumpState,
    ReadRequest,
};
use crate::io::{
    chunk_outcome, chunk_plan, plan_chunk, settle_chunk, ChunkPlan, FileIoCompletion, FileIoTask,
    ChunkKind, ChunkWindow, FileReaderChunkCompletion, FileReaderChunkTask,
    StreamChunkCompletion, StreamChunkTask,
};
use crate::limits::{FileApiLimits, MAX_CHUNK};
use crate::bridge::IoBridge;
use crate::promise_read::{
    is_packaged, promise_started, read_of, read_settled, PendingRead, PromiseValue, ReadMode,
    Settlement, StartPromise,
};
use crate::read::{
    assembled, lemma_faithful_answers, memory_piece, plan_range, range_failure,
};
use crate::resource::CancelProbe;
use crate::streams::{
    chunk_follows, joined_text, lemma_byte_stream_gives_content, lemma_text_stream_gives_content,
};
use crate::utf8::{decode_piece, joined, lemma_valid_is_not_replaced, utf8_lossy};

verus! {

/// Reads the resources of the host.
pub trait HostReader {
    /// Reads `len` bytes at `offset` of the resource behind `handle`.
    fn read(&self, handle: u64, offset: u64, len: u64) -> Result<Vec<u8>, FileApiError>;
}

/// Whether `answer` may have come of reading one range: the work was not given
/// up, and the source answered.
pub open spec fn may_come_of<H: HostReader, P: CancelProbe>(
    host: H,
    probe: P,
    segment: BlobSegment,
    answer: Result<Vec<u8>, FileApiError>,
) -> bool {
    &&& call_ensures(P::is_cancelled, (&probe,), false)
    &&& match segment.source {
        ByteSource::Memory(_) => answer matches Ok(bytes) && bytes@ == segment.bytes(Map::empty()),
        ByteSource::Host { handle, len } => call_ensures(
            H::read,
            (&host, handle, segment.offset, segment.len),
            answer,
        ),
    }
}

/// Whether an answer is not the range that was asked for.
pub open spec fn is_failure(answer: Result<Vec<u8>, FileApiError>, segment: BlobSegment) -> bool {
    match answer {
        Ok(bytes) => bytes@.len() != segment.len,
        Err(_) => true,
    }
}

/// Whether `answers` may have come of a plan: one for each range in order, up to
/// the first failure.
pub open spec fn answers_come_of<H: HostReader, P: CancelProbe>(
    host: H,
    probe: P,
    plan: Seq<BlobSegment>,
    answers: Seq<Result<Vec<u8>, FileApiError>>,
) -> bool {
    &&& answers.len() <= plan.len()
    &&& forall|i: int|
        0 <= i < answers.len() ==> may_come_of(host, probe, plan[i], #[trigger] answers[i])
    &&& answers.len() < plan.len() ==> answers.len() > 0 && is_failure(
        answers.last(),
        plan[answers.len() - 1],
    )
}

/// Whether reading a plan may end in `result`.
pub open spec fn plan_read<H: HostReader, P: CancelProbe>(
    host: H,
    probe: P,
    plan: Seq<BlobSegment>,
    result: Result<Seq<u8>, FileApiError>,
) -> bool {
    exists|answers: Seq<Result<Vec<u8>, FileApiError>>| #[trigger]
        answers_come_of(host, probe, plan, answers) && result == assembled(plan, answers, 0)
}

/// A result with its bytes as a sequence.
pub open spec fn bytes_of(result: Result<Vec<u8>, FileApiError>) -> Result<Seq<u8>, FileApiError> {
    match result {
        Ok(bytes) => Ok(bytes@),
        Err(error) => Err(error),
    }
}

/// Whether reading the range `start..end` of a blob may end in `result`.
///
/// The probe is asked before every segment of the blob, also before those that
/// lie outside the range: the read is given up where the probe says so for one of
/// them, and where it says so for none the segments in the range are read.
pub open spec fn range_read<H: HostReader, P: CancelProbe>(
    host: H,
    probe: P,
    data: BlobData,
    start: u64,
    end: u64,
    result: Result<Vec<u8>, FileApiError>,
) -> bool {
    match range_failure(data.spec_size(), start, end) {
        Some(error) => result == Err::<Vec<u8>, FileApiError>(error),
        None => {
            ||| {
                &&& data.segments().len() > 0
                &&& call_ensures(P::is_cancelled, (&probe,), true)
                &&& result == Err::<Vec<u8>, FileApiError>(FileApiError::Cancelled)
            }
            ||| {
                &&& data.segments().len() > 0 ==> call_ensures(P::is_cancelled, (&probe,), false)
                &&& plan_read(
                    host,
                    probe,
                    slice_segments(data.segments(), start as int, end as int),
                    bytes_of(result),
                )
            }
        },
    }
}

/// Reads the range `start..end` of a blob, segment by segment.
///
/// The probe is asked before every segment of the blob. A wrong length fails, and
/// no partial bytes are handed out.
pub fn read_blob_range<H: HostReader, P: CancelProbe>(
    data: &BlobData,
    start: u64,
    end: u64,
    host: &H,
    probe: &P,
) -> (result: Result<Vec<u8>, FileApiError>)
    requires
        data.wf(),
    ensures
        range_read(*host, *probe, *data, start, end, result),
{
    let plan = match plan_range(data, start, end) {
        Ok(plan) => plan,
        Err(error) => {
            return Err(error);
        },
    };
    let ghost segments = data.segments();
    let mut out: Vec<u8> = Vec::new();
    let ghost mut answers: Seq<Result<Vec<u8>, FileApiError>> = Seq::empty();
    let count: usize = data.segment_count();
    let mut i: usize = 0;
    let mut position: u64 = 0;
    let mut at: usize = 0;
    proof {
        assert(joined_answers(answers) =~= out@);
        assert(segments.take(0) =~= Seq::<BlobSegment>::empty());
    }
    while i < count
        invariant
            data.wf(),
            segments == data.segments(),
            i <= count == segments.len(),
            position == total_len(segments.take(i as int)),
            at == slice_segments(segments.take(i as int), start as int, end as int).len(),
            at <= plan@.len(),
            plan@ == slice_segments(segments, start as int, end as int),
            crate::blob::segments_wf(plan@),
            range_failure(data.spec_size(), start, end) is None,
            i > 0 ==> call_ensures(P::is_cancelled, (probe,), false),
            answers.len() == at,
            out@ == joined_answers(answers),
            forall|k: int|
                0 <= k < at ==> may_come_of(*host, *probe, plan@[k], #[trigger] answers[k])
                    && !is_failure(answers[k], plan@[k]),
        decreases count - i,
    {
        if probe.is_cancelled() {
            return Err(FileApiError::Cancelled);
        }
        let ghost here = segments.take(i + 1);
        proof {
            assert(here.drop_last() =~= segments.take(i as int));
            assert(here.last() == segments[i as int]);
            assert(segments =~= here + segments.skip(i + 1));
            lemma_total_len_concat(here, segments.skip(i + 1));
            lemma_total_len_nonnegative(segments.skip(i + 1));
            lemma_slice_prefix(segments, i + 1, start as int, end as int);
        }
        let after: u64 = position + data.segment(i).len;
        let low: u64 = if position < start {
            start
        } else {
            position
        };
        let high: u64 = if after < end {
            after
        } else {
            end
        };
        if low < high {
            let segment = &plan[at];
            assert(plan@[at as int].wf());
            let answer = match memory_piece(segment) {
                Some(bytes) => {
                    assert(bytes@ == segment.bytes(Map::empty()));
                    Ok(bytes)
                },
                None => match &segment.source {
                    ByteSource::Host { handle, len } => host.read(
                        *handle,
                        segment.offset,
                        segment.len,
                    ),
                    ByteSource::Memory(_) => Err(FileApiError::Internal),
                },
            };
            let ghost before = answers;
            proof {
                answers = answers.push(answer);
                assert(may_come_of(*host, *probe, plan@[at as int], answer));
                assert forall|k: int| 0 <= k < answers.len() implies may_come_of(
                    *host,
                    *probe,
                    plan@[k],
                    #[trigger] answers[k],
                ) by {
                    if k < at {
                        assert(answers[k] == before[k]);
                    }
                }
            }
            match answer {
                Err(error) => {
                    proof {
                        lemma_assembled_prefix(plan@, answers, 0);
                        assert(answers_come_of(*host, *probe, plan@, answers));
                        assert(plan_read(
                            *host,
                            *probe,
                            plan@,
                            Err::<Seq<u8>, FileApiError>(error),
                        ));
                    }
                    return Err(error);
                },
                Ok(bytes) => {
                    if bytes.len() as u64 != segment.len {
                        proof {
                            lemma_assembled_prefix(plan@, answers, 0);
                            assert(answers_come_of(*host, *probe, plan@, answers));
                            assert(plan_read(
                                *host,
                                *probe,
                                plan@,
                                Err::<Seq<u8>, FileApiError>(FileApiError::InvalidRange),
                            ));
                        }
                        return Err(FileApiError::InvalidRange);
                    }
                    crate::read::append_bytes(&mut out, &bytes);
                    proof {
                        assert(answers.drop_last() =~= before);
                    }
                },
            }
            assert(at < plan.len());
            at = at + 1;
        }
        position = after;
        i = i + 1;
    }
    proof {
        assert(segments.take(i as int) =~= segments);
        lemma_assembled_whole(plan@, answers, 0);
        assert(answers.skip(0) =~= answers);
        assert(answers_come_of(*host, *probe, plan@, answers));
        assert(plan_read(*host, *probe, plan@, Ok::<Seq<u8>, FileApiError>(out@)));
    }
    Ok(out)
}

/// The bytes of answers, one after the other.
spec fn joined_answers(answers: Seq<Result<Vec<u8>, FileApiError>>) -> Seq<u8>
    decreases answers.len(),
{
    if answers.len() == 0 {
        Seq::empty()
    } else {
        joined_answers(answers.drop_last()) + answers.last()->Ok_0@
    }
}

proof fn lemma_joined_front(answers: Seq<Result<Vec<u8>, FileApiError>>)
    requires
        answers.len() > 0,
    ensures
        joined_answers(answers) == answers[0]->Ok_0@ + joined_answers(answers.skip(1)),
    decreases answers.len(),
{
    if answers.len() > 1 {
        let front = answers.drop_last();
        lemma_joined_front(front);
        assert(front.skip(1) =~= answers.skip(1).drop_last());
        assert(answers.skip(1).last() == answers.last());
        assert(joined_answers(answers) =~= answers[0]->Ok_0@ + joined_answers(answers.skip(1)));
    } else {
        assert(answers.drop_last() =~= Seq::<Result<Vec<u8>, FileApiError>>::empty());
        assert(answers.skip(1) =~= Seq::<Result<Vec<u8>, FileApiError>>::empty());
        assert(joined_answers(answers) =~= answers[0]->Ok_0@ + joined_answers(answers.skip(1)));
    }
}

proof fn lemma_assembled_whole(
    plan: Seq<BlobSegment>,
    answers: Seq<Result<Vec<u8>, FileApiError>>,
    at: int,
)
    requires
        0 <= at <= plan.len(),
        answers.len() == plan.len(),
        forall|i: int| 0 <= i < plan.len() ==> !is_failure(#[trigger] answers[i], plan[i]),
    ensures
        assembled(plan, answers, at) == Ok::<Seq<u8>, FileApiError>(
            joined_answers(answers.skip(at)),
        ),
    decreases plan.len() - at,
{
    if at < plan.len() {
        lemma_assembled_whole(plan, answers, at + 1);
        assert(!is_failure(answers[at], plan[at]));
        lemma_joined_front(answers.skip(at));
        assert(answers.skip(at).skip(1) =~= answers.skip(at + 1));
    } else {
        assert(answers.skip(at) =~= Seq::<Result<Vec<u8>, FileApiError>>::empty());
    }
}

proof fn lemma_assembled_prefix(
    plan: Seq<BlobSegment>,
    answers: Seq<Result<Vec<u8>, FileApiError>>,
    at: int,
)
    requires
        0 < answers.len() <= plan.len(),
        0 <= at < answers.len(),
        forall|i: int|
            0 <= i < answers.len() - 1 ==> !is_failure(#[trigger] answers[i], plan[i]),
        is_failure(answers.last(), plan[answers.len() - 1]),
    ensures
        assembled(plan, answers, at) == match answers.last() {
            Ok(_) => Err::<Seq<u8>, FileApiError>(FileApiError::InvalidRange),
            Err(error) => Err(error),
        },
    decreases answers.len() - at,
{
    if at < answers.len() - 1 {
        lemma_assembled_prefix(plan, answers, at + 1);
        assert(!is_failure(answers[at], plan[at]));
    }
}

/// Whether reading a whole blob may end in `result`: not at all once the runtime
/// is shut down or the work given up, and not above the ceiling.
pub open spec fn whole_read<H: HostReader, P: CancelProbe>(
    host: H,
    probe: P,
    task: FileIoTask,
    shutdown: bool,
    result: Result<Vec<u8>, FileApiError>,
) -> bool {
    ||| {
        &&& shutdown || call_ensures(P::is_cancelled, (&probe,), true)
        &&& result == Err::<Vec<u8>, FileApiError>(FileApiError::Cancelled)
    }
    ||| {
        &&& !shutdown
        &&& call_ensures(P::is_cancelled, (&probe,), false)
        &&& if task.data.spec_size() > task.limits.max_materialize_bytes {
            result == Err::<Vec<u8>, FileApiError>(
                FileApiError::ResourceLimit(ResourceLimitKind::MaterializeBytes),
            )
        } else {
            range_read(host, probe, task.data, 0, task.data.spec_size(), result)
        }
    }
}

impl FileIoTask {
    /// Reads the whole blob and gives the completion.
    pub fn execute<H: HostReader, P: CancelProbe>(&self, host: &H, probe: &P, shutdown: bool) -> (
        completion: FileIoCompletion)
        requires
            self.data.wf(),
        ensures
            completion.context_id == self.context_id,
            completion.operation_id == self.operation_id,
            whole_read(*host, *probe, *self, shutdown, completion.result),
    {
        if shutdown || probe.is_cancelled() {
            return self.complete_err(FileApiError::Cancelled);
        }
        if self.data.size() > self.limits.max_materialize_bytes {
            return self.complete_err(
                FileApiError::ResourceLimit(ResourceLimitKind::MaterializeBytes),
            );
        }
        match read_blob_range(&self.data, 0, self.data.size(), host, probe) {
            Ok(bytes) => self.complete_ok(bytes),
            Err(error) => self.complete_err(error),
        }
    }
}

/// Whether a chunk request may end in `kind`, where `cancelled` says whether the
/// work was given up before.
pub open spec fn chunk_done<H: HostReader, P: CancelProbe>(
    host: H,
    probe: P,
    data: BlobData,
    window: ChunkWindow,
    cancelled: bool,
    kind: ChunkKind,
) -> bool {
    let plan = chunk_plan(cancelled, data.spec_size(), window.offset, window.len);
    match plan {
        ChunkPlan::Read { start, end } => exists|read: Result<Vec<u8>, FileApiError>| #[trigger]
            range_read(host, probe, data, start, end, read) && kind == chunk_outcome(plan, read),
        _ => kind == chunk_outcome(plan, Err(FileApiError::Internal)),
    }
}

/// Whether a chunk request may end in `kind`.
pub open spec fn chunk_read<H: HostReader, P: CancelProbe>(
    host: H,
    probe: P,
    data: BlobData,
    window: ChunkWindow,
    shutdown: bool,
    kind: ChunkKind,
) -> bool {
    ||| {
        &&& shutdown || call_ensures(P::is_cancelled, (&probe,), true)
        &&& chunk_done(host, probe, data, window, true, kind)
    }
    ||| {
        &&& !shutdown
        &&& call_ensures(P::is_cancelled, (&probe,), false)
        &&& chunk_done(host, probe, data, window, false, kind)
    }
}

/// Reads one chunk of a blob.
fn execute_chunk<H: HostReader, P: CancelProbe>(
    data: &BlobData,
    window: ChunkWindow,
    host: &H,
    probe: &P,
    shutdown: bool,
) -> (kind: ChunkKind)
    requires
        data.wf(),
    ensures
        chunk_read(*host, *probe, *data, window, shutdown, kind),
{
    let cancelled = shutdown || probe.is_cancelled();
    let plan = plan_chunk(cancelled, data.size(), window.offset, window.len);
    match plan {
        ChunkPlan::Read { start, end } => {
            let read = read_blob_range(data, start, end, host, probe);
            let ghost answer = read;
            let kind = settle_chunk(plan, read);
            assert(range_read(*host, *probe, *data, start, end, answer));
            assert(chunk_done(*host, *probe, *data, window, cancelled, kind));
            kind
        },
        _ => {
            let kind = settle_chunk(plan, Err(FileApiError::Internal));
            assert(chunk_done(*host, *probe, *data, window, cancelled, kind));
            kind
        },
    }
}

impl FileReaderChunkTask {
    /// Reads the chunk and gives the completion.
    pub fn execute<H: HostReader, P: CancelProbe>(&self, host: &H, probe: &P, shutdown: bool) -> (
        completion: FileReaderChunkCompletion)
        requires
            self.data.wf(),
        ensures
            completion.context_id == self.context_id,
            completion.operation_id == self.operation_id,
            completion.generation == self.window.generation,
            chunk_read(*host, *probe, self.data, self.window, shutdown, completion.kind),
    {
        let kind = execute_chunk(&self.data, self.window, host, probe, shutdown);
        FileReaderChunkCompletion {
            context_id: self.context_id,
            operation_id: self.operation_id,
            generation: self.window.generation,
            kind,
        }
    }
}

impl StreamChunkTask {
    /// Reads the chunk and gives the completion.
    pub fn execute<H: HostReader, P: CancelProbe>(&self, host: &H, probe: &P, shutdown: bool) -> (
        completion: StreamChunkCompletion)
        requires
            self.data.wf(),
        ensures
            completion.context_id == self.context_id,
            completion.operation_id == self.operation_id,
            completion.generation == self.window.generation,
            chunk_read(*host, *probe, self.data, self.window, shutdown, completion.kind),
    {
        let kind = execute_chunk(&self.data, self.window, host, probe, shutdown);
        StreamChunkCompletion {
            context_id: self.context_id,
            operation_id: self.operation_id,
            generation: self.window.generation,
            kind,
        }
    }
}

/// Whether a host holds what its resources hold: every answer is the bytes asked
/// for.
pub open spec fn is_faithful<H: HostReader>(host: H, resources: Map<u64, Seq<u8>>) -> bool {
    forall|handle: u64, offset: u64, len: u64, answer: Result<Vec<u8>, FileApiError>|
        resources.contains_key(handle) && offset + len <= resources[handle].len()
            && #[trigger] call_ensures(H::read, (&host, handle, offset, len), answer) ==> (
        answer matches Ok(bytes) && bytes@ == resources[handle].subrange(
            offset as int,
            offset + len,
        ))
}

/// Whether the work is never given up.
pub open spec fn never_cancelled<P: CancelProbe>(probe: P) -> bool {
    !call_ensures(P::is_cancelled, (&probe,), true)
}

/// A read gives the content: with a faithful host and no cancellation, reading a
/// range of a blob gives exactly the bytes of that range.
pub proof fn lemma_read_gives_range<H: HostReader, P: CancelProbe>(
    host: H,
    probe: P,
    resources: Map<u64, Seq<u8>>,
    data: BlobData,
    start: u64,
    end: u64,
    result: Result<Vec<u8>, FileApiError>,
)
    requires
        data.wf(),
        segments_held(data.segments(), resources),
        is_faithful(host, resources),
        never_cancelled(probe),
        range_failure(data.spec_size(), start, end) is None,
        range_read(host, probe, data, start, end, result),
    ensures
        result matches Ok(bytes) && bytes@ == data.content(resources).subrange(
            start as int,
            end as int,
        ),
{
    let plan = slice_segments(data.segments(), start as int, end as int);
    lemma_slice_segments(data.segments(), start as int, end as int);
    lemma_slice_bytes(data.segments(), start as int, end as int, resources);
    lemma_slice_held(data.segments(), start as int, end as int, resources);
    let answers = choose|answers: Seq<Result<Vec<u8>, FileApiError>>| #[trigger]
        answers_come_of(host, probe, plan, answers) && bytes_of(result) == assembled(
            plan,
            answers,
            0,
        );
    assert forall|i: int| 0 <= i < answers.len() implies (#[trigger] answers[i] matches Ok(bytes)
        && bytes@ == plan[i].bytes(resources)) by {
        assert(may_come_of(host, probe, plan[i], answers[i]));
        assert(plan[i].wf() && plan[i].source.held_by(resources));
    }
    if answers.len() < plan.len() {
        let last = answers.len() - 1;
        assert(answers[last] == answers.last());
        assert(plan[last].wf() && plan[last].source.held_by(resources));
        assert(answers[last]->Ok_0@.len() == plan[last].len);
        assert(false);
    }
    lemma_faithful_answers(plan, answers, resources, 0);
    assert(plan.skip(0) =~= plan);
}

/// A chunk gives its bytes: with a faithful host and no cancellation, a request
/// within the blob is answered with exactly the bytes of its window.
pub proof fn lemma_chunk_gives_bytes<H: HostReader, P: CancelProbe>(
    host: H,
    probe: P,
    resources: Map<u64, Seq<u8>>,
    data: BlobData,
    window: ChunkWindow,
    kind: ChunkKind,
)
    requires
        data.wf(),
        segments_held(data.segments(), resources),
        is_faithful(host, resources),
        never_cancelled(probe),
        0 < window.len <= usize::MAX,
        window.offset + window.len <= data.spec_size(),
        chunk_read(host, probe, data, window, false, kind),
    ensures
        kind matches ChunkKind::Chunk(bytes) && bytes@ == data.content(resources).subrange(
            window.offset as int,
            window.offset + window.len,
        ),
{
    let plan = chunk_plan(false, data.spec_size(), window.offset, window.len);
    let start = window.offset;
    let end = (window.offset + window.len) as u64;
    assert(plan == ChunkPlan::Read { start, end });
    assert(chunk_done(host, probe, data, window, false, kind));
    let read = choose|read: Result<Vec<u8>, FileApiError>| #[trigger]
        range_read(host, probe, data, start, end, read) && kind == chunk_outcome(plan, read);
    lemma_read_gives_range(host, probe, resources, data, start, end, read);
    lemma_content_len(data, resources);
}

proof fn lemma_content_len(data: BlobData, resources: Map<u64, Seq<u8>>)
    requires
        data.wf(),
        segments_held(data.segments(), resources),
    ensures
        data.content(resources).len() == data.spec_size(),
{
    lemma_slice_segments(data.segments(), 0, data.spec_size() as int);
    crate::blob::lemma_segments_bytes_len(data.segments(), resources);
}

/// A promise read gives the content: with a faithful host and no cancellation, a
/// read that waits is resolved with the packaged bytes of the whole blob.
pub proof fn lemma_promise_gives_content<H: HostReader, P: CancelProbe>(
    host: H,
    probe: P,
    resources: Map<u64, Seq<u8>>,
    task: FileIoTask,
    result: Result<Vec<u8>, FileApiError>,
    reads: Seq<PendingRead>,
    reads_after: Seq<PendingRead>,
    settlement: Option<Settlement>,
)
    requires
        task.data.wf(),
        segments_held(task.data.segments(), resources),
        is_faithful(host, resources),
        never_cancelled(probe),
        task.data.spec_size() <= task.limits.max_materialize_bytes,
        task.data.spec_size() <= usize::MAX,
        whole_read(host, probe, task, false, result),
        read_of(reads, task.operation_id.spec_get()) is Some,
        read_settled(reads, task.operation_id.spec_get(), result, reads_after, settlement),
    ensures
        settlement matches Some(Settlement::Resolve(value)) && is_packaged(
            value,
            reads[read_of(reads, task.operation_id.spec_get())->0].mode,
            task.data.content(resources),
        ),
{
    let size = task.data.spec_size();
    lemma_read_gives_range(host, probe, resources, task.data, 0, size, result);
    lemma_content_len(task.data, resources);
    let content = task.data.content(resources);
    assert(content.subrange(0, size as int) =~= content);
}

/// One chunk of a `FileReader` read: the worker answers the request that follows
/// `before`, and applying the answer leads to `after`.
pub open spec fn reader_chunk_step<H: HostReader, P: CancelProbe>(
    host: H,
    probe: P,
    data: BlobData,
    before: PumpState,
    after: PumpState,
    generation: u64,
    kind: ChunkKind,
    now: i64,
) -> bool {
    &&& before.loaded < before.total
    &&& chunk_read(host, probe, data, next_window(before, generation), false, kind)
    &&& kind matches ChunkKind::Chunk(bytes) ==> chunk_applied(before, after, bytes@, now)
}

/// A `FileReader` gives the content: with a faithful host and no cancellation, a
/// read that runs from its start to the end of the blob packages the content of
/// the blob.
pub proof fn lemma_reader_gives_content<H: HostReader, P: CancelProbe>(
    host: H,
    probe: P,
    resources: Map<u64, Seq<u8>>,
    request: ReadRequest,
    limits: FileApiLimits,
    generation: u64,
    states: Seq<PumpState>,
    kinds: Seq<ChunkKind>,
    times: Seq<i64>,
)
    requires
        request.data.wf(),
        segments_held(request.data.segments(), resources),
        is_faithful(host, resources),
        never_cancelled(probe),
        limits.chunk_size_valid(),
        states.len() == kinds.len() + 1,
        times.len() == kinds.len(),
        is_initial(states[0], request, limits),
        forall|i: int|
            0 <= i < kinds.len() ==> #[trigger] reader_chunk_step(
                host,
                probe,
                request.data,
                states[i],
                states[i + 1],
                generation,
                kinds[i],
                times[i],
            ),
        states.last().loaded == states.last().total,
    ensures
        packaged(
            states.last().kind,
            states.last().encoding.spec_name(),
            states.last().media_type@,
            states.last().consumed(),
        ) == packaged(
            request.kind,
            request.encoding.spec_name(),
            request.media_type@,
            request.data.content(resources),
        ),
{
    let data = request.data;
    let content = data.content(resources);
    lemma_content_len(data, resources);
    let chunks = Seq::new(kinds.len(), |i: int| kinds[i]->Chunk_0@);
    lemma_reader_steps(
        host,
        probe,
        resources,
        request,
        limits,
        generation,
        states,
        kinds,
        times,
        kinds.len() as int,
    );
    assert forall|i: int| 0 <= i < chunks.len() implies chunk_applied(
        states[i],
        states[i + 1],
        #[trigger] chunks[i],
        times[i],
    ) && states[i].loaded + chunks[i].len() <= content.len() && chunks[i] == content.subrange(
        states[i].loaded as int,
        states[i].loaded + chunks[i].len(),
    ) by {
        assert(reader_chunk_step(
            host,
            probe,
            data,
            states[i],
            states[i + 1],
            generation,
            kinds[i],
            times[i],
        ));
        lemma_reader_steps(
            host,
            probe,
            resources,
            request,
            limits,
            generation,
            states,
            kinds,
            times,
            i,
        );
        let window = next_window(states[i], generation);
        lemma_chunk_gives_bytes(host, probe, resources, data, window, kinds[i]);
    }
    lemma_read_gives_content(states, chunks, times, request, limits, content);
}

proof fn lemma_reader_steps<H: HostReader, P: CancelProbe>(
    host: H,
    probe: P,
    resources: Map<u64, Seq<u8>>,
    request: ReadRequest,
    limits: FileApiLimits,
    generation: u64,
    states: Seq<PumpState>,
    kinds: Seq<ChunkKind>,
    times: Seq<i64>,
    count: int,
)
    requires
        request.data.wf(),
        segments_held(request.data.segments(), resources),
        is_faithful(host, resources),
        never_cancelled(probe),
        limits.chunk_size_valid(),
        states.len() == kinds.len() + 1,
        times.len() == kinds.len(),
        is_initial(states[0], request, limits),
        forall|i: int|
            0 <= i < kinds.len() ==> #[trigger] reader_chunk_step(
                host,
                probe,
                request.data,
                states[i],
                states[i + 1],
                generation,
                kinds[i],
                times[i],
            ),
        0 <= count <= kinds.len(),
    ensures
        states[count].total == request.data.spec_size(),
        states[count].chunk_size == limits.default_chunk_size,
        states[count].loaded <= states[count].total,
    decreases count,
{
    if count > 0 {
        let k = count - 1;
        lemma_reader_steps(
            host,
            probe,
            resources,
            request,
            limits,
            generation,
            states,
            kinds,
            times,
            k,
        );
        assert(reader_chunk_step(
            host,
            probe,
            request.data,
            states[k],
            states[k + 1],
            generation,
            kinds[k],
            times[k],
        ));
        let window = next_window(states[k], generation);
        lemma_chunk_gives_bytes(host, probe, resources, request.data, window, kinds[k]);
    }
}

/// One chunk of a byte stream: the worker answers the request that the stream
/// makes where `before` of it is consumed, and the bytes count as consumed.
pub open spec fn stream_chunk_step<H: HostReader, P: CancelProbe>(
    host: H,
    probe: P,
    data: BlobData,
    before: u64,
    after: u64,
    window: ChunkWindow,
    kind: ChunkKind,
) -> bool {
    &&& before < data.spec_size()
    &&& window.offset == before
    &&& 0 < window.len <= MAX_CHUNK
    &&& before + window.len <= data.spec_size()
    &&& chunk_read(host, probe, data, window, false, kind)
    &&& kind matches ChunkKind::Chunk(bytes) ==> after == before + bytes@.len()
}

/// A byte stream gives the content: with a faithful host and no cancellation, the
/// chunks from the start of a blob to its end make up its content.
pub proof fn lemma_stream_gives_content<H: HostReader, P: CancelProbe>(
    host: H,
    probe: P,
    resources: Map<u64, Seq<u8>>,
    data: BlobData,
    loaded: Seq<u64>,
    windows: Seq<ChunkWindow>,
    kinds: Seq<ChunkKind>,
)
    requires
        data.wf(),
        segments_held(data.segments(), resources),
        is_faithful(host, resources),
        never_cancelled(probe),
        loaded.len() == kinds.len() + 1,
        windows.len() == kinds.len(),
        loaded[0] == 0,
        forall|i: int|
            0 <= i < kinds.len() ==> #[trigger] stream_chunk_step(
                host,
                probe,
                data,
                loaded[i],
                loaded[i + 1],
                windows[i],
                kinds[i],
            ),
        loaded.last() == data.spec_size(),
    ensures
        forall|i: int| 0 <= i < kinds.len() ==> #[trigger] kinds[i] is Chunk,
        joined(Seq::new(kinds.len(), |i: int| kinds[i]->Chunk_0@)) == data.content(resources),
{
    let content = data.content(resources);
    let chunks = Seq::new(kinds.len(), |i: int| kinds[i]->Chunk_0@);
    let starts = Seq::new(loaded.len(), |i: int| loaded[i] as int);
    lemma_content_len(data, resources);
    assert forall|i: int| 0 <= i < kinds.len() implies #[trigger] kinds[i] is Chunk
        && chunk_follows(starts[i], starts[i + 1], chunks[i], content) by {
        assert(stream_chunk_step(
            host,
            probe,
            data,
            loaded[i],
            loaded[i + 1],
            windows[i],
            kinds[i],
        ));
        lemma_chunk_gives_bytes(host, probe, resources, data, windows[i], kinds[i]);
    }
    assert forall|i: int| 0 <= i < chunks.len() implies #[trigger] chunk_follows(
        starts[i],
        starts[i + 1],
        chunks[i],
        content,
    ) by {
        assert(kinds[i] is Chunk);
    }
    lemma_byte_stream_gives_content(starts, chunks, content);
}

/// A text stream gives the text: where the content of a blob is valid UTF-8, the
/// pieces that its chunks decode to make up its characters, wherever the chunks
/// are cut, and nothing is left at the end.
pub proof fn lemma_text_stream_gives_text<H: HostReader, P: CancelProbe>(
    host: H,
    probe: P,
    resources: Map<u64, Seq<u8>>,
    data: BlobData,
    loaded: Seq<u64>,
    windows: Seq<ChunkWindow>,
    kinds: Seq<ChunkKind>,
    waiting: Seq<Seq<u8>>,
    texts: Seq<Seq<char>>,
)
    requires
        data.wf(),
        segments_held(data.segments(), resources),
        is_faithful(host, resources),
        never_cancelled(probe),
        loaded.len() == kinds.len() + 1,
        windows.len() == kinds.len(),
        loaded[0] == 0,
        forall|i: int|
            0 <= i < kinds.len() ==> #[trigger] stream_chunk_step(
                host,
                probe,
                data,
                loaded[i],
                loaded[i + 1],
                windows[i],
                kinds[i],
            ),
        loaded.last() == data.spec_size(),
        valid_utf8(data.content(resources)),
        waiting.len() == kinds.len() + 1,
        texts.len() == kinds.len(),
        waiting[0] == Seq::<u8>::empty(),
        forall|i: int|
            0 <= i < kinds.len() ==> (texts[i], waiting[i + 1]) == decode_piece(
                waiting[i],
                (#[trigger] kinds[i])->Chunk_0@,
            ),
    ensures
        joined_text(texts) == decode_utf8(data.content(resources)),
        waiting.last() == Seq::<u8>::empty(),
{
    lemma_stream_gives_content(host, probe, resources, data, loaded, windows, kinds);
    let chunks = Seq::new(kinds.len(), |i: int| kinds[i]->Chunk_0@);
    assert forall|i: int| 0 <= i < chunks.len() implies (texts[i], waiting[i + 1])
        == decode_piece(waiting[i], #[trigger] chunks[i]) by {
        assert(chunks[i] == kinds[i]->Chunk_0@);
    }
    lemma_text_stream_gives_content(waiting, texts, chunks);
}

/// `text()`, `arrayBuffer()` and `bytes()` give the content: a read that was
/// accepted is executed on the blob that it was started with, and its promise is
/// resolved with the whole content of that blob, as text with what is invalid
/// replaced, or as the bytes themselves.
pub proof fn lemma_promise_read_course<H: HostReader, P: CancelProbe>(
    host: H,
    probe: P,
    resources: Map<u64, Seq<u8>>,
    data: BlobData,
    limits: FileApiLimits,
    mode: ReadMode,
    bridges: (IoBridge, IoBridge),
    reads: Seq<PendingRead>,
    started: Seq<PendingRead>,
    task: FileIoTask,
    result: Result<Vec<u8>, FileApiError>,
    later: Seq<PendingRead>,
    at: int,
    left: Seq<PendingRead>,
    settlement: Option<Settlement>,
)
    requires
        data.wf(),
        task.data.wf(),
        data.held_by(resources),
        is_faithful(host, resources),
        never_cancelled(probe),
        data.spec_size() <= usize::MAX,
        promise_started(
            reads,
            bridges.0,
            data,
            limits,
            mode,
            false,
            started,
            bridges.1,
            StartPromise::Submit(task),
        ),
        whole_read(host, probe, task, false, result),
        // The read still waits when its completion is settled.
        read_of(later, task.operation_id.spec_get()) == Some(at),
        0 <= at < later.len(),
        later[at] == started.last(),
        read_settled(later, task.operation_id.spec_get(), result, left, settlement),
    ensures
        ({
            let content = data.content(resources);
            settlement matches Some(Settlement::Resolve(value)) && match (mode, value) {
                (ReadMode::Text, PromiseValue::Text(text)) => text@ == utf8_lossy(content) && (
                valid_utf8(content) ==> text@ == decode_utf8(content)),
                (ReadMode::ArrayBuffer, PromiseValue::ArrayBuffer(bytes)) => bytes@ == content,
                (ReadMode::Bytes, PromiseValue::Bytes(bytes)) => bytes@ == content,
                _ => false,
            }
        }),
        left == later.remove(at),
        started.drop_last() == reads,
{
    let content = data.content(resources);
    let size = data.spec_size();
    assert(task.data@ == data@);
    lemma_read_gives_range(host, probe, resources, task.data, 0, size, result);
    lemma_content_len(data, resources);
    assert(content.subrange(0, size as int) =~= content);
    if valid_utf8(content) {
        lemma_valid_is_not_replaced(content);
    }
    assert(started.drop_last() =~= reads);
}

/// A promise read is accepted exactly where the runtime is open, the blob is within
/// the ceiling of materialized bytes, and the bridge has a slot; it then takes one
/// slot under a fresh number. Otherwise nothing changes but the promise, which is
/// rejected.
pub proof fn lemma_promise_reads_keep_their_ceilings(
    data: BlobData,
    limits: FileApiLimits,
    mode: ReadMode,
    shutdown: bool,
    bridges: (IoBridge, IoBridge),
    reads: Seq<PendingRead>,
    started: Seq<PendingRead>,
    outcome: StartPromise,
)
    requires
        bridges.0.wf(),
        promise_started(
            reads,
            bridges.0,
            data,
            limits,
            mode,
            shutdown,
            started,
            bridges.1,
            outcome,
        ),
    ensures
        shutdown ==> outcome == StartPromise::Reject(FileApiError::Cancelled),
        !shutdown && data.spec_size() > limits.max_materialize_bytes ==> outcome
            == StartPromise::Reject(
            FileApiError::ResourceLimit(ResourceLimitKind::MaterializeBytes),
        ),
        !shutdown && data.spec_size() <= limits.max_materialize_bytes && !bridges.0.is_closed()
            && bridges.0.slots().len() >= bridges.0.limit() ==> outcome == StartPromise::Reject(
            FileApiError::TooManyReads,
        ),
        !shutdown && data.spec_size() <= limits.max_materialize_bytes && !bridges.0.is_closed()
            && bridges.0.slots().len() < bridges.0.limit() && !bridges.0.out_of_ids() && 0
            < bridges.0.next_id() < u64::MAX ==> {
            &&& outcome is Submit
            &&& bridges.1.slots().len() == bridges.0.slots().len() + 1
            &&& started.len() == reads.len() + 1
        },
        outcome is Reject ==> started == reads && bridges.1.slots() == bridges.0.slots(),
{
    crate::bridge::lemma_completed_bounds(bridges.0.slots());
}


/// A task delivers its result under its own context, operation and generation: of
/// a faithful host and work that is not given up, a whole read gives the whole
/// blob and a chunk request the bytes of its window, as far as the blob goes; at
/// the end of the blob there is the end, and after the shutdown nothing is read.
pub proof fn lemma_tasks_deliver_what_they_ask_for<H: HostReader, P: CancelProbe>(
    host: H,
    probe: P,
    resources: Map<u64, Seq<u8>>,
    shutdown: bool,
    whole: FileIoTask,
    whole_done: FileIoCompletion,
    reader: FileReaderChunkTask,
    reader_done: FileReaderChunkCompletion,
    stream: StreamChunkTask,
    stream_done: StreamChunkCompletion,
)
    requires
        whole.data.wf(),
        whole.data.held_by(resources),
        whole.data.spec_size() <= usize::MAX,
        reader.data == whole.data,
        stream.data == whole.data,
        is_faithful(host, resources),
        never_cancelled(probe),
        call_ensures(FileIoTask::execute::<H, P>, (&whole, &host, &probe, shutdown), whole_done),
        call_ensures(
            FileReaderChunkTask::execute::<H, P>,
            (&reader, &host, &probe, shutdown),
            reader_done,
        ),
        call_ensures(
            StreamChunkTask::execute::<H, P>,
            (&stream, &host, &probe, shutdown),
            stream_done,
        ),
    ensures
        whole_done.operation_id == whole.operation_id && whole_done.context_id == whole.context_id,
        reader_done.operation_id == reader.operation_id && reader_done.context_id
            == reader.context_id && reader_done.generation == reader.window.generation,
        stream_done.operation_id == stream.operation_id && stream_done.context_id
            == stream.context_id && stream_done.generation == stream.window.generation,
        shutdown ==> {
            &&& whole_done.result == Err::<Vec<u8>, FileApiError>(FileApiError::Cancelled)
            &&& reader_done.kind == ChunkKind::Error(FileApiError::Cancelled)
            &&& stream_done.kind == ChunkKind::Error(FileApiError::Cancelled)
        },
        !shutdown && whole.data.spec_size() <= whole.limits.max_materialize_bytes ==> (
        whole_done.result matches Ok(bytes) && bytes@ == whole.data.content(resources)),
        !shutdown && whole.data.spec_size() > whole.limits.max_materialize_bytes
            ==> whole_done.result == Err::<Vec<u8>, FileApiError>(
            FileApiError::ResourceLimit(ResourceLimitKind::MaterializeBytes),
        ),
        !shutdown ==> is_window_of(reader.window, whole.data, resources, reader_done.kind),
        !shutdown ==> is_window_of(stream.window, whole.data, resources, stream_done.kind),
{
    let data = whole.data;
    if !shutdown {
        lemma_window_is_read(host, probe, resources, data, reader.window, reader_done.kind);
        lemma_window_is_read(host, probe, resources, data, stream.window, stream_done.kind);
        if data.spec_size() <= whole.limits.max_materialize_bytes {
            lemma_read_gives_range(
                host,
                probe,
                resources,
                data,
                0,
                data.spec_size(),
                whole_done.result,
            );
            crate::blob::lemma_segments_bytes_len(data.segments(), resources);
            let content = data.content(resources);
            assert(content.subrange(0, content.len() as int) =~= content);
        }
    }
}

/// Whether `kind` is what the window shows of a blob.
pub open spec fn is_window_of(
    window: ChunkWindow,
    data: BlobData,
    resources: Map<u64, Seq<u8>>,
    kind: ChunkKind,
) -> bool {
    let size = data.spec_size();
    if window.offset == size {
        kind is Eof
    } else if window.offset > size || window.len == 0 {
        kind == ChunkKind::Error(FileApiError::InvalidRange)
    } else {
        kind matches ChunkKind::Chunk(bytes) && bytes@ == data.content(resources).subrange(
            window.offset as int,
            if window.offset + window.len <= size {
                window.offset + window.len
            } else {
                size as int
            },
        )
    }
}

proof fn lemma_window_is_read<H: HostReader, P: CancelProbe>(
    host: H,
    probe: P,
    resources: Map<u64, Seq<u8>>,
    data: BlobData,
    window: ChunkWindow,
    kind: ChunkKind,
)
    requires
        data.wf(),
        data.held_by(resources),
        data.spec_size() <= usize::MAX,
        is_faithful(host, resources),
        never_cancelled(probe),
        chunk_read(host, probe, data, window, false, kind),
    ensures
        is_window_of(window, data, resources, kind),
{
    let plan = chunk_plan(false, data.spec_size(), window.offset, window.len);
    if let ChunkPlan::Read { start, end } = plan {
        let read = choose|read: Result<Vec<u8>, FileApiError>| #[trigger]
            range_read(host, probe, data, start, end, read) && kind == chunk_outcome(plan, read);
        lemma_read_gives_range(host, probe, resources, data, start, end, read);
        crate::blob::lemma_segments_bytes_len(data.segments(), resources);
    }
}

} // verus!
