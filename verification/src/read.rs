//! Reading a byte range of a blob, segment by segment.
//!
//! [`BlobData::plan`] says which ranges of which sources to read. Memory
//! ranges are copied here; the host reads the others and hands the answers
//! back. Every answer must have exactly the requested length.

use vstd::prelude::*;

use crate::blob::{
    segments_bytes, segments_held, slice_segments, BlobData, BlobSegment, ByteSource,
};
use crate::error::{FileApiError, ResourceLimitKind};
use crate::webidl::copy_range;

verus! {

/// Why the range `start..end` of a blob of `size` bytes cannot be read, if it
/// cannot.
pub open spec fn range_failure(size: u64, start: u64, end: u64) -> Option<FileApiError> {
    if end < start || end > size {
        Some(FileApiError::InvalidRange)
    } else if end - start > usize::MAX {
        Some(FileApiError::ResourceLimit(ResourceLimitKind::MaterializeBytes))
    } else {
        None
    }
}

/// Plans the reading of a range.
pub fn plan_range(data: &BlobData, start: u64, end: u64) -> (result: Result<
    Vec<BlobSegment>,
    FileApiError,
>)
    requires
        data.wf(),
    ensures
        result is Err <==> range_failure(data.spec_size(), start, end) is Some,
        match result {
            Ok(plan) => {
                &&& plan@ == slice_segments(data.segments(), start as int, end as int)
                &&& crate::blob::segments_wf(plan@)
                &&& crate::blob::total_len(plan@) == end - start
                &&& forall|host: Map<u64, Seq<u8>>|
                    segments_held(data.segments(), host) ==> #[trigger] segments_bytes(plan@, host)
                        == data.content(host).subrange(start as int, end as int)
            },
            Err(error) => range_failure(data.spec_size(), start, end) == Some(error),
        },
{
    if end < start || end > data.size() {
        return Err(FileApiError::InvalidRange);
    }
    if end - start > usize::MAX as u64 {
        return Err(FileApiError::ResourceLimit(ResourceLimitKind::MaterializeBytes));
    }
    Ok(data.plan(start, end))
}

/// The bytes of a range of a memory source; `None` where the host has to read.
pub fn memory_piece(segment: &BlobSegment) -> (piece: Option<Vec<u8>>)
    requires
        segment.wf(),
    ensures
        match piece {
            Some(bytes) => segment.source is Memory && forall|host: Map<u64, Seq<u8>>|
                bytes@ == #[trigger] segment.bytes(host),
            None => segment.source is Host,
        },
{
    match &segment.source {
        ByteSource::Memory(bytes) => {
            let total: usize = bytes.len();
            assert(segment.offset + segment.len <= total);
            let from: usize = segment.offset as usize;
            let to: usize = from + segment.len as usize;
            Some(copy_range(bytes, from, to))
        },
        ByteSource::Host { handle, len } => None,
    }
}

/// What the answers from `at` on come to: the bytes one after the other, or the
/// first failure. A missing answer counts as one of a wrong length.
pub open spec fn assembled(
    plan: Seq<BlobSegment>,
    pieces: Seq<Result<Vec<u8>, FileApiError>>,
    at: int,
) -> Result<Seq<u8>, FileApiError>
    decreases plan.len() - at,
{
    if at < 0 || at >= plan.len() {
        Ok(Seq::empty())
    } else if at >= pieces.len() {
        Err(FileApiError::InvalidRange)
    } else {
        match pieces[at] {
            Err(error) => Err(error),
            Ok(bytes) => if bytes@.len() != plan[at].len {
                Err(FileApiError::InvalidRange)
            } else {
                match assembled(plan, pieces, at + 1) {
                    Ok(rest) => Ok(bytes@ + rest),
                    Err(error) => Err(error),
                }
            },
        }
    }
}

/// Puts the answers to a plan together. No partial bytes are handed out.
pub fn assemble(plan: &Vec<BlobSegment>, pieces: &Vec<Result<Vec<u8>, FileApiError>>) -> (result:
    Result<Vec<u8>, FileApiError>)
    ensures
        match result {
            Ok(bytes) => assembled(plan@, pieces@, 0) == Ok::<Seq<u8>, FileApiError>(bytes@),
            Err(error) => assembled(plan@, pieces@, 0) == Err::<Seq<u8>, FileApiError>(error),
        },
{
    let mut out: Vec<u8> = Vec::new();
    let mut at: usize = 0;
    while at < plan.len()
        invariant
            at <= plan@.len(),
            match assembled(plan@, pieces@, at as int) {
                Ok(rest) => assembled(plan@, pieces@, 0) == Ok::<Seq<u8>, FileApiError>(out@ + rest),
                Err(error) => assembled(plan@, pieces@, 0) == Err::<Seq<u8>, FileApiError>(error),
            },
        decreases plan@.len() - at,
    {
        if at >= pieces.len() {
            return Err(FileApiError::InvalidRange);
        }
        match &pieces[at] {
            Err(error) => {
                return Err(*error);
            },
            Ok(bytes) => {
                if bytes.len() as u64 != plan[at].len {
                    return Err(FileApiError::InvalidRange);
                }
                let ghost before = out@;
                append_bytes(&mut out, bytes);
                proof {
                    if assembled(plan@, pieces@, at + 1) is Ok {
                        let rest = assembled(plan@, pieces@, at + 1)->Ok_0;
                        assert(before + (bytes@ + rest) =~= out@ + rest);
                    }
                }
            },
        }
        at = at + 1;
    }
    assert(out@ + Seq::<u8>::empty() =~= out@);
    Ok(out)
}

/// Appends `bytes` to `out`.
pub fn append_bytes(out: &mut Vec<u8>, bytes: &Vec<u8>)
    ensures
        final(out)@ == old(out)@ + bytes@,
{
    let ghost before = out@;
    let mut i: usize = 0;
    while i < bytes.len()
        invariant
            i <= bytes@.len(),
            out@ =~= before + bytes@.take(i as int),
        decreases bytes@.len() - i,
    {
        out.push(bytes[i]);
        i = i + 1;
    }
    assert(bytes@.take(i as int) =~= bytes@);
}

/// Faithful answers give the content of the range: where every answer holds
/// the bytes of its segment, the result is exactly those bytes.
pub proof fn lemma_faithful_answers(
    plan: Seq<BlobSegment>,
    pieces: Seq<Result<Vec<u8>, FileApiError>>,
    host: Map<u64, Seq<u8>>,
    at: int,
)
    requires
        0 <= at <= plan.len(),
        pieces.len() == plan.len(),
        crate::blob::segments_wf(plan),
        segments_held(plan, host),
        forall|i: int|
            0 <= i < plan.len() ==> (#[trigger] pieces[i] matches Ok(bytes) && bytes@
                == plan[i].bytes(host)),
    ensures
        assembled(plan, pieces, at) == Ok::<Seq<u8>, FileApiError>(
            segments_bytes(plan.skip(at), host),
        ),
    decreases plan.len() - at,
{
    if at < plan.len() {
        lemma_faithful_answers(plan, pieces, host, at + 1);
        let bytes = pieces[at]->Ok_0;
        assert(plan[at].wf());
        assert(plan[at].source.held_by(host));
        assert(bytes@.len() == plan[at].len);
        let one = seq![plan[at]];
        assert(plan.skip(at) =~= one + plan.skip(at + 1));
        crate::blob::lemma_segments_bytes_concat(one, plan.skip(at + 1), host);
        assert(one.drop_last() =~= Seq::<BlobSegment>::empty());
        assert(segments_bytes(one.drop_last(), host) =~= Seq::<u8>::empty());
        assert(one.last() == plan[at]);
        assert(segments_bytes(one, host) =~= bytes@);
    } else {
        assert(plan.skip(at) =~= Seq::<BlobSegment>::empty());
    }
}

/// An answer of a wrong length is a failure, whatever the other answers are.
pub proof fn lemma_wrong_length_fails(
    plan: Seq<BlobSegment>,
    pieces: Seq<Result<Vec<u8>, FileApiError>>,
    at: int,
    wrong: int,
)
    requires
        0 <= at <= wrong < plan.len(),
        wrong < pieces.len(),
        pieces[wrong] matches Ok(bytes) && bytes@.len() != plan[wrong].len,
    ensures
        assembled(plan, pieces, at) is Err,
    decreases wrong - at,
{
    if at < wrong {
        lemma_wrong_length_fails(plan, pieces, at + 1, wrong);
    }
}


/// A read that is planned over a blob and put together from what the host really
/// holds is the range of the blob that was asked for; a range inside the blob is
/// always planned.
pub proof fn lemma_planned_reads_give_the_range(
    data: BlobData,
    start: u64,
    end: u64,
    planned: Result<Vec<BlobSegment>, FileApiError>,
    pieces: Vec<Result<Vec<u8>, FileApiError>>,
    result: Result<Vec<u8>, FileApiError>,
    host: Map<u64, Seq<u8>>,
)
    requires
        data.wf(),
        data.held_by(host),
        call_ensures(plan_range, (&data, start, end), planned),
        planned matches Ok(plan) ==> {
            &&& pieces@.len() == plan@.len()
            &&& forall|i: int|
                0 <= i < plan@.len() ==> (#[trigger] pieces@[i] matches Ok(bytes) && bytes@
                    == plan@[i].bytes(host))
            &&& call_ensures(assemble, (&plan, &pieces), result)
        },
    ensures
        start <= end <= data.spec_size() && end - start <= usize::MAX ==> planned is Ok,
        start > end || end > data.spec_size() ==> planned == Err::<Vec<BlobSegment>, FileApiError>(
            FileApiError::InvalidRange,
        ),
        planned is Ok ==> (result matches Ok(bytes) && bytes@ == data.content(host).subrange(
            start as int,
            end as int,
        )),
{
    if let Ok(plan) = planned {
        lemma_plan_is_held(data, host, plan@, start as int, end as int);
        lemma_faithful_answers(plan@, pieces@, host, 0);
        assert(plan@.skip(0) =~= plan@);
    }
}

proof fn lemma_plan_is_held(
    data: BlobData,
    host: Map<u64, Seq<u8>>,
    plan: Seq<BlobSegment>,
    start: int,
    end: int,
)
    requires
        data.wf(),
        data.held_by(host),
        0 <= start <= end <= data.spec_size(),
        plan == slice_segments(data.segments(), start, end),
    ensures
        segments_held(plan, host),
{
    crate::blob::lemma_slice_held(data.segments(), start, end, host);
}

/// A read in which the host refused a piece, or gave too few or too many bytes
/// for one, is no read; and the first such piece decides how it fails.
pub proof fn lemma_first_failed_piece_decides(
    plan: Vec<BlobSegment>,
    pieces: Vec<Result<Vec<u8>, FileApiError>>,
    result: Result<Vec<u8>, FileApiError>,
    failed: int,
)
    requires
        call_ensures(assemble, (&plan, &pieces), result),
        0 <= failed < plan@.len(),
        pieces@.len() == plan@.len(),
        forall|i: int|
            0 <= i < failed ==> (#[trigger] pieces@[i] matches Ok(bytes) && bytes@.len()
                == plan@[i].len),
        pieces@[failed] matches Ok(bytes) ==> bytes@.len() != plan@[failed].len,
    ensures
        result == match pieces@[failed] {
            Ok(_) => Err::<Vec<u8>, FileApiError>(FileApiError::InvalidRange),
            Err(error) => Err::<Vec<u8>, FileApiError>(error),
        },
{
    lemma_failed_piece(plan@, pieces@, 0, failed);
}

proof fn lemma_failed_piece(
    plan: Seq<BlobSegment>,
    pieces: Seq<Result<Vec<u8>, FileApiError>>,
    at: int,
    failed: int,
)
    requires
        0 <= at <= failed < plan.len(),
        pieces.len() == plan.len(),
        forall|i: int|
            at <= i < failed ==> (#[trigger] pieces[i] matches Ok(bytes) && bytes@.len()
                == plan[i].len),
        pieces[failed] matches Ok(bytes) ==> bytes@.len() != plan[failed].len,
    ensures
        assembled(plan, pieces, at) == match pieces[failed] {
            Ok(_) => Err::<Seq<u8>, FileApiError>(FileApiError::InvalidRange),
            Err(error) => Err::<Seq<u8>, FileApiError>(error),
        },
    decreases failed - at,
{
    if at < failed {
        lemma_failed_piece(plan, pieces, at + 1, failed);
    }
}

} // verus!
