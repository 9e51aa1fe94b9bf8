//! Files over host resources.
//!
//! A resource is imported with a snapshot of its state. Every read compares the
//! live state with the snapshot before and after, and gives all the bytes asked
//! for or none.

use vstd::prelude::*;

use crate::blob::{
    normalized_type, segments_bytes, BlobData, BlobSegment, ByteSource,
};
use crate::clock::Clock;
use crate::error::{FileApiError, ResourceLimitKind};
use crate::file::{bytes_failure, file_name, native_from_data, FileNative};
use crate::limits::FileApiLimits;

verus! {

/// What identifies the state of a resource.
#[derive(Clone, Copy, Debug, PartialEq, Eq, Structural)]
pub enum SnapshotState {
    /// Immutable bytes in memory.
    Memory,
    /// A file of a file system.
    Filesystem {
        /// The length.
        size: u64,
        /// The identity of the open file.
        identity: u64,
        /// The time of the last change.
        modified: i64,
    },
}

impl SnapshotState {
    /// The length that the snapshot fixes.
    pub open spec fn spec_len(self) -> u64 {
        match self {
            SnapshotState::Memory => 0,
            SnapshotState::Filesystem { size, identity, modified } => size,
        }
    }

    /// The length that the snapshot fixes.
    pub fn len(&self) -> (len: u64)
        ensures
            len == self.spec_len(),
    {
        match self {
            SnapshotState::Memory => 0,
            SnapshotState::Filesystem { size, .. } => *size,
        }
    }
}

/// An open, authorized resource of the host.
pub trait FileResource {
    /// The state of the resource now.
    fn current_snapshot(&self) -> Result<SnapshotState, FileApiError>;

    /// Reads `len` bytes at `offset`.
    fn read_at(&self, offset: u64, len: usize) -> Result<Vec<u8>, FileApiError>;
}

/// Tells whether the work is still wanted.
pub trait CancelProbe {
    /// Whether the caller or the runtime gave the work up.
    fn is_cancelled(&self) -> bool;
}

/// Why a range is refused before the resource is asked, if it is.
pub open spec fn read_refusal(
    cancelled: bool,
    shutdown: bool,
    start: u64,
    end: u64,
    len: u64,
) -> Option<FileApiError> {
    if cancelled || shutdown {
        Some(FileApiError::Cancelled)
    } else if start > end || end > len {
        Some(FileApiError::InvalidRange)
    } else if end - start > usize::MAX {
        Some(FileApiError::ResourceLimit(ResourceLimitKind::MaterializeBytes))
    } else {
        None
    }
}

/// Tests a range before the resource is asked; gives its length.
pub fn check_read(cancelled: bool, shutdown: bool, start: u64, end: u64, len: u64) -> (result: Result<
    usize,
    FileApiError,
>)
    ensures
        match result {
            Ok(wanted) => read_refusal(cancelled, shutdown, start, end, len) is None && wanted
                == end - start,
            Err(error) => read_refusal(cancelled, shutdown, start, end, len) == Some(error),
        },
{
    if cancelled || shutdown {
        return Err(FileApiError::Cancelled);
    }
    if start > end || end > len {
        return Err(FileApiError::InvalidRange);
    }
    let wanted: u64 = end - start;
    if wanted > usize::MAX as u64 {
        return Err(FileApiError::ResourceLimit(ResourceLimitKind::MaterializeBytes));
    }
    Ok(wanted as usize)
}

/// Why a live state does not stand for the imported one, if it does not.
pub open spec fn snapshot_failure(
    live: Result<SnapshotState, FileApiError>,
    import: SnapshotState,
) -> Option<FileApiError> {
    match live {
        Ok(state) => if state == import {
            None
        } else {
            Some(FileApiError::SnapshotChanged)
        },
        Err(error) => Some(error),
    }
}

/// Compares a live state with the imported one.
pub fn check_snapshot(live: Result<SnapshotState, FileApiError>, import: SnapshotState) -> (result:
    Result<(), FileApiError>)
    ensures
        match result {
            Ok(_) => snapshot_failure(live, import) is None,
            Err(error) => snapshot_failure(live, import) == Some(error),
        },
{
    match live {
        Ok(state) => if state == import {
            Ok(())
        } else {
            Err(FileApiError::SnapshotChanged)
        },
        Err(error) => Err(error),
    }
}

/// What the resource answered in the course of one read.
pub struct ReadAnswers {
    /// Its state before the read.
    pub before: Result<SnapshotState, FileApiError>,
    /// Whether the work was given up meanwhile.
    pub cancelled: bool,
    /// The bytes.
    pub read: Result<Vec<u8>, FileApiError>,
    /// Its state after the read.
    pub after: Result<SnapshotState, FileApiError>,
}

/// Why a read fails, if it does: the first answer that is not as it should be
/// decides.
pub open spec fn answers_failure(
    answers: ReadAnswers,
    import: SnapshotState,
    wanted: int,
) -> Option<FileApiError> {
    if snapshot_failure(answers.before, import) is Some {
        snapshot_failure(answers.before, import)
    } else if answers.cancelled {
        Some(FileApiError::Cancelled)
    } else {
        match answers.read {
            Err(error) => Some(error),
            Ok(bytes) => if bytes@.len() != wanted {
                Some(FileApiError::InvalidRange)
            } else {
                snapshot_failure(answers.after, import)
            },
        }
    }
}

/// The bytes of a read whose answers are all in.
pub fn settle_read(answers: ReadAnswers, import: SnapshotState, wanted: usize) -> (result: Result<
    Vec<u8>,
    FileApiError,
>)
    ensures
        match result {
            Ok(bytes) => {
                &&& answers_failure(answers, import, wanted as int) is None
                &&& answers.read == Ok::<Vec<u8>, FileApiError>(bytes)
                &&& bytes@.len() == wanted
            },
            Err(error) => answers_failure(answers, import, wanted as int) == Some(error),
        },
{
    match check_snapshot(answers.before, import) {
        Ok(_) => {},
        Err(error) => {
            return Err(error);
        },
    }
    if answers.cancelled {
        return Err(FileApiError::Cancelled);
    }
    let bytes = match answers.read {
        Ok(bytes) => bytes,
        Err(error) => {
            return Err(error);
        },
    };
    if bytes.len() != wanted {
        return Err(FileApiError::InvalidRange);
    }
    match check_snapshot(answers.after, import) {
        Ok(_) => Ok(bytes),
        Err(error) => Err(error),
    }
}

/// Whether the resource and the probe may have given these answers; what was not
/// asked any more is open.
pub open spec fn may_answer<R: FileResource, P: CancelProbe>(
    resource: R,
    probe: P,
    offset: u64,
    wanted: usize,
    import: SnapshotState,
    answers: ReadAnswers,
) -> bool {
    &&& call_ensures(R::current_snapshot, (&resource,), answers.before)
    &&& snapshot_failure(answers.before, import) is None ==> {
        &&& call_ensures(P::is_cancelled, (&probe,), answers.cancelled)
        &&& !answers.cancelled ==> {
            &&& call_ensures(R::read_at, (&resource, offset, wanted), answers.read)
            &&& answers.read matches Ok(bytes) ==> bytes@.len() == wanted ==> call_ensures(
                R::current_snapshot,
                (&resource,),
                answers.after,
            )
        }
    }
}

/// The result of a read with the given answers.
pub open spec fn is_read(
    result: Result<Vec<u8>, FileApiError>,
    answers: ReadAnswers,
    import: SnapshotState,
    wanted: int,
) -> bool {
    match result {
        Ok(bytes) => answers_failure(answers, import, wanted) is None && answers.read == Ok::<
            Vec<u8>,
            FileApiError,
        >(bytes),
        Err(error) => answers_failure(answers, import, wanted) == Some(error),
    }
}

/// Whether a read with answers that may have been given ends in `result`.
pub open spec fn some_read<R: FileResource, P: CancelProbe>(
    resource: R,
    probe: P,
    offset: u64,
    wanted: usize,
    import: SnapshotState,
    result: Result<Vec<u8>, FileApiError>,
) -> bool {
    exists|answers: ReadAnswers| #[trigger]
        may_answer(resource, probe, offset, wanted, import, answers) && is_read(
            result,
            answers,
            import,
            wanted as int,
        )
}

/// Reads the range `start..end` of a resource imported in the state `import`.
///
/// Cancellation, shutdown and the range are tested first. A replacement, a
/// truncation or a deletion fails with no bytes, also where it comes during the
/// read.
pub fn read_range<R: FileResource, P: CancelProbe>(
    resource: &R,
    probe: &P,
    shutdown: bool,
    import: SnapshotState,
    start: u64,
    end: u64,
) -> (result: Result<Vec<u8>, FileApiError>)
    ensures
        exists|cancelled: bool| #[trigger]
            call_ensures(P::is_cancelled, (probe,), cancelled) && match read_refusal(
                cancelled,
                shutdown,
                start,
                end,
                import.spec_len(),
            ) {
                Some(error) => result == Err::<Vec<u8>, FileApiError>(error),
                None => if start == end {
                    result matches Ok(bytes) && bytes@.len() == 0
                } else {
                    some_read(*resource, *probe, start, (end - start) as usize, import, result)
                },
            },
{
    let given_up = probe.is_cancelled();
    let wanted: usize = match check_read(given_up, shutdown, start, end, import.len()) {
        Ok(wanted) => wanted,
        Err(error) => {
            return Err(error);
        },
    };
    if wanted == 0 {
        return Ok(Vec::new());
    }
    let before = resource.current_snapshot();
    let ghost unread: Result<Vec<u8>, FileApiError> = Err(FileApiError::Internal);
    let ghost unasked: Result<SnapshotState, FileApiError> = Err(FileApiError::Internal);
    match check_snapshot(before, import) {
        Ok(_) => {},
        Err(error) => {
            proof {
                let answers = ReadAnswers {
                    before,
                    cancelled: false,
                    read: unread,
                    after: unasked,
                };
                assert(may_answer(*resource, *probe, start, wanted, import, answers));
                assert(some_read(*resource, *probe, start, wanted, import, Err(error)));
            }
            return Err(error);
        },
    }
    let cancelled = probe.is_cancelled();
    if cancelled {
        proof {
            let answers = ReadAnswers { before, cancelled, read: unread, after: unasked };
            assert(may_answer(*resource, *probe, start, wanted, import, answers));
            assert(some_read(*resource, *probe, start, wanted, import, Err(FileApiError::Cancelled)));
        }
        return Err(FileApiError::Cancelled);
    }
    let bytes = match resource.read_at(start, wanted) {
        Ok(bytes) => bytes,
        Err(error) => {
            proof {
                let answers = ReadAnswers { before, cancelled, read: Err(error), after: unasked };
                assert(may_answer(*resource, *probe, start, wanted, import, answers));
                assert(some_read(*resource, *probe, start, wanted, import, Err(error)));
            }
            return Err(error);
        },
    };
    if bytes.len() != wanted {
        proof {
            let answers = ReadAnswers { before, cancelled, read: Ok(bytes), after: unasked };
            assert(may_answer(*resource, *probe, start, wanted, import, answers));
            assert(some_read(*resource, *probe, start, wanted, import, Err(FileApiError::InvalidRange)));
        }
        return Err(FileApiError::InvalidRange);
    }
    let after = resource.current_snapshot();
    let ghost answers = ReadAnswers { before, cancelled, read: Ok(bytes), after };
    assert(may_answer(*resource, *probe, start, wanted, import, answers));
    match check_snapshot(after, import) {
        Ok(_) => {
            assert(some_read(*resource, *probe, start, wanted, import, Ok(bytes)));
            Ok(bytes)
        },
        Err(error) => {
            assert(some_read(*resource, *probe, start, wanted, import, Err(error)));
            Err(error)
        },
    }
}

/// Why a resource cannot be imported, if it cannot: its live state is not the
/// imported one, or the platform cannot tell a replaced file.
pub open spec fn import_failure(
    live: Result<SnapshotState, FileApiError>,
    import: SnapshotState,
    strong_identity: bool,
) -> Option<FileApiError> {
    if snapshot_failure(live, import) is Some {
        snapshot_failure(live, import)
    } else if import is Filesystem && !strong_identity {
        Some(FileApiError::PermissionDenied)
    } else {
        None
    }
}

/// Tests that a resource may be imported, before any object of it exists.
pub fn check_import(
    live: Result<SnapshotState, FileApiError>,
    import: SnapshotState,
    strong_identity: bool,
) -> (result: Result<(), FileApiError>)
    ensures
        match result {
            Ok(_) => import_failure(live, import, strong_identity) is None,
            Err(error) => import_failure(live, import, strong_identity) == Some(error),
        },
{
    match check_snapshot(live, import) {
        Ok(_) => {},
        Err(error) => {
            return Err(error);
        },
    }
    match import {
        SnapshotState::Filesystem { .. } => {
            if !strong_identity {
                return Err(FileApiError::PermissionDenied);
            }
        },
        SnapshotState::Memory => {},
    }
    Ok(())
}

/// Makes a file over an imported resource, which the host reads by `handle`.
pub fn file_over_resource<C: Clock>(
    handle: u64,
    import: SnapshotState,
    display_name: &str,
    media_type: &str,
    last_modified: Option<i64>,
    clock: &C,
    limits: &FileApiLimits,
) -> (result: Result<FileNative, FileApiError>)
    ensures
        match result {
            Ok(file) => {
                &&& bytes_failure(import.spec_len() as int, *limits) is None
                &&& file.data.wf()
                &&& file.data.spec_size() == import.spec_len()
                &&& file.data.spec_media_type() == normalized_type(media_type@)
                &&& forall|host: Map<u64, Seq<u8>>|
                    host.contains_key(handle) && host[handle].len() == import.spec_len()
                        ==> #[trigger] file.data.content(host) == host[handle] && file.data.held_by(host)
                &&& file.name@ == file_name(display_name@)
                &&& file.wf()
                &&& match last_modified {
                    Some(given) => file.last_modified == given,
                    None => call_ensures(C::now_unix_millis, (clock,), file.last_modified),
                }
            },
            Err(error) => bytes_failure(import.spec_len() as int, *limits) == Some(error),
        },
{
    let source = ByteSource::Host { handle, len: import.len() };
    match BlobData::from_source(source, media_type, limits) {
        Ok(data) => {
            proof {
                assert forall|host: Map<u64, Seq<u8>>|
                    host.contains_key(handle) && host[handle].len()
                        == import.spec_len() implies #[trigger] data.content(host)
                    == host[handle] && data.held_by(host) by {
                    if import.spec_len() > 0 {
                        let segments = data.segments();
                        assert(segments.drop_last() =~= Seq::<BlobSegment>::empty());
                        assert(segments_bytes(segments.drop_last(), host) =~= Seq::<u8>::empty());
                        assert(data.content(host) =~= host[handle]);
                    } else {
                        assert(data.content(host) =~= host[handle]);
                    }
                }
            }
            Ok(native_from_data(data, display_name, last_modified, clock))
        },
        Err(error) => Err(error),
    }
}

/// A read that succeeds gives exactly the bytes asked for, and saw the imported
/// state before and after.
pub proof fn lemma_read_sees_one_state(
    answers: ReadAnswers,
    import: SnapshotState,
    wanted: int,
    bytes: Vec<u8>,
)
    requires
        is_read(Ok(bytes), answers, import, wanted),
    ensures
        bytes@.len() == wanted,
        answers.before == Ok::<SnapshotState, FileApiError>(import),
        answers.after == Ok::<SnapshotState, FileApiError>(import),
        !answers.cancelled,
{
}


/// Bytes that a read gives are those that the resource gave for exactly that
/// range, while it was in the state in which it was imported, before and after;
/// they are as many as were asked for, and the range lies inside what was
/// imported.
pub proof fn lemma_reads_come_from_the_import<R: FileResource, P: CancelProbe>(
    resource: R,
    probe: P,
    shutdown: bool,
    import: SnapshotState,
    start: u64,
    end: u64,
    bytes: Vec<u8>,
)
    requires
        call_ensures(
            read_range::<R, P>,
            (&resource, &probe, shutdown, import, start, end),
            Ok(bytes),
        ),
    ensures
        !shutdown,
        start <= end <= import.spec_len(),
        bytes@.len() == end - start,
        call_ensures(P::is_cancelled, (&probe,), false),
        start < end ==> {
            &&& call_ensures(R::current_snapshot, (&resource,), Ok(import))
            &&& call_ensures(R::read_at, (&resource, start, (end - start) as usize), Ok(bytes))
        },
{
}

/// A read of a resource that stays as it was imported, answers reads in full and
/// is not given up succeeds; of one that has changed it fails as changed; after
/// the shutdown, and where the work is given up, it fails as cancelled; and a
/// range that does not lie inside what was imported fails as such.
pub proof fn lemma_reads_of_an_unchanged_resource_succeed<R: FileResource, P: CancelProbe>(
    resource: R,
    probe: P,
    shutdown: bool,
    import: SnapshotState,
    start: u64,
    end: u64,
    wanted: usize,
    result: Result<Vec<u8>, FileApiError>,
)
    requires
        call_ensures(read_range::<R, P>, (&resource, &probe, shutdown, import, start, end), result),
        start <= end ==> end - start <= usize::MAX ==> wanted == end - start,
    ensures
        shutdown ==> result == Err::<Vec<u8>, FileApiError>(FileApiError::Cancelled),
        (forall|given_up: bool|
            call_ensures(P::is_cancelled, (&probe,), given_up) ==> given_up) ==> result == Err::<
            Vec<u8>,
            FileApiError,
        >(FileApiError::Cancelled),
        !shutdown && (forall|given_up: bool|
            call_ensures(P::is_cancelled, (&probe,), given_up) ==> !given_up) ==> {
            &&& (start > end || end > import.spec_len()) ==> result == Err::<
                Vec<u8>,
                FileApiError,
            >(FileApiError::InvalidRange)
            &&& start == end <= import.spec_len() ==> result is Ok
            &&& start < end <= import.spec_len() && end - start <= usize::MAX ==> {
                &&& (forall|state: Result<SnapshotState, FileApiError>|
                    call_ensures(R::current_snapshot, (&resource,), state) ==> state == Ok::<
                        SnapshotState,
                        FileApiError,
                    >(import)) && (forall|read: Result<Vec<u8>, FileApiError>|
                    #[trigger]
                    call_ensures(R::read_at, (&resource, start, wanted), read) ==> (
                    read matches Ok(bytes) && bytes@.len() == end - start)) ==> result is Ok
                &&& (forall|state: Result<SnapshotState, FileApiError>|
                    call_ensures(R::current_snapshot, (&resource,), state) ==> (
                    state matches Ok(found) && found != import)) ==> result == Err::<
                    Vec<u8>,
                    FileApiError,
                >(FileApiError::SnapshotChanged)
            }
        },
{
}

/// A resource is imported exactly when it is in the state that the import names
/// and, where it is a file of a file system, is identified strongly.
pub proof fn lemma_imports_are_checked(
    live: Result<SnapshotState, FileApiError>,
    import: SnapshotState,
    strong_identity: bool,
    result: Result<(), FileApiError>,
)
    requires
        call_ensures(check_import, (live, import, strong_identity), result),
    ensures
        result is Ok <==> live == Ok::<SnapshotState, FileApiError>(import) && (import is Memory
            || strong_identity),
        live matches Err(error) ==> result == Err::<(), FileApiError>(error),
        live matches Ok(state) ==> state != import ==> result == Err::<(), FileApiError>(
            FileApiError::SnapshotChanged,
        ),
        live == Ok::<SnapshotState, FileApiError>(import) && result is Err ==> result == Err::<
            (),
            FileApiError,
        >(FileApiError::PermissionDenied),
{
}

/// A file over a resource shows the bytes of the resource, has its length and the
/// name that was given with every slash turned into a colon; it exists whenever
/// that length is within the ceilings.
pub proof fn lemma_resource_files_show_the_resource<C: Clock>(
    handle: u64,
    size: u64,
    identity: u64,
    modified: i64,
    display_name: &str,
    media_type: &str,
    last_modified: Option<i64>,
    clock: C,
    limits: FileApiLimits,
    result: Result<FileNative, FileApiError>,
    host: Map<u64, Seq<u8>>,
    at: int,
)
    requires
        call_ensures(
            file_over_resource::<C>,
            (
                handle,
                SnapshotState::Filesystem { size, identity, modified },
                display_name,
                media_type,
                last_modified,
                &clock,
                &limits,
            ),
            result,
        ),
        host.contains_key(handle),
        host[handle].len() == size,
        0 <= at < display_name@.len(),
    ensures
        size <= limits.max_blob_size && limits.max_segments > 0 ==> result is Ok,
        size > limits.max_blob_size ==> result is Err,
        result matches Ok(file) ==> {
            &&& file.data.content(host) == host[handle]
            &&& file.data.spec_size() == size
            &&& file.name@.len() == display_name@.len()
            &&& file.name@[at] == if display_name@[at] == '/' {
                ':'
            } else {
                display_name@[at]
            }
            &&& last_modified matches Some(given) ==> file.last_modified == given
            &&& last_modified is None ==> call_ensures(
                C::now_unix_millis,
                (&clock,),
                file.last_modified,
            )
        },
{
}

} // verus!
