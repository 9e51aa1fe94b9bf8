//! Structured clones of blobs, files and lists, and the bridge that stores them.

use vstd::prelude::*;

use crate::blob::BlobData;
use crate::brand::{blob_of, require_blob, require_file, require_file_list, Branded};
use crate::error::FileApiError;
use crate::file::{
    bytes_failure, data_from_bytes, file_name, holds, normalize_file_name, FileNative,
};
use crate::file_list::FileListNative;
use crate::limits::FileApiLimits;

verus! {

/// The version of the clone encoding.
pub const CLONE_ENCODING_VERSION: u32 = 1;

/// The most files of an encoded list.
pub const MAX_ENCODE_FILES: usize = 65536;

/// Failures of clone operations.
#[derive(Clone, Copy, Debug, PartialEq, Eq, Structural)]
pub enum CloneError {
    /// The bytes are no encoded payload.
    Malformed,
    /// The encoding version is another one.
    UnsupportedVersion,
    /// The object is of the wrong kind.
    InvalidObject,
    /// The payload is of the wrong kind.
    UnexpectedKind,
    /// A ceiling was met.
    LimitExceeded,
    /// The bytes could not be read.
    SourceFailed,
    /// No bridge is registered.
    NoBridge,
    /// The runtime is shut down.
    Shutdown,
    /// Anything else.
    Internal,
}

/// The name and the encoding version of a bridge.
#[derive(Debug, Clone)]
pub struct CloneBridgeDescriptor {
    /// The name.
    pub name: String,
    /// The encoding version that the bridge speaks.
    pub version: u32,
}

/// Whether a bridge speaks the encoding version of this library.
pub fn bridge_compatible(descriptor: &CloneBridgeDescriptor) -> (compatible: bool)
    ensures
        compatible == (descriptor.version == CLONE_ENCODING_VERSION),
{
    descriptor.version == CLONE_ENCODING_VERSION
}

/// A cloned blob.
#[derive(Debug)]
pub struct SerializedBlob {
    /// The bytes.
    pub bytes: Vec<u8>,
    /// The media type.
    pub media_type: String,
}

/// A cloned file.
#[derive(Debug)]
pub struct SerializedFile {
    /// The bytes.
    pub bytes: Vec<u8>,
    /// The media type.
    pub media_type: String,
    /// The name.
    pub name: String,
    /// The time of the last change.
    pub last_modified: i64,
}

/// The contents of a [`SerializedFile`].
pub struct FileClone {
    /// The bytes.
    pub bytes: Seq<u8>,
    /// The media type.
    pub media_type: Seq<char>,
    /// The name.
    pub name: Seq<char>,
    /// The time of the last change.
    pub last_modified: i64,
}

impl View for SerializedFile {
    type V = FileClone;

    open spec fn view(&self) -> FileClone {
        FileClone {
            bytes: self.bytes@,
            media_type: self.media_type@,
            name: self.name@,
            last_modified: self.last_modified,
        }
    }
}

/// What a clone carries: bytes and public metadata only.
#[derive(Debug)]
pub enum FileApiClonePayload {
    /// A blob.
    Blob(SerializedBlob),
    /// A file.
    File(SerializedFile),
    /// A list of files.
    FileList(Vec<SerializedFile>),
}

/// The clone error of a failed read.
pub open spec fn clone_failure(error: FileApiError) -> CloneError {
    match error {
        FileApiError::ResourceLimit(_) => CloneError::LimitExceeded,
        FileApiError::Cancelled => CloneError::Shutdown,
        _ => CloneError::SourceFailed,
    }
}

/// The clone error of a failed read: limits and cancellation keep their class,
/// everything else is one class.
pub fn clone_error_from_core(error: FileApiError) -> (clone_error: CloneError)
    ensures
        clone_error == clone_failure(error),
{
    match error {
        FileApiError::ResourceLimit(_) => CloneError::LimitExceeded,
        FileApiError::Cancelled => CloneError::Shutdown,
        _ => CloneError::SourceFailed,
    }
}

/// Why the bytes of a payload cannot be had, if they cannot; `read` is the
/// answer of the host.
pub open spec fn materialize_failure(
    size: u64,
    read: Result<Vec<u8>, FileApiError>,
    limits: FileApiLimits,
) -> Option<CloneError> {
    if size > limits.max_materialize_bytes {
        Some(CloneError::LimitExceeded)
    } else {
        match read {
            Ok(_) => None,
            Err(error) => Some(clone_failure(error)),
        }
    }
}

/// The bytes of a payload: a payload above the ceiling fails whatever was read.
fn materialized(size: u64, read: Result<Vec<u8>, FileApiError>, limits: &FileApiLimits) -> (result:
    Result<Vec<u8>, CloneError>)
    ensures
        match result {
            Ok(bytes) => materialize_failure(size, read, *limits) is None && read == Ok::<
                Vec<u8>,
                FileApiError,
            >(bytes),
            Err(error) => materialize_failure(size, read, *limits) == Some(error),
        },
{
    if size > limits.max_materialize_bytes {
        return Err(CloneError::LimitExceeded);
    }
    match read {
        Ok(bytes) => Ok(bytes),
        Err(error) => Err(clone_error_from_core(error)),
    }
}

/// Why a blob cannot be cloned, if it cannot.
pub open spec fn clone_blob_failure(
    shutdown: bool,
    value: Branded,
    read: Result<Vec<u8>, FileApiError>,
    limits: FileApiLimits,
) -> Option<CloneError> {
    if shutdown {
        Some(CloneError::Shutdown)
    } else {
        match blob_of(value) {
            Some(data) => materialize_failure(data.spec_size(), read, limits),
            None => Some(CloneError::InvalidObject),
        }
    }
}

/// What cloning a blob gives.
pub open spec fn blob_cloned(
    shutdown: bool,
    value: Branded,
    read: Result<Vec<u8>, FileApiError>,
    limits: FileApiLimits,
    result: Result<FileApiClonePayload, CloneError>,
) -> bool {
    match result {
        Ok(payload) => {
            &&& clone_blob_failure(shutdown, value, read, limits) is None
            &&& payload matches FileApiClonePayload::Blob(blob) && {
                &&& read == Ok::<Vec<u8>, FileApiError>(blob.bytes)
                &&& blob.media_type@ == blob_of(value)->0.spec_media_type()
            }
        },
        Err(error) => clone_blob_failure(shutdown, value, read, limits) == Some(error),
    }
}

/// Clones a blob; `read` is what reading all of its bytes gave.
pub fn clone_blob(
    shutdown: bool,
    value: &Branded,
    read: Result<Vec<u8>, FileApiError>,
    limits: &FileApiLimits,
) -> (result: Result<FileApiClonePayload, CloneError>)
    ensures
        blob_cloned(shutdown, *value, read, *limits, result),
{
    if shutdown {
        return Err(CloneError::Shutdown);
    }
    let data = match require_blob(value) {
        Ok(data) => data,
        Err(_) => {
            return Err(CloneError::InvalidObject);
        },
    };
    match materialized(data.size(), read, limits) {
        Ok(bytes) => Ok(
            FileApiClonePayload::Blob(
                SerializedBlob { bytes, media_type: data.media_type().to_owned() },
            ),
        ),
        Err(error) => Err(error),
    }
}

/// Why a value cannot be cloned as a file, if it cannot.
pub open spec fn file_failure(
    value: Branded,
    read: Result<Vec<u8>, FileApiError>,
    limits: FileApiLimits,
) -> Option<CloneError> {
    match value {
        Branded::File(file) => materialize_failure(file.data.spec_size(), read, limits),
        _ => Some(CloneError::InvalidObject),
    }
}

/// The clone of a file whose bytes are `bytes`.
pub open spec fn file_clone(value: Branded, bytes: Seq<u8>) -> FileClone {
    let file = value->File_0;
    FileClone {
        bytes,
        media_type: file.data.spec_media_type(),
        name: file.name@,
        last_modified: file.last_modified,
    }
}

/// Clones one file; no clock is read.
pub fn serialize_file(value: &Branded, read: Result<Vec<u8>, FileApiError>, limits: &FileApiLimits)
    -> (result: Result<SerializedFile, CloneError>)
    ensures
        match result {
            Ok(file) => {
                &&& file_failure(*value, read, *limits) is None
                &&& file@ == file_clone(*value, read->Ok_0@)
            },
            Err(error) => file_failure(*value, read, *limits) == Some(error),
        },
{
    let file = match require_file(value) {
        Ok(file) => file,
        Err(_) => {
            return Err(CloneError::InvalidObject);
        },
    };
    match materialized(file.data.size(), read, limits) {
        Ok(bytes) => Ok(
            SerializedFile {
                bytes,
                media_type: file.data.media_type().to_owned(),
                name: file.name().to_owned(),
                last_modified: file.last_modified,
            },
        ),
        Err(error) => Err(error),
    }
}

/// What cloning a file gives.
pub open spec fn file_cloned(
    shutdown: bool,
    value: Branded,
    read: Result<Vec<u8>, FileApiError>,
    limits: FileApiLimits,
    result: Result<FileApiClonePayload, CloneError>,
) -> bool {
    match result {
        Ok(payload) => {
            &&& !shutdown
            &&& file_failure(value, read, limits) is None
            &&& payload matches FileApiClonePayload::File(file) && file@ == file_clone(
                value,
                read->Ok_0@,
            )
        },
        Err(error) => if shutdown {
            error == CloneError::Shutdown
        } else {
            file_failure(value, read, limits) == Some(error)
        },
    }
}

/// Clones a file; `read` is what reading all of its bytes gave.
pub fn clone_file(
    shutdown: bool,
    value: &Branded,
    read: Result<Vec<u8>, FileApiError>,
    limits: &FileApiLimits,
) -> (result: Result<FileApiClonePayload, CloneError>)
    ensures
        file_cloned(shutdown, *value, read, *limits, result),
{
    if shutdown {
        return Err(CloneError::Shutdown);
    }
    match serialize_file(value, read, limits) {
        Ok(file) => Ok(FileApiClonePayload::File(file)),
        Err(error) => Err(error),
    }
}

/// One entry of a list: what its slot holds, and what reading its bytes gave.
pub struct ListedFile {
    /// What the slot holds.
    pub value: Branded,
    /// The answer of the host.
    pub read: Result<Vec<u8>, FileApiError>,
}

/// Why the first `count` entries cannot be cloned, if they cannot: the first
/// entry that fails decides, and a missing one is no file.
pub open spec fn entries_failure(
    entries: Seq<ListedFile>,
    count: nat,
    limits: FileApiLimits,
) -> Option<CloneError>
    decreases count,
{
    if count == 0 {
        None
    } else {
        let before = entries_failure(entries, (count - 1) as nat, limits);
        if before is Some {
            before
        } else if count > entries.len() {
            Some(CloneError::InvalidObject)
        } else {
            file_failure(entries[count - 1].value, entries[count - 1].read, limits)
        }
    }
}

/// The clones of the entries, in order.
pub open spec fn entry_clones(entries: Seq<ListedFile>) -> Seq<FileClone> {
    entries.map_values(|entry: ListedFile| file_clone(entry.value, entry.read->Ok_0@))
}

/// The contents of cloned files, in order.
pub open spec fn clone_views(files: Seq<SerializedFile>) -> Seq<FileClone> {
    files.map_values(|file: SerializedFile| file@)
}

/// Why a list cannot be cloned, if it cannot.
pub open spec fn clone_list_failure(
    shutdown: bool,
    value: Branded,
    entries: Seq<ListedFile>,
    limits: FileApiLimits,
) -> Option<CloneError> {
    if shutdown {
        Some(CloneError::Shutdown)
    } else {
        match value {
            Branded::FileList(list) => if list.spec_len() > MAX_ENCODE_FILES {
                Some(CloneError::LimitExceeded)
            } else {
                entries_failure(entries, list.spec_len() as nat, limits)
            },
            _ => Some(CloneError::InvalidObject),
        }
    }
}

proof fn lemma_entries_failure_stays(
    entries: Seq<ListedFile>,
    fewer: nat,
    count: nat,
    limits: FileApiLimits,
)
    requires
        fewer <= count,
        entries_failure(entries, fewer, limits) is Some,
    ensures
        entries_failure(entries, count, limits) == entries_failure(entries, fewer, limits),
    decreases count,
{
    if fewer < count {
        lemma_entries_failure_stays(entries, fewer, (count - 1) as nat, limits);
    }
}

/// What cloning a list gives.
pub open spec fn list_cloned(
    shutdown: bool,
    value: Branded,
    entries: Seq<ListedFile>,
    limits: FileApiLimits,
    result: Result<FileApiClonePayload, CloneError>,
) -> bool {
    match result {
        Ok(payload) => {
            &&& clone_list_failure(shutdown, value, entries, limits) is None
            &&& payload matches FileApiClonePayload::FileList(files) && clone_views(files@)
                == entry_clones(entries.take(value->FileList_0.spec_len() as int))
        },
        Err(error) => clone_list_failure(shutdown, value, entries, limits) == Some(error),
    }
}

/// Clones a list: every entry in order, or nothing.
pub fn clone_file_list(
    shutdown: bool,
    value: &Branded,
    entries: Vec<ListedFile>,
    limits: &FileApiLimits,
) -> (result: Result<FileApiClonePayload, CloneError>)
    ensures
        list_cloned(shutdown, *value, entries@, *limits, result),
{
    if shutdown {
        return Err(CloneError::Shutdown);
    }
    let count: usize = match require_file_list(value) {
        Ok(count) => count,
        Err(_) => {
            return Err(CloneError::InvalidObject);
        },
    };
    if count > MAX_ENCODE_FILES {
        return Err(CloneError::LimitExceeded);
    }
    let ghost all = entries@;
    let mut files: Vec<SerializedFile> = Vec::new();
    proof {
        assert(clone_views(files@) =~= entry_clones(all.take(0)));
    }
    if count == 0 {
        return Ok(FileApiClonePayload::FileList(files));
    }
    for entry in iter: entries
        invariant
            iter.seq() == all,
            iter.index() < count,
            files@.len() == iter.index(),
            entries_failure(all, iter.index() as nat, *limits) is None,
            clone_views(files@) =~= entry_clones(all.take(iter.index())),
            clone_list_failure(shutdown, *value, all, *limits) == entries_failure(
                all,
                count as nat,
                *limits,
            ),
            value matches Branded::FileList(list) && list.spec_len() == count,
    {
        let ghost at = iter.index();
        match serialize_file(&entry.value, entry.read, limits) {
            Ok(file) => {
                files.push(file);
                proof {
                    assert(all.take(at + 1) =~= all.take(at).push(all[at]));
                    assert(entry_clones(all.take(at + 1)) =~= entry_clones(all.take(at)).push(
                        file_clone(all[at].value, all[at].read->Ok_0@),
                    ));
                }
            },
            Err(error) => {
                proof {
                    lemma_entries_failure_stays(all, (at + 1) as nat, count as nat, *limits);
                }
                return Err(error);
            },
        }
        if files.len() == count {
            assert(clone_views(files@) =~= entry_clones(all.take(count as int)));
            return Ok(FileApiClonePayload::FileList(files));
        }
    }
    proof {
        lemma_entries_failure_stays(all, (all.len() + 1) as nat, count as nat, *limits);
    }
    Err(CloneError::InvalidObject)
}

/// What making a blob of a clone gives.
pub open spec fn blob_restored(
    shutdown: bool,
    payload: FileApiClonePayload,
    limits: FileApiLimits,
    result: Result<BlobData, CloneError>,
) -> bool {
    match result {
        Ok(data) => {
            &&& !shutdown
            &&& payload matches FileApiClonePayload::Blob(blob)
            &&& bytes_failure(blob.bytes@.len() as int, limits) is None
            &&& holds(data, blob.bytes@, blob.media_type@)
        },
        Err(error) => if shutdown {
            error == CloneError::Shutdown
        } else {
            match payload {
                FileApiClonePayload::Blob(blob) => bytes_failure(
                    blob.bytes@.len() as int,
                    limits,
                ) matches Some(failure) && error == clone_failure(failure),
                _ => error == CloneError::UnexpectedKind,
            }
        },
    }
}

/// Makes a blob of a clone; a clone of another kind is refused.
pub fn blob_from_clone(shutdown: bool, payload: FileApiClonePayload, limits: &FileApiLimits) -> (
    result: Result<BlobData, CloneError>)
    ensures
        blob_restored(shutdown, payload, *limits, result),
{
    if shutdown {
        return Err(CloneError::Shutdown);
    }
    match payload {
        FileApiClonePayload::Blob(blob) => {
            match data_from_bytes(blob.bytes, blob.media_type.as_str(), limits) {
                Ok(data) => Ok(data),
                Err(error) => Err(clone_error_from_core(error)),
            }
        },
        _ => Err(CloneError::UnexpectedKind),
    }
}

/// Whether `file` is what `clone` stands for: the time as it is, the name with
/// its slashes replaced.
pub open spec fn is_restored(file: FileNative, clone: FileClone) -> bool {
    &&& holds(file.data, clone.bytes, clone.media_type)
    &&& file.name@ == file_name(clone.name)
    &&& file.last_modified == clone.last_modified
    &&& file.wf()
}

/// Makes a file of a cloned one.
fn restore_file(clone: SerializedFile, limits: &FileApiLimits) -> (result: Result<
    FileNative,
    CloneError,
>)
    ensures
        match result {
            Ok(file) => bytes_failure(clone@.bytes.len() as int, *limits) is None && is_restored(
                file,
                clone@,
            ),
            Err(error) => bytes_failure(clone@.bytes.len() as int, *limits) matches Some(failure)
                && error == clone_failure(failure),
        },
{
    match data_from_bytes(clone.bytes, clone.media_type.as_str(), limits) {
        Ok(data) => Ok(
            FileNative::new(data, normalize_file_name(clone.name.as_str()), clone.last_modified),
        ),
        Err(error) => Err(clone_error_from_core(error)),
    }
}

/// What making a file of a clone gives.
pub open spec fn file_restored(
    shutdown: bool,
    payload: FileApiClonePayload,
    limits: FileApiLimits,
    result: Result<FileNative, CloneError>,
) -> bool {
    match result {
        Ok(file) => {
            &&& !shutdown
            &&& payload matches FileApiClonePayload::File(clone)
            &&& bytes_failure(clone@.bytes.len() as int, limits) is None
            &&& is_restored(file, clone@)
        },
        Err(error) => if shutdown {
            error == CloneError::Shutdown
        } else {
            match payload {
                FileApiClonePayload::File(clone) => bytes_failure(
                    clone@.bytes.len() as int,
                    limits,
                ) matches Some(failure) && error == clone_failure(failure),
                _ => error == CloneError::UnexpectedKind,
            }
        },
    }
}

/// Makes a file of a clone; a clone of another kind is refused.
pub fn file_from_clone(shutdown: bool, payload: FileApiClonePayload, limits: &FileApiLimits) -> (
    result: Result<FileNative, CloneError>)
    ensures
        file_restored(shutdown, payload, *limits, result),
{
    if shutdown {
        return Err(CloneError::Shutdown);
    }
    match payload {
        FileApiClonePayload::File(clone) => restore_file(clone, limits),
        _ => Err(CloneError::UnexpectedKind),
    }
}

/// Why cloned files cannot be restored, if they cannot: the first one that fails
/// decides.
pub open spec fn restore_failure(clones: Seq<FileClone>, limits: FileApiLimits) -> Option<
    CloneError,
>
    decreases clones.len(),
{
    if clones.len() == 0 {
        None
    } else {
        let before = restore_failure(clones.drop_last(), limits);
        if before is Some {
            before
        } else {
            match bytes_failure(clones.last().bytes.len() as int, limits) {
                Some(error) => Some(clone_failure(error)),
                None => None,
            }
        }
    }
}

proof fn lemma_restore_failure_stays(clones: Seq<FileClone>, count: int, limits: FileApiLimits)
    requires
        0 <= count <= clones.len(),
        restore_failure(clones.take(count), limits) is Some,
    ensures
        restore_failure(clones, limits) == restore_failure(clones.take(count), limits),
    decreases clones.len(),
{
    if count < clones.len() {
        assert(clones.drop_last().take(count) =~= clones.take(count));
        lemma_restore_failure_stays(clones.drop_last(), count, limits);
    } else {
        assert(clones.take(count) =~= clones);
    }
}

/// What making the files of a cloned list gives.
pub open spec fn list_restored(
    shutdown: bool,
    payload: FileApiClonePayload,
    limits: FileApiLimits,
    result: Result<Vec<FileNative>, CloneError>,
) -> bool {
    match result {
        Ok(files) => {
            &&& !shutdown
            &&& payload matches FileApiClonePayload::FileList(clones)
            &&& clones@.len() <= MAX_ENCODE_FILES
            &&& restore_failure(clone_views(clones@), limits) is None
            &&& files@.len() == clones@.len()
            &&& forall|i: int|
                0 <= i < files@.len() ==> is_restored(#[trigger] files@[i], clones@[i]@)
        },
        Err(error) => if shutdown {
            error == CloneError::Shutdown
        } else {
            match payload {
                FileApiClonePayload::FileList(clones) => if clones@.len() > MAX_ENCODE_FILES {
                    error == CloneError::LimitExceeded
                } else {
                    restore_failure(clone_views(clones@), limits) == Some(error)
                },
                _ => error == CloneError::UnexpectedKind,
            }
        },
    }
}

/// Makes the files of a cloned list: all of them in order, or nothing.
pub fn file_list_from_clone(
    shutdown: bool,
    payload: FileApiClonePayload,
    limits: &FileApiLimits,
) -> (result: Result<Vec<FileNative>, CloneError>)
    ensures
        list_restored(shutdown, payload, *limits, result),
{
    if shutdown {
        return Err(CloneError::Shutdown);
    }
    let clones = match payload {
        FileApiClonePayload::FileList(clones) => clones,
        _ => {
            return Err(CloneError::UnexpectedKind);
        },
    };
    if clones.len() > MAX_ENCODE_FILES {
        return Err(CloneError::LimitExceeded);
    }
    let ghost all = clones@;
    let ghost views = clone_views(all);
    let mut files: Vec<FileNative> = Vec::new();
    assert(views.take(0) =~= Seq::<FileClone>::empty());
    for clone in iter: clones
        invariant
            iter.seq() == all,
            views == clone_views(all),
            all.len() <= MAX_ENCODE_FILES,
            !shutdown,
            payload matches FileApiClonePayload::FileList(held) && held@ == all,
            files@.len() == iter.index(),
            restore_failure(views.take(iter.index()), *limits) is None,
            forall|i: int| 0 <= i < iter.index() ==> is_restored(#[trigger] files@[i], all[i]@),
    {
        let ghost at = iter.index();
        proof {
            let longer = views.take(at + 1);
            assert(longer.drop_last() =~= views.take(at));
            assert(longer.last() == clone@);
        }
        match restore_file(clone, limits) {
            Ok(file) => {
                files.push(file);
            },
            Err(error) => {
                proof {
                    lemma_restore_failure_stays(views, at + 1, *limits);
                }
                return Err(error);
            },
        }
    }
    assert(views.take(all.len() as int) =~= views);
    Ok(files)
}

/// What connects clones to an external store; hosts implement it.
pub trait CloneAdapter: Send + Sync + 'static {
    /// The name and version of the bridge.
    fn descriptor(&self) -> CloneBridgeDescriptor;

    /// Encodes a payload for storage.
    fn encode(&self, payload: &FileApiClonePayload) -> Result<Vec<u8>, CloneError>;

    /// Decodes what [`CloneAdapter::encode`] gave.
    fn decode(&self, bytes: &[u8]) -> Result<FileApiClonePayload, CloneError>;
}

/// Why a bridge is not asked at all, if it is not.
pub open spec fn bridge_refusal(
    shutdown: bool,
    descriptor: Option<CloneBridgeDescriptor>,
) -> Option<CloneError> {
    if shutdown {
        Some(CloneError::Shutdown)
    } else {
        match descriptor {
            None => Some(CloneError::NoBridge),
            Some(found) => if found.version != CLONE_ENCODING_VERSION {
                Some(CloneError::UnsupportedVersion)
            } else {
                None
            },
        }
    }
}

/// Tests that a bridge may be asked: before the payload is touched.
pub fn check_bridge(shutdown: bool, descriptor: Option<&CloneBridgeDescriptor>) -> (result: Result<
    (),
    CloneError,
>)
    ensures
        ({
            let found = match descriptor {
                Some(found) => Some(*found),
                None => None,
            };
            match result {
                Ok(_) => bridge_refusal(shutdown, found) is None,
                Err(error) => bridge_refusal(shutdown, found) == Some(error),
            }
        }),
{
    if shutdown {
        return Err(CloneError::Shutdown);
    }
    match descriptor {
        None => Err(CloneError::NoBridge),
        Some(found) => {
            if !bridge_compatible(found) {
                return Err(CloneError::UnsupportedVersion);
            }
            Ok(())
        },
    }
}

/// Whether `adapter` may describe itself by `descriptor`; no adapter has none.
pub open spec fn described<A: CloneAdapter>(
    adapter: Option<&A>,
    descriptor: Option<CloneBridgeDescriptor>,
) -> bool {
    match adapter {
        Some(asked) => descriptor matches Some(found) && call_ensures(
            A::descriptor,
            (asked,),
            found,
        ),
        None => descriptor is None,
    }
}

/// What encoding through a bridge gives: a bridge that may be asked decides.
pub open spec fn encoded_via<A: CloneAdapter>(
    shutdown: bool,
    adapter: Option<&A>,
    payload: &FileApiClonePayload,
    result: Result<Vec<u8>, CloneError>,
) -> bool {
    if shutdown {
        result == Err::<Vec<u8>, CloneError>(CloneError::Shutdown)
    } else {
        exists|descriptor: Option<CloneBridgeDescriptor>| #[trigger]
            described(adapter, descriptor) && match bridge_refusal(shutdown, descriptor) {
                Some(error) => result == Err::<Vec<u8>, CloneError>(error),
                None => call_ensures(A::encode, (adapter->0, payload), result),
            }
    }
}

/// Encodes a payload through the registered bridge.
pub fn clone_encode_via_bridge<A: CloneAdapter>(
    shutdown: bool,
    adapter: Option<&A>,
    payload: &FileApiClonePayload,
) -> (result: Result<Vec<u8>, CloneError>)
    ensures
        encoded_via(shutdown, adapter, payload, result),
{
    if shutdown {
        return Err(CloneError::Shutdown);
    }
    match adapter {
        None => {
            assert(described(adapter, None));
            Err(CloneError::NoBridge)
        },
        Some(asked) => {
            let descriptor = asked.descriptor();
            assert(described(adapter, Some(descriptor)));
            match check_bridge(shutdown, Some(&descriptor)) {
                Ok(_) => asked.encode(payload),
                Err(error) => Err(error),
            }
        },
    }
}

/// What decoding through a bridge gives: a bridge that may be asked decides.
pub open spec fn decoded_via<A: CloneAdapter>(
    shutdown: bool,
    adapter: Option<&A>,
    bytes: &[u8],
    result: Result<FileApiClonePayload, CloneError>,
) -> bool {
    if shutdown {
        result == Err::<FileApiClonePayload, CloneError>(CloneError::Shutdown)
    } else {
        exists|descriptor: Option<CloneBridgeDescriptor>| #[trigger]
            described(adapter, descriptor) && match bridge_refusal(shutdown, descriptor) {
                Some(error) => result == Err::<FileApiClonePayload, CloneError>(error),
                None => call_ensures(A::decode, (adapter->0, bytes), result),
            }
    }
}

/// Decodes bytes through the registered bridge.
pub fn clone_decode_via_bridge<A: CloneAdapter>(
    shutdown: bool,
    adapter: Option<&A>,
    bytes: &[u8],
) -> (result: Result<FileApiClonePayload, CloneError>)
    ensures
        decoded_via(shutdown, adapter, bytes, result),
{
    if shutdown {
        return Err(CloneError::Shutdown);
    }
    match adapter {
        None => {
            assert(described(adapter, None));
            Err(CloneError::NoBridge)
        },
        Some(asked) => {
            let descriptor = asked.descriptor();
            assert(described(adapter, Some(descriptor)));
            match check_bridge(shutdown, Some(&descriptor)) {
                Ok(_) => asked.decode(bytes),
                Err(error) => Err(error),
            }
        },
    }
}

/// The encoding of clone payloads, supplied by the host.
pub trait CloneCodec {
    /// Encodes a payload.
    fn encode_payload(&self, payload: &FileApiClonePayload) -> Result<Vec<u8>, CloneError>;

    /// Decodes what [`CloneCodec::encode_payload`] gave.
    fn decode_payload(&self, bytes: &[u8]) -> Result<FileApiClonePayload, CloneError>;
}

/// A bridge that stores nothing: it encodes and decodes where its version is the
/// one of this library, and fails otherwise.
#[derive(Debug, Clone)]
pub struct FakeCloneBridge {
    descriptor: CloneBridgeDescriptor,
}

impl FakeCloneBridge {
    /// The name of the bridge.
    pub closed spec fn spec_name(self) -> Seq<char> {
        self.descriptor.name@
    }

    /// The encoding version that the bridge speaks.
    pub closed spec fn spec_version(self) -> u32 {
        self.descriptor.version
    }

    /// A bridge that speaks the version of this library.
    pub fn new(name: &str) -> (bridge: FakeCloneBridge)
        ensures
            bridge.spec_name() == name@,
            bridge.spec_version() == CLONE_ENCODING_VERSION,
    {
        FakeCloneBridge::with_version(name, CLONE_ENCODING_VERSION)
    }

    /// A bridge that speaks `version`.
    pub fn with_version(name: &str, version: u32) -> (bridge: FakeCloneBridge)
        ensures
            bridge.spec_name() == name@,
            bridge.spec_version() == version,
    {
        FakeCloneBridge {
            descriptor: CloneBridgeDescriptor { name: name.to_owned(), version },
        }
    }

    /// The name and version of the bridge.
    pub fn descriptor(&self) -> (descriptor: CloneBridgeDescriptor)
        ensures
            descriptor.name@ == self.spec_name(),
            descriptor.version == self.spec_version(),
    {
        CloneBridgeDescriptor {
            name: self.descriptor.name.as_str().to_owned(),
            version: self.descriptor.version,
        }
    }

    /// Encodes a payload; a foreign version fails before the payload is touched.
    pub fn encode<C: CloneCodec>(&self, codec: &C, payload: &FileApiClonePayload) -> (result: Result<
        Vec<u8>,
        CloneError,
    >)
        ensures
            if self.spec_version() != CLONE_ENCODING_VERSION {
                result == Err::<Vec<u8>, CloneError>(CloneError::UnsupportedVersion)
            } else {
                call_ensures(C::encode_payload, (codec, payload), result)
            },
    {
        if !bridge_compatible(&self.descriptor) {
            return Err(CloneError::UnsupportedVersion);
        }
        codec.encode_payload(payload)
    }

    /// Decodes bytes; a foreign version fails before the bytes are touched.
    pub fn decode<C: CloneCodec>(&self, codec: &C, bytes: &[u8]) -> (result: Result<
        FileApiClonePayload,
        CloneError,
    >)
        ensures
            if self.spec_version() != CLONE_ENCODING_VERSION {
                result == Err::<FileApiClonePayload, CloneError>(CloneError::UnsupportedVersion)
            } else {
                call_ensures(C::decode_payload, (codec, bytes), result)
            },
    {
        if !bridge_compatible(&self.descriptor) {
            return Err(CloneError::UnsupportedVersion);
        }
        codec.decode_payload(bytes)
    }
}

/// The bytes of cloned files, added up.
pub open spec fn clones_len(files: Seq<SerializedFile>) -> int
    decreases files.len(),
{
    if files.len() == 0 {
        0
    } else {
        clones_len(files.drop_last()) + files.last().bytes@.len()
    }
}

/// The number of bytes of a payload.
pub open spec fn payload_len(payload: FileApiClonePayload) -> int {
    match payload {
        FileApiClonePayload::Blob(blob) => blob.bytes@.len() as int,
        FileApiClonePayload::File(file) => file.bytes@.len() as int,
        FileApiClonePayload::FileList(files) => clones_len(files@),
    }
}

proof fn lemma_clones_len_grows(files: Seq<SerializedFile>, count: int)
    requires
        0 <= count <= files.len(),
    ensures
        0 <= clones_len(files.take(count)) <= clones_len(files),
    decreases files.len(),
{
    if count < files.len() {
        assert(files.drop_last().take(count) =~= files.take(count));
        lemma_clones_len_grows(files.drop_last(), count);
    } else {
        assert(files.take(count) =~= files);
        if files.len() > 0 {
            assert(files.drop_last().take(0) =~= Seq::<SerializedFile>::empty());
            lemma_clones_len_grows(files.drop_last(), 0);
        }
    }
}

/// The number of bytes of a payload, saturated.
pub fn clone_payload_size(payload: &FileApiClonePayload) -> (size: u64)
    ensures
        size == if payload_len(*payload) > u64::MAX {
            u64::MAX as int
        } else {
            payload_len(*payload)
        },
{
    match payload {
        FileApiClonePayload::Blob(blob) => blob.bytes.len() as u64,
        FileApiClonePayload::File(file) => file.bytes.len() as u64,
        FileApiClonePayload::FileList(files) => {
            let mut total: u64 = 0;
            let mut i: usize = 0;
            assert(files@.take(0) =~= Seq::<SerializedFile>::empty());
            while i < files.len()
                invariant
                    i <= files@.len(),
                    total == if clones_len(files@.take(i as int)) > u64::MAX {
                        u64::MAX as int
                    } else {
                        clones_len(files@.take(i as int))
                    },
                decreases files@.len() - i,
            {
                proof {
                    let longer = files@.take(i + 1);
                    assert(longer.drop_last() =~= files@.take(i as int));
                    assert(longer.last() == files@[i as int]);
                    lemma_clones_len_grows(files@, i as int);
                }
                total = total.saturating_add(files[i].bytes.len() as u64);
                i = i + 1;
            }
            assert(files@.take(i as int) =~= files@);
            total
        },
    }
}

/// Whether what reading a payload gave is its content.
pub open spec fn read_in_full(
    data: BlobData,
    host: Map<u64, Seq<u8>>,
    read: Result<Vec<u8>, FileApiError>,
) -> bool {
    read matches Ok(bytes) && bytes@ == data.content(host)
}

/// Whether two files have the same bytes, media type, name and time.
pub open spec fn same_file(a: FileNative, b: FileNative, host: Map<u64, Seq<u8>>) -> bool {
    &&& a.name@ == b.name@
    &&& a.last_modified == b.last_modified
    &&& a.data.spec_media_type() == b.data.spec_media_type()
    &&& a.data.content(host) == b.data.content(host)
}

/// A clone of a blob makes a blob of the same bytes and media type.
pub proof fn lemma_blob_clone_round_trip(
    data: BlobData,
    host: Map<u64, Seq<u8>>,
    read: Result<Vec<u8>, FileApiError>,
    limits: FileApiLimits,
    payload: FileApiClonePayload,
    restored: BlobData,
)
    requires
        data.wf(),
        read_in_full(data, host, read),
        blob_cloned(false, Branded::Blob(data), read, limits, Ok(payload)),
        blob_restored(false, payload, limits, Ok(restored)),
    ensures
        restored.spec_media_type() == data.spec_media_type(),
        restored.content(host) == data.content(host),
{
}

/// A clone of a file makes a file of the same bytes, media type, name and time.
pub proof fn lemma_file_clone_round_trip(
    file: FileNative,
    host: Map<u64, Seq<u8>>,
    read: Result<Vec<u8>, FileApiError>,
    limits: FileApiLimits,
    payload: FileApiClonePayload,
    restored: FileNative,
)
    requires
        file.wf(),
        read_in_full(file.data, host, read),
        file_cloned(false, Branded::File(file), read, limits, Ok(payload)),
        file_restored(false, payload, limits, Ok(restored)),
    ensures
        same_file(restored, file, host),
{
    lemma_restored_file(file, host, restored);
}

proof fn lemma_restored_file(file: FileNative, host: Map<u64, Seq<u8>>, restored: FileNative)
    requires
        file.wf(),
        is_restored(restored, file_clone(Branded::File(file), file.data.content(host))),
    ensures
        same_file(restored, file, host),
{
    assert forall|i: int| 0 <= i < file.name@.len() implies file_name(file.name@)[i]
        == #[trigger] file.name@[i] by {
        assert(file.name@.contains(file.name@[i]));
    }
    assert(file_name(file.name@) =~= file.name@);
}

/// A clone of a list makes the same files in the same order.
pub proof fn lemma_list_clone_round_trip(
    list: FileListNative,
    entries: Seq<ListedFile>,
    host: Map<u64, Seq<u8>>,
    limits: FileApiLimits,
    payload: FileApiClonePayload,
    restored: Vec<FileNative>,
)
    requires
        entries.len() == list.spec_len(),
        forall|i: int|
            0 <= i < entries.len() ==> ((#[trigger] entries[i]).value matches Branded::File(file)
                && file.wf() && read_in_full(file.data, host, entries[i].read)),
        list_cloned(false, Branded::FileList(list), entries, limits, Ok(payload)),
        list_restored(false, payload, limits, Ok(restored)),
    ensures
        restored@.len() == entries.len(),
        forall|i: int|
            0 <= i < entries.len() ==> same_file(
                restored@[i],
                (#[trigger] entries[i]).value->File_0,
                host,
            ),
{
    let clones = payload->FileList_0@;
    assert(entries.take(list.spec_len() as int) =~= entries);
    assert(clone_views(clones).len() == entry_clones(entries).len());
    assert forall|i: int| 0 <= i < entries.len() implies same_file(
        restored@[i],
        (#[trigger] entries[i]).value->File_0,
        host,
    ) by {
        let file = entries[i].value->File_0;
        assert(clones[i]@ == clone_views(clones)[i]);
        assert(entry_clones(entries)[i] == file_clone(entries[i].value, entries[i].read->Ok_0@));
        assert(is_restored(restored@[i], clones[i]@));
        lemma_restored_file(file, host, restored@[i]);
    }
}

/// A payload is restored only as what it is a clone of: as anything else it is
/// refused for its kind.
pub proof fn lemma_clone_kinds_stay_apart(
    payload: FileApiClonePayload,
    limits: FileApiLimits,
    blob: Result<BlobData, CloneError>,
    file: Result<FileNative, CloneError>,
    list: Result<Vec<FileNative>, CloneError>,
)
    requires
        blob_restored(false, payload, limits, blob),
        file_restored(false, payload, limits, file),
        list_restored(false, payload, limits, list),
    ensures
        !(payload is Blob) ==> blob == Err::<BlobData, CloneError>(CloneError::UnexpectedKind),
        !(payload is File) ==> file == Err::<FileNative, CloneError>(CloneError::UnexpectedKind),
        !(payload is FileList) ==> list == Err::<Vec<FileNative>, CloneError>(
            CloneError::UnexpectedKind,
        ),
{
}


/// A blob, or a file taken as a blob, that is cloned and restored is a blob of
/// the bytes that were read, of the same size and under the same media type. It
/// is cloned whenever its size is within the ceiling of reads, and restored
/// whenever its bytes are within the ceilings of blobs; the runtime that
/// restores it may have other ceilings.
pub proof fn lemma_blob_clones_are_copies(
    value: Branded,
    data: BlobData,
    bytes: Vec<u8>,
    limits: FileApiLimits,
    cloned: Result<FileApiClonePayload, CloneError>,
    there: FileApiLimits,
    restored: Result<BlobData, CloneError>,
    host: Map<u64, Seq<u8>>,
)
    requires
        data.wf(),
        value == Branded::Blob(data) || (value matches Branded::File(file) && file.data == data),
        bytes@.len() == data.spec_size(),
        call_ensures(clone_blob, (false, &value, Ok(bytes), &limits), cloned),
        cloned matches Ok(payload) ==> call_ensures(
            blob_from_clone,
            (false, payload, &there),
            restored,
        ),
    ensures
        cloned is Ok <==> bytes@.len() <= limits.max_materialize_bytes,
        cloned is Ok && bytes@.len() <= there.max_blob_size && there.max_segments > 0
            ==> restored is Ok,
        cloned is Ok && restored is Ok ==> {
            &&& bytes@.len() <= there.max_blob_size
            &&& restored->Ok_0.content(host) == bytes@
            &&& restored->Ok_0.spec_size() == bytes@.len()
            &&& restored->Ok_0.spec_media_type() == data.spec_media_type()
        },
{
}

/// A file that is cloned and restored has the bytes that were read, the same
/// size, media type, name and time. It is cloned whenever its size is within the
/// ceiling of reads, and restored whenever its bytes are within the ceilings of
/// blobs.
pub proof fn lemma_file_clones_are_copies(
    file: FileNative,
    bytes: Vec<u8>,
    limits: FileApiLimits,
    cloned: Result<FileApiClonePayload, CloneError>,
    there: FileApiLimits,
    restored: Result<FileNative, CloneError>,
    host: Map<u64, Seq<u8>>,
)
    requires
        file.wf(),
        bytes@.len() == file.data.spec_size(),
        call_ensures(clone_file, (false, &Branded::File(file), Ok(bytes), &limits), cloned),
        cloned matches Ok(payload) ==> call_ensures(
            file_from_clone,
            (false, payload, &there),
            restored,
        ),
    ensures
        cloned is Ok <==> bytes@.len() <= limits.max_materialize_bytes,
        cloned is Ok && bytes@.len() <= there.max_blob_size && there.max_segments > 0
            ==> restored is Ok,
        cloned is Ok && restored is Ok ==> {
            &&& bytes@.len() <= there.max_blob_size
            &&& restored->Ok_0.data.content(host) == bytes@
            &&& restored->Ok_0.data.spec_size() == bytes@.len()
            &&& restored->Ok_0.data.spec_media_type() == file.data.spec_media_type()
            &&& restored->Ok_0.name@ == file.name@
            &&& restored->Ok_0.last_modified == file.last_modified
        },
{
    assert forall|i: int| 0 <= i < file.name@.len() implies file_name(file.name@)[i]
        == #[trigger] file.name@[i] by {
        assert(file.name@.contains(file.name@[i]));
    }
    assert(file_name(file.name@) =~= file.name@);
}

/// A list that is cloned and restored has as many files as before, and in each
/// place a file of the bytes, the media type, the name and the time of the file
/// that was there.
pub proof fn lemma_list_clones_are_copies(
    list: FileListNative,
    files: Seq<FileNative>,
    bytes: Seq<Vec<u8>>,
    entries: Vec<ListedFile>,
    limits: FileApiLimits,
    payload: FileApiClonePayload,
    there: FileApiLimits,
    restored: Vec<FileNative>,
    host: Map<u64, Seq<u8>>,
    at: int,
)
    requires
        files.len() == bytes.len() == entries@.len() == list.spec_len(),
        forall|i: int| #![trigger entries@[i]]
            0 <= i < files.len() ==> files[i].wf() && entries@[i] == (ListedFile {
                value: Branded::File(files[i]),
                read: Ok(bytes[i]),
            }),
        call_ensures(
            clone_file_list,
            (false, &Branded::FileList(list), entries, &limits),
            Ok(payload),
        ),
        call_ensures(file_list_from_clone, (false, payload, &there), Ok(restored)),
        0 <= at < files.len(),
    ensures
        restored@.len() == files.len(),
        restored@[at].data.content(host) == bytes[at]@,
        restored@[at].data.spec_media_type() == files[at].data.spec_media_type(),
        restored@[at].name@ == files[at].name@,
        restored@[at].last_modified == files[at].last_modified,
{
    let clones = payload->FileList_0@;
    let file = files[at];
    assert(entries@.take(list.spec_len() as int) =~= entries@);
    assert(clone_views(clones).len() == entry_clones(entries@).len());
    assert(clones[at]@ == clone_views(clones)[at]);
    assert(entries@[at].value == Branded::File(file));
    assert(entry_clones(entries@)[at] == file_clone(entries@[at].value, bytes[at]@));
    assert(is_restored(restored@[at], clones[at]@));
    assert forall|i: int| 0 <= i < file.name@.len() implies file_name(file.name@)[i]
        == #[trigger] file.name@[i] by {
        assert(file.name@.contains(file.name@[i]));
    }
    assert(file_name(file.name@) =~= file.name@);
}

/// What is no file is never cloned as one, and what is no list is never cloned as
/// one; a runtime that is shut down clones and restores nothing; and a payload of
/// one kind is never restored as another.
pub proof fn lemma_clones_are_refused_by_kind(
    shutdown: bool,
    value: Branded,
    read: Result<Vec<u8>, FileApiError>,
    entries: Vec<ListedFile>,
    limits: FileApiLimits,
    payload: FileApiClonePayload,
    as_blob: Result<FileApiClonePayload, CloneError>,
    as_file: Result<FileApiClonePayload, CloneError>,
    as_list: Result<FileApiClonePayload, CloneError>,
    to_blob: Result<BlobData, CloneError>,
    to_file: Result<FileNative, CloneError>,
    to_list: Result<Vec<FileNative>, CloneError>,
)
    requires
        call_ensures(clone_blob, (shutdown, &value, read, &limits), as_blob),
        call_ensures(clone_file, (shutdown, &value, read, &limits), as_file),
        call_ensures(clone_file_list, (shutdown, &value, entries, &limits), as_list),
        call_ensures(blob_from_clone, (shutdown, payload, &limits), to_blob),
        call_ensures(file_from_clone, (shutdown, payload, &limits), to_file),
        call_ensures(file_list_from_clone, (shutdown, payload, &limits), to_list),
    ensures
        shutdown ==> {
            &&& as_blob == Err::<FileApiClonePayload, CloneError>(CloneError::Shutdown)
            &&& as_file == Err::<FileApiClonePayload, CloneError>(CloneError::Shutdown)
            &&& as_list == Err::<FileApiClonePayload, CloneError>(CloneError::Shutdown)
            &&& to_blob == Err::<BlobData, CloneError>(CloneError::Shutdown)
            &&& to_file == Err::<FileNative, CloneError>(CloneError::Shutdown)
            &&& to_list == Err::<Vec<FileNative>, CloneError>(CloneError::Shutdown)
        },
        !shutdown && !(value is Blob) && !(value is File) ==> as_blob == Err::<
            FileApiClonePayload,
            CloneError,
        >(CloneError::InvalidObject),
        !shutdown && !(value is File) ==> as_file == Err::<FileApiClonePayload, CloneError>(
            CloneError::InvalidObject,
        ),
        !shutdown && !(value is FileList) ==> as_list == Err::<FileApiClonePayload, CloneError>(
            CloneError::InvalidObject,
        ),
        !shutdown && !(payload is Blob) ==> to_blob == Err::<BlobData, CloneError>(
            CloneError::UnexpectedKind,
        ),
        !shutdown && !(payload is File) ==> to_file == Err::<FileNative, CloneError>(
            CloneError::UnexpectedKind,
        ),
        !shutdown && !(payload is FileList) ==> to_list == Err::<Vec<FileNative>, CloneError>(
            CloneError::UnexpectedKind,
        ),
        as_blob is Ok ==> read is Ok && as_blob->Ok_0 is Blob,
        as_file is Ok ==> read is Ok && as_file->Ok_0 is File,
        as_list is Ok ==> as_list->Ok_0 is FileList,
{
}

/// A list of two halves is as long as both together, and the size of a payload
/// is the number of its bytes wherever that fits.
pub proof fn lemma_payload_sizes_add_up(
    first: Vec<SerializedFile>,
    second: Vec<SerializedFile>,
    both: Vec<SerializedFile>,
    first_size: u64,
    second_size: u64,
    size: u64,
)
    requires
        both@ == first@ + second@,
        call_ensures(clone_payload_size, (&FileApiClonePayload::FileList(first),), first_size),
        call_ensures(clone_payload_size, (&FileApiClonePayload::FileList(second),), second_size),
        call_ensures(clone_payload_size, (&FileApiClonePayload::FileList(both),), size),
    ensures
        size == if first_size + second_size > u64::MAX {
            u64::MAX as int
        } else {
            first_size + second_size
        },
        first@.len() == 1 ==> first_size == if first@[0].bytes@.len() > u64::MAX {
            u64::MAX as int
        } else {
            first@[0].bytes@.len() as int
        },
        first@.len() == 0 ==> first_size == 0,
{
    lemma_clones_len_concat(first@, second@);
    assert(first@.take(0) =~= Seq::<SerializedFile>::empty());
    assert(second@.take(0) =~= Seq::<SerializedFile>::empty());
    lemma_clones_len_grows(first@, 0);
    lemma_clones_len_grows(second@, 0);
    reveal_with_fuel(clones_len, 2);
}

proof fn lemma_clones_len_concat(first: Seq<SerializedFile>, second: Seq<SerializedFile>)
    ensures
        clones_len(first + second) == clones_len(first) + clones_len(second),
    decreases second.len(),
{
    if second.len() == 0 {
        assert(first + second =~= first);
    } else {
        assert((first + second).drop_last() =~= first + second.drop_last());
        lemma_clones_len_concat(first, second.drop_last());
    }
}


/// A bridge is asked only where there is one that speaks the version of this
/// library, and not after the shutdown; what it answers is then the answer.
pub proof fn lemma_bridges_are_asked_by_version<A: CloneAdapter>(
    adapter: A,
    shutdown: bool,
    payload: FileApiClonePayload,
    encoded: Result<Vec<u8>, CloneError>,
    bytes: &[u8],
    decoded: Result<FileApiClonePayload, CloneError>,
    absent: Result<Vec<u8>, CloneError>,
)
    requires
        call_ensures(
            clone_encode_via_bridge::<A>,
            (shutdown, Some(&adapter), &payload),
            encoded,
        ),
        call_ensures(clone_decode_via_bridge::<A>, (shutdown, Some(&adapter), bytes), decoded),
        call_ensures(clone_encode_via_bridge::<A>, (false, None, &payload), absent),
    ensures
        absent == Err::<Vec<u8>, CloneError>(CloneError::NoBridge),
        shutdown ==> encoded == Err::<Vec<u8>, CloneError>(CloneError::Shutdown) && decoded
            == Err::<FileApiClonePayload, CloneError>(CloneError::Shutdown),
        !shutdown && (forall|described: CloneBridgeDescriptor| #[trigger]
            call_ensures(A::descriptor, (&adapter,), described) ==> described.version
                == CLONE_ENCODING_VERSION) ==> call_ensures(
            A::encode,
            (&adapter, &payload),
            encoded,
        ) && call_ensures(A::decode, (&adapter, bytes), decoded),
        !shutdown && (forall|described: CloneBridgeDescriptor| #[trigger]
            call_ensures(A::descriptor, (&adapter,), described) ==> described.version
                != CLONE_ENCODING_VERSION) ==> encoded == Err::<Vec<u8>, CloneError>(
            CloneError::UnsupportedVersion,
        ) && decoded == Err::<FileApiClonePayload, CloneError>(CloneError::UnsupportedVersion),
{
}

} // verus!
