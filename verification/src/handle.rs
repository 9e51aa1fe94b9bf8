//! The handle of a registered context: its state and the host's entry points.

use vstd::prelude::*;

use crate::blob::{normalized_type, BlobData, BlobView};
use crate::blob_url::{
    lemma_insert_keeps_distinct, lemma_revoke, resolved, revoked, urls_distinct,
    BlobUrlError, BlobUrlStore, EntryView,
};
use crate::brand::{blob_of, require_blob, require_file_object, Branded};
use crate::bridge::{
    bridge_keeps, cap_for, due_completions, is_chunked, is_live, lemma_chunked_never_blocks, lemma_slot_of,
    limit_for, slot_ids, slot_of, IoBridge, Slot,
};
use crate::clock::Clock;
use crate::clone_bridge::{
    self, blob_cloned, blob_restored, decoded_via, encoded_via, file_cloned, file_restored,
    list_cloned, list_restored, CloneAdapter, CloneError, FileApiClonePayload, ListedFile,
};
use crate::environment::{is_origin, origin_valid};
use crate::error::{js_from_core, js_from_core_view, type_error, FileApiError, JsError, JsErrorKind};
use crate::extension::{ExtensionConfig, FileApiEnvironment, HostFileOptions};
use crate::file::{
    bytes_failure, data_from_bytes, file_name, holds, native_from_bytes, native_from_data,
    FileNative,
};
use crate::file_list::{FileListNative, MAX_FILES};
use crate::filereader::{consistent, FileReaderNative, FileReadingQueue, ReaderOp, ReaderTable};
use crate::ids::FileApiContextId;
use crate::lifecycle::{close_step, flag_wf, track_step, FlagView, ShutdownFlag};
use crate::promise_read::{self, reads_consistent, PendingReads};
use crate::resource::{check_import, file_over_resource, import_failure, SnapshotState};
use crate::streams::{
    stream_wf, streams_consistent, CleanupRecord, StreamOp, StreamShared, StreamTable,
};
use crate::url_shim::{
    all_drawn, attempt, create_refusal, create_url, host_url_error, host_url_error_text, map_url_error, outcome_of,
    search, some_search, url_error_text, UrlEntropySource,
};

verus! {

/// The state of a registered context.
///
/// Script objects name their reader or stream by its key; the state itself
/// stands here.
pub struct FileApiHandle {
    /// The settings.
    pub config: ExtensionConfig,
    /// The closed state.
    pub flag: ShutdownFlag,
    /// The blob URLs.
    pub urls: BlobUrlStore,
    /// The operations under way.
    pub bridge: IoBridge,
    /// The `FileReader`s.
    pub readers: Vec<FileReaderNative>,
    /// Their operations.
    pub reader_ops: ReaderTable,
    /// The streams.
    pub streams: Vec<StreamShared>,
    /// Their operations.
    pub stream_ops: StreamTable,
    /// The promise reads that wait.
    pub reads: PendingReads,
    /// How many reader chunks one poll settles; all of them where there is no
    /// budget.
    pub budget: Option<usize>,
    /// The notes of streams that lost their last script object.
    pub cleanups: Vec<CleanupRecord>,
}

/// No operation belongs to a reader and to a stream.
pub open spec fn readers_apart_from_streams(readers: Seq<ReaderOp>, streams: Seq<StreamOp>) -> bool {
    forall|i: int, j: int|
        0 <= i < readers.len() && 0 <= j < streams.len() ==> (#[trigger] readers[i]).operation != (
        #[trigger] streams[j]).operation
}

/// No operation belongs to a reader and to a promise.
pub open spec fn readers_apart_from_reads(
    readers: Seq<ReaderOp>,
    reads: Seq<promise_read::PendingRead>,
) -> bool {
    forall|i: int, j: int|
        0 <= i < readers.len() && 0 <= j < reads.len() ==> (#[trigger] readers[i]).operation != (
        #[trigger] reads[j]).operation
}

/// No operation belongs to a stream and to a promise.
pub open spec fn streams_apart_from_reads(
    streams: Seq<StreamOp>,
    reads: Seq<promise_read::PendingRead>,
) -> bool {
    forall|i: int, j: int|
        0 <= i < streams.len() && 0 <= j < reads.len() ==> (#[trigger] streams[i]).operation != (
        #[trigger] reads[j]).operation
}

/// Every stream is well-formed.
pub open spec fn all_streams_wf(streams: Seq<StreamShared>) -> bool {
    forall|i: int| 0 <= i < streams.len() ==> stream_wf((#[trigger] streams[i])@)
}

/// Whether this is the state of a context that was just registered: open, with
/// nothing under way and nothing kept, and without a budget.
pub open spec fn is_fresh(handle: FileApiHandle, context_id: FileApiContextId) -> bool {
    &&& handle.wf()
    &&& handle.flag@ == (FlagView { closed: false, closers: Seq::empty() })
    &&& handle.urls@ == Seq::<EntryView>::empty()
    &&& handle.bridge.wf()
    &&& handle.bridge.context() == context_id
    &&& handle.bridge.slots() == Seq::<Slot>::empty()
    &&& handle.bridge.limit() == limit_for(handle.config.limits.max_concurrent_reads_per_global)
    &&& handle.bridge.cap() == cap_for(handle.bridge.limit())
    &&& handle.bridge.next_id() == 1
    &&& !handle.bridge.out_of_ids()
    &&& handle.readers@ == Seq::<FileReaderNative>::empty()
    &&& handle.reader_ops.ops@ == Seq::<ReaderOp>::empty()
    &&& handle.reader_ops.queue == (FileReadingQueue { active: 0, next_generation: 1 })
    &&& handle.streams@ == Seq::<StreamShared>::empty()
    &&& handle.stream_ops.ops@ == Seq::<StreamOp>::empty()
    &&& handle.reads.reads@ == Seq::<promise_read::PendingRead>::empty()
    &&& handle.cleanups@ == Seq::<CleanupRecord>::empty()
    &&& handle.budget is None
}

impl FileApiHandle {
    /// Every table agrees with the bridge, no operation stands in two of them,
    /// and the bridge is closed with the runtime.
    pub open spec fn wf(self) -> bool {
        &&& flag_wf(self.flag@)
        &&& self.flag@.closed == self.bridge.is_closed()
        &&& urls_distinct(self.urls@)
        &&& consistent(self.reader_ops, self.bridge)
        &&& streams_consistent(self.stream_ops, self.bridge)
        &&& reads_consistent(self.reads, self.bridge)
        &&& all_streams_wf(self.streams@)
        &&& readers_apart_from_streams(self.reader_ops.ops@, self.stream_ops.ops@)
        &&& readers_apart_from_reads(self.reader_ops.ops@, self.reads.reads@)
        &&& streams_apart_from_reads(self.stream_ops.ops@, self.reads.reads@)
    }

    /// The key of the environment.
    pub open spec fn key(self) -> (Seq<char>, u64, u64) {
        (self.config.origin@, self.config.partition, self.config.nonce)
    }

    /// The state of a context that was just registered.
    pub fn new(config: ExtensionConfig, context_id: FileApiContextId) -> (handle: FileApiHandle)
        ensures
            handle.config == config,
            is_fresh(handle, context_id),
    {
        let limit: usize = config.limits.max_concurrent_reads_per_global;
        FileApiHandle {
            config,
            flag: ShutdownFlag::new(),
            urls: BlobUrlStore::new(),
            bridge: IoBridge::new(context_id, limit),
            readers: Vec::new(),
            reader_ops: ReaderTable::new(),
            streams: Vec::new(),
            stream_ops: StreamTable::new(),
            reads: PendingReads::new(),
            budget: None,
            cleanups: Vec::new(),
        }
    }

    /// Whether the runtime was shut down.
    pub fn is_shutdown(&self) -> (closed: bool)
        ensures
            closed == self.flag@.closed,
    {
        self.flag.is_shutdown()
    }

    /// Whether there is no blob URL.
    pub fn blob_urls_empty(&self) -> (empty: bool)
        ensures
            empty == (self.urls@.len() == 0),
    {
        self.urls.is_empty()
    }

    /// The number of blob URLs.
    pub fn blob_url_count(&self) -> (count: usize)
        ensures
            count == self.urls@.len(),
    {
        self.urls.len()
    }

    /// The kind of environment.
    pub fn environment(&self) -> (environment: FileApiEnvironment)
        ensures
            environment == self.config.environment,
    {
        self.config.environment
    }

    /// Sets how many reader chunks one poll settles.
    pub fn set_poll_io_budget(&mut self, budget: Option<usize>)
        ensures
            *final(self) == (FileApiHandle { budget, ..*old(self) }),
    {
        self.budget = budget;
    }

    /// Whether work is under way or completions wait.
    pub fn has_pending_io(&self) -> (pending: bool)
        requires
            self.wf(),
        ensures
            pending == (self.bridge.slots().len() > 0),
    {
        self.bridge.has_pending()
    }

    /// Refuses work once the runtime is shut down.
    fn reject_if_shutdown(&self) -> (result: Result<(), JsError>)
        ensures
            match result {
                Ok(_) => !self.flag@.closed,
                Err(error) => self.flag@.closed && error@ == shut_down(),
            },
    {
        if self.is_shutdown() {
            return Err(type_error("the File API runtime is shut down"));
        }
        Ok(())
    }
}

/// The script error of a runtime that is shut down.
pub open spec fn shut_down() -> (JsErrorKind, Seq<char>) {
    (JsErrorKind::Type, "the File API runtime is shut down"@)
}

/// What the host has to do when the runtime shuts down.
#[derive(Debug)]
pub struct ShutdownWork {
    /// The operations whose work is to be cancelled.
    pub cancelled: Vec<u64>,
    /// The closers to run, in order.
    pub closers: Vec<u64>,
}

impl FileApiHandle {
    /// Shuts the runtime down: the blob URLs are gone, every operation has lost
    /// its slot, and nothing is taken in any more. Another shutdown finds
    /// nothing left to do.
    pub fn shutdown(&mut self) -> (work: ShutdownWork)
        requires
            old(self).wf(),
        ensures
            final(self).wf(),
            close_step(old(self).flag@, work.closers@, final(self).flag@),
            work.cancelled@ == slot_ids(old(self).bridge.slots()),
            final(self).urls@ == Seq::<EntryView>::empty(),
            final(self).bridge.is_closed(),
            final(self).bridge.slots() == Seq::<Slot>::empty(),
            final(self).bridge.context() == old(self).bridge.context(),
            final(self).stream_ops.ops@ == Seq::<StreamOp>::empty(),
            final(self).config == old(self).config,
            final(self).readers == old(self).readers,
            final(self).reader_ops == old(self).reader_ops,
            final(self).streams == old(self).streams,
            final(self).reads == old(self).reads,
            final(self).budget == old(self).budget,
            final(self).cleanups == old(self).cleanups,
    {
        let closers = self.flag.close();
        self.urls.clear();
        let cancelled = self.bridge.shutdown();
        self.stream_ops.drop_all_stream_state_for_shutdown();
        ShutdownWork { cancelled, closers }
    }

    /// A blob over host bytes.
    pub fn blob_from_bytes(&self, bytes: Vec<u8>, media_type: &str) -> (result: Result<
        BlobData,
        JsError,
    >)
        ensures
            match result {
                Ok(data) => {
                    &&& !self.flag@.closed
                    &&& bytes_failure(bytes@.len() as int, self.config.limits) is None
                    &&& holds(data, bytes@, media_type@)
                },
                Err(error) => if self.flag@.closed {
                    error@ == shut_down()
                } else {
                    let failure = bytes_failure(bytes@.len() as int, self.config.limits);
                    failure is Some && error@ == js_from_core_view(failure->0)
                },
            },
    {
        match self.reject_if_shutdown() {
            Ok(_) => {},
            Err(error) => {
                return Err(error);
            },
        }
        match data_from_bytes(bytes, media_type, &self.config.limits) {
            Ok(data) => Ok(data),
            Err(error) => Err(js_from_core(error)),
        }
    }

    /// A file over host bytes.
    pub fn file_from_bytes<C: Clock>(
        &self,
        bytes: Vec<u8>,
        name: &str,
        options: &HostFileOptions,
        clock: &C,
    ) -> (result: Result<FileNative, JsError>)
        ensures
            match result {
                Ok(file) => {
                    &&& !self.flag@.closed
                    &&& bytes_failure(bytes@.len() as int, self.config.limits) is None
                    &&& holds(file.data, bytes@, options.media_type@)
                    &&& file.name@ == file_name(name@)
                    &&& file.wf()
                    &&& match options.last_modified {
                        Some(given) => file.last_modified == given,
                        None => call_ensures(C::now_unix_millis, (clock,), file.last_modified),
                    }
                },
                Err(error) => if self.flag@.closed {
                    error@ == shut_down()
                } else {
                    let failure = bytes_failure(bytes@.len() as int, self.config.limits);
                    failure is Some && error@ == js_from_core_view(failure->0)
                },
            },
    {
        match self.reject_if_shutdown() {
            Ok(_) => {},
            Err(error) => {
                return Err(error);
            },
        }
        match native_from_bytes(
            bytes,
            name,
            options.media_type.as_str(),
            options.last_modified,
            clock,
            &self.config.limits,
        ) {
            Ok(file) => Ok(file),
            Err(error) => Err(js_from_core(error)),
        }
    }

    /// What a `Blob` object over a payload of the host carries.
    pub fn blob_from_data(&self, data: BlobData) -> (value: Branded)
        ensures
            value == Branded::Blob(data),
    {
        Branded::Blob(data)
    }

    /// A file over an existing payload.
    pub fn file_from_data<C: Clock>(
        &self,
        data: BlobData,
        name: &str,
        last_modified: Option<i64>,
        clock: &C,
    ) -> (file: FileNative)
        ensures
            file.data == data,
            file.name@ == file_name(name@),
            data.wf() ==> file.wf(),
            match last_modified {
                Some(given) => file.last_modified == given,
                None => call_ensures(C::now_unix_millis, (clock,), file.last_modified),
            },
    {
        native_from_data(data, name, last_modified, clock)
    }

    /// A file over a resource of the host, which the host reads by `handle`.
    ///
    /// The live state is compared with the imported one before any object
    /// exists. The closer of the resource is kept for the shutdown.
    pub fn file_from_resource<C: Clock>(
        &mut self,
        handle: u64,
        closer: u64,
        live: Result<SnapshotState, FileApiError>,
        import: SnapshotState,
        strong_identity: bool,
        display_name: &str,
        options: &HostFileOptions,
        clock: &C,
    ) -> (result: Result<FileNative, JsError>)
        requires
            old(self).wf(),
        ensures
            final(self).wf(),
            *final(self) == (FileApiHandle { flag: final(self).flag, ..*old(self) }),
            if old(self).flag@.closed {
                &&& result matches Err(error)
                &&& error@ == shut_down()
                &&& final(self).flag == old(self).flag
            } else if import_failure(live, import, strong_identity) is Some {
                &&& result matches Err(error)
                &&& error@ == js_from_core_view(import_failure(live, import, strong_identity)->0)
                &&& final(self).flag == old(self).flag
            } else {
                let failure = bytes_failure(import.spec_len() as int, old(self).config.limits);
                &&& track_step(old(self).flag@, closer, None, final(self).flag@)
                &&& match result {
                    Ok(file) => {
                        &&& failure is None
                        &&& file.data.wf()
                        &&& file.data.spec_size() == import.spec_len()
                        &&& file.data.spec_media_type() == normalized_type(options.media_type@)
                        &&& forall|host: Map<u64, Seq<u8>>|
                            host.contains_key(handle) && host[handle].len() == import.spec_len()
                                ==> #[trigger] file.data.content(host) == host[handle] && file.data.held_by(host)
                        &&& file.name@ == file_name(display_name@)
                        &&& file.wf()
                        &&& match options.last_modified {
                            Some(given) => file.last_modified == given,
                            None => call_ensures(C::now_unix_millis, (clock,), file.last_modified),
                        }
                    },
                    Err(error) => failure is Some && error@ == js_from_core_view(failure->0),
                }
            },
    {
        match self.reject_if_shutdown() {
            Ok(_) => {},
            Err(error) => {
                return Err(error);
            },
        }
        match check_import(live, import, strong_identity) {
            Ok(_) => {},
            Err(error) => {
                return Err(js_from_core(error));
            },
        }
        let _ = self.flag.track(closer);
        match file_over_resource(
            handle,
            import,
            display_name,
            options.media_type.as_str(),
            options.last_modified,
            clock,
            &self.config.limits,
        ) {
            Ok(file) => Ok(file),
            Err(error) => Err(js_from_core(error)),
        }
    }

    /// A list of files; anything but a file among the values fails the whole.
    pub fn file_list(&self, values: &Vec<Branded>) -> (result: Result<FileListNative, JsError>)
        ensures
            match result {
                Ok(list) => {
                    &&& !self.flag@.closed
                    &&& all_files(values@)
                    &&& list.wf()
                    &&& list.spec_len() == values@.len()
                },
                Err(error) => if self.flag@.closed {
                    error@ == shut_down()
                } else if !all_files(values@) {
                    error@ == (JsErrorKind::Type, "expected a File object"@)
                } else {
                    values@.len() > MAX_FILES && error@ == (
                        JsErrorKind::Range,
                        "too many files in the FileList"@,
                    )
                },
            },
    {
        match self.reject_if_shutdown() {
            Ok(_) => {},
            Err(error) => {
                return Err(error);
            },
        }
        let mut i: usize = 0;
        while i < values.len()
            invariant
                i <= values@.len(),
                !self.flag@.closed,
                forall|k: int| 0 <= k < i ==> (#[trigger] values@[k]) is File,
            decreases values@.len() - i,
        {
            match require_file_object(&values[i]) {
                Ok(_) => {},
                Err(error) => {
                    assert(!(values@[i as int] is File));
                    return Err(error);
                },
            }
            i = i + 1;
        }
        FileListNative::create(values.len())
    }
}

/// Every value is a file.
pub open spec fn all_files(values: Seq<Branded>) -> bool {
    forall|i: int| 0 <= i < values.len() ==> (#[trigger] values[i]) is File
}

/// The script error of an object that is no blob.
pub open spec fn not_a_blob() -> (JsErrorKind, Seq<char>) {
    (JsErrorKind::Type, "URL.createObjectURL requires a Blob"@)
}

/// What an attempt to make a blob URL for `data` gives in the context of
/// `before`: the store has the entry where it succeeds, and nothing else
/// changes.
pub open spec fn url_made<E: UrlEntropySource>(
    before: FileApiHandle,
    data: BlobView,
    entropy: E,
    after: FileApiHandle,
    result: Result<String, BlobUrlError>,
) -> bool {
    let cap = before.config.limits.max_blob_urls_per_global;
    &&& after == (FileApiHandle { urls: after.urls, ..before })
    &&& match create_refusal(
        before.flag@.closed,
        before.config.environment,
        before.config.origin@,
        cap,
    ) {
        Some(error) => result == Err::<String, BlobUrlError>(error),
        None => some_search(
            entropy,
            before.urls@,
            before.config.origin@,
            cap,
            outcome_of(result),
        ),
    }
    &&& match result {
        Ok(url) => after.urls@ == before.urls@.push(
            EntryView { url: url@, owner: before.key(), data },
        ),
        Err(_) => after.urls@ == before.urls@,
    }
}

/// What the host gets of an attempt.
pub open spec fn host_answer(
    made: Result<String, BlobUrlError>,
    result: Result<String, JsError>,
) -> bool {
    match made {
        Ok(url) => result matches Ok(given) && given@ == url@,
        Err(failure) => result matches Err(error) && error@ == (
            JsErrorKind::Type,
            host_url_error_text(failure),
        ),
    }
}

/// What script gets of an attempt.
pub open spec fn script_answer(
    made: Result<String, BlobUrlError>,
    result: Result<String, JsError>,
) -> bool {
    match made {
        Ok(url) => result matches Ok(given) && given@ == url@,
        Err(failure) => result matches Err(error) && error@ == (
            JsErrorKind::Type,
            url_error_text(failure),
        ),
    }
}

/// Whether an attempt that may have been made gives the host `result`.
pub open spec fn host_url_given<E: UrlEntropySource>(
    before: FileApiHandle,
    data: BlobView,
    entropy: E,
    after: FileApiHandle,
    result: Result<String, JsError>,
) -> bool {
    exists|made: Result<String, BlobUrlError>| #[trigger]
        url_made(before, data, entropy, after, made) && host_answer(made, result)
}

/// Whether an attempt that may have been made gives script `result`.
pub open spec fn script_url_given<E: UrlEntropySource>(
    before: FileApiHandle,
    data: BlobView,
    entropy: E,
    after: FileApiHandle,
    result: Result<String, JsError>,
) -> bool {
    exists|made: Result<String, BlobUrlError>| #[trigger]
        url_made(before, data, entropy, after, made) && script_answer(made, result)
}

impl FileApiHandle {
    /// Makes a blob URL for a payload; script and host share this.
    fn create_url_for<E: UrlEntropySource>(&mut self, data: &BlobData, entropy: &E) -> (result:
        Result<String, BlobUrlError>)
        requires
            old(self).wf(),
        ensures
            final(self).wf(),
            url_made(*old(self), data@, *entropy, *final(self), result),
    {
        let key = self.config.environment_key();
        let cap: usize = self.config.limits.max_blob_urls_per_global;
        let environment = self.config.environment;
        let closed = self.flag.is_shutdown();
        let ghost before = *self;
        let result = create_url(&mut self.urls, closed, environment, &key, data, entropy, cap);
        proof {
            if result is Ok {
                let added = EntryView { url: result->Ok_0@, owner: before.key(), data: data@ };
                lemma_created_urls_distinct(
                    before.urls@,
                    before.config.origin@,
                    cap,
                    *entropy,
                    added,
                );
            }
        }
        result
    }

    /// Makes a blob URL for a blob or a file, for the host.
    pub fn create_blob_url<E: UrlEntropySource>(&mut self, value: &Branded, entropy: &E) -> (result:
        Result<String, JsError>)
        requires
            old(self).wf(),
        ensures
            final(self).wf(),
            if old(self).flag@.closed {
                &&& result matches Err(error)
                &&& error@ == shut_down()
                &&& *final(self) == *old(self)
            } else {
                match blob_of(*value) {
                    None => {
                        &&& result matches Err(error)
                        &&& error@ == not_a_blob()
                        &&& *final(self) == *old(self)
                    },
                    Some(data) => host_url_given(
                        *old(self),
                        data@,
                        *entropy,
                        *final(self),
                        result,
                    ),
                }
            },
    {
        match self.reject_if_shutdown() {
            Ok(_) => {},
            Err(error) => {
                return Err(error);
            },
        }
        let data = match require_blob(value) {
            Ok(data) => data,
            Err(_) => {
                return Err(type_error("URL.createObjectURL requires a Blob"));
            },
        };
        let ghost before = *self;
        let made = self.create_url_for(data, entropy);
        assert(url_made(before, data@, *entropy, *self, made));
        let result = match made {
            Ok(url) => Ok(url),
            Err(error) => Err(host_url_error(error)),
        };
        assert(host_url_given(before, data@, *entropy, *self, result));
        result
    }

    /// Makes a blob URL for a blob or a file, for script. Without an argument or
    /// with anything else nothing is made.
    pub fn create_object_url<E: UrlEntropySource>(
        &mut self,
        argument: Option<&Branded>,
        entropy: &E,
    ) -> (result: Result<String, JsError>)
        requires
            old(self).wf(),
        ensures
            final(self).wf(),
            match argument {
                None => {
                    &&& result matches Err(error)
                    &&& error@ == (
                        JsErrorKind::Type,
                        "URL.createObjectURL requires a Blob argument"@,
                    )
                    &&& *final(self) == *old(self)
                },
                Some(value) => match blob_of(*value) {
                    None => {
                        &&& result matches Err(error)
                        &&& error@ == not_a_blob()
                        &&& *final(self) == *old(self)
                    },
                    Some(data) => script_url_given(
                        *old(self),
                        data@,
                        *entropy,
                        *final(self),
                        result,
                    ),
                },
            },
    {
        let value = match argument {
            Some(value) => value,
            None => {
                return Err(type_error("URL.createObjectURL requires a Blob argument"));
            },
        };
        let data = match require_blob(value) {
            Ok(data) => data,
            Err(_) => {
                return Err(type_error("URL.createObjectURL requires a Blob"));
            },
        };
        let ghost before = *self;
        let made = self.create_url_for(data, entropy);
        assert(url_made(before, data@, *entropy, *self, made));
        let result = match made {
            Ok(url) => Ok(url),
            Err(error) => Err(map_url_error(error)),
        };
        assert(script_url_given(before, data@, *entropy, *self, result));
        result
    }

    /// The payload under a blob URL, for the environment of this context.
    pub fn resolve_blob_url(&self, url: &str) -> (result: Result<BlobData, BlobUrlError>)
        ensures
            if !is_origin(self.config.origin@) {
                result == Err::<BlobData, BlobUrlError>(BlobUrlError::Malformed)
            } else {
                match result {
                    Ok(data) => resolved(self.urls@, url@, self.key()) == Ok::<
                        BlobView,
                        BlobUrlError,
                    >(data@),
                    Err(error) => resolved(self.urls@, url@, self.key()) == Err::<
                        BlobView,
                        BlobUrlError,
                    >(error),
                }
            },
    {
        if !origin_valid(self.config.origin.as_str()) {
            return Err(BlobUrlError::Malformed);
        }
        let key = self.config.environment_key();
        self.urls.resolve(url, &key)
    }

    /// Revokes a blob URL, whoever made it; nothing is reported.
    pub fn revoke_blob_url(&mut self, url: &str)
        requires
            old(self).wf(),
        ensures
            final(self).wf(),
            *final(self) == (FileApiHandle { urls: final(self).urls, ..*old(self) }),
            final(self).urls@ == revoked(old(self).urls@, url@),
    {
        proof {
            lemma_revoke(self.urls@, url@, url@, self.key());
        }
        self.urls.revoke(url);
    }
}

proof fn lemma_created_urls_distinct<E: UrlEntropySource>(
    entries: Seq<EntryView>,
    origin: Seq<char>,
    cap: usize,
    entropy: E,
    added: EntryView,
)
    requires
        urls_distinct(entries),
        some_search(entropy, entries, origin, cap, Ok(added.url)),
    ensures
        urls_distinct(entries.push(added)),
{
    let draws = choose|draws: Seq<[u8; 16]>|
        all_drawn(entropy, draws) && #[trigger] search(entries, origin, draws, cap, Ok(added.url));
    assert(attempt(entries, origin, draws.last()@, cap) == Ok::<Seq<char>, BlobUrlError>(added.url));
    lemma_insert_keeps_distinct(entries, added);
}

impl FileApiHandle {
    /// Clones a blob; `read` is what reading all of its bytes gave.
    pub fn clone_blob(&self, value: &Branded, read: Result<Vec<u8>, FileApiError>) -> (result: Result<
        FileApiClonePayload,
        CloneError,
    >)
        ensures
            blob_cloned(self.flag@.closed, *value, read, self.config.limits, result),
    {
        clone_bridge::clone_blob(self.is_shutdown(), value, read, &self.config.limits)
    }

    /// Clones a file; `read` is what reading all of its bytes gave.
    pub fn clone_file(&self, value: &Branded, read: Result<Vec<u8>, FileApiError>) -> (result: Result<
        FileApiClonePayload,
        CloneError,
    >)
        ensures
            file_cloned(self.flag@.closed, *value, read, self.config.limits, result),
    {
        clone_bridge::clone_file(self.is_shutdown(), value, read, &self.config.limits)
    }

    /// Clones a list of files, entry by entry.
    pub fn clone_file_list(&self, value: &Branded, entries: Vec<ListedFile>) -> (result: Result<
        FileApiClonePayload,
        CloneError,
    >)
        ensures
            list_cloned(self.flag@.closed, *value, entries@, self.config.limits, result),
    {
        clone_bridge::clone_file_list(self.is_shutdown(), value, entries, &self.config.limits)
    }

    /// Makes a blob of a clone.
    pub fn blob_from_clone(&self, payload: FileApiClonePayload) -> (result: Result<
        BlobData,
        CloneError,
    >)
        ensures
            blob_restored(self.flag@.closed, payload, self.config.limits, result),
    {
        clone_bridge::blob_from_clone(self.is_shutdown(), payload, &self.config.limits)
    }

    /// Makes a file of a clone.
    pub fn file_from_clone(&self, payload: FileApiClonePayload) -> (result: Result<
        FileNative,
        CloneError,
    >)
        ensures
            file_restored(self.flag@.closed, payload, self.config.limits, result),
    {
        clone_bridge::file_from_clone(self.is_shutdown(), payload, &self.config.limits)
    }

    /// Makes the files of a cloned list.
    pub fn file_list_from_clone(&self, payload: FileApiClonePayload) -> (result: Result<
        Vec<FileNative>,
        CloneError,
    >)
        ensures
            list_restored(self.flag@.closed, payload, self.config.limits, result),
    {
        clone_bridge::file_list_from_clone(self.is_shutdown(), payload, &self.config.limits)
    }

    /// Encodes a clone through the registered bridge.
    pub fn clone_encode_via_bridge<A: CloneAdapter>(
        &self,
        adapter: Option<&A>,
        payload: &FileApiClonePayload,
    ) -> (result: Result<Vec<u8>, CloneError>)
        ensures
            encoded_via(self.flag@.closed, adapter, payload, result),
    {
        clone_bridge::clone_encode_via_bridge(self.is_shutdown(), adapter, payload)
    }

    /// Decodes bytes through the registered bridge.
    pub fn clone_decode_via_bridge<A: CloneAdapter>(&self, adapter: Option<&A>, bytes: &[u8]) -> (
        result: Result<FileApiClonePayload, CloneError>)
        ensures
            decoded_via(self.flag@.closed, adapter, bytes, result),
    {
        clone_bridge::clone_decode_via_bridge(self.is_shutdown(), adapter, bytes)
    }
}

/// Whether no reader operation is `id`.
pub open spec fn not_a_reader(handle: FileApiHandle, id: u64) -> bool {
    forall|i: int|
        0 <= i < handle.reader_ops.ops@.len() ==> (#[trigger] handle.reader_ops.ops@[i]).operation
            != id
}

/// Whether no stream operation is `id`.
pub open spec fn not_a_stream(handle: FileApiHandle, id: u64) -> bool {
    forall|i: int|
        0 <= i < handle.stream_ops.ops@.len() ==> (#[trigger] handle.stream_ops.ops@[i]).operation
            != id
}

/// Whether no promise read is `id`.
pub open spec fn not_a_read(handle: FileApiHandle, id: u64) -> bool {
    forall|i: int|
        0 <= i < handle.reads.reads@.len() ==> (#[trigger] handle.reads.reads@[i]).operation != id
}

proof fn lemma_readers_keep_slots(before: FileApiHandle, after: FileApiHandle, lost: Option<u64>)
    requires
        before.wf(),
        after.reader_ops == before.reader_ops,
        bridge_keeps(before.bridge, after.bridge, lost),
        lost matches Some(id) ==> not_a_reader(before, id),
    ensures
        consistent(after.reader_ops, after.bridge),
{
    if !after.bridge.is_closed() {
        assert forall|i: int| 0 <= i < after.reader_ops.ops@.len() implies is_chunked(
            after.bridge.slots(),
            (#[trigger] after.reader_ops.ops@[i]).operation,
        ) by {
            assert(is_chunked(before.bridge.slots(), before.reader_ops.ops@[i].operation));
        }
    }
}

proof fn lemma_streams_keep_slots(before: FileApiHandle, after: FileApiHandle, lost: Option<u64>)
    requires
        before.wf(),
        after.stream_ops == before.stream_ops,
        bridge_keeps(before.bridge, after.bridge, lost),
        lost matches Some(id) ==> not_a_stream(before, id),
    ensures
        streams_consistent(after.stream_ops, after.bridge),
{
    if !after.bridge.is_closed() {
        assert forall|i: int| 0 <= i < after.stream_ops.ops@.len() implies is_chunked(
            after.bridge.slots(),
            (#[trigger] after.stream_ops.ops@[i]).operation,
        ) by {
            assert(is_chunked(before.bridge.slots(), before.stream_ops.ops@[i].operation));
        }
    }
}

proof fn lemma_reads_keep_slots(before: FileApiHandle, after: FileApiHandle, lost: Option<u64>)
    requires
        before.wf(),
        after.reads == before.reads,
        bridge_keeps(before.bridge, after.bridge, lost),
        lost matches Some(id) ==> not_a_read(before, id),
    ensures
        reads_consistent(after.reads, after.bridge),
{
    if !after.bridge.is_closed() {
        assert forall|i: int| 0 <= i < after.reads.reads@.len() implies is_live(
            after.bridge.slots(),
            (#[trigger] after.reads.reads@[i]).operation,
        ) by {
            assert(is_live(before.bridge.slots(), before.reads.reads@[i].operation));
        }
    }
}

/// A bridge that keeps everyone's slot keeps the state sound.
pub proof fn lemma_bridge_keeps_state(before: FileApiHandle, after: FileApiHandle)
    requires
        before.wf(),
        after == (FileApiHandle { bridge: after.bridge, ..before }),
        bridge_keeps(before.bridge, after.bridge, None),
    ensures
        after.wf(),
{
    lemma_readers_keep_slots(before, after, None);
    lemma_streams_keep_slots(before, after, None);
    lemma_reads_keep_slots(before, after, None);
}

/// Readers never disturb streams or promises: whatever they do with their own
/// operations, the state stays sound.
pub proof fn lemma_readers_disturb_nobody(
    before: FileApiHandle,
    after: FileApiHandle,
    lost: Option<u64>,
)
    requires
        before.wf(),
        after == (FileApiHandle {
            readers: after.readers,
            reader_ops: after.reader_ops,
            bridge: after.bridge,
            ..before
        }),
        consistent(after.reader_ops, after.bridge),
        bridge_keeps(before.bridge, after.bridge, lost),
        lost matches Some(id) ==> not_a_stream(before, id) && not_a_read(before, id),
        forall|i: int|
            0 <= i < after.reader_ops.ops@.len() ==> not_a_stream(
                before,
                (#[trigger] after.reader_ops.ops@[i]).operation,
            ) && not_a_read(before, after.reader_ops.ops@[i].operation),
    ensures
        after.wf(),
{
    lemma_streams_keep_slots(before, after, lost);
    lemma_reads_keep_slots(before, after, lost);
    assert forall|i: int, j: int|
        0 <= i < after.reader_ops.ops@.len() && 0 <= j < after.stream_ops.ops@.len() implies (
    #[trigger] after.reader_ops.ops@[i]).operation != (
    #[trigger] after.stream_ops.ops@[j]).operation by {
        assert(not_a_stream(before, after.reader_ops.ops@[i].operation));
        assert(before.stream_ops.ops@[j].operation != after.reader_ops.ops@[i].operation);
    }
    assert forall|i: int, j: int|
        0 <= i < after.reader_ops.ops@.len() && 0 <= j < after.reads.reads@.len() implies (
    #[trigger] after.reader_ops.ops@[i]).operation != (
    #[trigger] after.reads.reads@[j]).operation by {
        assert(not_a_read(before, after.reader_ops.ops@[i].operation));
        assert(before.reads.reads@[j].operation != after.reader_ops.ops@[i].operation);
    }
}

/// Streams never disturb readers or promises.
pub proof fn lemma_streams_disturb_nobody(
    before: FileApiHandle,
    after: FileApiHandle,
    lost: Option<u64>,
)
    requires
        before.wf(),
        after == (FileApiHandle {
            streams: after.streams,
            stream_ops: after.stream_ops,
            bridge: after.bridge,
            ..before
        }),
        all_streams_wf(after.streams@),
        streams_consistent(after.stream_ops, after.bridge),
        bridge_keeps(before.bridge, after.bridge, lost),
        lost matches Some(id) ==> not_a_reader(before, id) && not_a_read(before, id),
        forall|i: int|
            0 <= i < after.stream_ops.ops@.len() ==> not_a_reader(
                before,
                (#[trigger] after.stream_ops.ops@[i]).operation,
            ) && not_a_read(before, after.stream_ops.ops@[i].operation),
    ensures
        after.wf(),
{
    lemma_readers_keep_slots(before, after, lost);
    lemma_reads_keep_slots(before, after, lost);
    assert forall|i: int, j: int|
        0 <= i < after.reader_ops.ops@.len() && 0 <= j < after.stream_ops.ops@.len() implies (
    #[trigger] after.reader_ops.ops@[i]).operation != (
    #[trigger] after.stream_ops.ops@[j]).operation by {
        assert(not_a_reader(before, after.stream_ops.ops@[j].operation));
        assert(before.reader_ops.ops@[i].operation != after.stream_ops.ops@[j].operation);
    }
    assert forall|i: int, j: int|
        0 <= i < after.stream_ops.ops@.len() && 0 <= j < after.reads.reads@.len() implies (
    #[trigger] after.stream_ops.ops@[i]).operation != (
    #[trigger] after.reads.reads@[j]).operation by {
        assert(not_a_read(before, after.stream_ops.ops@[i].operation));
        assert(before.reads.reads@[j].operation != after.stream_ops.ops@[i].operation);
    }
}

/// Promise reads never disturb readers or streams.
pub proof fn lemma_reads_disturb_nobody(
    before: FileApiHandle,
    after: FileApiHandle,
    lost: Option<u64>,
)
    requires
        before.wf(),
        after == (FileApiHandle { reads: after.reads, bridge: after.bridge, ..before }),
        reads_consistent(after.reads, after.bridge),
        bridge_keeps(before.bridge, after.bridge, lost),
        lost matches Some(id) ==> not_a_reader(before, id) && not_a_stream(before, id),
        forall|i: int|
            0 <= i < after.reads.reads@.len() ==> not_a_reader(
                before,
                (#[trigger] after.reads.reads@[i]).operation,
            ) && not_a_stream(before, after.reads.reads@[i].operation),
    ensures
        after.wf(),
{
    lemma_readers_keep_slots(before, after, lost);
    lemma_streams_keep_slots(before, after, lost);
    assert forall|i: int, j: int|
        0 <= i < after.reader_ops.ops@.len() && 0 <= j < after.reads.reads@.len() implies (
    #[trigger] after.reader_ops.ops@[i]).operation != (
    #[trigger] after.reads.reads@[j]).operation by {
        assert(not_a_reader(before, after.reads.reads@[j].operation));
        assert(before.reader_ops.ops@[i].operation != after.reads.reads@[j].operation);
    }
    assert forall|i: int, j: int|
        0 <= i < after.stream_ops.ops@.len() && 0 <= j < after.reads.reads@.len() implies (
    #[trigger] after.stream_ops.ops@[i]).operation != (
    #[trigger] after.reads.reads@[j]).operation by {
        assert(not_a_stream(before, after.reads.reads@[j].operation));
        assert(before.stream_ops.ops@[i].operation != after.reads.reads@[j].operation);
    }
}

/// A fresh operation belongs to nobody yet.
pub proof fn lemma_fresh_operation_is_nobodys(handle: FileApiHandle)
    requires
        handle.wf(),
        !handle.bridge.is_closed(),
    ensures
        not_a_reader(handle, handle.bridge.next_id()),
        not_a_stream(handle, handle.bridge.next_id()),
        not_a_read(handle, handle.bridge.next_id()),
{
    let fresh = handle.bridge.next_id();
    assert(!is_live(handle.bridge.slots(), fresh)) by {
        lemma_slot_of(handle.bridge.slots(), fresh);
        if slot_of(handle.bridge.slots(), fresh) is Some {
            let at = slot_of(handle.bridge.slots(), fresh)->0;
            assert(handle.bridge.slots()[at].id < handle.bridge.next_id());
        }
    }
    assert forall|i: int| 0 <= i < handle.reader_ops.ops@.len() implies (
    #[trigger] handle.reader_ops.ops@[i]).operation != fresh by {
        assert(is_chunked(handle.bridge.slots(), handle.reader_ops.ops@[i].operation));
    }
    assert forall|i: int| 0 <= i < handle.stream_ops.ops@.len() implies (
    #[trigger] handle.stream_ops.ops@[i]).operation != fresh by {
        assert(is_chunked(handle.bridge.slots(), handle.stream_ops.ops@[i].operation));
    }
    assert forall|i: int| 0 <= i < handle.reads.reads@.len() implies (
    #[trigger] handle.reads.reads@[i]).operation != fresh by {
        assert(is_live(handle.bridge.slots(), handle.reads.reads@[i].operation));
    }
}

/// A stream or a reader never holds a promise up, not even before its first
/// chunk: the whole reads that are due are those that would be due without its
/// operation.
pub proof fn lemma_chunk_operations_hold_nothing_up(handle: FileApiHandle, operation: u64)
    requires
        handle.wf(),
        is_live(handle.bridge.slots(), operation),
        !not_a_reader(handle, operation) || !not_a_stream(handle, operation),
    ensures
        ({
            let slots = handle.bridge.slots();
            due_completions(slots) == due_completions(
                slots.remove(slot_of(slots, operation)->0),
            )
        }),
{
    let slots = handle.bridge.slots();
    lemma_slot_of(slots, operation);
    assert(!handle.bridge.is_closed());
    assert(is_chunked(slots, operation));
    lemma_chunked_never_blocks(slots, slot_of(slots, operation)->0);
}


/// Whether two lookups of a URL answer the same.
pub open spec fn same_lookup(
    one: Result<BlobData, BlobUrlError>,
    other: Result<BlobData, BlobUrlError>,
) -> bool {
    match (one, other) {
        (Ok(a), Ok(b)) => a@ == b@,
        (Err(a), Err(b)) => a == b,
        _ => false,
    }
}

/// A URL that a script makes for a blob or a file leads back to its bytes, and to
/// them alone; every other URL leads where it did. What is no blob gets none, and
/// a refused request changes nothing.
pub proof fn lemma_object_urls_lead_back<E: UrlEntropySource>(
    handle: &mut FileApiHandle,
    value: Branded,
    entropy: E,
    given: Result<String, JsError>,
    url: &str,
    found: Result<BlobData, BlobUrlError>,
    other: &str,
    earlier: Result<BlobData, BlobUrlError>,
    later: Result<BlobData, BlobUrlError>,
)
    requires
        handle.wf(),
        call_ensures(
            FileApiHandle::create_object_url::<E>,
            (handle, Some(&value), &entropy),
            given,
        ),
        given matches Ok(made) ==> url@ == made@,
        call_ensures(FileApiHandle::resolve_blob_url, (final(handle), url), found),
        call_ensures(FileApiHandle::resolve_blob_url, (&*handle, other), earlier),
        call_ensures(FileApiHandle::resolve_blob_url, (final(handle), other), later),
    ensures
        given is Ok ==> match value {
            Branded::Blob(blob) => found matches Ok(data) && data@ == blob@,
            Branded::File(file) => found matches Ok(data) && data@ == file.data@,
            _ => false,
        },
        given is Ok ==> (other@ != url@ ==> same_lookup(earlier, later)),
        given is Ok ==> final(handle).urls@.len() == old(handle).urls@.len() + 1,
        given is Err ==> final(handle).urls@ == old(handle).urls@,
        old(handle).flag@.closed || old(handle).urls@.len()
            >= old(handle).config.limits.max_blob_urls_per_global ==> given is Err,
{
    if let Ok(made) = given {
        let data = match value {
            Branded::Blob(blob) => blob@,
            Branded::File(file) => file.data@,
            _ => arbitrary(),
        };
        let stored = choose|stored: Result<String, BlobUrlError>| #[trigger]
            url_made(*old(handle), data, entropy, *final(handle), stored) && script_answer(
                stored,
                given,
            );
        lemma_made_url(*old(handle), data, entropy, *final(handle), stored, other@);
    }
}

/// A URL that the host makes for a blob or a file leads back to its bytes; what is
/// no blob gets none, and neither does anything after the shutdown.
pub proof fn lemma_host_urls_lead_back<E: UrlEntropySource>(
    handle: &mut FileApiHandle,
    value: Branded,
    entropy: E,
    given: Result<String, JsError>,
    url: &str,
    found: Result<BlobData, BlobUrlError>,
)
    requires
        handle.wf(),
        call_ensures(FileApiHandle::create_blob_url::<E>, (handle, &value, &entropy), given),
        given matches Ok(made) ==> url@ == made@,
        call_ensures(FileApiHandle::resolve_blob_url, (final(handle), url), found),
    ensures
        given is Ok ==> match value {
            Branded::Blob(blob) => found matches Ok(data) && data@ == blob@,
            Branded::File(file) => found matches Ok(data) && data@ == file.data@,
            _ => false,
        },
        given is Ok ==> final(handle).urls@.len() == old(handle).urls@.len() + 1,
        given is Err ==> final(handle).urls@ == old(handle).urls@,
        old(handle).flag@.closed ==> given is Err,
{
    if let Ok(made) = given {
        let data = match value {
            Branded::Blob(blob) => blob@,
            Branded::File(file) => file.data@,
            _ => arbitrary(),
        };
        let stored = choose|stored: Result<String, BlobUrlError>| #[trigger]
            url_made(*old(handle), data, entropy, *final(handle), stored) && host_answer(
                stored,
                given,
            );
        lemma_made_url(*old(handle), data, entropy, *final(handle), stored, url@);
    }
}

proof fn lemma_made_url<E: UrlEntropySource>(
    before: FileApiHandle,
    data: BlobView,
    entropy: E,
    after: FileApiHandle,
    made: Result<String, BlobUrlError>,
    other: Seq<char>,
)
    requires
        url_made(before, data, entropy, after, made),
    ensures
        made matches Ok(url) ==> {
            &&& is_origin(before.config.origin@)
            &&& resolved(after.urls@, url@, after.key()) == Ok::<BlobView, BlobUrlError>(data)
            &&& other != url@ ==> resolved(after.urls@, other, after.key()) == resolved(
                before.urls@,
                other,
                before.key(),
            )
            &&& before.urls@.len() < before.config.limits.max_blob_urls_per_global
            &&& !before.flag@.closed
        },
{
    if let Ok(url) = made {
        let entries = before.urls@;
        let origin = before.config.origin@;
        let cap = before.config.limits.max_blob_urls_per_global;
        let draws = choose|draws: Seq<[u8; 16]>|
            all_drawn(entropy, draws) && #[trigger] search(
                entries,
                origin,
                draws,
                cap,
                outcome_of(made),
            );
        let raw = draws.last();
        assert(attempt(entries, origin, raw@, cap) == Ok::<Seq<char>, BlobUrlError>(url@));
        crate::blob_url::lemma_url_shape(origin, raw@);
        let added = EntryView { url: url@, owner: before.key(), data };
        assert(after.urls@.last() == added);
        assert(after.urls@.drop_last() =~= entries);
        crate::blob_url::lemma_entry_of(entries, other);
    }
}

/// A URL that is revoked leads nowhere, and every other one leads where it did.
pub proof fn lemma_revoked_object_urls_lead_nowhere(
    handle: &mut FileApiHandle,
    url: &str,
    found: Result<BlobData, BlobUrlError>,
    other: &str,
    earlier: Result<BlobData, BlobUrlError>,
    later: Result<BlobData, BlobUrlError>,
)
    requires
        handle.wf(),
        call_ensures(FileApiHandle::revoke_blob_url, (handle, url), ()),
        call_ensures(FileApiHandle::resolve_blob_url, (final(handle), url), found),
        call_ensures(FileApiHandle::resolve_blob_url, (&*handle, other), earlier),
        call_ensures(FileApiHandle::resolve_blob_url, (final(handle), other), later),
    ensures
        found is Err,
        other@ != url@ ==> same_lookup(earlier, later),
{
    lemma_revoke(handle.urls@, url@, other@, handle.key());
}

/// The shutdown names every closer and every operation under way, ends all blob
/// URLs, and leaves a handle that refuses every request of the host.
pub proof fn lemma_nothing_is_served_after_shutdown<C: Clock, E: UrlEntropySource>(
    handle: &mut FileApiHandle,
    work: ShutdownWork,
    url: &str,
    found: Result<BlobData, BlobUrlError>,
    bytes: Vec<u8>,
    text: &str,
    blob: Result<BlobData, JsError>,
    options: HostFileOptions,
    clock: C,
    file: Result<FileNative, JsError>,
    values: Vec<Branded>,
    list: Result<FileListNative, JsError>,
    slot: int,
    closer: int,
)
    requires
        handle.wf(),
        call_ensures(FileApiHandle::shutdown, (handle,), work),
        call_ensures(FileApiHandle::resolve_blob_url, (final(handle), url), found),
        call_ensures(FileApiHandle::blob_from_bytes, (final(handle), bytes, text), blob),
        call_ensures(
            FileApiHandle::file_from_bytes::<C>,
            (final(handle), bytes, text, &options, &clock),
            file,
        ),
        call_ensures(FileApiHandle::file_list, (final(handle), &values), list),
        0 <= slot < handle.bridge.slots().len() || handle.bridge.slots().len() == 0,
        0 <= closer < handle.flag@.closers.len() || handle.flag@.closers.len() == 0,
    ensures
        final(handle).flag@.closed,
        final(handle).urls@.len() == 0,
        final(handle).bridge.slots().len() == 0,
        found is Err,
        blob is Err,
        file is Err,
        list is Err,
        work.cancelled@.len() == old(handle).bridge.slots().len(),
        old(handle).bridge.slots().len() > 0 ==> work.cancelled@[slot]
            == old(handle).bridge.slots()[slot].id,
        work.closers@.len() == old(handle).flag@.closers.len(),
        old(handle).flag@.closers.len() > 0 ==> work.closers@[closer]
            == old(handle).flag@.closers[closer],
{
    crate::blob_url::lemma_entry_of(Seq::<EntryView>::empty(), url@);
}

/// Bytes that the host hands over become a blob, or a file, of exactly these
/// bytes, whenever they are within the ceilings; the name is the one given with
/// every slash turned into a colon, and the time the one given.
pub proof fn lemma_host_bytes_are_kept<C: Clock>(
    handle: FileApiHandle,
    bytes: Vec<u8>,
    media_type: &str,
    blob: Result<BlobData, JsError>,
    name: &str,
    options: HostFileOptions,
    clock: C,
    file: Result<FileNative, JsError>,
    host: Map<u64, Seq<u8>>,
    at: int,
)
    requires
        call_ensures(FileApiHandle::blob_from_bytes, (&handle, bytes, media_type), blob),
        call_ensures(
            FileApiHandle::file_from_bytes::<C>,
            (&handle, bytes, name, &options, &clock),
            file,
        ),
        0 <= at < name@.len(),
    ensures
        !handle.flag@.closed && bytes@.len() <= handle.config.limits.max_blob_size
            && handle.config.limits.max_segments > 0 ==> blob is Ok && file is Ok,
        bytes@.len() > handle.config.limits.max_blob_size ==> blob is Err && file is Err,
        blob matches Ok(data) ==> data.content(host) == bytes@ && data.spec_size()
            == bytes@.len(),
        file matches Ok(made) ==> {
            &&& made.data.content(host) == bytes@
            &&& made.data.spec_size() == bytes@.len()
            &&& made.name@.len() == name@.len()
            &&& made.name@[at] == if name@[at] == '/' {
                ':'
            } else {
                name@[at]
            }
            &&& options.last_modified matches Some(given) ==> made.last_modified == given
        },
{
}

/// A list has as many places as files were given; it exists whenever all of them
/// are files and they are not too many.
pub proof fn lemma_lists_hold_files_alone(
    handle: FileApiHandle,
    values: Vec<Branded>,
    list: Result<FileListNative, JsError>,
    count: usize,
    at: int,
)
    requires
        call_ensures(FileApiHandle::file_list, (&handle, &values), list),
        list matches Ok(made) ==> call_ensures(FileListNative::len, (&made,), count),
        0 <= at < values@.len() || values@.len() == 0,
    ensures
        list is Ok ==> count == values@.len() && !handle.flag@.closed,
        list is Ok && values@.len() > 0 ==> values@[at] is File,
        !handle.flag@.closed && values@.len() <= MAX_FILES && (forall|i: int|
            0 <= i < values@.len() ==> #[trigger] values@[i] is File) ==> list is Ok,
{
}

/// What one context clones, another one restores with the same bytes under the
/// same media type, and a file with its name and time as well, as far as the
/// ceilings of both allow.
pub proof fn lemma_clones_travel_between_contexts(
    here: FileApiHandle,
    there: FileApiHandle,
    file: FileNative,
    bytes: Vec<u8>,
    cloned: Result<FileApiClonePayload, CloneError>,
    restored: Result<FileNative, CloneError>,
    as_blob: Result<FileApiClonePayload, CloneError>,
    blob: Result<BlobData, CloneError>,
    host: Map<u64, Seq<u8>>,
)
    requires
        file.wf(),
        bytes@.len() == file.data.spec_size(),
        call_ensures(FileApiHandle::clone_file, (&here, &Branded::File(file), Ok(bytes)), cloned),
        call_ensures(FileApiHandle::clone_blob, (&here, &Branded::File(file), Ok(bytes)), as_blob),
        cloned matches Ok(payload) ==> call_ensures(
            FileApiHandle::file_from_clone,
            (&there, payload),
            restored,
        ),
        as_blob matches Ok(payload) ==> call_ensures(
            FileApiHandle::blob_from_clone,
            (&there, payload),
            blob,
        ),
    ensures
        cloned is Ok <==> !here.flag@.closed && bytes@.len()
            <= here.config.limits.max_materialize_bytes,
        as_blob is Ok <==> cloned is Ok,
        cloned is Ok && !there.flag@.closed && bytes@.len() <= there.config.limits.max_blob_size
            && there.config.limits.max_segments > 0 ==> restored is Ok && blob is Ok,
        cloned is Ok && there.flag@.closed ==> restored is Err && blob is Err,
        cloned is Ok && restored is Ok ==> {
            &&& restored->Ok_0.data.content(host) == bytes@
            &&& restored->Ok_0.data.spec_media_type() == file.data.spec_media_type()
            &&& restored->Ok_0.name@ == file.name@
            &&& restored->Ok_0.last_modified == file.last_modified
        },
        cloned is Ok && blob is Ok ==> {
            &&& blob->Ok_0.content(host) == bytes@
            &&& blob->Ok_0.spec_media_type() == file.data.spec_media_type()
        },
{
    assert forall|i: int| 0 <= i < file.name@.len() implies file_name(file.name@)[i]
        == #[trigger] file.name@[i] by {
        assert(file.name@.contains(file.name@[i]));
    }
    assert(file_name(file.name@) =~= file.name@);
}

} // verus!
