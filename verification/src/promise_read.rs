//! Promise reads: `text()`, `arrayBuffer()` and `bytes()`.
//!
//! A read is checked and submitted on the script thread and settled once, when
//! its completion is drained.

use vstd::prelude::*;

use crate::blob::BlobData;
use crate::bridge::{
    is_live, reservation_refused, reserve_refusal, slot_of, slot_reserved, IoBridge,
};
use crate::dom::{map_core_error, mapped_error};
use crate::error::{DomException, FileApiError, ResourceLimitKind};
use crate::ids::FileIoOperationId;
use crate::io::{FileIoSubmitError, FileIoTask};
use crate::limits::FileApiLimits;
use crate::utf8::{from_utf8_lossy, utf8_lossy};

verus! {

/// What a promise read resolves with.
#[derive(Clone, Copy, Debug, PartialEq, Eq, Structural)]
pub enum ReadMode {
    /// Text, decoded as UTF-8 with replacement.
    Text,
    /// A fresh `ArrayBuffer`.
    ArrayBuffer,
    /// A fresh `Uint8Array`.
    Bytes,
}

/// The value of a resolved read.
#[derive(Clone, Debug)]
pub enum PromiseValue {
    /// Text.
    Text(String),
    /// The bytes of an `ArrayBuffer`.
    ArrayBuffer(Vec<u8>),
    /// The bytes of a `Uint8Array`.
    Bytes(Vec<u8>),
}

/// Whether `value` is what `bytes` resolve to.
pub open spec fn is_packaged(value: PromiseValue, mode: ReadMode, bytes: Seq<u8>) -> bool {
    match (mode, value) {
        (ReadMode::Text, PromiseValue::Text(text)) => text@ == utf8_lossy(bytes),
        (ReadMode::ArrayBuffer, PromiseValue::ArrayBuffer(copy)) => copy@ == bytes,
        (ReadMode::Bytes, PromiseValue::Bytes(copy)) => copy@ == bytes,
        _ => false,
    }
}

/// Packages the bytes of a read.
pub fn package_bytes(mode: ReadMode, bytes: Vec<u8>) -> (value: PromiseValue)
    ensures
        is_packaged(value, mode, bytes@),
{
    match mode {
        ReadMode::Text => PromiseValue::Text(from_utf8_lossy(bytes.as_slice())),
        ReadMode::ArrayBuffer => PromiseValue::ArrayBuffer(bytes),
        ReadMode::Bytes => PromiseValue::Bytes(bytes),
    }
}

/// A read that waits for its completion.
#[derive(Clone, Copy, Debug, PartialEq, Eq, Structural)]
pub struct PendingRead {
    /// The operation.
    pub operation: u64,
    /// What to resolve with.
    pub mode: ReadMode,
    /// The size of the blob.
    pub size: u64,
}

/// The position of `operation` among `reads`, if it waits.
pub open spec fn read_of(reads: Seq<PendingRead>, operation: u64) -> Option<int>
    decreases reads.len(),
{
    if reads.len() == 0 {
        None
    } else if reads.last().operation == operation {
        Some(reads.len() - 1)
    } else {
        read_of(reads.drop_last(), operation)
    }
}

/// The reads of one context that wait.
#[derive(Debug)]
pub struct PendingReads {
    /// The reads.
    pub reads: Vec<PendingRead>,
}

/// No operation waits twice.
pub open spec fn reads_distinct(reads: Seq<PendingRead>) -> bool {
    forall|i: int, j: int|
        0 <= i < j < reads.len() ==> (#[trigger] reads[i]).operation != (
        #[trigger] reads[j]).operation
}

/// Every read that waits holds a slot of the bridge, unless it is closed.
pub open spec fn reads_reserved(reads: Seq<PendingRead>, bridge: IoBridge) -> bool {
    bridge.is_closed() || forall|i: int|
        0 <= i < reads.len() ==> is_live(bridge.slots(), (#[trigger] reads[i]).operation)
}

/// A table and a bridge that agree.
pub open spec fn reads_consistent(table: PendingReads, bridge: IoBridge) -> bool {
    &&& bridge.wf()
    &&& reads_distinct(table.reads@)
    &&& reads_reserved(table.reads@, bridge)
}

proof fn lemma_read_of(reads: Seq<PendingRead>, operation: u64)
    ensures
        match read_of(reads, operation) {
            Some(i) => 0 <= i < reads.len() && reads[i].operation == operation,
            None => forall|i: int|
                0 <= i < reads.len() ==> (#[trigger] reads[i]).operation != operation,
        },
    decreases reads.len(),
{
    if reads.len() > 0 && reads.last().operation != operation {
        let front = reads.drop_last();
        lemma_read_of(front, operation);
        assert forall|i: int| 0 <= i < front.len() implies front[i] == #[trigger] reads[i] by {}
    }
}

impl PendingReads {
    /// A table without reads.
    pub fn new() -> (table: PendingReads)
        ensures
            table.reads@ == Seq::<PendingRead>::empty(),
    {
        PendingReads { reads: Vec::new() }
    }

    /// Takes the read of an operation out, if it waits.
    pub fn take(&mut self, operation: u64) -> (pending: Option<PendingRead>)
        ensures
            match read_of(old(self).reads@, operation) {
                Some(i) => pending == Some(old(self).reads@[i]) && final(self).reads@ == old(
                    self,
                ).reads@.remove(i),
                None => pending is None && final(self).reads@ == old(self).reads@,
            },
    {
        let mut i: usize = self.reads.len();
        proof {
            assert(self.reads@.take(i as int) =~= self.reads@);
        }
        while i > 0
            invariant
                i <= self.reads@.len(),
                self.reads@ == old(self).reads@,
                read_of(self.reads@, operation) == read_of(self.reads@.take(i as int), operation),
            decreases i,
        {
            proof {
                let here = self.reads@.take(i as int);
                assert(here.last() == self.reads@[i - 1]);
                assert(here.drop_last() =~= self.reads@.take(i - 1));
            }
            if self.reads[i - 1].operation == operation {
                let pending = self.reads.remove(i - 1);
                return Some(pending);
            }
            i = i - 1;
        }
        None
    }
}

/// What the host has to do after a read method.
pub enum StartPromise {
    /// Reject the promise with the failure.
    Reject(FileApiError),
    /// Submit the task; [`promise_submit_failed`] if it is refused.
    Submit(FileIoTask),
}

/// Why a read is rejected before anything is submitted, if it is.
pub open spec fn promise_refusal(
    shutdown: bool,
    size: u64,
    limits: FileApiLimits,
    bridge: IoBridge,
) -> Option<FileApiError> {
    if shutdown {
        Some(FileApiError::Cancelled)
    } else if size > limits.max_materialize_bytes {
        Some(FileApiError::ResourceLimit(ResourceLimitKind::MaterializeBytes))
    } else {
        match reserve_refusal(bridge) {
            Some(refusal) => Some(refusal.settles_as()),
            None => None,
        }
    }
}

/// What starting a promise read changes and asks of the host.
pub open spec fn promise_started(
    reads: Seq<PendingRead>,
    bridge: IoBridge,
    data: BlobData,
    limits: FileApiLimits,
    mode: ReadMode,
    shutdown: bool,
    reads_after: Seq<PendingRead>,
    bridge_after: IoBridge,
    outcome: StartPromise,
) -> bool {
    match promise_refusal(shutdown, data.spec_size(), limits, bridge) {
        Some(error) => {
            &&& outcome == StartPromise::Reject(error)
            &&& reads_after == reads
            &&& reservation_refused(bridge, bridge_after)
        },
        None => {
            let operation = bridge.next_id();
            &&& outcome matches StartPromise::Submit(task) && {
                &&& task.context_id == bridge.context()
                &&& task.operation_id.spec_get() == operation
                &&& task.data@ == data@
                &&& task.limits == limits
            }
            &&& reads_after == reads.push(
                PendingRead { operation, mode, size: data.spec_size() },
            )
            &&& slot_reserved(bridge, bridge_after, operation, false)
        },
    }
}

/// Starts a promise read.
///
/// A runtime that is shut down, a blob over the ceiling and a full bridge
/// reject the promise; no slot is taken then. Otherwise the read takes one
/// slot and waits for its completion.
pub fn read_promise(
    table: &mut PendingReads,
    bridge: &mut IoBridge,
    data: &BlobData,
    limits: &FileApiLimits,
    mode: ReadMode,
    shutdown: bool,
) -> (outcome: StartPromise)
    requires
        reads_consistent(*old(table), *old(bridge)),
        data.wf(),
    ensures
        reads_consistent(*final(table), *final(bridge)),
        promise_started(
            old(table).reads@,
            *old(bridge),
            *data,
            *limits,
            mode,
            shutdown,
            final(table).reads@,
            *final(bridge),
            outcome,
        ),
{
    if shutdown {
        return StartPromise::Reject(FileApiError::Cancelled);
    }
    if data.size() > limits.max_materialize_bytes {
        return StartPromise::Reject(
            FileApiError::ResourceLimit(ResourceLimitKind::MaterializeBytes),
        );
    }
    let operation_id = match bridge.reserve() {
        Ok(id) => id,
        Err(refusal) => {
            return StartPromise::Reject(refusal.to_file_api_error());
        },
    };
    let operation: u64 = operation_id.get();
    let ghost before = table.reads@;
    table.reads.push(PendingRead { operation, mode, size: data.size() });
    proof {
        let reads = table.reads@;
        assert forall|i: int| 0 <= i < reads.len() implies is_live(
            bridge.slots(),
            (#[trigger] reads[i]).operation,
        ) by {
            if i < before.len() {
                assert(is_live(old(bridge).slots(), before[i].operation));
            }
        }
        assert forall|i: int, j: int| 0 <= i < j < reads.len() implies (
        #[trigger] reads[i]).operation != (#[trigger] reads[j]).operation by {
            if j < before.len() {
                assert(before[i].operation != before[j].operation);
            } else {
                let id = before[i].operation;
                assert(is_live(old(bridge).slots(), id));
                crate::bridge::lemma_slot_of(old(bridge).slots(), id);
                let at = slot_of(old(bridge).slots(), id)->0;
                assert(old(bridge).slots()[at].id < old(bridge).next_id());
            }
        }
    }
    StartPromise::Submit(
        FileIoTask {
            context_id: bridge.context_id(),
            operation_id,
            data: data.reference(),
            limits: *limits,
        },
    )
}

proof fn lemma_reads_after_release(
    reads: Seq<PendingRead>,
    at: int,
    before: IoBridge,
    after: IoBridge,
)
    requires
        0 <= at < reads.len(),
        reads_distinct(reads),
        before.wf(),
        reads_reserved(reads, before),
        after.is_closed() == before.is_closed(),
        after.slots() == match slot_of(before.slots(), reads[at].operation) {
            Some(i) => before.slots().remove(i),
            None => before.slots(),
        },
    ensures
        reads_distinct(reads.remove(at)),
        reads_reserved(reads.remove(at), after),
{
    let rest = reads.remove(at);
    assert forall|i: int, j: int| 0 <= i < j < rest.len() implies (#[trigger] rest[i]).operation
        != (#[trigger] rest[j]).operation by {
        let x = if i < at {
            i
        } else {
            i + 1
        };
        let y = if j < at {
            j
        } else {
            j + 1
        };
        assert(reads[x].operation != reads[y].operation);
    }
    if !before.is_closed() {
        let id = reads[at].operation;
        assert(is_live(before.slots(), id));
        assert forall|i: int| 0 <= i < rest.len() implies is_live(
            after.slots(),
            (#[trigger] rest[i]).operation,
        ) by {
            let x = if i < at {
                i
            } else {
                i + 1
            };
            assert(rest[i] == reads[x]);
            assert(is_live(before.slots(), reads[x].operation));
            assert(reads[x].operation != id) by {
                if x < at {
                    assert(reads[x].operation != reads[at].operation);
                } else {
                    assert(reads[at].operation != reads[x].operation);
                }
            }
            crate::bridge::lemma_release_keeps_others(before.slots(), id, reads[x].operation);
        }
    }
}

/// Rejects a read whose task was refused, and releases its slot.
pub fn promise_submit_failed(
    table: &mut PendingReads,
    bridge: &mut IoBridge,
    operation_id: FileIoOperationId,
    error: FileIoSubmitError,
) -> (reject: Option<FileApiError>)
    requires
        reads_consistent(*old(table), *old(bridge)),
    ensures
        match read_of(old(table).reads@, operation_id.spec_get()) {
            Some(i) => {
                &&& reject == Some(error.settles_as())
                &&& final(table).reads@ == old(table).reads@.remove(i)
                &&& reads_consistent(*final(table), *final(bridge))
            },
            None => reject is None && final(table).reads@ == old(table).reads@,
        },
        final(bridge).wf(),
        final(bridge).same_setup(*old(bridge)),
        final(bridge).slots() == match slot_of(old(bridge).slots(), operation_id.spec_get()) {
            Some(i) => old(bridge).slots().remove(i),
            None => old(bridge).slots(),
        },
{
    proof {
        lemma_read_of(table.reads@, operation_id.spec_get());
    }
    let _ = bridge.unreserve(operation_id);
    match table.take(operation_id.get()) {
        Some(_) => {
            proof {
                let at = read_of(old(table).reads@, operation_id.spec_get())->0;
                lemma_reads_after_release(old(table).reads@, at, *old(bridge), *bridge);
            }
            Some(error.to_file_api_error())
        },
        None => None,
    }
}

/// How a promise settles.
pub enum Settlement {
    /// It resolves with the value.
    Resolve(PromiseValue),
    /// It rejects with the exception.
    Reject(DomException),
}

/// What settling the read of an operation does.
pub open spec fn read_settled(
    reads: Seq<PendingRead>,
    operation: u64,
    result: Result<Vec<u8>, FileApiError>,
    reads_after: Seq<PendingRead>,
    settlement: Option<Settlement>,
) -> bool {
    match read_of(reads, operation) {
        Some(i) => {
            &&& reads_after == reads.remove(i)
            &&& settlement is Some
            &&& match result {
                Ok(bytes) => settlement->0 matches Settlement::Resolve(value) && is_packaged(
                    value,
                    reads[i].mode,
                    bytes@,
                ),
                Err(error) => settlement->0 matches Settlement::Reject(exception) && exception@
                    == mapped_error(error),
            }
        },
        None => settlement is None && reads_after == reads,
    }
}

/// Settles a read with its completion: the promise of a read that waits is
/// settled once, and a late completion is dropped.
pub fn settle_completion(
    table: &mut PendingReads,
    operation_id: FileIoOperationId,
    result: Result<Vec<u8>, FileApiError>,
) -> (settlement: Option<Settlement>)
    ensures
        read_settled(
            old(table).reads@,
            operation_id.spec_get(),
            result,
            final(table).reads@,
            settlement,
        ),
{
    match table.take(operation_id.get()) {
        Some(pending) => match result {
            Ok(bytes) => Some(Settlement::Resolve(package_bytes(pending.mode, bytes))),
            Err(error) => Some(Settlement::Reject(map_core_error(error))),
        },
        None => None,
    }
}

/// A promise settles once: after the settlement of an operation another
/// completion of it is late.
pub proof fn lemma_settles_once(reads: Seq<PendingRead>, operation: u64)
    requires
        reads_distinct(reads),
        read_of(reads, operation) is Some,
    ensures
        read_of(reads.remove(read_of(reads, operation)->0), operation) is None,
{
    lemma_read_of(reads, operation);
    let at = read_of(reads, operation)->0;
    let rest = reads.remove(at);
    lemma_read_of(rest, operation);
    if read_of(rest, operation) is Some {
        let k = read_of(rest, operation)->0;
        if k < at {
            assert(reads[k].operation != reads[at].operation);
        } else {
            assert(rest[k] == reads[k + 1]);
            assert(reads[at].operation != reads[k + 1].operation);
        }
    }
}


/// A completion settles the read of its own operation, as the kind that read asked
/// for, and no other; a completion that no read waits for settles nothing.
pub proof fn lemma_completions_settle_their_own_read(
    table: &mut PendingReads,
    operation_id: FileIoOperationId,
    result: Result<Vec<u8>, FileApiError>,
    settlement: Option<Settlement>,
    at: int,
)
    requires
        reads_distinct(table.reads@),
        call_ensures(settle_completion, (table, operation_id, result), settlement),
        0 <= at < table.reads@.len(),
    ensures
        old(table).reads@[at].operation == operation_id.spec_get() ==> {
            &&& settlement is Some
            &&& final(table).reads@ == old(table).reads@.remove(at)
            &&& result matches Ok(bytes) ==> match old(table).reads@[at].mode {
                ReadMode::Text => settlement matches Some(
                    Settlement::Resolve(PromiseValue::Text(_)),
                ),
                ReadMode::ArrayBuffer => settlement matches Some(
                    Settlement::Resolve(PromiseValue::ArrayBuffer(copy)),
                ) && copy@ == bytes@,
                ReadMode::Bytes => settlement matches Some(
                    Settlement::Resolve(PromiseValue::Bytes(copy)),
                ) && copy@ == bytes@,
            }
            &&& result is Err ==> (settlement matches Some(Settlement::Reject(_)))
        },
        (forall|i: int|
            0 <= i < old(table).reads@.len() ==> (#[trigger] old(table).reads@[i]).operation
                != operation_id.spec_get()) ==> settlement is None && final(table).reads@
            == old(table).reads@,
{
    lemma_read_of(table.reads@, operation_id.spec_get());
}

/// A read that is accepted asks the host for the very blob, under an operation of
/// its own, and waits behind the earlier ones as the kind that was asked for.
pub proof fn lemma_accepted_reads_wait(
    table: &mut PendingReads,
    bridge: &mut IoBridge,
    data: BlobData,
    limits: FileApiLimits,
    mode: ReadMode,
    shutdown: bool,
    outcome: StartPromise,
)
    requires
        reads_consistent(*table, *bridge),
        data.wf(),
        call_ensures(read_promise, (table, bridge, &data, &limits, mode, shutdown), outcome),
    ensures
        outcome matches StartPromise::Submit(task) ==> {
            &&& !shutdown
            &&& data.spec_size() <= limits.max_materialize_bytes
            &&& task.data@ == data@
            &&& task.limits == limits
            &&& task.context_id == old(bridge).context()
            &&& final(table).reads@.len() == old(table).reads@.len() + 1
            &&& final(table).reads@.drop_last() == old(table).reads@
            &&& final(table).reads@.last().operation == task.operation_id.spec_get()
            &&& final(table).reads@.last().mode == mode
            &&& is_live(final(bridge).slots(), task.operation_id.spec_get())
            &&& !is_live(old(bridge).slots(), task.operation_id.spec_get())
        },
        outcome is Reject ==> final(table).reads@ == old(table).reads@ && final(bridge).slots()
            == old(bridge).slots(),
        shutdown ==> outcome == StartPromise::Reject(FileApiError::Cancelled),
        !shutdown && data.spec_size() > limits.max_materialize_bytes ==> outcome
            == StartPromise::Reject(FileApiError::ResourceLimit(
            ResourceLimitKind::MaterializeBytes,
        )),
        !shutdown && data.spec_size() <= limits.max_materialize_bytes && old(
            bridge,
        ).slots().len() < old(bridge).limit() && !old(bridge).is_closed()
            && !old(bridge).out_of_ids() && 0 < old(bridge).next_id() < u64::MAX ==> outcome
            is Submit,
        !shutdown && !old(bridge).is_closed() && old(bridge).slots().len()
            >= old(bridge).limit() && data.spec_size() <= limits.max_materialize_bytes ==> outcome
            == StartPromise::Reject(FileApiError::TooManyReads),
{
    crate::bridge::lemma_completed_bounds(bridge.slots());
    if let StartPromise::Submit(task) = outcome {
        let id = task.operation_id.spec_get();
        let after = final(bridge).slots();
        assert(after.last().id == id);
        crate::bridge::lemma_slot_of(after, id);
        assert(after[after.len() - 1].id == id);
        crate::bridge::lemma_slot_of(bridge.slots(), id);
        assert(final(table).reads@.drop_last() =~= old(table).reads@);
    }
}


/// A request that the host refuses rejects the read that made it, frees its slot,
/// and leaves every other read waiting.
pub proof fn lemma_refused_requests_reject_their_read(
    table: &mut PendingReads,
    bridge: &mut IoBridge,
    operation_id: FileIoOperationId,
    error: FileIoSubmitError,
    reject: Option<FileApiError>,
    at: int,
)
    requires
        reads_consistent(*table, *bridge),
        call_ensures(promise_submit_failed, (table, bridge, operation_id, error), reject),
        0 <= at < table.reads@.len(),
    ensures
        old(table).reads@[at].operation == operation_id.spec_get() ==> reject is Some
            && final(table).reads@ == old(table).reads@.remove(at),
        (forall|i: int|
            0 <= i < old(table).reads@.len() ==> (#[trigger] old(table).reads@[i]).operation
                != operation_id.spec_get()) ==> reject is None && final(table).reads@
            == old(table).reads@,
        !is_live(final(bridge).slots(), operation_id.spec_get()),
{
    let id = operation_id.spec_get();
    lemma_read_of(table.reads@, id);
    if is_live(bridge.slots(), id) {
        crate::bridge::lemma_released_operation_is_gone(bridge.slots(), id);
    }
}

} // verus!
