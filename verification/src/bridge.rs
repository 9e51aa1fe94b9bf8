//! The per-context bridge: slots, completions and their order.

use vstd::prelude::*;

use crate::ids::{FileApiContextId, FileIoOperationId};
use crate::io::{
    FileIoCompletion, FileReaderChunkCompletion, ReserveError, StreamChunkCompletion,
};

verus! {

/// The slot of one live operation.
#[derive(Debug)]
pub struct Slot {
    /// The operation.
    pub id: u64,
    /// Whether the operation still waits in submission order.
    pub queued: bool,
    /// The completion of a whole read, until it is drained.
    pub completion: Option<FileIoCompletion>,
    /// Whether the operation reads in chunks.
    pub chunked: bool,
    /// Chunk completions of a `FileReader` operation, oldest first.
    pub reader: Vec<FileReaderChunkCompletion>,
    /// Chunk completions of a stream, oldest first.
    pub stream: Vec<StreamChunkCompletion>,
}

/// The slot that a fresh reservation starts with; `chunked` says whether its
/// operation reads in chunks.
pub open spec fn is_fresh_slot(slot: Slot, id: u64, chunked: bool) -> bool {
    &&& slot.id == id
    &&& slot.queued
    &&& slot.completion is None
    &&& slot.chunked == chunked
    &&& slot.reader@ == Seq::<FileReaderChunkCompletion>::empty()
    &&& slot.stream@ == Seq::<StreamChunkCompletion>::empty()
}

/// The position of the slot of `id`, if it has one.
pub open spec fn slot_of(slots: Seq<Slot>, id: u64) -> Option<int>
    decreases slots.len(),
{
    if slots.len() == 0 {
        None
    } else if slots.last().id == id {
        Some(slots.len() - 1)
    } else {
        slot_of(slots.drop_last(), id)
    }
}

/// Whether `id` holds a slot.
pub open spec fn is_live(slots: Seq<Slot>, id: u64) -> bool {
    slot_of(slots, id) is Some
}

/// Whether `id` holds a slot of an operation that reads in chunks.
pub open spec fn is_chunked(slots: Seq<Slot>, id: u64) -> bool {
    is_live(slots, id) && slots[slot_of(slots, id)->0].chunked
}

/// Every completion that waits in a slot is one of its operation.
pub open spec fn own_completion(slot: Slot) -> bool {
    &&& slot.completion matches Some(completion) ==> completion.operation_id.spec_get() == slot.id
    &&& forall|k: int|
        0 <= k < slot.reader@.len() ==> (#[trigger] slot.reader@[k]).operation_id.spec_get()
            == slot.id
    &&& forall|k: int|
        0 <= k < slot.stream@.len() ==> (#[trigger] slot.stream@[k]).operation_id.spec_get()
            == slot.id
}

/// Whether two slots hold the same completions.
pub open spec fn same_completions(slot: Slot, other: Slot) -> bool {
    &&& slot.completion == other.completion
    &&& slot.reader == other.reader
    &&& slot.stream == other.stream
}

/// Identifiers grow from slot to slot.
pub open spec fn ids_increase(slots: Seq<Slot>) -> bool {
    forall|i: int, j: int|
        0 <= i < j < slots.len() ==> (#[trigger] slots[i]).id < (#[trigger] slots[j]).id
}

/// The number of whole-read completions that wait.
pub open spec fn completed(slots: Seq<Slot>) -> nat
    decreases slots.len(),
{
    if slots.len() == 0 {
        0
    } else if slots.last().completion is Some {
        completed(slots.drop_last()) + 1
    } else {
        completed(slots.drop_last())
    }
}

/// The completions that are due: in submission order, those of whole reads up
/// to the first whole read that has not completed.
pub open spec fn due_completions(slots: Seq<Slot>) -> Seq<FileIoCompletion>
    decreases slots.len(),
{
    if slots.len() == 0 {
        Seq::empty()
    } else {
        let first = slots[0];
        let rest = slots.skip(1);
        if !first.queued || first.chunked {
            due_completions(rest)
        } else {
            match first.completion {
                Some(completion) => seq![completion] + due_completions(rest),
                None => Seq::empty(),
            }
        }
    }
}

/// Whether a whole read among `slots` waits in order without a completion.
pub open spec fn blocked(slots: Seq<Slot>) -> bool {
    exists|i: int|
        0 <= i < slots.len() && (#[trigger] slots[i]).queued && !slots[i].chunked
            && slots[i].completion is None
}

/// Whether the slot at `i` is drained: a whole read in order with nothing
/// unfinished before it.
pub open spec fn is_due(slots: Seq<Slot>, i: int) -> bool {
    &&& slots[i].queued
    &&& !slots[i].chunked
    &&& slots[i].completion is Some
    &&& !blocked(slots.take(i))
}

/// The slot at `i` after a drain: a drained one has left the order, and a
/// completion whose operation is out of order is dropped.
pub open spec fn is_drained_slot(slots: Seq<Slot>, i: int, slot: Slot) -> bool {
    &&& slot.id == slots[i].id
    &&& slot.chunked == slots[i].chunked
    &&& slot.reader == slots[i].reader
    &&& slot.stream == slots[i].stream
    &&& slot.queued == (slots[i].queued && !is_due(slots, i))
    &&& slot.completion == if slot.queued {
        slots[i].completion
    } else {
        None
    }
}

/// The chunk completions of the `FileReader` operations in order, those of
/// each operation oldest first.
pub open spec fn reader_chunks(slots: Seq<Slot>) -> Seq<FileReaderChunkCompletion>
    decreases slots.len(),
{
    if slots.len() == 0 {
        Seq::empty()
    } else {
        reader_chunks(slots.drop_last()) + if slots.last().queued {
            slots.last().reader@
        } else {
            Seq::empty()
        }
    }
}

/// The chunk completions of the streams in order.
pub open spec fn stream_chunks(slots: Seq<Slot>) -> Seq<StreamChunkCompletion>
    decreases slots.len(),
{
    if slots.len() == 0 {
        Seq::empty()
    } else {
        stream_chunks(slots.drop_last()) + if slots.last().queued {
            slots.last().stream@
        } else {
            Seq::empty()
        }
    }
}

pub proof fn lemma_slot_of(slots: Seq<Slot>, id: u64)
    ensures
        match slot_of(slots, id) {
            Some(i) => 0 <= i < slots.len() && slots[i].id == id,
            None => forall|i: int| 0 <= i < slots.len() ==> (#[trigger] slots[i]).id != id,
        },
    decreases slots.len(),
{
    if slots.len() > 0 && slots.last().id != id {
        lemma_slot_of(slots.drop_last(), id);
        if slot_of(slots, id) is None {
            assert forall|i: int| 0 <= i < slots.len() implies (#[trigger] slots[i]).id != id by {
                if i < slots.len() - 1 {
                    assert(slots.drop_last()[i].id != id);
                }
            }
        }
    }
}

pub proof fn lemma_slot_of_is(slots: Seq<Slot>, id: u64, at: int)
    requires
        ids_increase(slots),
        0 <= at < slots.len(),
        slots[at].id == id,
    ensures
        slot_of(slots, id) == Some(at),
{
    lemma_slot_of(slots, id);
    let found = slot_of(slots, id)->0;
    if found < at {
        assert(slots[found].id < slots[at].id);
    } else if at < found {
        assert(slots[at].id < slots[found].id);
    }
}

pub(crate) proof fn lemma_completed_bounds(slots: Seq<Slot>)
    ensures
        completed(slots) <= slots.len(),
        (exists|i: int| 0 <= i < slots.len() && (#[trigger] slots[i]).completion is None)
            ==> completed(slots) < slots.len(),
    decreases slots.len(),
{
    if slots.len() > 0 {
        let front = slots.drop_last();
        lemma_completed_bounds(front);
        if exists|i: int| 0 <= i < slots.len() && (#[trigger] slots[i]).completion is None {
            let i = choose|i: int| 0 <= i < slots.len() && (#[trigger] slots[i]).completion is None;
            if i < slots.len() - 1 {
                assert(front[i].completion is None);
            }
        }
    }
}

/// The bridge of one context.
#[derive(Debug)]
pub struct IoBridge {
    /// The owning context.
    context_id: FileApiContextId,
    /// The slots of the live operations, in the order of their reservation.
    slots: Vec<Slot>,
    /// How many slots there may be.
    concurrency_limit: usize,
    /// How many whole-read completions may wait.
    completion_cap: usize,
    /// The identifier of the next operation.
    next_operation: u64,
    /// Whether no identifier is left.
    ids_exhausted: bool,
    /// Whether the runtime is shut down.
    shutdown: bool,
}

/// The reason for which a bridge in this state refuses a reservation, if it
/// does.
pub open spec fn reserve_refusal(bridge: IoBridge) -> Option<ReserveError> {
    if bridge.is_closed() {
        Some(ReserveError::Shutdown)
    } else if bridge.out_of_ids() || bridge.slots().len() >= bridge.limit() {
        Some(ReserveError::QuotaFull)
    } else if completed(bridge.slots()) >= bridge.cap() {
        Some(ReserveError::CompletionFull)
    } else if bridge.next_id() == 0 || bridge.next_id() == u64::MAX {
        Some(ReserveError::QuotaFull)
    } else {
        None
    }
}

/// How many operations a bridge admits that was asked for `wanted`: at least
/// one.
pub open spec fn limit_for(wanted: usize) -> usize {
    if wanted == 0 {
        1
    } else {
        wanted
    }
}

/// How many completions may wait beside `limit` operations: twice as many, and
/// at least 64.
pub open spec fn cap_for(limit: usize) -> usize {
    if 2 * limit > usize::MAX {
        usize::MAX
    } else if 2 * limit < 64 {
        64
    } else {
        (2 * limit) as usize
    }
}

impl IoBridge {
    /// The slots of the live operations.
    pub closed spec fn slots(self) -> Seq<Slot> {
        self.slots@
    }

    /// How many slots there may be.
    pub closed spec fn limit(self) -> usize {
        self.concurrency_limit
    }

    /// How many whole-read completions may wait.
    pub closed spec fn cap(self) -> usize {
        self.completion_cap
    }

    /// The identifier of the next operation.
    pub closed spec fn next_id(self) -> u64 {
        self.next_operation
    }

    /// Whether no identifier is left.
    pub closed spec fn out_of_ids(self) -> bool {
        self.ids_exhausted
    }

    /// Whether the runtime is shut down.
    pub closed spec fn is_closed(self) -> bool {
        self.shutdown
    }

    /// The owning context.
    pub closed spec fn context(self) -> FileApiContextId {
        self.context_id
    }

    /// Slots are unique, ordered and within the limit; every identifier in use
    /// lies below the next one; the limit fits into the completion cap.
    pub open spec fn wf(self) -> bool {
        &&& ids_increase(self.slots())
        &&& forall|i: int|
            0 <= i < self.slots().len() ==> 0 < (#[trigger] self.slots()[i]).id < self.next_id()
        &&& forall|i: int|
            0 <= i < self.slots().len() ==> own_completion(#[trigger] self.slots()[i])
        &&& self.slots().len() <= self.limit()
        &&& 1 <= self.limit() <= self.cap()
        &&& self.cap() >= 64
        &&& self.is_closed() ==> self.slots() == Seq::<Slot>::empty()
    }

    /// Everything but the slots is the same.
    pub open spec fn same_setup(self, other: IoBridge) -> bool {
        &&& self.limit() == other.limit()
        &&& self.cap() == other.cap()
        &&& self.next_id() == other.next_id()
        &&& self.out_of_ids() == other.out_of_ids()
        &&& self.is_closed() == other.is_closed()
        &&& self.context() == other.context()
    }

    /// A bridge without operations, for at least one concurrent operation.
    pub fn new(context_id: FileApiContextId, concurrency_limit: usize) -> (bridge: IoBridge)
        ensures
            bridge.wf(),
            bridge.slots() == Seq::<Slot>::empty(),
            bridge.context() == context_id,
            bridge.next_id() == 1,
            !bridge.out_of_ids(),
            !bridge.is_closed(),
            bridge.limit() == limit_for(concurrency_limit),
            bridge.cap() == cap_for(limit_for(concurrency_limit)),
    {
        IoBridge::with_first_operation(context_id, concurrency_limit, 1)
    }

    /// A bridge whose first operation gets the identifier `first`.
    pub fn with_first_operation(
        context_id: FileApiContextId,
        concurrency_limit: usize,
        first: u64,
    ) -> (bridge: IoBridge)
        ensures
            bridge.wf(),
            bridge.slots() == Seq::<Slot>::empty(),
            bridge.context() == context_id,
            bridge.next_id() == first,
            !bridge.out_of_ids(),
            !bridge.is_closed(),
            bridge.limit() == limit_for(concurrency_limit),
            bridge.cap() == cap_for(limit_for(concurrency_limit)),
    {
        let limit: usize = if concurrency_limit == 0 {
            1
        } else {
            concurrency_limit
        };
        let double: usize = match limit.checked_mul(2) {
            Some(product) => product,
            None => usize::MAX,
        };
        let cap: usize = if double < 64 {
            64
        } else {
            double
        };
        IoBridge {
            context_id,
            slots: Vec::new(),
            concurrency_limit: limit,
            completion_cap: cap,
            next_operation: first,
            ids_exhausted: false,
            shutdown: false,
        }
    }

    /// The owning context.
    pub fn context_id(&self) -> (id: FileApiContextId)
        ensures
            id == self.context(),
    {
        self.context_id
    }

    /// Whether the runtime is shut down.
    pub fn is_shutdown(&self) -> (closed: bool)
        ensures
            closed == self.is_closed(),
    {
        self.shutdown
    }

    /// The number of live operations.
    pub fn active_count(&self) -> (count: usize)
        ensures
            count == self.slots().len(),
    {
        self.slots.len()
    }

    /// Whether work is outstanding or completions wait.
    pub fn has_pending(&self) -> (pending: bool)
        ensures
            pending == (self.slots().len() > 0),
    {
        self.slots.len() > 0
    }

    /// The position of the slot of `id`.
    fn find(&self, id: u64) -> (found: Option<usize>)
        ensures
            match found {
                Some(i) => slot_of(self.slots(), id) == Some(i as int) && i < self.slots().len(),
                None => slot_of(self.slots(), id) is None,
            },
    {
        let mut i: usize = self.slots.len();
        proof {
            assert(self.slots@.take(i as int) =~= self.slots@);
        }
        while i > 0
            invariant
                i <= self.slots@.len(),
                slot_of(self.slots@, id) == slot_of(self.slots@.take(i as int), id),
            decreases i,
        {
            let ghost here = self.slots@.take(i as int);
            proof {
                assert(here.last() == self.slots@[i - 1]);
                assert(here.drop_last() =~= self.slots@.take(i - 1));
            }
            if self.slots[i - 1].id == id {
                return Some(i - 1);
            }
            i = i - 1;
        }
        None
    }

    /// Whether `operation_id` holds a slot.
    pub fn is_reserved(&self, operation_id: FileIoOperationId) -> (live: bool)
        ensures
            live == is_live(self.slots(), operation_id.spec_get()),
    {
        match self.find(operation_id.get()) {
            Some(_) => true,
            None => false,
        }
    }

    /// The number of whole-read completions that wait.
    fn completed_count(&self) -> (count: usize)
        ensures
            count == completed(self.slots()),
    {
        let mut count: usize = 0;
        let mut i: usize = 0;
        proof {
            assert(self.slots@.take(0) =~= Seq::<Slot>::empty());
        }
        while i < self.slots.len()
            invariant
                i <= self.slots@.len(),
                count <= i,
                count == completed(self.slots@.take(i as int)),
            decreases self.slots@.len() - i,
        {
            proof {
                let here = self.slots@.take(i + 1);
                assert(here.drop_last() =~= self.slots@.take(i as int));
                assert(here.last() == self.slots@[i as int]);
            }
            if self.slots[i].completion.is_some() {
                count = count + 1;
            }
            i = i + 1;
        }
        assert(self.slots@.take(i as int) =~= self.slots@);
        count
    }

    /// Reserves one slot for a whole read and returns its operation.
    ///
    /// A refusal takes no slot. Identifiers are never reused: once they have
    /// run out every further reservation is refused.
    pub fn reserve(&mut self) -> (result: Result<FileIoOperationId, ReserveError>)
        requires
            old(self).wf(),
        ensures
            final(self).wf(),
            match result {
                Ok(id) => {
                    &&& reserve_refusal(*old(self)) is None
                    &&& 0 < id.spec_get() < u64::MAX
                    &&& slot_reserved(*old(self), *final(self), id.spec_get(), false)
                },
                Err(error) => {
                    &&& reserve_refusal(*old(self)) == Some(error)
                    &&& reservation_refused(*old(self), *final(self))
                },
            },
    {
        self.reserve_slot(false)
    }

    /// Reserves one slot for an operation that reads in chunks and returns the
    /// operation.
    ///
    /// Such a slot never stands in the order of the whole reads, from its
    /// reservation on. A refusal takes no slot.
    pub fn reserve_chunked(&mut self) -> (result: Result<FileIoOperationId, ReserveError>)
        requires
            old(self).wf(),
        ensures
            final(self).wf(),
            match result {
                Ok(id) => {
                    &&& reserve_refusal(*old(self)) is None
                    &&& 0 < id.spec_get() < u64::MAX
                    &&& slot_reserved(*old(self), *final(self), id.spec_get(), true)
                },
                Err(error) => {
                    &&& reserve_refusal(*old(self)) == Some(error)
                    &&& reservation_refused(*old(self), *final(self))
                },
            },
    {
        self.reserve_slot(true)
    }

    /// Reserves one slot and returns its operation.
    fn reserve_slot(&mut self, chunked: bool) -> (result: Result<FileIoOperationId, ReserveError>)
        requires
            old(self).wf(),
        ensures
            final(self).wf(),
            match result {
                Ok(id) => {
                    &&& reserve_refusal(*old(self)) is None
                    &&& 0 < id.spec_get() < u64::MAX
                    &&& slot_reserved(*old(self), *final(self), id.spec_get(), chunked)
                },
                Err(error) => {
                    &&& reserve_refusal(*old(self)) == Some(error)
                    &&& reservation_refused(*old(self), *final(self))
                },
            },
    {
        if self.shutdown {
            return Err(ReserveError::Shutdown);
        }
        if self.ids_exhausted {
            return Err(ReserveError::QuotaFull);
        }
        if self.slots.len() >= self.concurrency_limit {
            return Err(ReserveError::QuotaFull);
        }
        if self.completed_count() >= self.completion_cap {
            return Err(ReserveError::CompletionFull);
        }
        let raw: u64 = self.next_operation;
        if raw == 0 || raw == u64::MAX {
            self.next_operation = u64::MAX;
            self.ids_exhausted = true;
            return Err(ReserveError::QuotaFull);
        }
        let ghost before = self.slots@;
        self.next_operation = raw + 1;
        self.slots.push(
            Slot {
                id: raw,
                queued: true,
                completion: None,
                chunked,
                reader: Vec::new(),
                stream: Vec::new(),
            },
        );
        proof {
            assert(self.slots@.drop_last() =~= before);
            assert forall|i: int| 0 <= i < self.slots@.len() implies 0 < (
            #[trigger] self.slots@[i]).id < self.next_operation by {
                if i < before.len() {
                    assert(0 < before[i].id);
                }
            }
        }
        Ok(FileIoOperationId::from_raw(raw))
    }

    /// Releases the slot of an operation with everything in it. Releasing an
    /// operation without a slot does nothing.
    pub fn unreserve(&mut self, operation_id: FileIoOperationId) -> (released: bool)
        requires
            old(self).wf(),
        ensures
            final(self).wf(),
            final(self).same_setup(*old(self)),
            released == is_live(old(self).slots(), operation_id.spec_get()),
            final(self).slots() == match slot_of(old(self).slots(), operation_id.spec_get()) {
                Some(i) => old(self).slots().remove(i),
                None => old(self).slots(),
            },
    {
        match self.find(operation_id.get()) {
            Some(i) => {
                let ghost before = self.slots@;
                let _ = self.slots.remove(i);
                proof {
                    assert forall|k: int| 0 <= k < self.slots@.len() implies 0 < (
                    #[trigger] self.slots@[k]).id < self.next_operation by {
                        assert(self.slots@[k] == before[if k < i {
                            k
                        } else {
                            k + 1
                        }]);
                        assert(old(self).slots()[if k < i {
                            k
                        } else {
                            k + 1
                        }].id > 0);
                    }
                    assert forall|a: int, b: int| 0 <= a < b < self.slots@.len() implies (
                    #[trigger] self.slots@[a]).id < (#[trigger] self.slots@[b]).id by {
                        let x = if a < i {
                            a
                        } else {
                            a + 1
                        };
                        let y = if b < i {
                            b
                        } else {
                            b + 1
                        };
                        assert(old(self).slots()[x].id < old(self).slots()[y].id);
                    }
                }
                true
            },
            None => false,
        }
    }

    /// Releases the slot of a settled operation.
    pub fn release(&mut self, operation_id: FileIoOperationId) -> (released: bool)
        requires
            old(self).wf(),
        ensures
            final(self).wf(),
            final(self).same_setup(*old(self)),
            released == is_live(old(self).slots(), operation_id.spec_get()),
            final(self).slots() == match slot_of(old(self).slots(), operation_id.spec_get()) {
                Some(i) => old(self).slots().remove(i),
                None => old(self).slots(),
            },
    {
        self.unreserve(operation_id)
    }

    /// Takes the completion of a whole read in, unless it is late: the runtime
    /// is shut down, the operation is released, or it has completed already.
    ///
    /// Returns whether it was taken in, so that the host can be woken. There is
    /// always room for it: every live operation holds one place.
    pub fn push_completion(&mut self, completion: FileIoCompletion) -> (accepted: bool)
        requires
            old(self).wf(),
        ensures
            final(self).wf(),
            taken_in(*old(self), *final(self), completion, accepted),
    {
        if self.shutdown {
            return false;
        }
        let i: usize = match self.find(completion.operation_id.get()) {
            Some(i) => i,
            None => {
                return false;
            },
        };
        if self.slots[i].completion.is_some() {
            return false;
        }
        proof {
            lemma_completed_bounds(self.slots@);
        }
        if self.completed_count() >= self.completion_cap {
            return false;
        }
        let ghost before = self.slots@;
        self.slots[i].completion = Some(completion);
        proof {
            lemma_slot_of(before, completion.operation_id.spec_get());
            lemma_update_keeps_ids(before, self.slots@, i as int);
            lemma_same_ids_keep_wf(*old(self), *self);
        }
        true
    }

    /// Drains the completions that are due.
    ///
    /// Whole reads settle in submission order: a read that finished early waits
    /// for the unfinished ones before it. Operations that read in chunks
    /// neither wait nor hold anyone up. Completions whose operation has left
    /// the order are dropped.
    pub fn take_completions(&mut self) -> (taken: Vec<FileIoCompletion>)
        requires
            old(self).wf(),
        ensures
            final(self).wf(),
            taken@ == due_completions(old(self).slots()),
            reads_drained(*old(self), *final(self)),
    {
        let ghost before = self.slots@;
        let mut taken: Vec<FileIoCompletion> = Vec::new();
        let mut is_blocked: bool = false;
        let mut i: usize = 0;
        proof {
            assert(before.skip(0) =~= before);
            assert(taken@ + due_completions(before) =~= due_completions(before));
        }
        while i < self.slots.len()
            invariant
                self.slots@.len() == before.len(),
                i <= before.len(),
                is_blocked == blocked(before.take(i as int)),
                !is_blocked ==> taken@ + due_completions(before.skip(i as int))
                    == due_completions(before),
                is_blocked ==> taken@ == due_completions(before),
                forall|k: int| 0 <= k < i ==> is_drained_slot(before, k, #[trigger] self.slots@[k]),
                forall|k: int| i <= k < before.len() ==> #[trigger] self.slots@[k] == before[k],
                self.same_setup(*old(self)),
            decreases before.len() - i,
        {
            let ghost here = before.take(i as int);
            let ghost next = before.take(i + 1);
            let ghost rest = before.skip(i as int);
            proof {
                assert(rest[0] == before[i as int]);
                assert(rest.skip(1) =~= before.skip(i + 1));
                assert(next[i as int] == before[i as int]);
                assert forall|k: int| 0 <= k < i implies next[k] == #[trigger] here[k] by {}
                if is_blocked {
                    let k = choose|k: int|
                        0 <= k < here.len() && (#[trigger] here[k]).queued && !here[k].chunked
                            && here[k].completion is None;
                    assert(next[k].queued);
                }
                if blocked(next) && !blocked(here) {
                    let k = choose|k: int|
                        0 <= k < next.len() && (#[trigger] next[k]).queued && !next[k].chunked
                            && next[k].completion is None;
                    if k < i {
                        assert(here[k].queued);
                    }
                }
            }
            if !self.slots[i].queued {
                self.slots[i].completion = None;
            } else if !self.slots[i].chunked {
                if self.slots[i].completion.is_none() {
                    is_blocked = true;
                    proof {
                        if !blocked(here) {
                            assert(taken@ + due_completions(rest) =~= taken@);
                        }
                    }
                } else if !is_blocked {
                    let ghost so_far = taken@;
                    self.slots[i].queued = false;
                    match self.slots[i].completion.take() {
                        Some(completion) => {
                            taken.push(completion);
                        },
                        None => {},
                    }
                    proof {
                        assert(taken@ + due_completions(before.skip(i + 1)) =~= so_far
                            + due_completions(rest));
                    }
                }
            }
            i = i + 1;
        }
        proof {
            assert(before.take(i as int) =~= before);
            if !is_blocked {
                assert(before.skip(i as int) =~= Seq::<Slot>::empty());
                assert(taken@ + due_completions(before.skip(i as int)) =~= taken@);
            }
            assert forall|k: int| 0 <= k < before.len() implies (#[trigger] self.slots@[k]).id
                == before[k].id by {
                assert(is_drained_slot(before, k, self.slots@[k]));
            }
            lemma_same_ids_keep_order(before, self.slots@);
            lemma_same_ids_keep_wf(*old(self), *self);
        }
        taken
    }

    /// Takes a chunk completion of a `FileReader` in, unless it is late. Returns
    /// whether it was taken in.
    pub fn push_reader_completion(&mut self, completion: FileReaderChunkCompletion) -> (accepted:
        bool)
        requires
            old(self).wf(),
        ensures
            final(self).wf(),
            reader_chunk_taken_in(*old(self), *final(self), completion, accepted),
    {
        if self.shutdown {
            return false;
        }
        let i: usize = match self.find(completion.operation_id.get()) {
            Some(i) => i,
            None => {
                return false;
            },
        };
        let ghost was = self.slots@[i as int];
        self.slots[i].chunked = true;
        self.slots[i].reader.push(completion);
        proof {
            let is = self.slots@[i as int];
            lemma_slot_of(old(self).slots(), completion.operation_id.spec_get());
            assert(own_completion(was));
            assert forall|k: int| 0 <= k < is.reader@.len() implies (
            #[trigger] is.reader@[k]).operation_id.spec_get() == is.id by {
                if k < was.reader@.len() {
                    assert(was.reader@[k] == is.reader@[k]);
                }
            }
            assert(own_completion(is));
            lemma_update_keeps_ids(old(self).slots(), self.slots@, i as int);
            lemma_same_ids_keep_wf(*old(self), *self);
        }
        true
    }

    /// Drains every chunk completion of the `FileReader`s in order and drops the
    /// others.
    pub fn take_reader_completions(&mut self) -> (taken: Vec<FileReaderChunkCompletion>)
        requires
            old(self).wf(),
        ensures
            final(self).wf(),
            taken@ == reader_chunks(old(self).slots()),
            readers_drained(*old(self), *final(self)),
    {
        let ghost before = self.slots@;
        let mut taken: Vec<FileReaderChunkCompletion> = Vec::new();
        let mut i: usize = 0;
        proof {
            assert(before.take(0) =~= Seq::<Slot>::empty());
        }
        while i < self.slots.len()
            invariant
                self.slots@.len() == before.len(),
                i <= before.len(),
                taken@ == reader_chunks(before.take(i as int)),
                forall|k: int|
                    0 <= k < i ==> {
                        let after = #[trigger] self.slots@[k];
                        &&& after.reader@ == Seq::<FileReaderChunkCompletion>::empty()
                        &&& after.id == before[k].id
                        &&& after.queued == before[k].queued
                        &&& after.completion == before[k].completion
                        &&& after.chunked == before[k].chunked
                        &&& after.stream == before[k].stream
                    },
                forall|k: int| i <= k < before.len() ==> #[trigger] self.slots@[k] == before[k],
                self.same_setup(*old(self)),
            decreases before.len() - i,
        {
            proof {
                let here = before.take(i + 1);
                assert(here.drop_last() =~= before.take(i as int));
                assert(here.last() == before[i as int]);
            }
            let ghost so_far = taken@;
            if self.slots[i].queued {
                taken.append(&mut self.slots[i].reader);
            } else {
                self.slots[i].reader.clear();
                assert(so_far + Seq::<FileReaderChunkCompletion>::empty() =~= so_far);
            }
            i = i + 1;
        }
        proof {
            assert(before.take(i as int) =~= before);
            lemma_same_ids_keep_wf(*old(self), *self);
        }
        taken
    }

    /// Puts a drained chunk completion back to the front of its queue, unless
    /// it is late by now. Returns whether it was put back.
    pub fn requeue_reader_completion(&mut self, completion: FileReaderChunkCompletion) -> (accepted:
        bool)
        requires
            old(self).wf(),
        ensures
            final(self).wf(),
            requeued(*old(self), completion, *final(self), accepted),
    {
        if self.shutdown {
            return false;
        }
        let i: usize = match self.find(completion.operation_id.get()) {
            Some(i) => i,
            None => {
                return false;
            },
        };
        let ghost was = self.slots@[i as int];
        self.slots[i].reader.insert(0, completion);
        proof {
            let is = self.slots@[i as int];
            lemma_slot_of(old(self).slots(), completion.operation_id.spec_get());
            assert(is.reader@ =~= seq![completion] + was.reader@);
            assert(own_completion(was));
            assert forall|k: int| 0 <= k < is.reader@.len() implies (
            #[trigger] is.reader@[k]).operation_id.spec_get() == is.id by {
                if k > 0 {
                    assert(was.reader@[k - 1] == is.reader@[k]);
                }
            }
            assert(own_completion(is));
            lemma_update_keeps_ids(old(self).slots(), self.slots@, i as int);
            lemma_same_ids_keep_wf(*old(self), *self);
        }
        true
    }

    /// Takes a chunk completion of a stream in, unless it is late. Returns
    /// whether it was taken in.
    pub fn push_stream_completion(&mut self, completion: StreamChunkCompletion) -> (accepted:
        bool)
        requires
            old(self).wf(),
        ensures
            final(self).wf(),
            stream_chunk_taken_in(*old(self), *final(self), completion, accepted),
    {
        if self.shutdown {
            return false;
        }
        let i: usize = match self.find(completion.operation_id.get()) {
            Some(i) => i,
            None => {
                return false;
            },
        };
        let ghost was = self.slots@[i as int];
        self.slots[i].chunked = true;
        self.slots[i].stream.push(completion);
        proof {
            let is = self.slots@[i as int];
            lemma_slot_of(old(self).slots(), completion.operation_id.spec_get());
            assert(own_completion(was));
            assert forall|k: int| 0 <= k < is.stream@.len() implies (
            #[trigger] is.stream@[k]).operation_id.spec_get() == is.id by {
                if k < was.stream@.len() {
                    assert(was.stream@[k] == is.stream@[k]);
                }
            }
            assert(own_completion(is));
            lemma_update_keeps_ids(old(self).slots(), self.slots@, i as int);
            lemma_same_ids_keep_wf(*old(self), *self);
        }
        true
    }

    /// Drains every chunk completion of the streams in order and drops the
    /// others.
    pub fn take_stream_completions(&mut self) -> (taken: Vec<StreamChunkCompletion>)
        requires
            old(self).wf(),
        ensures
            final(self).wf(),
            taken@ == stream_chunks(old(self).slots()),
            streams_drained(*old(self), *final(self)),
    {
        let ghost before = self.slots@;
        let mut taken: Vec<StreamChunkCompletion> = Vec::new();
        let mut i: usize = 0;
        proof {
            assert(before.take(0) =~= Seq::<Slot>::empty());
        }
        while i < self.slots.len()
            invariant
                self.slots@.len() == before.len(),
                i <= before.len(),
                taken@ == stream_chunks(before.take(i as int)),
                forall|k: int|
                    0 <= k < i ==> {
                        let after = #[trigger] self.slots@[k];
                        &&& after.stream@ == Seq::<StreamChunkCompletion>::empty()
                        &&& after.id == before[k].id
                        &&& after.queued == before[k].queued
                        &&& after.completion == before[k].completion
                        &&& after.chunked == before[k].chunked
                        &&& after.reader == before[k].reader
                    },
                forall|k: int| i <= k < before.len() ==> #[trigger] self.slots@[k] == before[k],
                self.same_setup(*old(self)),
            decreases before.len() - i,
        {
            proof {
                let here = before.take(i + 1);
                assert(here.drop_last() =~= before.take(i as int));
                assert(here.last() == before[i as int]);
            }
            let ghost so_far = taken@;
            if self.slots[i].queued {
                taken.append(&mut self.slots[i].stream);
            } else {
                self.slots[i].stream.clear();
                assert(so_far + Seq::<StreamChunkCompletion>::empty() =~= so_far);
            }
            i = i + 1;
        }
        proof {
            assert(before.take(i as int) =~= before);
            lemma_same_ids_keep_wf(*old(self), *self);
        }
        taken
    }

    /// Shuts the bridge down: every operation loses its slot, and nothing is
    /// taken in any more. Returns the operations whose work is to be cancelled;
    /// a second call returns none.
    pub fn shutdown(&mut self) -> (cancelled: Vec<u64>)
        requires
            old(self).wf(),
        ensures
            final(self).wf(),
            final(self).is_closed(),
            final(self).slots() == Seq::<Slot>::empty(),
            final(self).limit() == old(self).limit(),
            final(self).cap() == old(self).cap(),
            final(self).next_id() == old(self).next_id(),
            final(self).out_of_ids() == old(self).out_of_ids(),
            final(self).context() == old(self).context(),
            cancelled@ == slot_ids(old(self).slots()),
    {
        let mut cancelled: Vec<u64> = Vec::new();
        let mut i: usize = 0;
        while i < self.slots.len()
            invariant
                i <= self.slots@.len(),
                cancelled@ =~= slot_ids(self.slots@).take(i as int),
            decreases self.slots@.len() - i,
        {
            cancelled.push(self.slots[i].id);
            i = i + 1;
        }
        assert(slot_ids(self.slots@).take(i as int) =~= slot_ids(self.slots@));
        self.slots.clear();
        self.shutdown = true;
        cancelled
    }
}

/// Whether the whole reads that are due were taken, and nothing else.
pub open spec fn reads_drained(before: IoBridge, after: IoBridge) -> bool {
    &&& after.same_setup(before)
    &&& after.slots().len() == before.slots().len()
    &&& forall|i: int|
        0 <= i < before.slots().len() ==> is_drained_slot(
            before.slots(),
            i,
            #[trigger] after.slots()[i],
        )
}

/// Whether the reader chunks of every slot were taken, and nothing else.
pub open spec fn readers_drained(before: IoBridge, after: IoBridge) -> bool {
    &&& after.same_setup(before)
    &&& after.slots().len() == before.slots().len()
    &&& forall|i: int|
        0 <= i < before.slots().len() ==> {
            let was = before.slots()[i];
            let is = #[trigger] after.slots()[i];
            &&& is.reader@ == Seq::<FileReaderChunkCompletion>::empty()
            &&& is.id == was.id
            &&& is.queued == was.queued
            &&& is.completion == was.completion
            &&& is.chunked == was.chunked
            &&& is.stream == was.stream
        }
}

/// Whether the stream chunks of every slot were taken, and nothing else.
pub open spec fn streams_drained(before: IoBridge, after: IoBridge) -> bool {
    &&& after.same_setup(before)
    &&& after.slots().len() == before.slots().len()
    &&& forall|i: int|
        0 <= i < before.slots().len() ==> {
            let was = before.slots()[i];
            let is = #[trigger] after.slots()[i];
            &&& is.stream@ == Seq::<StreamChunkCompletion>::empty()
            &&& is.id == was.id
            &&& is.queued == was.queued
            &&& is.completion == was.completion
            &&& is.chunked == was.chunked
            &&& is.reader == was.reader
        }
}

/// What putting a reader chunk back does: it comes first again, unless its
/// operation has no slot any more.
pub open spec fn requeued(
    before: IoBridge,
    completion: FileReaderChunkCompletion,
    after: IoBridge,
    accepted: bool,
) -> bool {
    let at = slot_of(before.slots(), completion.operation_id.spec_get());
    &&& after.same_setup(before)
    &&& accepted == delivery_counts(before.is_closed(), at is Some, false)
    &&& !accepted ==> after.slots() == before.slots()
    &&& accepted ==> only_slot_changed(before.slots(), after.slots(), at->0) && ({
        let was = before.slots()[at->0];
        let is = after.slots()[at->0];
        &&& is.reader@ == seq![completion] + was.reader@
        &&& is.queued == was.queued
        &&& is.completion == was.completion
        &&& is.chunked == was.chunked
        &&& is.stream == was.stream
    })
}

/// The operations that hold slots.
pub open spec fn slot_ids(slots: Seq<Slot>) -> Seq<u64> {
    Seq::new(slots.len(), |i: int| slots[i].id)
}

/// At most the slot at `at` differs, and its operation stays.
pub open spec fn only_slot_changed(before: Seq<Slot>, after: Seq<Slot>, at: int) -> bool {
    &&& after.len() == before.len()
    &&& after[at].id == before[at].id
    &&& forall|k: int| 0 <= k < before.len() && k != at ==> #[trigger] after[k] == before[k]
}

proof fn lemma_update_keeps_ids(before: Seq<Slot>, after: Seq<Slot>, at: int)
    requires
        ids_increase(before),
        0 <= at < before.len(),
        after.len() == before.len(),
        after[at].id == before[at].id,
        forall|k: int| 0 <= k < before.len() && k != at ==> after[k] == #[trigger] before[k],
    ensures
        ids_increase(after),
        forall|k: int| 0 <= k < before.len() ==> (#[trigger] after[k]).id == before[k].id,
{
    assert forall|k: int| 0 <= k < before.len() implies (#[trigger] after[k]).id
        == before[k].id by {
        if k != at {
            assert(after[k] == before[k]);
        }
    }
    lemma_same_ids_keep_order(before, after);
}

proof fn lemma_same_ids_keep_wf(before: IoBridge, after: IoBridge)
    requires
        before.wf(),
        after.same_setup(before),
        after.slots().len() == before.slots().len(),
        forall|k: int|
            0 <= k < before.slots().len() ==> (#[trigger] after.slots()[k]).id
                == before.slots()[k].id && (same_completions(after.slots()[k], before.slots()[k])
                || own_completion(after.slots()[k])),
    ensures
        after.wf(),
{
    lemma_same_ids_keep_order(before.slots(), after.slots());
    assert forall|k: int| 0 <= k < after.slots().len() implies 0 < (
    #[trigger] after.slots()[k]).id < after.next_id() by {
        assert(0 < before.slots()[k].id);
    }
    assert forall|k: int| 0 <= k < after.slots().len() implies own_completion(
        #[trigger] after.slots()[k],
    ) by {
        assert(own_completion(before.slots()[k]));
    }
    if after.is_closed() {
        assert(after.slots() =~= Seq::<Slot>::empty());
    }
}

proof fn lemma_same_ids_keep_order(before: Seq<Slot>, after: Seq<Slot>)
    requires
        ids_increase(before),
        after.len() == before.len(),
        forall|k: int| 0 <= k < before.len() ==> (#[trigger] after[k]).id == before[k].id,
    ensures
        ids_increase(after),
{
    assert forall|i: int, j: int| 0 <= i < j < after.len() implies (#[trigger] after[i]).id < (
    #[trigger] after[j]).id by {
        assert(before[i].id < before[j].id);
    }
}

/// A late completion changes nothing: an operation that was released holds no
/// slot, so nothing that names it is taken in.
pub proof fn lemma_released_operation_is_gone(slots: Seq<Slot>, id: u64)
    requires
        ids_increase(slots),
        slot_of(slots, id) is Some,
    ensures
        !is_live(slots.remove(slot_of(slots, id)->0), id),
{
    lemma_slot_of(slots, id);
    let at = slot_of(slots, id)->0;
    let rest = slots.remove(at);
    lemma_slot_of(rest, id);
    if slot_of(rest, id) is Some {
        let k = slot_of(rest, id)->0;
        if k < at {
            assert(slots[k].id < slots[at].id);
        } else {
            assert(rest[k] == slots[k + 1]);
            assert(slots[at].id < slots[k + 1].id);
        }
    }
}

/// Releasing one operation leaves every other operation its slot.
pub proof fn lemma_release_keeps_others(slots: Seq<Slot>, id: u64, other: u64)
    requires
        ids_increase(slots),
        slot_of(slots, id) is Some,
        slot_of(slots, other) is Some,
        id != other,
    ensures
        ({
            let rest = slots.remove(slot_of(slots, id)->0);
            &&& is_live(rest, other)
            &&& rest[slot_of(rest, other)->0] == slots[slot_of(slots, other)->0]
        }),
{
    lemma_slot_of(slots, id);
    lemma_slot_of(slots, other);
    let at = slot_of(slots, id)->0;
    let there = slot_of(slots, other)->0;
    let rest = slots.remove(at);
    let moved = if there < at {
        there
    } else {
        there - 1
    };
    assert(rest[moved] == slots[there]);
    assert forall|i: int, j: int| 0 <= i < j < rest.len() implies (#[trigger] rest[i]).id < (
    #[trigger] rest[j]).id by {
        let x = if i < at {
            i
        } else {
            i + 1
        };
        let y = if j < at {
            j
        } else {
            j + 1
        };
        assert(slots[x].id < slots[y].id);
    }
    lemma_slot_of_is(rest, other, moved);
}

/// A reservation that is released again leaves the slots as they were.
pub proof fn lemma_reserve_release_round_trip(slots: Seq<Slot>, fresh: Slot)
    requires
        ids_increase(slots.push(fresh)),
    ensures
        slot_of(slots.push(fresh), fresh.id) == Some(slots.len() as int),
        slots.push(fresh).remove(slots.len() as int) == slots,
{
    assert(slots.push(fresh).last() == fresh);
    assert(slots.push(fresh).remove(slots.len() as int) =~= slots);
}

/// Whole reads settle in submission order: the operations of the drained
/// completions are increasing.
pub proof fn lemma_due_in_submission_order(slots: Seq<Slot>, i: int, j: int)
    requires
        ids_increase(slots),
        forall|k: int| 0 <= k < slots.len() ==> own_completion(#[trigger] slots[k]),
        0 <= i < j < due_completions(slots).len(),
    ensures
        due_completions(slots)[i].operation_id.spec_get()
            < due_completions(slots)[j].operation_id.spec_get(),
    decreases slots.len(),
{
    let first = slots[0];
    let rest = slots.skip(1);
    assert forall|a: int, b: int| 0 <= a < b < rest.len() implies (#[trigger] rest[a]).id < (
    #[trigger] rest[b]).id by {
        assert(slots[a + 1].id < slots[b + 1].id);
    }
    assert forall|k: int| 0 <= k < rest.len() implies own_completion(#[trigger] rest[k]) by {
        assert(own_completion(slots[k + 1]));
    }
    if !first.queued || first.chunked {
        lemma_due_in_submission_order(rest, i, j);
    } else {
        let tail = due_completions(rest);
        assert(due_completions(slots) == seq![first.completion->0] + tail);
        if i > 0 {
            lemma_due_in_submission_order(rest, i - 1, j - 1);
        } else {
            lemma_due_comes_from_slot(rest, j - 1);
            let k = choose|k: int|
                0 <= k < rest.len() && (#[trigger] rest[k]).completion == Some(tail[j - 1]);
            assert(own_completion(rest[k]));
            assert(slots[0].id < slots[k + 1].id);
            assert(own_completion(slots[0]));
        }
    }
}

/// Every drained completion comes from a slot.
pub proof fn lemma_due_comes_from_slot(slots: Seq<Slot>, i: int)
    requires
        0 <= i < due_completions(slots).len(),
    ensures
        exists|k: int|
            0 <= k < slots.len() && (#[trigger] slots[k]).completion == Some(
                due_completions(slots)[i],
            ),
    decreases slots.len(),
{
    let first = slots[0];
    let rest = slots.skip(1);
    if !first.queued || first.chunked {
        lemma_due_comes_from_slot(rest, i);
        let k = choose|k: int|
            0 <= k < rest.len() && (#[trigger] rest[k]).completion == Some(
                due_completions(rest)[i],
            );
        assert(slots[k + 1] == rest[k]);
    } else if i == 0 {
        assert(slots[0].completion == Some(due_completions(slots)[0]));
    } else {
        assert(due_completions(slots)[i] == due_completions(rest)[i - 1]);
        lemma_due_comes_from_slot(rest, i - 1);
        let k = choose|k: int|
            0 <= k < rest.len() && (#[trigger] rest[k]).completion == Some(
                due_completions(rest)[i - 1],
            );
        assert(slots[k + 1] == rest[k]);
    }
}

/// An operation that reads in chunks never holds a whole read up, whether or not
/// a chunk of it has come: the whole reads that settle are those that would
/// settle without its slot.
pub proof fn lemma_chunked_never_blocks(slots: Seq<Slot>, at: int)
    requires
        0 <= at < slots.len(),
        slots[at].chunked,
    ensures
        due_completions(slots) == due_completions(slots.remove(at)),
    decreases slots.len(),
{
    if at == 0 {
        assert(slots.remove(0) =~= slots.skip(1));
    } else {
        lemma_chunked_never_blocks(slots.skip(1), at - 1);
        assert(slots.remove(at).skip(1) =~= slots.skip(1).remove(at - 1));
    }
}

/// An unfinished whole read at the front of the order holds every later whole
/// read back.
pub proof fn lemma_unfinished_read_blocks(slots: Seq<Slot>)
    requires
        slots.len() > 0,
        slots[0].queued,
        !slots[0].chunked,
        slots[0].completion is None,
    ensures
        due_completions(slots) == Seq::<FileIoCompletion>::empty(),
{
}

/// Whether `after` is `before` with one more slot, of the next operation;
/// `chunked` says whether that operation reads in chunks.
pub open spec fn slot_reserved(
    before: IoBridge,
    after: IoBridge,
    operation: u64,
    chunked: bool,
) -> bool {
    &&& operation == before.next_id()
    &&& after.next_id() == operation + 1
    &&& after.limit() == before.limit()
    &&& after.cap() == before.cap()
    &&& after.out_of_ids() == before.out_of_ids()
    &&& after.is_closed() == before.is_closed()
    &&& after.context() == before.context()
    &&& after.slots().len() == before.slots().len() + 1
    &&& after.slots().drop_last() == before.slots()
    &&& is_fresh_slot(after.slots().last(), operation, chunked)
}

/// What a refused reservation leaves: the same slots, and a note where the
/// identifiers turned out to be used up.
pub open spec fn reservation_refused(before: IoBridge, after: IoBridge) -> bool {
    &&& after.limit() == before.limit()
    &&& after.cap() == before.cap()
    &&& after.is_closed() == before.is_closed()
    &&& after.context() == before.context()
    &&& after.slots() == before.slots()
    &&& after.out_of_ids() ==> before.out_of_ids() || before.next_id() == 0 || before.next_id()
        == u64::MAX
    &&& before.out_of_ids() ==> after.out_of_ids()
    &&& after.next_id() == before.next_id() || after.next_id() == u64::MAX && after.out_of_ids()
}

/// Whether what a worker delivers is taken in and the host woken for it: the
/// runtime is open, the operation holds its slot, and the read was not
/// completed before.
pub open spec fn delivery_counts(closed: bool, live: bool, completed: bool) -> bool {
    !closed && live && !completed
}

/// Whether what a worker delivers is taken in and the host woken for it.
pub fn takes_delivery(closed: bool, live: bool, completed: bool) -> (taken: bool)
    ensures
        taken == delivery_counts(closed, live, completed),
{
    !closed && live && !completed
}

/// Whether the completion of a whole read was taken in, unless it was late.
pub open spec fn taken_in(
    before: IoBridge,
    after: IoBridge,
    completion: FileIoCompletion,
    accepted: bool,
) -> bool {
    let at = slot_of(before.slots(), completion.operation_id.spec_get());
    &&& after.same_setup(before)
    &&& accepted == delivery_counts(
        before.is_closed(),
        at is Some,
        before.slots()[at->0].completion is Some,
    )
    &&& after.slots() == if accepted {
        before.slots().update(
            at->0,
            Slot { completion: Some(completion), ..before.slots()[at->0] },
        )
    } else {
        before.slots()
    }
}

/// Whether a chunk completion of a `FileReader` was taken in, unless it was late.
pub open spec fn reader_chunk_taken_in(
    before: IoBridge,
    after: IoBridge,
    completion: FileReaderChunkCompletion,
    accepted: bool,
) -> bool {
    let at = slot_of(before.slots(), completion.operation_id.spec_get());
    &&& after.same_setup(before)
    &&& accepted == delivery_counts(before.is_closed(), at is Some, false)
    &&& !accepted ==> after.slots() == before.slots()
    &&& accepted ==> {
        let slot = before.slots()[at->0];
        let changed = after.slots()[at->0];
        &&& only_slot_changed(before.slots(), after.slots(), at->0)
        &&& changed.chunked
        &&& changed.reader@ == slot.reader@.push(completion)
        &&& changed.queued == slot.queued
        &&& changed.completion == slot.completion
        &&& changed.stream == slot.stream
    }
}

/// Whether a chunk completion of a stream was taken in, unless it was late.
pub open spec fn stream_chunk_taken_in(
    before: IoBridge,
    after: IoBridge,
    completion: StreamChunkCompletion,
    accepted: bool,
) -> bool {
    let at = slot_of(before.slots(), completion.operation_id.spec_get());
    &&& after.same_setup(before)
    &&& accepted == delivery_counts(before.is_closed(), at is Some, false)
    &&& !accepted ==> after.slots() == before.slots()
    &&& accepted ==> {
        let slot = before.slots()[at->0];
        let changed = after.slots()[at->0];
        &&& only_slot_changed(before.slots(), after.slots(), at->0)
        &&& changed.chunked
        &&& changed.stream@ == slot.stream@.push(completion)
        &&& changed.queued == slot.queued
        &&& changed.completion == slot.completion
        &&& changed.reader == slot.reader
    }
}

/// Whether a slot was reserved and given back: the same slots, and one operation
/// used up.
pub open spec fn reservation_undone(before: IoBridge, after: IoBridge) -> bool {
    &&& after.next_id() == before.next_id() + 1
    &&& after.limit() == before.limit()
    &&& after.cap() == before.cap()
    &&& after.out_of_ids() == before.out_of_ids()
    &&& after.is_closed() == before.is_closed()
    &&& after.context() == before.context()
    &&& after.slots() == before.slots()
}

/// Whether `after` is `before` with the slot of `operation` released.
pub open spec fn slot_released(before: IoBridge, after: IoBridge, operation: u64) -> bool {
    &&& after.same_setup(before)
    &&& after.slots() == match slot_of(before.slots(), operation) {
        Some(i) => before.slots().remove(i),
        None => before.slots(),
    }
}

/// Whether `after` is a sound bridge that is closed where `before` is, and in
/// which every operation but `lost` still has the slot it had, and still reads in
/// chunks where it did.
pub open spec fn bridge_keeps(before: IoBridge, after: IoBridge, lost: Option<u64>) -> bool {
    &&& after.wf()
    &&& after.is_closed() == before.is_closed()
    &&& forall|id: u64|
        is_live(before.slots(), id) && lost != Some(id) ==> #[trigger] is_live(after.slots(), id)
    &&& forall|id: u64|
        is_chunked(before.slots(), id) && lost != Some(id) ==> #[trigger] is_chunked(
            after.slots(),
            id,
        )
}

/// A bridge whose slots keep their operations keeps everyone.
pub proof fn lemma_same_ids_keep(before: IoBridge, after: IoBridge)
    requires
        after.wf(),
        after.is_closed() == before.is_closed(),
        after.slots().len() == before.slots().len(),
        forall|i: int|
            0 <= i < before.slots().len() ==> (#[trigger] after.slots()[i]).id
                == before.slots()[i].id && (before.slots()[i].chunked ==> after.slots()[i].chunked),
    ensures
        bridge_keeps(before, after, None),
{
    assert forall|id: u64| is_chunked(before.slots(), id) implies #[trigger] is_chunked(
        after.slots(),
        id,
    ) by {
        lemma_slot_of(before.slots(), id);
        let at = slot_of(before.slots(), id)->0;
        assert(after.slots()[at].id == id);
        lemma_slot_of_is(after.slots(), id, at);
    }
    assert forall|id: u64| is_live(before.slots(), id) implies #[trigger] is_live(
        after.slots(),
        id,
    ) by {
        lemma_slot_of(before.slots(), id);
        lemma_slot_of(after.slots(), id);
        let at = slot_of(before.slots(), id)->0;
        assert(after.slots()[at].id == id);
    }
}

/// A released slot is the only one lost.
pub proof fn lemma_release_keeps(before: IoBridge, after: IoBridge, operation: u64)
    requires
        before.wf(),
        after.wf(),
        slot_released(before, after, operation),
    ensures
        bridge_keeps(before, after, Some(operation)),
{
    assert forall|id: u64| is_chunked(before.slots(), id) && Some(operation) != Some(
        id,
    ) implies #[trigger] is_chunked(after.slots(), id) by {
        if slot_of(before.slots(), operation) is Some {
            lemma_release_keeps_others(before.slots(), operation, id);
        }
    }
    assert forall|id: u64| is_live(before.slots(), id) && Some(operation) != Some(
        id,
    ) implies #[trigger] is_live(after.slots(), id) by {
        if slot_of(before.slots(), operation) is Some {
            lemma_release_keeps_others(before.slots(), operation, id);
        }
    }
}

/// A reserved slot takes nobody else's.
pub proof fn lemma_reserve_keeps(before: IoBridge, after: IoBridge)
    requires
        after.wf(),
        after.is_closed() == before.is_closed(),
        after.slots().len() == before.slots().len() + 1,
        after.slots().drop_last() == before.slots(),
    ensures
        bridge_keeps(before, after, None),
{
    assert forall|id: u64| is_chunked(before.slots(), id) implies #[trigger] is_chunked(
        after.slots(),
        id,
    ) by {
        lemma_slot_of(before.slots(), id);
        let at = slot_of(before.slots(), id)->0;
        assert(after.slots()[at] == before.slots()[at]);
        lemma_slot_of_is(after.slots(), id, at);
    }
    assert forall|id: u64| is_live(before.slots(), id) implies #[trigger] is_live(
        after.slots(),
        id,
    ) by {
        lemma_slot_of(before.slots(), id);
        lemma_slot_of(after.slots(), id);
        let at = slot_of(before.slots(), id)->0;
        assert(after.slots()[at] == before.slots()[at]);
    }
}


/// A slot is given out exactly while the bridge is open, fewer slots are taken
/// than the ceiling allows and identifiers are left; its identifier is above
/// every one that is taken, and nothing else changes.
pub proof fn lemma_slots_are_given_up_to_the_ceiling(
    bridge: &mut IoBridge,
    result: Result<FileIoOperationId, ReserveError>,
    at: int,
)
    requires
        bridge.wf(),
        call_ensures(IoBridge::reserve, (bridge,), result),
        0 <= at < bridge.slots().len() || bridge.slots().len() == 0,
    ensures
        old(bridge).is_closed() ==> result == Err::<FileIoOperationId, ReserveError>(
            ReserveError::Shutdown,
        ),
        !old(bridge).is_closed() && old(bridge).slots().len() >= old(bridge).limit() ==> result
            == Err::<FileIoOperationId, ReserveError>(ReserveError::QuotaFull),
        !old(bridge).is_closed() && old(bridge).slots().len() < old(bridge).limit()
            && !old(bridge).out_of_ids() && 0 < old(bridge).next_id() < u64::MAX ==> result is Ok,
        result matches Ok(id) ==> {
            &&& old(bridge).slots().len() < old(bridge).limit()
            &&& final(bridge).slots().len() == old(bridge).slots().len() + 1
            &&& old(bridge).slots().len() > 0 ==> final(bridge).slots()[at]
                == old(bridge).slots()[at] && old(bridge).slots()[at].id < id.spec_get()
            &&& final(bridge).slots().last().id == id.spec_get()
            &&& final(bridge).slots().last().completion is None
            &&& final(bridge).next_id() > id.spec_get()
        },
        result is Err ==> final(bridge).slots() == old(bridge).slots(),
{
    lemma_completed_bounds(bridge.slots());
    if result is Ok && bridge.slots().len() > 0 {
        let after = final(bridge).slots();
        assert(after.drop_last()[at] == after[at]);
    }
}

/// A slot that is released is free again, whatever it held, and every other slot
/// stays as it is; releasing it once more does nothing.
pub proof fn lemma_only_the_released_slot_is_freed(
    bridge: &mut IoBridge,
    operation_id: FileIoOperationId,
    released: bool,
    other: u64,
)
    requires
        bridge.wf(),
        call_ensures(IoBridge::release, (bridge, operation_id), released),
    ensures
        released <==> exists|i: int|
            0 <= i < old(bridge).slots().len() && (#[trigger] old(bridge).slots()[i]).id
                == operation_id.spec_get(),
        forall|i: int|
            0 <= i < final(bridge).slots().len() ==> (#[trigger] final(bridge).slots()[i]).id
                != operation_id.spec_get(),
        other != operation_id.spec_get() ==> (is_live(final(bridge).slots(), other) <==> is_live(
            old(bridge).slots(),
            other,
        )),
        final(bridge).slots().len() == old(bridge).slots().len() - if released {
            1int
        } else {
            0
        },
        !released ==> final(bridge).slots() == old(bridge).slots(),
{
    let before = bridge.slots();
    let after = final(bridge).slots();
    let id = operation_id.spec_get();
    lemma_slot_of(before, id);
    lemma_slot_of(before, other);
    lemma_slot_of(after, other);
    lemma_slot_of(after, id);
    if released {
        lemma_released_operation_is_gone(before, id);
        let at = slot_of(before, id)->0;
        assert(before[at].id == id);
        if other != id && is_live(before, other) {
            lemma_release_keeps_others(before, id, other);
        }
        if is_live(after, other) {
            let i = slot_of(after, other)->0;
            if i < at {
                assert(after[i] == before[i]);
            } else {
                assert(after[i] == before[i + 1]);
            }
        }
    }
}

/// Whether the completion of slot `i` may be handed out: it is there, and no
/// earlier read still lacks its own.
pub open spec fn comes_next(slots: Seq<Slot>, i: int) -> bool {
    &&& slots[i].queued && !slots[i].chunked && slots[i].completion is Some
    &&& forall|k: int|
        0 <= k < i && (#[trigger] slots[k]).queued && !slots[k].chunked ==> slots[k].completion
            is Some
}

/// Whether `completion` is one that may be handed out.
pub open spec fn is_handed_out(slots: Seq<Slot>, completion: FileIoCompletion) -> bool {
    exists|i: int|
        0 <= i < slots.len() && #[trigger] comes_next(slots, i) && slots[i].completion == Some(
            completion,
        )
}

/// Draining hands out the completion of each read whose earlier reads are all
/// complete, of no other, each once and in the order of the reservations.
pub proof fn lemma_reads_come_out_in_order(
    bridge: &mut IoBridge,
    taken: Vec<FileIoCompletion>,
    slot: int,
    first: int,
    second: int,
)
    requires
        bridge.wf(),
        call_ensures(IoBridge::take_completions, (bridge,), taken),
        0 <= slot < bridge.slots().len(),
        0 <= first < second < taken@.len() || taken@.len() < 2,
    ensures
        comes_next(old(bridge).slots(), slot) ==> taken@.contains(
            old(bridge).slots()[slot].completion->0,
        ) && final(bridge).slots()[slot].completion is None && !final(bridge).slots()[slot].queued,
        old(bridge).slots()[slot].completion is Some && old(bridge).slots()[slot].queued
            && !comes_next(old(bridge).slots(), slot) ==> !taken@.contains(
            old(bridge).slots()[slot].completion->0,
        ) && final(bridge).slots()[slot].completion == old(bridge).slots()[slot].completion,
        forall|j: int|
            0 <= j < taken@.len() ==> is_handed_out(old(bridge).slots(), #[trigger] taken@[j]),
        taken@.len() >= 2 ==> taken@[first].operation_id.spec_get()
            < taken@[second].operation_id.spec_get(),
{
    let slots = bridge.slots();
    lemma_due_are_next(slots);
    if taken@.len() >= 2 {
        lemma_due_in_submission_order(slots, first, second);
    }
    lemma_blocked_is_not_next(slots, slot);
    let was = slots[slot];
    if was.completion is Some && was.queued && !comes_next(slots, slot) && taken@.contains(
        was.completion->0,
    ) {
        let j = choose|j: int| 0 <= j < taken@.len() && taken@[j] == was.completion->0;
        assert(is_handed_out(slots, taken@[j]));
        let i = choose|i: int|
            0 <= i < slots.len() && #[trigger] comes_next(slots, i) && slots[i].completion == Some(
                taken@[j],
            );
        assert(own_completion(slots[i]));
        assert(own_completion(slots[slot]));
        assert(slots[i].id == slots[slot].id);
        assert(i == slot);
    }
}

proof fn lemma_blocked_is_not_next(slots: Seq<Slot>, i: int)
    requires
        0 <= i < slots.len(),
    ensures
        comes_next(slots, i) <==> is_due(slots, i),
{
    let front = slots.take(i);
    if is_due(slots, i) {
        assert forall|k: int|
            0 <= k < i && (#[trigger] slots[k]).queued
                && !slots[k].chunked implies slots[k].completion is Some by {
            assert(front[k] == slots[k]);
        }
    }
}

pub(crate) proof fn lemma_due_are_next(slots: Seq<Slot>)
    ensures
        forall|j: int|
            0 <= j < due_completions(slots).len() ==> is_handed_out(
                slots,
                #[trigger] due_completions(slots)[j],
            ),
        forall|i: int|
            0 <= i < slots.len() && #[trigger] comes_next(slots, i) ==> due_completions(
                slots,
            ).contains(slots[i].completion->0),
    decreases slots.len(),
{
    let due = due_completions(slots);
    if slots.len() > 0 {
        let first = slots[0];
        let rest = slots.skip(1);
        lemma_due_are_next(rest);
        let later = due_completions(rest);
        let counts = first.queued && !first.chunked;
        assert forall|j: int| 0 <= j < due.len() implies is_handed_out(
            slots,
            #[trigger] due[j],
        ) by {
            if counts && j == 0 {
                assert(comes_next(slots, 0));
            } else {
                let at = if counts {
                    j - 1
                } else {
                    j
                };
                assert(due[j] == later[at]);
                assert(is_handed_out(rest, later[at]));
                let i = choose|i: int|
                    0 <= i < rest.len() && #[trigger] comes_next(rest, i) && rest[i].completion
                        == Some(later[at]);
                assert forall|k: int|
                    0 <= k < i + 1 && (#[trigger] slots[k]).queued
                        && !slots[k].chunked implies slots[k].completion is Some by {
                    if k > 0 {
                        assert(rest[k - 1] == slots[k]);
                    }
                }
                assert(rest[i] == slots[i + 1]);
                assert(comes_next(slots, i + 1));
            }
        }
        assert forall|i: int| 0 <= i < slots.len() && #[trigger] comes_next(slots, i) implies due.contains(
            slots[i].completion->0,
        ) by {
            if i == 0 {
                assert(due[0] == first.completion->0);
            } else {
                assert(rest[i - 1] == slots[i]);
                assert forall|k: int|
                    0 <= k < i - 1 && (#[trigger] rest[k]).queued
                        && !rest[k].chunked implies rest[k].completion is Some by {
                    assert(rest[k] == slots[k + 1]);
                }
                assert(comes_next(rest, i - 1));
                let j = choose|j: int| 0 <= j < later.len() && later[j] == slots[i].completion->0;
                if counts {
                    assert(due[j + 1] == later[j]);
                } else {
                    assert(due[j] == later[j]);
                }
            }
        }
    }
}

/// A completion is taken in exactly when its slot is taken, holds none yet and
/// the bridge is open; it is then what that slot holds, and no other slot changes.
pub proof fn lemma_completions_reach_their_slot(
    bridge: &mut IoBridge,
    completion: FileIoCompletion,
    accepted: bool,
    slot: int,
)
    requires
        bridge.wf(),
        call_ensures(IoBridge::push_completion, (bridge, completion), accepted),
        0 <= slot < bridge.slots().len(),
    ensures
        old(bridge).is_closed() ==> !accepted,
        !accepted ==> final(bridge).slots() == old(bridge).slots(),
        old(bridge).slots()[slot].id == completion.operation_id.spec_get()
            && !old(bridge).is_closed() ==> {
            &&& accepted <==> old(bridge).slots()[slot].completion is None
            &&& accepted ==> final(bridge).slots()[slot].completion == Some(completion)
        },
        old(bridge).slots()[slot].id != completion.operation_id.spec_get()
            ==> final(bridge).slots()[slot] == old(bridge).slots()[slot],
        accepted ==> exists|i: int|
            0 <= i < old(bridge).slots().len() && (#[trigger] old(bridge).slots()[i]).id
                == completion.operation_id.spec_get(),
{
    let id = completion.operation_id.spec_get();
    lemma_slot_of(bridge.slots(), id);
    if bridge.slots()[slot].id == id {
        lemma_slot_of_is(bridge.slots(), id, slot);
    }
}

/// A chunk of a reader waits behind the earlier chunks of its own operation, and
/// one that is put back before them; no other operation's chunks change.
pub proof fn lemma_reader_chunks_wait_in_line(
    bridge: &mut IoBridge,
    completion: FileReaderChunkCompletion,
    accepted: bool,
    again: &mut IoBridge,
    back: FileReaderChunkCompletion,
    put_back: bool,
    slot: int,
    place: int,
)
    requires
        bridge.wf(),
        again.wf(),
        call_ensures(IoBridge::push_reader_completion, (bridge, completion), accepted),
        call_ensures(IoBridge::requeue_reader_completion, (again, back), put_back),
        0 <= slot < bridge.slots().len(),
        0 <= place < again.slots().len(),
    ensures
        old(bridge).slots()[slot].id == completion.operation_id.spec_get()
            && !old(bridge).is_closed() ==> accepted && final(bridge).slots()[slot].reader@
            == old(bridge).slots()[slot].reader@.push(completion),
        old(bridge).slots()[slot].id != completion.operation_id.spec_get()
            ==> final(bridge).slots()[slot] == old(bridge).slots()[slot],
        old(again).slots()[place].id == back.operation_id.spec_get() && !old(again).is_closed()
            ==> put_back && final(again).slots()[place].reader@ == seq![back]
            + old(again).slots()[place].reader@,
        old(again).slots()[place].id != back.operation_id.spec_get()
            ==> final(again).slots()[place] == old(again).slots()[place],
{
    let id = completion.operation_id.spec_get();
    lemma_slot_of(bridge.slots(), id);
    if bridge.slots()[slot].id == id {
        lemma_slot_of_is(bridge.slots(), id, slot);
    }
    let other = back.operation_id.spec_get();
    lemma_slot_of(again.slots(), other);
    if again.slots()[place].id == other {
        lemma_slot_of_is(again.slots(), other, place);
    }
}

/// Draining the readers hands out the chunks of each operation together and in
/// order, and leaves none behind; nothing but waiting chunks is handed out.
pub proof fn lemma_reader_chunks_come_out_together(
    bridge: &mut IoBridge,
    taken: Vec<FileReaderChunkCompletion>,
    slot: int,
)
    requires
        bridge.wf(),
        call_ensures(IoBridge::take_reader_completions, (bridge,), taken),
        0 <= slot < bridge.slots().len(),
    ensures
        old(bridge).slots()[slot].queued ==> exists|from: int| #[trigger]
            stands_at(taken@, old(bridge).slots()[slot].reader@, from),
        final(bridge).slots()[slot].reader@.len() == 0,
        forall|j: int|
            0 <= j < taken@.len() ==> chunk_waits(old(bridge).slots(), #[trigger] taken@[j]),
{
    lemma_reader_chunks_stand(bridge.slots(), slot);
}

/// Whether `chunk` waits in some slot.
pub open spec fn chunk_waits(slots: Seq<Slot>, chunk: FileReaderChunkCompletion) -> bool {
    exists|i: int|
        0 <= i < slots.len() && (#[trigger] slots[i]).queued && slots[i].reader@.contains(chunk)
}

/// Whether `part` stands in `whole` at `from`.
pub open spec fn stands_at<T>(whole: Seq<T>, part: Seq<T>, from: int) -> bool {
    0 <= from && from + part.len() <= whole.len() && whole.subrange(from, from + part.len()) == part
}

proof fn lemma_reader_chunks_stand(slots: Seq<Slot>, slot: int)
    requires
        0 <= slot < slots.len(),
    ensures
        slots[slot].queued ==> exists|from: int| #[trigger]
            stands_at(reader_chunks(slots), slots[slot].reader@, from),
        forall|j: int|
            0 <= j < reader_chunks(slots).len() ==> chunk_waits(
                slots,
                #[trigger] reader_chunks(slots)[j],
            ),
    decreases slots.len(),
{
    let front = slots.drop_last();
    let last = slots.last();
    let before = reader_chunks(front);
    let whole = reader_chunks(slots);
    if slot == slots.len() - 1 {
        if last.queued {
            assert(whole.subrange(
                before.len() as int,
                before.len() as int + last.reader@.len(),
            ) =~= last.reader@);
            assert(stands_at(whole, slots[slot].reader@, before.len() as int));
        }
    } else {
        lemma_reader_chunks_stand(front, slot);
        if slots[slot].queued {
            let part = slots[slot].reader@;
            let from = choose|from: int| #[trigger] stands_at(before, front[slot].reader@, from);
            assert(whole.subrange(from, from + part.len()) =~= before.subrange(
                from,
                from + part.len(),
            ));
            assert(stands_at(whole, part, from));
        }
    }
    assert forall|j: int| 0 <= j < whole.len() implies chunk_waits(slots, #[trigger] whole[j]) by {
        if j < before.len() {
            lemma_reader_chunks_stand(front, 0);
            assert(chunk_waits(front, before[j]));
            let i = choose|i: int|
                0 <= i < front.len() && (#[trigger] front[i]).queued && front[i].reader@.contains(
                    before[j],
                );
            assert(slots[i].queued && slots[i].reader@.contains(whole[j]));
        } else {
            let k = j - before.len();
            assert(last.reader@[k] == whole[j]);
            assert(slots[slots.len() - 1].queued);
        }
    }
}

/// The shutdown names every operation that was under way, in order, and leaves
/// none: nothing is reserved after it and nothing is taken in.
pub proof fn lemma_shutdown_ends_every_operation(
    bridge: &mut IoBridge,
    cancelled: Vec<u64>,
    slot: int,
)
    requires
        bridge.wf(),
        call_ensures(IoBridge::shutdown, (bridge,), cancelled),
        0 <= slot < bridge.slots().len() || bridge.slots().len() == 0,
    ensures
        cancelled@.len() == old(bridge).slots().len(),
        old(bridge).slots().len() > 0 ==> cancelled@[slot] == old(bridge).slots()[slot].id,
        final(bridge).slots().len() == 0,
        final(bridge).is_closed(),
{
}

/// A new bridge allows as many operations at a time as was asked for, and always
/// one, and holds at least twice as many completions.
pub proof fn lemma_new_bridges_are_empty(
    context_id: FileApiContextId,
    concurrency_limit: usize,
    bridge: IoBridge,
)
    requires
        call_ensures(IoBridge::new, (context_id, concurrency_limit), bridge),
    ensures
        bridge.slots().len() == 0,
        !bridge.is_closed(),
        bridge.context() == context_id,
        concurrency_limit > 0 ==> bridge.limit() == concurrency_limit,
        concurrency_limit == 0 ==> bridge.limit() == 1,
        bridge.cap() >= 64,
        2 * bridge.limit() <= usize::MAX ==> bridge.cap() >= 2 * bridge.limit(),
{
}


/// A chunk of a stream waits behind the earlier chunks of its own operation, and
/// draining the streams hands out the chunks of each operation together and in
/// order and leaves none behind.
pub proof fn lemma_stream_chunks_wait_in_line(
    bridge: &mut IoBridge,
    completion: StreamChunkCompletion,
    accepted: bool,
    drained: &mut IoBridge,
    taken: Vec<StreamChunkCompletion>,
    slot: int,
    place: int,
)
    requires
        bridge.wf(),
        drained.wf(),
        call_ensures(IoBridge::push_stream_completion, (bridge, completion), accepted),
        call_ensures(IoBridge::take_stream_completions, (drained,), taken),
        0 <= slot < bridge.slots().len(),
        0 <= place < drained.slots().len(),
    ensures
        old(bridge).slots()[slot].id == completion.operation_id.spec_get()
            && !old(bridge).is_closed() ==> accepted && final(bridge).slots()[slot].stream@
            == old(bridge).slots()[slot].stream@.push(completion),
        old(bridge).slots()[slot].id != completion.operation_id.spec_get()
            ==> final(bridge).slots()[slot] == old(bridge).slots()[slot],
        old(drained).slots()[place].queued ==> exists|from: int| #[trigger]
            stands_at(taken@, old(drained).slots()[place].stream@, from),
        final(drained).slots()[place].stream@.len() == 0,
{
    let id = completion.operation_id.spec_get();
    lemma_slot_of(bridge.slots(), id);
    if bridge.slots()[slot].id == id {
        lemma_slot_of_is(bridge.slots(), id, slot);
    }
    lemma_stream_chunks_stand(drained.slots(), place);
}

proof fn lemma_stream_chunks_stand(slots: Seq<Slot>, slot: int)
    requires
        0 <= slot < slots.len(),
    ensures
        slots[slot].queued ==> exists|from: int| #[trigger]
            stands_at(stream_chunks(slots), slots[slot].stream@, from),
    decreases slots.len(),
{
    let front = slots.drop_last();
    let last = slots.last();
    let before = stream_chunks(front);
    let whole = stream_chunks(slots);
    if slot == slots.len() - 1 {
        if last.queued {
            assert(whole.subrange(
                before.len() as int,
                before.len() as int + last.stream@.len(),
            ) =~= last.stream@);
            assert(stands_at(whole, slots[slot].stream@, before.len() as int));
        }
    } else {
        lemma_stream_chunks_stand(front, slot);
        if slots[slot].queued {
            let part = slots[slot].stream@;
            let from = choose|from: int| #[trigger] stands_at(before, front[slot].stream@, from);
            assert(whole.subrange(from, from + part.len()) =~= before.subrange(
                from,
                from + part.len(),
            ));
            assert(stands_at(whole, part, from));
        }
    }
}

} // verus!
