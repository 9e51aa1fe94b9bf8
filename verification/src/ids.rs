//! Identifiers that are issued once and never again.

use vstd::prelude::*;

verus! {

/// A source of identifiers: `1, 2, 3, ...`, each issued once.
///
/// Zero and `u64::MAX` are never issued. A counter that has run out stays run
/// out.
#[derive(Debug, PartialEq, Eq, Structural)]
pub struct IdCounter {
    /// The identifier to issue next.
    next: u64,
}

/// A counter that stood at `before` issues `id` and then stands at `after`.
pub open spec fn issue_step(before: u64, id: u64, after: u64) -> bool {
    &&& before != 0
    &&& before != u64::MAX
    &&& id == before
    &&& after == id + 1
}

impl IdCounter {
    /// The identifier to issue next.
    pub closed spec fn spec_next(self) -> u64 {
        self.next
    }

    /// Whether no identifier is left.
    pub open spec fn exhausted(self) -> bool {
        self.spec_next() == 0 || self.spec_next() == u64::MAX
    }

    /// A counter that has issued nothing.
    pub fn new() -> (counter: IdCounter)
        ensures
            counter.spec_next() == 1,
    {
        IdCounter { next: 1 }
    }

    /// A counter whose next identifier is `next`.
    pub fn starting_at(next: u64) -> (counter: IdCounter)
        ensures
            counter.spec_next() == next,
    {
        IdCounter { next }
    }

    /// Issues the next identifier, or `None` once the counter has run out.
    pub fn issue(&mut self) -> (id: Option<u64>)
        ensures
            match id {
                Some(issued) => {
                    &&& !old(self).exhausted()
                    &&& issue_step(old(self).spec_next(), issued, final(self).spec_next())
                },
                None => old(self).exhausted() && final(self).spec_next() == u64::MAX,
            },
    {
        if self.next == 0 || self.next == u64::MAX {
            self.next = u64::MAX;
            return None;
        }
        let issued: u64 = self.next;
        self.next = issued + 1;
        Some(issued)
    }
}

impl Default for IdCounter {
    fn default() -> (counter: IdCounter)
        ensures
            counter.spec_next() == 1,
    {
        IdCounter::new()
    }
}

/// Identity of one registered File API context.
#[derive(Clone, Copy, Debug, PartialEq, Eq, Hash, Structural)]
pub struct FileApiContextId(u64);

impl FileApiContextId {
    /// The numeric value.
    pub closed spec fn spec_get(self) -> u64 {
        self.0
    }

    /// Issues a fresh context identity, or `None` once `counter` has run out.
    pub fn fresh(counter: &mut IdCounter) -> (id: Option<FileApiContextId>)
        ensures
            match id {
                Some(context) => {
                    &&& !old(counter).exhausted()
                    &&& issue_step(
                        old(counter).spec_next(),
                        context.spec_get(),
                        final(counter).spec_next(),
                    )
                },
                None => old(counter).exhausted() && final(counter).spec_next() == u64::MAX,
            },
    {
        match counter.issue() {
            Some(raw) => Some(FileApiContextId(raw)),
            None => None,
        }
    }

    /// The identity with a known numeric value.
    pub fn from_raw(raw: u64) -> (id: FileApiContextId)
        ensures
            id.spec_get() == raw,
    {
        FileApiContextId(raw)
    }

    /// The numeric value, for wake routing and diagnostics.
    pub fn get(&self) -> (raw: u64)
        ensures
            raw == self.spec_get(),
    {
        self.0
    }
}

/// Identity of one submitted file I/O operation.
#[derive(Clone, Copy, Debug, PartialEq, Eq, Hash, Structural)]
pub struct FileIoOperationId(u64);

impl FileIoOperationId {
    /// The numeric value.
    pub closed spec fn spec_get(self) -> u64 {
        self.0
    }

    /// The numeric value, for diagnostics.
    pub fn get(&self) -> (raw: u64)
        ensures
            raw == self.spec_get(),
    {
        self.0
    }

    /// The identity with a known numeric value.
    pub fn from_raw(raw: u64) -> (id: FileIoOperationId)
        ensures
            id.spec_get() == raw,
    {
        FileIoOperationId(raw)
    }
}

/// Identity of one built extension. The value `u64::MAX` marks an extension
/// that got no identity.
#[derive(Clone, Copy, Debug, PartialEq, Eq, Structural)]
pub struct RegistrationIdentity(u64);

impl RegistrationIdentity {
    /// The numeric value.
    pub closed spec fn spec_get(self) -> u64 {
        self.0
    }

    /// Issues a fresh identity; the marker value once `counter` has run out.
    pub fn fresh(counter: &mut IdCounter) -> (identity: RegistrationIdentity)
        ensures
            !old(counter).exhausted() ==> issue_step(
                old(counter).spec_next(),
                identity.spec_get(),
                final(counter).spec_next(),
            ),
            old(counter).exhausted() ==> {
                &&& identity.spec_get() == u64::MAX
                &&& final(counter).spec_next() == u64::MAX
            },
    {
        match counter.issue() {
            Some(raw) => RegistrationIdentity(raw),
            None => RegistrationIdentity(u64::MAX),
        }
    }

    /// Whether this extension got no identity.
    pub fn is_exhausted(&self) -> (exhausted: bool)
        ensures
            exhausted == (self.spec_get() == u64::MAX),
    {
        self.0 == u64::MAX
    }
}

/// No identifier is issued twice: in any run of a counter, where the counter
/// stands at `nexts[k]` before and at `nexts[k + 1]` after it issues `ids[k]`,
/// the identifiers are strictly increasing.
pub proof fn lemma_ids_never_reused(nexts: Seq<u64>, ids: Seq<u64>, i: int, j: int)
    requires
        nexts.len() == ids.len() + 1,
        forall|k: int|
            0 <= k < ids.len() ==> issue_step(nexts[k], #[trigger] ids[k], nexts[k + 1]),
        0 <= i < j < ids.len(),
    ensures
        ids[i] < ids[j],
    decreases j - i,
{
    assert(issue_step(nexts[i], ids[i], nexts[i + 1]));
    assert(issue_step(nexts[i + 1], ids[i + 1], nexts[i + 2]));
    if i + 1 < j {
        lemma_ids_never_reused(nexts, ids, i + 1, j);
    }
}


/// Numbers that are issued one after the other are different, and none is zero;
/// once they are used up nothing is issued any more.
pub proof fn lemma_numbers_are_issued_once(
    counter: &mut IdCounter,
    first: Option<u64>,
    later: &mut IdCounter,
    second: Option<u64>,
)
    requires
        call_ensures(IdCounter::issue, (counter,), first),
        later.spec_next() == final(counter).spec_next(),
        call_ensures(IdCounter::issue, (later,), second),
    ensures
        first matches Some(number) ==> number != 0 && number == old(counter).spec_next(),
        first is Some && second is Some ==> first->0 < second->0,
        first is None ==> second is None,
        0 < old(counter).spec_next() < u64::MAX ==> first is Some,
{
}

} // verus!
