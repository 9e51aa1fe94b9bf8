//! Events, listener lists and exception mapping.
//!
//! Script functions and objects are named by numbers that the host keeps
//! unique per object: equal numbers mean the same object.

use vstd::prelude::*;

use crate::error::{type_error, DomException, FileApiError, JsError, JsErrorKind, ResourceLimitKind};
use crate::text::same_text;

verus! {

/// The exception name and message that a failure surfaces as.
pub open spec fn mapped_error(error: FileApiError) -> (Seq<char>, Seq<char>) {
    match error {
        FileApiError::NotFound => ("NotFoundError"@, "the resource was not found"@),
        FileApiError::UnsafeFile | FileApiError::TooManyReads | FileApiError::PermissionDenied => (
            "SecurityError"@,
            "access to the resource is not allowed"@,
        ),
        FileApiError::ResourceLimit(ResourceLimitKind::DataUrlOutput) => (
            "QuotaExceededError"@,
            "data URL output exceeds the configured limit"@,
        ),
        FileApiError::ResourceLimit(_) => (
            "QuotaExceededError"@,
            "the operation exceeds the configured quota"@,
        ),
        FileApiError::Cancelled => ("AbortError"@, "the read was aborted"@),
        _ => ("NotReadableError"@, "blob read failed"@),
    }
}

/// Maps a failure onto its exception. Messages hold no paths, bytes or source
/// details.
pub fn map_core_error(error: FileApiError) -> (exception: DomException)
    ensures
        exception@ == mapped_error(error),
{
    match error {
        FileApiError::NotFound => DomException {
            name: "NotFoundError",
            message: "the resource was not found",
        },
        FileApiError::UnsafeFile | FileApiError::TooManyReads | FileApiError::PermissionDenied =>
            DomException { name: "SecurityError", message: "access to the resource is not allowed" },
        FileApiError::ResourceLimit(ResourceLimitKind::DataUrlOutput) => DomException {
            name: "QuotaExceededError",
            message: "data URL output exceeds the configured limit",
        },
        FileApiError::ResourceLimit(_) => DomException {
            name: "QuotaExceededError",
            message: "the operation exceeds the configured quota",
        },
        FileApiError::Cancelled => DomException {
            name: "AbortError",
            message: "the read was aborted",
        },
        _ => DomException { name: "NotReadableError", message: "blob read failed" },
    }
}

/// One registered listener.
#[derive(Clone, Debug)]
pub struct ListEntry {
    /// The event type it listens for.
    pub event_type: String,
    /// The function to call.
    pub callback: u64,
    /// The capture flag; it only tells listeners apart.
    pub capture: bool,
}

impl View for ListEntry {
    type V = (Seq<char>, u64, bool);

    open spec fn view(&self) -> (Seq<char>, u64, bool) {
        (self.event_type@, self.callback, self.capture)
    }
}

impl ListEntry {
    /// Whether both are the same listener: equal type, function and capture
    /// flag.
    pub fn same_tuple(&self, other: &ListEntry) -> (same: bool)
        ensures
            same == (self@ == other@),
    {
        self.callback == other.callback && self.capture == other.capture && same_text(
            self.event_type.as_str(),
            other.event_type.as_str(),
        )
    }
}

/// The listeners of one event target, in registration order, each once.
#[derive(Clone, Debug)]
pub struct ListenerList {
    /// The listeners.
    entries: Vec<ListEntry>,
}

/// The position of `entry` in `entries`, if it is there.
pub open spec fn listener_position(
    entries: Seq<(Seq<char>, u64, bool)>,
    entry: (Seq<char>, u64, bool),
) -> Option<int>
    decreases entries.len(),
{
    if entries.len() == 0 {
        None
    } else {
        match listener_position(entries.drop_last(), entry) {
            Some(at) => Some(at),
            None => if entries.last() == entry {
                Some(entries.len() - 1)
            } else {
                None
            },
        }
    }
}

/// The functions of the listeners for `event_type`, in order.
pub open spec fn listeners_for(
    entries: Seq<(Seq<char>, u64, bool)>,
    event_type: Seq<char>,
) -> Seq<u64>
    decreases entries.len(),
{
    if entries.len() == 0 {
        Seq::empty()
    } else {
        let before = listeners_for(entries.drop_last(), event_type);
        if entries.last().0 == event_type {
            before.push(entries.last().1)
        } else {
            before
        }
    }
}

/// No listener occurs twice.
pub open spec fn listeners_distinct(entries: Seq<(Seq<char>, u64, bool)>) -> bool {
    forall|i: int, j: int|
        0 <= i < j < entries.len() ==> #[trigger] entries[i] != #[trigger] entries[j]
}

pub proof fn lemma_listener_position(
    entries: Seq<(Seq<char>, u64, bool)>,
    entry: (Seq<char>, u64, bool),
)
    ensures
        match listener_position(entries, entry) {
            Some(at) => 0 <= at < entries.len() && entries[at] == entry && forall|i: int|
                0 <= i < at ==> #[trigger] entries[i] != entry,
            None => forall|i: int| 0 <= i < entries.len() ==> #[trigger] entries[i] != entry,
        },
    decreases entries.len(),
{
    if entries.len() > 0 {
        let front = entries.drop_last();
        lemma_listener_position(front, entry);
        assert forall|i: int| 0 <= i < front.len() implies front[i] == #[trigger] entries[i] by {}
    }
}

impl View for ListenerList {
    type V = Seq<(Seq<char>, u64, bool)>;

    closed spec fn view(&self) -> Seq<(Seq<char>, u64, bool)> {
        Seq::new(self.entries@.len(), |i: int| self.entries@[i]@)
    }
}

impl ListenerList {
    /// A list without listeners.
    pub fn new() -> (list: ListenerList)
        ensures
            list@ == Seq::<(Seq<char>, u64, bool)>::empty(),
    {
        let list = ListenerList { entries: Vec::new() };
        assert(list@ =~= Seq::<(Seq<char>, u64, bool)>::empty());
        list
    }

    /// The position of a listener.
    fn find(&self, entry: &ListEntry) -> (found: Option<usize>)
        ensures
            match found {
                Some(at) => listener_position(self@, entry@) == Some(at as int) && at < self@.len(),
                None => listener_position(self@, entry@) is None,
            },
    {
        let mut at: usize = 0;
        while at < self.entries.len()
            invariant
                at <= self.entries@.len(),
                forall|i: int| 0 <= i < at ==> #[trigger] self@[i] != entry@,
            decreases self.entries@.len() - at,
        {
            if self.entries[at].same_tuple(entry) {
                proof {
                    lemma_listener_position(self@, entry@);
                    assert(self@[at as int] == entry@);
                }
                return Some(at);
            }
            at = at + 1;
        }
        proof {
            lemma_listener_position(self@, entry@);
        }
        None
    }

    /// Appends a listener, unless it is registered already.
    pub fn add_listener(&mut self, entry: ListEntry)
        ensures
            final(self)@ == match listener_position(old(self)@, entry@) {
                Some(_) => old(self)@,
                None => old(self)@.push(entry@),
            },
            listeners_distinct(old(self)@) ==> listeners_distinct(final(self)@),
    {
        proof {
            lemma_listener_position(old(self)@, entry@);
        }
        if self.find(&entry).is_none() {
            self.entries.push(entry);
            assert(self@ =~= old(self)@.push(entry@));
        }
    }

    /// Removes a listener, if it is registered.
    pub fn remove_listener(&mut self, probe: &ListEntry)
        ensures
            final(self)@ == match listener_position(old(self)@, probe@) {
                Some(at) => old(self)@.remove(at),
                None => old(self)@,
            },
            listeners_distinct(old(self)@) ==> listeners_distinct(final(self)@),
    {
        match self.find(probe) {
            Some(at) => {
                let _ = self.entries.remove(at);
                assert(self@ =~= old(self)@.remove(at as int));
                proof {
                    if listeners_distinct(old(self)@) {
                        let before = old(self)@;
                        let after = self@;
                        assert forall|i: int, j: int| 0 <= i < j < after.len() implies
                            #[trigger] after[i] != #[trigger] after[j] by {
                            let x = if i < at {
                                i
                            } else {
                                i + 1
                            };
                            let y = if j < at {
                                j
                            } else {
                                j + 1
                            };
                            assert(before[x] != before[y]);
                        }
                    }
                }
            },
            None => {},
        }
    }

    /// The functions to call for an event of type `event_type`, in order.
    pub fn callbacks(&self, event_type: &str) -> (callbacks: Vec<u64>)
        ensures
            callbacks@ == listeners_for(self@, event_type@),
    {
        let mut callbacks: Vec<u64> = Vec::new();
        let mut i: usize = 0;
        proof {
            assert(self@.take(0) =~= Seq::<(Seq<char>, u64, bool)>::empty());
        }
        while i < self.entries.len()
            invariant
                i <= self.entries@.len(),
                callbacks@ == listeners_for(self@.take(i as int), event_type@),
            decreases self.entries@.len() - i,
        {
            proof {
                let here = self@.take(i + 1);
                assert(here.drop_last() =~= self@.take(i as int));
                assert(here.last() == self.entries@[i as int]@);
            }
            if same_text(self.entries[i].event_type.as_str(), event_type) {
                callbacks.push(self.entries[i].callback);
            }
            i = i + 1;
        }
        assert(self@.take(i as int) =~= self@);
        callbacks
    }
}

impl Default for ListenerList {
    fn default() -> (list: ListenerList)
        ensures
            list@ == Seq::<(Seq<char>, u64, bool)>::empty(),
    {
        ListenerList::new()
    }
}

/// Removing a listener right after it was newly added restores the list.
pub proof fn lemma_remove_undoes_add(
    entries: Seq<(Seq<char>, u64, bool)>,
    entry: (Seq<char>, u64, bool),
)
    requires
        listener_position(entries, entry) is None,
    ensures
        listener_position(entries.push(entry), entry) == Some(entries.len() as int),
        entries.push(entry).remove(entries.len() as int) == entries,
{
    assert(entries.push(entry).drop_last() =~= entries);
    assert(entries.push(entry).remove(entries.len() as int) =~= entries);
}

/// Adding a listener twice is the same as adding it once.
pub proof fn lemma_add_twice(
    entries: Seq<(Seq<char>, u64, bool)>,
    entry: (Seq<char>, u64, bool),
)
    ensures
        listener_position(entries.push(entry), entry) is Some,
{
    lemma_listener_position(entries.push(entry), entry);
    if listener_position(entries.push(entry), entry) is None {
        assert(entries.push(entry)[entries.len() as int] == entry);
    }
}

/// One event on its way through the listeners of a target.
///
/// The handler property is called first; then the listeners in order, until
/// one stops the event. Exceptions stop nothing; the first one is kept.
#[derive(Debug)]
pub struct Dispatch {
    /// The functions to call, the handler property first if there is one.
    callbacks: Vec<u64>,
    /// Whether the first function is the handler property.
    has_handler: bool,
    /// The next function.
    next: usize,
    /// The first exception.
    first_error: Option<u64>,
}

/// What a dispatch calls: the handler, then the listeners.
pub open spec fn call_order(handler: Option<u64>, listeners: Seq<u64>) -> Seq<u64> {
    match handler {
        Some(function) => seq![function] + listeners,
        None => listeners,
    }
}

impl Dispatch {
    /// The functions that are called unless the event is stopped.
    pub closed spec fn calls(self) -> Seq<u64> {
        self.callbacks@
    }

    /// Whether the first function is the handler property.
    pub closed spec fn with_handler(self) -> bool {
        self.has_handler
    }

    /// How many functions were called.
    pub closed spec fn called(self) -> int {
        self.next as int
    }

    /// The first exception, if there was one.
    pub closed spec fn error(self) -> Option<u64> {
        self.first_error
    }

    /// No more functions were called than there are.
    pub open spec fn wf(self) -> bool {
        0 <= self.called() <= self.calls().len()
    }

    /// Starts the dispatch of an event of type `event_type` over a snapshot of
    /// the listeners.
    pub fn begin(handler: Option<u64>, listeners: &ListenerList, event_type: &str) -> (dispatch:
        Dispatch)
        ensures
            dispatch.wf(),
            dispatch.calls() == call_order(handler, listeners_for(listeners@, event_type@)),
            dispatch.with_handler() == handler is Some,
            dispatch.called() == 0,
            dispatch.error() is None,
    {
        let mut callbacks = listeners.callbacks(event_type);
        let ghost plain = callbacks@;
        let has_handler = match handler {
            Some(function) => {
                callbacks.insert(0, function);
                assert(callbacks@ =~= seq![function] + plain);
                true
            },
            None => false,
        };
        Dispatch { callbacks, has_handler, next: 0, first_error: None }
    }

    /// The next function to call, given whether the event was stopped by now.
    /// The handler property is called even for a stopped event.
    pub fn next(&mut self, stopped: bool) -> (callback: Option<u64>)
        requires
            old(self).wf(),
        ensures
            final(self).wf(),
            final(self).calls() == old(self).calls(),
            final(self).with_handler() == old(self).with_handler(),
            final(self).error() == old(self).error(),
            callback == if old(self).called() >= old(self).calls().len() || (stopped && !(old(
                self,
            ).called() == 0 && old(self).with_handler())) {
                None
            } else {
                Some(old(self).calls()[old(self).called()])
            },
            final(self).called() == if callback is Some {
                old(self).called() + 1
            } else {
                old(self).called()
            },
    {
        if self.next >= self.callbacks.len() {
            return None;
        }
        if stopped && !(self.next == 0 && self.has_handler) {
            return None;
        }
        let callback: u64 = self.callbacks[self.next];
        self.next = self.next + 1;
        Some(callback)
    }

    /// Notes that a function threw; only the first exception is kept.
    pub fn report(&mut self, error: u64)
        ensures
            final(self).calls() == old(self).calls(),
            final(self).with_handler() == old(self).with_handler(),
            final(self).called() == old(self).called(),
            final(self).error() == match old(self).error() {
                Some(first) => Some(first),
                None => Some(error),
            },
    {
        if self.first_error.is_none() {
            self.first_error = Some(error);
        }
    }

    /// What `dispatchEvent` gives: the first exception, or whether the default
    /// action may go ahead.
    pub fn outcome(&self, default_prevented: bool) -> (outcome: Result<bool, u64>)
        ensures
            outcome == match self.error() {
                Some(error) => Err::<bool, u64>(error),
                None => Ok::<bool, u64>(!default_prevented),
            },
    {
        match self.first_error {
            Some(error) => Err(error),
            None => Ok(!default_prevented),
        }
    }
}

/// The flags of an event.
#[derive(Clone, Copy, Debug, PartialEq, Eq, Structural)]
pub struct EventFlags {
    /// Whether the event bubbles.
    pub bubbles: bool,
    /// Whether `preventDefault` takes effect.
    pub cancelable: bool,
    /// Whether the default action is prevented.
    pub default_prevented: bool,
    /// Whether further listeners are skipped.
    pub stopped: bool,
}

impl EventFlags {
    /// The flags of a fresh event.
    pub fn new(bubbles: bool, cancelable: bool) -> (flags: EventFlags)
        ensures
            flags == (EventFlags { bubbles, cancelable, default_prevented: false, stopped: false }),
    {
        EventFlags { bubbles, cancelable, default_prevented: false, stopped: false }
    }

    /// `preventDefault`: only a cancelable event takes note.
    pub fn prevent_default(&mut self)
        ensures
            *final(self) == (EventFlags {
                default_prevented: old(self).default_prevented || old(self).cancelable,
                ..*old(self)
            }),
    {
        if self.cancelable {
            self.default_prevented = true;
        }
    }

    /// `stopImmediatePropagation`.
    pub fn stop_immediate_propagation(&mut self)
        ensures
            *final(self) == (EventFlags { stopped: true, ..*old(self) }),
    {
        self.stopped = true;
    }
}

/// The flags member of an event constructor.
#[derive(Clone, Copy, Debug, PartialEq, Eq, Structural)]
pub enum EventInit {
    /// `null` or `undefined`.
    Nullish,
    /// Any other value that is no object.
    NotAnObject,
    /// An object with these members.
    Object {
        /// The `bubbles` member.
        bubbles: bool,
        /// The `cancelable` member.
        cancelable: bool,
    },
}

/// Reads the `bubbles` and `cancelable` members of an event constructor.
pub fn parse_event_init(init: EventInit) -> (result: Result<(bool, bool), JsError>)
    ensures
        match init {
            EventInit::Nullish => result == Ok::<(bool, bool), JsError>((false, false)),
            EventInit::NotAnObject => result matches Err(error) && error@ == (
                JsErrorKind::Type,
                "the event init value is not an object"@,
            ),
            EventInit::Object { bubbles, cancelable } => result == Ok::<(bool, bool), JsError>(
                (bubbles, cancelable),
            ),
        },
{
    match init {
        EventInit::Nullish => Ok((false, false)),
        EventInit::NotAnObject => Err(type_error("the event init value is not an object")),
        EventInit::Object { bubbles, cancelable } => Ok((bubbles, cancelable)),
    }
}

/// The options argument of a listener call.
#[derive(Clone, Copy, Debug, PartialEq, Eq, Structural)]
pub enum CaptureValue {
    /// `null` or `undefined`.
    Nullish,
    /// An object with this `capture` member.
    Object {
        /// The `capture` member, as a boolean.
        capture: bool,
    },
    /// Any other value, as a boolean.
    Primitive(bool),
}

/// Reads the capture flag of a listener: a bare boolean, or a member of an
/// options object.
pub fn to_capture(value: CaptureValue) -> (capture: bool)
    ensures
        capture == match value {
            CaptureValue::Nullish => false,
            CaptureValue::Object { capture } => capture,
            CaptureValue::Primitive(truthy) => truthy,
        },
{
    match value {
        CaptureValue::Nullish => false,
        CaptureValue::Object { capture } => capture,
        CaptureValue::Primitive(truthy) => truthy,
    }
}

/// A listener argument.
#[derive(Clone, Copy, Debug, PartialEq, Eq, Structural)]
pub enum ListenerValue {
    /// `null` or `undefined`.
    Nullish,
    /// A function.
    Function(u64),
    /// Anything else.
    Other,
}

/// Reads a listener argument: nothing for `null` and `undefined`, a
/// `TypeError` for what cannot be called.
pub fn to_listener(value: ListenerValue) -> (result: Result<Option<u64>, JsError>)
    ensures
        match value {
            ListenerValue::Nullish => result == Ok::<Option<u64>, JsError>(None),
            ListenerValue::Function(callback) => result == Ok::<Option<u64>, JsError>(
                Some(callback),
            ),
            ListenerValue::Other => result matches Err(error) && error@ == (
                JsErrorKind::Type,
                "the event listener must be a function or null"@,
            ),
        },
{
    match value {
        ListenerValue::Nullish => Ok(None),
        ListenerValue::Function(callback) => Ok(Some(callback)),
        ListenerValue::Other => Err(type_error("the event listener must be a function or null")),
    }
}

/// The message and the name of a `DOMException` made by script: both optional.
pub fn exception_arguments(message: Option<String>, name: Option<String>) -> (parts: (
    String,
    String,
))
    ensures
        parts.0@ == match name {
            Some(text) => text@,
            None => "Error"@,
        },
        parts.1@ == match message {
            Some(text) => text@,
            None => ""@,
        },
{
    let name = match name {
        Some(text) => text,
        None => "Error".to_owned(),
    };
    let message = match message {
        Some(text) => text,
        None => "".to_owned(),
    };
    (name, message)
}

/// Which name a failure surfaces under: a missing resource is not found, what may
/// not be accessed is a matter of security, a ceiling is a quota, a cancelled read
/// is an abort, and everything else cannot be read.
pub proof fn lemma_failures_surface_by_name(error: FileApiError, exception: DomException)
    requires
        call_ensures(map_core_error, (error,), exception),
    ensures
        exception.name@ == "NotFoundError"@ <==> error is NotFound,
        exception.name@ == "SecurityError"@ <==> error is UnsafeFile || error is TooManyReads
            || error is PermissionDenied,
        exception.name@ == "QuotaExceededError"@ <==> error is ResourceLimit,
        exception.name@ == "AbortError"@ <==> error is Cancelled,
        exception.name@ == "NotReadableError"@ <==> error is SnapshotChanged || error is FileLocked
            || error is InvalidRange || error is Internal,
{
    reveal_strlit("NotFoundError");
    reveal_strlit("SecurityError");
    reveal_strlit("QuotaExceededError");
    reveal_strlit("AbortError");
    reveal_strlit("NotReadableError");
    assert("NotFoundError"@.len() == 13 && "SecurityError"@.len() == 13);
    assert("NotFoundError"@[0] == 'N' && "SecurityError"@[0] == 'S');
    assert("QuotaExceededError"@.len() == 18 && "AbortError"@.len() == 10);
    assert("NotReadableError"@.len() == 16);
}

/// A listener that was added is called for its type, behind those that were there
/// before, and for no other type; one that is there already is not added again.
pub proof fn lemma_listeners_are_called_in_order(
    list: &mut ListenerList,
    entry: ListEntry,
    before: ListenerList,
    after: ListenerList,
    event_type: &str,
    called_before: Vec<u64>,
    called_after: Vec<u64>,
)
    requires
        before@ == list@,
        call_ensures(ListenerList::add_listener, (list, entry), ()),
        after@ == final(list)@,
        call_ensures(ListenerList::callbacks, (&before, event_type), called_before),
        call_ensures(ListenerList::callbacks, (&after, event_type), called_after),
    ensures
        before@.contains(entry@) || entry@.0 != event_type@ ==> called_after@ == called_before@,
        !before@.contains(entry@) && entry@.0 == event_type@ ==> called_after@
            == called_before@.push(entry@.1),
        before@ == Seq::<(Seq<char>, u64, bool)>::empty() ==> called_before@.len() == 0,
{
    lemma_listener_position(before@, entry@);
    assert(before@.push(entry@).drop_last() =~= before@);
}

/// A listener that was removed is called no more; every other one is called as
/// before, in the same order. Removing one that is not there changes nothing.
pub proof fn lemma_removed_listeners_are_not_called(
    list: &mut ListenerList,
    entry: ListEntry,
    before: ListenerList,
    after: ListenerList,
)
    requires
        before@ == list@,
        listeners_distinct(list@),
        call_ensures(ListenerList::remove_listener, (list, &entry), ()),
        after@ == final(list)@,
    ensures
        !after@.contains(entry@),
        before@.contains(entry@) ==> exists|at: int|
            0 <= at < before@.len() && before@[at] == entry@ && after@ == #[trigger] before@.remove(
                at,
            ),
        !before@.contains(entry@) ==> after@ == before@,
{
    lemma_listener_position(before@, entry@);
    if before@.contains(entry@) {
        let at = listener_position(before@, entry@)->0;
        let rest = before@.remove(at);
        assert forall|i: int| 0 <= i < rest.len() implies #[trigger] rest[i] != entry@ by {
            let x = if i < at {
                i
            } else {
                i + 1
            };
            assert(rest[i] == before@[x]);
            if x < at {
                assert(before@[x] != before@[at]);
            } else {
                assert(before@[at] != before@[x]);
            }
        }
    }
}

/// A dispatch calls the handler property first, then the listeners of its type in
/// their order, one by one, each once.
pub proof fn lemma_dispatch_calls_in_order(
    handler: Option<u64>,
    listeners: ListenerList,
    event_type: &str,
    dispatch: Dispatch,
    callbacks: Vec<u64>,
    under_way: &mut Dispatch,
    stopped: bool,
    callback: Option<u64>,
)
    requires
        call_ensures(Dispatch::begin, (handler, &listeners, event_type), dispatch),
        call_ensures(ListenerList::callbacks, (&listeners, event_type), callbacks),
        under_way.calls() == dispatch.calls(),
        under_way.with_handler() == dispatch.with_handler(),
        under_way.wf(),
        call_ensures(Dispatch::next, (under_way, stopped), callback),
    ensures
        dispatch.called() == 0,
        ({
            let at = old(under_way).called();
            let first: int = if handler is Some {
                1
            } else {
                0
            };
            &&& at < first ==> callback == handler
            &&& first <= at < first + callbacks@.len() && !stopped ==> callback == Some(
                callbacks@[at - first],
            )
            &&& at >= first + callbacks@.len() ==> callback is None
            &&& at >= first && stopped ==> callback is None
            &&& callback is Some ==> final(under_way).called() == at + 1
            &&& callback is None ==> final(under_way).called() == at
        }),
{
}

/// The first exception of a dispatch is what it throws; without one it tells
/// whether the default action is to be taken.
pub proof fn lemma_first_exception_is_thrown(
    fresh: Dispatch,
    handler: Option<u64>,
    listeners: ListenerList,
    event_type: &str,
    first: &mut Dispatch,
    second: &mut Dispatch,
    errors: (u64, u64),
    prevented: bool,
    outcomes: (Result<bool, u64>, Result<bool, u64>),
    ended: Dispatch,
)
    requires
        call_ensures(Dispatch::begin, (handler, &listeners, event_type), fresh),
        call_ensures(Dispatch::outcome, (&fresh, prevented), outcomes.0),
        *first == fresh,
        call_ensures(Dispatch::report, (first, errors.0), ()),
        *second == *final(first),
        call_ensures(Dispatch::report, (second, errors.1), ()),
        ended == *final(second),
        call_ensures(Dispatch::outcome, (&ended, prevented), outcomes.1),
    ensures
        outcomes.0 == Ok::<bool, u64>(!prevented),
        outcomes.1 == Err::<bool, u64>(errors.0),
{
}


/// An event starts neither prevented nor stopped; it is prevented exactly when it
/// can be and someone asks, and that it stays; stopping it is another matter.
pub proof fn lemma_events_are_prevented_where_they_can_be(
    bubbles: bool,
    cancelable: bool,
    flags: EventFlags,
    asked: &mut EventFlags,
    stopped: &mut EventFlags,
)
    requires
        call_ensures(EventFlags::new, (bubbles, cancelable), flags),
        call_ensures(EventFlags::prevent_default, (asked,), ()),
        call_ensures(EventFlags::stop_immediate_propagation, (stopped,), ()),
    ensures
        !flags.default_prevented && !flags.stopped,
        flags.bubbles == bubbles && flags.cancelable == cancelable,
        old(asked).cancelable ==> final(asked).default_prevented,
        !old(asked).cancelable ==> final(asked).default_prevented == old(asked).default_prevented,
        final(asked).stopped == old(asked).stopped,
        final(asked).bubbles == old(asked).bubbles && final(asked).cancelable
            == old(asked).cancelable,
        final(stopped).stopped,
        final(stopped).default_prevented == old(stopped).default_prevented,
        final(stopped).bubbles == old(stopped).bubbles && final(stopped).cancelable
            == old(stopped).cancelable,
{
}

/// Nothing is called twice or left out while an event goes on: each call is the
/// next one, and a stopped event calls no listener, though the handler that was
/// set comes first in any case.
pub proof fn lemma_calls_follow_one_by_one(
    dispatch: &mut Dispatch,
    stopped: bool,
    callback: Option<u64>,
)
    requires
        dispatch.wf(),
        call_ensures(Dispatch::next, (dispatch, stopped), callback),
    ensures
        !stopped && old(dispatch).called() < old(dispatch).calls().len() ==> callback == Some(
            old(dispatch).calls()[old(dispatch).called()],
        ) && final(dispatch).called() == old(dispatch).called() + 1,
        old(dispatch).called() >= old(dispatch).calls().len() ==> callback is None,
        stopped && (old(dispatch).called() > 0 || !old(dispatch).with_handler()) ==> callback
            is None,
        callback is None ==> final(dispatch).called() == old(dispatch).called(),
        final(dispatch).calls() == old(dispatch).calls(),
{
}

} // verus!
