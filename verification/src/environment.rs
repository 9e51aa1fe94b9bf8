//! The environment of a registered context.

use vstd::prelude::*;

use crate::text::{chars_of, same_text};

verus! {

/// The kind of environment that the host registers a context as.
///
/// It is an explicit choice of the host, never inferred.
#[derive(Debug, Clone, Copy, PartialEq, Eq, Structural, Default)]
pub enum FileApiEnvironment {
    /// A window: no `FileReaderSync`.
    #[default]
    Window,
    /// A dedicated worker: it has `FileReaderSync`.
    DedicatedWorker,
    /// A shared worker: it has `FileReaderSync`.
    SharedWorker,
    /// A service worker: no `FileReaderSync`, and no blob URLs are made.
    ServiceWorker,
}

impl FileApiEnvironment {
    /// Whether the environment is one of the two workers that read
    /// synchronously.
    pub open spec fn reads_synchronously(self) -> bool {
        self == FileApiEnvironment::DedicatedWorker || self == FileApiEnvironment::SharedWorker
    }

    /// Whether `FileReaderSync` is installed.
    pub fn file_reader_sync_enabled(&self) -> (enabled: bool)
        ensures
            enabled == self.reads_synchronously(),
    {
        match self {
            FileApiEnvironment::DedicatedWorker => true,
            FileApiEnvironment::SharedWorker => true,
            FileApiEnvironment::Window => false,
            FileApiEnvironment::ServiceWorker => false,
        }
    }
}

/// The longest serialized origin.
pub const MAX_ORIGIN_LEN: usize = 2048;

/// Whether a character may stand in a serialized origin: printable ASCII, no
/// space.
pub open spec fn is_origin_char(c: char) -> bool {
    '!' <= c <= '~'
}

/// Whether `origin` is a serialized origin: not empty, bounded, printable
/// ASCII, no whitespace.
pub open spec fn is_origin(origin: Seq<char>) -> bool {
    &&& 0 < origin.len() <= MAX_ORIGIN_LEN
    &&& forall|i: int| 0 <= i < origin.len() ==> is_origin_char(#[trigger] origin[i])
}

/// Tests a serialized origin.
pub fn origin_valid(origin: &str) -> (valid: bool)
    ensures
        valid == is_origin(origin@),
{
    let chars = chars_of(origin);
    if chars.len() == 0 || chars.len() > MAX_ORIGIN_LEN {
        return false;
    }
    for i in 0..chars.len()
        invariant
            chars@ == origin@,
            forall|k: int| 0 <= k < i ==> is_origin_char(#[trigger] chars@[k]),
    {
        if chars[i] < '!' || chars[i] > '~' {
            assert(!is_origin_char(origin@[i as int]));
            return false;
        }
    }
    true
}

/// What tells one environment from another: entries of one key are not seen
/// under another.
#[derive(Debug, Clone)]
pub struct EnvironmentKey {
    /// The serialized origin.
    pub origin: String,
    /// The storage partition.
    pub partition: u64,
    /// The nonce of the global.
    pub nonce: u64,
}

impl View for EnvironmentKey {
    type V = (Seq<char>, u64, u64);

    open spec fn view(&self) -> (Seq<char>, u64, u64) {
        (self.origin@, self.partition, self.nonce)
    }
}

impl EnvironmentKey {
    /// A copy of the key.
    pub fn copy(&self) -> (key: EnvironmentKey)
        ensures
            key@ == self@,
    {
        EnvironmentKey {
            origin: self.origin.as_str().to_owned(),
            partition: self.partition,
            nonce: self.nonce,
        }
    }

    /// Whether two keys name one environment: origin, partition and nonce agree.
    pub fn same(&self, other: &EnvironmentKey) -> (same: bool)
        ensures
            same == (self@ == other@),
    {
        self.partition == other.partition && self.nonce == other.nonce && same_text(
            self.origin.as_str(),
            other.origin.as_str(),
        )
    }
}


/// An origin is accepted exactly when it is not empty, not longer than the
/// ceiling, and made of visible ASCII characters alone; and whether two origins
/// joined are accepted depends on nothing but both and the length of the whole.
pub proof fn lemma_origins_are_visible_ascii(
    front: &str,
    back: &str,
    whole: &str,
    front_valid: bool,
    back_valid: bool,
    valid: bool,
)
    requires
        whole@ == front@ + back@,
        front@.len() > 0,
        back@.len() > 0,
        call_ensures(origin_valid, (front,), front_valid),
        call_ensures(origin_valid, (back,), back_valid),
        call_ensures(origin_valid, (whole,), valid),
    ensures
        front@.len() + back@.len() <= MAX_ORIGIN_LEN ==> (valid <==> front_valid && back_valid),
        front@.len() + back@.len() > MAX_ORIGIN_LEN ==> !valid,
        front@.len() == 1 ==> (front_valid <==> 0x20 < front@[0] as int && (front@[0] as int)
            < 0x7F),
{
    assert(front_valid == is_origin(front@));
    assert(back_valid == is_origin(back@));
    assert forall|i: int| 0 <= i < front@.len() implies whole@[i] == front@[i] by {}
    assert forall|i: int| 0 <= i < back@.len() implies #[trigger] back@[i] == whole@[front@.len()
        + i] by {}
    if front@.len() + back@.len() <= MAX_ORIGIN_LEN {
        if valid {
            assert forall|i: int| 0 <= i < front@.len() implies is_origin_char(
                #[trigger] front@[i],
            ) by {
                assert(is_origin_char(whole@[i]));
            }
            assert forall|i: int| 0 <= i < back@.len() implies is_origin_char(
                #[trigger] back@[i],
            ) by {
                assert(is_origin_char(whole@[front@.len() + i]));
            }
        }
        if front_valid && back_valid {
            assert forall|i: int| 0 <= i < whole@.len() implies is_origin_char(
                #[trigger] whole@[i],
            ) by {
                if i >= front@.len() {
                    assert(is_origin_char(back@[i - front@.len()]));
                } else {
                    assert(is_origin_char(front@[i]));
                }
            }
        }
    }
}


/// Synchronous reads are offered to dedicated and to shared workers, and to
/// nobody else: a window and a service worker must not be held up.
pub proof fn lemma_only_workers_read_synchronously(
    environment: FileApiEnvironment,
    enabled: bool,
)
    requires
        call_ensures(FileApiEnvironment::file_reader_sync_enabled, (&environment,), enabled),
    ensures
        enabled <==> (environment is DedicatedWorker || environment is SharedWorker),
        environment is Window || environment is ServiceWorker ==> !enabled,
{
}

} // verus!
