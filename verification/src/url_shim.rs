//! Making blob URLs: `URL.createObjectURL` and its host counterpart.

use vstd::prelude::*;

use crate::blob::BlobData;
use crate::blob_url::{
    format_blob_url, format_uuid_v4, insert_failure, is_blob_url, url_text, uuid_text, BlobUrlError,
    BlobUrlStore, EntryView,
};
use crate::environment::{is_origin, origin_valid, EnvironmentKey, FileApiEnvironment};
use crate::error::{type_error, JsError, JsErrorKind};

verus! {

/// A source of random bytes for the UUIDs of blob URLs.
///
/// A block of zeros stands for a failure to get any.
pub trait UrlEntropySource: Send + Sync + 'static {
    /// Sixteen random bytes.
    fn fill_16(&self) -> [u8; 16];
}

/// The random source of the operating system.
#[derive(Debug, Clone, Copy, Default)]
pub struct OsEntropy;

/// `getrandom::fill` fills the bytes at random or fails; nothing is claimed of
/// them.
#[verifier::external_body]
fn random_block() -> (block: Option<[u8; 16]>) {
    let mut block = [0_u8; 16];
    match getrandom::fill(&mut block) {
        Ok(()) => Some(block),
        Err(_) => None,
    }
}

/// Whether `drawn` may come of asking the operating system for a block.
pub closed spec fn may_be_drawn(drawn: Option<[u8; 16]>) -> bool {
    call_ensures(random_block, (), drawn)
}

/// The block that a draw stands for: zeros where it failed.
pub open spec fn block_of(drawn: Option<[u8; 16]>) -> Seq<u8> {
    match drawn {
        Some(block) => block@,
        None => Seq::new(16, |i: int| 0u8),
    }
}

/// The block that a draw stands for.
pub fn block_or_zeros(drawn: Option<[u8; 16]>) -> (block: [u8; 16])
    ensures
        block@ == block_of(drawn),
{
    match drawn {
        Some(block) => block,
        None => {
            let zeros = [0u8; 16];
            assert(zeros@ =~= block_of(None));
            zeros
        },
    }
}

impl UrlEntropySource for OsEntropy {
    /// A block of the operating system, as it was drawn; zeros where none could
    /// be had.
    fn fill_16(&self) -> (block: [u8; 16])
        ensures
            exists|drawn: Option<[u8; 16]>| #[trigger]
                may_be_drawn(drawn) && block@ == block_of(drawn),
    {
        let drawn = random_block();
        assert(may_be_drawn(drawn));
        block_or_zeros(drawn)
    }
}

/// How often a taken URL is tried again with fresh random bytes, the first try
/// included.
pub const MAX_ATTEMPTS: usize = 8;

/// A block of zeros.
pub open spec fn is_zero(raw: Seq<u8>) -> bool {
    forall|i: int| 0 <= i < raw.len() ==> #[trigger] raw[i] == 0
}

/// Whether a block is all zeros.
fn zero_block(raw: &[u8; 16]) -> (zero: bool)
    ensures
        zero == is_zero(raw@),
{
    for i in 0..16usize
        invariant
            forall|k: int| 0 <= k < i ==> #[trigger] raw@[k] == 0,
    {
        if raw[i] != 0 {
            assert(raw@[i as int] != 0);
            return false;
        }
    }
    true
}

/// The URL that random bytes stand for under an origin.
pub open spec fn drawn_url(origin: Seq<char>, raw: Seq<u8>) -> Seq<char> {
    url_text(origin, uuid_text(raw))
}

/// What one try gives.
pub open spec fn attempt(
    entries: Seq<EntryView>,
    origin: Seq<char>,
    raw: Seq<u8>,
    cap: usize,
) -> Result<Seq<char>, BlobUrlError> {
    if is_zero(raw) {
        Err(BlobUrlError::EntropyUnavailable)
    } else {
        match insert_failure(entries, drawn_url(origin, raw), cap) {
            Some(error) => Err(error),
            None => Ok(drawn_url(origin, raw)),
        }
    }
}

/// One try: the store has the entry where it succeeds, and is unchanged where it
/// does not.
pub fn insert_attempt(
    store: &mut BlobUrlStore,
    origin: &str,
    owner: &EnvironmentKey,
    data: &BlobData,
    raw: [u8; 16],
    cap: usize,
) -> (result: Result<String, BlobUrlError>)
    ensures
        match result {
            Ok(url) => {
                &&& attempt(old(store)@, origin@, raw@, cap) == Ok::<Seq<char>, BlobUrlError>(url@)
                &&& final(store)@ == old(store)@.push(
                    EntryView { url: url@, owner: owner@, data: data@ },
                )
            },
            Err(error) => {
                &&& attempt(old(store)@, origin@, raw@, cap) == Err::<Seq<char>, BlobUrlError>(
                    error,
                )
                &&& final(store)@ == old(store)@
            },
        },
{
    if zero_block(&raw) {
        return Err(BlobUrlError::EntropyUnavailable);
    }
    let uuid = format_uuid_v4(raw);
    let url = format_blob_url(origin, uuid.as_str());
    match store.insert_capped(url.as_str(), owner, data, cap) {
        Ok(_) => Ok(url),
        Err(error) => Err(error),
    }
}

/// Whether a try ends the search: every outcome does but a taken URL.
pub open spec fn decides(outcome: Result<Seq<char>, BlobUrlError>) -> bool {
    outcome != Err::<Seq<char>, BlobUrlError>(BlobUrlError::Collision)
}

/// Whether `draws` are the tries that end in `outcome`: all of them but the last
/// met a taken URL, and there are eight at most.
pub open spec fn search(
    entries: Seq<EntryView>,
    origin: Seq<char>,
    draws: Seq<[u8; 16]>,
    cap: usize,
    outcome: Result<Seq<char>, BlobUrlError>,
) -> bool {
    &&& 1 <= draws.len() <= MAX_ATTEMPTS
    &&& forall|i: int|
        0 <= i < draws.len() - 1 ==> !decides(
            attempt(entries, origin, (#[trigger] draws[i])@, cap),
        )
    &&& attempt(entries, origin, draws.last()@, cap) == outcome
    &&& decides(outcome) || draws.len() == MAX_ATTEMPTS
}

/// Whether the source may have given every block of `draws`.
pub open spec fn all_drawn<E: UrlEntropySource>(entropy: E, draws: Seq<[u8; 16]>) -> bool {
    forall|i: int|
        0 <= i < draws.len() ==> call_ensures(E::fill_16, (&entropy,), #[trigger] draws[i])
}

/// Whether a search with blocks that the source may have given ends in `outcome`.
pub open spec fn some_search<E: UrlEntropySource>(
    entropy: E,
    entries: Seq<EntryView>,
    origin: Seq<char>,
    cap: usize,
    outcome: Result<Seq<char>, BlobUrlError>,
) -> bool {
    exists|draws: Seq<[u8; 16]>|
        all_drawn(entropy, draws) && #[trigger] search(entries, origin, draws, cap, outcome)
}

/// The outcome of a search, with the URL as its characters.
pub open spec fn outcome_of(result: Result<String, BlobUrlError>) -> Result<
    Seq<char>,
    BlobUrlError,
> {
    match result {
        Ok(url) => Ok(url@),
        Err(error) => Err(error),
    }
}

/// Stores `data` under a fresh URL of `origin`.
///
/// A taken URL is tried again with fresh random bytes, a bounded number of
/// times; a live entry is never overwritten, and a failure leaves the store as
/// it was.
pub fn insert_url<E: UrlEntropySource>(
    store: &mut BlobUrlStore,
    origin: &str,
    owner: &EnvironmentKey,
    data: &BlobData,
    entropy: &E,
    cap: usize,
) -> (result: Result<String, BlobUrlError>)
    ensures
        some_search(*entropy, old(store)@, origin@, cap, outcome_of(result)),
        match result {
            Ok(url) => final(store)@ == old(store)@.push(
                EntryView { url: url@, owner: owner@, data: data@ },
            ),
            Err(_) => final(store)@ == old(store)@,
        },
{
    let ghost entries = store@;
    let mut tries: usize = 0;
    let ghost mut draws: Seq<[u8; 16]> = Seq::empty();
    loop
        invariant
            entries == old(store)@,
            store@ == entries,
            tries < MAX_ATTEMPTS,
            draws.len() == tries,
            all_drawn(*entropy, draws),
            forall|i: int|
                0 <= i < draws.len() ==> !decides(
                    attempt(entries, origin@, (#[trigger] draws[i])@, cap),
                ),
        decreases MAX_ATTEMPTS - tries,
    {
        let raw: [u8; 16] = entropy.fill_16();
        proof {
            draws = draws.push(raw);
            assert(draws.last() == raw);
        }
        tries = tries + 1;
        match insert_attempt(store, origin, owner, data, raw, cap) {
            Err(BlobUrlError::Collision) => {
                if tries == MAX_ATTEMPTS {
                    proof {
                        assert(search(
                            entries,
                            origin@,
                            draws,
                            cap,
                            Err::<Seq<char>, BlobUrlError>(BlobUrlError::Collision),
                        ));
                    }
                    return Err(BlobUrlError::Collision);
                }
            },
            Err(other) => {
                proof {
                    assert(search(
                        entries,
                        origin@,
                        draws,
                        cap,
                        Err::<Seq<char>, BlobUrlError>(other),
                    ));
                }
                return Err(other);
            },
            Ok(url) => {
                proof {
                    assert(search(
                        entries,
                        origin@,
                        draws,
                        cap,
                        Ok::<Seq<char>, BlobUrlError>(url@),
                    ));
                }
                return Ok(url);
            },
        }
    }
}

/// Why an environment gets no URL at all, if it does not.
pub open spec fn create_refusal(
    shutdown: bool,
    environment: FileApiEnvironment,
    origin: Seq<char>,
    cap: usize,
) -> Option<BlobUrlError> {
    if shutdown {
        Some(BlobUrlError::Shutdown)
    } else if !is_origin(origin) {
        Some(BlobUrlError::Malformed)
    } else if environment == FileApiEnvironment::ServiceWorker {
        Some(BlobUrlError::Forbidden)
    } else if cap == 0 {
        Some(BlobUrlError::LimitExceeded)
    } else {
        None
    }
}

/// Makes a blob URL for `data` in an environment.
///
/// A refusal comes before the store or the random source is touched.
pub fn create_url<E: UrlEntropySource>(
    store: &mut BlobUrlStore,
    shutdown: bool,
    environment: FileApiEnvironment,
    owner: &EnvironmentKey,
    data: &BlobData,
    entropy: &E,
    cap: usize,
) -> (result: Result<String, BlobUrlError>)
    ensures
        match create_refusal(shutdown, environment, owner@.0, cap) {
            Some(error) => {
                &&& result == Err::<String, BlobUrlError>(error)
                &&& final(store)@ == old(store)@
            },
            None => {
                &&& some_search(*entropy, old(store)@, owner@.0, cap, outcome_of(result))
                &&& match result {
                    Ok(url) => final(store)@ == old(store)@.push(
                        EntryView { url: url@, owner: owner@, data: data@ },
                    ),
                    Err(_) => final(store)@ == old(store)@,
                }
            },
        },
{
    if shutdown {
        return Err(BlobUrlError::Shutdown);
    }
    if !origin_valid(owner.origin.as_str()) {
        return Err(BlobUrlError::Malformed);
    }
    match environment {
        FileApiEnvironment::ServiceWorker => {
            return Err(BlobUrlError::Forbidden);
        },
        _ => {},
    }
    if cap == 0 {
        return Err(BlobUrlError::LimitExceeded);
    }
    insert_url(store, owner.origin.as_str(), owner, data, entropy, cap)
}

/// What script sees of a failure.
pub open spec fn url_error_text(error: BlobUrlError) -> Seq<char> {
    match error {
        BlobUrlError::InvalidObject => "URL.createObjectURL requires a Blob"@,
        BlobUrlError::Forbidden => "URL creation is not allowed in this context"@,
        _ => "blob URL is not available"@,
    }
}

/// The script error of a failure: one message for every failure but the two that
/// tell nothing of the store.
pub fn map_url_error(error: BlobUrlError) -> (js: JsError)
    ensures
        js@ == (JsErrorKind::Type, url_error_text(error)),
{
    match error {
        BlobUrlError::InvalidObject => type_error("URL.createObjectURL requires a Blob"),
        BlobUrlError::Forbidden => type_error("URL creation is not allowed in this context"),
        _ => type_error("blob URL is not available"),
    }
}

/// What the host sees of a failure.
pub open spec fn host_url_error_text(error: BlobUrlError) -> Seq<char> {
    match error {
        BlobUrlError::Forbidden => "URL creation is not allowed in this context"@,
        BlobUrlError::LimitExceeded => "blob URL quota exceeded"@,
        BlobUrlError::Shutdown => "the File API runtime is shut down"@,
        _ => "blob URL is not available"@,
    }
}

/// The error that the host gets for a failure.
pub fn host_url_error(error: BlobUrlError) -> (js: JsError)
    ensures
        js@ == (JsErrorKind::Type, host_url_error_text(error)),
{
    match error {
        BlobUrlError::Forbidden => type_error("URL creation is not allowed in this context"),
        BlobUrlError::LimitExceeded => type_error("blob URL quota exceeded"),
        BlobUrlError::Shutdown => type_error("the File API runtime is shut down"),
        _ => type_error("blob URL is not available"),
    }
}

/// A created URL is made of the origin and of random bytes that were drawn for it,
/// and is new to the store, which is within its cap. A closed runtime, a service
/// worker and a full store make none, and what is not made leaves no trace.
pub proof fn lemma_created_urls_are_new<E: UrlEntropySource>(
    store: &mut BlobUrlStore,
    shutdown: bool,
    environment: FileApiEnvironment,
    owner: EnvironmentKey,
    data: BlobData,
    entropy: E,
    cap: usize,
    result: Result<String, BlobUrlError>,
)
    requires
        call_ensures(
            create_url::<E>,
            (store, shutdown, environment, &owner, &data, &entropy, cap),
            result,
        ),
    ensures
        result matches Ok(url) ==> {
            &&& !shutdown && environment != FileApiEnvironment::ServiceWorker
            &&& exists|raw: [u8; 16]| #[trigger]
                call_ensures(E::fill_16, (&entropy,), raw) && url@ == "blob:"@ + owner@.0 + "/"@
                    + uuid_text(raw@)
            &&& is_blob_url(url@)
            &&& forall|i: int| 0 <= i < old(store)@.len() ==> (#[trigger] old(store)@[i]).url != url@
            &&& old(store)@.len() < cap
            &&& final(store)@ == old(store)@.push(
                EntryView { url: url@, owner: owner@, data: data@ },
            )
        },
        result is Err ==> final(store)@ == old(store)@,
        shutdown ==> result == Err::<String, BlobUrlError>(BlobUrlError::Shutdown),
        !shutdown && is_origin(owner@.0) && environment == FileApiEnvironment::ServiceWorker
            ==> result == Err::<String, BlobUrlError>(BlobUrlError::Forbidden),
        old(store)@.len() >= cap ==> result is Err,
{
    if let Ok(url) = result {
        let draws = choose|draws: Seq<[u8; 16]>|
            all_drawn(entropy, draws) && #[trigger] search(
                store@,
                owner@.0,
                draws,
                cap,
                outcome_of(result),
            );
        let raw = draws.last();
        assert(draws[draws.len() - 1] == raw);
        assert(call_ensures(E::fill_16, (&entropy,), raw));
        assert(attempt(store@, owner@.0, raw@, cap) == Ok::<Seq<char>, BlobUrlError>(url@));
        crate::blob_url::lemma_url_shape(owner@.0, raw@);
        crate::blob_url::lemma_entry_of(store@, url@);
    }
}


/// A request that nothing forbids succeeds whenever the random source gives blocks
/// that are not all zeros and stand for no stored URL; a source that gives nothing
/// but zeros gives no URL.
pub proof fn lemma_fresh_blocks_make_urls<E: UrlEntropySource>(
    store: &mut BlobUrlStore,
    environment: FileApiEnvironment,
    owner: EnvironmentKey,
    data: BlobData,
    entropy: E,
    cap: usize,
    result: Result<String, BlobUrlError>,
)
    requires
        call_ensures(
            create_url::<E>,
            (store, false, environment, &owner, &data, &entropy, cap),
            result,
        ),
        is_origin(owner@.0),
        environment != FileApiEnvironment::ServiceWorker,
        store@.len() < cap,
    ensures
        (forall|raw: [u8; 16]| #[trigger]
            call_ensures(E::fill_16, (&entropy,), raw) ==> !is_zero(raw@) && forall|i: int|
                0 <= i < old(store)@.len() ==> (#[trigger] old(store)@[i]).url != "blob:"@
                    + owner@.0 + "/"@ + uuid_text(raw@)) ==> result is Ok,
        (forall|raw: [u8; 16]| #[trigger]
            call_ensures(E::fill_16, (&entropy,), raw) ==> is_zero(raw@)) ==> result == Err::<
            String,
            BlobUrlError,
        >(BlobUrlError::EntropyUnavailable),
{
    let draws = choose|draws: Seq<[u8; 16]>|
        all_drawn(entropy, draws) && #[trigger] search(
            store@,
            owner@.0,
            draws,
            cap,
            outcome_of(result),
        );
    let raw = draws.last();
    assert(draws[draws.len() - 1] == raw);
    assert(call_ensures(E::fill_16, (&entropy,), raw));
    crate::blob_url::lemma_entry_of(store@, drawn_url(owner@.0, raw@));
}

} // verus!
