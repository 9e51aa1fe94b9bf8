//! Blob URLs and the store behind them.

use vstd::prelude::*;

use crate::blob::{BlobData, BlobView};
use crate::environment::{is_origin, is_origin_char, EnvironmentKey, MAX_ORIGIN_LEN};
use crate::text::{chars_of, join3, same_text};

verus! {

/// Failures of blob URL operations.
#[derive(Clone, Copy, Debug, PartialEq, Eq, Structural)]
pub enum BlobUrlError {
    /// The text is no blob URL, or the environment has no valid origin.
    Malformed,
    /// No entry of this environment stands under the URL.
    Unavailable,
    /// The environment may not make blob URLs.
    Forbidden,
    /// The store is full.
    LimitExceeded,
    /// The URL is taken.
    Collision,
    /// No random bytes could be had.
    EntropyUnavailable,
    /// The object is no blob.
    InvalidObject,
    /// The runtime is shut down.
    Shutdown,
    /// Anything else.
    Internal,
}

/// The digit of a number below 16.
pub open spec fn hex_digit(value: int) -> char {
    if value < 10 {
        (('0' as int) + value) as char
    } else {
        (('a' as int) + value - 10) as char
    }
}

/// The two digits of a byte.
pub open spec fn hex_byte(byte: u8) -> Seq<char> {
    seq![hex_digit(byte as int / 16), hex_digit(byte as int % 16)]
}

/// The digits of some bytes.
pub open spec fn hex_text(bytes: Seq<u8>) -> Seq<char>
    decreases bytes.len(),
{
    if bytes.len() == 0 {
        Seq::empty()
    } else {
        hex_text(bytes.drop_last()) + hex_byte(bytes.last())
    }
}

/// Random bytes with the version and variant of a random UUID set.
pub open spec fn stamped(raw: Seq<u8>) -> Seq<u8> {
    raw.update(6, (raw[6] % 16 + 64) as u8).update(8, (raw[8] % 64 + 128) as u8)
}

/// The text of the random UUID made of 16 bytes.
pub open spec fn uuid_text(raw: Seq<u8>) -> Seq<char> {
    let bytes = stamped(raw);
    hex_text(bytes.subrange(0, 4)).push('-') + hex_text(bytes.subrange(4, 6)).push('-') + hex_text(
        bytes.subrange(6, 8),
    ).push('-') + hex_text(bytes.subrange(8, 10)).push('-') + hex_text(bytes.subrange(10, 16))
}

/// The digit of a number below 16.
fn digit(value: u8) -> (c: char)
    requires
        value < 16,
    ensures
        c == hex_digit(value as int),
{
    if value < 10 {
        (48 + value) as char
    } else {
        (87 + value) as char
    }
}

/// Appends the digits of `bytes[from..to]`.
fn push_hex(text: &mut String, bytes: &[u8; 16], from: usize, to: usize)
    requires
        from <= to <= 16,
    ensures
        final(text)@ == old(text)@ + hex_text(bytes@.subrange(from as int, to as int)),
{
    let ghost start = text@;
    for i in from..to
        invariant
            from <= i <= to <= 16,
            start == old(text)@,
            text@ =~= start + hex_text(bytes@.subrange(from as int, i as int)),
    {
        let byte: u8 = bytes[i];
        text.push(digit(byte / 16));
        text.push(digit(byte % 16));
        proof {
            let longer = bytes@.subrange(from as int, i + 1);
            assert(longer.drop_last() =~= bytes@.subrange(from as int, i as int));
            assert(longer.last() == byte);
        }
    }
}

/// The random UUID made of 16 bytes.
pub fn format_uuid_v4(raw: [u8; 16]) -> (uuid: String)
    ensures
        uuid@ == uuid_text(raw@),
{
    let mut bytes = raw;
    bytes[6] = raw[6] % 16 + 64;
    bytes[8] = raw[8] % 64 + 128;
    assert(bytes@ =~= stamped(raw@));
    let mut uuid = String::new();
    push_hex(&mut uuid, &bytes, 0, 4);
    uuid.push('-');
    push_hex(&mut uuid, &bytes, 4, 6);
    uuid.push('-');
    push_hex(&mut uuid, &bytes, 6, 8);
    uuid.push('-');
    push_hex(&mut uuid, &bytes, 8, 10);
    uuid.push('-');
    push_hex(&mut uuid, &bytes, 10, 16);
    assert(uuid@ =~= uuid_text(raw@));
    uuid
}

/// The blob URL of a UUID under an origin.
pub open spec fn url_text(origin: Seq<char>, uuid: Seq<char>) -> Seq<char> {
    "blob:"@ + origin + "/"@ + uuid
}

/// The blob URL of a UUID under an origin.
pub fn format_blob_url(origin: &str, uuid: &str) -> (url: String)
    ensures
        url@ == url_text(origin@, uuid@),
{
    let mut url = join3("blob:", origin, "/");
    url.push_str(uuid);
    url
}

/// Whether a character is a digit of a UUID.
pub open spec fn is_hex_char(c: char) -> bool {
    '0' <= c <= '9' || 'a' <= c <= 'f'
}

/// Whether the characters have the shape of a random UUID.
pub open spec fn is_uuid(text: Seq<char>) -> bool {
    &&& text.len() == 36
    &&& text[14] == '4'
    &&& text[19] == '8' || text[19] == '9' || text[19] == 'a' || text[19] == 'b'
    &&& forall|i: int|
        0 <= i < 36 ==> if i == 8 || i == 13 || i == 18 || i == 23 {
            (#[trigger] text[i]) == '-'
        } else {
            is_hex_char(text[i])
        }
}

/// Whether a text has the shape of a blob URL: the scheme, a serialized origin,
/// a slash, and a random UUID.
pub open spec fn is_blob_url(url: Seq<char>) -> bool {
    &&& url.len() > 42
    &&& url.take(5) == "blob:"@
    &&& is_origin(url.subrange(5, url.len() - 37))
    &&& url[url.len() - 37] == '/'
    &&& is_uuid(url.skip(url.len() - 36))
}

/// Tests the shape of a random UUID at the end of a text.
fn uuid_at(chars: &Vec<char>, from: usize) -> (valid: bool)
    requires
        from + 36 == chars@.len(),
    ensures
        valid == is_uuid(chars@.skip(from as int)),
{
    let ghost text = chars@.skip(from as int);
    let end: usize = chars.len();
    if chars[from + 14] != '4' {
        assert(text[14] != '4');
        return false;
    }
    let variant: char = chars[from + 19];
    assert(text[19] == variant);
    if variant != '8' && variant != '9' && variant != 'a' && variant != 'b' {
        return false;
    }
    for i in 0..36usize
        invariant
            from + 36 == end,
            end == chars@.len(),
            text == chars@.skip(from as int),
            forall|k: int|
                0 <= k < i ==> if k == 8 || k == 13 || k == 18 || k == 23 {
                    (#[trigger] text[k]) == '-'
                } else {
                    is_hex_char(text[k])
                },
    {
        let c: char = chars[from + i];
        assert(text[i as int] == c);
        if i == 8 || i == 13 || i == 18 || i == 23 {
            if c != '-' {
                return false;
            }
        } else if !(('0' <= c && c <= '9') || ('a' <= c && c <= 'f')) {
            return false;
        }
    }
    true
}

/// Tests the shape of a blob URL.
pub fn blob_url_valid(url: &str) -> (valid: bool)
    ensures
        valid == is_blob_url(url@),
{
    proof {
        reveal_strlit("blob:");
    }
    let chars = chars_of(url);
    if chars.len() <= 42 {
        return false;
    }
    let scheme = chars[0] == 'b' && chars[1] == 'l' && chars[2] == 'o' && chars[3] == 'b'
        && chars[4] == ':';
    proof {
        if scheme {
            assert(url@.take(5) =~= "blob:"@);
        } else {
            let first = url@.take(5);
            assert(first[0] == chars@[0] && first[1] == chars@[1] && first[2] == chars@[2]
                && first[3] == chars@[3] && first[4] == chars@[4]);
        }
    }
    if !scheme {
        return false;
    }
    let slash: usize = chars.len() - 37;
    if chars[slash] != '/' {
        return false;
    }
    let ghost origin = url@.subrange(5, slash as int);
    if slash - 5 > MAX_ORIGIN_LEN {
        return false;
    }
    for i in 5..slash
        invariant
            5 < slash < chars@.len(),
            origin == chars@.subrange(5, slash as int),
            chars@ == url@,
            slash == url@.len() - 37,
            origin == url@.subrange(5, url@.len() - 37),
            forall|k: int| 0 <= k < i - 5 ==> is_origin_char(#[trigger] origin[k]),
    {
        if chars[i] < '!' || chars[i] > '~' {
            assert(!is_origin_char(origin[i - 5]));
            return false;
        }
    }
    assert(is_origin(origin));
    uuid_at(&chars, slash + 1)
}

/// An entry of the store.
#[derive(Debug)]
pub struct UrlEntry {
    /// The URL.
    pub url: String,
    /// The environment that made it.
    pub owner: EnvironmentKey,
    /// The payload.
    pub data: BlobData,
}

/// The contents of a [`UrlEntry`].
pub struct EntryView {
    /// The URL.
    pub url: Seq<char>,
    /// The environment that made it.
    pub owner: (Seq<char>, u64, u64),
    /// The payload.
    pub data: BlobView,
}

impl View for UrlEntry {
    type V = EntryView;

    open spec fn view(&self) -> EntryView {
        EntryView { url: self.url@, owner: self.owner@, data: self.data@ }
    }
}

/// The position of a URL among entries, if it stands there.
pub open spec fn entry_of(entries: Seq<EntryView>, url: Seq<char>) -> Option<int>
    decreases entries.len(),
{
    if entries.len() == 0 {
        None
    } else if entries.last().url == url {
        Some(entries.len() - 1)
    } else {
        entry_of(entries.drop_last(), url)
    }
}

/// No URL stands twice.
pub open spec fn urls_distinct(entries: Seq<EntryView>) -> bool {
    forall|i: int, j: int|
        0 <= i < j < entries.len() ==> (#[trigger] entries[i]).url != (#[trigger] entries[j]).url
}

/// The blob URLs of one context.
#[derive(Debug)]
pub struct BlobUrlStore {
    entries: Vec<UrlEntry>,
}

impl View for BlobUrlStore {
    type V = Seq<EntryView>;

    closed spec fn view(&self) -> Seq<EntryView> {
        self.entries@.map_values(|entry: UrlEntry| entry@)
    }
}

/// Why an entry is refused, if it is.
pub open spec fn insert_failure(
    entries: Seq<EntryView>,
    url: Seq<char>,
    cap: usize,
) -> Option<BlobUrlError> {
    if entries.len() >= cap {
        Some(BlobUrlError::LimitExceeded)
    } else if entry_of(entries, url) is Some {
        Some(BlobUrlError::Collision)
    } else {
        None
    }
}

/// What a URL gives an environment.
pub open spec fn resolved(
    entries: Seq<EntryView>,
    url: Seq<char>,
    key: (Seq<char>, u64, u64),
) -> Result<BlobView, BlobUrlError> {
    if !is_blob_url(url) {
        Err(BlobUrlError::Malformed)
    } else {
        match entry_of(entries, url) {
            Some(i) => if entries[i].owner == key {
                Ok(entries[i].data)
            } else {
                Err(BlobUrlError::Unavailable)
            },
            None => Err(BlobUrlError::Unavailable),
        }
    }
}

/// The entries after a URL was revoked.
pub open spec fn revoked(entries: Seq<EntryView>, url: Seq<char>) -> Seq<EntryView> {
    match entry_of(entries, url) {
        Some(i) => if is_blob_url(url) {
            entries.remove(i)
        } else {
            entries
        },
        None => entries,
    }
}

impl BlobUrlStore {
    /// A store without entries.
    pub fn new() -> (store: BlobUrlStore)
        ensures
            store@ == Seq::<EntryView>::empty(),
    {
        let store = BlobUrlStore { entries: Vec::new() };
        assert(store@ =~= Seq::<EntryView>::empty());
        store
    }

    /// The number of entries.
    pub fn len(&self) -> (count: usize)
        ensures
            count == self@.len(),
    {
        self.entries.len()
    }

    /// Whether there is no entry.
    pub fn is_empty(&self) -> (empty: bool)
        ensures
            empty == (self@.len() == 0),
    {
        self.entries.len() == 0
    }

    /// The position of a URL.
    fn find(&self, url: &str) -> (found: Option<usize>)
        ensures
            match found {
                Some(i) => entry_of(self@, url@) == Some(i as int) && i < self.entries@.len(),
                None => entry_of(self@, url@) is None,
            },
    {
        let mut i: usize = self.entries.len();
        proof {
            assert(self@.take(i as int) =~= self@);
        }
        while i > 0
            invariant
                i <= self.entries@.len(),
                self@.len() == self.entries@.len(),
                entry_of(self@, url@) == entry_of(self@.take(i as int), url@),
            decreases i,
        {
            proof {
                let here = self@.take(i as int);
                assert(here.last() == self.entries@[i - 1]@);
                assert(here.drop_last() =~= self@.take(i - 1));
            }
            if same_text(self.entries[i - 1].url.as_str(), url) {
                return Some(i - 1);
            }
            i = i - 1;
        }
        None
    }

    /// Adds an entry, unless the store is full or the URL is taken. A live entry
    /// is never overwritten.
    pub fn insert_capped(
        &mut self,
        url: &str,
        owner: &EnvironmentKey,
        data: &BlobData,
        cap: usize,
    ) -> (result: Result<(), BlobUrlError>)
        ensures
            match result {
                Ok(_) => {
                    &&& insert_failure(old(self)@, url@, cap) is None
                    &&& final(self)@ == old(self)@.push(
                        EntryView { url: url@, owner: owner@, data: data@ },
                    )
                },
                Err(error) => {
                    &&& insert_failure(old(self)@, url@, cap) == Some(error)
                    &&& final(self)@ == old(self)@
                },
            },
    {
        if self.entries.len() >= cap {
            return Err(BlobUrlError::LimitExceeded);
        }
        if self.find(url).is_some() {
            return Err(BlobUrlError::Collision);
        }
        let entry = UrlEntry { url: url.to_owned(), owner: owner.copy(), data: data.reference() };
        let ghost added = entry@;
        self.entries.push(entry);
        assert(self@ =~= old(self)@.push(added));
        Ok(())
    }

    /// The payload under a URL. A missing entry and one of another environment
    /// fail alike.
    pub fn resolve(&self, url: &str, key: &EnvironmentKey) -> (result: Result<
        BlobData,
        BlobUrlError,
    >)
        ensures
            match result {
                Ok(data) => resolved(self@, url@, key@) == Ok::<BlobView, BlobUrlError>(data@),
                Err(error) => resolved(self@, url@, key@) == Err::<BlobView, BlobUrlError>(error),
            },
    {
        if !blob_url_valid(url) {
            return Err(BlobUrlError::Malformed);
        }
        match self.find(url) {
            Some(at) => {
                assert(self@[at as int] == self.entries@[at as int]@);
                if self.entries[at].owner.same(key) {
                    Ok(self.entries[at].data.reference())
                } else {
                    Err(BlobUrlError::Unavailable)
                }
            },
            None => Err(BlobUrlError::Unavailable),
        }
    }

    /// Removes the entry of a URL, whoever made it; nothing is reported.
    pub fn revoke(&mut self, url: &str)
        ensures
            final(self)@ == revoked(old(self)@, url@),
    {
        if !blob_url_valid(url) {
            return;
        }
        match self.find(url) {
            Some(at) => {
                let _ = self.entries.remove(at);
                assert(self@ =~= old(self)@.remove(at as int));
            },
            None => {},
        }
    }

    /// Removes every entry.
    pub fn clear(&mut self)
        ensures
            final(self)@ == Seq::<EntryView>::empty(),
    {
        self.entries.clear();
        assert(self@ =~= Seq::<EntryView>::empty());
    }
}

proof fn lemma_hex_text_len(bytes: Seq<u8>)
    ensures
        hex_text(bytes).len() == 2 * bytes.len(),
    decreases bytes.len(),
{
    if bytes.len() > 0 {
        lemma_hex_text_len(bytes.drop_last());
    }
}

proof fn lemma_hex_text_at(bytes: Seq<u8>, i: int)
    requires
        0 <= i < 2 * bytes.len(),
    ensures
        hex_text(bytes).len() == 2 * bytes.len(),
        hex_text(bytes)[i] == hex_byte(bytes[i / 2])[i % 2],
        is_hex_char(hex_text(bytes)[i]),
    decreases bytes.len(),
{
    lemma_hex_text_len(bytes);
    let front = bytes.drop_last();
    lemma_hex_text_len(front);
    if i < 2 * front.len() {
        lemma_hex_text_at(front, i);
        assert(front[i / 2] == bytes[i / 2]);
    } else {
        assert(i / 2 == bytes.len() - 1);
        assert(i - 2 * front.len() == i % 2);
    }
}

/// A random UUID has the shape of one, whatever the bytes.
pub proof fn lemma_uuid_shape(raw: Seq<u8>)
    requires
        raw.len() == 16,
    ensures
        is_uuid(uuid_text(raw)),
{
    let bytes = stamped(raw);
    let a = bytes.subrange(0, 4);
    let b = bytes.subrange(4, 6);
    let c = bytes.subrange(6, 8);
    let d = bytes.subrange(8, 10);
    let e = bytes.subrange(10, 16);
    lemma_hex_text_len(a);
    lemma_hex_text_len(b);
    lemma_hex_text_len(c);
    lemma_hex_text_len(d);
    lemma_hex_text_len(e);
    let text = uuid_text(raw);
    assert(text.len() == 36);
    lemma_hex_text_at(c, 0);
    assert(text[14] == hex_text(c)[0]);
    assert(c[0] == raw[6] % 16 + 64);
    assert(c[0] as int / 16 == 4);
    lemma_hex_text_at(d, 0);
    assert(text[19] == hex_text(d)[0]);
    assert(d[0] == raw[8] % 64 + 128);
    assert(8 <= d[0] as int / 16 <= 11);
    assert forall|i: int| 0 <= i < 36 implies if i == 8 || i == 13 || i == 18 || i == 23 {
        (#[trigger] text[i]) == '-'
    } else {
        is_hex_char(text[i])
    } by {
        if i < 8 {
            lemma_hex_text_at(a, i);
            assert(text[i] == hex_text(a)[i]);
        } else if 8 < i < 13 {
            lemma_hex_text_at(b, i - 9);
            assert(text[i] == hex_text(b)[i - 9]);
        } else if 13 < i < 18 {
            lemma_hex_text_at(c, i - 14);
            assert(text[i] == hex_text(c)[i - 14]);
        } else if 18 < i < 23 {
            lemma_hex_text_at(d, i - 19);
            assert(text[i] == hex_text(d)[i - 19]);
        } else if 23 < i {
            lemma_hex_text_at(e, i - 24);
            assert(text[i] == hex_text(e)[i - 24]);
        }
    }
}

/// What is made of a serialized origin and random bytes has the shape of a blob
/// URL.
pub proof fn lemma_url_shape(origin: Seq<char>, raw: Seq<u8>)
    requires
        raw.len() == 16,
        is_origin(origin),
    ensures
        is_blob_url(url_text(origin, uuid_text(raw))),
{
    lemma_uuid_shape(raw);
    reveal_strlit("blob:");
    reveal_strlit("/");
    let uuid = uuid_text(raw);
    let url = url_text(origin, uuid);
    assert(url.len() == 5 + origin.len() + 1 + 36);
    assert(url.take(5) =~= "blob:"@);
    assert(url.subrange(5, url.len() - 37) =~= origin);
    assert(url.skip(url.len() - 36) =~= uuid);
}

pub(crate) proof fn lemma_entry_of(entries: Seq<EntryView>, url: Seq<char>)
    ensures
        match entry_of(entries, url) {
            Some(i) => 0 <= i < entries.len() && entries[i].url == url,
            None => forall|i: int| 0 <= i < entries.len() ==> (#[trigger] entries[i]).url != url,
        },
    decreases entries.len(),
{
    if entries.len() > 0 && entries.last().url != url {
        let front = entries.drop_last();
        lemma_entry_of(front, url);
        assert forall|i: int| 0 <= i < front.len() implies front[i] == #[trigger] entries[i] by {}
    }
}

proof fn lemma_entry_of_is(entries: Seq<EntryView>, url: Seq<char>, at: int)
    requires
        urls_distinct(entries),
        0 <= at < entries.len(),
        entries[at].url == url,
    ensures
        entry_of(entries, url) == Some(at),
{
    lemma_entry_of(entries, url);
    let found = entry_of(entries, url)->0;
    if found < at {
        assert(entries[found].url != entries[at].url);
    } else if at < found {
        assert(entries[at].url != entries[found].url);
    }
}

/// A stored URL gives its payload back to the environment that made it.
pub proof fn lemma_resolve_gives_back(entries: Seq<EntryView>, added: EntryView)
    requires
        is_blob_url(added.url),
    ensures
        resolved(entries.push(added), added.url, added.owner) == Ok::<BlobView, BlobUrlError>(
            added.data,
        ),
{
}

/// An environment cannot tell an entry of another one from no entry at all.
pub proof fn lemma_foreign_is_missing(
    entries: Seq<EntryView>,
    url: Seq<char>,
    key: (Seq<char>, u64, u64),
)
    requires
        entry_of(entries, url) matches Some(i) ==> entries[i].owner != key,
    ensures
        resolved(entries, url, key) == resolved(Seq::<EntryView>::empty(), url, key),
{
}

/// A new entry under a free URL leaves no URL standing twice.
pub proof fn lemma_insert_keeps_distinct(entries: Seq<EntryView>, added: EntryView)
    requires
        urls_distinct(entries),
        entry_of(entries, added.url) is None,
    ensures
        urls_distinct(entries.push(added)),
{
    lemma_entry_of(entries, added.url);
    let longer = entries.push(added);
    assert forall|i: int, j: int| 0 <= i < j < longer.len() implies (#[trigger] longer[i]).url != (
    #[trigger] longer[j]).url by {
        if j < entries.len() {
            assert(entries[i].url != entries[j].url);
        } else {
            assert(entries[i].url != added.url);
        }
    }
}

/// A new entry leaves the answers for every other URL as they were.
pub proof fn lemma_insert_keeps_others(
    entries: Seq<EntryView>,
    added: EntryView,
    url: Seq<char>,
    key: (Seq<char>, u64, u64),
)
    requires
        url != added.url,
    ensures
        resolved(entries.push(added), url, key) == resolved(entries, url, key),
{
    assert(entries.push(added).drop_last() =~= entries);
    lemma_entry_of(entries, url);
}

/// A revoked URL gives nothing any more, to no environment; every other URL
/// gives what it gave.
pub proof fn lemma_revoke(
    entries: Seq<EntryView>,
    url: Seq<char>,
    other: Seq<char>,
    key: (Seq<char>, u64, u64),
)
    requires
        urls_distinct(entries),
    ensures
        resolved(revoked(entries, url), url, key) == resolved(Seq::<EntryView>::empty(), url, key),
        other != url ==> resolved(revoked(entries, url), other, key) == resolved(
            entries,
            other,
            key,
        ),
        urls_distinct(revoked(entries, url)),
        revoked(revoked(entries, url), url) == revoked(entries, url),
{
    lemma_entry_of(entries, url);
    let rest = revoked(entries, url);
    if entry_of(entries, url) is Some && is_blob_url(url) {
        let at = entry_of(entries, url)->0;
        assert forall|i: int, j: int| 0 <= i < j < rest.len() implies (#[trigger] rest[i]).url != (
        #[trigger] rest[j]).url by {
            let x = if i < at {
                i
            } else {
                i + 1
            };
            let y = if j < at {
                j
            } else {
                j + 1
            };
            assert(entries[x].url != entries[y].url);
        }
        lemma_entry_of(rest, url);
        if entry_of(rest, url) is Some {
            let i = entry_of(rest, url)->0;
            let x = if i < at {
                i
            } else {
                i + 1
            };
            assert(entries[x] == rest[i]);
            lemma_entry_of_is(entries, url, x);
            assert(false);
        }
        if other != url {
            lemma_entry_of(entries, other);
            lemma_entry_of(rest, other);
            if entry_of(entries, other) is Some {
                let i = entry_of(entries, other)->0;
                let x = if i < at {
                    i
                } else {
                    i - 1
                };
                assert(rest[x] == entries[i]);
                lemma_entry_of_is(rest, other, x);
            } else if entry_of(rest, other) is Some {
                let i = entry_of(rest, other)->0;
                let x = if i < at {
                    i
                } else {
                    i + 1
                };
                assert(entries[x] == rest[i]);
            }
        }
    }
}

/// The value of a hexadecimal digit.
pub open spec fn hex_value(digit: char) -> int {
    if '0' <= digit <= '9' {
        digit as u32 - '0' as u32
    } else {
        digit as u32 - 'a' as u32 + 10
    }
}

/// Where the two digits of a byte stand in a UUID.
pub open spec fn digits_at(byte: int) -> int {
    if byte < 4 {
        2 * byte
    } else if byte < 6 {
        2 * byte + 1
    } else if byte < 8 {
        2 * byte + 2
    } else if byte < 10 {
        2 * byte + 3
    } else {
        2 * byte + 4
    }
}

proof fn lemma_hex_value(value: int)
    requires
        0 <= value < 16,
    ensures
        hex_value(hex_digit(value)) == value,
{
}

proof fn lemma_hex_pair(bytes: Seq<u8>, i: int)
    requires
        0 <= i < bytes.len(),
    ensures
        hex_text(bytes).len() == 2 * bytes.len(),
        hex_text(bytes)[2 * i] == hex_digit(bytes[i] as int / 16),
        hex_text(bytes)[2 * i + 1] == hex_digit(bytes[i] as int % 16),
    decreases bytes.len(),
{
    let front = bytes.drop_last();
    if front.len() > 0 {
        lemma_hex_pair(front, if i < front.len() {
            i
        } else {
            0
        });
    } else {
        assert(hex_text(front).len() == 0);
    }
}

/// A UUID shows every random byte, but for the four bits of its version and the
/// two of its variant: different bytes give different UUIDs.
pub proof fn lemma_uuid_shows_its_bytes(raw: [u8; 16], uuid: String, at: int)
    requires
        call_ensures(format_uuid_v4, (raw,), uuid),
        0 <= at < 16,
    ensures
        uuid@.len() == 36,
        ({
            let high = hex_value(uuid@[digits_at(at)]);
            let low = hex_value(uuid@[digits_at(at) + 1]);
            &&& at != 6 && at != 8 ==> 16 * high + low == raw@[at]
            &&& at == 6 ==> high == 4 && low == raw@[6] % 16
            &&& at == 8 ==> 16 * high + low == 128 + raw@[8] % 64
        }),
        uuid@[8] == '-' && uuid@[13] == '-' && uuid@[18] == '-' && uuid@[23] == '-',
{
    let bytes = stamped(raw@);
    assert(bytes.len() == 16);
    let a = bytes.subrange(0, 4);
    let b = bytes.subrange(4, 6);
    let c = bytes.subrange(6, 8);
    let d = bytes.subrange(8, 10);
    let e = bytes.subrange(10, 16);
    lemma_hex_pair(a, if at < 4 {
        at
    } else {
        0
    });
    lemma_hex_pair(b, if 4 <= at < 6 {
        at - 4
    } else {
        0
    });
    lemma_hex_pair(c, if 6 <= at < 8 {
        at - 6
    } else {
        0
    });
    lemma_hex_pair(d, if 8 <= at < 10 {
        at - 8
    } else {
        0
    });
    lemma_hex_pair(e, if 10 <= at {
        at - 10
    } else {
        0
    });
    let value = bytes[at] as int;
    lemma_hex_value(value / 16);
    lemma_hex_value(value % 16);
    assert(uuid@[digits_at(at)] == hex_digit(value / 16));
    assert(uuid@[digits_at(at) + 1] == hex_digit(value % 16));
}

/// A URL that was stored resolves to its blob for its owner, and for nobody else.
/// Every other URL resolves as before. The store is within its cap.
pub proof fn lemma_stored_urls_resolve(
    store: &mut BlobUrlStore,
    url: &str,
    owner: EnvironmentKey,
    data: BlobData,
    cap: usize,
    result: Result<(), BlobUrlError>,
    before: BlobUrlStore,
    after: BlobUrlStore,
    other: &str,
    key: EnvironmentKey,
    found: Result<BlobData, BlobUrlError>,
    found_before: Result<BlobData, BlobUrlError>,
    found_after: Result<BlobData, BlobUrlError>,
)
    requires
        call_ensures(BlobUrlStore::insert_capped, (store, url, &owner, &data, cap), result),
        before@ == store@,
        after@ == final(store)@,
        is_blob_url(url@),
        call_ensures(BlobUrlStore::resolve, (&after, url, &key), found),
        call_ensures(BlobUrlStore::resolve, (&before, other, &key), found_before),
        call_ensures(BlobUrlStore::resolve, (&after, other, &key), found_after),
    ensures
        result is Ok ==> {
            &&& key@ == owner@ ==> (found matches Ok(blob) && blob@ == data@)
            &&& key@ != owner@ ==> found == Err::<BlobData, BlobUrlError>(
                BlobUrlError::Unavailable,
            )
            &&& after@.len() == before@.len() + 1 <= cap
            &&& other@ != url@ ==> match (found_before, found_after) {
                (Ok(a), Ok(b)) => a@ == b@,
                (Err(a), Err(b)) => a == b,
                _ => false,
            }
        },
        result is Err ==> after@ == before@,
        before@.len() >= cap ==> result == Err::<(), BlobUrlError>(BlobUrlError::LimitExceeded),
        before@.len() < cap && (forall|i: int|
            0 <= i < before@.len() ==> (#[trigger] before@[i]).url != url@) ==> result is Ok,
{
    lemma_entry_of(before@, url@);
    lemma_entry_of(before@, other@);
    if result is Ok {
        let added = EntryView { url: url@, owner: owner@, data: data@ };
        assert(after@.last() == added);
        assert(after@.drop_last() =~= before@);
        if other@ != url@ {
            assert(entry_of(after@, other@) == entry_of(before@, other@));
            if entry_of(before@, other@) is Some {
                let i = entry_of(before@, other@)->0;
                assert(after@[i] == before@[i]);
            }
        }
    }
}

/// A URL that was revoked resolves no more, whoever asks; every other URL resolves
/// as before. A text that is no blob URL revokes nothing.
pub proof fn lemma_revoked_urls_are_gone(
    store: &mut BlobUrlStore,
    url: &str,
    before: BlobUrlStore,
    after: BlobUrlStore,
    other: &str,
    key: EnvironmentKey,
    found: Result<BlobData, BlobUrlError>,
    found_before: Result<BlobData, BlobUrlError>,
    found_after: Result<BlobData, BlobUrlError>,
)
    requires
        urls_distinct(store@),
        call_ensures(BlobUrlStore::revoke, (store, url), ()),
        before@ == store@,
        after@ == final(store)@,
        call_ensures(BlobUrlStore::resolve, (&after, url, &key), found),
        call_ensures(BlobUrlStore::resolve, (&before, other, &key), found_before),
        call_ensures(BlobUrlStore::resolve, (&after, other, &key), found_after),
    ensures
        found is Err,
        other@ != url@ ==> match (found_before, found_after) {
            (Ok(a), Ok(b)) => a@ == b@,
            (Err(a), Err(b)) => a == b,
            _ => false,
        },
        after@.len() <= before@.len() <= after@.len() + 1,
        urls_distinct(after@),
{
    lemma_revoke(before@, url@, other@, key@);
    lemma_entry_of(before@, url@);
}


/// A text is a blob URL exactly when it is the scheme, an acceptable origin, a
/// slash and a random UUID: hexadecimal digits in lower case, four hyphens, and
/// the digits of the version and the variant in their places.
pub proof fn lemma_blob_urls_have_one_shape(
    url: &str,
    valid: bool,
    origin: &str,
    acceptable: bool,
    uuid: Seq<char>,
)
    requires
        call_ensures(blob_url_valid, (url,), valid),
        call_ensures(crate::environment::origin_valid, (origin,), acceptable),
        uuid.len() == 36,
    ensures
        url@ == "blob:"@ + origin@ + seq!['/'] + uuid ==> (valid <==> acceptable && uuid[14] == '4'
            && (uuid[19] == '8' || uuid[19] == '9' || uuid[19] == 'a' || uuid[19] == 'b')
            && uuid[8] == '-' && uuid[13] == '-' && uuid[18] == '-' && uuid[23] == '-' && (forall|
            i: int,
        |
            0 <= i < 36 && i != 8 && i != 13 && i != 18 && i != 23 ==> '0' <= #[trigger] uuid[i]
                <= '9' || 'a' <= uuid[i] <= 'f')),
        valid ==> url@.len() > 42 && url@.take(5) == "blob:"@ && url@[url@.len() - 37] == '/',
{
    reveal_strlit("blob:");
    if url@ == "blob:"@ + origin@ + seq!['/'] + uuid {
        assert(url@.take(5) =~= "blob:"@);
        assert(url@.len() == 42 + origin@.len());
        assert(url@.subrange(5, url@.len() - 37) =~= origin@);
        assert(url@.skip(url@.len() - 36) =~= uuid);
        assert(url@[url@.len() - 37] == '/');
        let shape = uuid[14] == '4' && (uuid[19] == '8' || uuid[19] == '9' || uuid[19] == 'a'
            || uuid[19] == 'b') && uuid[8] == '-' && uuid[13] == '-' && uuid[18] == '-' && uuid[23]
            == '-' && (forall|i: int|
            0 <= i < 36 && i != 8 && i != 13 && i != 18 && i != 23 ==> '0' <= #[trigger] uuid[i]
                <= '9' || 'a' <= uuid[i] <= 'f');
        if is_uuid(uuid) {
            assert(uuid[8] == '-' && uuid[13] == '-' && uuid[18] == '-' && uuid[23] == '-');
            assert forall|i: int|
                0 <= i < 36 && i != 8 && i != 13 && i != 18 && i != 23 implies '0'
                <= #[trigger] uuid[i] <= '9' || 'a' <= uuid[i] <= 'f' by {
                assert(is_hex_char(uuid[i]));
            }
        }
        if shape {
            assert(is_uuid(uuid));
        }
        if acceptable {
            assert(origin@.len() > 0);
        }
    }
}

} // verus!
