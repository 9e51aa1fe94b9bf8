//! Immutable blob payloads: a list of byte ranges of shared sources.
//!
//! Composition and slicing re-link ranges; bytes are never copied.

use std::sync::Arc;

use vstd::prelude::*;

use crate::error::{FileApiError, ResourceLimitKind};
use crate::limits::FileApiLimits;
use crate::mime::{ascii_lower, to_ascii_lower};
use crate::text::chars_of;

verus! {

/// `Arc::clone` hands out another reference to the same value.
#[verifier::external_body]
fn share(bytes: &Arc<Vec<u8>>) -> (shared: Arc<Vec<u8>>)
    ensures
        shared == *bytes,
{
    Arc::clone(bytes)
}

/// Where the bytes of a segment come from.
#[derive(Clone, Debug)]
pub enum ByteSource {
    /// Bytes held in memory.
    Memory(Arc<Vec<u8>>),
    /// A host resource, named by its handle, of a fixed length.
    Host {
        /// The handle that the host reads by.
        handle: u64,
        /// The length of the resource.
        len: u64,
    },
}

impl ByteSource {
    /// The number of bytes of the source.
    pub open spec fn spec_len(self) -> int {
        match self {
            ByteSource::Memory(bytes) => bytes@.len() as int,
            ByteSource::Host { handle, len } => len as int,
        }
    }

    /// The bytes of the source, given those of the host resources.
    pub open spec fn bytes(self, host: Map<u64, Seq<u8>>) -> Seq<u8> {
        match self {
            ByteSource::Memory(bytes) => bytes@,
            ByteSource::Host { handle, len } => host[handle],
        }
    }

    /// Whether `host` holds this source in its full length.
    pub open spec fn held_by(self, host: Map<u64, Seq<u8>>) -> bool {
        match self {
            ByteSource::Memory(bytes) => true,
            ByteSource::Host { handle, len } => host.contains_key(handle) && host[handle].len()
                == len,
        }
    }

    /// Another reference to the same source.
    pub fn reference(&self) -> (source: ByteSource)
        ensures
            source == *self,
    {
        match self {
            ByteSource::Memory(bytes) => ByteSource::Memory(share(bytes)),
            ByteSource::Host { handle, len } => ByteSource::Host { handle: *handle, len: *len },
        }
    }
}

/// A byte range of a source.
#[derive(Clone, Debug)]
pub struct BlobSegment {
    /// The source.
    pub source: ByteSource,
    /// The first byte of the range.
    pub offset: u64,
    /// The length of the range.
    pub len: u64,
}

impl BlobSegment {
    /// The range is not empty and lies within its source.
    pub open spec fn wf(self) -> bool {
        &&& self.len > 0
        &&& self.offset + self.len <= self.source.spec_len()
    }

    /// The bytes of the range.
    pub open spec fn bytes(self, host: Map<u64, Seq<u8>>) -> Seq<u8> {
        self.source.bytes(host).subrange(self.offset as int, self.offset + self.len)
    }

    /// Another reference to the same range.
    pub fn reference(&self) -> (segment: BlobSegment)
        ensures
            segment == *self,
    {
        BlobSegment { source: self.source.reference(), offset: self.offset, len: self.len }
    }
}

/// Every segment is well-formed.
pub open spec fn segments_wf(segments: Seq<BlobSegment>) -> bool {
    forall|i: int| 0 <= i < segments.len() ==> (#[trigger] segments[i]).wf()
}

/// Every source of `segments` is held by `host`.
pub open spec fn segments_held(segments: Seq<BlobSegment>, host: Map<u64, Seq<u8>>) -> bool {
    forall|i: int| 0 <= i < segments.len() ==> (#[trigger] segments[i]).source.held_by(host)
}

/// The lengths of `segments`, added up.
pub open spec fn total_len(segments: Seq<BlobSegment>) -> int
    decreases segments.len(),
{
    if segments.len() == 0 {
        0
    } else {
        total_len(segments.drop_last()) + segments.last().len
    }
}

/// The bytes of `segments`, one after the other.
pub open spec fn segments_bytes(segments: Seq<BlobSegment>, host: Map<u64, Seq<u8>>) -> Seq<u8>
    decreases segments.len(),
{
    if segments.len() == 0 {
        Seq::empty()
    } else {
        segments_bytes(segments.drop_last(), host) + segments.last().bytes(host)
    }
}

pub proof fn lemma_total_len_concat(a: Seq<BlobSegment>, b: Seq<BlobSegment>)
    ensures
        total_len(a + b) == total_len(a) + total_len(b),
    decreases b.len(),
{
    if b.len() == 0 {
        assert(a + b =~= a);
    } else {
        lemma_total_len_concat(a, b.drop_last());
        assert((a + b).drop_last() =~= a + b.drop_last());
    }
}

pub proof fn lemma_segments_bytes_concat(
    a: Seq<BlobSegment>,
    b: Seq<BlobSegment>,
    host: Map<u64, Seq<u8>>,
)
    ensures
        segments_bytes(a + b, host) == segments_bytes(a, host) + segments_bytes(b, host),
    decreases b.len(),
{
    if b.len() == 0 {
        assert(a + b =~= a);
        assert(segments_bytes(a, host) + segments_bytes(b, host) =~= segments_bytes(a, host));
    } else {
        lemma_segments_bytes_concat(a, b.drop_last(), host);
        assert((a + b).drop_last() =~= a + b.drop_last());
        assert(segments_bytes(a + b, host) =~= segments_bytes(a, host) + segments_bytes(b, host));
    }
}

/// Two runs of ranges are held where both are.
pub proof fn lemma_held_concat(
    a: Seq<BlobSegment>,
    b: Seq<BlobSegment>,
    host: Map<u64, Seq<u8>>,
)
    ensures
        segments_held(a + b, host) == (segments_held(a, host) && segments_held(b, host)),
{
    let both = a + b;
    if segments_held(both, host) {
        assert forall|i: int| 0 <= i < a.len() implies (#[trigger] a[i]).source.held_by(host) by {
            assert(both[i] == a[i]);
        }
        assert forall|i: int| 0 <= i < b.len() implies (#[trigger] b[i]).source.held_by(host) by {
            assert(both[a.len() + i] == b[i]);
        }
    }
    if segments_held(a, host) && segments_held(b, host) {
        assert forall|i: int| 0 <= i < both.len() implies (#[trigger] both[i]).source.held_by(
            host,
        ) by {
            if i < a.len() {
                assert(both[i] == a[i]);
            } else {
                assert(both[i] == b[i - a.len()]);
            }
        }
    }
}

pub proof fn lemma_segments_bytes_len(segments: Seq<BlobSegment>, host: Map<u64, Seq<u8>>)
    requires
        segments_wf(segments),
        segments_held(segments, host),
    ensures
        segments_bytes(segments, host).len() == total_len(segments),
    decreases segments.len(),
{
    if segments.len() > 0 {
        assert(segments_wf(segments.drop_last()) && segments_held(segments.drop_last(), host)) by {
            assert forall|i: int| 0 <= i < segments.drop_last().len() implies (
            #[trigger] segments.drop_last()[i]).wf() && segments.drop_last()[i].source.held_by(
                host,
            ) by {
                assert(segments.drop_last()[i] == segments[i]);
                assert(segments[i].wf());
                assert(segments[i].source.held_by(host));
            }
        }
        lemma_segments_bytes_len(segments.drop_last(), host);
        assert(segments.last() == segments[segments.len() - 1]);
        assert(segments.last().wf());
        assert(segments.last().source.held_by(host));
    }
}

pub proof fn lemma_total_len_nonnegative(segments: Seq<BlobSegment>)
    ensures
        total_len(segments) >= 0,
    decreases segments.len(),
{
    if segments.len() > 0 {
        lemma_total_len_nonnegative(segments.drop_last());
    }
}

/// An immutable blob payload.
#[derive(Clone, Debug)]
pub struct BlobData {
    /// The byte ranges, in order.
    segments: Vec<BlobSegment>,
    /// The lengths of the ranges, added up.
    size: u64,
    /// The media type.
    media_type: String,
}

/// The contents of a [`BlobData`].
pub struct BlobView {
    /// The byte ranges.
    pub segments: Seq<BlobSegment>,
    /// The number of bytes.
    pub size: u64,
    /// The media type.
    pub media_type: Seq<char>,
}

impl View for BlobData {
    type V = BlobView;

    open spec fn view(&self) -> BlobView {
        BlobView {
            segments: self.segments(),
            size: self.spec_size(),
            media_type: self.spec_media_type(),
        }
    }
}

impl BlobData {
    /// The byte ranges.
    pub closed spec fn segments(self) -> Seq<BlobSegment> {
        self.segments@
    }

    /// The number of bytes.
    pub closed spec fn spec_size(self) -> u64 {
        self.size
    }

    /// The media type.
    pub closed spec fn spec_media_type(self) -> Seq<char> {
        self.media_type@
    }

    /// The ranges are well-formed, the size is theirs, and the media type is
    /// normalized.
    pub open spec fn wf(self) -> bool {
        &&& segments_wf(self.segments())
        &&& self.spec_size() == total_len(self.segments())
        &&& normalized_type(self.spec_media_type()) == self.spec_media_type()
    }

    /// The bytes of the blob, given those of the host resources.
    pub open spec fn content(self, host: Map<u64, Seq<u8>>) -> Seq<u8> {
        segments_bytes(self.segments(), host)
    }

    /// Whether `host` holds every source of the blob in its full length.
    pub open spec fn held_by(self, host: Map<u64, Seq<u8>>) -> bool {
        segments_held(self.segments(), host)
    }

    /// The number of bytes.
    pub fn size(&self) -> (size: u64)
        ensures
            size == self.spec_size(),
    {
        self.size
    }

    /// The number of byte ranges.
    pub fn segment_count(&self) -> (count: usize)
        ensures
            count == self.segments().len(),
    {
        self.segments.len()
    }

    /// The media type.
    pub fn media_type(&self) -> (media_type: &str)
        ensures
            media_type@ == self.spec_media_type(),
    {
        self.media_type.as_str()
    }

    /// The byte range at `index`.
    pub fn segment(&self, index: usize) -> (segment: &BlobSegment)
        requires
            index < self.segments().len(),
        ensures
            *segment == self.segments()[index as int],
    {
        &self.segments[index]
    }

    /// The blob without bytes, under the normalized media type.
    pub fn empty(media_type: &str) -> (data: BlobData)
        ensures
            data.wf(),
            data.segments() == Seq::<BlobSegment>::empty(),
            data.spec_media_type() == normalized_type(media_type@),
    {
        proof {
            lemma_normalized_type_idempotent(media_type@);
        }
        BlobData { segments: Vec::new(), size: 0, media_type: normalize_blob_type(media_type) }
    }

    /// A blob over one source, under the normalized media type: all of its
    /// bytes, or no range at all where it has none.
    pub fn from_source(source: ByteSource, media_type: &str, limits: &FileApiLimits) -> (result:
        Result<BlobData, FileApiError>)
        requires
            source.spec_len() <= u64::MAX,
        ensures
            match result {
                Ok(data) => {
                    &&& data.wf()
                    &&& data.spec_media_type() == normalized_type(media_type@)
                    &&& data.spec_size() == source.spec_len()
                    &&& source.spec_len() == 0 ==> data.segments() == Seq::<BlobSegment>::empty()
                    &&& source.spec_len() > 0 ==> data.segments() == seq![
                        BlobSegment { source, offset: 0, len: source.spec_len() as u64 },
                    ]
                    &&& source.spec_len() <= limits.max_blob_size
                    &&& source.spec_len() > 0 ==> limits.max_segments > 0
                },
                Err(error) => {
                    ||| error == FileApiError::ResourceLimit(ResourceLimitKind::BlobSize)
                        && source.spec_len() > limits.max_blob_size
                    ||| error == FileApiError::ResourceLimit(ResourceLimitKind::BlobSegments)
                        && source.spec_len() <= limits.max_blob_size && limits.max_segments == 0
                        && source.spec_len() > 0
                },
            },
    {
        let len: u64 = match &source {
            ByteSource::Memory(bytes) => bytes.len() as u64,
            ByteSource::Host { handle, len } => *len,
        };
        if len > limits.max_blob_size {
            return Err(FileApiError::ResourceLimit(ResourceLimitKind::BlobSize));
        }
        if len == 0 {
            return Ok(BlobData::empty(media_type));
        }
        if limits.max_segments == 0 {
            return Err(FileApiError::ResourceLimit(ResourceLimitKind::BlobSegments));
        }
        let mut segments: Vec<BlobSegment> = Vec::new();
        segments.push(BlobSegment { source, offset: 0, len });
        proof {
            assert(segments@.drop_last() =~= Seq::<BlobSegment>::empty());
            assert(total_len(segments@.drop_last()) == 0);
            assert(total_len(segments@) == len);
            lemma_normalized_type_idempotent(media_type@);
        }
        Ok(BlobData { segments, size: len, media_type: normalize_blob_type(media_type) })
    }

    /// A blob over bytes held in memory.
    pub fn from_bytes(bytes: Vec<u8>, media_type: &str, limits: &FileApiLimits) -> (result: Result<
        BlobData,
        FileApiError,
    >)
        ensures
            match result {
                Ok(data) => {
                    &&& data.wf()
                    &&& data.spec_media_type() == normalized_type(media_type@)
                    &&& data.spec_size() == bytes@.len()
                    &&& forall|host: Map<u64, Seq<u8>>| #[trigger] data.content(host) == bytes@
                    &&& forall|host: Map<u64, Seq<u8>>| #[trigger] data.held_by(host)
                    &&& data.segments().len() == if bytes@.len() == 0 {
                        0int
                    } else {
                        1int
                    }
                    &&& bytes@.len() <= limits.max_blob_size
                    &&& bytes@.len() > 0 ==> limits.max_segments > 0
                },
                Err(error) => {
                    ||| error == FileApiError::ResourceLimit(ResourceLimitKind::BlobSize)
                        && bytes@.len() > limits.max_blob_size
                    ||| error == FileApiError::ResourceLimit(ResourceLimitKind::BlobSegments)
                        && 0 < bytes@.len() <= limits.max_blob_size && limits.max_segments == 0
                },
            },
    {
        let ghost contents = bytes@;
        proof {
            assert(bytes.len() <= usize::MAX);
        }
        let shared = Arc::new(bytes);
        match BlobData::from_source(ByteSource::Memory(shared), media_type, limits) {
            Ok(data) => {
                proof {
                    assert forall|host: Map<u64, Seq<u8>>| #[trigger]
                        data.content(host) == contents by {
                        if contents.len() > 0 {
                            assert(data.segments().drop_last() =~= Seq::<BlobSegment>::empty());
                            assert(segments_bytes(data.segments().drop_last(), host)
                                =~= Seq::<u8>::empty());
                            assert(data.content(host) =~= contents);
                        } else {
                            assert(data.content(host) =~= contents);
                        }
                    }
                }
                Ok(data)
            },
            Err(error) => Err(error),
        }
    }

    /// Appends the ranges of `other` as one more part.
    ///
    /// The part count is tested first, then the size, then the segment count;
    /// a failure changes nothing.
    pub fn push_shared(&mut self, other: &BlobData, limits: &FileApiLimits, parts: &mut usize) -> (
    result: Result<(), FileApiError>)
        requires
            old(self).wf(),
            other.wf(),
        ensures
            final(self).wf(),
            final(self).spec_media_type() == old(self).spec_media_type(),
            match result {
                Ok(_) => {
                    &&& *old(parts) < limits.max_parts
                    &&& *final(parts) == *old(parts) + 1
                    &&& final(self).segments() == old(self).segments() + other.segments()
                    &&& final(self).spec_size() == old(self).spec_size() + other.spec_size()
                    &&& final(self).spec_size() <= limits.max_blob_size
                    &&& final(self).segments().len() <= limits.max_segments
                },
                Err(error) => {
                    &&& *final(self) == *old(self)
                    &&& *final(parts) == *old(parts)
                    &&& error == push_error(
                        *old(parts) as int,
                        old(self).spec_size() + other.spec_size(),
                        (old(self).segments().len() + other.segments().len()) as int,
                        *limits,
                    )->0
                },
            },
            result is Err <==> push_error(
                *old(parts) as int,
                old(self).spec_size() + other.spec_size(),
                (old(self).segments().len() + other.segments().len()) as int,
                *limits,
            ) is Some,
    {
        if *parts >= limits.max_parts {
            return Err(FileApiError::ResourceLimit(ResourceLimitKind::BlobParts));
        }
        let size: u64 = match self.size.checked_add(other.size) {
            Some(sum) => sum,
            None => {
                return Err(FileApiError::ResourceLimit(ResourceLimitKind::BlobSize));
            },
        };
        if size > limits.max_blob_size {
            return Err(FileApiError::ResourceLimit(ResourceLimitKind::BlobSize));
        }
        let count: usize = match self.segments.len().checked_add(other.segments.len()) {
            Some(sum) => sum,
            None => {
                return Err(FileApiError::ResourceLimit(ResourceLimitKind::BlobSegments));
            },
        };
        if count > limits.max_segments {
            return Err(FileApiError::ResourceLimit(ResourceLimitKind::BlobSegments));
        }
        let ghost before = self.segments@;
        let mut i: usize = 0;
        while i < other.segments.len()
            invariant
                i <= other.segments@.len(),
                self.segments@ == before + other.segments@.take(i as int),
                self.media_type == old(self).media_type,
            decreases other.segments@.len() - i,
        {
            self.segments.push(other.segments[i].reference());
            assert(other.segments@.take(i + 1) =~= other.segments@.take(i as int).push(
                other.segments@[i as int],
            ));
            i = i + 1;
        }
        proof {
            assert(other.segments@.take(i as int) =~= other.segments@);
            lemma_total_len_concat(before, other.segments@);
            assert forall|k: int| 0 <= k < self.segments@.len() implies (
            #[trigger] self.segments@[k]).wf() by {
                if k < before.len() {
                    assert(before[k].wf());
                } else {
                    assert(other.segments@[k - before.len()].wf());
                }
            }
        }
        self.size = size;
        *parts = *parts + 1;
        Ok(())
    }

    /// The ranges that make up the bytes `start..end`, without those that
    /// contribute nothing.
    pub fn plan(&self, start: u64, end: u64) -> (plan: Vec<BlobSegment>)
        requires
            self.wf(),
            start <= end <= self.spec_size(),
        ensures
            plan@ == slice_segments(self.segments(), start as int, end as int),
            plan@.len() <= self.segments().len(),
            segments_wf(plan@),
            total_len(plan@) == end - start,
            forall|host: Map<u64, Seq<u8>>|
                segments_held(self.segments(), host) ==> #[trigger] segments_bytes(plan@, host)
                    == self.content(host).subrange(start as int, end as int),
    {
        let mut plan: Vec<BlobSegment> = Vec::new();
        let mut position: u64 = 0;
        let mut i: usize = 0;
        proof {
            assert(self.segments@.take(0) =~= Seq::<BlobSegment>::empty());
        }
        while i < self.segments.len()
            invariant
                self.wf(),
                i <= self.segments@.len(),
                start <= end <= self.size,
                position == total_len(self.segments@.take(i as int)),
                plan@ == slice_segments(self.segments@.take(i as int), start as int, end as int),
                plan@.len() <= i,
            decreases self.segments@.len() - i,
        {
            let ghost here = self.segments@.take(i + 1);
            proof {
                assert(here.drop_last() =~= self.segments@.take(i as int));
                assert(here.last() == self.segments@[i as int]);
                assert(self.segments()[i as int].wf());
                assert(self.segments@ =~= here + self.segments@.skip(i + 1));
                lemma_total_len_concat(here, self.segments@.skip(i + 1));
                lemma_total_len_nonnegative(self.segments@.skip(i + 1));
                lemma_total_len_nonnegative(here.drop_last());
            }
            let segment = &self.segments[i];
            let after: u64 = position + segment.len;
            let low: u64 = if position < start {
                start
            } else {
                position
            };
            let high: u64 = if after < end {
                after
            } else {
                end
            };
            if low < high {
                assert(segment.offset + segment.len <= u64::MAX) by {
                    assert(self.segments()[i as int].wf());
                    match segment.source {
                        ByteSource::Memory(bytes) => {
                            assert(bytes.len() <= usize::MAX);
                        },
                        ByteSource::Host { handle, len } => {},
                    }
                }
                plan.push(
                    BlobSegment {
                        source: segment.source.reference(),
                        offset: segment.offset + (low - position),
                        len: high - low,
                    },
                );
            }
            position = after;
            i = i + 1;
        }
        proof {
            assert(self.segments@.take(i as int) =~= self.segments@);
            lemma_slice_segments(self.segments@, start as int, end as int);
            assert forall|host: Map<u64, Seq<u8>>|
                segments_held(self.segments(), host) implies #[trigger] segments_bytes(plan@, host)
                == self.content(host).subrange(start as int, end as int) by {
                lemma_slice_bytes(self.segments@, start as int, end as int, host);
            }
        }
        plan
    }

    /// The bytes from `start` up to `end`, as a blob of its own that shares the
    /// sources of this one.
    ///
    /// Negative positions count from the end; positions are moved into the
    /// blob, and a start at or behind the end gives an empty blob.
    pub fn slice(&self, start: Option<i64>, end: Option<i64>, content_type: Option<&str>) -> (data:
        BlobData)
        requires
            self.wf(),
        ensures
            data.wf(),
            data.spec_media_type() == match content_type {
                Some(text) => normalized_type(text@),
                None => Seq::<char>::empty(),
            },
            ({
                let (from, to) = slice_span(start, end, self.spec_size() as int);
                &&& data.spec_size() == to - from
                &&& data.segments() == slice_segments(self.segments(), from, to)
                &&& data.segments().len() <= self.segments().len()
                &&& forall|host: Map<u64, Seq<u8>>|
                    self.held_by(host) ==> #[trigger] data.content(host) == self.content(
                        host,
                    ).subrange(from, to)
                &&& forall|host: Map<u64, Seq<u8>>|
                    self.held_by(host) ==> #[trigger] data.held_by(host)
            }),
    {
        let from: u64 = resolve_position(start, 0, self.size);
        let limit: u64 = resolve_position(end, self.size, self.size);
        let to: u64 = if limit < from {
            from
        } else {
            limit
        };
        let segments = self.plan(from, to);
        let media_type = match content_type {
            Some(text) => normalize_blob_type(text),
            None => String::new(),
        };
        proof {
            reveal_strlit("");
            assert(content_type is None ==> media_type@ =~= Seq::<char>::empty());
            match content_type {
                Some(text) => lemma_normalized_type_idempotent(text@),
                None => assert(normalized_type(media_type@) =~= media_type@),
            }
        }
        let data = BlobData { segments, size: to - from, media_type };
        proof {
            assert forall|host: Map<u64, Seq<u8>>|
                segments_held(self.segments(), host) implies #[trigger] data.content(host)
                == self.content(host).subrange(from as int, to as int) by {
                assert(data.content(host) == segments_bytes(segments@, host));
            }
            assert forall|host: Map<u64, Seq<u8>>| self.held_by(host) implies #[trigger]
                data.held_by(host) by {
                lemma_slice_held(self.segments(), from as int, to as int, host);
            }
        }
        data
    }

    /// Another payload over the same ranges.
    pub fn reference(&self) -> (data: BlobData)
        ensures
            data@ == self@,
    {
        let mut segments: Vec<BlobSegment> = Vec::new();
        let mut i: usize = 0;
        while i < self.segments.len()
            invariant
                i <= self.segments@.len(),
                segments@ =~= self.segments@.take(i as int),
            decreases self.segments@.len() - i,
        {
            segments.push(self.segments[i].reference());
            i = i + 1;
        }
        assert(self.segments@.take(i as int) =~= self.segments@);
        BlobData { segments, size: self.size, media_type: self.media_type.clone() }
    }

    /// The same payload under another media type, normalized.
    pub fn with_media_type(self, media_type: &str) -> (data: BlobData)
        requires
            self.wf(),
        ensures
            data.wf(),
            data.segments() == self.segments(),
            data.spec_size() == self.spec_size(),
            data.spec_media_type() == normalized_type(media_type@),
    {
        proof {
            lemma_normalized_type_idempotent(media_type@);
        }
        BlobData {
            segments: self.segments,
            size: self.size,
            media_type: normalize_blob_type(media_type),
        }
    }
}

/// Why a part cannot be appended, if it cannot.
pub open spec fn push_error(parts: int, size: int, segments: int, limits: FileApiLimits) -> Option<
    FileApiError,
> {
    if parts >= limits.max_parts {
        Some(FileApiError::ResourceLimit(ResourceLimitKind::BlobParts))
    } else if size > limits.max_blob_size {
        Some(FileApiError::ResourceLimit(ResourceLimitKind::BlobSize))
    } else if segments > limits.max_segments {
        Some(FileApiError::ResourceLimit(ResourceLimitKind::BlobSegments))
    } else {
        None
    }
}

/// The position that `position` names in a blob of `size` bytes, where
/// `default` stands for an absent one.
pub open spec fn relative_position(position: Option<i64>, default: int, size: int) -> int {
    match position {
        None => default,
        Some(value) => if value < 0 {
            if size + value < 0 {
                0
            } else {
                size + value
            }
        } else if value > size {
            size
        } else {
            value as int
        },
    }
}

/// The range that a slice covers.
pub open spec fn slice_span(start: Option<i64>, end: Option<i64>, size: int) -> (int, int) {
    let from = relative_position(start, 0, size);
    let to = relative_position(end, size, size);
    (
        from,
        if to < from {
            from
        } else {
            to
        },
    )
}

/// Moves a position into a blob of `size` bytes.
fn resolve_position(position: Option<i64>, default: u64, size: u64) -> (resolved: u64)
    requires
        default <= size,
    ensures
        resolved == relative_position(position, default as int, size as int),
        resolved <= size,
{
    match position {
        None => default,
        Some(value) => {
            if value < 0 {
                let back: u64 = (-(value as i128)) as u64;
                if back > size {
                    0
                } else {
                    size - back
                }
            } else if value as u64 > size {
                size
            } else {
                value as u64
            }
        },
    }
}

/// A blob's media type: the text in ASCII lower case, or nothing where it holds
/// a character outside `U+0020..=U+007E`.
pub open spec fn normalized_type(text: Seq<char>) -> Seq<char> {
    if forall|i: int| 0 <= i < text.len() ==> 0x20 <= (#[trigger] text[i]) as u32 <= 0x7E {
        text.map_values(|c: char| ascii_lower(c))
    } else {
        Seq::empty()
    }
}

/// Normalizes the media type of a blob.
pub fn normalize_blob_type(text: &str) -> (normalized: String)
    ensures
        normalized@ == normalized_type(text@),
{
    let chars = chars_of(text);
    let mut normalized = String::new();
    proof {
        reveal_strlit("");
    }
    let mut i: usize = 0;
    while i < chars.len()
        invariant
            chars@ == text@,
            i <= chars@.len(),
            forall|k: int| 0 <= k < i ==> 0x20 <= (#[trigger] text@[k]) as u32 <= 0x7E,
            normalized@ =~= text@.take(i as int).map_values(|c: char| ascii_lower(c)),
        decreases chars@.len() - i,
    {
        let code: u32 = chars[i] as u32;
        if code < 0x20 || code > 0x7E {
            assert(!(0x20 <= text@[i as int] as u32 <= 0x7E));
            let nothing = String::new();
            assert(nothing@ =~= Seq::<char>::empty());
            return nothing;
        }
        normalized.push(to_ascii_lower(chars[i]));
        assert(text@.take(i + 1) =~= text@.take(i as int).push(text@[i as int]));
        i = i + 1;
    }
    assert(text@.take(i as int) =~= text@);
    normalized
}

/// The parts of `segments` that lie in the byte range `start..end`.
pub open spec fn slice_segments(segments: Seq<BlobSegment>, start: int, end: int) -> Seq<
    BlobSegment,
>
    decreases segments.len(),
{
    if segments.len() == 0 {
        Seq::empty()
    } else {
        let before = slice_segments(segments.drop_last(), start, end);
        let position = total_len(segments.drop_last());
        let last = segments.last();
        let low = if position < start {
            start
        } else {
            position
        };
        let high = if position + last.len < end {
            position + last.len
        } else {
            end
        };
        if low < high {
            before.push(
                BlobSegment {
                    source: last.source,
                    offset: (last.offset + (low - position)) as u64,
                    len: (high - low) as u64,
                },
            )
        } else {
            before
        }
    }
}

/// `value`, at most `bound`.
pub open spec fn clip(value: int, bound: int) -> int {
    if value < bound {
        value
    } else {
        bound
    }
}

/// What a slice consists of is well-formed and as long as its range.
pub proof fn lemma_slice_segments(segments: Seq<BlobSegment>, start: int, end: int)
    requires
        segments_wf(segments),
        0 <= start <= end,
        total_len(segments) <= u64::MAX,
    ensures
        segments_wf(slice_segments(segments, start, end)),
        total_len(slice_segments(segments, start, end)) == clip(end, total_len(segments)) - clip(
            start,
            total_len(segments),
        ),
    decreases segments.len(),
{
    if segments.len() > 0 {
        let front = segments.drop_last();
        assert(segments_wf(front)) by {
            assert forall|i: int| 0 <= i < front.len() implies (#[trigger] front[i]).wf() by {
                assert(front[i] == segments[i]);
                assert(segments[i].wf());
            }
        }
        lemma_total_len_nonnegative(front);
        lemma_slice_segments(front, start, end);
        let last = segments.last();
        assert(last == segments[segments.len() - 1]);
        assert(last.wf());
        let sliced = slice_segments(segments, start, end);
        let before = slice_segments(front, start, end);
        if sliced.len() > before.len() {
            assert(sliced.drop_last() =~= before);
            assert forall|i: int| 0 <= i < sliced.len() implies (#[trigger] sliced[i]).wf() by {
                if i < before.len() {
                    assert(before[i].wf());
                } else {
                    assert(last.source.spec_len() >= 0);
                }
            }
        }
    }
}

/// The first segments give the first parts of a slice.
pub proof fn lemma_slice_prefix(segments: Seq<BlobSegment>, count: int, start: int, end: int)
    requires
        0 <= count <= segments.len(),
    ensures
        slice_segments(segments.take(count), start, end).is_prefix_of(
            slice_segments(segments, start, end),
        ),
    decreases segments.len() - count,
{
    if count < segments.len() {
        let longer = segments.take(count + 1);
        assert(longer.drop_last() =~= segments.take(count));
        lemma_slice_prefix(segments, count + 1, start, end);
    } else {
        assert(segments.take(count) =~= segments);
    }
}

/// The bytes of a slice are the bytes of its range.
pub proof fn lemma_slice_bytes(
    segments: Seq<BlobSegment>,
    start: int,
    end: int,
    host: Map<u64, Seq<u8>>,
)
    requires
        segments_wf(segments),
        segments_held(segments, host),
        0 <= start <= end,
        total_len(segments) <= u64::MAX,
    ensures
        segments_bytes(slice_segments(segments, start, end), host) == segments_bytes(
            segments,
            host,
        ).subrange(clip(start, total_len(segments)), clip(end, total_len(segments))),
    decreases segments.len(),
{
    if segments.len() > 0 {
        let front = segments.drop_last();
        assert(segments_wf(front) && segments_held(front, host)) by {
            assert forall|i: int| 0 <= i < front.len() implies (#[trigger] front[i]).wf()
                && front[i].source.held_by(host) by {
                assert(front[i] == segments[i]);
                assert(segments[i].wf());
                assert(segments[i].source.held_by(host));
            }
        }
        lemma_total_len_nonnegative(front);
        lemma_slice_bytes(front, start, end, host);
        lemma_segments_bytes_len(front, host);
        lemma_segments_bytes_len(segments, host);
        let last = segments.last();
        assert(last == segments[segments.len() - 1]);
        assert(last.wf());
        assert(last.source.held_by(host));
        let sliced = slice_segments(segments, start, end);
        let before = slice_segments(front, start, end);
        let whole = segments_bytes(segments, host);
        let total = total_len(segments);
        let position = total_len(front);
        let low = if position < start {
            start
        } else {
            position
        };
        let high = if position + last.len < end {
            position + last.len
        } else {
            end
        };
        if low < high {
            assert(sliced.drop_last() =~= before);
            let piece = sliced.last();
            match last.source {
                ByteSource::Memory(bytes) => {
                    assert(bytes.len() <= usize::MAX);
                },
                _ => {},
            }
            assert(piece.offset == last.offset + (low - position));
            assert(piece.bytes(host) =~= last.bytes(host).subrange(low - position, high - position));
            assert(segments_bytes(sliced, host) =~= whole.subrange(
                clip(start, total),
                clip(end, total),
            ));
        } else {
            assert(segments_bytes(sliced, host) =~= whole.subrange(
                clip(start, total),
                clip(end, total),
            ));
        }
    } else {
        assert(segments_bytes(segments, host).subrange(0, 0) =~= Seq::<u8>::empty());
    }
}

/// A slice takes its bytes from the sources of the whole.
pub proof fn lemma_slice_held(
    segments: Seq<BlobSegment>,
    start: int,
    end: int,
    host: Map<u64, Seq<u8>>,
)
    requires
        segments_held(segments, host),
    ensures
        segments_held(slice_segments(segments, start, end), host),
    decreases segments.len(),
{
    if segments.len() > 0 {
        let front = segments.drop_last();
        assert forall|i: int| 0 <= i < front.len() implies (
        #[trigger] front[i]).source.held_by(host) by {
            assert(segments[i].source.held_by(host));
        }
        lemma_slice_held(front, start, end, host);
        let before = slice_segments(front, start, end);
        let sliced = slice_segments(segments, start, end);
        assert(segments[segments.len() - 1].source.held_by(host));
        assert forall|i: int| 0 <= i < sliced.len() implies (
        #[trigger] sliced[i]).source.held_by(host) by {
            if i < before.len() {
                assert(before[i].source.held_by(host));
            }
        }
    }
}

/// A blob cut in two and put together again holds the bytes it held.
pub proof fn lemma_halves_make_whole(data: BlobData, at: int, host: Map<u64, Seq<u8>>)
    requires
        data.wf(),
        segments_held(data.segments(), host),
        0 <= at <= data.spec_size(),
    ensures
        segments_bytes(
            slice_segments(data.segments(), 0, at) + slice_segments(
                data.segments(),
                at,
                data.spec_size() as int,
            ),
            host,
        ) == data.content(host),
{
    let segments = data.segments();
    let size = data.spec_size() as int;
    lemma_slice_bytes(segments, 0, at, host);
    lemma_slice_bytes(segments, at, size, host);
    lemma_segments_bytes_concat(
        slice_segments(segments, 0, at),
        slice_segments(segments, at, size),
        host,
    );
    lemma_segments_bytes_len(segments, host);
    let whole = data.content(host);
    assert(whole.subrange(0, at) + whole.subrange(at, size) =~= whole);
}

/// A slice of a slice is a slice: the bytes between the inner positions, counted
/// from the outer start.
pub proof fn lemma_slice_of_slice(
    data: BlobData,
    start: int,
    end: int,
    inner_start: int,
    inner_end: int,
    host: Map<u64, Seq<u8>>,
)
    requires
        data.wf(),
        segments_held(data.segments(), host),
        0 <= start <= end <= data.spec_size(),
        0 <= inner_start <= inner_end <= end - start,
    ensures
        data.content(host).subrange(start, end).subrange(inner_start, inner_end)
            == segments_bytes(
            slice_segments(data.segments(), start + inner_start, start + inner_end),
            host,
        ),
{
    lemma_slice_bytes(data.segments(), start + inner_start, start + inner_end, host);
    lemma_segments_bytes_len(data.segments(), host);
    assert(data.content(host).subrange(start, end).subrange(inner_start, inner_end)
        =~= data.content(host).subrange(start + inner_start, start + inner_end));
}

/// Normalizing a media type again changes nothing.
pub proof fn lemma_normalized_type_idempotent(text: Seq<char>)
    ensures
        normalized_type(normalized_type(text)) == normalized_type(text),
{
    let once = normalized_type(text);
    assert forall|i: int| 0 <= i < once.len() implies 0x20 <= (#[trigger] once[i]) as u32 <= 0x7E by {
        assert(once[i] == ascii_lower(text[i]));
        assert(0x20 <= text[i] as u32 <= 0x7E);
    }
    assert(normalized_type(once) =~= once);
}

/// Whether `position` stands for the place `at` of a blob of `size` bytes, where
/// `default` is meant if none is given: negative positions count from the end,
/// and none lies outside the blob.
pub open spec fn stands_for(position: Option<i64>, default: int, size: int, at: int) -> bool {
    match position {
        None => at == default,
        Some(value) => {
            &&& 0 <= at <= size
            &&& 0 <= value <= size ==> at == value
            &&& value > size ==> at == size
            &&& -size <= value < 0 ==> at == size + value
            &&& value < -size ==> at == 0
        },
    }
}

/// A slice holds the bytes between its two places, each of which is found from
/// its own position alone; where the second lies before the first it is empty.
pub proof fn lemma_slice_takes_the_bytes_between(
    data: BlobData,
    start: Option<i64>,
    end: Option<i64>,
    content_type: Option<&str>,
    from: int,
    to: int,
    part: BlobData,
    host: Map<u64, Seq<u8>>,
)
    requires
        data.wf(),
        data.held_by(host),
        stands_for(start, 0, data.spec_size() as int, from),
        stands_for(end, data.spec_size() as int, data.spec_size() as int, to),
        call_ensures(BlobData::slice, (&data, start, end, content_type), part),
    ensures
        from <= to ==> part.content(host) == data.content(host).subrange(from, to),
        from > to ==> part.content(host) == Seq::<u8>::empty(),
        part.spec_size() == part.content(host).len(),
        part.held_by(host),
{
    lemma_segments_bytes_len(data.segments(), host);
    if from > to {
        assert(data.content(host).subrange(from, from) =~= Seq::<u8>::empty());
    }
}

/// Positions may be written in other ways: a negative one as what it counts to
/// from the end, one past the end as the end, and a missing one as the start or
/// the end. The slice is the same, for each of the two by itself.
pub proof fn lemma_slice_positions_are_exchangeable(
    data: BlobData,
    positions: (Option<i64>, Option<i64>),
    others: (Option<i64>, Option<i64>),
    content_type: Option<&str>,
    part: BlobData,
    same: BlobData,
    host: Map<u64, Seq<u8>>,
)
    requires
        data.wf(),
        data.held_by(host),
        exchangeable(positions.0, others.0, 0, data.spec_size() as int),
        exchangeable(
            positions.1,
            others.1,
            data.spec_size() as int,
            data.spec_size() as int,
        ),
        call_ensures(BlobData::slice, (&data, positions.0, positions.1, content_type), part),
        call_ensures(BlobData::slice, (&data, others.0, others.1, content_type), same),
    ensures
        part.content(host) == same.content(host),
        part.spec_size() == same.spec_size(),
        part.spec_media_type() == same.spec_media_type(),
{
}

/// Whether two positions mean the same place of a blob of `size` bytes.
pub open spec fn exchangeable(
    position: Option<i64>,
    other: Option<i64>,
    default: int,
    size: int,
) -> bool {
    ||| position == other
    ||| {
        &&& other matches Some(place)
        &&& match position {
            None => place == default,
            Some(value) => {
                ||| value < 0 && size + value >= 0 && place == size + value
                ||| value < 0 && size + value < 0 && place == 0
                ||| value > size && place == size
            },
        }
    }
}

proof fn lemma_printable(c: char)
    ensures
        0x20 <= c as u32 <= 0x7E <==> ' ' <= c <= '~',
{
}

/// A media type is kept in lower case if it is printable ASCII throughout, and
/// dropped as a whole if it is not.
pub proof fn lemma_media_types_are_lowered_or_dropped(text: &str, normalized: String)
    requires
        call_ensures(normalize_blob_type, (text,), normalized),
    ensures
        (exists|i: int|
            0 <= i < text@.len() && !(' ' <= #[trigger] text@[i] <= '~')) ==> normalized@.len()
            == 0,
        (forall|i: int| 0 <= i < text@.len() ==> ' ' <= #[trigger] text@[i] <= '~') ==> {
            &&& normalized@.len() == text@.len()
            &&& forall|i: int|
                0 <= i < text@.len() ==> if 'A' <= text@[i] <= 'Z' {
                    (#[trigger] normalized@[i]) as u32 == text@[i] as u32 + 32
                } else {
                    normalized@[i] == text@[i]
                }
        },
{
    if forall|i: int| 0 <= i < text@.len() ==> ' ' <= #[trigger] text@[i] <= '~' {
        assert forall|i: int| 0 <= i < text@.len() implies 0x20 <= (#[trigger] text@[i]) as u32
            <= 0x7E by {}
    } else {
        let i = choose|i: int| 0 <= i < text@.len() && !(' ' <= #[trigger] text@[i] <= '~');
        lemma_printable(text@[i]);
    }
}

/// A slice has the normalized type that it is given, or none; that of the blob is
/// never passed on.
pub proof fn lemma_slice_has_its_own_type(
    data: BlobData,
    start: Option<i64>,
    end: Option<i64>,
    content_type: &str,
    typed: BlobData,
    untyped: BlobData,
    normalized: String,
)
    requires
        data.wf(),
        call_ensures(BlobData::slice, (&data, start, end, Some(content_type)), typed),
        call_ensures(BlobData::slice, (&data, start, end, None::<&str>), untyped),
        call_ensures(normalize_blob_type, (content_type,), normalized),
    ensures
        typed.spec_media_type() == normalized@,
        untyped.spec_media_type() == Seq::<char>::empty(),
{
}

} // verus!
