//! File payloads, and the constructors of blobs and files.

use vstd::prelude::*;
use vstd::utf8::encode_utf8;

use crate::blob::{normalize_blob_type, normalized_type, BlobData};
use crate::clock::Clock;
use crate::error::{type_error, FileApiError, JsError, JsErrorKind, ResourceLimitKind};
use crate::limits::FileApiLimits;
use crate::number::{f64_to_long_long, long_long_of};
use crate::text::chars_of;
use crate::webidl::{
    accounted_size, accounted_total, convert_line_endings_to_native, convert_sequence,
    copy_failure, elements_failure, lemma_selected_type_normalized, options_failure, part_content,
    part_len, part_views, parts_content, parts_held, parts_len, parts_segments, parts_wf,
    process_converted, process_failure, refused_part, selected_endings, selected_type,
    sequence_elements, sequence_failure, snapshot, snapshots, BlobOptions, ConvertedBlobPart,
    EndingMode, FileOptions, NativeLineEnding, OptionsValue, PartView, PartsCollector, RawPart,
    SequenceValue, ViewedBuffer,
};

verus! {

/// A file: a payload under a name, with the time of its last change.
#[derive(Clone, Debug)]
pub struct FileNative {
    /// The payload.
    pub data: BlobData,
    /// The name.
    pub name: String,
    /// The time of the last change, in UNIX milliseconds.
    pub last_modified: i64,
}

impl FileNative {
    /// The payload is sound, with a normalized media type, and the name has no
    /// slash. Every function that makes a file gives such a one.
    pub open spec fn wf(self) -> bool {
        &&& self.data.wf()
        &&& !self.name@.contains('/')
    }

    /// A file of these parts.
    pub fn new(data: BlobData, name: String, last_modified: i64) -> (file: FileNative)
        ensures
            file.data == data,
            file.name@ == name@,
            file.last_modified == last_modified,
    {
        FileNative { data, name, last_modified }
    }

    /// The payload.
    pub fn blob_data(&self) -> (data: &BlobData)
        ensures
            *data == self.data,
    {
        &self.data
    }

    /// The name.
    pub fn name(&self) -> (name: &str)
        ensures
            name@ == self.name@,
    {
        self.name.as_str()
    }

    /// The time of the last change.
    pub fn last_modified(&self) -> (millis: i64)
        ensures
            millis == self.last_modified,
    {
        self.last_modified
    }
}

/// `c` in a file name: a slash becomes a colon.
pub open spec fn name_char(c: char) -> char {
    if c == '/' {
        ':'
    } else {
        c
    }
}

/// `name` as a file name.
pub open spec fn file_name(name: Seq<char>) -> Seq<char> {
    name.map_values(|c: char| name_char(c))
}

/// `name` with every slash replaced by a colon.
pub fn normalize_file_name(name: &str) -> (normalized: String)
    ensures
        normalized@ == file_name(name@),
        !normalized@.contains('/'),
{
    let chars = chars_of(name);
    let mut normalized = String::new();
    for i in 0..chars.len()
        invariant
            chars@ == name@,
            normalized@ =~= file_name(name@.take(i as int)),
    {
        let c: char = chars[i];
        normalized.push(
            if c == '/' {
                ':'
            } else {
                c
            },
        );
        assert(name@.take(i + 1) =~= name@.take(i as int).push(c));
    }
    assert(name@.take(name@.len() as int) =~= name@);
    proof {
        lemma_file_name_idempotent(name@);
    }
    normalized
}

/// A normalized name has no slash, and normalizing it again changes nothing.
pub proof fn lemma_file_name_idempotent(name: Seq<char>)
    ensures
        !file_name(name).contains('/'),
        file_name(file_name(name)) == file_name(name),
{
    assert(file_name(file_name(name)) =~= file_name(name));
}

/// The failure of making a blob of `len` bytes, if it is refused.
pub open spec fn bytes_failure(len: int, limits: FileApiLimits) -> Option<FileApiError> {
    if len > limits.max_blob_size {
        Some(FileApiError::ResourceLimit(ResourceLimitKind::BlobSize))
    } else if len > 0 && limits.max_segments == 0 {
        Some(FileApiError::ResourceLimit(ResourceLimitKind::BlobSegments))
    } else {
        None
    }
}

/// Whether `data` holds `bytes` in memory under the normalized `media_type`.
pub open spec fn holds(data: BlobData, bytes: Seq<u8>, media_type: Seq<char>) -> bool {
    &&& data.wf()
    &&& data.spec_size() == bytes.len()
    &&& data.spec_media_type() == normalized_type(media_type)
    &&& forall|host: Map<u64, Seq<u8>>| #[trigger] data.content(host) == bytes
    &&& forall|host: Map<u64, Seq<u8>>| #[trigger] data.held_by(host)
}

/// A blob over host bytes.
pub fn data_from_bytes(bytes: Vec<u8>, media_type: &str, limits: &FileApiLimits) -> (result: Result<
    BlobData,
    FileApiError,
>)
    ensures
        match result {
            Ok(data) => bytes_failure(bytes@.len() as int, *limits) is None && holds(
                data,
                bytes@,
                media_type@,
            ),
            Err(error) => bytes_failure(bytes@.len() as int, *limits) == Some(error),
        },
{
    BlobData::from_bytes(bytes, media_type, limits)
}

/// The time of a file: the given one, else what the clock shows.
pub fn timestamp<C: Clock>(last_modified: Option<i64>, clock: &C) -> (millis: i64)
    ensures
        match last_modified {
            Some(given) => millis == given,
            None => call_ensures(C::now_unix_millis, (clock,), millis),
        },
{
    match last_modified {
        Some(given) => given,
        None => clock.now_unix_millis(),
    }
}

/// A file over host bytes.
pub fn native_from_bytes<C: Clock>(
    bytes: Vec<u8>,
    name: &str,
    media_type: &str,
    last_modified: Option<i64>,
    clock: &C,
    limits: &FileApiLimits,
) -> (result: Result<FileNative, FileApiError>)
    ensures
        match result {
            Ok(file) => {
                &&& bytes_failure(bytes@.len() as int, *limits) is None
                &&& holds(file.data, bytes@, media_type@)
                &&& file.name@ == file_name(name@)
                &&& file.wf()
                &&& match last_modified {
                    Some(given) => file.last_modified == given,
                    None => call_ensures(C::now_unix_millis, (clock,), file.last_modified),
                }
            },
            Err(error) => bytes_failure(bytes@.len() as int, *limits) == Some(error),
        },
{
    match data_from_bytes(bytes, media_type, limits) {
        Ok(data) => {
            let millis: i64 = timestamp(last_modified, clock);
            Ok(FileNative::new(data, normalize_file_name(name), millis))
        },
        Err(error) => Err(error),
    }
}

/// A file over an existing payload; `display_name` is the only name of it.
pub fn native_from_data<C: Clock>(
    data: BlobData,
    display_name: &str,
    last_modified: Option<i64>,
    clock: &C,
) -> (file: FileNative)
    ensures
        file.data == data,
        file.name@ == file_name(display_name@),
        data.wf() ==> file.wf(),
        match last_modified {
            Some(given) => file.last_modified == given,
            None => call_ensures(C::now_unix_millis, (clock,), file.last_modified),
        },
{
    let millis: i64 = timestamp(last_modified, clock);
    FileNative::new(data, normalize_file_name(display_name), millis)
}

/// Why a constructor call is refused before its arguments are looked at, if it
/// is: it takes `new`, and `required` arguments at least.
pub open spec fn call_failure(
    constructing: bool,
    arguments: usize,
    required: usize,
    without_new: Seq<char>,
    too_few: Seq<char>,
) -> Option<(JsErrorKind, Seq<char>)> {
    if !constructing {
        Some((JsErrorKind::Type, without_new))
    } else if arguments < required {
        Some((JsErrorKind::Type, too_few))
    } else {
        None
    }
}

/// Tests how the `Blob` constructor was called; both of its arguments are
/// optional.
pub fn check_blob_call(constructing: bool) -> (result: Result<(), JsError>)
    ensures
        match result {
            Ok(_) => constructing,
            Err(error) => !constructing && error@ == (
                JsErrorKind::Type,
                "Blob constructor requires 'new'"@,
            ),
        },
{
    if !constructing {
        return Err(type_error("Blob constructor requires 'new'"));
    }
    Ok(())
}

/// Tests how the `File` constructor was called; its first two arguments are
/// required.
pub fn check_file_call(constructing: bool, arguments: usize) -> (result: Result<(), JsError>)
    ensures
        ({
            let failure = call_failure(
                constructing,
                arguments,
                2,
                "File constructor requires 'new'"@,
                "File constructor requires at least two arguments"@,
            );
            match result {
                Ok(_) => failure is None,
                Err(error) => failure == Some(error@),
            }
        }),
{
    if !constructing {
        return Err(type_error("File constructor requires 'new'"));
    }
    if arguments < 2 {
        return Err(type_error("File constructor requires at least two arguments"));
    }
    Ok(())
}

/// Whether `data` is made of `parts`, one after the other.
pub open spec fn made_of(
    data: BlobData,
    parts: Seq<PartView>,
    mode: EndingMode,
    ending: NativeLineEnding,
) -> bool {
    &&& data.wf()
    &&& data.spec_size() == parts_len(parts, mode, ending)
    &&& data.segments().len() == parts_segments(parts, mode, ending)
    &&& forall|host: Map<u64, Seq<u8>>| #[trigger]
        data.content(host) == parts_content(parts, mode, ending, host)
    &&& forall|host: Map<u64, Seq<u8>>| #[trigger] data.held_by(host) == parts_held(parts, host)
}

/// The payload of converted parts under their options.
pub fn finish_blob(
    converted: Vec<ConvertedBlobPart>,
    options: &BlobOptions,
    limits: &FileApiLimits,
    ending: NativeLineEnding,
) -> (result: Result<BlobData, JsError>)
    requires
        parts_wf(part_views(converted@)),
    ensures
        ({
            let parts = part_views(converted@);
            let failure = process_failure(parts, options.endings, ending, 0, 0, 0, *limits);
            match result {
                Ok(data) => {
                    &&& failure is None
                    &&& made_of(data, parts, options.endings, ending)
                    &&& data.spec_media_type() == normalized_type(options.media_type@)
                },
                Err(error) => failure is Some && error@ == refused_part(failure->0),
            }
        }),
{
    let ghost parts = part_views(converted@);
    let mut collector = PartsCollector::new(*limits);
    let ghost start = collector;
    match process_converted(converted, options.endings, ending, &mut collector) {
        Ok(_) => {},
        Err(error) => {
            return Err(error);
        },
    }
    let data = collector.into_blob_data(options.media_type.as_str());
    proof {
        assert forall|host: Map<u64, Seq<u8>>| #[trigger]
            data.content(host) == parts_content(parts, options.endings, ending, host) by {
            assert(collector.payload().content(host) == start.payload().content(host)
                + parts_content(parts, options.endings, ending, host));
            assert(start.payload().content(host) =~= Seq::<u8>::empty());
            assert(data.content(host) =~= parts_content(parts, options.endings, ending, host));
        }
        assert forall|host: Map<u64, Seq<u8>>| #[trigger] data.held_by(host) == parts_held(
            parts,
            host,
        ) by {
            assert(collector.payload().held_by(host) == (start.payload().held_by(host)
                && parts_held(parts, host)));
        }
    }
    Ok(data)
}

/// Every blob among the elements is well-formed.
pub open spec fn raw_parts_wf(parts: Seq<RawPart>) -> bool {
    forall|i: int|
        0 <= i < parts.len() ==> match #[trigger] parts[i] {
            RawPart::Blob(data) => data.wf(),
            _ => true,
        }
}

proof fn lemma_snapshots_wf(parts: Seq<RawPart>)
    requires
        raw_parts_wf(parts),
    ensures
        parts_wf(snapshots(parts)),
{
    let views = snapshots(parts);
    assert forall|i: int| 0 <= i < views.len() implies match #[trigger] views[i] {
        PartView::Shared(data) => data.wf(),
        _ => true,
    } by {
        assert(views[i] == snapshot(parts[i]));
    }
}

/// Why converted parts and options do not make a blob, if they do not: the
/// options are converted first, then the parts are put together.
pub open spec fn assembly_failure(
    parts: Seq<PartView>,
    options: OptionsValue,
    limits: FileApiLimits,
    ending: NativeLineEnding,
) -> Option<(JsErrorKind, Seq<char>)> {
    if options_failure(options) is Some {
        options_failure(options)
    } else {
        match process_failure(parts, selected_endings(options), ending, 0, 0, 0, limits) {
            Some(error) => Some(refused_part(error)),
            None => None,
        }
    }
}

/// Why a blob cannot be made of its arguments, if it cannot: the parts are
/// converted first.
pub open spec fn construction_failure(
    parts: SequenceValue,
    required: bool,
    options: OptionsValue,
    limits: FileApiLimits,
    ending: NativeLineEnding,
) -> Option<(JsErrorKind, Seq<char>)> {
    if sequence_failure(parts, required, limits, ending) is Some {
        sequence_failure(parts, required, limits, ending)
    } else {
        assembly_failure(snapshots(sequence_elements(parts)), options, limits, ending)
    }
}

/// Whether `data` is the payload that parts and options ask for.
pub open spec fn assembled(
    data: BlobData,
    parts: Seq<PartView>,
    options: OptionsValue,
    ending: NativeLineEnding,
) -> bool {
    &&& made_of(data, parts, selected_endings(options), ending)
    &&& data.spec_media_type() == selected_type(options)
}

/// Whether `data` is the payload that the arguments ask for.
pub open spec fn constructed(
    data: BlobData,
    parts: SequenceValue,
    options: OptionsValue,
    ending: NativeLineEnding,
) -> bool {
    assembled(data, snapshots(sequence_elements(parts)), options, ending)
}

/// The payload of parts that were converted one by one, and of options.
pub fn blob_of_parts(
    converted: Vec<ConvertedBlobPart>,
    options: &OptionsValue,
    limits: &FileApiLimits,
    ending: NativeLineEnding,
) -> (result: Result<BlobData, JsError>)
    requires
        parts_wf(part_views(converted@)),
    ensures
        ({
            let failure = assembly_failure(part_views(converted@), *options, *limits, ending);
            match result {
                Ok(data) => failure is None && assembled(
                    data,
                    part_views(converted@),
                    *options,
                    ending,
                ),
                Err(error) => failure == Some(error@),
            }
        }),
{
    proof {
        lemma_selected_type_normalized(*options);
    }
    let options = match BlobOptions::parse(options) {
        Ok(options) => options,
        Err(error) => {
            return Err(error);
        },
    };
    finish_blob(converted, &options, limits, ending)
}

/// The file of parts that were converted one by one, of a name and of options;
/// `last_modified` is the bit pattern of that member of the options.
pub fn file_of_parts<C: Clock>(
    converted: Vec<ConvertedBlobPart>,
    name: &str,
    options: &OptionsValue,
    last_modified: Option<u64>,
    clock: &C,
    limits: &FileApiLimits,
    ending: NativeLineEnding,
) -> (result: Result<FileNative, JsError>)
    requires
        parts_wf(part_views(converted@)),
    ensures
        ({
            let failure = assembly_failure(part_views(converted@), *options, *limits, ending);
            match result {
                Ok(file) => {
                    &&& failure is None
                    &&& assembled(file.data, part_views(converted@), *options, ending)
                    &&& file.name@ == file_name(name@)
                    &&& file.wf()
                    &&& match (*options, last_modified) {
                        (OptionsValue::Object { endings, media_type }, Some(bits)) =>
                            file.last_modified == long_long_of(bits),
                        _ => call_ensures(C::now_unix_millis, (clock,), file.last_modified),
                    }
                },
                Err(error) => failure == Some(error@),
            }
        }),
{
    let name = normalize_file_name(name);
    proof {
        lemma_selected_type_normalized(*options);
    }
    let options = match FileOptions::parse(options, last_modified) {
        Ok(options) => options,
        Err(error) => {
            return Err(error);
        },
    };
    let data = match finish_blob(converted, &options.blob, limits, ending) {
        Ok(data) => data,
        Err(error) => {
            return Err(error);
        },
    };
    let millis: i64 = timestamp(options.last_modified, clock);
    Ok(FileNative::new(data, name, millis))
}

/// The payload of `new Blob(parts, options)`.
pub fn construct_blob(
    parts: SequenceValue,
    options: &OptionsValue,
    limits: &FileApiLimits,
    ending: NativeLineEnding,
) -> (result: Result<BlobData, JsError>)
    requires
        raw_parts_wf(sequence_elements(parts)),
    ensures
        match result {
            Ok(data) => construction_failure(parts, false, *options, *limits, ending) is None
                && constructed(data, parts, *options, ending),
            Err(error) => construction_failure(parts, false, *options, *limits, ending) == Some(
                error@,
            ),
        },
{
    proof {
        lemma_snapshots_wf(sequence_elements(parts));
    }
    let converted = match convert_sequence(parts, false, limits, ending) {
        Ok(converted) => converted,
        Err(error) => {
            return Err(error);
        },
    };
    blob_of_parts(converted, options, limits, ending)
}

/// The file of `new File(parts, name, options)`; `last_modified` is the bit
/// pattern of that member of the options.
pub fn construct_file<C: Clock>(
    parts: SequenceValue,
    name: &str,
    options: &OptionsValue,
    last_modified: Option<u64>,
    clock: &C,
    limits: &FileApiLimits,
    ending: NativeLineEnding,
) -> (result: Result<FileNative, JsError>)
    requires
        raw_parts_wf(sequence_elements(parts)),
    ensures
        match result {
            Ok(file) => {
                &&& construction_failure(parts, true, *options, *limits, ending) is None
                &&& constructed(file.data, parts, *options, ending)
                &&& file.name@ == file_name(name@)
                &&& file.wf()
                &&& match (*options, last_modified) {
                    (OptionsValue::Object { endings, media_type }, Some(bits)) =>
                        file.last_modified == long_long_of(bits),
                    _ => call_ensures(C::now_unix_millis, (clock,), file.last_modified),
                }
            },
            Err(error) => construction_failure(parts, true, *options, *limits, ending) == Some(
                error@,
            ),
        },
{
    proof {
        lemma_snapshots_wf(sequence_elements(parts));
    }
    let converted = match convert_sequence(parts, true, limits, ending) {
        Ok(converted) => converted,
        Err(error) => {
            return Err(error);
        },
    };
    file_of_parts(converted, name, options, last_modified, clock, limits, ending)
}

proof fn lemma_parts_content_concat(
    a: Seq<PartView>,
    b: Seq<PartView>,
    mode: EndingMode,
    ending: NativeLineEnding,
    host: Map<u64, Seq<u8>>,
)
    ensures
        parts_content(a + b, mode, ending, host) == parts_content(a, mode, ending, host)
            + parts_content(b, mode, ending, host),
    decreases b.len(),
{
    if b.len() == 0 {
        assert(a + b =~= a);
        assert(parts_content(a, mode, ending, host) + parts_content(b, mode, ending, host)
            =~= parts_content(a, mode, ending, host));
    } else {
        lemma_parts_content_concat(a, b.drop_last(), mode, ending, host);
        assert((a + b).drop_last() =~= a + b.drop_last());
        assert((a + b).last() == b.last());
        assert(parts_content(a + b, mode, ending, host) =~= parts_content(a, mode, ending, host)
            + parts_content(b, mode, ending, host));
    }
}

/// A blob of a sequence of parts is the blobs of two halves of the sequence, one
/// behind the other; the type does not depend on the parts.
pub proof fn lemma_parts_follow_each_other(
    front: Vec<RawPart>,
    back: Vec<RawPart>,
    whole: Vec<RawPart>,
    options: OptionsValue,
    limits: FileApiLimits,
    ending: NativeLineEnding,
    results: (Result<BlobData, JsError>, Result<BlobData, JsError>, Result<BlobData, JsError>),
    host: Map<u64, Seq<u8>>,
)
    requires
        raw_parts_wf(whole@),
        whole@ == front@ + back@,
        call_ensures(
            construct_blob,
            (SequenceValue::Elements(front), &options, &limits, ending),
            results.0,
        ),
        call_ensures(
            construct_blob,
            (SequenceValue::Elements(back), &options, &limits, ending),
            results.1,
        ),
        call_ensures(
            construct_blob,
            (SequenceValue::Elements(whole), &options, &limits, ending),
            results.2,
        ),
        results.0 is Ok,
        results.1 is Ok,
        results.2 is Ok,
    ensures
        results.2->Ok_0.content(host) == results.0->Ok_0.content(host) + results.1->Ok_0.content(
            host,
        ),
        results.2->Ok_0.spec_size() == results.0->Ok_0.spec_size() + results.1->Ok_0.spec_size(),
        results.2->Ok_0.spec_media_type() == results.0->Ok_0.spec_media_type(),
{
    let a = snapshots(front@);
    let b = snapshots(back@);
    assert(snapshots(whole@) =~= a + b);
    lemma_parts_content_concat(a, b, selected_endings(options), ending, host);
    lemma_parts_len_concat(a, b, selected_endings(options), ending);
}

proof fn lemma_parts_len_concat(
    a: Seq<PartView>,
    b: Seq<PartView>,
    mode: EndingMode,
    ending: NativeLineEnding,
)
    ensures
        parts_len(a + b, mode, ending) == parts_len(a, mode, ending) + parts_len(b, mode, ending),
    decreases b.len(),
{
    if b.len() == 0 {
        assert(a + b =~= a);
    } else {
        lemma_parts_len_concat(a, b.drop_last(), mode, ending);
        assert((a + b).drop_last() =~= a + b.drop_last());
        assert((a + b).last() == b.last());
    }
}

/// Whether the options ask for native line endings.
pub open spec fn asks_for_native(options: OptionsValue) -> bool {
    options matches OptionsValue::Object { endings: Some(text), media_type } && text@ == "native"@
}

/// A blob of one part holds that part: a buffer its bytes, a view the bytes that
/// it shows, a blob its content, and a text its characters in UTF-8, with native
/// line endings exactly where the options ask for them. A detached buffer is
/// empty. A blob of no part is empty.
pub proof fn lemma_one_part_is_the_content(
    parts: Vec<RawPart>,
    options: OptionsValue,
    limits: FileApiLimits,
    ending: NativeLineEnding,
    result: Result<BlobData, JsError>,
    text: &str,
    converted: String,
    host: Map<u64, Seq<u8>>,
)
    requires
        raw_parts_wf(parts@),
        parts@.len() <= 1,
        call_ensures(
            construct_blob,
            (SequenceValue::Elements(parts), &options, &limits, ending),
            result,
        ),
        call_ensures(convert_line_endings_to_native, (text, ending), converted),
        result is Ok,
    ensures
        parts@.len() == 0 ==> result->Ok_0.content(host) == Seq::<u8>::empty(),
        parts@.len() == 1 ==> match parts@[0] {
            RawPart::ArrayBuffer(Some(data)) => result->Ok_0.content(host) == data@,
            RawPart::ArrayBuffer(None) => result->Ok_0.content(host) == Seq::<u8>::empty(),
            RawPart::SharedArrayBuffer(data) => result->Ok_0.content(host) == data@,
            RawPart::TypedArray { offset, length, buffer: ViewedBuffer::Array(Some(data)) } =>
                result->Ok_0.content(host) == data@.subrange(offset as int, offset + length),
            RawPart::DataView { offset, length, buffer: ViewedBuffer::Array(Some(data)) } =>
                result->Ok_0.content(host) == data@.subrange(offset as int, offset + length),
            RawPart::Blob(data) => result->Ok_0.content(host) == data.content(host),
            RawPart::Text(given) => if asks_for_native(options) {
                text@ == given@ ==> result->Ok_0.content(host) == encode_utf8(converted@)
            } else {
                result->Ok_0.content(host) == encode_utf8(given@)
            },
            _ => true,
        },
{
    let views = snapshots(parts@);
    let mode = selected_endings(options);
    if parts@.len() == 1 {
        assert(views.drop_last() =~= Seq::<PartView>::empty());
        assert(views.last() == snapshot(parts@[0]));
        reveal_with_fuel(parts_content, 2);
        assert(parts_content(views, mode, ending, host) =~= part_content(
            snapshot(parts@[0]),
            mode,
            ending,
            host,
        ));
    }
}

/// The size of a constructed blob is the number of its bytes, and no blob is
/// constructed above a ceiling. Its type is the `type` of the options, normalized,
/// or empty.
pub proof fn lemma_constructed_blobs_keep_their_bounds(
    parts: SequenceValue,
    options: OptionsValue,
    limits: FileApiLimits,
    ending: NativeLineEnding,
    result: Result<BlobData, JsError>,
    media_type: &str,
    normalized: String,
    host: Map<u64, Seq<u8>>,
)
    requires
        raw_parts_wf(sequence_elements(parts)),
        call_ensures(construct_blob, (parts, &options, &limits, ending), result),
        call_ensures(normalize_blob_type, (media_type,), normalized),
    ensures
        result matches Ok(data) ==> {
            &&& data.held_by(host) ==> data.spec_size() == data.content(host).len()
            &&& data.spec_size() <= limits.max_blob_size
            &&& data.segments().len() <= limits.max_segments
            &&& parts matches SequenceValue::Elements(elements) ==> elements@.len()
                <= limits.max_parts
            &&& match options {
                OptionsValue::Object { endings, media_type: Some(given) } => given@ == media_type@
                    ==> data.spec_media_type() == normalized@,
                _ => data.spec_media_type() == Seq::<char>::empty(),
            }
        },
        parts is NotIterable ==> result is Err,
        options is NotAnObject ==> result is Err,
        options matches OptionsValue::Object { endings: Some(text), media_type: _ } && text@
            != "native"@ && text@ != "transparent"@ ==> result is Err,
{
    if let Ok(data) = result {
        if data.held_by(host) {
            crate::blob::lemma_segments_bytes_len(data.segments(), host);
        }
        let views = snapshots(sequence_elements(parts));
        lemma_processed_within(views, selected_endings(options), ending, limits);
    }
}

proof fn lemma_processed_within(
    parts: Seq<PartView>,
    mode: EndingMode,
    ending: NativeLineEnding,
    limits: FileApiLimits,
)
    requires
        process_failure(parts, mode, ending, 0, 0, 0, limits) is None,
    ensures
        parts.len() <= limits.max_parts,
        parts_len(parts, mode, ending) <= limits.max_blob_size,
        parts_segments(parts, mode, ending) <= limits.max_segments,
    decreases parts.len(),
{
    if parts.len() > 0 {
        lemma_processed_within(parts.drop_last(), mode, ending, limits);
    }
}

/// A file holds what a blob of the same parts and options holds, under its name
/// with colons for slashes, and with the given time or the current one.
pub proof fn lemma_file_is_a_named_blob<C: Clock>(
    parts: SequenceValue,
    name: &str,
    options: OptionsValue,
    last_modified: Option<u64>,
    clock: C,
    limits: FileApiLimits,
    ending: NativeLineEnding,
    blob: Result<BlobData, JsError>,
    file: Result<FileNative, JsError>,
    millis: i64,
    host: Map<u64, Seq<u8>>,
)
    requires
        last_modified matches Some(bits) ==> call_ensures(f64_to_long_long, (bits,), millis),
        raw_parts_wf(sequence_elements(parts)),
        call_ensures(construct_blob, (parts, &options, &limits, ending), blob),
        call_ensures(
            construct_file::<C>,
            (parts, name, &options, last_modified, &clock, &limits, ending),
            file,
        ),
        !(parts is Undefined),
    ensures
        file is Ok <==> blob is Ok,
        file is Err ==> file->Err_0@ == blob->Err_0@,
        file matches Ok(native) ==> {
            &&& native.data.content(host) == blob->Ok_0.content(host)
            &&& native.data.spec_size() == blob->Ok_0.spec_size()
            &&& native.data.spec_media_type() == blob->Ok_0.spec_media_type()
            &&& native.name@.len() == name@.len()
            &&& forall|i: int|
                0 <= i < name@.len() ==> #[trigger] native.name@[i] == if name@[i] == '/' {
                    ':'
                } else {
                    name@[i]
                }
            &&& last_modified is None ==> call_ensures(
                C::now_unix_millis,
                (&clock,),
                native.last_modified,
            )
            &&& last_modified is Some && options is Object ==> native.last_modified == millis
        },
{
}


/// Whether a part takes no more room while it is measured than it has bytes: all
/// do but views whose buffer is detached, shrunk or no buffer.
pub open spec fn shows_its_length(part: RawPart) -> bool {
    match part {
        RawPart::TypedArray { offset, length, buffer: ViewedBuffer::Array(Some(data)) } => true,
        RawPart::DataView { offset, length, buffer: ViewedBuffer::Array(Some(data)) } => true,
        RawPart::TypedArray { offset, length, buffer } => false,
        RawPart::DataView { offset, length, buffer } => false,
        _ => true,
    }
}

/// Parts that make a blob in two halves make one together, whenever both blobs
/// together keep the ceilings on parts, bytes and segments.
pub proof fn lemma_parts_within_the_ceilings_are_joined(
    front: Vec<RawPart>,
    back: Vec<RawPart>,
    whole: Vec<RawPart>,
    options: OptionsValue,
    limits: FileApiLimits,
    ending: NativeLineEnding,
    results: (Result<BlobData, JsError>, Result<BlobData, JsError>, Result<BlobData, JsError>),
)
    requires
        raw_parts_wf(whole@),
        whole@ == front@ + back@,
        forall|i: int| 0 <= i < whole@.len() ==> shows_its_length(#[trigger] whole@[i]),
        call_ensures(
            construct_blob,
            (SequenceValue::Elements(front), &options, &limits, ending),
            results.0,
        ),
        call_ensures(
            construct_blob,
            (SequenceValue::Elements(back), &options, &limits, ending),
            results.1,
        ),
        call_ensures(
            construct_blob,
            (SequenceValue::Elements(whole), &options, &limits, ending),
            results.2,
        ),
        results.0 is Ok,
        results.1 is Ok,
        whole@.len() <= limits.max_parts,
        results.0->Ok_0.spec_size() + results.1->Ok_0.spec_size() <= limits.max_blob_size,
        results.0->Ok_0.segments().len() + results.1->Ok_0.segments().len()
            <= limits.max_segments,
    ensures
        results.2 is Ok,
{
    let mode = selected_endings(options);
    let a = snapshots(front@);
    let b = snapshots(back@);
    let parts = snapshots(whole@);
    assert(parts =~= a + b);
    lemma_parts_len_concat(a, b, mode, ending);
    lemma_parts_segments_concat(a, b, mode, ending);
    lemma_sums_nonnegative(parts, mode, ending);
    lemma_within_is_processed(parts, mode, ending, limits);
    lemma_elements_join(front@, back@, whole@, mode, limits, ending);
}

proof fn lemma_parts_segments_concat(
    a: Seq<PartView>,
    b: Seq<PartView>,
    mode: EndingMode,
    ending: NativeLineEnding,
)
    ensures
        parts_segments(a + b, mode, ending) == parts_segments(a, mode, ending) + parts_segments(
            b,
            mode,
            ending,
        ),
    decreases b.len(),
{
    if b.len() == 0 {
        assert(a + b =~= a);
    } else {
        lemma_parts_segments_concat(a, b.drop_last(), mode, ending);
        assert((a + b).drop_last() =~= a + b.drop_last());
        assert((a + b).last() == b.last());
    }
}

proof fn lemma_sums_nonnegative(parts: Seq<PartView>, mode: EndingMode, ending: NativeLineEnding)
    ensures
        parts_len(parts, mode, ending) >= 0,
        parts_segments(parts, mode, ending) >= 0,
    decreases parts.len(),
{
    if parts.len() > 0 {
        lemma_sums_nonnegative(parts.drop_last(), mode, ending);
    }
}

proof fn lemma_within_is_processed(
    parts: Seq<PartView>,
    mode: EndingMode,
    ending: NativeLineEnding,
    limits: FileApiLimits,
)
    requires
        parts.len() <= limits.max_parts,
        parts_len(parts, mode, ending) <= limits.max_blob_size,
        parts_segments(parts, mode, ending) <= limits.max_segments,
    ensures
        process_failure(parts, mode, ending, 0, 0, 0, limits) is None,
    decreases parts.len(),
{
    if parts.len() > 0 {
        lemma_sums_nonnegative(parts.drop_last(), mode, ending);
        lemma_within_is_processed(parts.drop_last(), mode, ending, limits);
    }
}

proof fn lemma_elements_join(
    front: Seq<RawPart>,
    back: Seq<RawPart>,
    whole: Seq<RawPart>,
    mode: EndingMode,
    limits: FileApiLimits,
    ending: NativeLineEnding,
)
    requires
        whole == front + back,
        forall|i: int| 0 <= i < whole.len() ==> shows_its_length(#[trigger] whole[i]),
        elements_failure(front, limits, ending) is None,
        elements_failure(back, limits, ending) is None,
        whole.len() <= limits.max_parts,
        parts_len(snapshots(whole), mode, ending) <= limits.max_blob_size,
    ensures
        elements_failure(whole, limits, ending) is None,
        accounted_total(whole, ending) <= parts_len(snapshots(whole), mode, ending),
    decreases back.len(),
{
    let views = snapshots(whole);
    if back.len() == 0 {
        assert(whole =~= front);
        lemma_measured_within(front, mode, limits, ending);
    } else {
        let shorter = whole.drop_last();
        assert(shorter =~= front + back.drop_last());
        assert(views.drop_last() =~= snapshots(shorter));
        let last = whole.last();
        assert(last == back.last());
        assert(last == whole[whole.len() - 1]);
        assert forall|i: int| 0 <= i < shorter.len() implies shows_its_length(
            #[trigger] shorter[i],
        ) by {
            assert(shorter[i] == whole[i]);
        }
        assert(part_len(views.last(), mode, ending) >= 0);
        lemma_elements_join(front, back.drop_last(), shorter, mode, limits, ending);
        lemma_measured_part(last, mode, ending);
        lemma_accounted_nonnegative(shorter, ending);
        lemma_accounted_nonnegative(back.drop_last(), ending);
    }
}

proof fn lemma_accounted_nonnegative(parts: Seq<RawPart>, ending: NativeLineEnding)
    ensures
        accounted_total(parts, ending) >= 0,
    decreases parts.len(),
{
    if parts.len() > 0 {
        lemma_accounted_nonnegative(parts.drop_last(), ending);
    }
}

proof fn lemma_measured_part(part: RawPart, mode: EndingMode, ending: NativeLineEnding)
    requires
        shows_its_length(part),
        copy_failure(part) is None,
    ensures
        0 <= accounted_size(part, ending) <= part_len(snapshot(part), mode, ending),
{
}

proof fn lemma_measured_within(
    parts: Seq<RawPart>,
    mode: EndingMode,
    limits: FileApiLimits,
    ending: NativeLineEnding,
)
    requires
        forall|i: int| 0 <= i < parts.len() ==> shows_its_length(#[trigger] parts[i]),
        elements_failure(parts, limits, ending) is None,
    ensures
        accounted_total(parts, ending) <= parts_len(snapshots(parts), mode, ending),
    decreases parts.len(),
{
    if parts.len() > 0 {
        let shorter = parts.drop_last();
        let views = snapshots(parts);
        assert(views.drop_last() =~= snapshots(shorter));
        assert(views.last() == snapshot(parts.last()));
        assert forall|i: int| 0 <= i < shorter.len() implies shows_its_length(
            #[trigger] shorter[i],
        ) by {
            assert(shorter[i] == parts[i]);
        }
        lemma_measured_within(shorter, mode, limits, ending);
        assert(shows_its_length(parts[parts.len() - 1]));
        lemma_measured_part(parts.last(), mode, ending);
    }
}

/// A part that is a buffer, a blob or a view inside its buffer makes a blob by
/// itself whenever it keeps the ceilings, and so does no part at all; options
/// that are absent, or ask for no line ending that there is not, never stand in
/// the way.
pub proof fn lemma_one_part_within_the_ceilings_is_made(
    parts: Vec<RawPart>,
    options: OptionsValue,
    limits: FileApiLimits,
    ending: NativeLineEnding,
    result: Result<BlobData, JsError>,
)
    requires
        raw_parts_wf(parts@),
        call_ensures(
            construct_blob,
            (SequenceValue::Elements(parts), &options, &limits, ending),
            result,
        ),
        match options {
            OptionsValue::Nullish => true,
            OptionsValue::Object { endings, media_type } => match endings {
                Some(text) => text@ == "native"@ || text@ == "transparent"@,
                None => true,
            },
            OptionsValue::NotAnObject => false,
        },
        limits.max_parts > 0,
        limits.max_segments > 0,
        parts@.len() == 0 || (parts@.len() == 1 && match parts@[0] {
            RawPart::ArrayBuffer(Some(data)) => data@.len() <= limits.max_blob_size,
            RawPart::ArrayBuffer(None) => true,
            RawPart::SharedArrayBuffer(data) => data@.len() <= limits.max_blob_size,
            RawPart::TypedArray { offset, length, buffer: ViewedBuffer::Array(Some(data)) } =>
                offset + length <= data@.len() && offset + length <= usize::MAX && length
                    <= limits.max_blob_size,
            RawPart::Blob(data) => data.spec_size() <= limits.max_blob_size
                && data.segments().len() <= limits.max_segments,
            _ => false,
        }),
    ensures
        result is Ok,
{
    let mode = selected_endings(options);
    let views = snapshots(parts@);
    if parts@.len() == 1 {
        assert(views.drop_last() =~= Seq::<PartView>::empty());
        assert(parts@.drop_last() =~= Seq::<RawPart>::empty());
        reveal_with_fuel(elements_failure, 2);
        reveal_with_fuel(accounted_total, 2);
        reveal_with_fuel(parts_len, 2);
        reveal_with_fuel(parts_segments, 2);
        assert(views.last() == snapshot(parts@[0]));
        lemma_within_is_processed(views, mode, ending, limits);
    }
}


/// Without parts a blob is empty, and a file is refused; what is no sequence is
/// refused by both.
pub proof fn lemma_absent_parts_make_an_empty_blob<C: Clock>(
    parts: SequenceValue,
    name: &str,
    options: OptionsValue,
    last_modified: Option<u64>,
    clock: C,
    limits: FileApiLimits,
    ending: NativeLineEnding,
    blob: Result<BlobData, JsError>,
    file: Result<FileNative, JsError>,
    host: Map<u64, Seq<u8>>,
)
    requires
        !(parts is Elements),
        call_ensures(construct_blob, (parts, &options, &limits, ending), blob),
        call_ensures(
            construct_file::<C>,
            (parts, name, &options, last_modified, &clock, &limits, ending),
            file,
        ),
    ensures
        file is Err,
        parts is NotIterable ==> blob is Err,
        parts is Undefined && options is Nullish ==> blob is Ok,
        blob matches Ok(data) ==> data.spec_size() == 0 && data.content(host)
            == Seq::<u8>::empty(),
{
    assert(sequence_elements(parts) =~= Seq::<RawPart>::empty());
    assert(snapshots(sequence_elements(parts)) =~= Seq::<PartView>::empty());
}

} // verus!
