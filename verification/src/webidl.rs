//! Conversion of constructor arguments: blob parts, line endings and option
//! dictionaries.

use std::path::MAIN_SEPARATOR;

use vstd::prelude::*;
use vstd::utf8::{encode_scalar, encode_utf8};

use crate::blob::{
    lemma_held_concat, lemma_segments_bytes_concat, normalize_blob_type, normalized_type, push_error, BlobData,
    BlobSegment,
};
use crate::error::{range_error, type_error, FileApiError, JsError, JsErrorKind, ResourceLimitKind};
use crate::limits::FileApiLimits;
use crate::number::{f64_to_long_long, long_long_of};
use crate::text::{chars_of, same_text};

verus! {

/// The line ending that a platform writes.
#[derive(Clone, Copy, Debug, PartialEq, Eq, Structural)]
pub enum NativeLineEnding {
    /// Line feed.
    Lf,
    /// Carriage return, line feed.
    Crlf,
}

impl NativeLineEnding {
    /// The characters of the ending.
    pub open spec fn chars(self) -> Seq<char> {
        match self {
            NativeLineEnding::Lf => seq!['\n'],
            NativeLineEnding::Crlf => seq!['\r', '\n'],
        }
    }
}

/// `std::path::MAIN_SEPARATOR`, the path separator of the platform: a
/// backslash on Windows.
#[verifier::external_body]
fn path_separator() -> char {
    MAIN_SEPARATOR
}

/// The native line ending of a platform, told by its path separator: a
/// backslash means Windows, which writes two characters.
pub fn native_ending_for(separator: char) -> (ending: NativeLineEnding)
    ensures
        ending == if separator == '\\' {
            NativeLineEnding::Crlf
        } else {
            NativeLineEnding::Lf
        },
{
    if separator == '\\' {
        NativeLineEnding::Crlf
    } else {
        NativeLineEnding::Lf
    }
}

/// Whether `separator` may be the path separator of this platform.
pub closed spec fn may_separate(separator: char) -> bool {
    call_ensures(path_separator, (), separator)
}

/// The native line ending of this platform: the one that its path separator
/// tells. Which separator that is depends on the platform and is left open.
pub fn platform_native_ending() -> (ending: NativeLineEnding)
    ensures
        exists|separator: char|
            #![trigger may_separate(separator)]
            may_separate(separator) && ending == (if separator == '\\' {
                NativeLineEnding::Crlf
            } else {
                NativeLineEnding::Lf
            }),
{
    let separator = path_separator();
    assert(may_separate(separator));
    native_ending_for(separator)
}

/// `text` with every line ending (`\r\n`, `\r` or `\n`) replaced by `ending`.
pub open spec fn native_text(text: Seq<char>, ending: Seq<char>) -> Seq<char>
    decreases text.len(),
{
    if text.len() == 0 {
        Seq::empty()
    } else if text[0] == '\r' {
        if text.len() > 1 && text[1] == '\n' {
            ending + native_text(text.skip(2), ending)
        } else {
            ending + native_text(text.skip(1), ending)
        }
    } else if text[0] == '\n' {
        ending + native_text(text.skip(1), ending)
    } else {
        seq![text[0]] + native_text(text.skip(1), ending)
    }
}

proof fn lemma_encode_utf8_push_front(c: char, rest: Seq<char>)
    ensures
        encode_utf8(seq![c] + rest) == encode_scalar(c as u32) + encode_utf8(rest),
{
    let all = seq![c] + rest;
    assert(all.drop_first() =~= rest);
    assert(all[0] == c);
}

proof fn lemma_encode_ending(ending: NativeLineEnding, rest: Seq<char>)
    ensures
        encode_utf8(ending.chars() + rest).len() == ending.chars().len() + encode_utf8(rest).len(),
{
    match ending {
        NativeLineEnding::Lf => {
            lemma_encode_utf8_push_front('\n', rest);
        },
        NativeLineEnding::Crlf => {
            lemma_encode_utf8_push_front('\n', rest);
            lemma_encode_utf8_push_front('\r', seq!['\n'] + rest);
            assert(ending.chars() + rest =~= seq!['\r'] + (seq!['\n'] + rest));
        },
    }
}

/// The number of bytes of one character in UTF-8.
fn utf8_width(c: char) -> (width: u64)
    ensures
        width == encode_scalar(c as u32).len(),
        1 <= width <= 4,
{
    let code: u32 = c as u32;
    if code < 0x80 {
        1
    } else if code < 0x800 {
        2
    } else if code < 0x1_0000 {
        3
    } else {
        4
    }
}

/// The length in UTF-8 of `text` with native line endings, found without
/// building it; a `RangeError` where the length does not fit in 64 bits.
pub fn line_ending_byte_len(text: &str, ending: NativeLineEnding) -> (result: Result<u64, JsError>)
    ensures
        match result {
            Ok(length) => length == encode_utf8(native_text(text@, ending.chars())).len(),
            Err(error) => {
                &&& error@ == (
                    JsErrorKind::Range,
                    "blob part size exceeds the configured limit"@,
                )
                &&& encode_utf8(native_text(text@, ending.chars())).len() > u64::MAX
            },
        },
{
    let chars = chars_of(text);
    let target: u64 = match ending {
        NativeLineEnding::Lf => 1,
        NativeLineEnding::Crlf => 2,
    };
    let mut length: u64 = 0;
    let mut i: usize = 0;
    proof {
        assert(text@.skip(0) =~= text@);
    }
    while i < chars.len()
        invariant
            chars@ == text@,
            i <= chars@.len(),
            target == ending.chars().len(),
            length + encode_utf8(native_text(text@.skip(i as int), ending.chars())).len()
                == encode_utf8(native_text(text@, ending.chars())).len(),
        decreases chars@.len() - i,
    {
        let ghost rest = text@.skip(i as int);
        let current: char = chars[i];
        let add: u64;
        proof {
            assert(rest[0] == current);
            assert(rest.skip(1) =~= text@.skip(i + 1));
        }
        if current == '\r' {
            proof {
                lemma_encode_ending(ending, native_text(rest.skip(1), ending.chars()));
            }
            if i + 1 < chars.len() && chars[i + 1] == '\n' {
                proof {
                    assert(rest[1] == '\n');
                    assert(rest.skip(2) =~= text@.skip(i + 2));
                    lemma_encode_ending(ending, native_text(rest.skip(2), ending.chars()));
                }
                i = i + 1;
            }
            add = target;
        } else if current == '\n' {
            proof {
                lemma_encode_ending(ending, native_text(rest.skip(1), ending.chars()));
            }
            add = target;
        } else {
            proof {
                lemma_encode_utf8_push_front(
                    current,
                    native_text(rest.skip(1), ending.chars()),
                );
            }
            add = utf8_width(current);
        }
        i = i + 1;
        match length.checked_add(add) {
            Some(sum) => {
                length = sum;
            },
            None => {
                return Err(range_error("blob part size exceeds the configured limit"));
            },
        }
    }
    assert(text@.skip(i as int) =~= Seq::<char>::empty());
    Ok(length)
}

/// Replaces every line ending of `text` by the native one.
pub fn convert_line_endings_to_native(text: &str, ending: NativeLineEnding) -> (converted: String)
    ensures
        converted@ == native_text(text@, ending.chars()),
{
    let chars = chars_of(text);
    let mut converted = String::new();
    let mut i: usize = 0;
    proof {
        reveal_strlit("");
        assert(text@.skip(0) =~= text@);
        assert(converted@ + native_text(text@, ending.chars()) =~= native_text(
            text@,
            ending.chars(),
        ));
    }
    while i < chars.len()
        invariant
            chars@ == text@,
            i <= chars@.len(),
            converted@ + native_text(text@.skip(i as int), ending.chars()) == native_text(
                text@,
                ending.chars(),
            ),
        decreases chars@.len() - i,
    {
        let ghost rest = text@.skip(i as int);
        let ghost before = converted@;
        let ghost whole = native_text(rest, ending.chars());
        let current: char = chars[i];
        proof {
            assert(rest[0] == current);
            assert(rest.skip(1) =~= text@.skip(i + 1));
        }
        if current == '\r' || current == '\n' {
            if current == '\r' && i + 1 < chars.len() && chars[i + 1] == '\n' {
                proof {
                    assert(rest[1] == '\n');
                    assert(rest.skip(2) =~= text@.skip(i + 2));
                }
                i = i + 1;
            }
            match ending {
                NativeLineEnding::Lf => {
                    converted.push('\n');
                },
                NativeLineEnding::Crlf => {
                    converted.push('\r');
                    converted.push('\n');
                },
            }
            assert(converted@ =~= before + ending.chars());
        } else {
            converted.push(current);
        }
        i = i + 1;
        assert(converted@ + native_text(text@.skip(i as int), ending.chars()) =~= before + whole);
    }
    assert(text@.skip(i as int) =~= Seq::<char>::empty());
    assert(converted@ + native_text(text@.skip(i as int), ending.chars()) =~= converted@);
    converted
}

/// Converting line endings twice changes nothing more.
pub proof fn lemma_native_text_idempotent(text: Seq<char>, ending: NativeLineEnding)
    ensures
        native_text(native_text(text, ending.chars()), ending.chars()) == native_text(
            text,
            ending.chars(),
        ),
    decreases text.len(),
{
    let e = ending.chars();
    if text.len() > 0 {
        let rest = if text[0] == '\r' && text.len() > 1 && text[1] == '\n' {
            text.skip(2)
        } else {
            text.skip(1)
        };
        lemma_native_text_idempotent(rest, ending);
        let tail = native_text(rest, e);
        let whole = native_text(text, e);
        if text[0] == '\r' || text[0] == '\n' {
            assert(whole =~= e + tail);
            match ending {
                NativeLineEnding::Lf => {
                    assert(whole.skip(1) =~= tail);
                },
                NativeLineEnding::Crlf => {
                    assert(whole.skip(2) =~= tail);
                },
            }
        } else {
            assert(whole.skip(1) =~= tail);
        }
        assert(native_text(whole, e) =~= whole);
    }
}

/// How line endings of text parts are treated.
#[derive(Clone, Copy, Debug, PartialEq, Eq, Structural)]
pub enum EndingMode {
    /// Keep line endings as written.
    Transparent,
    /// Replace line endings by the native one.
    Native,
}

/// The message for an unknown `endings` member.
pub open spec fn ending_message() -> Seq<char> {
    "the provided value is not of type BlobEnding (\"transparent\" or \"native\")"@
}

/// Reads the `endings` member: `native` or `transparent`, else a `TypeError`.
pub fn parse_ending_mode(text: &str) -> (result: Result<EndingMode, JsError>)
    ensures
        match result {
            Ok(EndingMode::Native) => text@ == "native"@,
            Ok(EndingMode::Transparent) => text@ == "transparent"@,
            Err(error) => error@ == (JsErrorKind::Type, ending_message()) && text@ != "native"@
                && text@ != "transparent"@,
        },
{
    if same_text(text, "native") {
        return Ok(EndingMode::Native);
    }
    if same_text(text, "transparent") {
        return Ok(EndingMode::Transparent);
    }
    Err(type_error("the provided value is not of type BlobEnding (\"transparent\" or \"native\")"))
}

/// What a view looks at.
#[derive(Clone, Debug)]
pub enum ViewedBuffer {
    /// No object.
    NotAnObject,
    /// A shared buffer with these bytes.
    Shared(Vec<u8>),
    /// A buffer with these bytes; `None` once detached.
    Array(Option<Vec<u8>>),
    /// Any other object.
    Other,
}

/// Why the bytes of a view cannot be copied, if they cannot.
pub open spec fn view_failure(buffer: ViewedBuffer, offset: int, length: int) -> Option<
    (JsErrorKind, Seq<char>),
> {
    match buffer {
        ViewedBuffer::NotAnObject => Some(
            (JsErrorKind::Type, "the viewed buffer is not an object"@),
        ),
        _ => if offset + length > usize::MAX {
            Some((JsErrorKind::Type, "the view range overflows"@))
        } else {
            match buffer {
                ViewedBuffer::Array(Some(data)) => if offset + length > data@.len() {
                    Some((JsErrorKind::Type, "the view is out of bounds of its buffer"@))
                } else {
                    None
                },
                ViewedBuffer::Other => Some(
                    (
                        JsErrorKind::Type,
                        "the viewed buffer is neither an ArrayBuffer nor a SharedArrayBuffer"@,
                    ),
                ),
                _ => None,
            }
        },
    }
}

/// The bytes that a view shows: nothing of a detached buffer, nor of a shared
/// one that has become too short.
pub open spec fn visible_bytes(buffer: ViewedBuffer, offset: int, length: int) -> Seq<u8> {
    match buffer {
        ViewedBuffer::Shared(data) => if offset + length > data@.len() {
            Seq::empty()
        } else {
            data@.subrange(offset, offset + length)
        },
        ViewedBuffer::Array(Some(data)) => data@.subrange(offset, offset + length),
        _ => Seq::empty(),
    }
}

/// Copies `bytes[from..to]`.
pub fn copy_range(bytes: &Vec<u8>, from: usize, to: usize) -> (copy: Vec<u8>)
    requires
        from <= to <= bytes@.len(),
    ensures
        copy@ == bytes@.subrange(from as int, to as int),
{
    let mut copy: Vec<u8> = Vec::new();
    let mut i: usize = from;
    while i < to
        invariant
            from <= i <= to <= bytes@.len(),
            copy@ =~= bytes@.subrange(from as int, i as int),
        decreases to - i,
    {
        copy.push(bytes[i]);
        i = i + 1;
    }
    copy
}

/// Copies the bytes that a view shows.
pub fn view_bytes(buffer: &ViewedBuffer, byte_offset: usize, byte_length: usize) -> (result: Result<
    Vec<u8>,
    JsError,
>)
    ensures
        match result {
            Ok(bytes) => bytes@ == visible_bytes(*buffer, byte_offset as int, byte_length as int),
            Err(error) => view_failure(*buffer, byte_offset as int, byte_length as int) == Some(
                error@,
            ),
        },
        result is Err <==> view_failure(*buffer, byte_offset as int, byte_length as int) is Some,
{
    match buffer {
        ViewedBuffer::NotAnObject => {
            return Err(type_error("the viewed buffer is not an object"));
        },
        _ => {},
    }
    let range: usize = match byte_offset.checked_add(byte_length) {
        Some(sum) => sum,
        None => {
            return Err(type_error("the view range overflows"));
        },
    };
    match buffer {
        ViewedBuffer::Shared(data) => {
            if range > data.len() {
                return Ok(Vec::new());
            }
            Ok(copy_range(data, byte_offset, range))
        },
        ViewedBuffer::Array(None) => Ok(Vec::new()),
        ViewedBuffer::Array(Some(data)) => {
            if range > data.len() {
                return Err(type_error("the view is out of bounds of its buffer"));
            }
            Ok(copy_range(data, byte_offset, range))
        },
        _ => Err(
            type_error("the viewed buffer is neither an ArrayBuffer nor a SharedArrayBuffer"),
        ),
    }
}

/// One element of a parts sequence, as its plain contents.
#[derive(Clone, Debug)]
pub enum RawPart {
    /// An `ArrayBuffer`; `None` once detached.
    ArrayBuffer(Option<Vec<u8>>),
    /// A `SharedArrayBuffer`.
    SharedArrayBuffer(Vec<u8>),
    /// A typed array over a buffer.
    TypedArray {
        /// The first visible byte.
        offset: usize,
        /// The number of visible bytes.
        length: usize,
        /// The buffer.
        buffer: ViewedBuffer,
    },
    /// A `DataView` over a buffer.
    DataView {
        /// The first visible byte.
        offset: u64,
        /// The number of visible bytes.
        length: u64,
        /// The buffer.
        buffer: ViewedBuffer,
    },
    /// A branded `Blob` or `File`.
    Blob(BlobData),
    /// Anything else, converted to a string.
    Text(String),
}

/// One converted element: buffers are copied, blobs are kept by reference and
/// text is kept until the options are known.
#[derive(Clone, Debug)]
pub enum ConvertedBlobPart {
    /// Copied bytes.
    Bytes(Vec<u8>),
    /// The payload of a blob.
    Shared(BlobData),
    /// Text whose line endings are still as written.
    Text(String),
}

/// The contents of a converted element.
pub enum PartView {
    /// Copied bytes.
    Bytes(Seq<u8>),
    /// The payload of a blob.
    Shared(BlobData),
    /// Text whose line endings are still as written.
    Text(Seq<char>),
}

impl View for ConvertedBlobPart {
    type V = PartView;

    open spec fn view(&self) -> PartView {
        match *self {
            ConvertedBlobPart::Bytes(bytes) => PartView::Bytes(bytes@),
            ConvertedBlobPart::Shared(data) => PartView::Shared(data),
            ConvertedBlobPart::Text(text) => PartView::Text(text@),
        }
    }
}

/// The contents of a sequence of converted elements.
pub open spec fn part_views(parts: Seq<ConvertedBlobPart>) -> Seq<PartView> {
    Seq::new(parts.len(), |i: int| parts[i]@)
}

/// The running totals of a sequence conversion: the parts accepted and a lower
/// bound on the bytes that they will need.
#[derive(Clone, Copy, Debug, PartialEq, Eq, Structural)]
pub struct PartBudget {
    /// Parts accepted so far.
    pub parts: usize,
    /// Bytes that the accepted parts need at least.
    pub lower_bound: u64,
}

/// The bytes that a part is accounted with before it is accepted: its length,
/// and for text the shorter of its two forms.
pub open spec fn accounted_size(part: RawPart, ending: NativeLineEnding) -> int {
    match part {
        RawPart::ArrayBuffer(Some(data)) => data@.len() as int,
        RawPart::ArrayBuffer(None) => 0,
        RawPart::SharedArrayBuffer(data) => data@.len() as int,
        RawPart::TypedArray { offset, length, buffer } => length as int,
        RawPart::DataView { offset, length, buffer } => length as int,
        RawPart::Blob(data) => data.spec_size() as int,
        RawPart::Text(text) => {
            let transparent = encode_utf8(text@).len() as int;
            let native = encode_utf8(native_text(text@, ending.chars())).len() as int;
            if transparent < native {
                transparent
            } else {
                native
            }
        },
    }
}

/// Why a part cannot be measured, if it cannot.
pub open spec fn measure_failure(part: RawPart, ending: NativeLineEnding) -> Option<
    (JsErrorKind, Seq<char>),
> {
    match part {
        RawPart::DataView { offset, length, buffer } => if offset > usize::MAX {
            Some((JsErrorKind::Type, "the view offset exceeds the addressable range"@))
        } else if length > usize::MAX {
            Some((JsErrorKind::Type, "the view length exceeds the addressable range"@))
        } else {
            None
        },
        RawPart::Text(text) => if encode_utf8(native_text(text@, ending.chars())).len()
            > u64::MAX {
            Some((JsErrorKind::Range, "blob part size exceeds the configured limit"@))
        } else {
            None
        },
        _ => None,
    }
}

/// Why the bytes of a part cannot be copied, if they cannot.
pub open spec fn copy_failure(part: RawPart) -> Option<(JsErrorKind, Seq<char>)> {
    match part {
        RawPart::TypedArray { offset, length, buffer } => view_failure(
            buffer,
            offset as int,
            length as int,
        ),
        RawPart::DataView { offset, length, buffer } => view_failure(
            buffer,
            offset as int,
            length as int,
        ),
        _ => None,
    }
}

/// The failure of a part conversion, if it fails: the part count, the
/// measurement, the size budget and the copy are tested in this order.
pub open spec fn convert_failure(
    part: RawPart,
    budget: PartBudget,
    limits: FileApiLimits,
    ending: NativeLineEnding,
) -> Option<(JsErrorKind, Seq<char>)> {
    if budget.parts >= limits.max_parts {
        Some((JsErrorKind::Range, "too many blob parts"@))
    } else if measure_failure(part, ending) is Some {
        measure_failure(part, ending)
    } else if budget.lower_bound + accounted_size(part, ending) > limits.max_blob_size {
        Some((JsErrorKind::Range, "blob size exceeds the configured limit"@))
    } else {
        copy_failure(part)
    }
}

/// What the snapshot of an element holds: copied buffers, shared blobs, text.
pub open spec fn snapshot(part: RawPart) -> PartView {
    match part {
        RawPart::ArrayBuffer(Some(data)) => PartView::Bytes(data@),
        RawPart::ArrayBuffer(None) => PartView::Bytes(Seq::empty()),
        RawPart::SharedArrayBuffer(data) => PartView::Bytes(data@),
        RawPart::TypedArray { offset, length, buffer } => PartView::Bytes(
            visible_bytes(buffer, offset as int, length as int),
        ),
        RawPart::DataView { offset, length, buffer } => PartView::Bytes(
            visible_bytes(buffer, offset as int, length as int),
        ),
        RawPart::Blob(data) => PartView::Shared(data),
        RawPart::Text(text) => PartView::Text(text@),
    }
}

/// What the snapshots of a sequence hold.
pub open spec fn snapshots(parts: Seq<RawPart>) -> Seq<PartView> {
    Seq::new(parts.len(), |i: int| snapshot(parts[i]))
}

/// Adds one lower bound to the running total.
///
/// The total is kept even where it exceeds the ceiling, unless it overflows.
pub fn account_lower_bound(part_size: u64, lower_bound: &mut u64, limits: &FileApiLimits) -> (result:
    Result<(), JsError>)
    ensures
        match result {
            Ok(_) => *old(lower_bound) + part_size <= limits.max_blob_size,
            Err(error) => {
                &&& error@ == (JsErrorKind::Range, "blob size exceeds the configured limit"@)
                &&& *old(lower_bound) + part_size > limits.max_blob_size
            },
        },
        *final(lower_bound) == if *old(lower_bound) + part_size <= u64::MAX {
            *old(lower_bound) + part_size
        } else {
            *old(lower_bound) as int
        },
{
    match lower_bound.checked_add(part_size) {
        Some(sum) => {
            *lower_bound = sum;
        },
        None => {
            return Err(range_error("blob size exceeds the configured limit"));
        },
    }
    if *lower_bound > limits.max_blob_size {
        return Err(range_error("blob size exceeds the configured limit"));
    }
    Ok(())
}

/// Measures a part.
fn measure(part: &RawPart, ending: NativeLineEnding) -> (result: Result<u64, JsError>)
    ensures
        match result {
            Ok(size) => size == accounted_size(*part, ending),
            Err(error) => measure_failure(*part, ending) == Some(error@),
        },
        result is Err <==> measure_failure(*part, ending) is Some,
{
    match part {
        RawPart::ArrayBuffer(Some(data)) => Ok(data.len() as u64),
        RawPart::ArrayBuffer(None) => Ok(0),
        RawPart::SharedArrayBuffer(data) => Ok(data.len() as u64),
        RawPart::TypedArray { offset, length, buffer } => Ok(*length as u64),
        RawPart::DataView { offset, length, buffer } => {
            if *offset > usize::MAX as u64 {
                return Err(type_error("the view offset exceeds the addressable range"));
            }
            if *length > usize::MAX as u64 {
                return Err(type_error("the view length exceeds the addressable range"));
            }
            Ok(*length)
        },
        RawPart::Blob(data) => Ok(data.size()),
        RawPart::Text(text) => {
            let transparent: u64 = text.as_str().as_bytes().len() as u64;
            match line_ending_byte_len(text.as_str(), ending) {
                Ok(native) => if transparent < native {
                    Ok(transparent)
                } else {
                    Ok(native)
                },
                Err(error) => Err(error),
            }
        },
    }
}

/// Tests whether one more part may come, before it is looked at.
pub fn admit_part(budget: &PartBudget, limits: &FileApiLimits) -> (result: Result<(), JsError>)
    ensures
        match result {
            Ok(_) => budget.parts < limits.max_parts,
            Err(error) => budget.parts >= limits.max_parts && error@ == (
                JsErrorKind::Range,
                "too many blob parts"@,
            ),
        },
{
    if budget.parts >= limits.max_parts {
        return Err(range_error("too many blob parts"));
    }
    Ok(())
}

/// Takes the snapshot of one element of a parts sequence.
///
/// The part count and a lower bound on the size are tested before anything is
/// copied, so an endless sequence ends in a failure; a failed element leaves
/// the part count unchanged.
pub fn convert_part(
    part: RawPart,
    budget: &mut PartBudget,
    limits: &FileApiLimits,
    ending: NativeLineEnding,
) -> (result: Result<ConvertedBlobPart, JsError>)
    ensures
        match result {
            Ok(converted) => {
                &&& converted@ == snapshot(part)
                &&& *final(budget) == (PartBudget {
                    parts: (old(budget).parts + 1) as usize,
                    lower_bound: (old(budget).lower_bound + accounted_size(part, ending)) as u64,
                })
                &&& final(budget).parts == old(budget).parts + 1
                &&& final(budget).lower_bound == old(budget).lower_bound + accounted_size(
                    part,
                    ending,
                )
            },
            Err(error) => {
                &&& convert_failure(part, *old(budget), *limits, ending) == Some(error@)
                &&& final(budget).parts == old(budget).parts
            },
        },
        result is Err <==> convert_failure(part, *old(budget), *limits, ending) is Some,
{
    match admit_part(budget, limits) {
        Ok(_) => {},
        Err(error) => {
            return Err(error);
        },
    }
    let size: u64 = match measure(&part, ending) {
        Ok(size) => size,
        Err(error) => {
            return Err(error);
        },
    };
    let mut lower_bound: u64 = budget.lower_bound;
    let accounted = account_lower_bound(size, &mut lower_bound, limits);
    budget.lower_bound = lower_bound;
    match accounted {
        Ok(_) => {},
        Err(error) => {
            return Err(error);
        },
    }
    let converted = match part {
        RawPart::ArrayBuffer(Some(data)) => ConvertedBlobPart::Bytes(data),
        RawPart::ArrayBuffer(None) => ConvertedBlobPart::Bytes(Vec::new()),
        RawPart::SharedArrayBuffer(data) => ConvertedBlobPart::Bytes(data),
        RawPart::TypedArray { offset, length, buffer } => {
            match view_bytes(&buffer, offset, length) {
                Ok(bytes) => ConvertedBlobPart::Bytes(bytes),
                Err(error) => {
                    return Err(error);
                },
            }
        },
        RawPart::DataView { offset, length, buffer } => {
            match view_bytes(&buffer, offset as usize, length as usize) {
                Ok(bytes) => ConvertedBlobPart::Bytes(bytes),
                Err(error) => {
                    return Err(error);
                },
            }
        },
        RawPart::Blob(data) => ConvertedBlobPart::Shared(data),
        RawPart::Text(text) => ConvertedBlobPart::Text(text),
    };
    budget.parts = budget.parts + 1;
    Ok(converted)
}

/// Accumulates converted parts into one payload.
pub struct PartsCollector {
    /// The payload so far, without a media type.
    blob: BlobData,
    /// The parts appended so far.
    parts: usize,
    /// The ceilings.
    limits: FileApiLimits,
}

/// The message and class of a refused part.
pub open spec fn refused_part(error: FileApiError) -> (JsErrorKind, Seq<char>) {
    if error == FileApiError::ResourceLimit(ResourceLimitKind::BlobParts) {
        (JsErrorKind::Range, "too many blob parts"@)
    } else {
        (JsErrorKind::Range, "blob size exceeds the configured limit"@)
    }
}

/// Why `len` copied bytes cannot be appended, if they cannot.
pub open spec fn copied_failure(
    len: int,
    parts: int,
    size: int,
    segments: int,
    limits: FileApiLimits,
) -> Option<FileApiError> {
    if len == 0 {
        if parts >= limits.max_parts {
            Some(FileApiError::ResourceLimit(ResourceLimitKind::BlobParts))
        } else {
            None
        }
    } else if len > limits.max_blob_size {
        Some(FileApiError::ResourceLimit(ResourceLimitKind::BlobSize))
    } else if limits.max_segments == 0 {
        Some(FileApiError::ResourceLimit(ResourceLimitKind::BlobSegments))
    } else {
        push_error(parts, size + len, segments + 1, limits)
    }
}

/// The bytes of a part under a line ending mode; those of a blob given the
/// host resources.
pub open spec fn part_content(
    part: PartView,
    mode: EndingMode,
    ending: NativeLineEnding,
    host: Map<u64, Seq<u8>>,
) -> Seq<u8> {
    match part {
        PartView::Bytes(bytes) => bytes,
        PartView::Shared(data) => data.content(host),
        PartView::Text(text) => match mode {
            EndingMode::Transparent => encode_utf8(text),
            EndingMode::Native => encode_utf8(native_text(text, ending.chars())),
        },
    }
}

/// Whether `host` holds the sources of a part.
pub open spec fn part_held(part: PartView, host: Map<u64, Seq<u8>>) -> bool {
    match part {
        PartView::Shared(data) => data.held_by(host),
        _ => true,
    }
}

/// Whether `host` holds the sources of every part.
pub open spec fn parts_held(parts: Seq<PartView>, host: Map<u64, Seq<u8>>) -> bool {
    forall|i: int| 0 <= i < parts.len() ==> part_held(#[trigger] parts[i], host)
}

/// The length of a part.
pub open spec fn part_len(
    part: PartView,
    mode: EndingMode,
    ending: NativeLineEnding,
) -> int {
    match part {
        PartView::Shared(data) => data.spec_size() as int,
        _ => part_content(part, mode, ending, Map::empty()).len() as int,
    }
}

/// The number of segments that a part adds.
pub open spec fn part_segments(
    part: PartView,
    mode: EndingMode,
    ending: NativeLineEnding,
) -> int {
    match part {
        PartView::Shared(data) => data.segments().len() as int,
        _ => if part_len(part, mode, ending) == 0 {
            0
        } else {
            1
        },
    }
}

/// Why a part cannot be appended to a payload of `size` bytes in `segments`
/// segments made of `parts` parts, if it cannot.
pub open spec fn part_failure(
    part: PartView,
    mode: EndingMode,
    ending: NativeLineEnding,
    parts: int,
    size: int,
    segments: int,
    limits: FileApiLimits,
) -> Option<FileApiError> {
    match part {
        PartView::Shared(data) => push_error(
            parts,
            size + data.spec_size(),
            segments + data.segments().len(),
            limits,
        ),
        _ => copied_failure(part_len(part, mode, ending), parts, size, segments, limits),
    }
}

/// The bytes of a sequence of parts, one after the other.
pub open spec fn parts_content(
    parts: Seq<PartView>,
    mode: EndingMode,
    ending: NativeLineEnding,
    host: Map<u64, Seq<u8>>,
) -> Seq<u8>
    decreases parts.len(),
{
    if parts.len() == 0 {
        Seq::empty()
    } else {
        parts_content(parts.drop_last(), mode, ending, host) + part_content(
            parts.last(),
            mode,
            ending,
            host,
        )
    }
}

/// The lengths of a sequence of parts, added up.
pub open spec fn parts_len(
    parts: Seq<PartView>,
    mode: EndingMode,
    ending: NativeLineEnding,
) -> int
    decreases parts.len(),
{
    if parts.len() == 0 {
        0
    } else {
        parts_len(parts.drop_last(), mode, ending) + part_len(parts.last(), mode, ending)
    }
}

/// The segments of a sequence of parts, added up.
pub open spec fn parts_segments(
    parts: Seq<PartView>,
    mode: EndingMode,
    ending: NativeLineEnding,
) -> int
    decreases parts.len(),
{
    if parts.len() == 0 {
        0
    } else {
        parts_segments(parts.drop_last(), mode, ending) + part_segments(parts.last(), mode, ending)
    }
}

/// Every blob among the parts is well-formed.
pub open spec fn parts_wf(parts: Seq<PartView>) -> bool {
    forall|i: int|
        0 <= i < parts.len() ==> match #[trigger] parts[i] {
            PartView::Shared(data) => data.wf(),
            _ => true,
        }
}

impl PartsCollector {
    /// The payload is well-formed and has no media type.
    pub closed spec fn wf(self) -> bool {
        self.blob.wf() && self.blob.spec_media_type() == Seq::<char>::empty()
    }

    /// The payload so far.
    pub closed spec fn payload(self) -> BlobData {
        self.blob
    }

    /// The parts appended so far.
    pub closed spec fn spec_parts(self) -> usize {
        self.parts
    }

    /// The ceilings.
    pub closed spec fn spec_limits(self) -> FileApiLimits {
        self.limits
    }

    /// A collector without parts.
    pub fn new(limits: FileApiLimits) -> (collector: PartsCollector)
        ensures
            collector.wf(),
            collector.payload().segments() == Seq::<BlobSegment>::empty(),
            collector.payload().spec_size() == 0,
            collector.spec_parts() == 0,
            collector.spec_limits() == limits,
    {
        proof {
            reveal_strlit("");
            assert(normalized_type(""@) =~= Seq::<char>::empty());
        }
        PartsCollector { blob: BlobData::empty(""), parts: 0, limits }
    }

    /// Appends copied bytes as one part; empty bytes count as a part without a
    /// segment.
    fn push_copied(&mut self, bytes: Vec<u8>) -> (result: Result<(), JsError>)
        requires
            old(self).wf(),
        ensures
            final(self).wf(),
            final(self).spec_limits() == old(self).spec_limits(),
            ({
                let failure = copied_failure(
                    bytes@.len() as int,
                    old(self).spec_parts() as int,
                    old(self).payload().spec_size() as int,
                    old(self).payload().segments().len() as int,
                    old(self).spec_limits(),
                );
                &&& result is Err <==> failure is Some
                &&& match result {
                    Ok(_) => {
                        &&& final(self).spec_parts() == old(self).spec_parts() + 1
                        &&& final(self).payload().spec_size() == old(self).payload().spec_size()
                            + bytes@.len()
                        &&& final(self).payload().segments().len() == old(
                            self,
                        ).payload().segments().len() + if bytes@.len() == 0 {
                            0int
                        } else {
                            1int
                        }
                        &&& forall|host: Map<u64, Seq<u8>>| #[trigger]
                            final(self).payload().content(host) == old(self).payload().content(host)
                                + bytes@
                        &&& forall|host: Map<u64, Seq<u8>>| #[trigger]
                            final(self).payload().held_by(host) == old(self).payload().held_by(host)
                    },
                    Err(error) => {
                        &&& error@ == refused_part(failure->0)
                        &&& *final(self) == *old(self)
                    },
                }
            }),
    {
        if bytes.len() == 0 {
            if self.parts >= self.limits.max_parts {
                return Err(range_error("too many blob parts"));
            }
            self.parts = self.parts + 1;
            proof {
                assert forall|host: Map<u64, Seq<u8>>| #[trigger]
                    self.payload().content(host) == old(self).payload().content(host) + bytes@ by {
                    assert(old(self).payload().content(host) + bytes@ =~= old(
                        self,
                    ).payload().content(host));
                }
            }
            return Ok(());
        }
        let staged = match BlobData::from_bytes(bytes, "", &self.limits) {
            Ok(data) => data,
            Err(_) => {
                return Err(range_error("blob size exceeds the configured limit"));
            },
        };
        let ghost before = self.blob;
        let result = self.push_shared(&staged);
        proof {
            assert(staged.segments().len() == 1 && staged.spec_size() == bytes@.len());
            if result is Ok {
                assert forall|host: Map<u64, Seq<u8>>| #[trigger]
                    self.payload().content(host) == before.content(host) + bytes@ by {
                    lemma_segments_bytes_concat(before.segments(), staged.segments(), host);
                    assert(staged.content(host) == bytes@);
                }
                assert forall|host: Map<u64, Seq<u8>>| #[trigger] self.payload().held_by(host)
                    == before.held_by(host) by {
                    lemma_held_concat(before.segments(), staged.segments(), host);
                    assert(staged.held_by(host));
                }
            }
        }
        result
    }

    /// Appends the segments of a blob as one part.
    fn push_shared(&mut self, data: &BlobData) -> (result: Result<(), JsError>)
        requires
            old(self).wf(),
            data.wf(),
        ensures
            final(self).wf(),
            final(self).spec_limits() == old(self).spec_limits(),
            ({
                let failure = push_error(
                    old(self).spec_parts() as int,
                    old(self).payload().spec_size() + data.spec_size(),
                    (old(self).payload().segments().len() + data.segments().len()) as int,
                    old(self).spec_limits(),
                );
                &&& result is Err <==> failure is Some
                &&& match result {
                    Ok(_) => {
                        &&& final(self).spec_parts() == old(self).spec_parts() + 1
                        &&& final(self).payload().segments() == old(self).payload().segments()
                            + data.segments()
                        &&& final(self).payload().spec_size() == old(self).payload().spec_size()
                            + data.spec_size()
                    },
                    Err(error) => {
                        &&& error@ == refused_part(failure->0)
                        &&& *final(self) == *old(self)
                    },
                }
            }),
    {
        match self.blob.push_shared(data, &self.limits, &mut self.parts) {
            Ok(_) => Ok(()),
            Err(FileApiError::ResourceLimit(ResourceLimitKind::BlobParts)) => Err(
                range_error("too many blob parts"),
            ),
            Err(_) => Err(range_error("blob size exceeds the configured limit")),
        }
    }

    /// The finished payload under its media type, normalized.
    pub fn into_blob_data(self, media_type: &str) -> (data: BlobData)
        requires
            self.wf(),
        ensures
            data.wf(),
            data.segments() == self.payload().segments(),
            data.spec_size() == self.payload().spec_size(),
            data.spec_media_type() == normalized_type(media_type@),
    {
        self.blob.with_media_type(media_type)
    }
}

/// The failure of appending a sequence of parts to a payload of `size` bytes in
/// `segments` segments made of `made` parts, if one of them is refused: the
/// first such part decides.
pub open spec fn process_failure(
    parts: Seq<PartView>,
    mode: EndingMode,
    ending: NativeLineEnding,
    made: int,
    size: int,
    segments: int,
    limits: FileApiLimits,
) -> Option<FileApiError>
    decreases parts.len(),
{
    if parts.len() == 0 {
        None
    } else {
        let front = parts.drop_last();
        let before = process_failure(front, mode, ending, made, size, segments, limits);
        if before is Some {
            before
        } else {
            part_failure(
                parts.last(),
                mode,
                ending,
                made + front.len(),
                size + parts_len(front, mode, ending),
                segments + parts_segments(front, mode, ending),
                limits,
            )
        }
    }
}

/// The failure of appending a sequence of parts to what a collector holds.
pub open spec fn collector_failure(
    parts: Seq<PartView>,
    mode: EndingMode,
    ending: NativeLineEnding,
    collector: PartsCollector,
) -> Option<FileApiError> {
    process_failure(
        parts,
        mode,
        ending,
        collector.spec_parts() as int,
        collector.payload().spec_size() as int,
        collector.payload().segments().len() as int,
        collector.spec_limits(),
    )
}

proof fn lemma_failure_stays(
    parts: Seq<PartView>,
    count: int,
    mode: EndingMode,
    ending: NativeLineEnding,
    collector: PartsCollector,
)
    requires
        0 <= count <= parts.len(),
        collector_failure(parts.take(count), mode, ending, collector) is Some,
    ensures
        collector_failure(parts, mode, ending, collector) == collector_failure(
            parts.take(count),
            mode,
            ending,
            collector,
        ),
    decreases parts.len(),
{
    if count < parts.len() {
        assert(parts.drop_last().take(count) =~= parts.take(count));
        lemma_failure_stays(parts.drop_last(), count, mode, ending, collector);
    } else {
        assert(parts.take(count) =~= parts);
    }
}

/// Applies the line ending mode and appends every part.
///
/// The first refused part ends the work; the parts before it stay appended.
pub fn process_converted(
    converted: Vec<ConvertedBlobPart>,
    mode: EndingMode,
    ending: NativeLineEnding,
    collector: &mut PartsCollector,
) -> (result: Result<(), JsError>)
    requires
        old(collector).wf(),
        parts_wf(part_views(converted@)),
    ensures
        final(collector).wf(),
        final(collector).spec_limits() == old(collector).spec_limits(),
        result is Err <==> collector_failure(
            part_views(converted@),
            mode,
            ending,
            *old(collector),
        ) is Some,
        match result {
            Ok(_) => {
                &&& final(collector).spec_parts() == old(collector).spec_parts() + converted@.len()
                &&& final(collector).payload().spec_size() == old(collector).payload().spec_size()
                    + parts_len(part_views(converted@), mode, ending)
                &&& final(collector).payload().segments().len() == old(
                    collector,
                ).payload().segments().len() + parts_segments(part_views(converted@), mode, ending)
                &&& forall|host: Map<u64, Seq<u8>>| #[trigger]
                    final(collector).payload().content(host) == old(collector).payload().content(
                        host,
                    ) + parts_content(part_views(converted@), mode, ending, host)
                &&& forall|host: Map<u64, Seq<u8>>| #[trigger]
                    final(collector).payload().held_by(host) == (old(collector).payload().held_by(
                        host,
                    ) && parts_held(part_views(converted@), host))
            },
            Err(error) => error@ == refused_part(
                collector_failure(part_views(converted@), mode, ending, *old(collector))->0,
            ),
        },
{
    let ghost start = *collector;
    let ghost all = part_views(converted@);
    let ghost list = converted@;
    proof {
        assert(all.take(0) =~= Seq::<PartView>::empty());
        assert forall|host: Map<u64, Seq<u8>>| #[trigger]
            collector.payload().content(host) == start.payload().content(host) + parts_content(
                all.take(0),
                mode,
                ending,
                host,
            ) by {
            assert(start.payload().content(host) + parts_content(all.take(0), mode, ending, host)
                =~= start.payload().content(host));
        }
    }
    for part in iter: converted
        invariant
            start == *old(collector),
            iter.seq() == list,
            all == part_views(list),
            parts_wf(all),
            collector.wf(),
            collector.spec_limits() == start.spec_limits(),
            collector_failure(all.take(iter.index()), mode, ending, start) is None,
            collector.spec_parts() == start.spec_parts() + iter.index(),
            collector.payload().spec_size() == start.payload().spec_size() + parts_len(
                all.take(iter.index()),
                mode,
                ending,
            ),
            collector.payload().segments().len() == start.payload().segments().len()
                + parts_segments(all.take(iter.index()), mode, ending),
            forall|host: Map<u64, Seq<u8>>| #[trigger]
                collector.payload().content(host) == start.payload().content(host) + parts_content(
                    all.take(iter.index()),
                    mode,
                    ending,
                    host,
                ),
            forall|host: Map<u64, Seq<u8>>| #[trigger]
                collector.payload().held_by(host) == (start.payload().held_by(host) && parts_held(
                    all.take(iter.index()),
                    host,
                )),
    {
        let ghost index = iter.index();
        let ghost before = *collector;
        let ghost front = all.take(index);
        let ghost here = all.take(index + 1);
        let ghost current = part@;
        proof {
            assert(part == list[index]);
            assert(current == all[index]);
            assert(here.drop_last() =~= front);
            assert(here.last() == current);
        }
        let pushed = match part {
            ConvertedBlobPart::Bytes(bytes) => collector.push_copied(bytes),
            ConvertedBlobPart::Shared(data) => {
                let result = collector.push_shared(&data);
                proof {
                    if result is Ok {
                        assert forall|host: Map<u64, Seq<u8>>| #[trigger]
                            collector.payload().content(host) == before.payload().content(host)
                                + data.content(host) by {
                            lemma_segments_bytes_concat(
                                before.payload().segments(),
                                data.segments(),
                                host,
                            );
                        }
                        assert forall|host: Map<u64, Seq<u8>>| #[trigger]
                            collector.payload().held_by(host) == (before.payload().held_by(host)
                                && data.held_by(host)) by {
                            lemma_held_concat(before.payload().segments(), data.segments(), host);
                        }
                    }
                }
                result
            },
            ConvertedBlobPart::Text(text) => {
                let prepared = match mode {
                    EndingMode::Transparent => text,
                    EndingMode::Native => convert_line_endings_to_native(text.as_str(), ending),
                };
                let bytes = copy_slice(prepared.as_str().as_bytes());
                collector.push_copied(bytes)
            },
        };
        match pushed {
            Ok(_) => {
                proof {
                    assert forall|host: Map<u64, Seq<u8>>| #[trigger]
                        collector.payload().content(host) == start.payload().content(host)
                            + parts_content(here, mode, ending, host) by {
                        assert(before.payload().content(host) == start.payload().content(host)
                            + parts_content(front, mode, ending, host));
                        assert(collector.payload().content(host) =~= start.payload().content(host)
                            + parts_content(here, mode, ending, host));
                    }
                    assert forall|host: Map<u64, Seq<u8>>| #[trigger]
                        collector.payload().held_by(host) == (start.payload().held_by(host)
                            && parts_held(here, host)) by {
                        assert(collector.payload().held_by(host) == (before.payload().held_by(host)
                            && part_held(current, host)));
                        lemma_parts_held_last(here, host);
                    }
                }
            },
            Err(error) => {
                proof {
                    lemma_failure_stays(all, index + 1, mode, ending, start);
                }
                return Err(error);
            },
        }
    }
    assert(all.take(all.len() as int) =~= all);
    Ok(())
}

proof fn lemma_parts_held_last(parts: Seq<PartView>, host: Map<u64, Seq<u8>>)
    requires
        parts.len() > 0,
    ensures
        parts_held(parts, host) == (parts_held(parts.drop_last(), host) && part_held(
            parts.last(),
            host,
        )),
{
    let front = parts.drop_last();
    if parts_held(front, host) && part_held(parts.last(), host) {
        assert forall|i: int| 0 <= i < parts.len() implies part_held(#[trigger] parts[i], host) by {
            if i < front.len() {
                assert(front[i] == parts[i]);
            }
        }
    }
    if parts_held(parts, host) {
        assert forall|i: int| 0 <= i < front.len() implies part_held(#[trigger] front[i], host) by {
            assert(front[i] == parts[i]);
        }
    }
}

/// Copies a slice.
fn copy_slice(bytes: &[u8]) -> (copy: Vec<u8>)
    ensures
        copy@ == bytes@,
{
    let mut copy: Vec<u8> = Vec::new();
    let mut i: usize = 0;
    while i < bytes.len()
        invariant
            i <= bytes@.len(),
            copy@ =~= bytes@.take(i as int),
        decreases bytes@.len() - i,
    {
        copy.push(bytes[i]);
        i = i + 1;
    }
    assert(bytes@.take(i as int) =~= bytes@);
    copy
}

/// A parts argument: absent, not iterable, or its elements in order.
#[derive(Clone, Debug)]
pub enum SequenceValue {
    /// `undefined`.
    Undefined,
    /// A value without a usable iterator.
    NotIterable,
    /// The elements that iteration yields.
    Elements(Vec<RawPart>),
}

/// The elements of a parts argument.
pub open spec fn sequence_elements(value: SequenceValue) -> Seq<RawPart> {
    match value {
        SequenceValue::Elements(parts) => parts@,
        _ => Seq::empty(),
    }
}

/// The sizes that elements are accounted with, added up.
pub open spec fn accounted_total(parts: Seq<RawPart>, ending: NativeLineEnding) -> int
    decreases parts.len(),
{
    if parts.len() == 0 {
        0
    } else {
        accounted_total(parts.drop_last(), ending) + accounted_size(parts.last(), ending)
    }
}

/// The failure of converting elements one by one, if one of them fails: the
/// first such element decides.
pub open spec fn elements_failure(
    parts: Seq<RawPart>,
    limits: FileApiLimits,
    ending: NativeLineEnding,
) -> Option<(JsErrorKind, Seq<char>)>
    decreases parts.len(),
{
    if parts.len() == 0 {
        None
    } else {
        let front = parts.drop_last();
        let before = elements_failure(front, limits, ending);
        if before is Some {
            before
        } else {
            convert_failure(
                parts.last(),
                PartBudget {
                    parts: front.len() as usize,
                    lower_bound: accounted_total(front, ending) as u64,
                },
                limits,
                ending,
            )
        }
    }
}

/// Why a parts argument is refused, if it is.
pub open spec fn sequence_failure(
    value: SequenceValue,
    required: bool,
    limits: FileApiLimits,
    ending: NativeLineEnding,
) -> Option<(JsErrorKind, Seq<char>)> {
    if value is NotIterable || (value is Undefined && required) {
        Some(
            (
                JsErrorKind::Type,
                "the provided value cannot be converted to a sequence<BlobPart>"@,
            ),
        )
    } else {
        elements_failure(sequence_elements(value), limits, ending)
    }
}

/// The first element that fails decides: what follows it need not be looked at.
pub proof fn lemma_first_failure_decides(
    parts: Seq<RawPart>,
    count: int,
    limits: FileApiLimits,
    ending: NativeLineEnding,
)
    requires
        0 <= count <= parts.len(),
        elements_failure(parts.take(count), limits, ending) is Some,
    ensures
        elements_failure(parts, limits, ending) == elements_failure(
            parts.take(count),
            limits,
            ending,
        ),
    decreases parts.len(),
{
    if count < parts.len() {
        assert(parts.drop_last().take(count) =~= parts.take(count));
        lemma_first_failure_decides(parts.drop_last(), count, limits, ending);
    } else {
        assert(parts.take(count) =~= parts);
    }
}

/// An endless sequence ends in a failure: no more elements than the ceiling are
/// ever accepted.
pub proof fn lemma_sequences_are_bounded(
    parts: Seq<RawPart>,
    limits: FileApiLimits,
    ending: NativeLineEnding,
)
    requires
        elements_failure(parts, limits, ending) is None,
    ensures
        parts.len() <= limits.max_parts,
    decreases parts.len(),
{
    if parts.len() > 0 {
        lemma_sequences_are_bounded(parts.drop_last(), limits, ending);
    }
}

/// Converts a parts argument, element by element.
pub fn convert_sequence(
    value: SequenceValue,
    required: bool,
    limits: &FileApiLimits,
    ending: NativeLineEnding,
) -> (result: Result<Vec<ConvertedBlobPart>, JsError>)
    ensures
        result is Err <==> sequence_failure(value, required, *limits, ending) is Some,
        match result {
            Ok(converted) => part_views(converted@) == snapshots(sequence_elements(value)),
            Err(error) => sequence_failure(value, required, *limits, ending) == Some(error@),
        },
{
    let elements = match value {
        SequenceValue::Undefined => {
            if required {
                return Err(
                    type_error("the provided value cannot be converted to a sequence<BlobPart>"),
                );
            }
            let nothing: Vec<ConvertedBlobPart> = Vec::new();
            assert(part_views(nothing@) =~= snapshots(sequence_elements(value)));
            return Ok(nothing);
        },
        SequenceValue::NotIterable => {
            return Err(
                type_error("the provided value cannot be converted to a sequence<BlobPart>"),
            );
        },
        SequenceValue::Elements(parts) => parts,
    };
    let ghost all = elements@;
    let mut budget = PartBudget { parts: 0, lower_bound: 0 };
    let mut converted: Vec<ConvertedBlobPart> = Vec::new();
    proof {
        assert(all.take(0) =~= Seq::<RawPart>::empty());
    }
    for part in iter: elements
        invariant
            iter.seq() == all,
            budget.parts == iter.index(),
            budget.lower_bound == accounted_total(all.take(iter.index()), ending),
            converted@.len() == iter.index(),
            part_views(converted@) =~= snapshots(all.take(iter.index())),
            elements_failure(all.take(iter.index()), *limits, ending) is None,
            sequence_failure(value, required, *limits, ending) == elements_failure(
                all,
                *limits,
                ending,
            ),
    {
        let ghost index = iter.index();
        let ghost here = all.take(index + 1);
        proof {
            assert(part == all[index]);
            assert(here.drop_last() =~= all.take(index));
            assert(here.last() == part);
        }
        match convert_part(part, &mut budget, limits, ending) {
            Ok(accepted) => {
                let ghost before = converted@;
                converted.push(accepted);
                proof {
                    let views = part_views(converted@);
                    assert forall|i: int| 0 <= i < views.len() implies views[i] == snapshots(
                        here,
                    )[i] by {
                        if i < index {
                            assert(part_views(before)[i] == snapshots(all.take(index))[i]);
                        }
                    }
                }
            },
            Err(error) => {
                proof {
                    lemma_first_failure_decides(all, index + 1, *limits, ending);
                }
                return Err(error);
            },
        }
    }
    proof {
        assert(all.take(all.len() as int) =~= all);
    }
    Ok(converted)
}

/// An options argument with its `endings` and `type` members, each absent or
/// converted to a string.
#[derive(Clone, Debug)]
pub enum OptionsValue {
    /// `null` or `undefined`.
    Nullish,
    /// Any other value that is no object.
    NotAnObject,
    /// An object.
    Object {
        /// The `endings` member.
        endings: Option<String>,
        /// The `type` member.
        media_type: Option<String>,
    },
}

/// The options of a `Blob`.
#[derive(Clone, Debug)]
pub struct BlobOptions {
    /// The normalized media type.
    pub media_type: String,
    /// The line ending mode of text parts.
    pub endings: EndingMode,
}

/// Why an options argument is refused, if it is.
pub open spec fn options_failure(value: OptionsValue) -> Option<(JsErrorKind, Seq<char>)> {
    match value {
        OptionsValue::Nullish => None,
        OptionsValue::NotAnObject => Some(
            (JsErrorKind::Type, "the provided options value is not an object"@),
        ),
        OptionsValue::Object { endings, media_type } => match endings {
            Some(text) => if text@ == "native"@ || text@ == "transparent"@ {
                None
            } else {
                Some((JsErrorKind::Type, ending_message()))
            },
            None => None,
        },
    }
}

/// The line ending mode that an options argument selects.
pub open spec fn selected_endings(value: OptionsValue) -> EndingMode {
    match value {
        OptionsValue::Object { endings: Some(text), media_type } => if text@ == "native"@ {
            EndingMode::Native
        } else {
            EndingMode::Transparent
        },
        _ => EndingMode::Transparent,
    }
}

/// The media type that an options argument selects.
pub open spec fn selected_type(value: OptionsValue) -> Seq<char> {
    match value {
        OptionsValue::Object { endings, media_type: Some(text) } => normalized_type(text@),
        _ => Seq::empty(),
    }
}

/// The selected media type is normalized.
pub proof fn lemma_selected_type_normalized(value: OptionsValue)
    ensures
        normalized_type(selected_type(value)) == selected_type(value),
{
    match value {
        OptionsValue::Object { endings, media_type: Some(text) } => {
            crate::blob::lemma_normalized_type_idempotent(text@);
        },
        _ => {
            assert(normalized_type(Seq::<char>::empty()) =~= Seq::<char>::empty());
        },
    }
}

impl BlobOptions {
    /// Reads an options argument: `null` and `undefined` give the defaults,
    /// absent members too.
    pub fn parse(value: &OptionsValue) -> (result: Result<BlobOptions, JsError>)
        ensures
            result is Err <==> options_failure(*value) is Some,
            match result {
                Ok(options) => {
                    &&& options.endings == selected_endings(*value)
                    &&& options.media_type@ == selected_type(*value)
                },
                Err(error) => options_failure(*value) == Some(error@),
            },
    {
        proof {
            reveal_strlit("");
            assert(""@ =~= Seq::<char>::empty());
            reveal_strlit("native");
            reveal_strlit("transparent");
            assert("native"@.len() != "transparent"@.len());
        }
        match value {
            OptionsValue::Nullish => Ok(
                BlobOptions { media_type: String::new(), endings: EndingMode::Transparent },
            ),
            OptionsValue::NotAnObject => Err(
                type_error("the provided options value is not an object"),
            ),
            OptionsValue::Object { endings, media_type } => {
                let endings = match endings {
                    None => EndingMode::Transparent,
                    Some(text) => match parse_ending_mode(text.as_str()) {
                        Ok(mode) => mode,
                        Err(error) => {
                            return Err(error);
                        },
                    },
                };
                let media_type = match media_type {
                    None => String::new(),
                    Some(text) => normalize_blob_type(text.as_str()),
                };
                Ok(BlobOptions { media_type, endings })
            },
        }
    }
}

/// The options of a `File`.
#[derive(Clone, Debug)]
pub struct FileOptions {
    /// The members shared with `Blob`.
    pub blob: BlobOptions,
    /// The `lastModified` member, if it was given.
    pub last_modified: Option<i64>,
}

impl FileOptions {
    /// Reads an options argument together with its `lastModified` member, given
    /// by the bit pattern of its number.
    pub fn parse(value: &OptionsValue, last_modified: Option<u64>) -> (result: Result<
        FileOptions,
        JsError,
    >)
        ensures
            result is Err <==> options_failure(*value) is Some,
            match result {
                Ok(options) => {
                    &&& options.blob.endings == selected_endings(*value)
                    &&& options.blob.media_type@ == selected_type(*value)
                    &&& match (*value, last_modified) {
                        (OptionsValue::Object { endings, media_type }, Some(bits)) =>
                            options.last_modified matches Some(millis) && millis == long_long_of(
                            bits,
                        ),
                        _ => options.last_modified is None,
                    }
                },
                Err(error) => options_failure(*value) == Some(error@),
            },
    {
        let blob = match BlobOptions::parse(value) {
            Ok(blob) => blob,
            Err(error) => {
                return Err(error);
            },
        };
        let last_modified = match (value, last_modified) {
            (OptionsValue::Object { endings, media_type }, Some(bits)) => Some(
                f64_to_long_long(bits),
            ),
            _ => None,
        };
        Ok(FileOptions { blob, last_modified })
    }
}

/// Text is converted piece by piece, as long as no carriage return is parted from
/// its line feed.
proof fn lemma_native_text_concat(a: Seq<char>, b: Seq<char>, ending: Seq<char>)
    requires
        !(a.len() > 0 && b.len() > 0 && a.last() == '\r' && b[0] == '\n'),
    ensures
        native_text(a + b, ending) == native_text(a, ending) + native_text(b, ending),
    decreases a.len(),
{
    if a.len() == 0 {
        assert(a + b =~= b);
        assert(native_text(a, ending) + native_text(b, ending) =~= native_text(b, ending));
    } else {
        let s = a + b;
        assert(s[0] == a[0]);
        let pair = a[0] == '\r' && a.len() > 1 && a[1] == '\n';
        if a.len() > 1 {
            assert(s[1] == a[1]);
        } else if b.len() > 0 {
            assert(s[1] == b[0]);
            assert(a.last() == a[0]);
        }
        let width: int = if pair {
            2
        } else {
            1
        };
        let rest = a.skip(width);
        assert(s.skip(width) =~= rest + b);
        if rest.len() > 0 {
            assert(rest.last() == a.last());
        }
        lemma_native_text_concat(rest, b, ending);
        assert(native_text(s, ending) =~= native_text(a, ending) + native_text(b, ending));
    }
}

/// Text without line endings is converted to itself.
proof fn lemma_native_text_plain(text: Seq<char>, ending: Seq<char>)
    requires
        !text.contains('\r'),
        !text.contains('\n') || ending == seq!['\n'],
    ensures
        native_text(text, ending) == text,
    decreases text.len(),
{
    if text.len() > 0 {
        let rest = text.skip(1);
        assert(text.contains(text[0]));
        assert forall|c: char| rest.contains(c) implies text.contains(c) by {
            let i = choose|i: int| 0 <= i < rest.len() && rest[i] == c;
            assert(text[i + 1] == c);
        }
        lemma_native_text_plain(rest, ending);
        assert(native_text(text, ending) =~= text);
    }
}

/// Every line ending becomes one native ending where it stands: a carriage return
/// with its line feed, a carriage return alone, or a line feed alone. What stands
/// before and behind it is converted as it would be alone.
pub proof fn lemma_line_endings_become_native_in_place(
    before: Seq<char>,
    written: Seq<char>,
    behind: Seq<char>,
    ending: NativeLineEnding,
    whole: &str,
    front: &str,
    back: &str,
    results: (String, String, String),
)
    requires
        written == seq!['\r', '\n'] || written == seq!['\r'] || written == seq!['\n'],
        written == seq!['\r'] ==> behind.len() == 0 || behind[0] != '\n',
        written == seq!['\n'] ==> before.len() == 0 || before.last() != '\r',
        whole@ == before + written + behind,
        front@ == before,
        back@ == behind,
        call_ensures(convert_line_endings_to_native, (whole, ending), results.0),
        call_ensures(convert_line_endings_to_native, (front, ending), results.1),
        call_ensures(convert_line_endings_to_native, (back, ending), results.2),
    ensures
        match ending {
            NativeLineEnding::Lf => results.0@ == results.1@ + seq!['\n'] + results.2@,
            NativeLineEnding::Crlf => results.0@ == results.1@ + seq!['\r', '\n'] + results.2@,
        },
{
    let e = ending.chars();
    assert(native_text(written, e) =~= e) by {
        reveal_with_fuel(native_text, 3);
        assert(written.skip(written.len() as int) =~= Seq::<char>::empty());
    }
    lemma_native_text_concat(before, written, e);
    lemma_native_text_concat(before + written, behind, e);
}

/// Text without carriage returns is kept where the native ending is the line
/// feed, blank lines and all; text without any line ending is kept everywhere.
pub proof fn lemma_native_lines_are_kept(text: &str, ending: NativeLineEnding, converted: String)
    requires
        call_ensures(convert_line_endings_to_native, (text, ending), converted),
        !text@.contains('\r'),
        !text@.contains('\n') || ending == NativeLineEnding::Lf,
    ensures
        converted@ == text@,
{
    lemma_native_text_plain(text@, ending.chars());
}

/// The length that is computed beforehand is that of the converted text in UTF-8.
pub proof fn lemma_native_length_is_exact(
    text: &str,
    ending: NativeLineEnding,
    length: Result<u64, JsError>,
    converted: String,
)
    requires
        call_ensures(line_ending_byte_len, (text, ending), length),
        call_ensures(convert_line_endings_to_native, (text, ending), converted),
        encode_utf8(converted@).len() <= u64::MAX,
    ensures
        length matches Ok(bytes) && bytes == encode_utf8(converted@).len(),
{
}

/// A view shows the bytes of its range, and nothing once its buffer is detached
/// or, for a shared buffer, too short.
pub proof fn lemma_views_show_their_range(
    buffer: ViewedBuffer,
    offset: usize,
    length: usize,
    result: Result<Vec<u8>, JsError>,
)
    requires
        call_ensures(view_bytes, (&buffer, offset, length), result),
    ensures
        buffer matches ViewedBuffer::Array(Some(data)) && offset + length <= data@.len() ==> (
        result matches Ok(bytes) && bytes@.len() == length && forall|i: int|
            0 <= i < length ==> #[trigger] bytes@[i] == buffer->Array_0->0@[offset + i]),
        buffer matches ViewedBuffer::Shared(data) && offset + length <= data@.len() ==> (
        result matches Ok(bytes) && bytes@.len() == length && forall|i: int|
            0 <= i < length ==> #[trigger] bytes@[i] == buffer->Shared_0@[offset + i]),
        buffer matches ViewedBuffer::Array(Some(data)) && offset + length > data@.len()
            ==> result is Err,
        buffer == ViewedBuffer::Array(None) && offset + length <= usize::MAX ==> (result matches Ok(
            bytes,
        ) && bytes@.len() == 0),
        buffer is NotAnObject || buffer is Other ==> result is Err,
{
    match buffer {
        ViewedBuffer::Array(Some(data)) => {
            assert(data@.len() <= usize::MAX) by {
                assert(data.len() <= usize::MAX);
            }
        },
        ViewedBuffer::Shared(data) => {
            assert(data@.len() <= usize::MAX) by {
                assert(data.len() <= usize::MAX);
            }
        },
        _ => {},
    }
}


/// A view of a shared buffer that has become too short for it shows nothing, and
/// no view reaches beyond the addressable range.
pub proof fn lemma_short_views_show_nothing(
    data: Vec<u8>,
    offset: usize,
    length: usize,
    result: Result<Vec<u8>, JsError>,
    other: ViewedBuffer,
    refused: Result<Vec<u8>, JsError>,
)
    requires
        call_ensures(view_bytes, (&ViewedBuffer::Shared(data), offset, length), result),
        call_ensures(view_bytes, (&other, offset, length), refused),
    ensures
        offset + length <= usize::MAX && offset + length > data@.len() ==> (result matches Ok(bytes)
            && bytes@.len() == 0),
        offset + length > usize::MAX ==> result is Err && refused is Err,
{
}

/// The line endings that options ask for are one of two words; anything else is
/// refused, and without a word texts stay as they are.
pub proof fn lemma_endings_are_one_of_two(
    endings: Option<String>,
    media_type: Option<String>,
    result: Result<BlobOptions, JsError>,
    absent: Result<BlobOptions, JsError>,
    refused: Result<BlobOptions, JsError>,
)
    requires
        call_ensures(
            BlobOptions::parse,
            (&OptionsValue::Object { endings, media_type },),
            result,
        ),
        call_ensures(BlobOptions::parse, (&OptionsValue::Nullish,), absent),
        call_ensures(BlobOptions::parse, (&OptionsValue::NotAnObject,), refused),
    ensures
        refused is Err,
        absent matches Ok(options) && options.endings == EndingMode::Transparent
            && options.media_type@ == Seq::<char>::empty(),
        endings is None ==> (result matches Ok(options) && options.endings
            == EndingMode::Transparent),
        endings matches Some(word) ==> {
            &&& result is Ok <==> word@ == "native"@ || word@ == "transparent"@
            &&& result matches Ok(options) ==> (options.endings == EndingMode::Native <==> word@
                == "native"@)
        },
        media_type is None ==> (result matches Ok(options) ==> options.media_type@
            == Seq::<char>::empty()),
{
    reveal_strlit("native");
    reveal_strlit("transparent");
}

/// A budget of parts admits a part exactly while fewer than the ceiling were
/// admitted, and counts bytes exactly while their sum keeps the ceiling.
pub proof fn lemma_part_budgets_are_exact(
    budget: PartBudget,
    limits: FileApiLimits,
    admitted: Result<(), JsError>,
    part_size: u64,
    lower_bound: &mut u64,
    accounted: Result<(), JsError>,
)
    requires
        call_ensures(admit_part, (&budget, &limits), admitted),
        call_ensures(account_lower_bound, (part_size, lower_bound, &limits), accounted),
    ensures
        admitted is Ok <==> budget.parts < limits.max_parts,
        accounted is Ok <==> *old(lower_bound) + part_size <= limits.max_blob_size,
        accounted is Ok ==> *final(lower_bound) == *old(lower_bound) + part_size,
{
}

} // verus!
