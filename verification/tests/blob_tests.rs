use boa_fapi::blob::{normalize_blob_type, BlobData, ByteSource};
use boa_fapi::clock::Clock;
use boa_fapi::error::{FileApiError, JsErrorKind, ResourceLimitKind};
use boa_fapi::file::{
    blob_of_parts, check_blob_call, check_file_call, construct_blob, construct_file,
    data_from_bytes, file_of_parts, normalize_file_name, FileNative,
};
use boa_fapi::limits::FileApiLimits;
use boa_fapi::read::{assemble, memory_piece, plan_range};
use boa_fapi::webidl::{
    admit_part, convert_line_endings_to_native, convert_part, line_ending_byte_len, native_ending_for,
    platform_native_ending, NativeLineEnding, OptionsValue, PartBudget, RawPart, SequenceValue,
    ViewedBuffer,
};

struct FixedClock {
    millis: i64,
}

impl Clock for FixedClock {
    fn now_unix_millis(&self) -> i64 {
        self.millis
    }
}

const FIXED_TIME: i64 = 1_700_000_000_000;

fn limits() -> FileApiLimits {
    FileApiLimits::default()
}

fn new_blob(parts: Vec<RawPart>, options: OptionsValue) -> BlobData {
    construct_blob(
        SequenceValue::Elements(parts),
        &options,
        &limits(),
        platform_native_ending(),
    )
    .expect("blob")
}

fn new_file(parts: Vec<RawPart>, name: &str) -> FileNative {
    construct_file(
        SequenceValue::Elements(parts),
        name,
        &OptionsValue::Nullish,
        None,
        &FixedClock { millis: FIXED_TIME },
        &limits(),
        platform_native_ending(),
    )
    .expect("file")
}

fn text(value: &str) -> RawPart {
    RawPart::Text(value.to_string())
}

fn content(data: &BlobData) -> Vec<u8> {
    let plan = plan_range(data, 0, data.size()).expect("plan");
    let pieces = plan
        .iter()
        .map(|segment| Ok(memory_piece(segment).expect("memory")))
        .collect();
    assemble(&plan, &pieces).expect("bytes")
}

fn assert_blob_meta(data: &BlobData, expected_size: u64, expected_segments: usize) {
    assert_eq!(data.size(), expected_size);
    assert_eq!(data.segment_count(), expected_segments);
}

#[test]
fn string_parts_are_utf8_encoded() {
    let data = new_blob(vec![text("a\u{e9}\u{1f600}")], OptionsValue::Nullish);
    assert_blob_meta(&data, 1 + 2 + 4, 1);
    assert_eq!(data.media_type(), "");
    assert_eq!(content(&data), "a\u{e9}\u{1f600}".as_bytes());
}

#[test]
fn native_endings_convert_bytes() {
    let data = new_blob(
        vec![text("a\nb\rc\r\nd")],
        OptionsValue::Object {
            endings: Some("native".to_string()),
            media_type: None,
        },
    );
    let expected_size: u64 = if std::path::MAIN_SEPARATOR == '\\' { 10 } else { 7 };
    assert_blob_meta(&data, expected_size, 1);
}

#[test]
fn transparent_endings_preserve_bytes() {
    let data = new_blob(vec![text("a\nb\rc\r\nd")], OptionsValue::Nullish);
    assert_blob_meta(&data, 8, 1);
    assert_eq!(content(&data), b"a\nb\rc\r\nd");
}

#[test]
fn buffer_source_copies_visible_range() {
    let data = new_blob(
        vec![RawPart::TypedArray {
            offset: 2,
            length: 4,
            buffer: ViewedBuffer::Array(Some(vec![0, 0, 9, 10, 11, 12, 0, 0])),
        }],
        OptionsValue::Nullish,
    );
    assert_blob_meta(&data, 4, 1);
    assert_eq!(content(&data), [9, 10, 11, 12]);
}

#[test]
fn data_view_copies_visible_range() {
    let data = new_blob(
        vec![RawPart::DataView {
            offset: 1,
            length: 3,
            buffer: ViewedBuffer::Array(Some(vec![1, 2, 3, 4, 5, 6, 0, 0])),
        }],
        OptionsValue::Nullish,
    );
    assert_blob_meta(&data, 3, 1);
    assert_eq!(content(&data), [2, 3, 4]);
}

#[test]
fn post_construction_mutation_cannot_change_blob() {
    let mut view = vec![1_u8, 2, 3];
    let data = new_blob(
        vec![RawPart::TypedArray {
            offset: 0,
            length: 3,
            buffer: ViewedBuffer::Array(Some(view.clone())),
        }],
        OptionsValue::Nullish,
    );
    view[0] = 99;
    assert_blob_meta(&data, 3, 1);
    assert_eq!(content(&data), [1, 2, 3]);
}

#[test]
fn detached_buffer_copies_empty_sequence() {
    let data = new_blob(vec![RawPart::ArrayBuffer(None)], OptionsValue::Nullish);
    assert_blob_meta(&data, 0, 0);
}

#[test]
fn nested_blob_composition_shares_source_without_copy() {
    let inner = new_blob(vec![text("INNER")], OptionsValue::Nullish);
    let outer = new_blob(vec![RawPart::Blob(inner.reference())], OptionsValue::Nullish);
    assert_eq!(outer.size(), inner.size());
    assert_eq!(outer.segment_count(), inner.segment_count());
    assert_blob_meta(&outer, 5, 1);
}

#[test]
fn nested_file_composition_shares_source_without_copy() {
    let inner = new_file(vec![text("FILE")], "f.txt");
    let outer = new_blob(
        vec![RawPart::Blob(inner.blob_data().reference())],
        OptionsValue::Nullish,
    );
    assert_eq!(outer.size(), inner.blob_data().size());
    assert_eq!(outer.segment_count(), inner.blob_data().segment_count());
    assert_eq!(outer.media_type(), "");
    assert_blob_meta(&outer, 4, 1);
}

#[test]
fn slice_shares_source_without_copy() {
    let original = new_blob(vec![text("hello world")], OptionsValue::Nullish);
    let sliced = original.slice(Some(3), Some(8), None);
    assert!(sliced.size() <= original.size());
    assert!(sliced.segment_count() <= original.segment_count());
    assert_blob_meta(&sliced, 5, 1);
    assert_eq!(content(&sliced), b"lo wo");
}

#[test]
fn file_slice_is_a_plain_blob() {
    let file = new_file(vec![text("hello")], "f.txt");
    let sliced: BlobData = file.blob_data().slice(Some(1), None, None);
    assert!(sliced.size() <= file.blob_data().size());
    assert!(sliced.segment_count() <= file.blob_data().segment_count());
    assert_blob_meta(&sliced, 4, 1);
}

#[test]
fn empty_blob_allocates_no_segments() {
    let data = construct_blob(
        SequenceValue::Undefined,
        &OptionsValue::Nullish,
        &limits(),
        platform_native_ending(),
    )
    .expect("blob");
    assert_eq!(data.size(), 0);
    assert_eq!(data.segment_count(), 0);
}

#[test]
fn platform_ending_matches_host() {
    let expected = if std::path::MAIN_SEPARATOR == '\\' {
        NativeLineEnding::Crlf
    } else {
        NativeLineEnding::Lf
    };
    assert_eq!(platform_native_ending(), expected);
}

#[test]
fn line_endings_follow_the_separator() {
    assert_eq!(native_ending_for('/'), NativeLineEnding::Lf);
    assert_eq!(native_ending_for('\\'), NativeLineEnding::Crlf);
    let mixed = "a\nb\rc\r\nd";
    let lf = convert_line_endings_to_native(mixed, NativeLineEnding::Lf);
    assert_eq!(lf, "a\nb\nc\nd");
    let crlf = convert_line_endings_to_native(mixed, NativeLineEnding::Crlf);
    assert_eq!(crlf, "a\r\nb\r\nc\r\nd");
    assert_eq!(convert_line_endings_to_native(&crlf, NativeLineEnding::Crlf), crlf);
    assert_eq!(line_ending_byte_len(mixed, NativeLineEnding::Crlf).expect("len"), 10);
}

#[test]
fn file_takes_its_time_from_options_or_clock() {
    let clock = FixedClock { millis: FIXED_TIME };
    let file = new_file(vec![text("x")], "a/b/c");
    assert_eq!(file.name(), "a:b:c");
    assert_eq!(file.last_modified(), FIXED_TIME);
    let dated = construct_file(
        SequenceValue::Elements(vec![text("x")]),
        "n",
        &OptionsValue::Object {
            endings: None,
            media_type: Some("TEXT/Plain".to_string()),
        },
        Some(42.9_f64.to_bits()),
        &clock,
        &limits(),
        NativeLineEnding::Lf,
    )
    .expect("file");
    assert_eq!(dated.last_modified(), 42);
    assert_eq!(dated.blob_data().media_type(), "text/plain");
}

#[test]
fn file_needs_its_parts() {
    let error = construct_file(
        SequenceValue::Undefined,
        "n",
        &OptionsValue::Nullish,
        None,
        &FixedClock { millis: 0 },
        &limits(),
        NativeLineEnding::Lf,
    )
    .expect_err("no parts");
    assert_eq!(error.kind, JsErrorKind::Type);
    assert_eq!(
        error.message,
        "the provided value cannot be converted to a sequence<BlobPart>"
    );
}

#[test]
fn constructors_need_new_and_arguments() {
    assert!(check_blob_call(true).is_ok());
    assert_eq!(
        check_blob_call(false).expect_err("no new").message,
        "Blob constructor requires 'new'"
    );
    assert!(check_file_call(true, 2).is_ok());
    assert_eq!(
        check_file_call(false, 2).expect_err("no new").message,
        "File constructor requires 'new'"
    );
    assert_eq!(
        check_file_call(true, 1).expect_err("too few").message,
        "File constructor requires at least two arguments"
    );
}

#[test]
fn options_are_checked_before_parts_are_joined() {
    let error = construct_blob(
        SequenceValue::Elements(vec![text("x")]),
        &OptionsValue::NotAnObject,
        &limits(),
        NativeLineEnding::Lf,
    )
    .expect_err("options");
    assert_eq!(error.message, "the provided options value is not an object");
    let bad = construct_blob(
        SequenceValue::Elements(vec![text("x")]),
        &OptionsValue::Object {
            endings: Some("Native".to_string()),
            media_type: None,
        },
        &limits(),
        NativeLineEnding::Lf,
    );
    assert_eq!(bad.expect_err("endings").kind, JsErrorKind::Type);
}

#[test]
fn limits_refuse_parts_and_sizes() {
    let mut tight = limits();
    tight.max_parts = 1;
    let error = construct_blob(
        SequenceValue::Elements(vec![text("a"), text("b")]),
        &OptionsValue::Nullish,
        &tight,
        NativeLineEnding::Lf,
    )
    .expect_err("parts");
    assert_eq!(error.kind, JsErrorKind::Range);
    assert_eq!(error.message, "too many blob parts");
    let mut small = limits();
    small.max_blob_size = 3;
    let error = construct_blob(
        SequenceValue::Elements(vec![text("abcd")]),
        &OptionsValue::Nullish,
        &small,
        NativeLineEnding::Lf,
    )
    .expect_err("size");
    assert_eq!(error.message, "blob size exceeds the configured limit");
    assert!(matches!(
        data_from_bytes(vec![0; 4], "", &small),
        Err(FileApiError::ResourceLimit(ResourceLimitKind::BlobSize))
    ));
    small.max_segments = 0;
    assert!(matches!(
        data_from_bytes(vec![0; 3], "", &small),
        Err(FileApiError::ResourceLimit(ResourceLimitKind::BlobSegments))
    ));
}

#[test]
fn slices_count_from_the_end_and_clip() {
    let data = data_from_bytes(b"hello world".to_vec(), "", &limits()).expect("blob");
    assert_eq!(content(&data.slice(Some(-5), None, None)), b"world");
    assert_eq!(content(&data.slice(Some(2), Some(-6), None)), b"llo");
    assert_eq!(data.slice(Some(8), Some(3), None).size(), 0);
    assert_eq!(content(&data.slice(None, Some(99), Some("Text/HTML"))), b"hello world");
    assert_eq!(data.slice(None, None, Some("Text/HTML")).media_type(), "text/html");
}

#[test]
fn a_blob_cut_in_two_joins_again() {
    let data = new_blob(vec![text("hello"), text(" "), text("world")], OptionsValue::Nullish);
    for at in 0..=11_i64 {
        let head = data.slice(Some(0), Some(at), None);
        let tail = data.slice(Some(at), None, None);
        let joined = new_blob(
            vec![RawPart::Blob(head), RawPart::Blob(tail)],
            OptionsValue::Nullish,
        );
        assert_eq!(content(&joined), b"hello world");
    }
}

#[test]
fn a_slice_of_a_slice_is_a_slice() {
    let data = data_from_bytes(b"0123456789".to_vec(), "", &limits()).expect("blob");
    let twice = data.slice(Some(2), Some(9), None).slice(Some(1), Some(4), None);
    assert_eq!(content(&twice), content(&data.slice(Some(3), Some(6), None)));
}

#[test]
fn media_types_are_lowered_or_dropped() {
    assert_eq!(normalize_blob_type("TEXT/Plain"), "text/plain");
    assert_eq!(normalize_blob_type("text/\u{e9}"), "");
    assert_eq!(normalize_blob_type(&normalize_blob_type("A/B")), "a/b");
}

#[test]
fn payloads_normalize_their_media_type() {
    let data = BlobData::from_bytes(b"x".to_vec(), "Text/PLAIN", &limits()).expect("blob");
    assert_eq!(data.media_type(), "text/plain");
    assert_eq!(BlobData::empty("a\u{7}").media_type(), "");
    assert_eq!(data.with_media_type("A/B").media_type(), "a/b");
}

#[test]
fn names_lose_their_slashes() {
    assert_eq!(normalize_file_name("a/b\\c/"), "a:b\\c:");
    assert_eq!(normalize_file_name("a:b"), "a:b");
}

#[test]
fn host_sources_keep_their_length() {
    let data = BlobData::from_source(ByteSource::Host { handle: 9, len: 7 }, "", &limits())
        .expect("blob");
    assert_blob_meta(&data, 7, 1);
    assert!(memory_piece(data.segment(0)).is_none());
}

#[test]
fn shared_buffers_and_bad_views() {
    let data = new_blob(
        vec![RawPart::SharedArrayBuffer(vec![1, 2, 3]), RawPart::ArrayBuffer(Some(vec![4]))],
        OptionsValue::Nullish,
    );
    assert_eq!(content(&data), [1, 2, 3, 4]);
    let bad = construct_blob(
        SequenceValue::Elements(vec![RawPart::TypedArray {
            offset: 2,
            length: 4,
            buffer: ViewedBuffer::Array(Some(vec![1, 2, 3])),
        }]),
        &OptionsValue::Nullish,
        &limits(),
        NativeLineEnding::Lf,
    );
    assert_eq!(bad.expect_err("view").kind, JsErrorKind::Type);
}

#[test]
fn parts_are_converted_one_by_one() {
    let tight = FileApiLimits {
        max_parts: 2,
        ..limits()
    };
    let ending = native_ending_for('/');
    let mut budget = PartBudget {
        parts: 0,
        lower_bound: 0,
    };
    let mut converted = Vec::new();
    for value in ["a\r\n", "b"] {
        assert!(admit_part(&budget, &tight).is_ok());
        converted.push(convert_part(text(value), &mut budget, &tight, ending).expect("part"));
    }
    let refused = admit_part(&budget, &tight).expect_err("too many");
    assert_eq!((refused.kind, refused.message.as_str()), (JsErrorKind::Range, "too many blob parts"));
    assert_eq!((budget.parts, budget.lower_bound), (2, 3));
    let error = convert_part(text("c"), &mut budget, &tight, ending).expect_err("too many");
    assert_eq!(error.message, "too many blob parts");
    let options = OptionsValue::Object {
        endings: Some("native".to_string()),
        media_type: Some("A/B".to_string()),
    };
    let data = blob_of_parts(converted, &options, &tight, ending).expect("blob");
    assert_eq!(content(&data), b"a\nb");
    assert_eq!(data.media_type(), "a/b");
    let clock = FixedClock { millis: FIXED_TIME };
    let nothing = Vec::new();
    let modified = Some(5.9f64.to_bits());
    let file = file_of_parts(nothing, "x/y", &options, modified, &clock, &tight, ending);
    let file = file.expect("file");
    assert_eq!((file.name(), file.last_modified()), ("x:y", 5));
}
