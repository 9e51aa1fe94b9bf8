use boa_fapi::error::{FileApiError, ResourceLimitKind};
use boa_fapi::mime::mime_charset;
use boa_fapi::package::{
    append_decoded_text, data_url_len, decode_text, grown_room, initial_room,
    package_binary_string, package_data_url, resolve_text_encoding, trim_ascii_whitespace,
    IncrementalDecoder, TextEncoding,
};
use boa_fapi::utf8::{from_utf8_lossy, incomplete_tail_len, is_valid_utf8_prefix, Utf8Decoder};

#[test]
fn incremental_decoder_sniffs_bom_when_split_after_first_or_second_byte() {
    let encoding = TextEncoding::utf_8();
    for (first, second) in [
        (&[0xEF][..], &[0xBB, 0xBF, 0x42][..]),
        (&[0xEF, 0xBB][..], &[0xBF, 0x42][..]),
    ] {
        let mut decoder = IncrementalDecoder::new();
        let result = (|| {
            let mut output = decoder.push(&encoding, first)?;
            output.push_str(&decoder.push(&encoding, second)?);
            output.push_str(&decoder.finish(&encoding)?);
            Ok::<_, FileApiError>(output)
        })();
        assert!(
            matches!(&result, Ok(output) if output == "B"),
            "unexpected decoder result: {result:?}"
        );
    }
}

#[test]
fn mime_parser_skips_malformed_parameters_and_accepts_eof_quote() {
    let expected = Some(String::from("windows-1252"));
    assert_eq!(mime_charset("text/plain;charset =windows-1252"), None);
    assert_eq!(
        mime_charset("text/plain;foo=\"a;b\";charset=windows-1252"),
        expected
    );
    assert_eq!(mime_charset("text/plain;charset=\"windows-1252"), expected);
    assert_eq!(mime_charset("text/plain;foo;charset=windows-1252"), expected);
    assert_eq!(
        mime_charset("text/plain;foo=\"x\"junk;charset=windows-1252"),
        expected
    );
}

#[test]
fn charset_needs_a_type_and_a_subtype() {
    assert_eq!(mime_charset("charset=utf-8"), None);
    assert_eq!(mime_charset("text/;charset=utf-8"), None);
    assert_eq!(mime_charset(" text/plain ; CHARSET=Utf-8 "), Some(String::from("Utf-8")));
    assert_eq!(
        mime_charset("text/plain;charset=\"a\\\"b\""),
        Some(String::from("a\"b"))
    );
    assert_eq!(
        mime_charset("text/plain;charset=first;charset=second"),
        Some(String::from("first"))
    );
}

#[test]
fn the_first_charset_wins() {
    for more in ["", " ", "charset=other", "foo=\"", "\";charset=x", ";;charset=y"] {
        let media_type = format!("text/plain;charset=first ;{more}");
        assert_eq!(mime_charset(&media_type), Some(String::from("first")));
        let quoted = format!("text/plain;charset=\"a;b\";{more}");
        assert_eq!(mime_charset(&quoted), Some(String::from("a;b")));
    }
    assert_eq!(mime_charset("text/plain;charset=\"open;more"), Some(String::from("open;more")));
}

#[test]
fn labels_come_before_media_types() {
    assert_eq!(resolve_text_encoding(Some("latin1"), "text/plain;charset=utf-8").name(), "windows-1252");
    assert_eq!(resolve_text_encoding(None, "text/plain;charset=latin1").name(), "windows-1252");
    assert_eq!(resolve_text_encoding(Some(" utf8 "), "").name(), "UTF-8");
    assert_eq!(resolve_text_encoding(Some("no-such-label"), "text/plain;charset=latin1").name(), "windows-1252");
    assert_eq!(resolve_text_encoding(None, "").name(), "UTF-8");
}

#[test]
fn text_is_decoded_by_its_encoding() {
    let latin = resolve_text_encoding(Some("latin1"), "");
    assert_eq!(decode_text(&latin, &[0x63, 0x61, 0x66, 0xE9]).expect("text"), "caf\u{e9}");
    let utf8 = TextEncoding::utf_8();
    assert_eq!(decode_text(&utf8, &[0xC3, 0xA9]).expect("text"), "\u{e9}");
    assert_eq!(decode_text(&utf8, &[0xFF]).expect("text"), "\u{fffd}");
    let wide = resolve_text_encoding(Some("utf-16le"), "");
    assert_eq!(decode_text(&wide, &[0x41, 0x00]).expect("text"), "A");
    assert_eq!(decode_text(&latin, &[0xFF, 0xFE, 0x41, 0x00]).expect("text"), "A");
}

#[test]
fn chunks_decode_like_the_whole() {
    let utf8 = TextEncoding::utf_8();
    let bytes = "a\u{20ac}b\u{1f600}".as_bytes();
    for cut in 0..=bytes.len() {
        let mut decoder = IncrementalDecoder::new();
        let mut out = decoder.push(&utf8, &bytes[..cut]).expect("first");
        out.push_str(&decoder.push(&utf8, &bytes[cut..]).expect("second"));
        out.push_str(&decoder.finish(&utf8).expect("end"));
        assert_eq!(out, "a\u{20ac}b\u{1f600}");
    }
}

#[test]
fn malformed_input_decodes_like_the_whole() {
    let utf8 = TextEncoding::utf_8();
    let bytes = [0x61, 0xE2, 0x82, 0xFF, 0xF0, 0x9F, 0x98, 0xED, 0xA0, 0x80, 0xC3];
    let whole = decode_text(&utf8, &bytes).expect("whole");
    for cut in 0..=bytes.len() {
        let mut decoder = IncrementalDecoder::new();
        let mut out = decoder.push(&utf8, &bytes[..cut]).expect("first");
        out.push_str(&decoder.push(&utf8, &bytes[cut..]).expect("second"));
        out.push_str(&decoder.finish(&utf8).expect("end"));
        assert_eq!(out, whole);
    }
    assert_eq!(whole, String::from_utf8_lossy(&bytes));
}

#[test]
fn long_output_is_decoded_in_full() {
    let latin = resolve_text_encoding(Some("latin1"), "");
    let bytes = vec![0x80_u8; 10_000];
    assert_eq!(decode_text(&latin, &bytes).expect("text"), "\u{20ac}".repeat(10_000));
    let utf8 = TextEncoding::utf_8();
    let broken = vec![0xFF_u8; 10_000];
    assert_eq!(decode_text(&utf8, &broken).expect("text"), "\u{fffd}".repeat(10_000));
}

#[test]
fn an_incomplete_tail_is_replaced_at_the_end() {
    let utf8 = TextEncoding::utf_8();
    for tail in [&[0xC3][..], &[0xE2, 0x82][..], &[0xF0, 0x9F, 0x98][..]] {
        let mut decoder = IncrementalDecoder::new();
        assert_eq!(decoder.push(&utf8, tail).expect("tail"), "");
        assert_eq!(decoder.finish(&utf8).expect("end"), "\u{fffd}");
        assert_eq!(decoder.finish(&utf8).expect("again"), "");
    }
}

#[test]
fn decoding_asks_for_room() {
    assert_eq!(initial_room(0), 8);
    assert_eq!(initial_room(3), 20);
    assert_eq!(initial_room(usize::MAX / 4 + 1), 8);
    assert_eq!(grown_room(0), 8);
    assert_eq!(grown_room(20), 20);
}

#[test]
fn decoded_text_is_appended() {
    let mut text = String::from("ab");
    append_decoded_text(&mut text, "cd").expect("append");
    assert_eq!(text, "abcd");
}

#[test]
fn whitespace_is_trimmed_at_both_ends() {
    assert_eq!(trim_ascii_whitespace("\t a b \r\n"), "a b");
    assert_eq!(trim_ascii_whitespace(" \u{a0} "), "\u{a0}");
}

#[test]
fn binary_strings_have_one_character_per_byte() {
    assert_eq!(package_binary_string(&[0x00, 0x41, 0xFF]), "\u{0}A\u{ff}");
    let back: Vec<u8> = package_binary_string(&[1, 128, 255]).chars().map(|c| c as u8).collect();
    assert_eq!(back, [1, 128, 255]);
}

#[test]
fn data_urls_are_base64() {
    assert_eq!(package_data_url("", b"hi", 100).expect("url"), "data:;base64,aGk=");
    assert_eq!(package_data_url("text/plain", b"abc", 100).expect("url"), "data:text/plain;base64,YWJj");
    assert_eq!(package_data_url("", b"", 100).expect("url"), "data:;base64,");
    assert_eq!(package_data_url("", &[0xFB, 0xFF, 0xFE, 0x00], 100).expect("url"), "data:;base64,+//+AA==");
}

#[test]
fn data_urls_are_as_long_as_announced() {
    for len in 0..10_u64 {
        let bytes = vec![7_u8; len as usize];
        let url = package_data_url("a/b", &bytes, 1000).expect("url");
        assert_eq!(data_url_len("a/b", len), Some(url.len() as u64));
        assert_eq!(
            package_data_url("a/b", &bytes, url.len() as u64 - 1),
            Err(FileApiError::ResourceLimit(ResourceLimitKind::DataUrlOutput))
        );
        assert!(package_data_url("a/b", &bytes, url.len() as u64).is_ok());
    }
    assert_eq!(data_url_len("", u64::MAX), None);
}

#[test]
fn incomplete_tails_wait() {
    assert!(is_valid_utf8_prefix(&[0xE2]));
    assert!(is_valid_utf8_prefix(&[0xE2, 0x82]));
    assert!(!is_valid_utf8_prefix(&[0x80]));
    assert!(!is_valid_utf8_prefix(&[0xFF]));
    assert_eq!(incomplete_tail_len(&[0x61, 0xE2, 0x82]), 2);
    assert_eq!(incomplete_tail_len(&[0x61]), 0);
}

#[test]
fn sequences_that_nothing_completes_do_not_wait() {
    for (first, low, high) in [
        (0xE0, 0xA0, 0xBF),
        (0xE1, 0x80, 0xBF),
        (0xED, 0x80, 0x9F),
        (0xF0, 0x90, 0xBF),
        (0xF4, 0x80, 0x8F),
    ] {
        for second in 0..=0xFF_u8 {
            assert_eq!(is_valid_utf8_prefix(&[first, second]), low <= second && second <= high);
        }
    }
    assert!(!is_valid_utf8_prefix(&[0xC1]));
    assert!(!is_valid_utf8_prefix(&[0xF5]));
    assert!(!is_valid_utf8_prefix(&[0xF0, 0x80, 0x80]));
    let mut decoder = Utf8Decoder::new();
    assert_eq!(decoder.push(&[0x61, 0xED, 0xA0]), "a\u{fffd}\u{fffd}");
    assert_eq!(decoder.flush(), "");
}

#[test]
fn text_streams_split_anywhere() {
    let text = "x\u{e9}\u{20ac}\u{1f600}y";
    let bytes = text.as_bytes();
    for a in 0..=bytes.len() {
        for b in a..=bytes.len() {
            let mut decoder = Utf8Decoder::new();
            let mut out = decoder.push(&bytes[..a]);
            out.push_str(&decoder.push(&bytes[a..b]));
            out.push_str(&decoder.push(&bytes[b..]));
            out.push_str(&decoder.flush());
            assert_eq!(out, text);
        }
    }
}

#[test]
fn leftover_bytes_become_replacements() {
    let mut decoder = Utf8Decoder::new();
    assert_eq!(decoder.push(&[0x61, 0xE2, 0x82]), "a");
    assert_eq!(decoder.flush(), "\u{fffd}\u{fffd}");
    assert_eq!(decoder.flush(), "");
}

/// Bytes at and beside every bound that UTF-8 sets.
const BOUNDS: [u8; 32] = [
    0x00, 0x41, 0x7F, 0x80, 0x81, 0x8F, 0x90, 0x9F, 0xA0, 0xAF, 0xBE, 0xBF, 0xC0, 0xC1, 0xC2, 0xDE,
    0xDF, 0xE0, 0xE1, 0xEC, 0xED, 0xEE, 0xEF, 0xF0, 0xF1, 0xF3, 0xF4, 0xF5, 0xF7, 0xF8, 0xFE, 0xFF,
];

#[test]
fn replacement_agrees_with_the_standard_library() {
    assert_eq!(from_utf8_lossy(&[]), "");
    for first in 0..=255_u8 {
        assert_eq!(from_utf8_lossy(&[first]), String::from_utf8_lossy(&[first]));
        for second in 0..=255_u8 {
            let two = [first, second];
            assert_eq!(from_utf8_lossy(&two), String::from_utf8_lossy(&two));
            for third in BOUNDS {
                let three = [first, second, third];
                assert_eq!(from_utf8_lossy(&three), String::from_utf8_lossy(&three));
            }
        }
    }
    for first in BOUNDS {
        for second in BOUNDS {
            for third in BOUNDS {
                for fourth in [0x41, 0x80, 0xBF, 0xC2, 0xE2, 0xF0] {
                    let five = [first, second, third, fourth, 0x80];
                    assert_eq!(from_utf8_lossy(&five), String::from_utf8_lossy(&five));
                }
            }
        }
    }
    for text in ["\u{7f}\u{80}\u{7ff}\u{800}", "\u{d7ff}\u{e000}\u{ffff}\u{10000}\u{10ffff}"] {
        assert_eq!(from_utf8_lossy(text.as_bytes()), text);
    }
    assert_eq!(from_utf8_lossy(&[0xF0, 0x9F, 0x98, 0x41]), "\u{fffd}A");
    assert_eq!(from_utf8_lossy(&[0xED, 0xA0, 0x80]), "\u{fffd}\u{fffd}\u{fffd}");
}

#[test]
fn malformed_pieces_decode_like_the_whole() {
    let bytes = [
        0x61, 0xE2, 0x82, 0xFF, 0xF0, 0x9F, 0x98, 0xED, 0xA0, 0x80, 0xE2, 0x82, 0xF0, 0xC3, 0x41,
    ];
    let whole = String::from_utf8_lossy(&bytes);
    for first in 0..=bytes.len() {
        for second in first..=bytes.len() {
            let mut decoder = Utf8Decoder::new();
            let mut out = decoder.push(&bytes[..first]);
            out.push_str(&decoder.push(&bytes[first..second]));
            out.push_str(&decoder.push(&bytes[second..]));
            assert_eq!(out, whole);
            assert_eq!(decoder.flush(), "");
        }
    }
}

#[test]
fn a_flush_replaces_every_byte_that_waits() {
    let mut decoder = Utf8Decoder::new();
    assert_eq!(decoder.push(&[0x41, 0xE2]), "A");
    assert_eq!(decoder.flush(), "\u{fffd}");
    assert_eq!(from_utf8_lossy(&[0x41, 0xE2]), "A\u{fffd}");
    assert_eq!(decoder.push(&[0xF0]), "");
    assert_eq!(decoder.push(&[0x9F, 0x98]), "");
    assert_eq!(decoder.flush(), "\u{fffd}\u{fffd}\u{fffd}");
    assert_eq!(from_utf8_lossy(&[0xF0, 0x9F, 0x98]), "\u{fffd}");
}
