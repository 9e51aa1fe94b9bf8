//! Packaging of read bytes: exact bytes, binary string, decoded text and
//! checked data URLs.
//!
//! The asynchronous and the synchronous reader both package through this
//! module, so their results cannot diverge. Nothing here touches jobs, events
//! or quotas.

use vstd::prelude::*;
use vstd::utf8::encode_utf8;

use crate::error::{FileApiError, ResourceLimitKind};
use crate::mime::{charset_of, is_http_whitespace, mime_charset, spec_is_http_whitespace, trim};
use crate::mime::{lemma_skip_whitespace_is, lemma_trim_end_is};
use crate::text::chars_of;
use crate::utf8::{lemma_encode_utf8_concat, text_of_utf8};

verus! {

/// `encoding_rs::Encoding`: one encoding of the Encoding Standard.
#[verifier::external_type_specification]
#[verifier::external_body]
pub struct ExEncoding(encoding_rs::Encoding);

/// `encoding_rs::Decoder`: a streaming decoder.
#[verifier::external_type_specification]
#[verifier::external_body]
pub struct ExDecoder(encoding_rs::Decoder);

/// The canonical name of an encoding, as `Encoding::name` returns it.
pub uninterp spec fn encoding_name(encoding: &encoding_rs::Encoding) -> Seq<char>;

/// The canonical name of the encoding that `Encoding::for_label` finds for a
/// label, if it finds one.
pub uninterp spec fn label_encoding(label: Seq<u8>) -> Option<Seq<char>>;

/// The history of a decoder: the name of the encoding it was made for, the
/// bytes it has consumed, the text it has emitted, and whether the end of the
/// stream was reached.
pub uninterp spec fn decoder_history(decoder: &encoding_rs::Decoder) -> (
    Seq<char>,
    Seq<u8>,
    Seq<char>,
    bool,
);

/// All the text that a byte-order-mark sniffing decoder for the encoding named
/// `encoding` emits for the byte stream `bytes`, with malformed sequences
/// replaced; `ended` says whether the end of the stream was signalled, which
/// flushes an incomplete tail.
pub uninterp spec fn decoded_text(encoding: Seq<char>, bytes: Seq<u8>, ended: bool) -> Seq<char>;

/// `Encoding::name` returns the canonical name.
#[verifier::external_body]
fn name_of(encoding: &'static encoding_rs::Encoding) -> (name: &'static str)
    ensures
        name@ == encoding_name(encoding),
{
    encoding.name()
}

/// `Encoding::for_label` looks a label up; its answer depends on the label
/// alone.
#[verifier::external_body]
fn encoding_for_label(label: &[u8]) -> (found: Option<&'static encoding_rs::Encoding>)
    ensures
        match found {
            Some(encoding) => label_encoding(label@) == Some(encoding_name(encoding)),
            None => label_encoding(label@) is None,
        },
{
    encoding_rs::Encoding::for_label(label)
}

/// `encoding_rs::UTF_8` is the encoding named `UTF-8`.
#[verifier::external_body]
fn utf8_encoding() -> (encoding: &'static encoding_rs::Encoding)
    ensures
        encoding_name(encoding) == "UTF-8"@,
{
    encoding_rs::UTF_8
}

/// `Encoding::new_decoder` makes a decoder with byte-order-mark sniffing that
/// has consumed and emitted nothing.
#[verifier::external_body]
fn new_decoder(encoding: &'static encoding_rs::Encoding) -> (decoder: encoding_rs::Decoder)
    ensures
        decoder_history(&decoder) == (
            encoding_name(encoding),
            Seq::<u8>::empty(),
            Seq::<char>::empty(),
            false,
        ),
{
    encoding.new_decoder()
}

/// `Decoder::decode_to_utf8` consumes a prefix of `input[from..to]` and writes
/// the UTF-8 form of the text it emits to `output`, from `at` on.
///
/// It returns whether it stopped because `output` was full, how many bytes it
/// consumed and how many it wrote. When it did not stop for that reason it
/// consumed everything, and what it has emitted in all depends only on the
/// encoding, the bytes consumed since its creation and on `last`. What lies in
/// front of `at` is kept; what lies behind the written bytes is left open. The
/// room is at least three bytes for each byte of input, the longest output that
/// a byte can stand for, and eight more for what the decoder still holds back:
/// with less, the replacement character of an incomplete tail may be written
/// past the end, which panics. A decoder that reached the end of its stream must
/// not be used again: it panics.
#[verifier::external_body]
fn decode_step(
    decoder: &mut encoding_rs::Decoder,
    input: &[u8],
    from: usize,
    to: usize,
    output: &mut Vec<u8>,
    at: usize,
    last: bool,
) -> (step: (bool, usize, usize))
    requires
        from <= to <= input@.len(),
        at + 3 * (to - from) + 8 <= old(output)@.len(),
        !decoder_history(old(decoder)).3,
    ensures
        step.1 <= to - from,
        at + step.2 <= final(output)@.len() == old(output)@.len(),
        final(output)@.take(at as int) == old(output)@.take(at as int),
        decoder_history(final(decoder)).0 == decoder_history(old(decoder)).0,
        decoder_history(final(decoder)).1 == decoder_history(old(decoder)).1 + input@.subrange(
            from as int,
            from + step.1,
        ),
        decoder_history(old(decoder)).2.is_prefix_of(decoder_history(final(decoder)).2),
        final(output)@.subrange(at as int, at + step.2) == encode_utf8(
            decoder_history(final(decoder)).2.skip(decoder_history(old(decoder)).2.len() as int),
        ),
        decoder_history(final(decoder)).3 == (last && !step.0),
        !step.0 ==> step.1 == to - from,
        !step.0 ==> decoder_history(final(decoder)).2 == decoded_text(
            decoder_history(old(decoder)).0,
            decoder_history(final(decoder)).1,
            last,
        ),
{
    let (result, read, written, _) = decoder.decode_to_utf8(
        &input[from..to],
        &mut output[at..],
        last,
    );
    match result {
        encoding_rs::CoderResult::InputEmpty => (false, read, written),
        encoding_rs::CoderResult::OutputFull => (true, read, written),
    }
}

/// `Vec::try_reserve` tries to make room for `additional` more bytes and keeps
/// the contents; whether it succeeds is up to the allocator, but it never does
/// where the room would not fit the address space.
#[verifier::external_body]
fn try_reserve_bytes(bytes: Vec<u8>, additional: usize) -> (outcome: (Vec<u8>, bool))
    ensures
        outcome.0@ == bytes@,
        outcome.1 ==> bytes@.len() + additional <= usize::MAX,
{
    let mut bytes = bytes;
    let reserved = bytes.try_reserve(additional).is_ok();
    (bytes, reserved)
}

/// `String::try_reserve` tries to make room for `additional` more bytes and
/// keeps the contents; whether it succeeds is up to the allocator.
#[verifier::external_body]
fn try_reserve_text(text: String, additional: usize) -> (outcome: (String, bool))
    ensures
        outcome.0@ == text@,
{
    let mut text = text;
    let reserved = text.try_reserve(additional).is_ok();
    (text, reserved)
}

/// Whether the allocator may refuse a byte buffer room for `additional` more
/// bytes: some reservation of that size came back without it.
pub closed spec fn bytes_refused(additional: int) -> bool {
    exists|bytes: Vec<u8>, room: usize, outcome: (Vec<u8>, bool)|
        {
            &&& #[trigger] call_ensures(try_reserve_bytes, (bytes, room), outcome)
            &&& room == additional
            &&& !outcome.1
        }
}

/// Whether the allocator may refuse a text room for `additional` more bytes:
/// some reservation of that size came back without it.
pub closed spec fn text_refused(additional: int) -> bool {
    exists|text: String, room: usize, outcome: (String, bool)|
        {
            &&& #[trigger] call_ensures(try_reserve_text, (text, room), outcome)
            &&& room == additional
            &&& !outcome.1
        }
}

/// The room that decoding `length` bytes asks for at first.
pub open spec fn first_room(length: int) -> int {
    if 4 * length + 8 <= usize::MAX {
        4 * length + 8
    } else {
        8
    }
}

/// The room that decoding `length` bytes asks for at first: four bytes for
/// each, the most that a character takes, and eight more.
pub fn initial_room(length: usize) -> (room: usize)
    ensures
        room == first_room(length as int),
{
    match length.checked_mul(4) {
        Some(size) => match size.checked_add(8) {
            Some(room) => room,
            None => 8,
        },
        None => 8,
    }
}

/// The room that a full buffer of `previous` bytes is enlarged by: as much
/// again, and eight bytes at the least.
pub fn grown_room(previous: usize) -> (room: usize)
    ensures
        room == if previous > 8 {
            previous
        } else {
            8
        },
{
    if previous > 8 {
        previous
    } else {
        8
    }
}

/// The size of the buffer for decoding `length` bytes once it was enlarged
/// `rounds` times. Each time it asks for as much room as it has.
pub open spec fn room_after(length: int, rounds: nat) -> int
    decreases rounds,
{
    if rounds == 0 {
        first_room(length)
    } else {
        2 * room_after(length, (rounds - 1) as nat)
    }
}

/// Whether decoding `length` bytes may find no room: the allocator refused the
/// first buffer, or one of the enlargements.
pub open spec fn decoding_refused(length: int) -> bool {
    exists|rounds: nat| bytes_refused(#[trigger] room_after(length, rounds))
}

/// Whether appending `piece` to a text may find no room.
pub open spec fn append_refused(piece: Seq<char>) -> bool {
    text_refused(encode_utf8(piece).len() as int)
}

/// What a stream of bytes adds to the text `emitted` so far, once `bytes` are
/// consumed in all.
pub open spec fn completed_piece(
    encoding: Seq<char>,
    emitted: Seq<char>,
    bytes: Seq<u8>,
    ended: bool,
) -> Seq<char> {
    decoded_text(encoding, bytes, ended).skip(emitted.len() as int)
}

/// Whether decoding `bytes` as a whole may find no room: for the decoded text,
/// for its flushed tail, or for appending the tail.
pub open spec fn decode_text_refused(encoding: Seq<char>, bytes: Seq<u8>) -> bool {
    ||| decoding_refused(bytes.len() as int)
    ||| decoding_refused(0)
    ||| append_refused(
        completed_piece(encoding, decoded_text(encoding, bytes, false), bytes, true),
    )
}

/// A text encoding of the Encoding Standard.
#[derive(Clone, Copy, Debug)]
pub struct TextEncoding {
    /// The resolved encoding.
    pub encoding: &'static encoding_rs::Encoding,
}

impl TextEncoding {
    /// The canonical name of this encoding.
    pub open spec fn spec_name(self) -> Seq<char> {
        encoding_name(self.encoding)
    }

    /// The canonical name of this encoding.
    pub fn name(&self) -> (name: &'static str)
        ensures
            name@ == self.spec_name(),
    {
        name_of(self.encoding)
    }

    /// The default encoding.
    pub fn utf_8() -> (encoding: TextEncoding)
        ensures
            encoding.spec_name() == "UTF-8"@,
    {
        TextEncoding { encoding: utf8_encoding() }
    }
}

/// Incremental text decoder with byte-order-mark sniffing.
///
/// Malformed sequences decode with replacement; an incomplete trailing
/// sequence stays buffered until a later chunk or the end.
pub struct IncrementalDecoder {
    /// The decoder, made on first use.
    decoder: Option<encoding_rs::Decoder>,
    /// Whether `finish` already ran.
    finished: bool,
}

impl IncrementalDecoder {
    /// Whether `finish` already ran.
    pub closed spec fn is_finished(self) -> bool {
        self.finished
    }

    /// The name of the encoding in use, once the decoder exists.
    pub closed spec fn encoding(self) -> Option<Seq<char>> {
        match self.decoder {
            Some(decoder) => Some(decoder_history(&decoder).0),
            None => None,
        }
    }

    /// The bytes consumed so far.
    pub closed spec fn consumed(self) -> Seq<u8> {
        match self.decoder {
            Some(decoder) => decoder_history(&decoder).1,
            None => Seq::empty(),
        }
    }

    /// The text emitted so far.
    pub closed spec fn emitted(self) -> Seq<char> {
        match self.decoder {
            Some(decoder) => decoder_history(&decoder).2,
            None => Seq::empty(),
        }
    }

    /// The decoder is usable for as long as `finish` has not run.
    pub closed spec fn wf(self) -> bool {
        match self.decoder {
            Some(decoder) => !self.finished ==> !decoder_history(&decoder).3,
            None => true,
        }
    }

    /// The encoding that the next call works with, given `encoding`: the first
    /// call decides.
    pub open spec fn effective(self, encoding: TextEncoding) -> Seq<char> {
        match self.encoding() {
            Some(name) => name,
            None => encoding.spec_name(),
        }
    }

    /// A fresh decoder that has consumed nothing.
    pub fn new() -> (decoder: IncrementalDecoder)
        ensures
            decoder.wf(),
            !decoder.is_finished(),
            decoder.encoding() is None,
            decoder.consumed() == Seq::<u8>::empty(),
            decoder.emitted() == Seq::<char>::empty(),
    {
        IncrementalDecoder { decoder: None, finished: false }
    }

    /// Feeds one chunk and returns the text that it completes.
    ///
    /// The only failure is that the allocator refused room for the text.
    pub fn push(&mut self, encoding: &TextEncoding, chunk: &[u8]) -> (result: Result<
        String,
        FileApiError,
    >)
        requires
            old(self).wf(),
            !old(self).is_finished(),
        ensures
            final(self).wf(),
            !final(self).is_finished(),
            final(self).encoding() == Some(old(self).effective(*encoding)),
            match result {
                Ok(text) => {
                    &&& final(self).consumed() == old(self).consumed() + chunk@
                    &&& final(self).emitted() == old(self).emitted() + text@
                    &&& final(self).emitted() == decoded_text(
                        old(self).effective(*encoding),
                        final(self).consumed(),
                        false,
                    )
                },
                Err(error) => {
                    &&& error == FileApiError::ResourceLimit(ResourceLimitKind::MaterializeBytes)
                    &&& decoding_refused(chunk@.len() as int)
                },
            },
    {
        let mut decoder = match self.decoder.take() {
            Some(decoder) => decoder,
            None => new_decoder(encoding.encoding),
        };
        let result = decode_all(&mut decoder, chunk, false);
        self.decoder = Some(decoder);
        result
    }

    /// Flushes the decoder at the end of the stream. A second call returns
    /// nothing more.
    ///
    /// The only failure is that the allocator refused room for the text.
    pub fn finish(&mut self, encoding: &TextEncoding) -> (result: Result<String, FileApiError>)
        requires
            old(self).wf(),
        ensures
            final(self).wf(),
            final(self).is_finished(),
            old(self).is_finished() ==> *final(self) == *old(self),
            old(self).is_finished() ==> (result matches Ok(text) && text@ == Seq::<char>::empty()),
            !old(self).is_finished() ==> final(self).encoding() == Some(
                old(self).effective(*encoding),
            ) && match result {
                Ok(text) => {
                    &&& final(self).consumed() == old(self).consumed()
                    &&& final(self).emitted() == old(self).emitted() + text@
                    &&& final(self).emitted() == decoded_text(
                        old(self).effective(*encoding),
                        final(self).consumed(),
                        true,
                    )
                },
                Err(error) => {
                    &&& error == FileApiError::ResourceLimit(ResourceLimitKind::MaterializeBytes)
                    &&& decoding_refused(0)
                },
            },
    {
        if self.finished {
            let nothing = String::new();
            proof {
                reveal_strlit("");
                assert(nothing@ =~= Seq::<char>::empty());
            }
            return Ok(nothing);
        }
        self.finished = true;
        let mut decoder = match self.decoder.take() {
            Some(decoder) => decoder,
            None => new_decoder(encoding.encoding),
        };
        let empty: Vec<u8> = Vec::new();
        let result = decode_all(&mut decoder, empty.as_slice(), true);
        proof {
            assert(self.consumed() =~= Seq::<u8>::empty());
            assert(old(self).consumed() + empty@ =~= old(self).consumed());
        }
        self.decoder = Some(decoder);
        result
    }
}

impl Default for IncrementalDecoder {
    fn default() -> (decoder: IncrementalDecoder)
        ensures
            decoder.wf(),
            !decoder.is_finished(),
            decoder.encoding() is None,
            decoder.consumed() == Seq::<u8>::empty(),
            decoder.emitted() == Seq::<char>::empty(),
    {
        IncrementalDecoder::new()
    }
}

/// `bytes` with `additional` zeros behind it, unless the allocator refuses the
/// room.
fn enlarged(bytes: Vec<u8>, additional: usize) -> (outcome: Result<Vec<u8>, FileApiError>)
    ensures
        match outcome {
            Ok(after) => {
                &&& after@.len() == bytes@.len() + additional
                &&& after@.take(bytes@.len() as int) == bytes@
            },
            Err(error) => {
                &&& error == FileApiError::ResourceLimit(ResourceLimitKind::MaterializeBytes)
                &&& bytes_refused(additional as int)
            },
        },
{
    let ghost before = bytes@;
    let (bytes, reserved) = try_reserve_bytes(bytes, additional);
    if !reserved {
        return Err(FileApiError::ResourceLimit(ResourceLimitKind::MaterializeBytes));
    }
    let mut bytes = bytes;
    let mut i: usize = 0;
    while i < additional
        invariant
            i <= additional,
            bytes@.len() == before.len() + i,
            bytes@.take(before.len() as int) =~= before,
        decreases additional - i,
    {
        bytes.push(0);
        i = i + 1;
    }
    Ok(bytes)
}

/// Drives the decoder until all of `input` is consumed and all the text it
/// completes has been written, enlarging the output whenever it is full.
fn decode_all(decoder: &mut encoding_rs::Decoder, input: &[u8], last: bool) -> (result: Result<
    String,
    FileApiError,
>)
    requires
        !decoder_history(old(decoder)).3,
    ensures
        decoder_history(final(decoder)).0 == decoder_history(old(decoder)).0,
        match result {
            Ok(text) => {
                &&& decoder_history(final(decoder)).1 == decoder_history(old(decoder)).1 + input@
                &&& decoder_history(final(decoder)).2 == decoder_history(old(decoder)).2 + text@
                &&& decoder_history(final(decoder)).2 == decoded_text(
                    decoder_history(old(decoder)).0,
                    decoder_history(final(decoder)).1,
                    last,
                )
                &&& decoder_history(final(decoder)).3 == last
            },
            Err(error) => {
                &&& error == FileApiError::ResourceLimit(ResourceLimitKind::MaterializeBytes)
                &&& decoding_refused(input@.len() as int)
                &&& !decoder_history(final(decoder)).3
            },
        },
{
    let ghost start = decoder_history(decoder);
    let ghost mut text: Seq<char> = Seq::empty();
    let ghost mut rounds: nat = 0;
    let total: usize = input.len();
    let mut output = match enlarged(Vec::new(), initial_room(total)) {
        Ok(output) => output,
        Err(error) => {
            proof {
                assert(bytes_refused(room_after(total as int, 0)));
            }
            return Err(error);
        },
    };
    proof {
        assert(start.1 + input@.subrange(0, 0) =~= start.1);
        assert(start.2 + text =~= start.2);
        assert(output@.take(0) =~= encode_utf8(text));
    }
    let mut offset: usize = 0;
    let mut at: usize = 0;
    loop
        invariant
            offset <= total == input@.len(),
            at <= output@.len(),
            output@.len() == room_after(total as int, rounds),
            output@.len() >= 8,
            output@.take(at as int) == encode_utf8(text),
            start == decoder_history(old(decoder)),
            decoder_history(decoder).0 == start.0,
            decoder_history(decoder).1 == start.1 + input@.subrange(0, offset as int),
            decoder_history(decoder).2 == start.2 + text,
            !decoder_history(decoder).3,
        decreases total - offset, usize::MAX - output@.len(),
    {
        let room: usize = output.len() - at;
        let fits: usize = if room < 8 {
            0
        } else {
            (room - 8) / 3
        };
        let mut full = room < 8 || (fits == 0 && offset < total);
        if !full {
            let ghost before = decoder_history(decoder);
            let left: usize = total - offset;
            let to: usize = if left <= fits {
                total
            } else {
                offset + fits
            };
            let ends = last && to == total;
            let (stopped, read, written) = decode_step(
                decoder,
                input,
                offset,
                to,
                &mut output,
                at,
                ends,
            );
            proof {
                let after = decoder_history(decoder);
                let piece = after.2.skip(before.2.len() as int);
                assert(input@.subrange(0, offset as int) + input@.subrange(
                    offset as int,
                    offset + read,
                ) =~= input@.subrange(0, offset + read));
                assert(after.1 =~= start.1 + input@.subrange(0, offset + read));
                assert(after.2 =~= before.2 + piece);
                assert(after.2 =~= start.2 + (text + piece));
                lemma_encode_utf8_concat(text, piece);
                assert(output@.take(at + written) =~= output@.take(at as int) + output@.subrange(
                    at as int,
                    at + written,
                ));
                text = text + piece;
            }
            offset = offset + read;
            at = at + written;
            if !stopped && to == total {
                output.truncate(at);
                proof {
                    assert(input@.subrange(0, offset as int) =~= input@);
                    assert(output@ =~= encode_utf8(text));
                    vstd::utf8::encode_utf8_valid_utf8(text);
                    vstd::utf8::encode_utf8_decode_utf8(text);
                }
                return match text_of_utf8(output) {
                    Some(decoded) => Ok(decoded),
                    None => Err(FileApiError::ResourceLimit(ResourceLimitKind::MaterializeBytes)),
                };
            }
            full = stopped;
        }
        if full {
            let ghost kept = output@;
            let additional: usize = grown_room(output.len());
            proof {
                assert(additional == room_after(total as int, rounds));
            }
            output =
            match enlarged(output, additional) {
                Ok(output) => output,
                Err(error) => {
                    return Err(error);
                },
            };
            proof {
                rounds = rounds + 1;
                assert(output.len() <= usize::MAX);
                assert(output@.take(at as int) =~= output@.take(kept.len() as int).take(at as int));
                assert(output@.take(kept.len() as int).take(at as int) =~= kept.take(at as int));
            }
        }
    }
}

/// `value` without its leading and trailing ASCII white space.
pub fn trim_ascii_whitespace(value: &str) -> (trimmed: &str)
    ensures
        trimmed@ == trim(value@),
{
    let chars = chars_of(value);
    let mut start: usize = 0;
    let mut end: usize = chars.len();
    while start < end && is_http_whitespace(chars[start])
        invariant
            start <= end == chars@.len(),
            forall|i: int| 0 <= i < start ==> spec_is_http_whitespace(#[trigger] chars@[i]),
        decreases end - start,
    {
        start = start + 1;
    }
    proof {
        lemma_skip_whitespace_is(chars@, 0, start as int);
    }
    while end > start && is_http_whitespace(chars[end - 1])
        invariant
            start <= end <= chars@.len(),
            forall|i: int| end <= i < chars@.len() ==> spec_is_http_whitespace(#[trigger] chars@[i]),
        decreases end,
    {
        end = end - 1;
    }
    proof {
        let rest = chars@.skip(start as int);
        lemma_trim_end_is(rest, end - start);
        assert(rest.take(end - start) =~= chars@.subrange(start as int, end as int));
    }
    value.substring_char(start, end)
}

/// The encoding named by the label `label` once its outer white space is gone.
pub open spec fn label_names(label: Seq<char>) -> Option<Seq<char>> {
    label_encoding(encode_utf8(trim(label)))
}

/// The name of the encoding that a text read decodes with: the explicit label
/// if it is known, else the media type's charset if it is known, else UTF-8.
pub open spec fn resolved_encoding(label: Option<Seq<char>>, media_type: Seq<char>) -> Seq<char> {
    let explicit = match label {
        Some(text) => label_names(text),
        None => None,
    };
    let declared = match charset_of(media_type) {
        Some(charset) => label_names(charset),
        None => None,
    };
    match explicit {
        Some(name) => name,
        None => match declared {
            Some(name) => name,
            None => "UTF-8"@,
        },
    }
}

/// Looks up the encoding for `label`, without its outer white space.
fn lookup(label: &str) -> (found: Option<TextEncoding>)
    ensures
        match found {
            Some(encoding) => label_names(label@) == Some(encoding.spec_name()),
            None => label_names(label@) is None,
        },
{
    match encoding_for_label(trim_ascii_whitespace(label).as_bytes()) {
        Some(encoding) => Some(TextEncoding { encoding }),
        None => None,
    }
}

/// Chooses between the encoding of an explicit label, that of the media type's
/// charset, and UTF-8, in this order.
pub fn pick_encoding(
    explicit: Option<TextEncoding>,
    declared: Option<TextEncoding>,
) -> (encoding: TextEncoding)
    ensures
        explicit is Some ==> encoding == explicit->0,
        explicit is None && declared is Some ==> encoding == declared->0,
        explicit is None && declared is None ==> encoding.spec_name() == "UTF-8"@,
{
    match explicit {
        Some(encoding) => encoding,
        None => match declared {
            Some(encoding) => encoding,
            None => TextEncoding::utf_8(),
        },
    }
}

/// Chooses the encoding of a text read. An unknown label is no error: it falls
/// through to the media type, and an unknown charset to UTF-8.
pub fn resolve_text_encoding(label: Option<&str>, media_type: &str) -> (encoding: TextEncoding)
    ensures
        encoding.spec_name() == resolved_encoding(
            match label {
                Some(text) => Some(text@),
                None => None,
            },
            media_type@,
        ),
{
    let explicit = match label {
        Some(text) => lookup(text),
        None => None,
    };
    let declared = match mime_charset(media_type) {
        Some(charset) => lookup(charset.as_str()),
        None => None,
    };
    pick_encoding(explicit, declared)
}

/// Decodes a complete byte sequence: one `push` of everything, then `finish`.
///
/// The only failure is that the allocator refused room for the text.
pub fn decode_text(encoding: &TextEncoding, bytes: &[u8]) -> (result: Result<String, FileApiError>)
    ensures
        match result {
            Ok(text) => text@ == decoded_text(encoding.spec_name(), bytes@, true),
            Err(error) => {
                &&& error == FileApiError::ResourceLimit(ResourceLimitKind::MaterializeBytes)
                &&& decode_text_refused(encoding.spec_name(), bytes@)
            },
        },
{
    let mut decoder = IncrementalDecoder::new();
    let mut out = match decoder.push(encoding, bytes) {
        Ok(text) => text,
        Err(error) => return Err(error),
    };
    let ghost pushed = out@;
    let tail = match decoder.finish(encoding) {
        Ok(text) => text,
        Err(error) => return Err(error),
    };
    assert(Seq::<u8>::empty() + bytes@ =~= bytes@);
    assert(Seq::<char>::empty() + pushed =~= pushed);
    proof {
        assert(tail@ =~= completed_piece(encoding.spec_name(), pushed, bytes@, true));
    }
    match append_decoded_text(&mut out, tail.as_str()) {
        Ok(()) => Ok(out),
        Err(error) => Err(error),
    }
}

/// Appends `piece` to `destination`, unless the allocator refuses room for it.
pub fn append_decoded_text(destination: &mut String, piece: &str) -> (result: Result<
    (),
    FileApiError,
>)
    ensures
        match result {
            Ok(_) => final(destination)@ == old(destination)@ + piece@,
            Err(error) => {
                &&& error == FileApiError::ResourceLimit(ResourceLimitKind::MaterializeBytes)
                &&& append_refused(piece@)
                &&& final(destination)@ == old(destination)@
            },
        },
{
    let mut text = String::new();
    core::mem::swap(&mut text, destination);
    let (text, reserved) = try_reserve_text(text, piece.as_bytes().len());
    let mut text = text;
    if !reserved {
        core::mem::swap(&mut text, destination);
        return Err(FileApiError::ResourceLimit(ResourceLimitKind::MaterializeBytes));
    }
    text.push_str(piece);
    core::mem::swap(&mut text, destination);
    Ok(())
}

/// One character `U+0000..=U+00FF` per byte.
pub open spec fn binary_string(bytes: Seq<u8>) -> Seq<char> {
    Seq::new(bytes.len(), |i: int| bytes[i] as char)
}

/// Packages bytes as a binary string.
pub fn package_binary_string(bytes: &[u8]) -> (text: String)
    ensures
        text@ == binary_string(bytes@),
{
    let mut text = String::new();
    proof {
        reveal_strlit("");
    }
    let mut i: usize = 0;
    while i < bytes.len()
        invariant
            i <= bytes@.len(),
            text@ =~= binary_string(bytes@.take(i as int)),
        decreases bytes@.len() - i,
    {
        text.push(bytes[i] as char);
        i = i + 1;
    }
    assert(bytes@.take(i as int) =~= bytes@);
    text
}

/// The characters of a base64 payload for `bytes` bytes, padding counted.
pub open spec fn base64_len(bytes: int) -> int {
    (bytes + 2) / 3 * 4
}

/// The character of the standard alphabet for a six-bit value.
pub open spec fn base64_digit(value: int) -> char {
    if value < 26 {
        (0x41 + value) as char
    } else if value < 52 {
        (0x61 + (value - 26)) as char
    } else if value < 62 {
        (0x30 + (value - 52)) as char
    } else if value == 62 {
        '+'
    } else {
        '/'
    }
}

/// The byte at `i`, or zero past the end.
pub open spec fn byte_or_zero(bytes: Seq<u8>, i: int) -> int {
    if 0 <= i < bytes.len() {
        bytes[i] as int
    } else {
        0
    }
}

/// The character at `i` of the padded standard base64 text of `bytes`: three
/// bytes make a 24-bit group, which is cut into four six-bit values from the
/// top; values that no byte contributes to are `=`.
pub open spec fn base64_char(bytes: Seq<u8>, i: int) -> char {
    let group = i / 4 * 3;
    let bits = byte_or_zero(bytes, group) * 65536 + byte_or_zero(bytes, group + 1) * 256
        + byte_or_zero(bytes, group + 2);
    if i % 4 == 0 {
        base64_digit(bits / 262144 % 64)
    } else if i % 4 == 1 {
        base64_digit(bits / 4096 % 64)
    } else if i % 4 == 2 {
        if group + 1 < bytes.len() {
            base64_digit(bits / 64 % 64)
        } else {
            '='
        }
    } else {
        if group + 2 < bytes.len() {
            base64_digit(bits % 64)
        } else {
            '='
        }
    }
}

/// The padded standard base64 text of `bytes`.
pub open spec fn base64_text(bytes: Seq<u8>) -> Seq<char> {
    Seq::new(base64_len(bytes.len() as int) as nat, |i: int| base64_char(bytes, i))
}

/// `base64`'s `Engine::encode` with the `STANDARD` engine: the standard
/// alphabet with padding, without line breaks.
///
/// It panics where the text is longer than the longest allocation, which is
/// `isize::MAX` bytes.
#[verifier::external_body]
fn base64_standard(bytes: &[u8]) -> (text: String)
    requires
        base64_len(bytes@.len() as int) <= isize::MAX,
    ensures
        text@ == base64_text(bytes@),
{
    base64::Engine::encode(&base64::engine::general_purpose::STANDARD, bytes)
}

/// The exact number of bytes of the data URL for a media type and a payload.
pub open spec fn data_url_size(media_type: Seq<char>, byte_len: int) -> int {
    encode_utf8(media_type).len() + 13 + base64_len(byte_len)
}

/// The data URL for bytes of type `media_type`.
pub open spec fn data_url(media_type: Seq<char>, bytes: Seq<u8>) -> Seq<char> {
    "data:"@ + media_type + ";base64,"@ + base64_text(bytes)
}

/// The length of the data URL for `byte_len` bytes of type `media_type`, or
/// `None` when it cannot be represented.
pub fn data_url_len(media_type: &str, byte_len: u64) -> (len: Option<u64>)
    ensures
        match len {
            Some(total) => {
                &&& total == data_url_size(media_type@, byte_len as int)
                &&& byte_len + 2 <= u64::MAX
                &&& encode_utf8(media_type@).len() + 13 <= usize::MAX
            },
            None => byte_len + 2 > u64::MAX || encode_utf8(media_type@).len() + 13 > usize::MAX
                || data_url_size(media_type@, byte_len as int) > u64::MAX,
        },
{
    let padded: u64 = match byte_len.checked_add(2) {
        Some(sum) => sum,
        None => return None,
    };
    let payload: u64 = match (padded / 3).checked_mul(4) {
        Some(product) => product,
        None => return None,
    };
    let prefix: usize = match media_type.as_bytes().len().checked_add(13) {
        Some(sum) => sum,
        None => return None,
    };
    payload.checked_add(prefix as u64)
}

/// Packages bytes as `data:<type>;base64,<payload>`.
///
/// The exact output length is compared with `limit` before the payload is
/// allocated; exceeding it, or the longest allocation, is a failure.
pub fn package_data_url(media_type: &str, bytes: &[u8], limit: u64) -> (result: Result<
    String,
    FileApiError,
>)
    ensures
        match result {
            Ok(text) => {
                &&& text@ == data_url(media_type@, bytes@)
                &&& data_url_size(media_type@, bytes@.len() as int) <= limit
            },
            Err(error) => {
                &&& error == FileApiError::ResourceLimit(ResourceLimitKind::DataUrlOutput)
                &&& data_url_size(media_type@, bytes@.len() as int) > limit || data_url_size(
                    media_type@,
                    bytes@.len() as int,
                ) > isize::MAX
            },
        },
{
    let byte_len: u64 = bytes.len() as u64;
    match data_url_len(media_type, byte_len) {
        Some(total) => {
            if total > limit || total > isize::MAX as u64 {
                return Err(FileApiError::ResourceLimit(ResourceLimitKind::DataUrlOutput));
            }
        },
        None => {
            return Err(FileApiError::ResourceLimit(ResourceLimitKind::DataUrlOutput));
        },
    }
    let mut out = "data:".to_owned();
    out.push_str(media_type);
    out.push_str(";base64,");
    out.push_str(base64_standard(bytes).as_str());
    Ok(out)
}

proof fn lemma_base64_digit_is_ascii(value: int)
    requires
        0 <= value < 64,
    ensures
        (base64_digit(value) as u32) < 0x80,
{
}

/// A data URL is exactly as long, in bytes, as its computed length.
pub proof fn lemma_data_url_size(media_type: Seq<char>, bytes: Seq<u8>)
    ensures
        encode_utf8(data_url(media_type, bytes)).len() == data_url_size(
            media_type,
            bytes.len() as int,
        ),
{
    reveal_strlit("data:");
    reveal_strlit(";base64,");
    let payload = base64_text(bytes);
    assert forall|i: int| 0 <= i < payload.len() implies (#[trigger] payload[i] as u32) < 0x80 by {
        let group = i / 4 * 3;
        let bits = byte_or_zero(bytes, group) * 65536 + byte_or_zero(bytes, group + 1) * 256
            + byte_or_zero(bytes, group + 2);
        lemma_base64_digit_is_ascii(bits / 262144 % 64);
        lemma_base64_digit_is_ascii(bits / 4096 % 64);
        lemma_base64_digit_is_ascii(bits / 64 % 64);
        lemma_base64_digit_is_ascii(bits % 64);
    }
    vstd::utf8::is_ascii_chars_encode_utf8(payload);
    vstd::utf8::is_ascii_chars_encode_utf8("data:"@);
    vstd::utf8::is_ascii_chars_encode_utf8(";base64,"@);
    lemma_encode_utf8_concat("data:"@, media_type);
    lemma_encode_utf8_concat("data:"@ + media_type, ";base64,"@);
    lemma_encode_utf8_concat("data:"@ + media_type + ";base64,"@, payload);
}

/// A binary string has one character per byte, and the bytes can be read back
/// from it.
pub proof fn lemma_binary_string_reads_back(bytes: Seq<u8>)
    ensures
        binary_string(bytes).len() == bytes.len(),
        binary_string(bytes).map_values(|c: char| c as u8) == bytes,
{
    assert(binary_string(bytes).map_values(|c: char| c as u8) =~= bytes);
}

/// The character of a byte has the number of the byte.
pub(crate) proof fn lemma_byte_char(byte: u8)
    ensures
        (byte as char) as u32 == byte,
{
}

/// Whether no whitespace stands at either end of a label.
pub open spec fn is_trimmed(label: Seq<char>) -> bool {
    label.len() > 0 ==> !is_space(label[0]) && !is_space(label.last())
}

/// Tab, line feed, form feed, carriage return and space.
pub open spec fn is_space(c: char) -> bool {
    c == '\t' || c == '\n' || c == '\u{000C}' || c == '\r' || c == ' '
}

/// A trimmed label is looked up as it stands.
proof fn lemma_trimmed_label(label: Seq<char>)
    requires
        is_trimmed(label),
    ensures
        trim(label) == label,
{
    lemma_skip_whitespace_is(label, 0, 0);
    assert(label.skip(0) =~= label);
    lemma_trim_end_is(label, label.len() as int);
    assert(label.take(label.len() as int) =~= label);
}

/// Whitespace round a label is ignored.
proof fn lemma_label_between_spaces(before: Seq<char>, label: Seq<char>, behind: Seq<char>)
    requires
        is_trimmed(label),
        forall|i: int| 0 <= i < before.len() ==> is_space(#[trigger] before[i]),
        forall|i: int| 0 <= i < behind.len() ==> is_space(#[trigger] behind[i]),
    ensures
        trim(before + label + behind) == label,
{
    let whole = before + label + behind;
    assert forall|i: int| 0 <= i < before.len() implies spec_is_http_whitespace(
        #[trigger] whole[i],
    ) by {
        assert(whole[i] == before[i]);
    }
    if label.len() > 0 {
        let at = before.len() as int;
        assert(whole[at] == label[0]);
        lemma_skip_whitespace_is(whole, 0, at);
        let rest = whole.skip(at);
        assert(rest =~= label + behind);
        assert forall|i: int| label.len() <= i < rest.len() implies spec_is_http_whitespace(
            #[trigger] rest[i],
        ) by {
            assert(rest[i] == behind[i - label.len()]);
        }
        assert(rest[label.len() - 1] == label.last());
        lemma_trim_end_is(rest, label.len() as int);
        assert(rest.take(label.len() as int) =~= label);
    } else {
        assert forall|i: int| 0 <= i < whole.len() implies spec_is_http_whitespace(
            #[trigger] whole[i],
        ) by {
            if i < before.len() {
                assert(whole[i] == before[i]);
            } else {
                assert(whole[i] == behind[i - before.len()]);
            }
        }
        lemma_skip_whitespace_is(whole, 0, whole.len() as int);
        let rest = whole.skip(whole.len() as int);
        lemma_trim_end_is(rest, 0);
        assert(rest.take(0) =~= label);
    }
}

/// The encoding of a text: an explicit label that names one decides, whatever
/// whitespace stands round it and whatever the media type says; without one the
/// charset of the media type decides, if it names one; else it is UTF-8.
pub proof fn lemma_encoding_is_chosen_in_order(
    before: Seq<char>,
    name: Seq<char>,
    behind: Seq<char>,
    label: &str,
    media_type: &str,
    charset: Option<String>,
    with_label: TextEncoding,
    without_label: TextEncoding,
)
    requires
        is_trimmed(name),
        forall|i: int| 0 <= i < before.len() ==> is_space(#[trigger] before[i]),
        forall|i: int| 0 <= i < behind.len() ==> is_space(#[trigger] behind[i]),
        label@ == before + name + behind,
        call_ensures(mime_charset, (media_type,), charset),
        charset matches Some(text) ==> is_trimmed(text@),
        call_ensures(resolve_text_encoding, (Some(label), media_type), with_label),
        call_ensures(resolve_text_encoding, (None::<&str>, media_type), without_label),
    ensures
        match label_encoding(encode_utf8(name)) {
            Some(encoding) => with_label.spec_name() == encoding,
            None => with_label.spec_name() == without_label.spec_name(),
        },
        match charset {
            Some(text) => match label_encoding(encode_utf8(text@)) {
                Some(encoding) => without_label.spec_name() == encoding,
                None => without_label.spec_name() == "UTF-8"@,
            },
            None => without_label.spec_name() == "UTF-8"@,
        },
{
    lemma_label_between_spaces(before, name, behind);
    if let Some(text) = charset {
        lemma_trimmed_label(text@);
    }
}

/// A text that is decoded in pieces is the text that is decoded at once.
pub proof fn lemma_pieces_decode_like_the_whole(
    encoding: TextEncoding,
    bytes: &[u8],
    front: &[u8],
    back: &[u8],
    first: &mut IncrementalDecoder,
    second: &mut IncrementalDecoder,
    last: &mut IncrementalDecoder,
    texts: (String, String, String, String),
)
    requires
        bytes@ == front@ + back@,
        call_ensures(IncrementalDecoder::new, (), *first),
        call_ensures(
            IncrementalDecoder::push,
            (first, &encoding, front),
            Ok::<String, FileApiError>(texts.0),
        ),
        *second == *final(first),
        call_ensures(
            IncrementalDecoder::push,
            (second, &encoding, back),
            Ok::<String, FileApiError>(texts.1),
        ),
        *last == *final(second),
        call_ensures(
            IncrementalDecoder::finish,
            (last, &encoding),
            Ok::<String, FileApiError>(texts.2),
        ),
        call_ensures(decode_text, (&encoding, bytes), Ok::<String, FileApiError>(texts.3)),
    ensures
        texts.0@ + texts.1@ + texts.2@ == texts.3@,
{
    let none = Seq::<u8>::empty();
    assert(none + front@ + back@ =~= bytes@);
    assert(Seq::<char>::empty() + texts.0@ + texts.1@ + texts.2@ =~= texts.0@ + texts.1@
        + texts.2@);
}

/// A binary string has one character for each byte, of the same number.
pub proof fn lemma_binary_string_shows_the_bytes(bytes: &[u8], text: String)
    requires
        call_ensures(package_binary_string, (bytes,), text),
    ensures
        text@.len() == bytes@.len(),
        forall|i: int| 0 <= i < bytes@.len() ==> (#[trigger] text@[i]) as u32 == bytes@[i],
{
    assert forall|i: int| 0 <= i < bytes@.len() implies (#[trigger] text@[i]) as u32
        == bytes@[i] by {
        lemma_byte_char(bytes@[i]);
    }
}

/// The value of a Base64 digit.
pub open spec fn digit_value(digit: char) -> int {
    if 'A' <= digit <= 'Z' {
        digit as u32 - 'A' as u32
    } else if 'a' <= digit <= 'z' {
        digit as u32 - 'a' as u32 + 26
    } else if '0' <= digit <= '9' {
        digit as u32 - '0' as u32 + 52
    } else if digit == '+' {
        62
    } else if digit == '/' {
        63
    } else {
        0
    }
}

proof fn lemma_digit_value(value: int)
    requires
        0 <= value < 64,
    ensures
        digit_value(base64_digit(value)) == value,
        base64_digit(value) != '=',
{
}

/// The four digits of a group give back its three bytes.
proof fn lemma_group(a: int, b: int, c: int)
    requires
        0 <= a < 256,
        0 <= b < 256,
        0 <= c < 256,
    ensures
        ({
            let bits = a * 65536 + b * 256 + c;
            let back = bits / 262144 % 64 * 262144 + bits / 4096 % 64 * 4096 + bits / 64 % 64 * 64
                + bits % 64;
            0 <= bits && back == bits && bits / 65536 == a && bits / 256 % 256 == b && bits % 256
                == c
        }),
{
    let x = a as u32;
    let y = b as u32;
    let z = c as u32;
    let n = (x * 65536 + y * 256 + z) as u32;
    assert(x < 256 && y < 256 && z < 256 && n == x * 65536 + y * 256 + z ==> n / 262144 % 64
        * 262144 + n / 4096 % 64 * 4096 + n / 64 % 64 * 64 + n % 64 == n && n / 65536 == x && n
        / 256 % 256 == y && n % 256 == z) by (bit_vector);
}

/// The digits of a Base64 form: one of the 64, or an equals sign where the last
/// group lacks a byte.
proof fn lemma_base64_digits(bytes: Seq<u8>, i: int)
    requires
        0 <= i < base64_len(bytes.len() as int),
    ensures
        ({
            let group = i / 4 * 3;
            let bits = byte_or_zero(bytes, group) * 65536 + byte_or_zero(bytes, group + 1) * 256
                + byte_or_zero(bytes, group + 2);
            let digit = base64_char(bytes, i);
            &&& i % 4 == 0 ==> digit_value(digit) == bits / 262144 % 64
            &&& i % 4 == 1 ==> digit_value(digit) == bits / 4096 % 64
            &&& i % 4 == 2 && group + 1 < bytes.len() ==> digit_value(digit) == bits / 64 % 64
            &&& i % 4 == 3 && group + 2 < bytes.len() ==> digit_value(digit) == bits % 64
            &&& digit == '=' <==> (i % 4 == 2 && group + 1 >= bytes.len()) || (i % 4 == 3 && group
                + 2 >= bytes.len())
        }),
{
    let group = i / 4 * 3;
    let bits = byte_or_zero(bytes, group) * 65536 + byte_or_zero(bytes, group + 1) * 256
        + byte_or_zero(bytes, group + 2);
    lemma_digit_value(bits / 262144 % 64);
    lemma_digit_value(bits / 4096 % 64);
    lemma_digit_value(bits / 64 % 64);
    lemma_digit_value(bits % 64);
}

/// Where a group lacks bytes, its last digits stand for nothing.
proof fn lemma_lacking(a: int, b: int)
    requires
        0 <= a < 256,
        0 <= b < 256,
    ensures
        (a * 65536 + b * 256) % 64 == 0,
        (a * 65536) / 64 % 64 == 0,
        (a * 65536) % 64 == 0,
{
}

/// A Base64 form gives back the bytes.
#[verifier::spinoff_prover]
proof fn lemma_base64_gives_back(bytes: Seq<u8>, at: int)
    requires
        0 <= at < bytes.len(),
    ensures
        ({
            let digits = base64_text(bytes);
            let group = at / 3 * 4;
            let bits = digit_value(digits[group]) * 262144 + digit_value(digits[group + 1]) * 4096
                + digit_value(digits[group + 2]) * 64 + digit_value(digits[group + 3]);
            bytes[at] == if at % 3 == 0 {
                bits / 65536
            } else if at % 3 == 1 {
                bits / 256 % 256
            } else {
                bits % 256
            }
        }),
{
    let digits = base64_text(bytes);
    let k = at / 3;
    let group = k * 4;
    let a = byte_or_zero(bytes, 3 * k);
    let b = byte_or_zero(bytes, 3 * k + 1);
    let c = byte_or_zero(bytes, 3 * k + 2);
    let bits = a * 65536 + b * 256 + c;
    lemma_group(a, b, c);
    lemma_lacking(a, b);
    assert(group + 3 < base64_len(bytes.len() as int));
    assert(group / 4 == k && (group + 1) / 4 == k && (group + 2) / 4 == k && (group + 3) / 4 == k);
    assert(group % 4 == 0 && (group + 1) % 4 == 1 && (group + 2) % 4 == 2 && (group + 3) % 4 == 3);
    lemma_base64_digits(bytes, group);
    lemma_base64_digits(bytes, group + 1);
    lemma_base64_digits(bytes, group + 2);
    lemma_base64_digits(bytes, group + 3);
    let v2 = digit_value(digits[group + 2]);
    let v3 = digit_value(digits[group + 3]);
    assert(v2 == bits / 64 % 64) by {
        if 3 * k + 1 >= bytes.len() {
            assert(digits[group + 2] == '=');
            assert(bits == a * 65536);
        }
    }
    assert(v3 == bits % 64) by {
        if 3 * k + 2 >= bytes.len() {
            assert(digits[group + 3] == '=');
            assert(bits == a * 65536 + b * 256);
        }
    }
}

/// Which digits of a Base64 form are equals signs.
#[verifier::spinoff_prover]
proof fn lemma_base64_padding(bytes: Seq<u8>, i: int)
    requires
        0 <= i < base64_len(bytes.len() as int),
    ensures
        base64_char(bytes, i) == '=' <==> i >= base64_len(bytes.len() as int) - (3 - bytes.len()
            % 3) % 3,
{
    lemma_base64_digits(bytes, i);
    let n = bytes.len() as int;
    let k = i / 4;
    let groups = (n + 2) / 3;
    assert(k < groups);
    if k < groups - 1 {
        assert(3 * k + 2 < n);
        assert(i < 4 * groups - 4);
    } else {
        assert(k == groups - 1);
        assert(i == 4 * k + i % 4);
    }
}

/// A data URL begins with `data:`, the media type and `;base64,`; what follows is
/// the Base64 form of the bytes: groups of four digits that give back three bytes
/// each, with an equals sign for each byte that the last group lacks. Its length is
/// what is computed beforehand, and no data URL is longer than its ceiling.
#[verifier::rlimit(40)]
#[verifier::spinoff_prover]
pub proof fn lemma_data_url_gives_back_the_bytes(
    media_type: &str,
    bytes: &[u8],
    limit: u64,
    text: String,
    length: Option<u64>,
    digits: Seq<char>,
    at: int,
)
    requires
        call_ensures(
            package_data_url,
            (media_type, bytes, limit),
            Ok::<String, FileApiError>(text),
        ),
        call_ensures(data_url_len, (media_type, bytes@.len() as u64), length),
        bytes@.len() + 2 <= u64::MAX,
        digits == text@.skip(media_type@.len() as int + 13),
        0 <= at < bytes@.len(),
    ensures
        text@.take(media_type@.len() as int + 13) == "data:"@ + media_type@ + ";base64,"@,
        digits.len() == (bytes@.len() + 2) / 3 * 4,
        ({
            let group = at / 3 * 4;
            let bits = digit_value(digits[group]) * 262144 + digit_value(digits[group + 1]) * 4096
                + digit_value(digits[group + 2]) * 64 + digit_value(digits[group + 3]);
            bytes@[at] == if at % 3 == 0 {
                bits / 65536
            } else if at % 3 == 1 {
                bits / 256 % 256
            } else {
                bits % 256
            }
        }),
        forall|i: int|
            0 <= i < digits.len() ==> (#[trigger] digits[i] == '=' <==> i >= digits.len() - (3
                - bytes@.len() % 3) % 3),
        encode_utf8(text@).len() <= limit,
        length matches Some(total) ==> total == encode_utf8(text@).len(),
{
    reveal_strlit("data:");
    reveal_strlit(";base64,");
    let head = "data:"@ + media_type@ + ";base64,"@;
    assert(head.len() == media_type@.len() + 13);
    assert(text@.take(head.len() as int) =~= head);
    assert(digits =~= base64_text(bytes@));
    lemma_data_url_size(media_type@, bytes@);
    lemma_base64_gives_back(bytes@, at);
    let n = bytes@.len() as int;
    assert forall|i: int| 0 <= i < digits.len() implies (#[trigger] digits[i] == '=' <==> i
        >= digits.len() - (3 - n % 3) % 3) by {
        lemma_base64_padding(bytes@, i);
    }
}

/// A data URL is refused only where it is above its ceiling or above any memory.
pub proof fn lemma_data_urls_that_fit_are_made(
    media_type: &str,
    bytes: &[u8],
    limit: u64,
    result: Result<String, FileApiError>,
)
    requires
        call_ensures(package_data_url, (media_type, bytes, limit), result),
        encode_utf8(media_type@).len() + 13 + (bytes@.len() + 2) / 3 * 4 <= limit,
        encode_utf8(media_type@).len() + 13 + (bytes@.len() + 2) / 3 * 4 <= isize::MAX,
    ensures
        result is Ok,
{
}

} // verus!
