//! UTF-8 decoding with replacement, whole and in pieces.

use vstd::prelude::*;
use vstd::utf8::{
    codepoint_width_2, codepoint_width_3, codepoint_width_4, decode_first_scalar, decode_utf8,
    decode_utf8_encode_utf8, encode_utf8, encode_utf8_decode_utf8, encode_utf8_valid_utf8,
    is_char_boundary, is_char_boundary_iff_not_is_continuation_byte,
    is_char_boundary_start_end_of_seq, is_continuation_byte, length_of_first_scalar,
    pop_first_scalar, valid_first_scalar, valid_leading_and_continuation_bytes_first_codepoint,
    valid_utf8, valid_utf8_split,
};

verus! {

/// Whether `second` may follow the leading byte `first`: a continuation byte,
/// bounded where the character would otherwise fit a shorter sequence, be a
/// surrogate or lie past the last code point.
pub open spec fn may_follow(first: u8, second: u8) -> bool {
    &&& 0x80 <= second <= 0xBF
    &&& first == 0xE0 ==> second >= 0xA0
    &&& first == 0xED ==> second <= 0x9F
    &&& first == 0xF0 ==> second >= 0x90
    &&& first == 0xF4 ==> second <= 0x8F
}

/// Whether more bytes could complete `suffix` to one character: a leading byte
/// of a longer sequence, followed by too few continuation bytes.
pub open spec fn is_prefix(suffix: Seq<u8>) -> bool {
    if suffix.len() == 1 {
        0xC2 <= suffix[0] <= 0xF4
    } else if suffix.len() == 2 {
        0xE0 <= suffix[0] <= 0xF4 && may_follow(suffix[0], suffix[1])
    } else if suffix.len() == 3 {
        0xF0 <= suffix[0] <= 0xF4 && may_follow(suffix[0], suffix[1]) && 0x80 <= suffix[2] <= 0xBF
    } else {
        false
    }
}

/// Whether `second` may follow the leading byte `first`.
fn can_follow(first: u8, second: u8) -> (follows: bool)
    ensures
        follows == may_follow(first, second),
{
    let low: u8 = if first == 0xE0 {
        0xA0
    } else if first == 0xF0 {
        0x90
    } else {
        0x80
    };
    let high: u8 = if first == 0xED {
        0x9F
    } else if first == 0xF4 {
        0x8F
    } else {
        0xBF
    };
    low <= second && second <= high
}

/// Whether more bytes could complete `suffix` to one character.
pub fn is_valid_utf8_prefix(suffix: &[u8]) -> (prefix: bool)
    ensures
        prefix == is_prefix(suffix@),
{
    if suffix.len() == 1 {
        suffix[0] >= 0xC2 && suffix[0] <= 0xF4
    } else if suffix.len() == 2 {
        suffix[0] >= 0xE0 && suffix[0] <= 0xF4 && can_follow(suffix[0], suffix[1])
    } else if suffix.len() == 3 {
        suffix[0] >= 0xF0 && suffix[0] <= 0xF4 && can_follow(suffix[0], suffix[1]) && suffix[2]
            >= 0x80 && suffix[2] <= 0xBF
    } else {
        false
    }
}

/// How many bytes one replacement character stands for, where `bytes` begin
/// with no character: the longest of at most three that could have begun one,
/// else the first byte alone.
pub open spec fn invalid_len(bytes: Seq<u8>) -> int {
    if bytes.len() >= 3 && is_prefix(bytes.take(3)) {
        3
    } else if bytes.len() >= 2 && is_prefix(bytes.take(2)) {
        2
    } else {
        1
    }
}

/// How many bytes the first character of the text of `bytes` stands for.
pub open spec fn first_width(bytes: Seq<u8>) -> int {
    if valid_first_scalar(bytes) {
        length_of_first_scalar(bytes)
    } else {
        invalid_len(bytes)
    }
}

/// The first character of the text of `bytes`: the one that they begin with, or
/// U+FFFD where they begin with none.
pub open spec fn first_char(bytes: Seq<u8>) -> char {
    if valid_first_scalar(bytes) {
        decode_first_scalar(bytes) as char
    } else {
        '\u{FFFD}'
    }
}

/// The text of `bytes`, with what is invalid replaced: every character as it
/// stands, and one U+FFFD for each longest beginning of a character that is not
/// completed and for each other byte.
pub open spec fn utf8_lossy(bytes: Seq<u8>) -> Seq<char>
    decreases bytes.len(),
{
    if bytes.len() == 0 {
        Seq::empty()
    } else {
        seq![first_char(bytes)] + utf8_lossy(bytes.skip(first_width(bytes)))
    }
}

/// `String::from_utf8` gives the text of valid UTF-8, and of nothing else.
#[verifier::external_body]
pub(crate) fn text_of_utf8(bytes: Vec<u8>) -> (text: Option<String>)
    ensures
        match text {
            Some(text) => valid_utf8(bytes@) && text@ == decode_utf8(bytes@),
            None => !valid_utf8(bytes@),
        },
{
    String::from_utf8(bytes).ok()
}

/// The length of the character that stands at `at`, or zero where none does.
fn scalar_len(bytes: &[u8], at: usize) -> (len: usize)
    requires
        at < bytes@.len(),
    ensures
        if valid_first_scalar(bytes@.skip(at as int)) {
            len == length_of_first_scalar(bytes@.skip(at as int)) && len > 0
        } else {
            len == 0
        },
        at + len <= bytes@.len(),
{
    proof {
        lemma_first_scalar(bytes@.skip(at as int));
    }
    let left: usize = bytes.len() - at;
    let first: u8 = bytes[at];
    if first <= 0x7F {
        return 1;
    }
    let follows = left >= 2 && can_follow(first, bytes[at + 1]);
    if first >= 0xC2 && first <= 0xDF && follows {
        2
    } else if first >= 0xE0 && first <= 0xEF && follows && left >= 3 && can_follow(
        0x80,
        bytes[at + 2],
    ) {
        3
    } else if first >= 0xF0 && first <= 0xF4 && follows && left >= 4 && can_follow(
        0x80,
        bytes[at + 2],
    ) && can_follow(0x80, bytes[at + 3]) {
        4
    } else {
        0
    }
}

/// How many bytes one replacement character stands for at `at`.
fn replaced_len(bytes: &[u8], at: usize) -> (len: usize)
    requires
        at < bytes@.len(),
    ensures
        len == invalid_len(bytes@.skip(at as int)),
        0 < len <= bytes@.len() - at,
{
    let total: usize = bytes.len();
    let ghost rest = bytes@.skip(at as int);
    if total - at >= 3 {
        let three = vstd::slice::slice_subrange(bytes, at, at + 3);
        assert(three@ =~= rest.take(3));
        if is_valid_utf8_prefix(three) {
            return 3;
        }
    }
    if total - at >= 2 {
        let two = vstd::slice::slice_subrange(bytes, at, at + 2);
        assert(two@ =~= rest.take(2));
        if is_valid_utf8_prefix(two) {
            return 2;
        }
    }
    1
}

/// The text of `bytes`, with what is invalid replaced, as
/// `String::from_utf8_lossy` has it.
pub fn from_utf8_lossy(bytes: &[u8]) -> (text: String)
    ensures
        text@ == utf8_lossy(bytes@),
{
    let total: usize = bytes.len();
    let mut out: Vec<u8> = Vec::new();
    let mut at: usize = 0;
    let ghost mut done = Seq::<char>::empty();
    assert(bytes@.skip(0) =~= bytes@);
    while at < total
        invariant
            at <= total,
            total == bytes@.len(),
            out@ == encode_utf8(done),
            done + utf8_lossy(bytes@.skip(at as int)) == utf8_lossy(bytes@),
        decreases total - at,
    {
        let ghost rest = bytes@.skip(at as int);
        let ghost before = out@;
        let len: usize = scalar_len(bytes, at);
        let width: usize = if len > 0 {
            let mut i: usize = 0;
            while i < len
                invariant
                    i <= len,
                    at + len <= total,
                    total == bytes@.len(),
                    out@ =~= before + bytes@.subrange(at as int, at + i),
                decreases len - i,
            {
                out.push(bytes[at + i]);
                i = i + 1;
            }
            assert(bytes@.subrange(at as int, at + len) =~= rest.take(len as int));
            len
        } else {
            out.push(0xEF);
            out.push(0xBF);
            out.push(0xBD);
            assert(out@ =~= before + seq![0xEFu8, 0xBFu8, 0xBDu8]);
            replaced_len(bytes, at)
        };
        proof {
            let one = seq![first_char(rest)];
            if len > 0 {
                lemma_encoded_scalar(rest);
            } else {
                lemma_encoded_replacement();
            }
            lemma_encode_utf8_concat(done, one);
            assert(rest.skip(width as int) =~= bytes@.skip(at + width));
            assert((done + one) + utf8_lossy(bytes@.skip(at + width)) =~= done + (one
                + utf8_lossy(rest.skip(width as int))));
            done = done + one;
        }
        at = at + width;
    }
    proof {
        assert(done =~= utf8_lossy(bytes@));
        encode_utf8_valid_utf8(done);
        encode_utf8_decode_utf8(done);
    }
    match text_of_utf8(out) {
        Some(text) => text,
        None => String::new(),
    }
}

/// Which bytes begin with a character, byte by byte.
proof fn lemma_first_scalar(bytes: Seq<u8>)
    requires
        bytes.len() > 0,
    ensures
        valid_first_scalar(bytes) <==> {
            ||| bytes[0] <= 0x7F
            ||| bytes.len() >= 2 && 0xC2 <= bytes[0] <= 0xDF && may_follow(bytes[0], bytes[1])
            ||| bytes.len() >= 3 && 0xE0 <= bytes[0] <= 0xEF && may_follow(bytes[0], bytes[1])
                && is_continuation_byte(bytes[2])
            ||| bytes.len() >= 4 && 0xF0 <= bytes[0] <= 0xF4 && may_follow(bytes[0], bytes[1])
                && is_continuation_byte(bytes[2]) && is_continuation_byte(bytes[3])
        },
{
    let first = bytes[0];
    if first <= 0x7F {
        assert(first <= 0x7F ==> (first & 0x7F) as u32 <= 0x7F) by (bit_vector);
    } else if valid_leading_and_continuation_bytes_first_codepoint(bytes) {
        if first <= 0xDF {
            lemma_width_2(first, bytes[1]);
        } else if first <= 0xEF {
            lemma_width_3(first, bytes[1], bytes[2]);
        } else {
            lemma_width_4(first, bytes[1], bytes[2], bytes[3]);
        }
    }
}

/// The first character of some bytes is encoded as it stands in them.
proof fn lemma_encoded_scalar(bytes: Seq<u8>)
    requires
        valid_first_scalar(bytes),
    ensures
        encode_utf8(seq![first_char(bytes)]) == bytes.take(first_width(bytes)),
{
    let piece = bytes.take(first_width(bytes));
    assert(valid_first_scalar(piece));
    assert(pop_first_scalar(piece) =~= Seq::<u8>::empty());
    assert(valid_utf8(piece)) by {
        reveal_with_fuel(valid_utf8, 2);
    }
    assert(decode_utf8(piece) =~= seq![first_char(bytes)]) by {
        reveal_with_fuel(decode_utf8, 2);
    }
    decode_utf8_encode_utf8(piece);
}

/// The encoding of U+FFFD.
proof fn lemma_encoded_replacement()
    ensures
        encode_utf8(seq!['\u{FFFD}']) == seq![0xEFu8, 0xBFu8, 0xBDu8],
{
    let piece = seq![0xEFu8, 0xBFu8, 0xBDu8];
    assert(codepoint_width_3(0xEF, 0xBF, 0xBD) == 0xFFFD) by {
        assert((((0xEFu8 & 0x0F) as u32) << 12) | (((0xBFu8 & 0x3f) as u32) << 6) | ((0xBDu8
            & 0x3f) as u32) == 0xFFFD) by (bit_vector);
    }
    assert(valid_first_scalar(piece));
    assert(first_char(piece) == '\u{FFFD}');
    assert(piece.take(3) =~= piece);
    lemma_encoded_scalar(piece);
}

/// Texts are encoded one after the other.
pub(crate) proof fn lemma_encode_utf8_concat(a: Seq<char>, b: Seq<char>)
    ensures
        encode_utf8(a + b) == encode_utf8(a) + encode_utf8(b),
    decreases a.len(),
{
    if a.len() == 0 {
        assert(a + b =~= b);
        assert(encode_utf8(a) + encode_utf8(b) =~= encode_utf8(b));
    } else {
        lemma_encode_utf8_concat(a.drop_first(), b);
        assert((a + b).drop_first() =~= a.drop_first() + b);
        assert(encode_utf8(a + b) =~= encode_utf8(a) + encode_utf8(b));
    }
}

/// Valid UTF-8 is decoded as it stands: nothing is replaced.
pub proof fn lemma_valid_is_not_replaced(bytes: Seq<u8>)
    requires
        valid_utf8(bytes),
    ensures
        utf8_lossy(bytes) == decode_utf8(bytes),
    decreases bytes.len(),
{
    if bytes.len() > 0 {
        assert(bytes.skip(first_width(bytes)) =~= pop_first_scalar(bytes));
        lemma_valid_is_not_replaced(pop_first_scalar(bytes));
    }
}

/// The last `count` bytes of `buf`.
pub open spec fn last_bytes(buf: Seq<u8>, count: int) -> Seq<u8> {
    buf.skip(buf.len() - count)
}

/// The length of the incomplete sequence at the end of `buf`: the longest of
/// at most three bytes that more bytes could complete.
pub open spec fn tail_len(buf: Seq<u8>) -> int {
    if buf.len() >= 3 && is_prefix(last_bytes(buf, 3)) {
        3
    } else if buf.len() >= 2 && is_prefix(last_bytes(buf, 2)) {
        2
    } else if buf.len() >= 1 && is_prefix(last_bytes(buf, 1)) {
        1
    } else {
        0
    }
}

/// The length of the incomplete sequence at the end of `buf`.
pub fn incomplete_tail_len(buf: &[u8]) -> (len: usize)
    ensures
        len == tail_len(buf@),
        len <= 3,
        len <= buf@.len(),
{
    let total: usize = buf.len();
    let mut count: usize = if total < 3 {
        total
    } else {
        3
    };
    while count > 0
        invariant
            total == buf@.len(),
            count <= 3,
            count <= total,
            count < 3 && total >= 3 ==> !is_prefix(last_bytes(buf@, 3)),
            count < 2 && total >= 2 ==> !is_prefix(last_bytes(buf@, 2)),
            count < 1 && total >= 1 ==> !is_prefix(last_bytes(buf@, 1)),
        decreases count,
    {
        let suffix = vstd::slice::slice_subrange(buf, total - count, total);
        assert(suffix@ =~= last_bytes(buf@, count as int));
        if is_valid_utf8_prefix(suffix) {
            return count;
        }
        count = count - 1;
    }
    0
}

/// An incremental UTF-8 decoder with replacement.
///
/// An incomplete sequence at the end of a piece waits for the next piece.
#[derive(Clone, Debug)]
pub struct Utf8Decoder {
    /// The incomplete sequence that waits.
    pending: Vec<u8>,
}

/// What one piece gives: the text of all complete bytes, and the rest that
/// waits.
pub open spec fn decode_piece(pending: Seq<u8>, input: Seq<u8>) -> (Seq<char>, Seq<u8>) {
    let buf = pending + input;
    let cut = buf.len() - tail_len(buf);
    (utf8_lossy(buf.take(cut)), buf.skip(cut))
}

/// One replacement character for each of `count` bytes.
pub open spec fn replacements(count: nat) -> Seq<char> {
    Seq::new(count, |i: int| '\u{FFFD}')
}

impl View for Utf8Decoder {
    type V = Seq<u8>;

    closed spec fn view(&self) -> Seq<u8> {
        self.pending@
    }
}

impl Utf8Decoder {
    /// A decoder that has seen nothing.
    pub fn new() -> (decoder: Utf8Decoder)
        ensures
            decoder@ == Seq::<u8>::empty(),
    {
        Utf8Decoder { pending: Vec::new() }
    }

    /// Decodes one piece.
    pub fn push(&mut self, input: &[u8]) -> (text: String)
        ensures
            (text@, final(self)@) == decode_piece(old(self)@, input@),
            final(self)@.len() <= 3,
    {
        let mut buf: Vec<u8> = Vec::new();
        buf.append(&mut self.pending);
        let ghost waiting = buf@;
        let mut i: usize = 0;
        while i < input.len()
            invariant
                i <= input@.len(),
                buf@ =~= waiting + input@.take(i as int),
            decreases input@.len() - i,
        {
            buf.push(input[i]);
            i = i + 1;
        }
        assert(input@.take(i as int) =~= input@);
        let tail: usize = incomplete_tail_len(buf.as_slice());
        let cut: usize = buf.len() - tail;
        let ghost all = buf@;
        let rest = buf.split_off(cut);
        let text = from_utf8_lossy(buf.as_slice());
        self.pending = rest;
        proof {
            assert(all == old(self)@ + input@);
            assert(buf@ =~= all.take(cut as int));
            assert(rest@ =~= all.skip(cut as int));
        }
        text
    }

    /// Gives one replacement character for every byte that still waits.
    pub fn flush(&mut self) -> (text: String)
        ensures
            text@ == replacements(old(self)@.len()),
            final(self)@ == Seq::<u8>::empty(),
    {
        let mut text = String::new();
        proof {
            reveal_strlit("");
        }
        let mut i: usize = 0;
        while i < self.pending.len()
            invariant
                i <= self.pending@.len(),
                self.pending@ == old(self)@,
                text@ =~= replacements(i as nat),
            decreases self.pending@.len() - i,
        {
            text.push('\u{FFFD}');
            i = i + 1;
        }
        self.pending.clear();
        text
    }
}

impl Default for Utf8Decoder {
    fn default() -> (decoder: Utf8Decoder)
        ensures
            decoder@ == Seq::<u8>::empty(),
    {
        Utf8Decoder::new()
    }
}

proof fn lemma_width_2(b1: u8, b2: u8)
    requires
        0xC0 <= b1 <= 0xDF,
        0x80 <= b2 <= 0xBF,
    ensures
        codepoint_width_2(b1, b2) >= 0x80 <==> b1 >= 0xC2,
        codepoint_width_2(b1, b2) < 0x800,
{
    assert(0xC0 <= b1 <= 0xDF && 0x80 <= b2 <= 0xBF ==> {
        let c = (((b1 & 0x1F) as u32) << 6) | ((b2 & 0x3f) as u32);
        (c >= 0x80 <==> b1 >= 0xC2) && c < 0x800
    }) by (bit_vector);
}

proof fn lemma_width_3(b1: u8, b2: u8, b3: u8)
    requires
        0xE0 <= b1 <= 0xEF,
        0x80 <= b2 <= 0xBF,
        0x80 <= b3 <= 0xBF,
    ensures
        ({
            let c = codepoint_width_3(b1, b2, b3);
            c >= 0x800 && !(0xD800 <= c <= 0xDFFF)
        }) <==> may_follow(b1, b2),
{
    assert(0xE0 <= b1 <= 0xEF && 0x80 <= b2 <= 0xBF && 0x80 <= b3 <= 0xBF ==> {
        let c = (((b1 & 0x0F) as u32) << 12) | (((b2 & 0x3f) as u32) << 6) | ((b3 & 0x3f) as u32);
        (c >= 0x800 && !(0xD800 <= c <= 0xDFFF)) <==> ((b1 == 0xE0 ==> b2 >= 0xA0) && (b1 == 0xED
            ==> b2 <= 0x9F))
    }) by (bit_vector);
}

proof fn lemma_width_4(b1: u8, b2: u8, b3: u8, b4: u8)
    requires
        0xF0 <= b1 <= 0xF7,
        0x80 <= b2 <= 0xBF,
        0x80 <= b3 <= 0xBF,
        0x80 <= b4 <= 0xBF,
    ensures
        0x10000 <= codepoint_width_4(b1, b2, b3, b4) <= 0x10ffff <==> b1 <= 0xF4 && may_follow(
            b1,
            b2,
        ),
{
    assert(0xF0 <= b1 <= 0xF7 && 0x80 <= b2 <= 0xBF && 0x80 <= b3 <= 0xBF && 0x80 <= b4 <= 0xBF
        ==> {
        let c = (((b1 & 0x07) as u32) << 18) | (((b2 & 0x3f) as u32) << 12) | (((b3 & 0x3f) as u32)
            << 6) | ((b4 & 0x3f) as u32);
        (0x10000 <= c <= 0x10ffff) <==> (b1 <= 0xF4 && (b1 == 0xF0 ==> b2 >= 0x90) && (b1 == 0xF4
            ==> b2 <= 0x8F))
    }) by (bit_vector);
}

/// Whether `more` completes `suffix` to the encoding of one character.
pub open spec fn completes(suffix: Seq<u8>, more: Seq<u8>) -> bool {
    &&& more.len() > 0
    &&& valid_first_scalar(suffix + more)
    &&& length_of_first_scalar(suffix + more) == (suffix + more).len()
}

/// The beginning of an encoded character is a prefix.
proof fn lemma_beginning_is_prefix(bytes: Seq<u8>, count: int)
    requires
        valid_first_scalar(bytes),
        0 < count < length_of_first_scalar(bytes),
    ensures
        is_prefix(bytes.take(count)),
{
    let len = length_of_first_scalar(bytes);
    if len == 2 {
        lemma_width_2(bytes[0], bytes[1]);
    } else if len == 3 {
        lemma_width_3(bytes[0], bytes[1], bytes[2]);
    } else if len == 4 {
        lemma_width_4(bytes[0], bytes[1], bytes[2], bytes[3]);
    }
}

/// A suffix waits exactly where more bytes could complete it: there are bytes
/// that make it the encoding of one character.
pub proof fn lemma_prefix_is_completable(suffix: Seq<u8>)
    requires
        suffix.len() > 0,
    ensures
        is_prefix(suffix) <==> exists|more: Seq<u8>| completes(suffix, more),
{
    if is_prefix(suffix) {
        let first = suffix[0];
        let second: u8 = if suffix.len() > 1 {
            suffix[1]
        } else if first == 0xE0 {
            0xA0
        } else if first == 0xF0 {
            0x90
        } else {
            0x80
        };
        let third: u8 = if suffix.len() > 2 {
            suffix[2]
        } else {
            0x80
        };
        let all = if first <= 0xDF {
            seq![first, second]
        } else if first <= 0xEF {
            seq![first, second, third]
        } else {
            seq![first, second, third, 0x80u8]
        };
        if first <= 0xDF {
            lemma_width_2(first, second);
        } else if first <= 0xEF {
            lemma_width_3(first, second, third);
        } else {
            lemma_width_4(first, second, third, 0x80);
        }
        let more = all.skip(suffix.len() as int);
        assert(suffix + more =~= all);
        assert(completes(suffix, more));
    }
    if exists|more: Seq<u8>| completes(suffix, more) {
        let more = choose|more: Seq<u8>| completes(suffix, more);
        lemma_beginning_is_prefix(suffix + more, suffix.len() as int);
        assert((suffix + more).take(suffix.len() as int) =~= suffix);
    }
}

/// The position of the last character boundary below `at`.
spec fn boundary_below(bytes: Seq<u8>, at: int) -> int
    decreases at,
{
    if at <= 0 {
        0
    } else if !is_continuation_byte(bytes[at - 1]) {
        at - 1
    } else {
        boundary_below(bytes, at - 1)
    }
}

proof fn lemma_boundary_below(bytes: Seq<u8>, at: int)
    requires
        valid_utf8(bytes),
        0 < at <= bytes.len(),
    ensures
        0 <= boundary_below(bytes, at) < at,
        is_char_boundary(bytes, boundary_below(bytes, at)),
        forall|i: int|
            boundary_below(bytes, at) < i < at ==> is_continuation_byte(#[trigger] bytes[i]),
    decreases at,
{
    if !is_continuation_byte(bytes[at - 1]) {
        is_char_boundary_iff_not_is_continuation_byte(bytes, at - 1);
    } else if at == 1 {
        is_char_boundary_start_end_of_seq(bytes);
        is_char_boundary_iff_not_is_continuation_byte(bytes, 0);
    } else {
        lemma_boundary_below(bytes, at - 1);
    }
}

/// The place where a prefix of valid UTF-8 is cut is a character boundary: what
/// waits is exactly the incomplete character.
pub proof fn lemma_cut_is_boundary(bytes: Seq<u8>, count: int)
    requires
        valid_utf8(bytes),
        0 <= count <= bytes.len(),
    ensures
        is_char_boundary(bytes, count - tail_len(bytes.take(count))),
{
    let buf = bytes.take(count);
    let tail = tail_len(buf);
    is_char_boundary_start_end_of_seq(bytes);
    if tail > 0 {
        let first = last_bytes(buf, tail)[0];
        assert(first == bytes[count - tail]);
        is_char_boundary_iff_not_is_continuation_byte(bytes, count - tail);
    } else if 0 < count < bytes.len() {
        is_char_boundary_iff_not_is_continuation_byte(bytes, count);
        if is_continuation_byte(bytes[count]) {
            lemma_boundary_below(bytes, count);
            let start = boundary_below(bytes, count);
            let rest = bytes.subrange(start, bytes.len() as int);
            valid_utf8_split(bytes, start);
            let len = length_of_first_scalar(rest);
            assert(valid_first_scalar(rest));
            assert(len > count - start) by {
                if len <= count - start {
                    assert(is_char_boundary(rest, len)) by {
                        reveal_with_fuel(is_char_boundary, 2);
                    }
                    is_char_boundary_iff_not_is_continuation_byte(rest, len);
                    assert(rest[len] == bytes[start + len]);
                    if start + len < count {
                        assert(is_continuation_byte(bytes[start + len]));
                    }
                }
            }
            let waiting = count - start;
            assert(last_bytes(buf, waiting) =~= rest.take(waiting));
            assert(rest[0] == bytes[start]);
            lemma_beginning_is_prefix(rest, waiting);
            assert(is_prefix(last_bytes(buf, waiting)));
            assert(false);
        }
    }
}

/// The texts that a decoder gives for `pieces`, one after the other, and what
/// waits at the end.
pub open spec fn decode_pieces(pieces: Seq<Seq<u8>>) -> (Seq<char>, Seq<u8>)
    decreases pieces.len(),
{
    if pieces.len() == 0 {
        (Seq::empty(), Seq::empty())
    } else {
        let before = decode_pieces(pieces.drop_last());
        let last = decode_piece(before.1, pieces.last());
        (before.0 + last.0, last.1)
    }
}

/// The pieces, one after the other.
pub open spec fn joined(pieces: Seq<Seq<u8>>) -> Seq<u8>
    decreases pieces.len(),
{
    if pieces.len() == 0 {
        Seq::empty()
    } else {
        joined(pieces.drop_last()) + pieces.last()
    }
}

/// A text without an incomplete end has no tail.
pub(crate) proof fn lemma_no_tail(bytes: Seq<u8>)
    requires
        valid_utf8(bytes),
    ensures
        tail_len(bytes) == 0,
{
    let count = bytes.len() as int;
    let tail = tail_len(bytes);
    if tail > 0 {
        let suffix = last_bytes(bytes, tail);
        assert(suffix[0] == bytes[count - tail]);
        is_char_boundary_iff_not_is_continuation_byte(bytes, count - tail);
        valid_utf8_split(bytes, count - tail);
        let rest = bytes.subrange(count - tail, count);
        assert(rest =~= suffix);
        assert(valid_first_scalar(rest));
    }
}

/// Whether no character of `a + b` reaches from `a` into `b`, and no invalid
/// sequence does.
spec fn parted(a: Seq<u8>, b: Seq<u8>) -> bool {
    tail_len(a) == 0 || b.len() == 0 || !is_continuation_byte(b[0])
}

/// The first character of parted bytes is that of their first part.
proof fn lemma_first_of_parted(a: Seq<u8>, b: Seq<u8>)
    requires
        a.len() > 0,
        parted(a, b),
    ensures
        first_char(a + b) == first_char(a),
        first_width(a + b) == first_width(a),
        first_width(a) <= a.len(),
{
    let s = a + b;
    let count = a.len() as int;
    lemma_first_scalar(a);
    lemma_first_scalar(s);
    assert(s.take(count) =~= a);
    if count >= 2 {
        assert(s.take(2) =~= a.take(2));
    }
    if count >= 3 {
        assert(s.take(3) =~= a.take(3));
    }
    if b.len() == 0 {
        assert(s =~= a);
    } else if count <= 3 {
        assert(last_bytes(a, count) =~= a);
        if is_prefix(a) {
            assert(tail_len(a) > 0);
            assert(s[count] == b[0]);
        } else if valid_first_scalar(s) && length_of_first_scalar(s) > count {
            lemma_beginning_is_prefix(s, count);
        }
    }
}

/// A suffix of bytes without an incomplete end has none either.
proof fn lemma_tail_of_suffix(bytes: Seq<u8>, from: int)
    requires
        tail_len(bytes) == 0,
        0 <= from <= bytes.len(),
    ensures
        tail_len(bytes.skip(from)) == 0,
{
    let rest = bytes.skip(from);
    let tail = tail_len(rest);
    if tail > 0 {
        assert(last_bytes(rest, tail) =~= last_bytes(bytes, tail));
    }
}

/// The text of parted bytes is that of their parts, one after the other.
proof fn lemma_text_of_parted(a: Seq<u8>, b: Seq<u8>)
    requires
        parted(a, b),
    ensures
        utf8_lossy(a + b) == utf8_lossy(a) + utf8_lossy(b),
    decreases a.len(),
{
    if a.len() == 0 {
        assert(a + b =~= b);
        assert(utf8_lossy(a) + utf8_lossy(b) =~= utf8_lossy(b));
    } else {
        lemma_first_of_parted(a, b);
        let width = first_width(a);
        let rest = a.skip(width);
        if tail_len(a) == 0 {
            lemma_tail_of_suffix(a, width);
        }
        lemma_text_of_parted(rest, b);
        assert((a + b).skip(width) =~= rest + b);
        assert(utf8_lossy(a + b) =~= utf8_lossy(a) + utf8_lossy(b));
    }
}

/// What waits of some bytes is all that can wait when more come.
#[verifier::rlimit(60)]
#[verifier::spinoff_prover]
proof fn lemma_tail_after_more(bytes: Seq<u8>, more: Seq<u8>)
    ensures
        tail_len(bytes + more) == tail_len(last_bytes(bytes, tail_len(bytes)) + more),
{
    let all = bytes + more;
    let buf = last_bytes(bytes, tail_len(bytes)) + more;
    let tail = tail_len(all);
    if more.len() == 0 {
        assert(all =~= bytes);
        assert(buf =~= last_bytes(bytes, tail));
        if tail > 0 {
            assert(last_bytes(buf, tail) =~= buf);
        }
    } else {
        if tail > buf.len() {
            let suffix = last_bytes(all, tail);
            let held = tail - more.len();
            assert(suffix.take(held) =~= last_bytes(bytes, held));
            assert(is_prefix(suffix.take(held)));
            assert(false);
        }
        if tail > 0 {
            assert(last_bytes(buf, tail) =~= last_bytes(all, tail));
        }
        let own = tail_len(buf);
        if own > 0 {
            assert(last_bytes(buf, own) =~= last_bytes(all, own));
        }
    }
}

/// Where bytes are cut for what waits, they are parted.
proof fn lemma_cut_parts(bytes: Seq<u8>, more: Seq<u8>)
    ensures
        ({
            let cut = bytes.len() - tail_len(bytes);
            parted(bytes.take(cut), bytes.skip(cut) + more)
        }),
{
    let tail = tail_len(bytes);
    let cut = bytes.len() - tail;
    if tail == 0 {
        assert(bytes.take(cut) =~= bytes);
    } else {
        assert((bytes.skip(cut) + more)[0] == last_bytes(bytes, tail)[0]);
    }
}

/// Decoding in pieces is safe at every split, of any bytes: the pieces give
/// what the whole gives in one piece. So where no incomplete sequence is left at
/// the end, nothing waits and the texts together are the text of the whole; and
/// of valid UTF-8 they are its characters.
#[verifier::rlimit(60)]
#[verifier::spinoff_prover]
pub proof fn lemma_split_safe(pieces: Seq<Seq<u8>>)
    ensures
        decode_pieces(pieces) == decode_piece(Seq::empty(), joined(pieces)),
        tail_len(joined(pieces)) == 0 ==> decode_pieces(pieces) == (
            utf8_lossy(joined(pieces)),
            Seq::<u8>::empty(),
        ),
        valid_utf8(joined(pieces)) ==> decode_pieces(pieces) == (
            decode_utf8(joined(pieces)),
            Seq::<u8>::empty(),
        ),
    decreases pieces.len(),
{
    let all = joined(pieces);
    let end = all.len() - tail_len(all);
    assert(Seq::<u8>::empty() + all =~= all);
    if pieces.len() == 0 {
        assert(all.take(0) =~= Seq::<u8>::empty());
        assert(all.skip(0) =~= Seq::<u8>::empty());
    } else {
        let bytes = joined(pieces.drop_last());
        let last = pieces.last();
        lemma_split_safe(pieces.drop_last());
        assert(Seq::<u8>::empty() + bytes =~= bytes);
        let start = bytes.len() - tail_len(bytes);
        let buf = bytes.skip(start) + last;
        let cut = buf.len() - tail_len(buf);
        lemma_tail_after_more(bytes, last);
        assert(start + cut == end);
        assert(buf.skip(cut) =~= all.skip(end));
        assert(bytes.take(start) + buf.take(cut) =~= all.take(end));
        lemma_cut_parts(bytes, last);
        assert(parted(bytes.take(start), buf.take(cut)));
        lemma_text_of_parted(bytes.take(start), buf.take(cut));
    }
    if valid_utf8(all) {
        lemma_no_tail(all);
        lemma_valid_is_not_replaced(all);
    }
    if tail_len(all) == 0 {
        assert(all.take(end) =~= all);
        assert(all.skip(end) =~= Seq::<u8>::empty());
    }
}

/// The texts of the pieces and the replacement characters of a flush are the
/// text of the whole, where at most one byte waits at the end. (Of a longer
/// incomplete sequence the flush replaces every byte, and the whole has one
/// replacement character.)
pub proof fn lemma_flush_completes(pieces: Seq<Seq<u8>>)
    requires
        tail_len(joined(pieces)) <= 1,
    ensures
        decode_pieces(pieces).0 + replacements(decode_pieces(pieces).1.len()) == utf8_lossy(
            joined(pieces),
        ),
{
    let all = joined(pieces);
    let tail = tail_len(all);
    let end = all.len() - tail;
    lemma_split_safe(pieces);
    assert(Seq::<u8>::empty() + all =~= all);
    assert(all.take(end) + all.skip(end) =~= all);
    lemma_cut_parts(all, Seq::empty());
    assert(all.skip(end) + Seq::<u8>::empty() =~= all.skip(end));
    lemma_text_of_parted(all.take(end), all.skip(end));
    if tail == 1 {
        let waiting = all.skip(end);
        lemma_first_scalar(waiting);
        assert(waiting.skip(1) =~= Seq::<u8>::empty());
        assert(utf8_lossy(waiting) =~= replacements(1)) by {
            reveal_with_fuel(utf8_lossy, 2);
        }
    } else {
        assert(utf8_lossy(all.skip(end)) =~= replacements(0));
    }
}

/// Whether more bytes could complete `suffix` to the encoding of one character.
pub open spec fn completable(suffix: Seq<u8>) -> bool {
    exists|more: Seq<u8>| completes(suffix, more)
}

/// What is valid is decoded as it stands, whatever follows it.
pub proof fn lemma_valid_front_is_decoded(front: Seq<u8>, rest: Seq<u8>)
    requires
        valid_utf8(front),
    ensures
        utf8_lossy(front + rest) == decode_utf8(front) + utf8_lossy(rest),
{
    lemma_no_tail(front);
    lemma_text_of_parted(front, rest);
    lemma_valid_is_not_replaced(front);
}

/// Where no character begins, one U+FFFD stands for the bytes that could have
/// begun one, as many as there are, or for one byte that could not; decoding goes
/// on behind them.
pub proof fn lemma_invalid_front_is_replaced(bytes: Seq<u8>, count: int)
    requires
        bytes.len() > 0,
        !valid_first_scalar(bytes),
        1 <= count <= bytes.len(),
        count == 1 || completable(bytes.take(count)),
        forall|longer: int|
            count < longer <= bytes.len() ==> !completable(#[trigger] bytes.take(longer)),
    ensures
        utf8_lossy(bytes) == seq!['\u{FFFD}'] + utf8_lossy(bytes.skip(count)),
{
    if bytes.len() >= 2 {
        lemma_prefix_is_completable(bytes.take(2));
    }
    if bytes.len() >= 3 {
        lemma_prefix_is_completable(bytes.take(3));
        if is_prefix(bytes.take(3)) {
            assert(is_prefix(bytes.take(2)));
        }
    }
    if count > 1 {
        lemma_prefix_is_completable(bytes.take(count));
    }
    assert(invalid_len(bytes) == count);
}

/// What waits at the end of a piece is what more bytes could complete, as much of
/// it as there is, and nothing where nothing could: the rest is decoded.
pub proof fn lemma_incomplete_end_waits(
    decoder: &mut Utf8Decoder,
    input: &[u8],
    text: String,
    bytes: Seq<u8>,
    count: int,
)
    requires
        call_ensures(Utf8Decoder::push, (decoder, input), text),
        bytes == decoder@ + input@,
        0 <= count <= 3,
        count <= bytes.len(),
        count == 0 || completable(last_bytes(bytes, count)),
        forall|longer: int|
            count < longer <= bytes.len() && longer <= 3 ==> !completable(
                #[trigger] last_bytes(bytes, longer),
            ),
    ensures
        final(decoder)@ == bytes.skip(bytes.len() - count),
        text@ == utf8_lossy(bytes.take(bytes.len() - count)),
{
    if bytes.len() >= 1 {
        lemma_prefix_is_completable(last_bytes(bytes, 1));
        assert(last_bytes(bytes, 1) == bytes.skip(bytes.len() - 1));
    }
    if bytes.len() >= 2 {
        lemma_prefix_is_completable(last_bytes(bytes, 2));
        assert(last_bytes(bytes, 2) == bytes.skip(bytes.len() - 2));
    }
    if bytes.len() >= 3 {
        lemma_prefix_is_completable(last_bytes(bytes, 3));
        assert(last_bytes(bytes, 3) == bytes.skip(bytes.len() - 3));
    }
    assert(tail_len(bytes) == count);
}

} // verus!
