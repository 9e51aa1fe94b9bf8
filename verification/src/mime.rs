//! The `charset` parameter of a media type.
//!
//! A media type is `type/subtype` followed by `;name=value` parameters. The
//! type and the subtype must be non-empty runs of token characters; malformed
//! parameters are skipped one by one, quoted values may hold semicolons, and
//! the first well-formed `charset` parameter wins.

use vstd::prelude::*;

use crate::text::{chars_of, string_of};

verus! {

/// The ASCII white space of labels and media types.
pub open spec fn spec_is_ascii_whitespace(byte: u8) -> bool {
    byte == 0x09 || byte == 0x0A || byte == 0x0C || byte == 0x0D || byte == 0x20
}

/// Whether `byte` is tab, line feed, form feed, carriage return or space.
///
/// Unicode white space such as the no-break space is label data.
pub fn is_ascii_whitespace(byte: u8) -> (space: bool)
    ensures
        space == spec_is_ascii_whitespace(byte),
{
    byte == 0x09 || byte == 0x0A || byte == 0x0C || byte == 0x0D || byte == 0x20
}

/// The same white space as characters.
pub open spec fn spec_is_http_whitespace(value: char) -> bool {
    value == '\t' || value == '\n' || value == '\u{000C}' || value == '\r' || value == ' '
}

/// Whether `value` is tab, line feed, form feed, carriage return or space.
pub fn is_http_whitespace(value: char) -> (space: bool)
    ensures
        space == spec_is_http_whitespace(value),
{
    value == '\t' || value == '\n' || value == '\u{000C}' || value == '\r' || value == ' '
}

/// Letters, digits and the punctuation that a token may hold.
pub open spec fn spec_is_mime_token_byte(byte: u8) -> bool {
    ||| 0x30 <= byte <= 0x39
    ||| 0x41 <= byte <= 0x5A
    ||| 0x61 <= byte <= 0x7A
    ||| byte == 0x21
    ||| 0x23 <= byte <= 0x27
    ||| byte == 0x2A
    ||| byte == 0x2B
    ||| byte == 0x2D
    ||| byte == 0x2E
    ||| 0x5E <= byte <= 0x60
    ||| byte == 0x7C
    ||| byte == 0x7E
}

/// Whether `byte` is an ASCII letter or digit or one of ``!#$%&'*+-.^_`|~``.
pub fn is_mime_token_byte(byte: u8) -> (token: bool)
    ensures
        token == spec_is_mime_token_byte(byte),
{
    (byte >= 0x30 && byte <= 0x39) || (byte >= 0x41 && byte <= 0x5A) || (byte >= 0x61 && byte
        <= 0x7A) || byte == 0x21 || (byte >= 0x23 && byte <= 0x27) || byte == 0x2A || byte == 0x2B
        || byte == 0x2D || byte == 0x2E || (byte >= 0x5E && byte <= 0x60) || byte == 0x7C || byte
        == 0x7E
}

/// A character that is an ASCII token byte.
pub open spec fn spec_is_mime_token_char(value: char) -> bool {
    (value as u32) < 0x80 && spec_is_mime_token_byte(value as u8)
}

/// Whether `value` is a token character.
pub fn is_mime_token_char(value: char) -> (token: bool)
    ensures
        token == spec_is_mime_token_char(value),
{
    let code: u32 = value as u32;
    code < 0x80 && is_mime_token_byte(code as u8)
}

/// Tab, printable ASCII and the Latin-1 range from U+0080 on.
pub open spec fn spec_is_http_quoted_string_char(value: char) -> bool {
    value == '\t' || 0x20 <= value as u32 <= 0x7E || 0x80 <= value as u32 <= 0xFF
}

/// Whether `value` may occur in a parameter value.
pub fn is_http_quoted_string_char(value: char) -> (quoted: bool)
    ensures
        quoted == spec_is_http_quoted_string_char(value),
{
    let code: u32 = value as u32;
    value == '\t' || (code >= 0x20 && code <= 0x7E) || (code >= 0x80 && code <= 0xFF)
}

/// The position of the first `wanted` in `s` at or after `from`; `s.len()` if
/// there is none.
pub open spec fn position_of(s: Seq<char>, from: int, wanted: char) -> int
    decreases s.len() - from,
{
    if from < 0 || from >= s.len() {
        s.len() as int
    } else if s[from] == wanted {
        from
    } else {
        position_of(s, from + 1, wanted)
    }
}

/// The position of the first character of `s` at or after `from` that is no
/// white space; `s.len()` if there is none.
pub open spec fn skip_whitespace(s: Seq<char>, from: int) -> int
    decreases s.len() - from,
{
    if from < 0 || from >= s.len() {
        s.len() as int
    } else if !spec_is_http_whitespace(s[from]) {
        from
    } else {
        skip_whitespace(s, from + 1)
    }
}

/// `s` without its trailing white space.
pub open spec fn trim_end(s: Seq<char>) -> Seq<char>
    decreases s.len(),
{
    if s.len() > 0 && spec_is_http_whitespace(s.last()) {
        trim_end(s.drop_last())
    } else {
        s
    }
}

/// `s` without its leading and trailing white space.
pub open spec fn trim(s: Seq<char>) -> Seq<char> {
    trim_end(s.skip(skip_whitespace(s, 0)))
}

/// A non-empty run of token characters.
pub open spec fn is_token(s: Seq<char>) -> bool {
    s.len() > 0 && forall|i: int| 0 <= i < s.len() ==> spec_is_mime_token_char(#[trigger] s[i])
}

/// Only characters that a parameter value may hold.
pub open spec fn is_quoted_string(s: Seq<char>) -> bool {
    forall|i: int| 0 <= i < s.len() ==> spec_is_http_quoted_string_char(#[trigger] s[i])
}

/// The ASCII lower case of one character.
pub open spec fn ascii_lower(value: char) -> char {
    if 0x41 <= value as u32 <= 0x5A {
        (value as u32 + 32) as char
    } else {
        value
    }
}

/// Whether `name` reads `charset`, without regard to ASCII case.
pub open spec fn is_charset_name(name: Seq<char>) -> bool {
    name.map_values(|c: char| ascii_lower(c)) == "charset"@
}

/// The value of a quoted string whose opening quote stands just before
/// `from`, and the position after it: a backslash makes the next character
/// literal (or stands for itself at the very end), and the end of the text
/// closes the quote.
pub open spec fn quoted_value(s: Seq<char>, from: int) -> (Seq<char>, int)
    decreases s.len() - from,
{
    if from < 0 || from >= s.len() {
        (Seq::empty(), s.len() as int)
    } else if s[from] == '"' {
        (Seq::empty(), from + 1)
    } else if s[from] == '\\' {
        if from + 1 >= s.len() {
            (seq!['\\'], s.len() as int)
        } else {
            let rest = quoted_value(s, from + 2);
            (seq![s[from + 1]] + rest.0, rest.1)
        }
    } else {
        let rest = quoted_value(s, from + 1);
        (seq![s[from]] + rest.0, rest.1)
    }
}

/// One parameter: its name, its value unless it has none, and the position of
/// the semicolon that ends it (or the end of the text).
pub struct Parameter {
    /// The characters before `=`, after leading white space.
    pub name: Seq<char>,
    /// The value; `None` for a parameter that is skipped for want of one.
    pub value: Option<Seq<char>>,
    /// Where the next parameter's semicolon stands.
    pub next: int,
}

/// The end of the name of a parameter: the first `;` or `=`.
pub open spec fn name_end(s: Seq<char>, from: int) -> int {
    let semicolon = position_of(s, from, ';');
    let equals = position_of(s, from, '=');
    if semicolon < equals {
        semicolon
    } else {
        equals
    }
}

/// The parameter whose semicolon stands just before `start`.
pub open spec fn parameter_at(s: Seq<char>, start: int) -> Parameter {
    let from = skip_whitespace(s, start);
    let end = name_end(s, from);
    let name = s.subrange(from, end);
    if end >= s.len() || s[end] == ';' {
        Parameter { name, value: None, next: end }
    } else if end + 1 >= s.len() {
        Parameter { name, value: None, next: s.len() as int }
    } else if s[end + 1] == '"' {
        let quoted = quoted_value(s, end + 2);
        Parameter { name, value: Some(quoted.0), next: position_of(s, quoted.1, ';') }
    } else {
        let next = position_of(s, end + 1, ';');
        let value = trim_end(s.subrange(end + 1, next));
        Parameter {
            name,
            value: if value.len() == 0 {
                None
            } else {
                Some(value)
            },
            next,
        }
    }
}

/// Whether `parameter` is a well-formed `charset` parameter.
pub open spec fn is_charset_parameter(parameter: Parameter) -> bool {
    &&& parameter.value is Some
    &&& is_token(parameter.name)
    &&& is_quoted_string(parameter.value->0)
    &&& is_charset_name(parameter.name)
}

/// The first well-formed `charset` value among the parameters that start at
/// the semicolon at `semicolon`.
pub open spec fn first_charset(s: Seq<char>, semicolon: int) -> Option<Seq<char>>
    decreases s.len() - semicolon,
{
    if semicolon < 0 || semicolon >= s.len() {
        None
    } else {
        let parameter = parameter_at(s, semicolon + 1);
        if is_charset_parameter(parameter) {
            parameter.value
        } else {
            proof {
                lemma_parameter_next(s, semicolon + 1);
            }
            first_charset(s, parameter.next)
        }
    }
}

/// The charset of a media type whose outer white space is gone.
pub open spec fn charset_of_trimmed(s: Seq<char>) -> Option<Seq<char>> {
    let slash = position_of(s, 0, '/');
    if slash >= s.len() || !is_token(s.subrange(0, slash)) {
        None
    } else {
        let semicolon = position_of(s, slash + 1, ';');
        if !is_token(trim_end(s.subrange(slash + 1, semicolon))) {
            None
        } else {
            first_charset(s, semicolon)
        }
    }
}

/// The charset that a media type names, if it names one.
pub open spec fn charset_of(media_type: Seq<char>) -> Option<Seq<char>> {
    charset_of_trimmed(trim(media_type))
}

proof fn lemma_position_of(s: Seq<char>, from: int, wanted: char)
    requires
        0 <= from <= s.len(),
    ensures
        from <= position_of(s, from, wanted) <= s.len(),
        position_of(s, from, wanted) < s.len() ==> s[position_of(s, from, wanted)] == wanted,
        forall|i: int| from <= i < position_of(s, from, wanted) ==> s[i] != wanted,
    decreases s.len() - from,
{
    if from < s.len() && s[from] != wanted {
        lemma_position_of(s, from + 1, wanted);
    }
}

proof fn lemma_position_of_is(s: Seq<char>, from: int, wanted: char, at: int)
    requires
        0 <= from <= at <= s.len(),
        forall|i: int| from <= i < at ==> s[i] != wanted,
        at == s.len() || s[at] == wanted,
    ensures
        position_of(s, from, wanted) == at,
    decreases at - from,
{
    if from < at {
        lemma_position_of_is(s, from + 1, wanted, at);
    }
}

proof fn lemma_skip_whitespace(s: Seq<char>, from: int)
    requires
        0 <= from <= s.len(),
    ensures
        from <= skip_whitespace(s, from) <= s.len(),
        skip_whitespace(s, from) < s.len() ==> !spec_is_http_whitespace(
            s[skip_whitespace(s, from)],
        ),
    decreases s.len() - from,
{
    if from < s.len() && spec_is_http_whitespace(s[from]) {
        lemma_skip_whitespace(s, from + 1);
    }
}

pub proof fn lemma_skip_whitespace_is(s: Seq<char>, from: int, at: int)
    requires
        0 <= from <= at <= s.len(),
        forall|i: int| from <= i < at ==> spec_is_http_whitespace(#[trigger] s[i]),
        at == s.len() || !spec_is_http_whitespace(s[at]),
    ensures
        skip_whitespace(s, from) == at,
    decreases at - from,
{
    if from < at {
        lemma_skip_whitespace_is(s, from + 1, at);
    }
}

pub proof fn lemma_trim_end_is(s: Seq<char>, at: int)
    requires
        0 <= at <= s.len(),
        forall|i: int| at <= i < s.len() ==> spec_is_http_whitespace(#[trigger] s[i]),
        at == 0 || !spec_is_http_whitespace(s[at - 1]),
    ensures
        trim_end(s) == s.take(at),
    decreases s.len(),
{
    if at < s.len() {
        lemma_trim_end_is(s.drop_last(), at);
        assert(s.drop_last().take(at) =~= s.take(at));
    } else {
        assert(s.take(at) =~= s);
    }
}

proof fn lemma_quoted_value(s: Seq<char>, from: int)
    requires
        0 <= from <= s.len(),
    ensures
        from <= quoted_value(s, from).1 <= s.len(),
    decreases s.len() - from,
{
    if from < s.len() && s[from] != '"' {
        if s[from] == '\\' {
            if from + 1 < s.len() {
                lemma_quoted_value(s, from + 2);
            }
        } else {
            lemma_quoted_value(s, from + 1);
        }
    }
}

proof fn lemma_name_end(s: Seq<char>, from: int)
    requires
        0 <= from <= s.len(),
    ensures
        from <= name_end(s, from) <= s.len(),
        name_end(s, from) < s.len() ==> s[name_end(s, from)] == ';' || s[name_end(s, from)] == '=',
{
    lemma_position_of(s, from, ';');
    lemma_position_of(s, from, '=');
}

/// The position after the parameter that starts at `start` lies at or after
/// `start`, within the text.
pub proof fn lemma_parameter_next(s: Seq<char>, start: int)
    requires
        0 <= start <= s.len(),
    ensures
        start <= parameter_at(s, start).next <= s.len(),
        parameter_at(s, start).next < s.len() ==> s[parameter_at(s, start).next] == ';',
{
    lemma_skip_whitespace(s, start);
    let from = skip_whitespace(s, start);
    lemma_name_end(s, from);
    let end = name_end(s, from);
    if end + 1 < s.len() {
        lemma_position_of(s, end + 1, ';');
        lemma_quoted_value(s, end + 2);
        lemma_position_of(s, quoted_value(s, end + 2).1, ';');
    }
}

/// The position of the first `wanted` at or after `from`.
fn find(input: &Vec<char>, from: usize, wanted: char) -> (at: usize)
    requires
        from <= input@.len(),
    ensures
        at == position_of(input@, from as int, wanted),
        from <= at <= input@.len(),
        at < input@.len() ==> input@[at as int] == wanted,
{
    let mut at: usize = from;
    while at < input.len() && input[at] != wanted
        invariant
            from <= at <= input@.len(),
            forall|i: int| from <= i < at ==> input@[i] != wanted,
        decreases input@.len() - at,
    {
        at = at + 1;
    }
    proof {
        lemma_position_of_is(input@, from as int, wanted, at as int);
    }
    at
}

/// Whether `input[from..to]` is a non-empty run of token characters.
fn token_run(input: &Vec<char>, from: usize, to: usize) -> (token: bool)
    requires
        from <= to <= input@.len(),
    ensures
        token == is_token(input@.subrange(from as int, to as int)),
{
    let ghost run = input@.subrange(from as int, to as int);
    if from == to {
        return false;
    }
    let mut at: usize = from;
    while at < to
        invariant
            from <= at <= to <= input@.len(),
            run == input@.subrange(from as int, to as int),
            forall|i: int| 0 <= i < at - from ==> spec_is_mime_token_char(#[trigger] run[i]),
        decreases to - at,
    {
        if !is_mime_token_char(input[at]) {
            assert(!spec_is_mime_token_char(run[at - from]));
            return false;
        }
        assert(run[at - from] == input@[at as int]);
        at = at + 1;
    }
    true
}

/// The end of `input[from..to]` without its trailing white space.
fn trimmed_end(input: &Vec<char>, from: usize, to: usize) -> (end: usize)
    requires
        from <= to <= input@.len(),
    ensures
        from <= end <= to,
        input@.subrange(from as int, end as int) == trim_end(
            input@.subrange(from as int, to as int),
        ),
{
    let mut end: usize = to;
    while end > from && is_http_whitespace(input[end - 1])
        invariant
            from <= end <= to <= input@.len(),
            forall|i: int| end <= i < to ==> spec_is_http_whitespace(#[trigger] input@[i]),
        decreases end,
    {
        end = end - 1;
    }
    proof {
        let run = input@.subrange(from as int, to as int);
        lemma_trim_end_is(run, end - from);
        assert(run.take(end - from) =~= input@.subrange(from as int, end as int));
    }
    end
}

/// The first position at or after `from` that holds no white space.
fn skip_spaces(input: &Vec<char>, from: usize) -> (at: usize)
    requires
        from <= input@.len(),
    ensures
        at == skip_whitespace(input@, from as int),
        from <= at <= input@.len(),
{
    let mut at: usize = from;
    while at < input.len() && is_http_whitespace(input[at])
        invariant
            from <= at <= input@.len(),
            forall|i: int| from <= i < at ==> spec_is_http_whitespace(#[trigger] input@[i]),
        decreases input@.len() - at,
    {
        at = at + 1;
    }
    proof {
        lemma_skip_whitespace_is(input@, from as int, at as int);
    }
    at
}

/// The end of the name that starts at `from`.
fn find_name_end(input: &Vec<char>, from: usize) -> (at: usize)
    requires
        from <= input@.len(),
    ensures
        at == name_end(input@, from as int),
        from <= at <= input@.len(),
{
    let semicolon: usize = find(input, from, ';');
    let equals: usize = find(input, from, '=');
    if semicolon < equals {
        semicolon
    } else {
        equals
    }
}

/// Reads the quoted value whose opening quote stands just before `from`.
fn read_quoted(input: &Vec<char>, from: usize) -> (quoted: (String, usize))
    requires
        from <= input@.len(),
    ensures
        quoted.0@ == quoted_value(input@, from as int).0,
        quoted.1 == quoted_value(input@, from as int).1,
        from <= quoted.1 <= input@.len(),
{
    let mut value = String::new();
    let mut at: usize = from;
    proof {
        reveal_strlit("");
        assert(value@ + quoted_value(input@, from as int).0 =~= quoted_value(
            input@,
            from as int,
        ).0);
    }
    while at < input.len()
        invariant
            from <= at <= input@.len(),
            value@ + quoted_value(input@, at as int).0 == quoted_value(input@, from as int).0,
            quoted_value(input@, at as int).1 == quoted_value(input@, from as int).1,
        decreases input@.len() - at,
    {
        let ghost before = value@;
        let ghost here = quoted_value(input@, at as int).0;
        let current: char = input[at];
        if current == '"' {
            assert(before + here =~= before);
            return (value, at + 1);
        }
        if current == '\\' {
            if at + 1 == input.len() {
                value.push('\\');
                assert(before + here =~= value@);
                return (value, at + 1);
            }
            value.push(input[at + 1]);
            at = at + 2;
            assert(value@ + quoted_value(input@, at as int).0 =~= before + here);
        } else {
            value.push(current);
            at = at + 1;
            assert(value@ + quoted_value(input@, at as int).0 =~= before + here);
        }
    }
    assert(value@ + quoted_value(input@, at as int).0 =~= value@);
    (value, at)
}

/// Whether every character of `text` may occur in a parameter value.
fn quoted_string(text: &str) -> (quoted: bool)
    ensures
        quoted == is_quoted_string(text@),
{
    let chars = chars_of(text);
    let mut at: usize = 0;
    while at < chars.len()
        invariant
            chars@ == text@,
            at <= chars@.len(),
            forall|i: int|
                0 <= i < at ==> spec_is_http_quoted_string_char(#[trigger] text@[i]),
        decreases chars@.len() - at,
    {
        if !is_http_quoted_string_char(chars[at]) {
            assert(!spec_is_http_quoted_string_char(text@[at as int]));
            return false;
        }
        at = at + 1;
    }
    true
}

/// The ASCII lower case of `value`.
pub fn to_ascii_lower(value: char) -> (lower: char)
    ensures
        lower == ascii_lower(value),
{
    let code: u32 = value as u32;
    if code >= 0x41 && code <= 0x5A {
        let lower: u8 = (code + 32) as u8;
        lower as char
    } else {
        value
    }
}

/// Whether `input[from..to]` reads `charset`, without regard to ASCII case.
fn charset_name(input: &Vec<char>, from: usize, to: usize) -> (matched: bool)
    requires
        from <= to <= input@.len(),
    ensures
        matched == is_charset_name(input@.subrange(from as int, to as int)),
{
    let ghost run = input@.subrange(from as int, to as int);
    let ghost lower = run.map_values(|c: char| ascii_lower(c));
    let wanted = chars_of("charset");
    if to - from != wanted.len() {
        assert(lower.len() != "charset"@.len());
        return false;
    }
    let mut at: usize = 0;
    while at < wanted.len()
        invariant
            at <= wanted@.len(),
            wanted@ == "charset"@,
            from <= to <= input@.len(),
            to - from == wanted@.len(),
            run == input@.subrange(from as int, to as int),
            lower == run.map_values(|c: char| ascii_lower(c)),
            forall|i: int| 0 <= i < at ==> lower[i] == #[trigger] wanted@[i],
        decreases wanted@.len() - at,
    {
        if to_ascii_lower(input[from + at]) != wanted[at] {
            assert(lower[at as int] != "charset"@[at as int]);
            return false;
        }
        at = at + 1;
    }
    assert(lower =~= "charset"@);
    true
}

/// The first well-formed `charset` parameter of a media type.
pub fn mime_charset(media_type: &str) -> (charset: Option<String>)
    ensures
        match charset {
            Some(value) => charset_of(media_type@) == Some(value@),
            None => charset_of(media_type@) is None,
        },
{
    let all = chars_of(media_type);
    let start: usize = skip_spaces(&all, 0);
    let stop: usize = trimmed_end(&all, start, all.len());
    let mut input: Vec<char> = Vec::new();
    for i in start..stop
        invariant
            start <= i <= stop <= all@.len(),
            input@ == all@.subrange(start as int, i as int),
    {
        input.push(all[i]);
        assert(all@.subrange(start as int, i + 1) =~= all@.subrange(start as int, i as int).push(
            all@[i as int],
        ));
    }
    assert(all@.subrange(start as int, all@.len() as int) =~= all@.skip(start as int));
    assert(input@ == trim(media_type@));

    let slash: usize = find(&input, 0, '/');
    if slash == input.len() || !token_run(&input, 0, slash) {
        return None;
    }
    let first: usize = find(&input, slash + 1, ';');
    let subtype_end: usize = trimmed_end(&input, slash + 1, first);
    if !token_run(&input, slash + 1, subtype_end) {
        return None;
    }
    let mut position: usize = first;
    while position < input.len()
        invariant
            position <= input@.len(),
            first_charset(input@, position as int) == first_charset(input@, first as int),
            charset_of(media_type@) == first_charset(input@, first as int),
        decreases input@.len() - position,
    {
        proof {
            lemma_parameter_next(input@, position + 1);
            assert(first_charset(input@, input@.len() as int) is None);
        }
        let ghost parameter = parameter_at(input@, position + 1);
        let from: usize = skip_spaces(&input, position + 1);
        let end: usize = find_name_end(&input, from);
        if end == input.len() {
            return None;
        }
        if input[end] == ';' {
            position = end;
            continue ;
        }
        if end + 1 == input.len() {
            return None;
        }
        let value: Option<String>;
        let next: usize;
        if input[end + 1] == '"' {
            let (quoted, after) = read_quoted(&input, end + 2);
            next = find(&input, after, ';');
            value = Some(quoted);
        } else {
            next = find(&input, end + 1, ';');
            let value_end: usize = trimmed_end(&input, end + 1, next);
            if value_end == end + 1 {
                value = None;
            } else {
                value = Some(string_of(&input, end + 1, value_end));
            }
        }
        assert(parameter.next == next);
        assert(parameter.name == input@.subrange(from as int, end as int));
        if let Some(text) = value {
            assert(parameter.value == Some(text@));
            if token_run(&input, from, end) && quoted_string(text.as_str()) && charset_name(
                &input,
                from,
                end,
            ) {
                return Some(text);
            }
        }
        position = next;
    }
    None
}

/// White space around a media type does not matter.
pub proof fn lemma_charset_ignores_outer_whitespace(media_type: Seq<char>)
    ensures
        charset_of(trim(media_type)) == charset_of(media_type),
{
    let s = trim(media_type);
    let rest = media_type.skip(skip_whitespace(media_type, 0));
    lemma_skip_whitespace(media_type, 0);
    lemma_trim_end_stable(rest);
    if s.len() > 0 {
        lemma_trim_end_prefix(rest);
        assert(s[0] == rest[0]);
        lemma_skip_whitespace_is(s, 0, 0);
    }
    assert(s.skip(skip_whitespace(s, 0)) =~= s);
}

proof fn lemma_trim_end_prefix(s: Seq<char>)
    ensures
        trim_end(s).len() <= s.len(),
        trim_end(s) == s.take(trim_end(s).len() as int),
    decreases s.len(),
{
    if s.len() > 0 && spec_is_http_whitespace(s.last()) {
        lemma_trim_end_prefix(s.drop_last());
        let n = trim_end(s).len() as int;
        assert(s.drop_last().take(n) =~= s.take(n));
    } else {
        assert(s.take(s.len() as int) =~= s);
    }
}

proof fn lemma_trim_end_stable(s: Seq<char>)
    ensures
        trim_end(trim_end(s)) == trim_end(s),
    decreases s.len(),
{
    if s.len() > 0 && spec_is_http_whitespace(s.last()) {
        lemma_trim_end_stable(s.drop_last());
    }
}

/// A charset holds only characters that a parameter value may hold.
pub proof fn lemma_charset_is_quoted_string(media_type: Seq<char>)
    ensures
        charset_of(media_type) is Some ==> is_quoted_string(charset_of(media_type)->0),
{
    let s = trim(media_type);
    let slash = position_of(s, 0, '/');
    lemma_first_charset_is_quoted_string(s, position_of(s, slash + 1, ';'));
}

proof fn lemma_first_charset_is_quoted_string(s: Seq<char>, semicolon: int)
    ensures
        first_charset(s, semicolon) is Some ==> is_quoted_string(first_charset(s, semicolon)->0),
    decreases s.len() - semicolon,
{
    if 0 <= semicolon < s.len() {
        let parameter = parameter_at(s, semicolon + 1);
        if !is_charset_parameter(parameter) {
            lemma_parameter_next(s, semicolon + 1);
            lemma_first_charset_is_quoted_string(s, parameter.next);
        }
    }
}

/// Whether the quoted string whose opening quote stands just before `from` has
/// a closing one.
pub open spec fn quote_closes(s: Seq<char>, from: int) -> bool
    decreases s.len() - from,
{
    if from < 0 || from >= s.len() {
        false
    } else if s[from] == '"' {
        true
    } else if s[from] == '\\' {
        from + 1 < s.len() && quote_closes(s, from + 2)
    } else {
        quote_closes(s, from + 1)
    }
}

/// Whether the value of the parameter whose semicolon stands just before
/// `start` is not in a quote that never closes.
pub open spec fn value_closes(s: Seq<char>, start: int) -> bool {
    let end = name_end(s, skip_whitespace(s, start));
    end + 1 < s.len() && s[end] == '=' && s[end + 1] == '"' ==> quote_closes(s, end + 2)
}

/// Whether the first well-formed `charset` value among the parameters that
/// start at `semicolon`, if there is one, is not in a quote that never closes.
pub open spec fn first_charset_closes(s: Seq<char>, semicolon: int) -> bool
    decreases s.len() - semicolon,
{
    if semicolon < 0 || semicolon >= s.len() {
        true
    } else {
        let parameter = parameter_at(s, semicolon + 1);
        if is_charset_parameter(parameter) {
            value_closes(s, semicolon + 1)
        } else {
            proof {
                lemma_parameter_next(s, semicolon + 1);
            }
            first_charset_closes(s, parameter.next)
        }
    }
}

/// Whether the charset of a media type, if it names one, is not in a quote that
/// never closes.
pub open spec fn charset_closes(media_type: Seq<char>) -> bool {
    let s = trim(media_type);
    first_charset_closes(s, position_of(s, position_of(s, 0, '/') + 1, ';'))
}

proof fn lemma_position_extends(s: Seq<char>, w: Seq<char>, from: int, wanted: char)
    requires
        s.is_prefix_of(w),
        0 <= from <= s.len(),
        position_of(s, from, wanted) < s.len(),
    ensures
        position_of(w, from, wanted) == position_of(s, from, wanted),
{
    lemma_position_of(s, from, wanted);
    let at = position_of(s, from, wanted);
    assert(w[at] == s[at]);
    assert forall|i: int| from <= i < at implies w[i] != wanted by {
        assert(w[i] == s[i]);
    }
    lemma_position_of_is(w, from, wanted, at);
}

proof fn lemma_name_end_extends(s: Seq<char>, w: Seq<char>, from: int)
    requires
        s.is_prefix_of(w),
        0 <= from <= s.len(),
        name_end(s, from) < s.len(),
    ensures
        name_end(w, from) == name_end(s, from),
{
    let end = name_end(s, from);
    lemma_position_of(s, from, ';');
    lemma_position_of(s, from, '=');
    lemma_position_of(w, from, ';');
    lemma_position_of(w, from, '=');
    if s[end] == ';' {
        lemma_position_extends(s, w, from, ';');
        assert forall|i: int| from <= i < end implies w[i] != '=' by {
            assert(w[i] == s[i]);
        }
        assert(w[end] == s[end]);
    } else {
        lemma_position_extends(s, w, from, '=');
        assert forall|i: int| from <= i < end implies w[i] != ';' by {
            assert(w[i] == s[i]);
        }
        assert(w[end] == s[end]);
    }
}

proof fn lemma_quote_extends(s: Seq<char>, w: Seq<char>, from: int)
    requires
        s.is_prefix_of(w),
        0 <= from,
        quote_closes(s, from),
    ensures
        quoted_value(w, from) == quoted_value(s, from),
        quoted_value(s, from).1 <= s.len(),
        from <= quoted_value(s, from).1,
    decreases s.len() - from,
{
    assert(w[from] == s[from]);
    if s[from] == '\\' {
        lemma_quote_extends(s, w, from + 2);
        assert(w[from + 1] == s[from + 1]);
    } else if s[from] != '"' {
        lemma_quote_extends(s, w, from + 1);
    }
}

proof fn lemma_trim_end_whitespace(s: Seq<char>, ws: Seq<char>)
    requires
        forall|i: int| 0 <= i < ws.len() ==> spec_is_http_whitespace(#[trigger] ws[i]),
    ensures
        trim_end(s + ws) == trim_end(s),
    decreases ws.len(),
{
    if ws.len() == 0 {
        assert(s + ws =~= s);
    } else {
        let front = ws.drop_last();
        assert forall|i: int| 0 <= i < front.len() implies spec_is_http_whitespace(
            #[trigger] front[i],
        ) by {
            assert(ws[i] == front[i]);
        }
        lemma_trim_end_whitespace(s, front);
        assert((s + ws).drop_last() =~= s + front);
        assert((s + ws).last() == ws.last());
        assert(spec_is_http_whitespace(ws[ws.len() - 1]));
    }
}

/// More text behind a semicolon leaves the first charset as it is.
proof fn lemma_first_charset_extends(s: Seq<char>, ws: Seq<char>, rest: Seq<char>, semicolon: int)
    requires
        forall|i: int| 0 <= i < ws.len() ==> spec_is_http_whitespace(#[trigger] ws[i]),
        0 <= semicolon < s.len(),
        first_charset(s, semicolon) is Some,
        first_charset_closes(s, semicolon),
    ensures
        first_charset(s + ws + seq![';'] + rest, semicolon) == first_charset(s, semicolon),
    decreases s.len() - semicolon,
{
    let w = s + ws + seq![';'] + rest;
    let len = s.len() as int;
    assert(s.is_prefix_of(w));
    assert(first_charset(s, len) is None);
    let start = semicolon + 1;
    let from = skip_whitespace(s, start);
    lemma_skip_whitespace(s, start);
    lemma_skip_whitespace_run(s, start);
    lemma_parameter_next(s, start);
    let end = name_end(s, from);
    lemma_name_end(s, from);
    if from < len && end < len {
        assert forall|i: int| start <= i < from implies spec_is_http_whitespace(
            #[trigger] w[i],
        ) by {
            assert(w[i] == s[i]);
        }
        assert(w[from] == s[from]);
        lemma_skip_whitespace_is(w, start, from);
        lemma_name_end_extends(s, w, from);
        assert(w.subrange(from, end) =~= s.subrange(from, end));
        assert(w[end] == s[end]);
        let parameter = parameter_at(s, start);
        let extended = parameter_at(w, start);
        if s[end] == ';' {
            lemma_first_charset_extends(s, ws, rest, parameter.next);
        } else if end + 1 < len {
            assert(w[end + 1] == s[end + 1]);
            if s[end + 1] == '"' {
                if is_charset_parameter(parameter) {
                    lemma_quote_extends(s, w, end + 2);
                } else {
                    // A quote that never closes takes the rest of the text in.
                    if !quote_closes(s, end + 2) {
                        lemma_open_quote(s, end + 2);
                        assert(parameter.next == len);
                    } else {
                        lemma_quote_extends(s, w, end + 2);
                        let after = quoted_value(s, end + 2).1;
                        lemma_position_of(s, after, ';');
                        if parameter.next < len {
                            lemma_position_extends(s, w, after, ';');
                            lemma_first_charset_extends(s, ws, rest, parameter.next);
                        }
                    }
                }
            } else {
                let next = position_of(s, end + 1, ';');
                lemma_position_of(s, end + 1, ';');
                if next < len {
                    lemma_position_extends(s, w, end + 1, ';');
                    assert(w.subrange(end + 1, next) =~= s.subrange(end + 1, next));
                    if !is_charset_parameter(parameter) {
                        lemma_first_charset_extends(s, ws, rest, next);
                    }
                } else {
                    let at = len + ws.len();
                    assert forall|i: int| end + 1 <= i < at implies w[i] != ';' by {
                        if i < len {
                            assert(w[i] == s[i]);
                        } else {
                            assert(w[i] == ws[i - len]);
                            assert(spec_is_http_whitespace(ws[i - len]));
                        }
                    }
                    assert(w[at] == ';');
                    lemma_position_of_is(w, end + 1, ';', at);
                    assert(w.subrange(end + 1, at) =~= s.subrange(end + 1, len) + ws);
                    lemma_trim_end_whitespace(s.subrange(end + 1, len), ws);
                }
            }
        }
    }
}

proof fn lemma_skip_whitespace_run(s: Seq<char>, from: int)
    requires
        0 <= from <= s.len(),
    ensures
        forall|i: int|
            from <= i < skip_whitespace(s, from) ==> spec_is_http_whitespace(#[trigger] s[i]),
    decreases s.len() - from,
{
    if from < s.len() && spec_is_http_whitespace(s[from]) {
        lemma_skip_whitespace_run(s, from + 1);
    }
}

proof fn lemma_open_quote(s: Seq<char>, from: int)
    requires
        0 <= from,
        !quote_closes(s, from),
    ensures
        quoted_value(s, from).1 == s.len(),
    decreases s.len() - from,
{
    if from < s.len() {
        if s[from] != '\\' {
            lemma_open_quote(s, from + 1);
        } else if from + 1 < s.len() {
            lemma_open_quote(s, from + 2);
        }
    }
}

proof fn lemma_trim_end_run(s: Seq<char>)
    ensures
        trim_end(s).len() <= s.len(),
        forall|i: int|
            trim_end(s).len() <= i < s.len() ==> spec_is_http_whitespace(#[trigger] s[i]),
        trim_end(s).len() > 0 ==> !spec_is_http_whitespace(s[trim_end(s).len() - 1]),
    decreases s.len(),
{
    if s.len() > 0 && spec_is_http_whitespace(s.last()) {
        let front = s.drop_last();
        lemma_trim_end_run(front);
        assert forall|i: int| trim_end(s).len() <= i < s.len() implies spec_is_http_whitespace(
            #[trigger] s[i],
        ) by {
            if i < front.len() {
                assert(front[i] == s[i]);
            }
        }
        if trim_end(s).len() > 0 {
            assert(front[trim_end(s).len() - 1] == s[trim_end(s).len() - 1]);
        }
    }
}

/// A media type keeps the charset that it names, whatever is appended to it
/// behind a semicolon: the first well-formed `charset` parameter wins. Only a
/// quote that never closes would take in what is appended.
pub proof fn lemma_first_charset_wins(media_type: Seq<char>, more: Seq<char>)
    requires
        charset_of(media_type) is Some,
        charset_closes(media_type),
    ensures
        charset_of(media_type + seq![';'] + more) == charset_of(media_type),
{
    let m = media_type;
    let long = m + seq![';'] + more;
    let lead = skip_whitespace(m, 0);
    lemma_skip_whitespace(m, 0);
    lemma_skip_whitespace_run(m, 0);
    let body = m.skip(lead);
    let s = trim(m);
    lemma_trim_end_prefix(body);
    lemma_trim_end_run(body);
    let slash = position_of(s, 0, '/');
    lemma_position_of(s, 0, '/');
    let semicolon = position_of(s, slash + 1, ';');
    lemma_position_of(s, slash + 1, ';');
    assert(s.len() > 0);
    assert(body[0] == m[lead]);
    assert forall|i: int| 0 <= i < lead implies spec_is_http_whitespace(#[trigger] long[i]) by {
        assert(long[i] == m[i]);
    }
    assert(long[lead] == m[lead]);
    lemma_skip_whitespace_is(long, 0, lead);
    let ws = body.skip(s.len() as int);
    assert forall|i: int| 0 <= i < ws.len() implies spec_is_http_whitespace(#[trigger] ws[i]) by {
        assert(ws[i] == body[s.len() + i]);
    }
    let all = long.skip(lead);
    let w = trim(long);
    lemma_trim_end_prefix(all);
    lemma_trim_end_run(all);
    assert(all =~= s + ws + seq![';'] + more);
    assert(w.len() > s.len() + ws.len()) by {
        if w.len() <= s.len() + ws.len() {
            assert(spec_is_http_whitespace(all[(s.len() + ws.len()) as int]));
        }
    }
    let rest = w.skip((s.len() + ws.len() + 1) as int);
    assert(w =~= s + ws + seq![';'] + rest) by {
        assert forall|i: int| 0 <= i < w.len() implies w[i] == (s + ws + seq![';'] + rest)[i] by {
            assert(w[i] == all[i]);
        }
    }
    assert(s.is_prefix_of(w));
    lemma_position_extends(s, w, 0, '/');
    assert(semicolon < s.len());
    lemma_position_extends(s, w, slash + 1, ';');
    assert(w.subrange(0, slash) =~= s.subrange(0, slash));
    assert(w.subrange(slash + 1, semicolon) =~= s.subrange(slash + 1, semicolon));
    lemma_first_charset_extends(s, ws, rest, semicolon);
}

/// Without any quote there is none that never closes.
pub proof fn lemma_unquoted_charset_closes(media_type: Seq<char>)
    requires
        !media_type.contains('"'),
    ensures
        charset_closes(media_type),
{
    let s = trim(media_type);
    let body = media_type.skip(skip_whitespace(media_type, 0));
    lemma_skip_whitespace(media_type, 0);
    lemma_trim_end_prefix(body);
    assert forall|i: int| 0 <= i < s.len() implies s[i] != '"' by {
        assert(s[i] == media_type[skip_whitespace(media_type, 0) + i]);
    }
    lemma_unquoted_first_charset_closes(s, position_of(s, position_of(s, 0, '/') + 1, ';'));
}

proof fn lemma_unquoted_first_charset_closes(s: Seq<char>, semicolon: int)
    requires
        forall|i: int| 0 <= i < s.len() ==> s[i] != '"',
    ensures
        first_charset_closes(s, semicolon),
    decreases s.len() - semicolon,
{
    if 0 <= semicolon < s.len() {
        let parameter = parameter_at(s, semicolon + 1);
        if is_charset_parameter(parameter) {
            lemma_skip_whitespace(s, semicolon + 1);
            lemma_name_end(s, skip_whitespace(s, semicolon + 1));
        } else {
            lemma_parameter_next(s, semicolon + 1);
            lemma_unquoted_first_charset_closes(s, parameter.next);
        }
    }
}

/// A charset that was found, as a sequence.
pub open spec fn found(charset: Option<String>) -> Option<Seq<char>> {
    match charset {
        Some(value) => Some(value@),
        None => None,
    }
}

/// `position_of` looks at nothing before its start.
proof fn lemma_position_shift(a: Seq<char>, r: Seq<char>, i: int, wanted: char)
    requires
        0 <= i <= r.len(),
    ensures
        position_of(a + r, a.len() + i, wanted) == a.len() + position_of(r, i, wanted),
{
    let at = position_of(r, i, wanted);
    lemma_position_of(r, i, wanted);
    assert forall|k: int| a.len() + i <= k < a.len() + at implies (a + r)[k] != wanted by {
        assert((a + r)[k] == r[k - a.len()]);
    }
    lemma_position_of_is(a + r, a.len() + i, wanted, a.len() + at);
}

proof fn lemma_skip_shift(a: Seq<char>, r: Seq<char>, i: int)
    requires
        0 <= i <= r.len(),
    ensures
        skip_whitespace(a + r, a.len() + i) == a.len() + skip_whitespace(r, i),
{
    let at = skip_whitespace(r, i);
    lemma_skip_whitespace(r, i);
    lemma_skip_whitespace_run(r, i);
    assert forall|k: int| a.len() + i <= k < a.len() + at implies spec_is_http_whitespace(
        #[trigger] (a + r)[k],
    ) by {
        assert((a + r)[k] == r[k - a.len()]);
    }
    lemma_skip_whitespace_is(a + r, a.len() + i, a.len() + at);
}

proof fn lemma_quoted_shift(a: Seq<char>, r: Seq<char>, i: int)
    requires
        0 <= i,
    ensures
        i <= r.len() ==> quoted_value(a + r, a.len() + i) == (
            quoted_value(r, i).0,
            a.len() + quoted_value(r, i).1,
        ),
    decreases r.len() - i,
{
    if i < r.len() {
        assert((a + r)[a.len() + i] == r[i]);
        if r[i] == '\\' && i + 1 < r.len() {
            assert((a + r)[a.len() + i + 1] == r[i + 1]);
            lemma_quoted_shift(a, r, i + 2);
        } else if r[i] != '\\' && r[i] != '"' {
            lemma_quoted_shift(a, r, i + 1);
        }
    }
}

/// A parameter is read from where it starts.
proof fn lemma_parameter_shift(a: Seq<char>, r: Seq<char>, i: int)
    requires
        0 <= i <= r.len(),
    ensures
        ({
            let there = parameter_at(a + r, a.len() + i);
            let here = parameter_at(r, i);
            there.name == here.name && there.value == here.value && there.next == a.len()
                + here.next
        }),
{
    let from = skip_whitespace(r, i);
    lemma_skip_shift(a, r, i);
    lemma_skip_whitespace(r, i);
    lemma_position_shift(a, r, from, ';');
    lemma_position_shift(a, r, from, '=');
    let end = name_end(r, from);
    lemma_name_end(r, from);
    assert((a + r).subrange(a.len() + from, a.len() + end) =~= r.subrange(from, end));
    if end < r.len() {
        assert((a + r)[a.len() + end] == r[end]);
        if r[end] != ';' && end + 1 < r.len() {
            assert((a + r)[a.len() + end + 1] == r[end + 1]);
            if r[end + 1] == '"' {
                lemma_quoted_shift(a, r, end + 2);
                lemma_quoted_value(r, end + 2);
                lemma_position_shift(a, r, quoted_value(r, end + 2).1, ';');
            } else {
                lemma_position_shift(a, r, end + 1, ';');
                let next = position_of(r, end + 1, ';');
                lemma_position_of(r, end + 1, ';');
                assert((a + r).subrange(a.len() + end + 1, a.len() + next) =~= r.subrange(
                    end + 1,
                    next,
                ));
            }
        }
    }
}

/// What stands before a semicolon has no part in what the parameters behind it
/// come to.
proof fn lemma_charset_shift(a: Seq<char>, r: Seq<char>, i: int)
    requires
        0 <= i <= r.len(),
    ensures
        first_charset(a + r, a.len() + i) == first_charset(r, i),
    decreases r.len() - i,
{
    if i < r.len() {
        lemma_parameter_shift(a, r, i + 1);
        lemma_parameter_next(r, i + 1);
        if !is_charset_parameter(parameter_at(r, i + 1)) {
            lemma_charset_shift(a, r, parameter_at(r, i + 1).next);
        }
    }
}

/// Only the part behind the last character that is no whitespace is trimmed.
proof fn lemma_trim_end_behind(a: Seq<char>, b: Seq<char>)
    requires
        a.len() > 0,
        !spec_is_http_whitespace(a.last()),
    ensures
        trim_end(a + b) == a + trim_end(b),
{
    lemma_trim_end_run(b);
    lemma_trim_end_prefix(b);
    let at = a.len() + trim_end(b).len();
    assert forall|i: int| at <= i < (a + b).len() implies spec_is_http_whitespace(
        #[trigger] (a + b)[i],
    ) by {
        assert((a + b)[i] == b[i - a.len()]);
    }
    if trim_end(b).len() > 0 {
        assert((a + b)[at - 1] == b[trim_end(b).len() - 1]);
    } else {
        assert((a + b)[at - 1] == a.last());
    }
    lemma_trim_end_is(a + b, at as int);
    assert((a + b).take(at as int) =~= a + trim_end(b));
}

/// A type and a subtype.
pub open spec fn essence(kind: Seq<char>, subtype: Seq<char>) -> Seq<char> {
    kind + seq!['/'] + subtype
}

/// What a media type of a token type and a token subtype names is what its
/// parameters name.
proof fn lemma_charset_of_parameters(kind: Seq<char>, subtype: Seq<char>, list: Seq<char>)
    requires
        is_token(kind),
        is_token(subtype),
    ensures
        charset_of(essence(kind, subtype) + seq![';'] + list) == first_charset(
            seq![';'] + trim_end(list),
            0,
        ),
        charset_of(essence(kind, subtype)) is None,
{
    let t = essence(kind, subtype);
    let semi = seq![';'];
    assert(spec_is_mime_token_char(kind[0]));
    assert(spec_is_mime_token_char(subtype.last())) by {
        assert(subtype.last() == subtype[subtype.len() - 1]);
    }
    assert(t[0] == kind[0] && t.last() == subtype.last());
    assert forall|i: int| 0 <= i < kind.len() implies kind[i] != '/' && kind[i] != ';' by {
        assert(spec_is_mime_token_char(kind[i]));
    }
    assert forall|i: int| 0 <= i < subtype.len() implies subtype[i] != ';' by {
        assert(spec_is_mime_token_char(subtype[i]));
    }
    let head = t + semi;
    let whole = head + list;
    assert(head.last() == ';');
    assert(whole[0] == kind[0]);
    lemma_skip_whitespace_is(whole, 0, 0);
    assert(whole.skip(0) =~= whole);
    lemma_trim_end_behind(head, list);
    let rest = semi + trim_end(list);
    let w = trim(whole);
    assert(w =~= t + rest);
    let slash = kind.len() as int;
    assert forall|i: int| 0 <= i < slash implies w[i] != '/' by {
        assert(w[i] == kind[i]);
    }
    assert(w[slash] == '/');
    lemma_position_of_is(w, 0, '/', slash);
    let semicolon = t.len() as int;
    assert forall|i: int| slash + 1 <= i < semicolon implies w[i] != ';' by {
        assert(w[i] == subtype[i - slash - 1]);
    }
    assert(w[semicolon] == ';');
    lemma_position_of_is(w, slash + 1, ';', semicolon);
    assert(w.subrange(0, slash) =~= kind);
    assert(w.subrange(slash + 1, semicolon) =~= subtype);
    lemma_trim_end_is(subtype, subtype.len() as int);
    assert(subtype.take(subtype.len() as int) =~= subtype);
    lemma_charset_shift(t, rest, 0);
    // Without parameters.
    lemma_skip_whitespace_is(t, 0, 0);
    assert(t.skip(0) =~= t);
    lemma_trim_end_is(t, t.len() as int);
    assert(t.take(t.len() as int) =~= t);
    assert forall|i: int| 0 <= i < slash implies t[i] != '/' by {
        assert(t[i] == kind[i]);
    }
    lemma_position_of_is(t, 0, '/', slash);
    assert forall|i: int| slash + 1 <= i < t.len() implies t[i] != ';' by {
        assert(t[i] == subtype[i - slash - 1]);
    }
    lemma_position_of_is(t, slash + 1, ';', t.len() as int);
}

/// One parameter without quotes ends at its semicolon, or where the list ends.
#[verifier::rlimit(40)]
proof fn lemma_plain_parameter(p: Seq<char>, q: Seq<char>)
    requires
        !p.contains(';'),
        !p.contains('"'),
    ensures
        ({
            let alone = parameter_at(seq![';'] + trim_end(p), 1);
            let before = parameter_at(seq![';'] + p + seq![';'] + q, 1);
            &&& before.next == p.len() + 1
            &&& alone.next == trim_end(p).len() + 1
            &&& is_charset_parameter(before) == is_charset_parameter(alone)
            &&& is_charset_parameter(alone) ==> before.value == alone.value
        }),
{
    let semi = seq![';'];
    let short = trim_end(p);
    lemma_trim_end_run(p);
    lemma_trim_end_prefix(p);
    assert forall|i: int| 0 <= i < p.len() implies p[i] != ';' && p[i] != '"' by {
        assert(p.contains(p[i]));
    }
    let s = semi + short;
    let w = semi + p + semi + q;
    let size = short.len() as int;
    let full = p.len() as int;
    assert forall|i: int| 0 <= i < size implies short[i] == p[i] && s[i + 1] == p[i] by {}
    assert forall|i: int| 0 <= i < full implies w[i + 1] == p[i] by {}
    assert(w[full + 1] == ';');
    // Where the name starts.
    lemma_skip_whitespace(s, 1);
    lemma_skip_whitespace_run(s, 1);
    let from = skip_whitespace(s, 1);
    if from < s.len() {
        assert forall|i: int| 1 <= i < from implies spec_is_http_whitespace(#[trigger] w[i]) by {
            assert(w[i] == s[i]);
        }
        assert(w[from] == s[from]);
        lemma_skip_whitespace_is(w, 1, from);
        // Where it ends.
        let equals = position_of(s, from, '=');
        lemma_position_of(s, from, '=');
        assert forall|i: int| from <= i < s.len() implies s[i] != ';' by {
            assert(s[i] == p[i - 1]);
        }
        lemma_position_of_is(s, from, ';', s.len() as int);
        assert forall|i: int| from <= i < full + 1 implies w[i] != ';' by {
            assert(w[i] == p[i - 1]);
        }
        lemma_position_of_is(w, from, ';', full + 1);
        if equals < s.len() {
            assert forall|i: int| from <= i < equals implies w[i] != '=' by {
                assert(w[i] == s[i]);
            }
            assert(w[equals] == s[equals]);
            lemma_position_of_is(w, from, '=', equals);
            assert(w.subrange(from, equals) =~= s.subrange(from, equals));
            // The value.
            assert(w[equals + 1] == if equals < full {
                p[equals]
            } else {
                ';'
            });
            lemma_position_of_is(w, equals + 1, ';', full + 1);
            let long_value = w.subrange(equals + 1, full + 1);
            assert(long_value =~= p.subrange(equals, full));
            if equals + 1 < s.len() {
                assert(s[equals + 1] == p[equals]);
                lemma_position_of_is(s, equals + 1, ';', s.len() as int);
                let value = s.subrange(equals + 1, s.len() as int);
                assert(value =~= p.subrange(equals, size));
                assert(long_value =~= value + p.subrange(size, full));
                let ws = p.subrange(size, full);
                assert forall|i: int| 0 <= i < ws.len() implies spec_is_http_whitespace(
                    #[trigger] ws[i],
                ) by {
                    assert(ws[i] == p[size + i]);
                }
                lemma_trim_end_whitespace(value, ws);
            } else {
                assert forall|i: int| 0 <= i < long_value.len() implies spec_is_http_whitespace(
                    #[trigger] long_value[i],
                ) by {
                    assert(long_value[i] == p[equals + i]);
                }
                lemma_trim_end_is(long_value, 0);
            }
        } else {
            // No name ends in an equals sign within the parameter.
            lemma_position_of(w, from, '=');
            assert forall|i: int| from <= i < full + 1 implies w[i] != '=' by {
                if i < s.len() {
                    assert(w[i] == s[i]);
                } else {
                    assert(w[i] == p[i - 1]);
                    assert(spec_is_http_whitespace(p[i - 1]));
                }
            }
        }
    } else {
        // Nothing but whitespace.
        assert(size == 0) by {
            if size > 0 {
                assert(s[size] == p[size - 1]);
            }
        }
        assert forall|i: int| 1 <= i < full + 1 implies spec_is_http_whitespace(
            #[trigger] w[i],
        ) by {
            assert(w[i] == p[i - 1]);
        }
        lemma_skip_whitespace_is(w, 1, full + 1);
        lemma_position_of_is(w, full + 1, ';', full + 1);
        lemma_position_of(w, full + 1, '=');
        lemma_position_of(s, from, ';');
        lemma_position_of(s, from, '=');
    }
}

/// A parameter that names no charset hides none that follows: it may as well be
/// left out. It may be malformed; only quotes and semicolons are kept out of it.
pub proof fn lemma_other_parameters_hide_nothing(
    kind: Seq<char>,
    subtype: Seq<char>,
    parameter: Seq<char>,
    list: Seq<char>,
    alone: &str,
    before: &str,
    without: &str,
    results: (Option<String>, Option<String>, Option<String>),
)
    requires
        is_token(kind),
        is_token(subtype),
        !parameter.contains(';'),
        !parameter.contains('"'),
        alone@ == essence(kind, subtype) + seq![';'] + parameter,
        before@ == essence(kind, subtype) + seq![';'] + parameter + seq![';'] + list,
        without@ == essence(kind, subtype) + seq![';'] + list,
        call_ensures(mime_charset, (alone,), results.0),
        call_ensures(mime_charset, (before,), results.1),
        call_ensures(mime_charset, (without,), results.2),
    ensures
        results.0 is None ==> found(results.1) == found(results.2),
        results.0 is Some ==> found(results.1) == found(results.0),
{
    let t = essence(kind, subtype);
    let semi = seq![';'];
    let p = parameter;
    assert(before@ =~= t + semi + (p + semi + list));
    lemma_charset_of_parameters(kind, subtype, p);
    lemma_charset_of_parameters(kind, subtype, p + semi + list);
    lemma_charset_of_parameters(kind, subtype, list);
    let tail = trim_end(list);
    assert((p + semi).last() == ';');
    lemma_trim_end_behind(p + semi, list);
    assert(semi + trim_end(p + semi + list) =~= semi + p + semi + tail);
    lemma_plain_parameter(p, tail);
    let long = semi + p + semi + tail;
    let a = semi + p;
    assert(long =~= a + (semi + tail));
    lemma_charset_shift(a, semi + tail, 0);
    let short = semi + trim_end(p);
    if !is_charset_parameter(parameter_at(short, 1)) {
        reveal_with_fuel(first_charset, 2);
        assert(first_charset(short, 0) is None);
    }
}

proof fn lemma_ascii_char(c: char)
    requires
        (c as u32) < 0x80,
    ensures
        c as u8 == c as u32,
{
}

/// Whether `name` is the word `charset`, in whatever case.
pub open spec fn spells_charset(name: Seq<char>) -> bool {
    &&& name.len() == 7
    &&& forall|i: int|
        0 <= i < 7 ==> #[trigger] name[i] == "charset"@[i] || name[i] as u32 + 32
            == "charset"@[i] as u32
}

proof fn lemma_spells_charset(name: Seq<char>)
    ensures
        spells_charset(name) <==> is_charset_name(name),
{
    reveal_strlit("charset");
    let lower = name.map_values(|c: char| ascii_lower(c));
    assert(lower.len() == name.len());
    assert forall|i: int| 0 <= i < name.len() implies #[trigger] lower[i] == ascii_lower(
        name[i],
    ) by {}
    if spells_charset(name) {
        assert forall|i: int| 0 <= i < 7 implies lower[i] == "charset"@[i] by {
            assert(lower[i] == ascii_lower(name[i]));
            assert(name[i] == "charset"@[i] || name[i] as u32 + 32 == "charset"@[i] as u32);
        }
        assert(lower =~= "charset"@);
    }
    if is_charset_name(name) {
        assert forall|i: int| 0 <= i < 7 implies #[trigger] name[i] == "charset"@[i]
            || name[i] as u32 + 32 == "charset"@[i] as u32 by {
            assert(lower[i] == "charset"@[i]);
        }
    }
}

/// A parameter named `charset`, in whatever case, gives its value: the characters
/// up to the whitespace at the end.
pub proof fn lemma_charset_parameter_is_found(
    kind: Seq<char>,
    subtype: Seq<char>,
    gap: Seq<char>,
    name: Seq<char>,
    value: Seq<char>,
    end: Seq<char>,
    text: &str,
    charset: Option<String>,
)
    requires
        is_token(kind),
        is_token(subtype),
        forall|i: int| 0 <= i < gap.len() ==> spec_is_http_whitespace(#[trigger] gap[i]),
        forall|i: int| 0 <= i < end.len() ==> spec_is_http_whitespace(#[trigger] end[i]),
        spells_charset(name),
        value.len() > 0,
        is_quoted_string(value),
        value[0] != '"',
        !spec_is_http_whitespace(value.last()),
        !value.contains(';'),
        text@ == essence(kind, subtype) + seq![';'] + gap + name + seq!['='] + value + end,
        call_ensures(mime_charset, (text,), charset),
    ensures
        found(charset) == Some(value),
{
    let semi = seq![';'];
    let list = gap + name + seq!['='] + value + end;
    assert(text@ =~= essence(kind, subtype) + semi + list);
    lemma_charset_of_parameters(kind, subtype, list);
    let inner = gap + name + seq!['='] + value;
    assert(inner.last() == value.last());
    lemma_trim_end_behind(inner, end);
    lemma_trim_end_is(end, 0);
    let s = semi + inner;
    assert(semi + trim_end(list) =~= s);
    reveal_strlit("charset");
    lemma_spells_charset(name);
    assert forall|i: int| 0 <= i < 7 implies spec_is_mime_token_char(#[trigger] name[i])
        && !spec_is_http_whitespace(name[i]) && name[i] != ';' && name[i] != '=' by {
        assert(name[i] == "charset"@[i] || name[i] as u32 + 32 == "charset"@[i] as u32);
        let letter = "charset"@[i];
        assert(0x61 <= letter as u32 <= 0x7A);
        lemma_ascii_char(name[i]);
    }
    let from: int = gap.len() as int + 1;
    assert forall|i: int| 1 <= i < from implies spec_is_http_whitespace(#[trigger] s[i]) by {
        assert(s[i] == gap[i - 1]);
    }
    assert(s[from as int] == name[0]);
    lemma_skip_whitespace_is(s, 1, from as int);
    let end_of_name: int = from + 7;
    assert(s[end_of_name as int] == '=');
    assert forall|i: int| from <= i < end_of_name implies s[i] != '=' && s[i] != ';' by {
        assert(s[i] == name[i - from]);
    }
    assert forall|i: int| end_of_name < i < s.len() implies s[i] != ';' by {
        assert(s[i] == value[i - end_of_name - 1]);
        assert(value.contains(value[i - end_of_name - 1]));
    }
    lemma_position_of_is(s, from as int, '=', end_of_name as int);
    lemma_position_of_is(s, from as int, ';', s.len() as int);
    lemma_position_of_is(s, end_of_name + 1, ';', s.len() as int);
    assert(s[end_of_name + 1] == value[0]);
    assert(s.subrange(from as int, end_of_name as int) =~= name);
    assert(s.subrange(end_of_name + 1, s.len() as int) =~= value);
    lemma_trim_end_is(value, value.len() as int);
    assert(value.take(value.len() as int) =~= value);
}

/// A parameter of another name, or without a value, names no charset.
pub proof fn lemma_other_names_give_no_charset(
    kind: Seq<char>,
    subtype: Seq<char>,
    name: Seq<char>,
    value: Seq<char>,
    with_value: &str,
    bare: &str,
    results: (Option<String>, Option<String>),
)
    requires
        is_token(kind),
        is_token(subtype),
        !name.contains(';'),
        !name.contains('='),
        name.len() > 0,
        !spec_is_http_whitespace(name[0]),
        !value.contains(';'),
        !spells_charset(name),
        with_value@ == essence(kind, subtype) + seq![';'] + name + seq!['='] + value,
        bare@ == essence(kind, subtype) + seq![';'] + name,
        call_ensures(mime_charset, (with_value,), results.0),
        call_ensures(mime_charset, (bare,), results.1),
    ensures
        results.0 is None || value.contains('"'),
        results.1 is None,
{
    let semi = seq![';'];
    lemma_spells_charset(name);
    assert forall|i: int| 0 <= i < name.len() implies name[i] != ';' && name[i] != '=' by {
        assert(name.contains(name[i]));
    }
    // Without a value.
    lemma_charset_of_parameters(kind, subtype, name);
    lemma_trim_end_run(name);
    lemma_trim_end_prefix(name);
    let s = semi + trim_end(name);
    assert(s.len() > 1);
    assert(s[1] == name[0]);
    lemma_skip_whitespace_is(s, 1, 1);
    assert forall|i: int| 1 <= i < s.len() implies s[i] != ';' && s[i] != '=' by {
        assert(s[i] == name[i - 1]);
    }
    lemma_position_of_is(s, 1, ';', s.len() as int);
    lemma_position_of_is(s, 1, '=', s.len() as int);
    reveal_with_fuel(first_charset, 2);
    assert(first_charset(s, 0) is None);
    // With one.
    if !value.contains('"') {
        let list = name + seq!['='] + value;
        assert(with_value@ =~= essence(kind, subtype) + semi + list);
        lemma_charset_of_parameters(kind, subtype, list);
        let head = name + seq!['='];
        assert(head.last() == '=');
        lemma_trim_end_behind(head, value);
        lemma_trim_end_run(value);
        lemma_trim_end_prefix(value);
        let w = semi + trim_end(list);
        let at: int = name.len() as int + 1;
        assert(w =~= semi + name + seq!['='] + trim_end(value));
        assert(w[1] == name[0]);
        lemma_skip_whitespace_is(w, 1, 1);
        assert(w[at as int] == '=');
        assert forall|i: int| 1 <= i < at implies w[i] != ';' && w[i] != '=' by {
            assert(w[i] == name[i - 1]);
        }
        assert forall|i: int| at < i < w.len() implies w[i] != ';' && w[i] != '"' by {
            assert(w[i] == value[i - at - 1]);
            assert(value.contains(value[i - at - 1]));
        }
        lemma_position_of_is(w, 1, '=', at as int);
        lemma_position_of_is(w, 1, ';', w.len() as int);
        assert(w.subrange(1, at as int) =~= name);
        if at + 1 < w.len() {
            lemma_position_of_is(w, at + 1, ';', w.len() as int);
        }
        assert(!is_charset_parameter(parameter_at(w, 1)));
        assert(parameter_at(w, 1).next == w.len());
        assert(first_charset(w, 0) is None);
    }
}

/// A media type without a slash, with an empty or malformed type or subtype, or
/// without parameters names no charset.
pub proof fn lemma_malformed_types_name_no_charset(text: &str, charset: Option<String>)
    requires
        call_ensures(mime_charset, (text,), charset),
    ensures
        !text@.contains('/') ==> charset is None,
        !text@.contains(';') ==> charset is None,
        !text@.contains('=') ==> charset is None,
{
    let s = trim(text@);
    let lead = skip_whitespace(text@, 0);
    lemma_skip_whitespace(text@, 0);
    lemma_trim_end_prefix(text@.skip(lead));
    assert forall|i: int| 0 <= i < s.len() implies text@.contains(#[trigger] s[i]) by {
        assert(s[i] == text@[lead + i]);
    }
    lemma_position_of(s, 0, '/');
    let slash = position_of(s, 0, '/');
    if slash < s.len() {
        lemma_position_of(s, slash + 1, ';');
        let semicolon = position_of(s, slash + 1, ';');
        if semicolon < s.len() && !text@.contains('=') {
            lemma_no_equals_no_charset(s, semicolon);
        }
    }
}

proof fn lemma_no_equals_no_charset(s: Seq<char>, semicolon: int)
    requires
        forall|i: int| 0 <= i < s.len() ==> s[i] != '=',
    ensures
        first_charset(s, semicolon) is None,
    decreases s.len() - semicolon,
{
    if 0 <= semicolon < s.len() {
        lemma_parameter_next(s, semicolon + 1);
        let from = skip_whitespace(s, semicolon + 1);
        lemma_skip_whitespace(s, semicolon + 1);
        lemma_name_end(s, from);
        lemma_no_equals_no_charset(s, parameter_at(s, semicolon + 1).next);
    }
}

/// Which characters make up tokens: ASCII letters and digits, and fifteen others.
pub proof fn lemma_token_characters(value: char, token: bool)
    requires
        call_ensures(is_mime_token_char, (value,), token),
    ensures
        token <==> {
            ||| '0' <= value <= '9'
            ||| 'a' <= value <= 'z'
            ||| 'A' <= value <= 'Z'
            ||| "!#$%&'*+-.^_`|~"@.contains(value)
        },
{
    reveal_strlit("!#$%&'*+-.^_`|~");
    let others = "!#$%&'*+-.^_`|~"@;
    assert(others[0] == '!' && others[1] == '#' && others[2] == '$' && others[3] == '%'
        && others[4] == '&' && others[5] == '\'' && others[6] == '*' && others[7] == '+'
        && others[8] == '-' && others[9] == '.' && others[10] == '^' && others[11] == '_'
        && others[12] == '`' && others[13] == '|' && others[14] == '~');
    if value as u32 <= 0x7F {
        assert(value as u8 == value as u32);
    }
    if others.contains(value) {
        let i = choose|i: int| 0 <= i < others.len() && others[i] == value;
    }
}


/// `value` as it is written between quotation marks: with a backslash before each
/// quotation mark and each backslash.
pub open spec fn escaped(value: Seq<char>) -> Seq<char>
    decreases value.len(),
{
    if value.len() == 0 {
        Seq::empty()
    } else {
        (if value[0] == '"' || value[0] == '\\' {
            seq!['\\', value[0]]
        } else {
            seq![value[0]]
        }) + escaped(value.skip(1))
    }
}

proof fn lemma_escaped_is_read(value: Seq<char>, rest: Seq<char>)
    ensures
        quoted_value(escaped(value) + seq!['"'] + rest, 0) == (
            value,
            escaped(value).len() as int + 1,
        ),
    decreases value.len(),
{
    let s = escaped(value) + seq!['"'] + rest;
    if value.len() == 0 {
        assert(s[0] == '"');
        assert(value =~= Seq::<char>::empty());
    } else {
        let behind = value.skip(1);
        let tail = escaped(behind) + seq!['"'] + rest;
        lemma_escaped_is_read(behind, rest);
        if value[0] == '"' || value[0] == '\\' {
            let head = seq!['\\', value[0]];
            assert(s =~= head + tail);
            lemma_quoted_shift(head, tail, 0);
            assert(s[0] == '\\' && s[1] == value[0]);
            assert(quoted_value(s, 2).0 == behind);
            assert(seq![s[1]] + behind =~= value);
        } else {
            let head = seq![value[0]];
            assert(s =~= head + tail);
            lemma_quoted_shift(head, tail, 0);
            assert(s[0] == value[0]);
            assert(quoted_value(s, 1).0 == behind);
            assert(seq![s[0]] + behind =~= value);
        }
    }
}

/// A value between quotation marks is read with its backslashes taken out, and
/// ends where its quotation mark closes: as the value of a `charset` it is the
/// charset, and as the value of anything else it hides nothing that follows,
/// whatever it holds.
pub proof fn lemma_quoted_values_end_at_their_mark(
    kind: Seq<char>,
    subtype: Seq<char>,
    gap: Seq<char>,
    name: Seq<char>,
    value: Seq<char>,
    junk: Seq<char>,
    list: Seq<char>,
    whole: &str,
    without: &str,
    results: (Option<String>, Option<String>),
)
    requires
        is_token(kind),
        is_token(subtype),
        forall|i: int| 0 <= i < gap.len() ==> spec_is_http_whitespace(#[trigger] gap[i]),
        name.len() > 0,
        !spec_is_http_whitespace(name[0]),
        !name.contains(';'),
        !name.contains('='),
        !junk.contains(';'),
        whole@ == essence(kind, subtype) + seq![';'] + gap + name + seq!['=', '"'] + escaped(value)
            + seq!['"'] + junk + seq![';'] + list,
        without@ == essence(kind, subtype) + seq![';'] + list,
        call_ensures(mime_charset, (whole,), results.0),
        call_ensures(mime_charset, (without,), results.1),
    ensures
        spells_charset(name) && is_quoted_string(value) ==> found(results.0) == Some(value),
        !(spells_charset(name) && is_quoted_string(value)) ==> found(results.0) == found(
            results.1,
        ),
{
    let semi = seq![';'];
    let p = gap + name + seq!['=', '"'] + escaped(value) + seq!['"'] + junk;
    assert(whole@ =~= essence(kind, subtype) + semi + (p + semi + list));
    lemma_charset_of_parameters(kind, subtype, p + semi + list);
    lemma_charset_of_parameters(kind, subtype, list);
    let tail = trim_end(list);
    assert((p + semi).last() == ';');
    lemma_trim_end_behind(p + semi, list);
    let s = semi + p + semi + tail;
    assert(semi + trim_end(p + semi + list) =~= s);
    lemma_quoted_parameter(gap, name, value, junk, tail);
    assert(s =~= (semi + p) + (semi + tail));
    lemma_charset_shift(semi + p, semi + tail, 0);
    lemma_charset_names(name);
}

proof fn lemma_charset_names(name: Seq<char>)
    ensures
        spells_charset(name) <==> is_charset_name(name) && is_token(name),
{
    lemma_spells_charset(name);
    if spells_charset(name) {
        reveal_strlit("charset");
        assert forall|i: int| 0 <= i < 7 implies spec_is_mime_token_char(#[trigger] name[i]) by {
            assert(name[i] == "charset"@[i] || name[i] as u32 + 32 == "charset"@[i] as u32);
            let letter = "charset"@[i];
            assert(0x61 <= letter as u32 <= 0x7A);
            lemma_ascii_char(name[i]);
        }
    }
}

proof fn lemma_quoted_parameter(
    gap: Seq<char>,
    name: Seq<char>,
    value: Seq<char>,
    junk: Seq<char>,
    tail: Seq<char>,
)
    requires
        forall|i: int| 0 <= i < gap.len() ==> spec_is_http_whitespace(#[trigger] gap[i]),
        name.len() > 0,
        !spec_is_http_whitespace(name[0]),
        !name.contains(';'),
        !name.contains('='),
        !junk.contains(';'),
    ensures
        ({
            let p = gap + name + seq!['=', '"'] + escaped(value) + seq!['"'] + junk;
            let parameter = parameter_at(seq![';'] + p + seq![';'] + tail, 1);
            &&& parameter.name == name
            &&& parameter.value == Some(value)
            &&& parameter.next == p.len() + 1
        }),
{
    let semi = seq![';'];
    let body = escaped(value);
    let p = gap + name + seq!['=', '"'] + body + seq!['"'] + junk;
    let s = semi + p + semi + tail;
    let from: int = gap.len() as int + 1;
    assert forall|i: int| 1 <= i < from implies spec_is_http_whitespace(#[trigger] s[i]) by {
        assert(s[i] == gap[i - 1]);
    }
    assert(s[from] == name[0]);
    lemma_skip_whitespace_is(s, 1, from);
    let end: int = from + name.len();
    assert forall|i: int| from <= i < end implies s[i] != '=' && s[i] != ';' by {
        assert(s[i] == name[i - from]);
        assert(name.contains(name[i - from]));
    }
    assert(s[end] == '=');
    assert(s[end + 1] == '"');
    lemma_position_of_is(s, from, '=', end);
    lemma_position_of(s, from, ';');
    assert(name_end(s, from) == end);
    assert(s.subrange(from, end) =~= name);
    let head = semi + gap + name + seq!['=', '"'];
    let rest = junk + semi + tail;
    let quoted = body + seq!['"'] + rest;
    assert(s =~= head + quoted);
    assert(head.len() == end + 2);
    lemma_escaped_is_read(value, rest);
    lemma_quoted_shift(head, quoted, 0);
    let after: int = end + 2 + body.len() + 1;
    assert(quoted_value(s, end + 2) == (value, after));
    let last: int = p.len() as int + 1;
    assert(s[last] == ';');
    assert forall|i: int| after <= i < last implies s[i] != ';' by {
        assert(s[i] == junk[i - after]);
        assert(junk.contains(junk[i - after]));
    }
    lemma_position_of_is(s, after, ';', last);
}


/// White space is a tab, a line feed, a form feed, a carriage return or a space; a
/// value may hold tabs, spaces and what is printable in ASCII or lies above it in
/// one byte.
pub proof fn lemma_value_characters(value: char, space: bool, quoted: bool)
    requires
        call_ensures(is_http_whitespace, (value,), space),
        call_ensures(is_http_quoted_string_char, (value,), quoted),
    ensures
        space <==> value as u32 == 0x09 || value as u32 == 0x0A || value as u32 == 0x0C
            || value as u32 == 0x0D || value as u32 == 0x20,
        quoted <==> value as u32 == 0x09 || 0x20 <= value as u32 <= 0x7E || 0x80 <= value as u32 <= 0xFF,
{
}

/// White space around a media type does not change what it names.
pub proof fn lemma_outer_whitespace_changes_nothing(
    front: Seq<char>,
    media_type: &str,
    back: Seq<char>,
    wrapped: &str,
    results: (Option<String>, Option<String>),
)
    requires
        forall|i: int| 0 <= i < front.len() ==> spec_is_http_whitespace(#[trigger] front[i]),
        forall|i: int| 0 <= i < back.len() ==> spec_is_http_whitespace(#[trigger] back[i]),
        wrapped@ == front + media_type@ + back,
        call_ensures(mime_charset, (media_type,), results.0),
        call_ensures(mime_charset, (wrapped,), results.1),
    ensures
        found(results.1) == found(results.0),
{
    let s = media_type@;
    let w = wrapped@;
    let at = skip_whitespace(s, 0);
    lemma_skip_whitespace(s, 0);
    lemma_skip_whitespace_run(s, 0);
    let core = s.skip(at);
    if at < s.len() {
        let start: int = front.len() as int + at;
        assert forall|i: int| 0 <= i < start implies spec_is_http_whitespace(#[trigger] w[i]) by {
            if i < front.len() {
                assert(w[i] == front[i]);
            } else {
                assert(w[i] == s[i - front.len()]);
            }
        }
        assert(w[start] == s[at]);
        lemma_skip_whitespace_is(w, 0, start);
        assert(w.skip(start) =~= core + back);
        lemma_trim_end_whitespace(core, back);
    } else {
        assert forall|i: int| 0 <= i < w.len() implies spec_is_http_whitespace(#[trigger] w[i]) by {
            if i < front.len() {
                assert(w[i] == front[i]);
            } else if i < front.len() + s.len() {
                assert(w[i] == s[i - front.len()]);
            } else {
                assert(w[i] == back[i - front.len() - s.len()]);
            }
        }
        lemma_skip_whitespace_is(w, 0, w.len() as int);
        assert(w.skip(w.len() as int) =~= core);
    }
}

/// What stands before the slash, and between the slash and the first semicolon,
/// must be a token each: without that a media type names no charset.
pub proof fn lemma_only_token_types_name_a_charset(
    kind: Seq<char>,
    rest: Seq<char>,
    subtype: Seq<char>,
    list: Seq<char>,
    text: &str,
    charset: Option<String>,
)
    requires
        !kind.contains('/'),
        kind.len() > 0 ==> !spec_is_http_whitespace(kind[0]),
        text@ == kind + seq!['/'] + rest,
        rest == subtype || rest == subtype + seq![';'] + list,
        !subtype.contains(';'),
        call_ensures(mime_charset, (text,), charset),
    ensures
        !is_token(kind) ==> charset is None,
        !is_token(trim_end(subtype)) ==> charset is None,
{
    let head = kind + seq!['/'];
    let s = text@;
    assert(head.last() == '/');
    assert(s[0] == if kind.len() > 0 {
        kind[0]
    } else {
        '/'
    });
    lemma_skip_whitespace_is(s, 0, 0);
    assert(s.skip(0) =~= s);
    lemma_trim_end_behind(head, rest);
    let w = head + trim_end(rest);
    assert(trim(s) == w);
    let slash = kind.len() as int;
    assert forall|i: int| 0 <= i < slash implies w[i] != '/' by {
        assert(w[i] == kind[i]);
        assert(kind.contains(kind[i]));
    }
    assert(w[slash] == '/');
    lemma_position_of_is(w, 0, '/', slash);
    assert(w.subrange(0, slash) =~= kind);
    assert forall|i: int| 0 <= i < subtype.len() implies subtype[i] != ';' by {
        assert(subtype.contains(subtype[i]));
    }
    lemma_trim_end_prefix(rest);
    lemma_trim_end_prefix(subtype);
    lemma_trim_end_run(subtype);
    if rest == subtype {
        let short = trim_end(subtype);
        assert forall|i: int| slash + 1 <= i < w.len() implies w[i] != ';' by {
            assert(w[i] == short[i - slash - 1]);
            assert(short[i - slash - 1] == subtype[i - slash - 1]);
        }
        lemma_position_of_is(w, slash + 1, ';', w.len() as int);
        assert(w.subrange(slash + 1, w.len() as int) =~= short);
        lemma_trim_end_stable(subtype);
    } else {
        let front = subtype + seq![';'];
        assert(front.last() == ';');
        lemma_trim_end_behind(front, list);
        let semicolon: int = slash + 1 + subtype.len();
        assert(w =~= head + front + trim_end(list));
        assert forall|i: int| slash + 1 <= i < semicolon implies w[i] != ';' by {
            assert(w[i] == subtype[i - slash - 1]);
        }
        assert(w[semicolon] == ';');
        lemma_position_of_is(w, slash + 1, ';', semicolon);
        assert(w.subrange(slash + 1, semicolon) =~= subtype);
    }
}

} // verus!
