//! Character classes of JSON text: insignificant whitespace, the characters a
//! string may hold unescaped, and the characters that may follow a backslash.
use vstd::prelude::*;

verus! {

/// Space, horizontal tab, line feed and carriage return.
pub open spec fn spec_is_whitespace(c: char) -> bool {
    c == ' ' || c == '\t' || c == '\n' || c == '\r'
}

/// The characters a string body may hold as they are: U+0020 and U+0021,
/// U+0023 to U+005B, and everything from U+005D on. This leaves out the
/// control characters, the quotation mark and the backslash.
pub open spec fn spec_is_unescaped(c: char) -> bool {
    ('\u{20}' <= c <= '\u{21}') || ('\u{23}' <= c <= '\u{5B}') || '\u{5D}' <= c
}

/// The character that a backslash followed by `c` stands for, if any.
pub open spec fn spec_escape(c: char) -> Option<char> {
    if c == '"' {
        Some('"')
    } else if c == '\\' {
        Some('\\')
    } else if c == '/' {
        Some('/')
    } else if c == 'b' {
        Some('\u{8}')
    } else if c == 'f' {
        Some('\u{C}')
    } else if c == 'n' {
        Some('\n')
    } else if c == 'r' {
        Some('\r')
    } else if c == 't' {
        Some('\t')
    } else {
        None
    }
}

/// The characters that may follow a backslash: `"`, `\`, `/`, `b`, `f`, `n`,
/// `r` and `t`.
pub open spec fn spec_is_escape_target(c: char) -> bool {
    c == '"' || c == '\\' || c == '/' || c == 'b' || c == 'f' || c == 'n' || c == 'r' || c == 't'
}

/// The ASCII digits `0` to `9`.
pub open spec fn spec_is_digit(c: char) -> bool {
    '0' <= c <= '9'
}

#[verifier::when_used_as_spec(spec_is_whitespace)]
pub fn is_whitespace(c: char) -> (r: bool)
    ensures
        r == spec_is_whitespace(c),
{
    c == ' ' || c == '\t' || c == '\n' || c == '\r'
}

#[verifier::when_used_as_spec(spec_is_unescaped)]
pub fn is_unescaped(c: char) -> (r: bool)
    ensures
        r == spec_is_unescaped(c),
{
    ('\u{20}' <= c && c <= '\u{21}') || ('\u{23}' <= c && c <= '\u{5B}') || '\u{5D}' <= c
}

#[verifier::when_used_as_spec(spec_is_escape_target)]
pub fn is_escape_target(c: char) -> (r: bool)
    ensures
        r == spec_is_escape_target(c),
        r == (spec_escape(c) is Some),
{
    match c {
        '"' | '\\' | '/' | 'b' | 'f' | 'n' | 'r' | 't' => true,
        _ => false,
    }
}

#[verifier::when_used_as_spec(spec_escape)]
pub fn escape(c: char) -> (r: Option<char>)
    ensures
        r == spec_escape(c),
        r is Some <==> spec_is_escape_target(c),
{
    match c {
        '"' => Some('"'),
        '\\' => Some('\\'),
        '/' => Some('/'),
        'b' => Some('\u{8}'),
        'f' => Some('\u{C}'),
        'n' => Some('\n'),
        'r' => Some('\r'),
        't' => Some('\t'),
        _ => None,
    }
}

#[verifier::when_used_as_spec(spec_is_digit)]
pub fn is_digit(c: char) -> (r: bool)
    ensures
        r == spec_is_digit(c),
{
    '0' <= c && c <= '9'
}

} // verus!
