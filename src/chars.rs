//! Character classes of the lexical grammar.

use vstd::prelude::*;

verus! {

/// Whether a non-ASCII character may start an identifier.
pub uninterp spec fn ident_start(c: char) -> bool;

/// Whether a non-ASCII character may continue an identifier.
pub uninterp spec fn ident_continue(c: char) -> bool;

pub open spec fn ascii_letter(c: char) -> bool {
    'a' <= c <= 'z' || 'A' <= c <= 'Z'
}

/// Whether `c` starts a word: an ASCII letter or `_`, or a non-ASCII
/// character with Unicode's XID_Start property.
pub open spec fn starts_word(c: char) -> bool {
    if (c as u32) < 128 {
        ascii_letter(c) || c == '_'
    } else {
        ident_start(c)
    }
}

/// Whether `c` continues a word: an ASCII letter, digit or `_`, or a
/// non-ASCII character with Unicode's XID_Continue property.
pub open spec fn continues_word(c: char) -> bool {
    if (c as u32) < 128 {
        ascii_letter(c) || ('0' <= c <= '9') || c == '_'
    } else {
        ident_continue(c)
    }
}

/// Relies on chumsky's `Char::is_ident_start` for `char`: unicode-ident's
/// `is_xid_start`, or `_`. Among ASCII characters, unicode-ident's table
/// admits the letters alone.
#[verifier::external_body]
pub(crate) fn is_ident_start(c: char) -> (r: bool)
    ensures
        (c as u32) < 128 ==> (r <==> ('a' <= c <= 'z' || 'A' <= c <= 'Z' || c == '_')),
        (c as u32) >= 128 ==> r == ident_start(c),
{
    chumsky::text::Char::is_ident_start(&c)
}

/// Relies on chumsky's `Char::is_ident_continue` for `char`: unicode-ident's
/// `is_xid_continue`. Among ASCII characters, unicode-ident's table admits
/// the letters, the digits and `_`.
#[verifier::external_body]
pub(crate) fn is_ident_continue(c: char) -> (r: bool)
    ensures
        (c as u32) < 128 ==> (r <==> ('a' <= c <= 'z' || 'A' <= c <= 'Z' || '0' <= c <= '9'
            || c == '_')),
        (c as u32) >= 128 ==> r == ident_continue(c),
{
    chumsky::text::Char::is_ident_continue(&c)
}

/// The characters with Unicode's White_Space property.
pub open spec fn whitespace(c: char) -> bool {
    let u = c as u32;
    ||| 0x09 <= u <= 0x0D
    ||| u == 0x20
    ||| u == 0x85
    ||| u == 0xA0
    ||| u == 0x1680
    ||| 0x2000 <= u <= 0x200A
    ||| u == 0x2028
    ||| u == 0x2029
    ||| u == 0x202F
    ||| u == 0x205F
    ||| u == 0x3000
}

pub fn is_whitespace(c: char) -> (r: bool)
    ensures
        r == whitespace(c),
{
    let u = c as u32;
    (0x09 <= u && u <= 0x0D) || u == 0x20 || u == 0x85 || u == 0xA0 || u == 0x1680 || (0x2000
        <= u && u <= 0x200A) || u == 0x2028 || u == 0x2029 || u == 0x202F || u == 0x205F || u
        == 0x3000
}

/// The characters that end a line.
pub open spec fn newline(c: char) -> bool {
    ||| c == '\n'
    ||| c == '\r'
    ||| c == '\x0B'
    ||| c == '\x0C'
    ||| c == '\u{85}'
    ||| c == '\u{2028}'
    ||| c == '\u{2029}'
}

pub fn is_newline(c: char) -> (r: bool)
    ensures
        r == newline(c),
{
    c == '\n' || c == '\r' || c == '\x0B' || c == '\x0C' || c == '\u{85}' || c == '\u{2028}'
        || c == '\u{2029}'
}

pub open spec fn digit(c: char) -> bool {
    '0' <= c <= '9'
}

pub fn is_digit(c: char) -> (r: bool)
    ensures
        r == digit(c),
{
    '0' <= c && c <= '9'
}

/// The character that `\` followed by `c` stands for in a string or
/// character literal.
pub open spec fn escape(c: char) -> Option<char> {
    if c == '\\' {
        Some('\\')
    } else if c == '/' {
        Some('/')
    } else if c == '"' {
        Some('"')
    } else if c == 'b' {
        Some('\x08')
    } else if c == 'r' {
        Some('\r')
    } else if c == 'n' {
        Some('\n')
    } else if c == 't' {
        Some('\t')
    } else {
        None
    }
}

pub fn unescape(c: char) -> (r: Option<char>)
    ensures
        r == escape(c),
{
    if c == '\\' {
        Some('\\')
    } else if c == '/' {
        Some('/')
    } else if c == '"' {
        Some('"')
    } else if c == 'b' {
        Some('\x08')
    } else if c == 'r' {
        Some('\r')
    } else if c == 'n' {
        Some('\n')
    } else if c == 't' {
        Some('\t')
    } else {
        None
    }
}

} // verus!
