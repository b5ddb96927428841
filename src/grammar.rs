//! The lexical grammar, stated over the characters of the source text.
//!
//! Rules are tried in a fixed order at each position where a token starts:
//! words, string literals, character literals, numbers, then symbols,
//! operators and delimiters by longest match; a character that none of them
//! accepts becomes an error token of its own. Comments and whitespace are
//! skipped, except a run of spaces that starts a line and is followed by a
//! token, which is an indentation marker.

use crate::chars::{continues_word, digit, escape, newline, starts_word, whitespace};
use crate::token::{Delim, Keyword, Op, Symbol};
use vstd::prelude::*;

verus! {

/// What a token is, with identifier and string text spelled out.
pub ghost enum Lexeme {
    Int(i64),
    Float(Seq<char>),
    Str(Seq<char>),
    Char(char),
    Ident(Seq<char>),
    Wildcard,
    Op(Op),
    Symbol(Symbol),
    Keyword(Keyword),
    Open(Delim),
    Close(Delim),
    Assign(Option<Op>),
    Error(Seq<char>),
    Indent(nat),
}

/// The character at `k`, or NUL past either end; NUL belongs to no rule.
pub open spec fn at(t: Seq<char>, k: int) -> char {
    if 0 <= k < t.len() {
        t[k]
    } else {
        '\0'
    }
}

/// The end of the run of identifier characters that starts at `i`.
pub open spec fn ident_end(t: Seq<char>, i: int) -> int
    decreases t.len() - i,
{
    if 0 <= i < t.len() && continues_word(t[i]) {
        ident_end(t, i + 1)
    } else {
        i
    }
}

/// The end of the run of decimal digits that starts at `i`.
pub open spec fn digits_end(t: Seq<char>, i: int) -> int
    decreases t.len() - i,
{
    if 0 <= i < t.len() && digit(t[i]) {
        digits_end(t, i + 1)
    } else {
        i
    }
}

/// The end of the run of spaces that starts at `i`.
pub open spec fn spaces_end(t: Seq<char>, i: int) -> int
    decreases t.len() - i,
{
    if 0 <= i < t.len() && t[i] == ' ' {
        spaces_end(t, i + 1)
    } else {
        i
    }
}

/// The position of the first line end at or after `i`, or the text's end.
pub open spec fn line_end(t: Seq<char>, i: int) -> int
    decreases t.len() - i,
{
    if 0 <= i < t.len() && !newline(t[i]) {
        line_end(t, i + 1)
    } else {
        i
    }
}

pub open spec fn keyword_of(w: Seq<char>) -> Option<Keyword> {
    if w == Keyword::Fn.spelling() {
        Some(Keyword::Fn)
    } else if w == Keyword::Type.spelling() {
        Some(Keyword::Type)
    } else if w == Keyword::Import.spelling() {
        Some(Keyword::Import)
    } else if w == Keyword::Struct.spelling() {
        Some(Keyword::Struct)
    } else if w == Keyword::Enum.spelling() {
        Some(Keyword::Enum)
    } else if w == Keyword::SelfParam.spelling() {
        Some(Keyword::SelfParam)
    } else if w == Keyword::SelfType.spelling() {
        Some(Keyword::SelfType)
    } else if w == Keyword::Let.spelling() {
        Some(Keyword::Let)
    } else if w == Keyword::Match.spelling() {
        Some(Keyword::Match)
    } else if w == Keyword::With.spelling() {
        Some(Keyword::With)
    } else if w == Keyword::As.spelling() {
        Some(Keyword::As)
    } else if w == Keyword::If.spelling() {
        Some(Keyword::If)
    } else if w == Keyword::Then.spelling() {
        Some(Keyword::Then)
    } else if w == Keyword::Else.spelling() {
        Some(Keyword::Else)
    } else if w == Keyword::For.spelling() {
        Some(Keyword::For)
    } else if w == Keyword::In.spelling() {
        Some(Keyword::In)
    } else if w == Keyword::While.spelling() {
        Some(Keyword::While)
    } else if w == Keyword::Loop.spelling() {
        Some(Keyword::Loop)
    } else if w == Keyword::Break.spelling() {
        Some(Keyword::Break)
    } else if w == Keyword::Continue.spelling() {
        Some(Keyword::Continue)
    } else if w == Keyword::Return.spelling() {
        Some(Keyword::Return)
    } else {
        None
    }
}

/// A word: a keyword, the wildcard `_`, a textual logical operator, or an
/// identifier.
pub open spec fn word_lexeme(w: Seq<char>) -> Lexeme {
    match keyword_of(w) {
        Some(k) => Lexeme::Keyword(k),
        None => if w == "_"@ {
            Lexeme::Wildcard
        } else if w == Op::And.spelling() {
            Lexeme::Op(Op::And)
        } else if w == Op::Or.spelling() {
            Lexeme::Op(Op::Or)
        } else if w == Op::Not.spelling() {
            Lexeme::Op(Op::Not)
        } else {
            Lexeme::Ident(w)
        },
    }
}

/// `s` with `prefix` put before the text of the result, if there is one.
pub open spec fn prepend(prefix: Seq<char>, r: Option<(Seq<char>, int)>) -> Option<(Seq<char>, int)> {
    match r {
        Some((s, e)) => Some((prefix + s, e)),
        None => None,
    }
}

/// The decoded text and the end of a string literal whose body starts at
/// `j`, or `None` where it is not closed or holds an unknown escape.
pub open spec fn string_body(t: Seq<char>, j: int) -> Option<(Seq<char>, int)>
    decreases t.len() - j,
{
    if j < 0 || j >= t.len() {
        None
    } else if t[j] == '"' {
        Some((Seq::empty(), j + 1))
    } else if t[j] == '\\' {
        match escape(at(t, j + 1)) {
            Some(c) => prepend(seq![c], string_body(t, j + 2)),
            None => None,
        }
    } else {
        prepend(seq![t[j]], string_body(t, j + 1))
    }
}

/// A character literal at `i`: one character other than `\` and `'`, or one
/// escape, between single quotes.
pub open spec fn char_literal(t: Seq<char>, i: int) -> Option<(Lexeme, int)> {
    if at(t, i) != '\'' {
        None
    } else if at(t, i + 1) == '\\' {
        match escape(at(t, i + 2)) {
            Some(c) => if at(t, i + 3) == '\'' {
                Some((Lexeme::Char(c), i + 4))
            } else {
                None
            },
            None => None,
        }
    } else if i + 1 < t.len() && t[i + 1] != '\'' && at(t, i + 2) == '\'' {
        Some((Lexeme::Char(t[i + 1]), i + 3))
    } else {
        None
    }
}

/// The value of a run of decimal digits.
pub open spec fn digits_value(s: Seq<char>) -> nat
    decreases s.len(),
{
    if s.len() == 0 {
        0
    } else {
        digits_value(s.drop_last()) * 10 + (s.last() as nat - '0' as nat) as nat
    }
}

/// A number at `i`, which holds a digit: a float where the digits are
/// followed by a dot and another digit, else an integer with an optional `i`
/// suffix. An integer beyond `i64` is an error token holding its digits.
pub open spec fn number(t: Seq<char>, i: int) -> (Lexeme, int) {
    let d = digits_end(t, i);
    if at(t, d) == '.' && digit(at(t, d + 1)) {
        let f = digits_end(t, d + 1);
        (Lexeme::Float(t.subrange(i, f)), f)
    } else {
        let e = if at(t, d) == 'i' {
            d + 1
        } else {
            d
        };
        let v = digits_value(t.subrange(i, d));
        if v <= i64::MAX {
            (Lexeme::Int(v as i64), e)
        } else {
            (Lexeme::Error(t.subrange(i, d)), e)
        }
    }
}

pub open spec fn arithmetic(c: char) -> Option<Op> {
    if c == '+' {
        Some(Op::Add)
    } else if c == '-' {
        Some(Op::Sub)
    } else if c == '*' {
        Some(Op::Mul)
    } else if c == '/' {
        Some(Op::Div)
    } else if c == '%' {
        Some(Op::Mod)
    } else {
        None
    }
}

/// Symbols, operators, assignments and delimiters at `i`, longest spelling
/// first.
pub open spec fn symbolic(t: Seq<char>, i: int) -> Option<(Lexeme, int)> {
    let c = at(t, i);
    let c1 = at(t, i + 1);
    if c == '.' && c1 == '.' && at(t, i + 2) == '=' {
        Some((Lexeme::Assign(Some(Op::Concat)), i + 3))
    } else if c == '.' && c1 == '.' {
        Some((Lexeme::Op(Op::Concat), i + 2))
    } else if c == ':' && c1 == ':' {
        Some((Lexeme::Symbol(Symbol::DoubleColon), i + 2))
    } else if c == '-' && c1 == '>' {
        Some((Lexeme::Symbol(Symbol::RArrow), i + 2))
    } else if c == '<' && c1 == '-' {
        Some((Lexeme::Symbol(Symbol::LArrow), i + 2))
    } else if c == '=' && c1 == '>' {
        Some((Lexeme::Symbol(Symbol::FatArrow), i + 2))
    } else if c == '=' && c1 == '=' {
        Some((Lexeme::Op(Op::Eq), i + 2))
    } else if c == '!' && c1 == '=' {
        Some((Lexeme::Op(Op::Neq), i + 2))
    } else if c == '<' && c1 == '=' {
        Some((Lexeme::Op(Op::Leq), i + 2))
    } else if c == '>' && c1 == '=' {
        Some((Lexeme::Op(Op::Geq), i + 2))
    } else if arithmetic(c) is Some && c1 == '=' {
        Some((Lexeme::Assign(arithmetic(c)), i + 2))
    } else if arithmetic(c) is Some {
        Some((Lexeme::Op(arithmetic(c)->0), i + 1))
    } else if c == '=' {
        Some((Lexeme::Assign(None), i + 1))
    } else if c == '<' {
        Some((Lexeme::Op(Op::Lt), i + 1))
    } else if c == '>' {
        Some((Lexeme::Op(Op::Gt), i + 1))
    } else if c == ':' {
        Some((Lexeme::Symbol(Symbol::Colon), i + 1))
    } else if c == '?' {
        Some((Lexeme::Symbol(Symbol::Optional), i + 1))
    } else if c == '|' {
        Some((Lexeme::Symbol(Symbol::Pipe), i + 1))
    } else if c == '\\' {
        Some((Lexeme::Symbol(Symbol::Backslash), i + 1))
    } else if c == ',' {
        Some((Lexeme::Symbol(Symbol::Comma), i + 1))
    } else if c == '.' {
        Some((Lexeme::Symbol(Symbol::Dot), i + 1))
    } else if c == '!' {
        Some((Lexeme::Symbol(Symbol::Bang), i + 1))
    } else if c == '(' {
        Some((Lexeme::Open(Delim::Paren), i + 1))
    } else if c == ')' {
        Some((Lexeme::Close(Delim::Paren), i + 1))
    } else if c == '[' {
        Some((Lexeme::Open(Delim::Bracket), i + 1))
    } else if c == ']' {
        Some((Lexeme::Close(Delim::Bracket), i + 1))
    } else if c == '{' {
        Some((Lexeme::Open(Delim::Brace), i + 1))
    } else if c == '}' {
        Some((Lexeme::Close(Delim::Brace), i + 1))
    } else {
        None
    }
}

/// The token that starts at `i`, and where it ends, given whether the
/// character there starts a word.
pub open spec fn token_at_given(t: Seq<char>, i: int, word_start: bool) -> (Lexeme, int) {
    if word_start {
        let e = ident_end(t, i + 1);
        (word_lexeme(t.subrange(i, e)), e)
    } else if at(t, i) == '"' && string_body(t, i + 1) is Some {
        let (s, e) = string_body(t, i + 1)->0;
        (Lexeme::Str(s), e)
    } else if char_literal(t, i) is Some {
        char_literal(t, i)->0
    } else if digit(at(t, i)) {
        number(t, i)
    } else if symbolic(t, i) is Some {
        symbolic(t, i)->0
    } else {
        (Lexeme::Error(seq![at(t, i)]), i + 1)
    }
}

/// The token that starts at `i`, and where it ends.
pub open spec fn token_at(t: Seq<char>, i: int) -> (Lexeme, int) {
    token_at_given(t, i, 0 <= i < t.len() && starts_word(t[i]))
}

/// Whether `i` is the first position of a line.
pub open spec fn line_start(t: Seq<char>, i: int) -> bool {
    i == 0 || newline(at(t, i - 1))
}

/// The tokens of `t` from position `i` on, each with the positions of its
/// first character and of the character after its last.
pub open spec fn lex_from(t: Seq<char>, i: int) -> Seq<(Lexeme, int, int)>
    decreases t.len() - i,
{
    if i < 0 || i >= t.len() {
        Seq::empty()
    } else if t[i] == ' ' && line_start(t, i) {
        let e = spaces_end(t, i);
        if i < e <= t.len() {
            if e < t.len() && !whitespace(t[e]) && t[e] != '#' {
                seq![(Lexeme::Indent((e - i) as nat), i, e)] + lex_from(t, e)
            } else {
                lex_from(t, e)
            }
        } else {
            Seq::empty()
        }
    } else if whitespace(t[i]) {
        lex_from(t, i + 1)
    } else if t[i] == '#' {
        let e = line_end(t, i);
        if i < e <= t.len() {
            lex_from(t, e)
        } else {
            Seq::empty()
        }
    } else {
        let (lx, e) = token_at(t, i);
        if i < e <= t.len() {
            seq![(lx, i, e)] + lex_from(t, e)
        } else {
            Seq::empty()
        }
    }
}

/// The tokens of the whole text.
pub open spec fn lex_spec(t: Seq<char>) -> Seq<(Lexeme, int, int)> {
    lex_from(t, 0)
}

/// Whether `entry` lies within `t` and its text is read from where it
/// stands: an identifier is the characters from its first position to its
/// last, and a string opens with a quote there and is the decoded body that
/// closes at its end.
pub open spec fn read_from(t: Seq<char>, entry: (Lexeme, int, int)) -> bool {
    let (lx, b, e) = entry;
    &&& 0 <= b < e <= t.len()
    &&& match lx {
        Lexeme::Ident(s) => s == t.subrange(b, e),
        Lexeme::Str(s) => t[b] == '"' && string_body(t, b + 1) == Some((s, e)),
        _ => true,
    }
}

/// The head of `token_at_given` is read from where it stands.
proof fn lemma_token_read_from(t: Seq<char>, i: int, word_start: bool)
    requires
        0 <= i < t.len(),
        i < token_at_given(t, i, word_start).1 <= t.len(),
    ensures
        read_from(t, (token_at_given(t, i, word_start).0, i, token_at_given(t, i, word_start).1)),
{
    if word_start {
    } else if at(t, i) == '"' && string_body(t, i + 1) is Some {
    } else if char_literal(t, i) is Some {
    } else if digit(at(t, i)) {
    } else if symbolic(t, i) is Some {
    } else {
    }
}

/// Every token of the text lies within it, and the text an identifier or a
/// string token carries is read from the token's own stretch of the text.
pub proof fn lemma_lexemes_read_from(t: Seq<char>, i: int, k: int)
    requires
        0 <= k < lex_from(t, i).len(),
    ensures
        read_from(t, lex_from(t, i)[k]),
    decreases t.len() - i,
{
    if i < 0 || i >= t.len() {
    } else if t[i] == ' ' && line_start(t, i) {
        let e = spaces_end(t, i);
        if i < e <= t.len() {
            if e < t.len() && !whitespace(t[e]) && t[e] != '#' {
                if k > 0 {
                    lemma_lexemes_read_from(t, e, k - 1);
                }
            } else {
                lemma_lexemes_read_from(t, e, k);
            }
        }
    } else if whitespace(t[i]) {
        lemma_lexemes_read_from(t, i + 1, k);
    } else if t[i] == '#' {
        let e = line_end(t, i);
        if i < e <= t.len() {
            lemma_lexemes_read_from(t, e, k);
        }
    } else {
        let (lx, e) = token_at(t, i);
        if i < e <= t.len() {
            if k > 0 {
                lemma_lexemes_read_from(t, e, k - 1);
            } else {
                lemma_token_read_from(t, i, 0 <= i < t.len() && starts_word(t[i]));
            }
        }
    }
}

/// A character that starts no rule becomes one error token holding that
/// character, and lexing goes on right after it: one bad character never
/// ends the pass.
pub proof fn lemma_unknown_character(t: Seq<char>, i: int)
    requires
        0 <= i < t.len(),
        !whitespace(t[i]),
        t[i] != '#',
        !starts_word(t[i]),
        t[i] != '"' || string_body(t, i + 1) is None,
        char_literal(t, i) is None,
        !digit(t[i]),
        symbolic(t, i) is None,
    ensures
        lex_from(t, i) == seq![(Lexeme::Error(seq![t[i]]), i, i + 1)] + lex_from(t, i + 1),
{
}

} // verus!
