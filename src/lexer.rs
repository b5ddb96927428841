//! The tokenizer: a single left-to-right pass over source text that turns it
//! into spanned tokens, interning identifier and string text on the way.

use crate::arena::Id;
use crate::chars::{
    digit, is_digit, is_ident_continue, is_ident_start, is_newline, is_whitespace, unescape,
};
use crate::span::{Source, Span, Spanned};
use crate::grammar::{
    arithmetic, at, char_literal, digits_end, digits_value, ident_end, keyword_of, lex_from,
    lex_spec, line_end, number, prepend, spaces_end, string_body, symbolic, token_at,
    token_at_given, word_lexeme, lemma_lexemes_read_from, read_from, Lexeme,
};
use crate::text::{byte_offset, decode, lemma_offset_monotone};
use crate::token::{Delim, Key, Keyword, Op, Symbol, Token};
use vstd::prelude::*;

verus! {

#[verifier::external_type_specification]
#[verifier::external_body]
#[verifier::reject_recursive_types(K)]
#[verifier::reject_recursive_types(S)]
pub struct ExRodeo<K, S>(lasso::Rodeo<K, S>);

#[verifier::external_type_specification]
#[verifier::external_body]
pub struct ExSpur(lasso::Spur);

/// The texts an interner holds; the key of a text is its position here.
pub uninterp spec fn interned(r: lasso::Rodeo) -> Seq<Seq<char>>;

/// Relies on lasso's `Rodeo::default`: a new interner holds no text.
#[verifier::external_body]
fn new_interner() -> (r: lasso::Rodeo)
    ensures
        interned(r) == Seq::<Seq<char>>::empty(),
{
    lasso::Rodeo::default()
}

/// Relies on lasso's `Rodeo::get_or_intern`: a text already held keeps its
/// key; a new one is appended and its key is its position. It panics only when
/// the 32-bit key space is used up, or when memory is.
#[verifier::external_body]
fn get_or_intern(rodeo: &mut lasso::Rodeo, text: &[char]) -> (r: usize)
    requires
        interned(*old(rodeo)).len() < u32::MAX,
    ensures
        interned(*old(rodeo)).contains(text@) ==> interned(*final(rodeo)) == interned(
            *old(rodeo),
        ) && r < interned(*old(rodeo)).len() && interned(*old(rodeo))[r as int] == text@,
        !interned(*old(rodeo)).contains(text@) ==> interned(*final(rodeo)) == interned(
            *old(rodeo),
        ).push(text@) && r == interned(*old(rodeo)).len(),
{
    let s: String = text.iter().collect();
    lasso::Key::into_usize(rodeo.get_or_intern(s))
}

/// Relies on lasso's `Rodeo::try_resolve`: the text at a position, if there
/// is one. The key is made from the position by `Spur::try_from_usize`, which
/// refuses positions from `u32::MAX` on; no interner holds that many texts.
#[verifier::external_body]
fn try_resolve(rodeo: &lasso::Rodeo, index: usize) -> (r: Option<&str>)
    ensures
        match r {
            Some(s) => index < interned(*rodeo).len() && s@ == interned(*rodeo)[index as int],
            None => index >= interned(*rodeo).len(),
        },
{
    match <lasso::Spur as lasso::Key>::try_from_usize(index) {
        Some(key) => rodeo.try_resolve(&key),
        None => None,
    }
}

/// Relies on lasso's `Rodeo::len`: the number of interned texts.
#[verifier::external_body]
fn interned_count(rodeo: &lasso::Rodeo) -> (r: usize)
    ensures
        r == interned(*rodeo).len(),
{
    rodeo.len()
}

/// The mutable context of a lexing session: the interner that turns
/// identifier and string text into small copyable keys. Keys are
/// deduplicated by equality of text, case-sensitive, and are valid for the
/// lifetime of the state that made them.
pub struct LexerState {
    interner: lasso::Rodeo,
}

impl View for LexerState {
    type V = Seq<Seq<char>>;

    /// The interned texts; a key's index is its text's position here.
    closed spec fn view(&self) -> Seq<Seq<char>> {
        interned(self.interner)
    }
}

impl LexerState {
    pub fn new() -> (r: Self)
        ensures
            r@ == Seq::<Seq<char>>::empty(),
            r@.no_duplicates(),
    {
        LexerState { interner: new_interner() }
    }

    /// The number of distinct texts interned so far.
    pub fn len(&self) -> (r: usize)
        ensures
            r == self@.len(),
    {
        interned_count(&self.interner)
    }

    /// The text that `key` stands for, if this state made the key.
    pub fn resolve(&self, key: Key) -> (r: Option<&str>)
        ensures
            match r {
                Some(s) => key.index < self@.len() && s@ == self@[key.index as int],
                None => key.index >= self@.len(),
            },
    {
        try_resolve(&self.interner, key.index)
    }

    /// The key of `text`, interning it if it is new.
    fn intern(&mut self, text: &[char]) -> (r: Key)
        requires
            old(self)@.len() < u32::MAX,
            old(self)@.no_duplicates(),
        ensures
            final(self)@ == intern_spec(old(self)@, text@),
            final(self)@.no_duplicates(),
            r.index < final(self)@.len(),
            final(self)@[r.index as int] == text@,
    {
        let ghost before = self@;
        let index = get_or_intern(&mut self.interner, text);
        proof {
            if !before.contains(text@) {
                assert forall|i: int, j: int|
                    0 <= i < self@.len() && 0 <= j < self@.len() && i != j implies self@[i]
                    != self@[j] by {
                    if i == before.len() as int {
                        assert(before[j] == self@[j]);
                    } else if j == before.len() as int {
                        assert(before[i] == self@[i]);
                    }
                }
            }
        }
        Key { index }
    }
}

/// The interned texts after interning `s`.
pub open spec fn intern_spec(strs: Seq<Seq<char>>, s: Seq<char>) -> Seq<Seq<char>> {
    if strs.contains(s) {
        strs
    } else {
        strs.push(s)
    }
}

/// Whether `tok` is the token that `lx` describes, given the interned texts
/// `strs`: an identifier or string token holds the key of its text.
pub open spec fn denotes(tok: Token, lx: Lexeme, strs: Seq<Seq<char>>) -> bool {
    match (tok, lx) {
        (Token::Int(a), Lexeme::Int(b)) => a == b,
        (Token::Float(a), Lexeme::Float(b)) => a@ == b,
        (Token::String(k), Lexeme::Str(b)) => k.index < strs.len() && strs[k.index as int] == b,
        (Token::Char(a), Lexeme::Char(b)) => a == b,
        (Token::Ident(k), Lexeme::Ident(b)) => k.index < strs.len() && strs[k.index as int] == b,
        (Token::Wildcard, Lexeme::Wildcard) => true,
        (Token::Op(a), Lexeme::Op(b)) => a == b,
        (Token::Symbol(a), Lexeme::Symbol(b)) => a == b,
        (Token::Keyword(a), Lexeme::Keyword(b)) => a == b,
        (Token::Open(a), Lexeme::Open(b)) => a == b,
        (Token::Close(a), Lexeme::Close(b)) => a == b,
        (Token::Assign(a), Lexeme::Assign(b)) => a == b,
        (Token::Error(a), Lexeme::Error(b)) => a@ == b,
        (Token::Indent(a), Lexeme::Indent(b)) => a == b,
        _ => false,
    }
}

/// A token keeps what it denotes when more texts are interned.
pub proof fn lemma_denotes_grow(tok: Token, lx: Lexeme, strs: Seq<Seq<char>>, more: Seq<Seq<char>>)
    requires
        denotes(tok, lx, strs),
        strs.is_prefix_of(more),
    ensures
        denotes(tok, lx, more),
{
}

/// Every identifier or string token that denotes a text holds a key whose
/// interned text is that text, so [`LexerState::resolve`] gives it back.
pub proof fn lemma_interning_round_trip(tok: Token, lx: Lexeme, strs: Seq<Seq<char>>)
    requires
        denotes(tok, lx, strs),
    ensures
        match lx {
            Lexeme::Ident(s) => match tok {
                Token::Ident(k) => k.index < strs.len() && strs[k.index as int] == s,
                _ => false,
            },
            Lexeme::Str(s) => match tok {
                Token::String(k) => k.index < strs.len() && strs[k.index as int] == s,
                _ => false,
            },
            _ => true,
        },
{
}

/// The interned texts are distinct, so equal texts have equal keys: an
/// identifier or string met twice, in one pass or in later passes over the
/// same state, gets the same key both times, and different texts get
/// different keys.
pub proof fn lemma_equal_texts_equal_keys(strs: Seq<Seq<char>>, k1: Key, k2: Key)
    requires
        strs.no_duplicates(),
        k1.index < strs.len(),
        k2.index < strs.len(),
    ensures
        (strs[k1.index as int] == strs[k2.index as int]) == (k1 == k2),
{
}

/// Relies on std's `FromIterator<&char>` for `String`: the characters in
/// order.
#[verifier::external_body]
fn string_from(chars: &[char]) -> (r: String)
    ensures
        r@ == chars@,
{
    chars.iter().collect()
}

/// The end of the run of identifier characters that starts at `i`.
fn scan_ident(t: &[char], i: usize) -> (e: usize)
    requires
        i <= t@.len(),
    ensures
        e == ident_end(t@, i as int),
        i <= e <= t@.len(),
{
    let mut j = i;
    while j < t.len() && is_ident_continue(t[j])
        invariant
            i <= j <= t@.len(),
            ident_end(t@, i as int) == ident_end(t@, j as int),
        decreases t@.len() - j,
    {
        j = j + 1;
    }
    j
}

/// The end of the run of decimal digits that starts at `i`.
fn scan_digits(t: &[char], i: usize) -> (e: usize)
    requires
        i <= t@.len(),
    ensures
        e == digits_end(t@, i as int),
        i <= e <= t@.len(),
        forall|m: int| i <= m < e ==> digit(#[trigger] t@[m]),
{
    let mut j = i;
    while j < t.len() && is_digit(t[j])
        invariant
            i <= j <= t@.len(),
            digits_end(t@, i as int) == digits_end(t@, j as int),
            forall|m: int| i <= m < j ==> digit(#[trigger] t@[m]),
        decreases t@.len() - j,
    {
        j = j + 1;
    }
    j
}

/// The end of the run of spaces that starts at `i`.
fn scan_spaces(t: &[char], i: usize) -> (e: usize)
    requires
        i <= t@.len(),
    ensures
        e == spaces_end(t@, i as int),
        i <= e <= t@.len(),
{
    let mut j = i;
    while j < t.len() && t[j] == ' '
        invariant
            i <= j <= t@.len(),
            spaces_end(t@, i as int) == spaces_end(t@, j as int),
        decreases t@.len() - j,
    {
        j = j + 1;
    }
    j
}

/// The first line end at or after `i`, or the end of the text.
fn scan_line(t: &[char], i: usize) -> (e: usize)
    requires
        i <= t@.len(),
    ensures
        e == line_end(t@, i as int),
        i <= e <= t@.len(),
{
    let mut j = i;
    while j < t.len() && !is_newline(t[j])
        invariant
            i <= j <= t@.len(),
            line_end(t@, i as int) == line_end(t@, j as int),
        decreases t@.len() - j,
    {
        j = j + 1;
    }
    j
}

/// The character at `k`, or NUL past the end.
fn char_at(t: &[char], k: usize) -> (c: char)
    ensures
        c == at(t@, k as int),
{
    if k < t.len() {
        t[k]
    } else {
        '\0'
    }
}

/// Whether the characters from `i` to `e` spell `w`.
fn spells(t: &[char], i: usize, e: usize, w: &str) -> (r: bool)
    requires
        i <= e <= t@.len(),
    ensures
        r == (t@.subrange(i as int, e as int) == w@),
{
    let n = w.unicode_len();
    if e - i != n {
        return false;
    }
    let mut k: usize = 0;
    while k < n
        invariant
            i <= e <= t@.len(),
            e - i == n == w@.len(),
            k <= n,
            forall|m: int| 0 <= m < k ==> t@[i + m] == w@[m],
        decreases n - k,
    {
        if t[i + k] != w.get_char(k) {
            proof {
                assert(t@.subrange(i as int, e as int)[k as int] != w@[k as int]);
            }
            return false;
        }
        k = k + 1;
    }
    proof {
        assert(t@.subrange(i as int, e as int) =~= w@);
    }
    true
}

/// The keyword spelled by the characters from `i` to `e`, if any.
fn keyword(t: &[char], i: usize, e: usize) -> (r: Option<Keyword>)
    requires
        i <= e <= t@.len(),
    ensures
        r == keyword_of(t@.subrange(i as int, e as int)),
{
    if spells(t, i, e, Keyword::Fn.as_str()) {
        Some(Keyword::Fn)
    } else if spells(t, i, e, Keyword::Type.as_str()) {
        Some(Keyword::Type)
    } else if spells(t, i, e, Keyword::Import.as_str()) {
        Some(Keyword::Import)
    } else if spells(t, i, e, Keyword::Struct.as_str()) {
        Some(Keyword::Struct)
    } else if spells(t, i, e, Keyword::Enum.as_str()) {
        Some(Keyword::Enum)
    } else if spells(t, i, e, Keyword::SelfParam.as_str()) {
        Some(Keyword::SelfParam)
    } else if spells(t, i, e, Keyword::SelfType.as_str()) {
        Some(Keyword::SelfType)
    } else if spells(t, i, e, Keyword::Let.as_str()) {
        Some(Keyword::Let)
    } else if spells(t, i, e, Keyword::Match.as_str()) {
        Some(Keyword::Match)
    } else if spells(t, i, e, Keyword::With.as_str()) {
        Some(Keyword::With)
    } else if spells(t, i, e, Keyword::As.as_str()) {
        Some(Keyword::As)
    } else if spells(t, i, e, Keyword::If.as_str()) {
        Some(Keyword::If)
    } else if spells(t, i, e, Keyword::Then.as_str()) {
        Some(Keyword::Then)
    } else if spells(t, i, e, Keyword::Else.as_str()) {
        Some(Keyword::Else)
    } else if spells(t, i, e, Keyword::For.as_str()) {
        Some(Keyword::For)
    } else if spells(t, i, e, Keyword::In.as_str()) {
        Some(Keyword::In)
    } else if spells(t, i, e, Keyword::While.as_str()) {
        Some(Keyword::While)
    } else if spells(t, i, e, Keyword::Loop.as_str()) {
        Some(Keyword::Loop)
    } else if spells(t, i, e, Keyword::Break.as_str()) {
        Some(Keyword::Break)
    } else if spells(t, i, e, Keyword::Continue.as_str()) {
        Some(Keyword::Continue)
    } else if spells(t, i, e, Keyword::Return.as_str()) {
        Some(Keyword::Return)
    } else {
        None
    }
}

/// The interned texts grew by at most one, keeping those held before.
pub open spec fn grows_by_one(before: Seq<Seq<char>>, after: Seq<Seq<char>>) -> bool {
    before.is_prefix_of(after) && after.len() <= before.len() + 1
}

/// Classifies a word, a run of identifier characters: a keyword, the
/// wildcard, a textual logical operator, or else an identifier whose text is
/// interned in `state`.
pub fn word(w: &[char], state: &mut LexerState) -> (r: Token)
    requires
        old(state)@.len() < u32::MAX,
        old(state)@.no_duplicates(),
    ensures
        denotes(r, word_lexeme(w@), final(state)@),
        grows_by_one(old(state)@, final(state)@),
        final(state)@.no_duplicates(),
{
    let n = w.len();
    proof {
        assert(w@.subrange(0, n as int) =~= w@);
    }
    match keyword(w, 0, n) {
        Some(k) => Token::Keyword(k),
        None => if spells(w, 0, n, "_") {
            Token::Wildcard
        } else if spells(w, 0, n, Op::And.as_str()) {
            Token::Op(Op::And)
        } else if spells(w, 0, n, Op::Or.as_str()) {
            Token::Op(Op::Or)
        } else if spells(w, 0, n, Op::Not.as_str()) {
            Token::Op(Op::Not)
        } else {
            Token::Ident(state.intern(w))
        },
    }
}

proof fn lemma_prepend_push(acc: Seq<char>, c: char, rest: Option<(Seq<char>, int)>)
    ensures
        prepend(acc, prepend(seq![c], rest)) == prepend(acc.push(c), rest),
{
    match rest {
        Some((s, e)) => {
            assert(acc + (seq![c] + s) =~= acc.push(c) + s);
        },
        None => {},
    }
}

/// The decoded text and end of a string literal whose body starts at `j0`.
fn scan_string(t: &[char], j0: usize) -> (r: Option<(Vec<char>, usize)>)
    requires
        j0 <= t@.len(),
    ensures
        match r {
            Some((s, e)) => string_body(t@, j0 as int) == Some((s@, e as int)) && j0 < e <= t@.len(),
            None => string_body(t@, j0 as int) is None,
        },
{
    let mut acc: Vec<char> = Vec::new();
    let mut j = j0;
    proof {
        assert(prepend(acc@, string_body(t@, j as int)) == string_body(t@, j as int)) by {
            match string_body(t@, j as int) {
                Some((s, e)) => {
                    assert(acc@ + s =~= s);
                },
                None => {},
            }
        }
    }
    loop
        invariant
            j0 <= j <= t@.len(),
            string_body(t@, j0 as int) == prepend(acc@, string_body(t@, j as int)),
        decreases t@.len() - j,
    {
        if j >= t.len() {
            return None;
        }
        let c = t[j];
        if c == '"' {
            proof {
                assert(acc@ + Seq::<char>::empty() =~= acc@);
            }
            return Some((acc, j + 1));
        }
        if c == '\\' {
            match unescape(char_at(t, j + 1)) {
                Some(d) => {
                    proof {
                        lemma_prepend_push(acc@, d, string_body(t@, j + 2));
                    }
                    acc.push(d);
                    j = j + 2;
                },
                None => {
                    return None;
                },
            }
        } else {
            proof {
                lemma_prepend_push(acc@, c, string_body(t@, j + 1));
            }
            acc.push(c);
            j = j + 1;
        }
    }
}

/// A character literal at `i`.
fn scan_char(t: &[char], i: usize) -> (r: Option<(char, usize)>)
    requires
        i < t@.len() < usize::MAX,
    ensures
        match r {
            Some((c, e)) => char_literal(t@, i as int) == Some((Lexeme::Char(c), e as int)) && i
                < e <= t@.len(),
            None => char_literal(t@, i as int) is None,
        },
{
    if t[i] != '\'' {
        return None;
    }
    let c1 = char_at(t, i + 1);
    if c1 == '\\' {
        match unescape(char_at(t, i + 2)) {
            Some(c) => if char_at(t, i + 3) == '\'' {
                Some((c, i + 4))
            } else {
                None
            },
            None => None,
        }
    } else if i + 1 < t.len() && c1 != '\'' && char_at(t, i + 2) == '\'' {
        Some((c1, i + 3))
    } else {
        None
    }
}

/// A number at `i`: a float, an integer, or an integer too large for `i64`.
fn scan_number(t: &[char], i: usize) -> (r: (Token, usize))
    requires
        i < t@.len() < usize::MAX,
        digit(t@[i as int]),
    ensures
        r.1 == number(t@, i as int).1,
        i < r.1 <= t@.len(),
        forall|strs: Seq<Seq<char>>| #[trigger] denotes(r.0, number(t@, i as int).0, strs),
{
    let d = scan_digits(t, i + 1);
    if char_at(t, d) == '.' && is_digit(char_at(t, d + 1)) {
        let f = scan_digits(t, d + 1);
        return (Token::Float(string_from(vstd::slice::slice_subrange(t, i, f))), f);
    }
    let e = if char_at(t, d) == 'i' {
        d + 1
    } else {
        d
    };
    let mut v: i64 = 0;
    let mut over = false;
    let mut k = i;
    proof {
        assert(t@.subrange(i as int, i as int) =~= Seq::<char>::empty());
    }
    while k < d
        invariant
            i <= k <= d <= t@.len(),
            forall|m: int| i <= m < d ==> digit(#[trigger] t@[m]),
            !over ==> v == digits_value(t@.subrange(i as int, k as int)),
            over ==> digits_value(t@.subrange(i as int, k as int)) > i64::MAX,
        decreases d - k,
    {
        let ghost before = digits_value(t@.subrange(i as int, k as int));
        let dig = (t[k] as u32 - 48) as i64;
        proof {
            let next = t@.subrange(i as int, k + 1);
            assert(next.drop_last() =~= t@.subrange(i as int, k as int));
            assert(digit(t@[k as int]));
            assert(digits_value(next) == before * 10 + dig);
        }
        if !over {
            if v > (i64::MAX - dig) / 10 {
                proof {
                    assert(before * 10 + dig > i64::MAX) by (nonlinear_arith)
                        requires
                            before == v,
                            v > (i64::MAX - dig) / 10,
                            0 <= dig <= 9,
                    ;
                }
                over = true;
            } else {
                proof {
                    assert(v * 10 + dig <= i64::MAX) by (nonlinear_arith)
                        requires
                            0 <= v <= (i64::MAX - dig) / 10,
                            0 <= dig <= 9,
                    ;
                }
                v = v * 10 + dig;
            }
        } else {
            proof {
                assert(before * 10 + dig > i64::MAX) by (nonlinear_arith)
                    requires
                        before > i64::MAX,
                        0 <= dig,
                ;
            }
        }
        k = k + 1;
    }
    if over {
        (Token::Error(string_from(vstd::slice::slice_subrange(t, i, d))), e)
    } else {
        (Token::Int(v), e)
    }
}

fn arithmetic_op(c: char) -> (r: Option<Op>)
    ensures
        r == arithmetic(c),
{
    if c == '+' {
        Some(Op::Add)
    } else if c == '-' {
        Some(Op::Sub)
    } else if c == '*' {
        Some(Op::Mul)
    } else if c == '/' {
        Some(Op::Div)
    } else if c == '%' {
        Some(Op::Mod)
    } else {
        None
    }
}

/// A symbol, operator, assignment or delimiter at `i`, longest spelling
/// first.
fn scan_symbolic(t: &[char], i: usize) -> (r: Option<(Token, usize)>)
    requires
        i < t@.len() < usize::MAX,
    ensures
        match r {
            Some((tok, e)) => match symbolic(t@, i as int) {
                Some((lx, end)) => e == end && i < e <= t@.len() && forall|strs: Seq<Seq<char>>|
                    #[trigger] denotes(tok, lx, strs),
                None => false,
            },
            None => symbolic(t@, i as int) is None,
        },
{
    let c = t[i];
    let c1 = char_at(t, i + 1);
    let arith = arithmetic_op(c);
    let (tok, n): (Token, usize) = if c == '.' && c1 == '.' && char_at(t, i + 2) == '=' {
        (Token::Assign(Some(Op::Concat)), 3)
    } else if c == '.' && c1 == '.' {
        (Token::Op(Op::Concat), 2)
    } else if c == ':' && c1 == ':' {
        (Token::Symbol(Symbol::DoubleColon), 2)
    } else if c == '-' && c1 == '>' {
        (Token::Symbol(Symbol::RArrow), 2)
    } else if c == '<' && c1 == '-' {
        (Token::Symbol(Symbol::LArrow), 2)
    } else if c == '=' && c1 == '>' {
        (Token::Symbol(Symbol::FatArrow), 2)
    } else if c == '=' && c1 == '=' {
        (Token::Op(Op::Eq), 2)
    } else if c == '!' && c1 == '=' {
        (Token::Op(Op::Neq), 2)
    } else if c == '<' && c1 == '=' {
        (Token::Op(Op::Leq), 2)
    } else if c == '>' && c1 == '=' {
        (Token::Op(Op::Geq), 2)
    } else if arith.is_some() && c1 == '=' {
        (Token::Assign(arith), 2)
    } else if let Some(op) = arith {
        (Token::Op(op), 1)
    } else if c == '=' {
        (Token::Assign(None), 1)
    } else if c == '<' {
        (Token::Op(Op::Lt), 1)
    } else if c == '>' {
        (Token::Op(Op::Gt), 1)
    } else if c == ':' {
        (Token::Symbol(Symbol::Colon), 1)
    } else if c == '?' {
        (Token::Symbol(Symbol::Optional), 1)
    } else if c == '|' {
        (Token::Symbol(Symbol::Pipe), 1)
    } else if c == '\\' {
        (Token::Symbol(Symbol::Backslash), 1)
    } else if c == ',' {
        (Token::Symbol(Symbol::Comma), 1)
    } else if c == '.' {
        (Token::Symbol(Symbol::Dot), 1)
    } else if c == '!' {
        (Token::Symbol(Symbol::Bang), 1)
    } else if c == '(' {
        (Token::Open(Delim::Paren), 1)
    } else if c == ')' {
        (Token::Close(Delim::Paren), 1)
    } else if c == '[' {
        (Token::Open(Delim::Bracket), 1)
    } else if c == ']' {
        (Token::Close(Delim::Bracket), 1)
    } else if c == '{' {
        (Token::Open(Delim::Brace), 1)
    } else if c == '}' {
        (Token::Close(Delim::Brace), 1)
    } else {
        return None;
    };
    Some((tok, i + n))
}

/// Lexes the token that starts at `i`, given whether the character there
/// starts a word: the first rule that accepts the text decides, in the order
/// words, string literals, character literals, numbers, symbols; a character
/// that no rule accepts is an error token. Identifier and string text is
/// interned in `state`.
pub fn token_given(t: &[char], i: usize, word_start: bool, state: &mut LexerState) -> (r: (
    Token,
    usize,
))
    requires
        i < t@.len() < usize::MAX,
        old(state)@.len() < u32::MAX,
        old(state)@.no_duplicates(),
    ensures
        r.1 == token_at_given(t@, i as int, word_start).1,
        i < r.1 <= t@.len(),
        denotes(r.0, token_at_given(t@, i as int, word_start).0, final(state)@),
        grows_by_one(old(state)@, final(state)@),
        final(state)@.no_duplicates(),
{
    let c = t[i];
    if word_start {
        let e = scan_ident(t, i + 1);
        return (word(vstd::slice::slice_subrange(t, i, e), state), e);
    }
    if c == '"' {
        if let Some((text, e)) = scan_string(t, i + 1) {
            let key = state.intern(text.as_slice());
            return (Token::String(key), e);
        }
    }
    if let Some((ch, e)) = scan_char(t, i) {
        return (Token::Char(ch), e);
    }
    if is_digit(c) {
        let r = scan_number(t, i);
        proof {
            assert(denotes(r.0, number(t@, i as int).0, state@));
        }
        return r;
    }
    if let Some((tok, e)) = scan_symbolic(t, i) {
        proof {
            let (lx, end) = symbolic(t@, i as int)->0;
            assert(denotes(tok, lx, state@));
        }
        return (tok, e);
    }
    let text = vstd::slice::slice_subrange(t, i, i + 1);
    proof {
        assert(text@ =~= seq![at(t@, i as int)]);
    }
    (Token::Error(string_from(text)), i + 1)
}

/// Lexes the token that starts at `i`, as [`token_given`] does, with the
/// word test made on the character there.
pub fn token(t: &[char], i: usize, state: &mut LexerState) -> (r: (Token, usize))
    requires
        i < t@.len() < usize::MAX,
        old(state)@.len() < u32::MAX,
        old(state)@.no_duplicates(),
    ensures
        r.1 == token_at(t@, i as int).1,
        i < r.1 <= t@.len(),
        denotes(r.0, token_at(t@, i as int).0, final(state)@),
        grows_by_one(old(state)@, final(state)@),
        final(state)@.no_duplicates(),
{
    let word_start = is_ident_start(t[i]);
    token_given(t, i, word_start, state)
}

/// Whether the spanned token `tok` is the grammar's `entry` of `text`: it
/// denotes the entry's lexeme, and its span holds the byte offsets of the
/// entry's first character and of the character after its last.
pub open spec fn spanned_as(
    tok: Spanned<Token>,
    entry: (Lexeme, int, int),
    text: Seq<char>,
    source: Id<Source>,
    strs: Seq<Seq<char>>,
) -> bool {
    &&& denotes(tok.0, entry.0, strs)
    &&& tok.1.spec_start() == byte_offset(text, entry.1)
    &&& tok.1.spec_end() == byte_offset(text, entry.2)
    &&& tok.1.spec_source() == source
}

/// Tokenizes `text`, read from `source`, in one pass. Malformed input never
/// stops the pass: what no rule accepts becomes an error token and lexing goes
/// on after it. Identifier and string text is interned in `state`, which keeps
/// what it held before.
pub fn lexer(text: &str, source: Id<Source>, state: &mut LexerState) -> (r: Vec<Spanned<Token>>)
    requires
        old(state)@.len() + text@.len() < u32::MAX,
        old(state)@.no_duplicates(),
    ensures
        r@.len() == lex_spec(text@).len(),
        forall|k: int|
            0 <= k < r@.len() ==> spanned_as(
                #[trigger] r@[k],
                lex_spec(text@)[k],
                text@,
                source,
                final(state)@,
            ),
        forall|k: int|
            0 <= k < r@.len() ==> (#[trigger] r@[k]).1.spec_start() <= r@[k].1.spec_end()
                <= text.len(),
        forall|k: int| 0 <= k < r@.len() ==> read_from(text@, #[trigger] lex_spec(text@)[k]),
        old(state)@.is_prefix_of(final(state)@),
        final(state)@.no_duplicates(),
{
    let (t, offsets) = decode(text);
    let n = t.len();
    assert(offsets@.len() == n + 1);
    let ghost before = state@;
    let ghost mut done: Seq<(Lexeme, int, int)> = Seq::empty();
    let mut out: Vec<Spanned<Token>> = Vec::new();
    let mut i: usize = 0;
    proof {
        assert(done + lex_from(t@, 0) =~= lex_spec(t@));
        assert(before.is_prefix_of(state@)) by {
            assert(before =~= state@.subrange(0, before.len() as int));
        }
    }
    while i < n
        invariant
            t@ == text@,
            n == t@.len(),
            offsets@.len() == n + 1 <= usize::MAX,
            forall|k: int| 0 <= k <= n ==> #[trigger] offsets@[k] == byte_offset(text@, k),
            0 <= i <= n,
            lex_spec(t@) == done + lex_from(t@, i as int),
            out@.len() == done.len(),
            forall|k: int|
                0 <= k < out@.len() ==> spanned_as(#[trigger] out@[k], done[k], text@, source, state@),
            forall|k: int| 0 <= k < done.len() ==> 0 <= (#[trigger] done[k]).1 <= done[k].2 <= i,
            before.is_prefix_of(state@),
            state@.len() <= before.len() + i,
            before.len() + text@.len() < u32::MAX,
            state@.no_duplicates(),
        decreases n - i,
    {
        let c = t[i];
        if c == ' ' && (i == 0 || is_newline(t[i - 1])) {
            let e = scan_spaces(t.as_slice(), i + 1);
            if e < n && !is_whitespace(t[e]) && t[e] != '#' {
                proof {
                    lemma_offset_monotone(text@, i as int, e as int);
                }
                let span = Span::new(offsets[i], offsets[e], source);
                out.push((Token::Indent(e - i), span));
                proof {
                    done = done.push((Lexeme::Indent((e - i) as nat), i as int, e as int));
                    assert(seq![(Lexeme::Indent((e - i) as nat), i as int, e as int)] + lex_from(
                        t@,
                        e as int,
                    ) == lex_from(t@, i as int));
                    assert(lex_spec(t@) =~= done + lex_from(t@, e as int));
                }
            }
            i = e;
        } else if is_whitespace(c) {
            i = i + 1;
        } else if c == '#' {
            i = scan_line(t.as_slice(), i + 1);
        } else {
            let ghost mid = state@;
            let (tok, e) = token(t.as_slice(), i, state);
            proof {
                lemma_offset_monotone(text@, i as int, e as int);
            }
            let span = Span::new(offsets[i], offsets[e], source);
            out.push((tok, span));
            proof {
                let lx = token_at(t@, i as int).0;
                assert(before.is_prefix_of(state@)) by {
                    assert(before =~= state@.subrange(0, before.len() as int)) by {
                        assert(mid =~= state@.subrange(0, mid.len() as int));
                        assert(before =~= mid.subrange(0, before.len() as int));
                    }
                }
                assert forall|k: int| 0 <= k < done.len() implies spanned_as(
                    #[trigger] out@[k],
                    done[k],
                    text@,
                    source,
                    state@,
                ) by {
                    lemma_denotes_grow(out@[k].0, done[k].0, mid, state@);
                }
                done = done.push((lx, i as int, e as int));
                assert(lex_spec(t@) =~= done + lex_from(t@, e as int));
            }
            i = e;
        }
    }
    proof {
        assert(done =~= lex_spec(t@));
        assert forall|k: int| 0 <= k < out@.len() implies read_from(
            text@,
            #[trigger] lex_spec(text@)[k],
        ) by {
            lemma_lexemes_read_from(text@, 0, k);
        }
        assert(text@.take(n as int) =~= text@);
        assert(offsets@[n as int] == byte_offset(text@, n as int));
        assert(byte_offset(text@, n as int) <= usize::MAX);
        assert forall|k: int| 0 <= k < out@.len() implies (#[trigger] out@[k]).1.spec_start()
            <= out@[k].1.spec_end() <= text.len() by {
            lemma_offset_monotone(text@, done[k].1, done[k].2);
        }
    }
    out
}

/// A lexical error: the text that no rule accepted, or the digits of an
/// integer too large for its type, and where it stands.
#[derive(Clone, PartialEq)]
pub struct LexError {
    pub text: String,
    pub span: Span,
}

/// The error tokens among `toks`, in order, with their text and span.
pub open spec fn errors_of(toks: Seq<Spanned<Token>>) -> Seq<(Seq<char>, Span)>
    decreases toks.len(),
{
    if toks.len() == 0 {
        Seq::empty()
    } else {
        let rest = errors_of(toks.drop_last());
        match toks.last().0 {
            Token::Error(m) => rest.push((m@, toks.last().1)),
            _ => rest,
        }
    }
}

/// The errors recorded in a token sequence, in order.
pub fn errors(tokens: &Vec<Spanned<Token>>) -> (r: Vec<LexError>)
    ensures
        r@.len() == errors_of(tokens@).len(),
        forall|k: int|
            0 <= k < r@.len() ==> (#[trigger] r@[k]).text@ == errors_of(tokens@)[k].0 && r@[k].span
                == errors_of(tokens@)[k].1,
{
    let mut out: Vec<LexError> = Vec::new();
    let mut i: usize = 0;
    while i < tokens.len()
        invariant
            i <= tokens@.len(),
            out@.len() == errors_of(tokens@.take(i as int)).len(),
            forall|k: int|
                0 <= k < out@.len() ==> (#[trigger] out@[k]).text@ == errors_of(
                    tokens@.take(i as int),
                )[k].0 && out@[k].span == errors_of(tokens@.take(i as int))[k].1,
        decreases tokens@.len() - i,
    {
        proof {
            assert(tokens@.take(i + 1).drop_last() =~= tokens@.take(i as int));
        }
        match &tokens[i].0 {
            Token::Error(m) => {
                out.push(LexError { text: m.clone(), span: tokens[i].1 });
            },
            _ => {},
        }
        i = i + 1;
    }
    proof {
        assert(tokens@.take(i as int) =~= tokens@);
    }
    out
}

/// Tokenizes `text` as [`lexer`] does, and collects the errors met on the
/// way, so that one pass reports every problem.
pub fn lex(text: &str, source: Id<Source>, state: &mut LexerState) -> (r: (
    Vec<Spanned<Token>>,
    Vec<LexError>,
))
    requires
        old(state)@.len() + text@.len() < u32::MAX,
        old(state)@.no_duplicates(),
    ensures
        r.0@.len() == lex_spec(text@).len(),
        forall|k: int|
            0 <= k < r.0@.len() ==> spanned_as(
                #[trigger] r.0@[k],
                lex_spec(text@)[k],
                text@,
                source,
                final(state)@,
            ),
        forall|k: int|
            0 <= k < r.0@.len() ==> (#[trigger] r.0@[k]).1.spec_start() <= r.0@[k].1.spec_end()
                <= text.len(),
        forall|k: int| 0 <= k < r.0@.len() ==> read_from(text@, #[trigger] lex_spec(text@)[k]),
        old(state)@.is_prefix_of(final(state)@),
        final(state)@.no_duplicates(),
        r.1@.len() == errors_of(r.0@).len(),
        forall|k: int|
            0 <= k < r.1@.len() ==> (#[trigger] r.1@[k]).text@ == errors_of(r.0@)[k].0
                && r.1@[k].span == errors_of(r.0@)[k].1,
{
    let tokens = lexer(text, source, state);
    let errs = errors(&tokens);
    (tokens, errs)
}

} // verus!
