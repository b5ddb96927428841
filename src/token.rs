//! The tokens of the language and the spelling of each fixed one.

use crate::span::{Span, Spanned};
use vstd::prelude::*;

verus! {

/// A key handed out by the lexer's interner: the position of the text among
/// the distinct texts interned so far.
#[derive(Clone, Copy, Debug, PartialEq, Eq, Structural, Hash)]
pub struct Key {
    pub index: usize,
}

/// A lexical unit.
#[derive(Clone, Debug, PartialEq)]
pub enum Token {
    Int(i64),
    /// A decimal literal with a fractional part, as written: digits, a dot,
    /// digits.
    Float(String),
    String(Key),
    Char(char),
    Bool(bool),
    Ident(Key),
    /// `_`
    Wildcard,
    Op(Op),
    Symbol(Symbol),
    Keyword(Keyword),
    /// Opening delimiters: `(` `[` `{`
    Open(Delim),
    /// Closing delimiters: `)` `]` `}`
    Close(Delim),
    /// `=`, or an arithmetic or concat operator followed by `=`
    /// (`+=` `-=` `*=` `/=` `%=` `..=`)
    Assign(Option<Op>),
    /// Text that no rule accepts, or a number too large for its type.
    Error(String),
    /// The number of spaces that start a line.
    Indent(usize),
}

#[derive(Clone, Copy, Debug, PartialEq, Eq, Structural, Hash)]
pub enum Op {
    Eq,
    Neq,
    Lt,
    Gt,
    Leq,
    Geq,
    Add,
    Sub,
    Mul,
    Div,
    Mod,
    And,
    Or,
    Not,
    /// `..`, the concat operator, also used for ranges
    Concat,
}

#[derive(Clone, Copy, Debug, PartialEq, Eq, Structural, Hash)]
pub enum Delim {
    Paren,
    Bracket,
    Brace,
    Angle,
}

#[derive(Clone, Copy, Debug, PartialEq, Eq, Structural, Hash)]
pub enum Symbol {
    Dot,
    Colon,
    DoubleColon,
    RArrow,
    LArrow,
    FatArrow,
    /// `?`, marks or checks optional values
    Optional,
    Pipe,
    Backslash,
    Comma,
    Bang,
}

#[derive(Clone, Copy, Debug, PartialEq, Eq, Structural, Hash)]
pub enum Keyword {
    Fn,
    Type,
    Import,
    Struct,
    /// `self`
    SelfParam,
    /// `Self`
    SelfType,
    Let,
    Match,
    With,
    As,
    If,
    Then,
    Else,
    For,
    In,
    While,
    Loop,
    Break,
    Continue,
    Return,
    Enum,
}

impl Token {
    /// The token together with the span it was read from.
    pub fn spanned(self, span: Span) -> (r: Spanned<Token>)
        ensures
            r == (self, span),
    {
        (self, span)
    }
}

impl Op {
    pub open spec fn spelling(self) -> Seq<char> {
        match self {
            Op::Eq => "=="@,
            Op::Neq => "!="@,
            Op::Lt => "<"@,
            Op::Gt => ">"@,
            Op::Leq => "<="@,
            Op::Geq => ">="@,
            Op::Add => "+"@,
            Op::Sub => "-"@,
            Op::Mul => "*"@,
            Op::Div => "/"@,
            Op::Mod => "%"@,
            Op::And => "and"@,
            Op::Or => "or"@,
            Op::Not => "not"@,
            Op::Concat => ".."@,
        }
    }

    /// How the operator is written.
    pub fn as_str(&self) -> (r: &'static str)
        ensures
            r@ == self.spelling(),
    {
        match self {
            Op::Eq => "==",
            Op::Neq => "!=",
            Op::Lt => "<",
            Op::Gt => ">",
            Op::Leq => "<=",
            Op::Geq => ">=",
            Op::Add => "+",
            Op::Sub => "-",
            Op::Mul => "*",
            Op::Div => "/",
            Op::Mod => "%",
            Op::And => "and",
            Op::Or => "or",
            Op::Not => "not",
            Op::Concat => "..",
        }
    }
}

impl Symbol {
    pub open spec fn spelling(self) -> Seq<char> {
        match self {
            Symbol::Dot => "."@,
            Symbol::Colon => ":"@,
            Symbol::DoubleColon => "::"@,
            Symbol::RArrow => "->"@,
            Symbol::LArrow => "<-"@,
            Symbol::FatArrow => "=>"@,
            Symbol::Optional => "?"@,
            Symbol::Pipe => "|"@,
            Symbol::Backslash => "\\"@,
            Symbol::Comma => ","@,
            Symbol::Bang => "!"@,
        }
    }

    /// How the symbol is written.
    pub fn as_str(&self) -> (r: &'static str)
        ensures
            r@ == self.spelling(),
    {
        match self {
            Symbol::Dot => ".",
            Symbol::Colon => ":",
            Symbol::DoubleColon => "::",
            Symbol::RArrow => "->",
            Symbol::LArrow => "<-",
            Symbol::FatArrow => "=>",
            Symbol::Optional => "?",
            Symbol::Pipe => "|",
            Symbol::Backslash => "\\",
            Symbol::Comma => ",",
            Symbol::Bang => "!",
        }
    }
}

impl Keyword {
    pub open spec fn spelling(self) -> Seq<char> {
        match self {
            Keyword::Fn => "fn"@,
            Keyword::Type => "type"@,
            Keyword::Import => "import"@,
            Keyword::Struct => "struct"@,
            Keyword::SelfParam => "self"@,
            Keyword::SelfType => "Self"@,
            Keyword::Let => "let"@,
            Keyword::Match => "match"@,
            Keyword::With => "with"@,
            Keyword::As => "as"@,
            Keyword::If => "if"@,
            Keyword::Then => "then"@,
            Keyword::Else => "else"@,
            Keyword::For => "for"@,
            Keyword::In => "in"@,
            Keyword::While => "while"@,
            Keyword::Loop => "loop"@,
            Keyword::Break => "break"@,
            Keyword::Continue => "continue"@,
            Keyword::Return => "return"@,
            Keyword::Enum => "enum"@,
        }
    }

    /// How the keyword is written.
    pub fn as_str(&self) -> (r: &'static str)
        ensures
            r@ == self.spelling(),
    {
        match self {
            Keyword::Fn => "fn",
            Keyword::Type => "type",
            Keyword::Import => "import",
            Keyword::Struct => "struct",
            Keyword::SelfParam => "self",
            Keyword::SelfType => "Self",
            Keyword::Let => "let",
            Keyword::Match => "match",
            Keyword::With => "with",
            Keyword::As => "as",
            Keyword::If => "if",
            Keyword::Then => "then",
            Keyword::Else => "else",
            Keyword::For => "for",
            Keyword::In => "in",
            Keyword::While => "while",
            Keyword::Loop => "loop",
            Keyword::Break => "break",
            Keyword::Continue => "continue",
            Keyword::Return => "return",
            Keyword::Enum => "enum",
        }
    }
}

impl Delim {
    pub open spec fn open_spelling(self) -> Seq<char> {
        match self {
            Delim::Paren => "("@,
            Delim::Bracket => "["@,
            Delim::Brace => "{"@,
            Delim::Angle => "<"@,
        }
    }

    pub open spec fn close_spelling(self) -> Seq<char> {
        match self {
            Delim::Paren => ")"@,
            Delim::Bracket => "]"@,
            Delim::Brace => "}"@,
            Delim::Angle => ">"@,
        }
    }

    /// How the opening delimiter is written.
    pub fn open_str(&self) -> (r: &'static str)
        ensures
            r@ == self.open_spelling(),
    {
        match self {
            Delim::Paren => "(",
            Delim::Bracket => "[",
            Delim::Brace => "{",
            Delim::Angle => "<",
        }
    }

    /// How the closing delimiter is written.
    pub fn close_str(&self) -> (r: &'static str)
        ensures
            r@ == self.close_spelling(),
    {
        match self {
            Delim::Paren => ")",
            Delim::Bracket => "]",
            Delim::Brace => "}",
            Delim::Angle => ">",
        }
    }
}

} // verus!
