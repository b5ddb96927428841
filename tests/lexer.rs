use luna_front::arena::Id;
use luna_front::lexer::{errors, lex, lexer, token, token_given, word, LexerState};
use luna_front::span::{FileCache, Source, Spanned};
use luna_front::token::{Delim, Keyword, Op, Symbol, Token};

fn run(text: &str, state: &mut LexerState) -> Vec<Spanned<Token>> {
    lexer(text, Id::<Source>::default(), state)
}

fn kinds(text: &str) -> Vec<Token> {
    let mut state = LexerState::new();
    run(text, &mut state).into_iter().map(|(t, _)| t).collect()
}

fn ident_text(tok: &Token, state: &LexerState) -> String {
    match tok {
        Token::Ident(k) => state.resolve(*k).unwrap().to_string(),
        other => panic!("not an identifier: {other:?}"),
    }
}

fn string_text(tok: &Token, state: &LexerState) -> String {
    match tok {
        Token::String(k) => state.resolve(*k).unwrap().to_string(),
        other => panic!("not a string: {other:?}"),
    }
}

#[test]
fn t() {
    let mut sources = FileCache::new();
    let program = "import std\n\nfn main()\n    let x = 1\n    x += 2.5\n";
    let source = sources
        .resolve("test.luna", || Ok::<String, String>(program.to_string()))
        .unwrap();
    let mut state = LexerState::new();
    let code = sources.get(source).text().to_string();
    let (tokens, errs) = lex(&code, source, &mut state);
    for e in errs.iter() {
        println!("{} at {}..{}", e.text, e.span.start(), e.span.end());
    }
    println!("{:#?}", tokens.iter().map(|(t, _)| t).collect::<Vec<_>>());
    assert!(errs.is_empty());
    assert_eq!(tokens.len(), 15);
    for (_, span) in tokens.iter() {
        assert!(span.source() == source);
    }
}

#[test]
fn compound_assignment() {
    let mut state = LexerState::new();
    let toks = run("x += 1", &mut state);
    assert_eq!(toks.len(), 3);
    assert_eq!(ident_text(&toks[0].0, &state), "x");
    assert_eq!(toks[1].0, Token::Assign(Some(Op::Add)));
    assert_eq!(toks[2].0, Token::Int(1));
    assert_eq!((toks[0].1.start(), toks[0].1.end()), (0, 1));
    assert_eq!((toks[1].1.start(), toks[1].1.end()), (2, 4));
    assert_eq!((toks[2].1.start(), toks[2].1.end()), (5, 6));
}

#[test]
fn all_compound_assignments() {
    assert_eq!(
        kinds("= += -= *= /= %= ..="),
        vec![
            Token::Assign(None),
            Token::Assign(Some(Op::Add)),
            Token::Assign(Some(Op::Sub)),
            Token::Assign(Some(Op::Mul)),
            Token::Assign(Some(Op::Div)),
            Token::Assign(Some(Op::Mod)),
            Token::Assign(Some(Op::Concat)),
        ]
    );
}

#[test]
fn ordered_choice_int_then_dot() {
    assert_eq!(kinds("1."), vec![Token::Int(1), Token::Symbol(Symbol::Dot)]);
}

#[test]
fn float_and_range() {
    assert_eq!(kinds("12.5"), vec![Token::Float("12.5".to_string())]);
    assert_eq!(
        kinds("1..2"),
        vec![Token::Int(1), Token::Op(Op::Concat), Token::Int(2)]
    );
}

#[test]
fn int_suffix_and_overflow() {
    assert_eq!(kinds("12i"), vec![Token::Int(12)]);
    assert_eq!(kinds("9223372036854775807"), vec![Token::Int(i64::MAX)]);
    assert_eq!(
        kinds("9223372036854775808"),
        vec![Token::Error("9223372036854775808".to_string())]
    );
    let mut state = LexerState::new();
    let toks = run("99999999999999999999i", &mut state);
    assert_eq!(toks[0].0, Token::Error("99999999999999999999".to_string()));
    assert_eq!(toks[0].1.end(), 21);
}

#[test]
fn resilience_bad_character() {
    let mut state = LexerState::new();
    let (toks, errs) = lex("\"x\"@\"y\"", Id::default(), &mut state);
    assert_eq!(toks.len(), 3);
    assert_eq!(string_text(&toks[0].0, &state), "x");
    assert_eq!(toks[1].0, Token::Error("@".to_string()));
    assert_eq!(string_text(&toks[2].0, &state), "y");
    assert_eq!(errs.len(), 1);
    assert_eq!(errs[0].text, "@");
    assert_eq!((errs[0].span.start(), errs[0].span.end()), (3, 4));
}

#[test]
fn several_errors_in_one_pass() {
    let toks = kinds("a $ b ~ c");
    let errs = errors(
        &toks
            .iter()
            .cloned()
            .map(|t| (t, luna_front::span::Span::new(0, 0, Id::default())))
            .collect(),
    );
    assert_eq!(errs.len(), 2);
    assert_eq!(errs[0].text, "$");
    assert_eq!(errs[1].text, "~");
}

#[test]
fn interning_round_trip() {
    let mut state = LexerState::new();
    let toks = run("foo bar foo \"foo\" \"a b\"", &mut state);
    assert_eq!(toks.len(), 5);
    let keys: Vec<_> = toks
        .iter()
        .map(|(t, _)| match t {
            Token::Ident(k) | Token::String(k) => *k,
            other => panic!("unexpected {other:?}"),
        })
        .collect();
    assert_eq!(keys[0], keys[2]);
    assert_eq!(keys[0], keys[3]);
    assert_ne!(keys[0], keys[1]);
    assert_eq!(state.resolve(keys[0]), Some("foo"));
    assert_eq!(state.resolve(keys[1]), Some("bar"));
    assert_eq!(state.resolve(keys[4]), Some("a b"));
}

#[test]
fn resolve_unknown_key() {
    let mut state = LexerState::new();
    let toks = run("only", &mut state);
    match toks[0].0 {
        Token::Ident(k) => {
            let other = luna_front::token::Key { index: k.index + 1 };
            assert_eq!(state.resolve(other), None);
        }
        _ => panic!("expected an identifier"),
    }
}

#[test]
fn span_bounds_with_multibyte_text() {
    let text = "é = \"ü\" # ok\n  ß";
    let mut state = LexerState::new();
    let toks = run(text, &mut state);
    for (_, span) in toks.iter() {
        assert!(span.start() <= span.end());
        assert!(span.end() <= text.len());
    }
    assert_eq!(ident_text(&toks[0].0, &state), "é");
    assert_eq!((toks[0].1.start(), toks[0].1.end()), (0, 2));
    assert_eq!((toks[1].1.start(), toks[1].1.end()), (3, 4));
    assert_eq!(string_text(&toks[2].0, &state), "ü");
    assert_eq!((toks[2].1.start(), toks[2].1.end()), (5, 9));
    assert_eq!(toks[3].0, Token::Indent(2));
    assert_eq!(ident_text(&toks[4].0, &state), "ß");
    assert_eq!(toks[4].1.end(), text.len());
}

#[test]
fn keywords_and_words() {
    let mut state = LexerState::new();
    let toks = run("fn type import struct enum self Self let match with as if then else for in while loop break continue return _ and or not fnord", &mut state);
    let expected = vec![
        Token::Keyword(Keyword::Fn),
        Token::Keyword(Keyword::Type),
        Token::Keyword(Keyword::Import),
        Token::Keyword(Keyword::Struct),
        Token::Keyword(Keyword::Enum),
        Token::Keyword(Keyword::SelfParam),
        Token::Keyword(Keyword::SelfType),
        Token::Keyword(Keyword::Let),
        Token::Keyword(Keyword::Match),
        Token::Keyword(Keyword::With),
        Token::Keyword(Keyword::As),
        Token::Keyword(Keyword::If),
        Token::Keyword(Keyword::Then),
        Token::Keyword(Keyword::Else),
        Token::Keyword(Keyword::For),
        Token::Keyword(Keyword::In),
        Token::Keyword(Keyword::While),
        Token::Keyword(Keyword::Loop),
        Token::Keyword(Keyword::Break),
        Token::Keyword(Keyword::Continue),
        Token::Keyword(Keyword::Return),
        Token::Wildcard,
        Token::Op(Op::And),
        Token::Op(Op::Or),
        Token::Op(Op::Not),
    ];
    assert_eq!(toks.len(), expected.len() + 1);
    for (k, e) in expected.iter().enumerate() {
        assert_eq!(&toks[k].0, e);
    }
    assert_eq!(ident_text(&toks[expected.len()].0, &state), "fnord");
}

#[test]
fn symbols_by_longest_match() {
    assert_eq!(
        kinds(":: : -> <- => == != <= >= < > + - * / % .. . ! ? | \\ ,"),
        vec![
            Token::Symbol(Symbol::DoubleColon),
            Token::Symbol(Symbol::Colon),
            Token::Symbol(Symbol::RArrow),
            Token::Symbol(Symbol::LArrow),
            Token::Symbol(Symbol::FatArrow),
            Token::Op(Op::Eq),
            Token::Op(Op::Neq),
            Token::Op(Op::Leq),
            Token::Op(Op::Geq),
            Token::Op(Op::Lt),
            Token::Op(Op::Gt),
            Token::Op(Op::Add),
            Token::Op(Op::Sub),
            Token::Op(Op::Mul),
            Token::Op(Op::Div),
            Token::Op(Op::Mod),
            Token::Op(Op::Concat),
            Token::Symbol(Symbol::Dot),
            Token::Symbol(Symbol::Bang),
            Token::Symbol(Symbol::Optional),
            Token::Symbol(Symbol::Pipe),
            Token::Symbol(Symbol::Backslash),
            Token::Symbol(Symbol::Comma),
        ]
    );
}

#[test]
fn delimiters() {
    assert_eq!(
        kinds("([{}])"),
        vec![
            Token::Open(Delim::Paren),
            Token::Open(Delim::Bracket),
            Token::Open(Delim::Brace),
            Token::Close(Delim::Brace),
            Token::Close(Delim::Bracket),
            Token::Close(Delim::Paren),
        ]
    );
}

#[test]
fn string_escapes_and_chars() {
    let mut state = LexerState::new();
    let toks = run("\"a\\nb\\t\\\"\\\\\\/\\b\\r\" 'c' '\\n' '\"'", &mut state);
    assert_eq!(string_text(&toks[0].0, &state), "a\nb\t\"\\/\x08\r");
    assert_eq!(toks[1].0, Token::Char('c'));
    assert_eq!(toks[2].0, Token::Char('\n'));
    assert_eq!(toks[3].0, Token::Char('"'));
    assert_eq!(toks.len(), 4);
}

#[test]
fn unterminated_string_recovers() {
    let mut state = LexerState::new();
    let toks = run("\"abc", &mut state);
    assert_eq!(toks.len(), 2);
    assert_eq!(toks[0].0, Token::Error("\"".to_string()));
    assert_eq!(ident_text(&toks[1].0, &state), "abc");
}

#[test]
fn bad_escape_recovers() {
    let toks = kinds("\"\\q\"");
    assert_eq!(toks[0], Token::Error("\"".to_string()));
    assert_eq!(toks.len(), 4);
}

#[test]
fn indentation_and_comments() {
    let mut state = LexerState::new();
    let toks = run("# header\nfn f\n    x # trailing\n  \n\tz", &mut state);
    assert_eq!(toks.len(), 5);
    assert_eq!(toks[0].0, Token::Keyword(Keyword::Fn));
    assert_eq!(ident_text(&toks[1].0, &state), "f");
    assert_eq!(toks[2].0, Token::Indent(4));
    assert_eq!((toks[2].1.start(), toks[2].1.end()), (14, 18));
    assert_eq!(ident_text(&toks[3].0, &state), "x");
    assert_eq!(ident_text(&toks[4].0, &state), "z");
}

#[test]
fn indent_at_start_of_text() {
    assert_eq!(kinds("  a  b").len(), 3);
    assert_eq!(kinds("  a")[0], Token::Indent(2));
}

#[test]
fn empty_and_blank_text() {
    assert!(kinds("").is_empty());
    assert!(kinds("   \n \t\n").is_empty());
    assert!(kinds("# only a comment").is_empty());
}

#[test]
fn single_token_at_position() {
    let chars: Vec<char> = "a := 10".chars().collect();
    let mut state = LexerState::new();
    let (tok, end) = token(&chars, 2, &mut state);
    assert_eq!(tok, Token::Symbol(Symbol::Colon));
    assert_eq!(end, 3);
    let (tok, end) = token(&chars, 3, &mut state);
    assert_eq!(tok, Token::Assign(None));
    assert_eq!(end, 4);
    let (tok, end) = token(&chars, 5, &mut state);
    assert_eq!(tok, Token::Int(10));
    assert_eq!(end, 7);
}

#[test]
fn spellings() {
    assert_eq!(Keyword::SelfType.as_str(), "Self");
    assert_eq!(Keyword::Continue.as_str(), "continue");
    assert_eq!(Op::Concat.as_str(), "..");
    assert_eq!(Op::Not.as_str(), "not");
    assert_eq!(Symbol::Backslash.as_str(), "\\");
    assert_eq!(Symbol::FatArrow.as_str(), "=>");
    assert_eq!(Delim::Brace.open_str(), "{");
    assert_eq!(Delim::Angle.close_str(), ">");
}

#[test]
fn interner_counts_distinct_texts() {
    let mut state = LexerState::new();
    assert_eq!(state.len(), 0);
    run("a b a \"b\" c", &mut state);
    assert_eq!(state.len(), 3);
}

#[test]
fn indentation_after_crlf() {
    let toks = kinds("a\r\n  b\r\n\tc");
    assert_eq!(toks.len(), 4);
    assert_eq!(toks[1], Token::Indent(2));
}

#[test]
fn word_classification() {
    let mut state = LexerState::new();
    let w: Vec<char> = "while".chars().collect();
    assert_eq!(word(&w, &mut state), Token::Keyword(Keyword::While));
    let w: Vec<char> = "_".chars().collect();
    assert_eq!(word(&w, &mut state), Token::Wildcard);
    let w: Vec<char> = "whilst".chars().collect();
    match word(&w, &mut state) {
        Token::Ident(k) => assert_eq!(state.resolve(k), Some("whilst")),
        other => panic!("unexpected {other:?}"),
    }
}

#[test]
fn token_given_word_test() {
    let chars: Vec<char> = "x+=1".chars().collect();
    let mut state = LexerState::new();
    assert_eq!(
        token_given(&chars, 1, false, &mut state),
        (Token::Assign(Some(Op::Add)), 3)
    );
    let (tok, end) = token_given(&chars, 0, true, &mut state);
    assert_eq!(end, 1);
    assert!(matches!(tok, Token::Ident(_)));
}

#[test]
fn keys_shared_across_passes() {
    let mut state = LexerState::new();
    let first = run("a", &mut state);
    let second = run("a A", &mut state);
    match (&first[0].0, &second[0].0, &second[1].0) {
        (Token::Ident(k1), Token::Ident(k2), Token::Ident(k3)) => {
            assert_eq!(k1, k2);
            assert_ne!(k2, k3);
            assert_eq!(state.resolve(*k3), Some("A"));
        }
        other => panic!("unexpected {other:?}"),
    }
}
