use glossa::suntaxis::lexer::{LexError, Lexer};
use glossa::suntaxis::source::{Location, Source, Span};
use glossa::suntaxis::token::{Token, TokenKind};
use glossa::suntaxis::chars::is_whitespace;
use glossa::suntaxis::{InputStream, Lexer as PeekingLexer, Symbol};

fn lex(input: &str) -> Result<Vec<Token>, LexError> {
    let mut lexer = Lexer::from_source(Source::new(input.chars().collect()));
    let mut tokens = Vec::new();
    while let Some(result) = lexer.next() {
        tokens.push(result?.data);
    }
    Ok(tokens)
}

#[test]
fn every_token() {
    let input = "hello \t there = \"double\" | 'single', (* comment *) () \
                 [] {} ?special? ;";
    let tokens = lex(input).unwrap();

    assert_eq!(tokens, &[
        Token::NonTerm(String::from("hello there")),
        Token::Equal,
        Token::Terminal(String::from("double")),
        Token::Pipe,
        Token::Terminal(String::from("single")),
        Token::Comma,
        Token::Comment(String::from(" comment ")),
        Token::OpenParen,
        Token::CloseParen,
        Token::OpenSquare,
        Token::CloseSquare,
        Token::OpenCurly,
        Token::CloseCurly,
        Token::Special(String::from("special")),
        Token::Semicolon,
    ]);
}

#[test]
fn non_terminals() {
    let input = "hello \t there, I am here , bye";
    let tokens = lex(input).unwrap();

    assert_eq!(tokens, &[
        Token::NonTerm(String::from("hello there")),
        Token::Comma,
        Token::NonTerm(String::from("I am here")),
        Token::Comma,
        Token::NonTerm(String::from("bye")),
    ]);
}

#[test]
fn terminals() {
    let input = "\"hello \t there\", 'I am \\'\\\"\\\\ here\n'";
    let tokens = lex(input).unwrap();

    assert_eq!(tokens, &[
        Token::Terminal(String::from("hello \t there")),
        Token::Comma,
        Token::Terminal(String::from("I am '\"\\ here\n")),
    ]);
}

#[test]
fn specials() {
    let input = "?hello \t there?, ?I am \\'\\\"\\\\\\? here\n?";
    let tokens = lex(input).unwrap();

    assert_eq!(tokens, &[
        Token::Special(String::from("hello \t there")),
        Token::Comma,
        Token::Special(String::from("I am '\"\\? here\n")),
    ]);
}

#[test]
fn nested_comments_and_numbers() {
    let tokens = lex("(* a (* b *) c *) 12 * - 7").unwrap();
    assert_eq!(tokens, &[
        Token::Comment(String::from(" a (* b *) c ")),
        // The digits after the first are read as the higher places.
        Token::Number(21),
        Token::Times,
        Token::Except,
        Token::Number(7),
    ]);
}

#[test]
fn lex_errors() {
    assert!(matches!(lex("\"open"), Err(LexError::UnfinishedQuote(_))));
    assert!(matches!(lex("?open"), Err(LexError::UnfinishedSpecial(_))));
    assert!(matches!(lex("(* open"), Err(LexError::UnclosedComment(_))));
    assert!(matches!(lex("#"), Err(LexError::Unrecognized(_))));
}

#[test]
fn token_spans() {
    let mut lexer = Lexer::from_source(Source::new("ab\n  'x'".chars().collect()));
    let name = lexer.next().unwrap().unwrap();
    assert_eq!(name.data, Token::NonTerm(String::from("ab")));
    let span = name.span.unwrap();
    assert_eq!(span.start(), Location { line: 1, column: 1 });
    // The end of the last character read is taken as an inclusive end.
    assert_eq!(span.end(), Location { line: 1, column: 4 });
    let terminal = lexer.next().unwrap().unwrap();
    let span = terminal.span.unwrap();
    assert_eq!(span.start(), Location { line: 2, column: 3 });
    assert_eq!(span.inclusive_end(), Location { line: 2, column: 6 });
    assert!(lexer.next().is_none());
}

#[test]
fn spans_and_kinds() {
    let start = Location { line: 2, column: 4 };
    let end = Location { line: 2, column: 2 };
    assert!(Span::try_new(start, end).is_err());
    assert!(Span::try_new(end, start).is_ok());
    assert_eq!(Span::try_new_inclusive(start, Location { line: 2, column: 3 }).unwrap().end(), start);
    assert_eq!(Span::default(), Span::from(Location::default()));
    assert_eq!(Token::Number(3).kind(), TokenKind::Number);
    assert!(Token::Comma.is_kind(TokenKind::Comma));
}

#[test]
fn input_stream_locations() {
    let mut stream = InputStream::new("a\nb".chars().collect());
    let a = stream.next().unwrap();
    let newline = stream.next().unwrap();
    let b = stream.next().unwrap();
    assert_eq!(a.data, 'a');
    assert_eq!(newline.span.unwrap().location.column, 2);
    assert_eq!(b.span.unwrap().location.line, 2);
    assert_eq!(b.span.unwrap().location.column, 1);
    assert!(stream.next().is_none());
}

#[test]
fn locations_spans_and_errors_are_written_out() {
    let location = Location { line: 3, column: 12 };
    assert_eq!(location.to_string(), "line 3, column 12");
    let single = Span::from(Location { line: 1, column: 7 });
    assert_eq!(single.to_string(), "line 1, column 7");
    let long = Span::new(Location { line: 1, column: 2 }, Location { line: 1, column: 5 });
    assert_eq!(long.to_string(), "line 1, column 2 - line 1, column 4");
    let error = Span::try_new(Location { line: 2, column: 1 }, Location { line: 1, column: 9 })
        .unwrap_err();
    assert_eq!(
        error.to_string(),
        "Span's end line 1, column 9 must not come before span's start line 2, column 1"
    );
    let unrecognized = LexError::Unrecognized(glossa::suntaxis::source::Symbol {
        data: '$',
        span: Some(Span::from(Location { line: 4, column: 2 })),
    });
    assert_eq!(unrecognized.to_string(), "unrecognized character '$', line 4, column 2");
    let unplaced = LexError::UnfinishedQuote(glossa::suntaxis::source::Symbol {
        data: '\n',
        span: None,
    });
    assert_eq!(
        unplaced.to_string(),
        "unfinished quoting wtih starting character '\\n'"
    );
    let too_big = LexError::NumberTooBig(Span::new(
        Location { line: 1, column: 1 },
        Location { line: 1, column: 41 },
    ));
    assert_eq!(too_big.to_string(), "number too big, line 1, column 1 - line 1, column 40");
}

#[test]
fn white_space_is_unicodes() {
    for c in [' ', '\t', '\n', '\u{b}', '\u{c}', '\r', '\u{85}', '\u{a0}', '\u{1680}', '\u{2000}',
        '\u{200a}', '\u{2028}', '\u{2029}', '\u{202f}', '\u{205f}', '\u{3000}'] {
        assert!(is_whitespace(c), "{:?}", c);
        assert_eq!(is_whitespace(c), c.is_whitespace());
    }
    for c in ['a', '0', '\u{8}', '\u{e}', '\u{200b}', '\u{180e}', '\u{feff}', '_'] {
        assert!(!is_whitespace(c), "{:?}", c);
        assert_eq!(is_whitespace(c), c.is_whitespace());
    }
}

#[test]
fn peeking_lexer_reads_a_token_after_checking_for_space() {
    let symbols: Vec<Symbol<char>> =
        "ab c;".chars().map(|data| Symbol { data, span: None }).collect();
    let mut lexer = PeekingLexer::new(symbols);
    assert!(!lexer.at_white_space());
    let token = lexer.next().unwrap().unwrap();
    assert_eq!(token.data, glossa::suntaxis::Token::NonTerm(String::from("ab c")));
    assert!(!lexer.at_white_space());
    let token = lexer.next().unwrap().unwrap();
    assert_eq!(token.data, glossa::suntaxis::Token::Semicolon);
    let spaced = PeekingLexer::new(vec![Symbol { data: ' ', span: None }]);
    assert!(spaced.at_white_space());
}

#[test]
fn numbers_too_big_are_refused_before_reading() {
    let mut lexer = Lexer::from_source(Source::new(
        "  12 340282366920938463463374607431768211456 7".chars().collect(),
    ));
    assert!(lexer.next_fits());
    assert_eq!(lexer.try_next().unwrap().unwrap().data, Token::Number(21));
    assert!(!lexer.next_fits());
    match lexer.try_next() {
        Some(Err(LexError::NumberTooBig(span))) => {
            assert_eq!(span.start(), Location { line: 1, column: 6 });
        },
        other => panic!("expected a number too big, got {:?}", other),
    }
    assert!(!lexer.next_fits());
    // Digits are read last-first: "1", 37 zeros and "2" is worth 2 * 10^38 + 1, which fits.
    let digits = format!("1{}2", "0".repeat(37));
    let mut fits = Lexer::from_source(Source::new(digits.chars().collect()));
    assert!(fits.next_fits());
    assert!(matches!(fits.try_next(), Some(Ok(_))));
}

#[test]
fn kinds_equal_tokens_of_their_kind() {
    assert!(TokenKind::Comma == Token::Comma);
    assert!(TokenKind::Terminal == Token::Terminal(String::from("x")));
    assert!(TokenKind::NonTerm != Token::Terminal(String::from("x")));
    assert!(glossa::suntaxis::TokenKind::Pipe == glossa::suntaxis::Token::Pipe);
    assert!(glossa::suntaxis::TokenKind::Pipe != glossa::suntaxis::Token::Comma);
}

#[test]
fn tokens_equal_their_kind() {
    let number = Token::Number(7);
    assert!(number == number.kind());
    assert!(number.kind() == number);
    assert!(number == TokenKind::Number);
    assert!(Token::NonTerm(String::from("x")) == TokenKind::NonTerm);
    assert!(Token::Except == TokenKind::Except);
    assert!(Token::Except != TokenKind::Comma);
    assert!(glossa::suntaxis::Token::Comma == glossa::suntaxis::TokenKind::Comma);
}
