//! Reading the text of a grammar: locations, spans and tokens.
pub mod chars;
pub mod lexer;
pub mod source;
pub mod token;

use crate::text::push_char;
use chars::{alphabetic, is_alphanumeric, is_alphabetic, is_whitespace, numeric, white_space};
use vstd::prelude::*;

verus! {

/// A line and a column, both counted from 1.
#[derive(Debug, Clone, Copy, PartialEq, Eq, PartialOrd, Ord, Hash, Structural)]
pub struct Location {
    pub line: u128,
    pub column: u128,
}

impl Default for Location {
    fn default() -> (location: Self)
        ensures
            location == (Location { line: 1, column: 1 }),
    {
        Self { line: 1, column: 1 }
    }
}

/// A stretch of text: where it starts and how many characters it covers.
#[derive(Debug, Clone, Copy, PartialEq, Eq, PartialOrd, Ord, Hash, Structural)]
pub struct Span {
    pub location: Location,
    pub length: u128,
}

impl Span {
    /// The span of the single character at `location`.
    pub fn from(location: Location) -> (span: Self)
        ensures
            span == (Span { location, length: 1 }),
    {
        Self { location, length: 1 }
    }
}

impl Default for Span {
    fn default() -> (span: Self)
        ensures
            span == (Span { location: Location { line: 1, column: 1 }, length: 1 }),
    {
        Self::from(Location::default())
    }
}

/// A piece of data with where it was found, if known.
#[derive(Debug, Clone, Copy, PartialEq, Eq, PartialOrd, Ord, Hash)]
pub struct Symbol<T> {
    pub data: T,
    pub span: Option<Span>,
}

/// The location after reading `c` at `location`.
pub open spec fn advance(location: Location, c: char) -> Location {
    if c == '\n' {
        Location { line: (location.line + 1) as u128, column: 1 }
    } else {
        Location { line: location.line, column: (location.column + 1) as u128 }
    }
}

/// The characters of a text, each with its location.
#[derive(Debug)]
pub struct InputStream {
    location: Location,
    input: Vec<char>,
    position: usize,
}

impl InputStream {
    /// The characters not read yet.
    pub closed spec fn remaining(&self) -> Seq<char> {
        self.input@.skip(self.position as int)
    }

    /// The location of the next character.
    pub closed spec fn location(&self) -> Location {
        self.location
    }

    #[verifier::type_invariant]
    closed spec fn wf(&self) -> bool {
        &&& self.position <= self.input@.len()
        &&& 1 <= self.location.line <= self.position + 1
        &&& 1 <= self.location.column <= self.position + 1
    }

    /// The text `input`, read from its start.
    pub fn new(input: Vec<char>) -> (stream: Self)
        ensures
            stream.remaining() == input@,
            stream.location() == (Location { line: 1, column: 1 }),
    {
        let stream = Self { location: Location::default(), input, position: 0 };
        proof {
            assert(stream.remaining() =~= input@);
        }
        stream
    }

    /// The next character with the span of its location.
    pub fn next(&mut self) -> (symbol: Option<Symbol<char>>)
        ensures
            old(self).remaining().len() == 0 ==> symbol is None && final(self).remaining().len() == 0
                && final(self).location() == old(self).location(),
            old(self).remaining().len() > 0 ==> symbol == Some(
                Symbol { data: old(self).remaining()[0], span: Some(Span { location: old(self).location(), length: 1 }) },
            ) && final(self).remaining() == old(self).remaining().drop_first() && final(self).location()
                == advance(old(self).location(), old(self).remaining()[0]),
    {
        proof {
            use_type_invariant(&*self);
        }
        if self.position >= self.input.len() {
            return None;
        }
        let character = self.input[self.position];
        let span = Span::from(self.location);
        self.position += 1;
        if character == '\n' {
            self.location = Location { line: self.location.line + 1, column: 1 };
        } else {
            self.location = Location { line: self.location.line, column: self.location.column + 1 };
        }
        proof {
            assert(self.remaining() =~= old(self).remaining().drop_first());
        }
        Some(Symbol { data: character, span: Some(span) })
    }
}

/// A token: a quoted terminal, a non-terminal name, a special sequence or a
/// punctuation mark.
#[derive(Debug, Clone, PartialEq, Eq, PartialOrd, Ord, Hash)]
pub enum Token {
    Terminal(String),
    NonTerm(String),
    Special(String),
    Equal,
    Comma,
    Semicolon,
    Pipe,
    OpenParen,
    CloseParen,
    OpenSquare,
    CloseSquare,
    OpenCurly,
    CloseCurly,
}

/// What kind of token a token is, without its content.
#[derive(Debug, Clone, Copy, PartialEq, Eq, PartialOrd, Ord, Hash, Structural)]
pub enum TokenKind {
    Terminal,
    NonTerm,
    Special,
    Equal,
    Comma,
    Semicolon,
    Pipe,
    OpenParen,
    CloseParen,
    OpenSquare,
    CloseSquare,
    OpenCurly,
    CloseCurly,
}

/// The kind of `token`.
pub open spec fn kind_of(token: Token) -> TokenKind {
    match token {
        Token::Terminal(_) => TokenKind::Terminal,
        Token::NonTerm(_) => TokenKind::NonTerm,
        Token::Special(_) => TokenKind::Special,
        Token::Equal => TokenKind::Equal,
        Token::Comma => TokenKind::Comma,
        Token::Semicolon => TokenKind::Semicolon,
        Token::Pipe => TokenKind::Pipe,
        Token::OpenParen => TokenKind::OpenParen,
        Token::CloseParen => TokenKind::CloseParen,
        Token::OpenSquare => TokenKind::OpenSquare,
        Token::CloseSquare => TokenKind::CloseSquare,
        Token::OpenCurly => TokenKind::OpenCurly,
        Token::CloseCurly => TokenKind::CloseCurly,
    }
}

impl Token {
    pub fn kind(&self) -> (kind: TokenKind)
        ensures
            kind == kind_of(*self),
    {
        match self {
            Self::Terminal(_) => TokenKind::Terminal,
            Self::NonTerm(_) => TokenKind::NonTerm,
            Self::Special(_) => TokenKind::Special,
            Self::Equal => TokenKind::Equal,
            Self::Comma => TokenKind::Comma,
            Self::Semicolon => TokenKind::Semicolon,
            Self::Pipe => TokenKind::Pipe,
            Self::OpenParen => TokenKind::OpenParen,
            Self::CloseParen => TokenKind::CloseParen,
            Self::OpenSquare => TokenKind::OpenSquare,
            Self::CloseSquare => TokenKind::CloseSquare,
            Self::OpenCurly => TokenKind::OpenCurly,
            Self::CloseCurly => TokenKind::CloseCurly,
        }
    }
}

/// A kind equals a token of that kind.
impl PartialEq<Token> for TokenKind {
    fn eq(&self, other: &Token) -> (same: bool) {
        *self == other.kind()
    }
}

impl vstd::std_specs::cmp::PartialEqSpecImpl<Token> for TokenKind {
    open spec fn obeys_eq_spec() -> bool {
        true
    }

    open spec fn eq_spec(&self, other: &Token) -> bool {
        *self == kind_of(*other)
    }
}

/// A token equals its kind.
impl PartialEq<TokenKind> for Token {
    fn eq(&self, other: &TokenKind) -> (same: bool) {
        self.kind() == *other
    }
}

impl vstd::std_specs::cmp::PartialEqSpecImpl<TokenKind> for Token {
    open spec fn obeys_eq_spec() -> bool {
        true
    }

    open spec fn eq_spec(&self, other: &TokenKind) -> bool {
        kind_of(*self) == *other
    }
}

/// Why the text could not be split into tokens.
#[derive(Debug, Clone, Copy)]
pub enum LexError {
    Unrecognized(Symbol<char>),
    UnfinishedQuote(Symbol<char>),
    UnfinishedSpecial(Symbol<char>),
}

/// Whether `c` may continue a name.
pub open spec fn stream_name_char(c: char) -> bool {
    c == '_' || c == '-' || c == '$' || alphabetic(c) || numeric(c)
}

/// Reads a name: its characters, with each run of white space between them
/// read as one space. Gives the name and how many symbols were read.
pub open spec fn stream_name(rest: Seq<Symbol<char>>, text: Seq<char>, whitespace: bool, read: nat) -> (Seq<char>, nat)
    decreases rest.len(),
{
    if rest.len() == 0 {
        (text, read)
    } else {
        let c = rest[0].data;
        if white_space(c) {
            stream_name(rest.drop_first(), text, true, read + 1)
        } else if stream_name_char(c) {
            let spaced = if whitespace {
                text.push(' ')
            } else {
                text
            };
            stream_name(rest.drop_first(), spaced.push(c), false, read + 1)
        } else {
            (text, read)
        }
    }
}

/// The token a punctuation character stands for, if any.
pub open spec fn stream_punctuation(c: char) -> Option<TokenKind> {
    if c == ',' {
        Some(TokenKind::Comma)
    } else if c == ';' {
        Some(TokenKind::Semicolon)
    } else if c == '=' {
        Some(TokenKind::Equal)
    } else if c == '|' {
        Some(TokenKind::Pipe)
    } else if c == '(' {
        Some(TokenKind::OpenParen)
    } else if c == ')' {
        Some(TokenKind::CloseParen)
    } else if c == '[' {
        Some(TokenKind::OpenSquare)
    } else if c == ']' {
        Some(TokenKind::CloseSquare)
    } else if c == '{' {
        Some(TokenKind::OpenCurly)
    } else if c == '}' {
        Some(TokenKind::CloseCurly)
    } else {
        None
    }
}

/// A token by its kind and its text.
pub open spec fn stream_token_view(token: Token) -> (TokenKind, Seq<char>) {
    match token {
        Token::Terminal(s) => (TokenKind::Terminal, s@),
        Token::NonTerm(s) => (TokenKind::NonTerm, s@),
        Token::Special(s) => (TokenKind::Special, s@),
        _ => (kind_of(token), Seq::empty()),
    }
}

/// What the next token of `rest` is, by its kind, text and span, and how many
/// symbols reading it takes. A punctuation mark or an unknown character is
/// given without being read; a quote or a question mark gives an empty
/// terminal or special sequence, reading only itself.
pub open spec fn stream_token(rest: Seq<Symbol<char>>) -> (Option<Result<(TokenKind, Seq<char>, Option<Span>), LexError>>, nat) {
    if rest.len() == 0 {
        (None, 0)
    } else {
        let current = rest[0];
        let c = current.data;
        if let Some(kind) = stream_punctuation(c) {
            (Some(Ok((kind, Seq::empty(), current.span))), 0)
        } else if c == '"' || c == '\'' {
            (Some(Ok((TokenKind::Terminal, Seq::empty(), current.span))), 1)
        } else if c == '?' {
            (Some(Ok((TokenKind::Special, Seq::empty(), current.span))), 1)
        } else if alphabetic(c) || c == '$' {
            let (text, read) = stream_name(rest, Seq::empty(), false, 0);
            let span = match current.span {
                Some(span) => Some(Span { location: span.location, length: text.len() as u128 }),
                None => None,
            };
            (Some(Ok((TokenKind::NonTerm, text, span))), read)
        } else {
            (Some(Err(LexError::Unrecognized(current))), 0)
        }
    }
}

/// Splits a stream of characters into tokens, one at a time.
#[derive(Debug, Clone)]
pub struct Lexer {
    input_stream: Vec<Symbol<char>>,
    position: usize,
}

impl Lexer {
    /// The symbols not read yet.
    pub closed spec fn rest(&self) -> Seq<Symbol<char>> {
        self.input_stream@.skip(self.position as int)
    }

    /// The position lies within the symbols.
    pub closed spec fn wf(&self) -> bool {
        self.position <= self.input_stream@.len()
    }

    /// A lexer over `input_stream`, read from its start.
    pub fn new(input_stream: Vec<Symbol<char>>) -> (lexer: Self)
        ensures
            lexer.wf(),
            lexer.rest() == input_stream@,
    {
        let lexer = Self { input_stream, position: 0 };
        assert(lexer.rest() =~= lexer.input_stream@);
        lexer
    }

    /// Whether the next symbol is white space, which `next` cannot be given.
    pub fn at_white_space(&self) -> (white: bool)
        requires
            self.wf(),
        ensures
            white == (self.rest().len() > 0 && white_space(self.rest()[0].data)),
    {
        if self.position < self.input_stream.len() {
            is_whitespace(self.input_stream[self.position].data)
        } else {
            false
        }
    }

    /// Gives the next token, as `stream_token` describes it. The next symbol
    /// must not be white space: this lexer only looks at it without reading it.
    pub fn next(&mut self) -> (result: Option<Result<Symbol<Token>, LexError>>)
        requires
            old(self).wf(),
            old(self).rest().len() > 0 ==> !white_space(old(self).rest()[0].data),
        ensures
            final(self).wf(),
            ({
                let (expected, read) = stream_token(old(self).rest());
                &&& final(self).rest() == old(self).rest().skip(read as int)
                &&& match (result, expected) {
                    (None, None) => true,
                    (Some(Ok(symbol)), Some(Ok((kind, text, span)))) => stream_token_view(symbol.data) == (kind, text)
                        && symbol.span == span,
                    (Some(Err(error)), Some(Err(expected_error))) => error == expected_error,
                    _ => false,
                }
            }),
    {
        let ghost rest = self.rest();
        if self.position >= self.input_stream.len() {
            proof {
                assert(rest.skip(0) =~= rest);
            }
            return None;
        }
        let current = self.input_stream[self.position];
        proof {
            assert(current == rest[0]);
            assert(rest.skip(0) =~= rest);
        }
        if is_whitespace(current.data) {
            proof {
                assert(false);
            }
        }
        let result = match current.data {
            ',' => Ok(Symbol { data: Token::Comma, span: current.span }),
            ';' => Ok(Symbol { data: Token::Semicolon, span: current.span }),
            '=' => Ok(Symbol { data: Token::Equal, span: current.span }),
            '|' => Ok(Symbol { data: Token::Pipe, span: current.span }),
            '(' => Ok(Symbol { data: Token::OpenParen, span: current.span }),
            ')' => Ok(Symbol { data: Token::CloseParen, span: current.span }),
            '[' => Ok(Symbol { data: Token::OpenSquare, span: current.span }),
            ']' => Ok(Symbol { data: Token::CloseSquare, span: current.span }),
            '{' => Ok(Symbol { data: Token::OpenCurly, span: current.span }),
            '}' => Ok(Symbol { data: Token::CloseCurly, span: current.span }),
            '"' | '\'' => self.quoted_after(current, false),
            '?' => self.quoted_after(current, true),
            _ => {
                if is_alphabetic(current.data) || current.data == '$' {
                    self.name_after(current)
                } else {
                    Err(LexError::Unrecognized(current))
                }
            },
        };
        Some(result)
    }

    /// Reads quoted text starting at `current`, the quote itself being the
    /// first symbol read: the closing quote is then found at once.
    fn quoted_after(&mut self, current: Symbol<char>, special: bool) -> (result: Result<Symbol<Token>, LexError>)
        requires
            old(self).wf(),
            old(self).rest().len() > 0,
            old(self).rest()[0] == current,
        ensures
            final(self).wf(),
            final(self).rest() == old(self).rest().skip(1),
            result matches Ok(symbol) && symbol.span == current.span && stream_token_view(symbol.data) == (
                if special {
                    TokenKind::Special
                } else {
                    TokenKind::Terminal
                },
                Seq::<char>::empty(),
            ),
    {
        let mut text = String::new();
        let mut escape = false;
        loop
            invariant
                self.wf(),
                self.rest() == old(self).rest(),
                self.position == old(self).position,
                self.input_stream == old(self).input_stream,
                old(self).wf(),
                old(self).rest().len() > 0,
                old(self).rest()[0] == current,
                text@ == Seq::<char>::empty(),
                !escape,
            decreases self.rest().len(),
        {
            if self.position >= self.input_stream.len() {
                proof {
                    assert(false);
                }
                return Err(
                    if special {
                        LexError::UnfinishedSpecial(current)
                    } else {
                        LexError::UnfinishedQuote(current)
                    },
                );
            }
            let character = self.input_stream[self.position];
            self.position += 1;
            proof {
                assert(character == current);
                assert(self.rest() =~= old(self).rest().skip(1));
            }
            if escape {
                escape = false;
                push_char(&mut text, character.data);
            } else if character.data == current.data {
                let data = if special {
                    Token::Special(text)
                } else {
                    Token::Terminal(text)
                };
                return Ok(Symbol { data, span: current.span });
            } else if character.data == '\\' {
                escape = true;
            } else {
                push_char(&mut text, character.data);
            }
        }
    }

    /// Reads a name starting at `current`, which is not read yet.
    fn name_after(&mut self, current: Symbol<char>) -> (result: Result<Symbol<Token>, LexError>)
        requires
            old(self).wf(),
            old(self).rest().len() > 0,
            old(self).rest()[0] == current,
        ensures
            final(self).wf(),
            ({
                let (text, read) = stream_name(old(self).rest(), Seq::empty(), false, 0);
                &&& final(self).rest() == old(self).rest().skip(read as int)
                &&& result matches Ok(symbol) && stream_token_view(symbol.data) == (TokenKind::NonTerm, text)
                    && symbol.span == match current.span {
                    Some(span) => Some(Span { location: span.location, length: text.len() as u128 }),
                    None => None,
                }
            }),
    {
        let ghost start = self.rest();
        let total = self.input_stream.len();
        let mut ident = String::new();
        let mut length: u128 = 0;
        let mut whitespace = false;
        let ghost mut read: nat = 0;
        loop
            invariant
                self.wf(),
                start == old(self).rest(),
                self.input_stream == old(self).input_stream,
                total == self.input_stream@.len(),
                self.rest() == start.skip(read as int),
                self.position == old(self).position + read,
                old(self).wf(),
                read <= start.len(),
                start.len() <= total,
                length == ident@.len(),
                ident@.len() <= 2 * read,
                stream_name(start, Seq::empty(), false, 0) == stream_name(self.rest(), ident@, whitespace, read),
            ensures
                self.wf(),
                length == ident@.len(),
                stream_name(start, Seq::empty(), false, 0) == (ident@, read),
                self.rest() == start.skip(read as int),
            decreases self.rest().len(),
        {
            if self.position >= self.input_stream.len() {
                break;
            }
            let symbol = self.input_stream[self.position];
            let ghost before = self.rest();
            proof {
                assert(symbol == start[read as int]);
                assert(before[0] == symbol);
            }
            if is_whitespace(symbol.data) {
                whitespace = true;
                self.position += 1;
                proof {
                    read = read + 1;
                    assert(self.rest() =~= start.skip(read as int));
                    assert(before.drop_first() =~= self.rest());
                }
            } else {
                let should_continue = symbol.data == '_' || symbol.data == '-' || symbol.data == '$'
                    || is_alphanumeric(symbol.data);
                if should_continue {
                    if whitespace {
                        whitespace = false;
                        push_char(&mut ident, ' ');
                        length = length + 1;
                    }
                    push_char(&mut ident, symbol.data);
                    length = length + 1;
                    self.position += 1;
                    proof {
                        read = read + 1;
                        assert(self.rest() =~= start.skip(read as int));
                        assert(before.drop_first() =~= self.rest());
                    }
                } else {
                    break;
                }
            }
        }
        let span = match current.span {
            Some(span) => Some(Span { location: span.location, length }),
            None => None,
        };
        Ok(Symbol { data: Token::NonTerm(ident), span })
    }
}

} // verus!
