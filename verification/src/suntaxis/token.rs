//! The tokens of a grammar text.
use vstd::prelude::*;

verus! {

/// A token: a comment, a quoted terminal, a non-terminal name, a special
/// sequence, a number, or a punctuation mark.
#[derive(Debug, Clone, PartialEq, Eq, PartialOrd, Ord, Hash)]
pub enum Token {
    Comment(String),
    Terminal(String),
    NonTerm(String),
    Special(String),
    Number(u128),
    Equal,
    Comma,
    Semicolon,
    Pipe,
    Except,
    Times,
    OpenParen,
    CloseParen,
    OpenSquare,
    CloseSquare,
    OpenCurly,
    CloseCurly,
}

/// What kind of token a token is, without its content.
#[derive(Debug, Clone, Copy, PartialEq, Eq, PartialOrd, Ord, Hash, Structural)]
pub enum TokenKind {
    Comment,
    Terminal,
    NonTerm,
    Number,
    Special,
    Equal,
    Comma,
    Semicolon,
    Pipe,
    Except,
    Times,
    OpenParen,
    CloseParen,
    OpenSquare,
    CloseSquare,
    OpenCurly,
    CloseCurly,
}

/// The kind of `token`.
pub open spec fn kind_of(token: Token) -> TokenKind {
    match token {
        Token::Comment(_) => TokenKind::Comment,
        Token::Terminal(_) => TokenKind::Terminal,
        Token::NonTerm(_) => TokenKind::NonTerm,
        Token::Special(_) => TokenKind::Special,
        Token::Number(_) => TokenKind::Number,
        Token::Equal => TokenKind::Equal,
        Token::Comma => TokenKind::Comma,
        Token::Semicolon => TokenKind::Semicolon,
        Token::Pipe => TokenKind::Pipe,
        Token::Except => TokenKind::Except,
        Token::Times => TokenKind::Times,
        Token::OpenParen => TokenKind::OpenParen,
        Token::CloseParen => TokenKind::CloseParen,
        Token::OpenSquare => TokenKind::OpenSquare,
        Token::CloseSquare => TokenKind::CloseSquare,
        Token::OpenCurly => TokenKind::OpenCurly,
        Token::CloseCurly => TokenKind::CloseCurly,
    }
}

impl Token {
    pub fn kind(&self) -> (kind: TokenKind)
        ensures
            kind == kind_of(*self),
    {
        match self {
            Self::Comment(_) => TokenKind::Comment,
            Self::Terminal(_) => TokenKind::Terminal,
            Self::NonTerm(_) => TokenKind::NonTerm,
            Self::Special(_) => TokenKind::Special,
            Self::Number(_) => TokenKind::Number,
            Self::Equal => TokenKind::Equal,
            Self::Comma => TokenKind::Comma,
            Self::Semicolon => TokenKind::Semicolon,
            Self::Pipe => TokenKind::Pipe,
            Self::Except => TokenKind::Except,
            Self::Times => TokenKind::Times,
            Self::OpenParen => TokenKind::OpenParen,
            Self::CloseParen => TokenKind::CloseParen,
            Self::OpenSquare => TokenKind::OpenSquare,
            Self::CloseSquare => TokenKind::CloseSquare,
            Self::OpenCurly => TokenKind::OpenCurly,
            Self::CloseCurly => TokenKind::CloseCurly,
        }
    }

    /// Whether the token is of kind `kind`.
    pub fn is_kind(&self, kind: TokenKind) -> (same: bool)
        ensures
            same == (kind_of(*self) == kind),
    {
        self.kind() == kind
    }
}

/// A kind equals a token of that kind.
impl PartialEq<Token> for TokenKind {
    fn eq(&self, other: &Token) -> (same: bool) {
        *self == other.kind()
    }
}

impl vstd::std_specs::cmp::PartialEqSpecImpl<Token> for TokenKind {
    open spec fn obeys_eq_spec() -> bool {
        true
    }

    open spec fn eq_spec(&self, other: &Token) -> bool {
        *self == kind_of(*other)
    }
}

/// A token equals its kind.
impl PartialEq<TokenKind> for Token {
    fn eq(&self, other: &TokenKind) -> (same: bool) {
        self.kind() == *other
    }
}

impl vstd::std_specs::cmp::PartialEqSpecImpl<TokenKind> for Token {
    open spec fn obeys_eq_spec() -> bool {
        true
    }

    open spec fn eq_spec(&self, other: &TokenKind) -> bool {
        kind_of(*self) == *other
    }
}

} // verus!
