//! Splits the characters of a grammar text into tokens.
use super::chars::{
    alphabetic, decimal_digit, is_alphabetic, is_alphanumeric, is_whitespace, numeric, to_decimal_digit,
    white_space,
};
use super::source::{advance, location_le, location_le_exec, span_text, Location, Source, Span, Symbol};
use super::token::{kind_of, Token, TokenKind};
use crate::text::{char_debug, debug_char, push_char};
use vstd::prelude::*;

verus! {

/// Why the text could not be split into tokens.
#[derive(Debug, Clone, Copy)]
pub enum LexError {
    Unrecognized(Symbol<char>),
    UnfinishedQuote(Symbol<char>),
    UnfinishedSpecial(Symbol<char>),
    UnclosedComment(Symbol<char>),
    NumberTooBig(Span),
}

/// How the place of a symbol is added to a message: after a comma, when it is known.
pub open spec fn place_text(span: Option<Span>) -> Seq<char> {
    match span {
        Some(span) => ", "@ + span_text(span),
        None => Seq::empty(),
    }
}

/// Whether every span in the error ends after column zero, so that its last place can be
/// written.
pub open spec fn writable_error(error: LexError) -> bool {
    match error {
        LexError::Unrecognized(symbol) | LexError::UnfinishedQuote(symbol) | LexError::UnfinishedSpecial(symbol)
        | LexError::UnclosedComment(symbol) => symbol.span matches Some(span) ==> span.end_spec().column > 0,
        LexError::NumberTooBig(span) => span.end_spec().column > 0,
    }
}

/// How a lexing error is written: what went wrong, with the character involved, and where.
pub open spec fn lex_error_text(error: LexError) -> Seq<char> {
    match error {
        LexError::Unrecognized(symbol) => "unrecognized character "@ + char_debug(symbol.data) + place_text(
            symbol.span,
        ),
        LexError::UnfinishedQuote(symbol) => "unfinished quoting wtih starting character "@ + char_debug(
            symbol.data,
        ) + place_text(symbol.span),
        LexError::UnfinishedSpecial(symbol) => "unfinished special symbol wtih starting character "@
            + char_debug(symbol.data) + place_text(symbol.span),
        LexError::UnclosedComment(symbol) => "unfinished comment wtih starting character "@ + char_debug(
            symbol.data,
        ) + place_text(symbol.span),
        LexError::NumberTooBig(span) => "number too big"@ + place_text(Some(span)),
    }
}

/// Appends the place of a symbol to a message, when it is known.
fn write_place(text: &mut String, span: Option<Span>)
    requires
        span matches Some(span) ==> span.end_spec().column > 0,
    ensures
        final(text)@ == old(text)@ + place_text(span),
{
    match span {
        Some(span) => {
            text.append(", ");
            span.write_to(text);
        },
        None => {},
    }
    assert(final(text)@ =~= old(text)@ + place_text(span));
}

impl LexError {
    /// The error written out.
    pub fn to_string(&self) -> (text: String)
        requires
            writable_error(*self),
        ensures
            text@ == lex_error_text(*self),
    {
        let mut text = String::new();
        match self {
            LexError::Unrecognized(symbol) => {
                text.append("unrecognized character ");
                text.append(&debug_char(symbol.data));
                write_place(&mut text, symbol.span);
            },
            LexError::UnfinishedQuote(symbol) => {
                text.append("unfinished quoting wtih starting character ");
                text.append(&debug_char(symbol.data));
                write_place(&mut text, symbol.span);
            },
            LexError::UnfinishedSpecial(symbol) => {
                text.append("unfinished special symbol wtih starting character ");
                text.append(&debug_char(symbol.data));
                write_place(&mut text, symbol.span);
            },
            LexError::UnclosedComment(symbol) => {
                text.append("unfinished comment wtih starting character ");
                text.append(&debug_char(symbol.data));
                write_place(&mut text, symbol.span);
            },
            LexError::NumberTooBig(span) => {
                text.append("number too big");
                write_place(&mut text, Some(*span));
            },
        }
        assert(text@ =~= lex_error_text(*self));
        text
    }
}

/// Where a symbol of the text starts.
pub open spec fn start_of(symbol: Symbol<char>) -> Location {
    symbol.span->0.start_spec()
}

/// Whether every symbol spans one character, its columns stay far from the
/// largest number, and no symbol starts before the one before it.
pub open spec fn well_spanned(symbols: Seq<Symbol<char>>) -> bool {
    &&& forall|i: int|
        0 <= i < symbols.len() ==> (#[trigger] symbols[i]).span is Some && symbols[i].span->0 == Span::at(start_of(symbols[i]))
            && 1 <= start_of(symbols[i]).column <= u64::MAX as u128 + 1
    &&& forall|i: int, j: int|
        0 <= i <= j < symbols.len() ==> location_le(start_of(#[trigger] symbols[i]), start_of(#[trigger] symbols[j]))
}

/// The later of two optional locations, a missing one being earliest.
pub open spec fn later(a: Option<Location>, b: Option<Location>) -> Option<Location> {
    match (a, b) {
        (None, _) => b,
        (_, None) => a,
        (Some(x), Some(y)) => if location_le(x, y) {
            b
        } else {
            a
        },
    }
}

fn later_location(a: Option<Location>, b: Option<Location>) -> (result: Option<Location>)
    ensures
        result == later(a, b),
{
    match (a, b) {
        (None, _) => b,
        (_, None) => a,
        (Some(x), Some(y)) => if location_le_exec(x, y) {
            b
        } else {
            a
        },
    }
}

/// Where the span of `symbol` ends, if it has one.
pub open spec fn end_of(symbol: Symbol<char>) -> Option<Location> {
    match symbol.span {
        Some(span) => Some(span.end_spec()),
        None => None,
    }
}

/// The span from the start of `first` to `end` included, when both are known.
pub open spec fn joined_span(first: Symbol<char>, end: Option<Location>) -> Option<Span> {
    match (first.span, end) {
        (Some(span), Some(end)) => Some(
            Span::of(span.start_spec(), Location { line: end.line, column: (end.column + 1) as u128 }),
        ),
        _ => None,
    }
}

/// The character an escaped `c` stands for.
pub open spec fn unescape(c: char) -> char {
    if c == 'n' {
        '\n'
    } else if c == 't' {
        '\t'
    } else if c == 'r' {
        '\r'
    } else {
        c
    }
}

/// Reads quoted text up to the closing `quote`, a backslash escaping the
/// character after it. Gives the text, where its last character ends and how
/// many symbols were read; `None` when the text ends first.
pub open spec fn quoted(
    rest: Seq<Symbol<char>>,
    quote: char,
    escape: bool,
    text: Seq<char>,
    end: Option<Location>,
    read: nat,
) -> Option<(Seq<char>, Option<Location>, nat)>
    decreases rest.len(),
{
    if rest.len() == 0 {
        None
    } else {
        let symbol = rest[0];
        let c = symbol.data;
        let end = later(end, end_of(symbol));
        if escape {
            quoted(rest.drop_first(), quote, false, text.push(unescape(c)), end, read + 1)
        } else if c == quote {
            Some((text, end, read + 1))
        } else if c == '\\' {
            quoted(rest.drop_first(), quote, true, text, end, read + 1)
        } else {
            quoted(rest.drop_first(), quote, false, text.push(c), end, read + 1)
        }
    }
}

/// The characters of a sequence of symbols.
pub open spec fn symbol_chars(symbols: Seq<Symbol<char>>) -> Seq<char> {
    symbols.map_values(|symbol: Symbol<char>| symbol.data)
}

/// Where the last of `symbols` ends, reading on from `end`.
pub open spec fn ends_after(end: Option<Location>, symbols: Seq<Symbol<char>>) -> Option<Location>
    decreases symbols.len(),
{
    if symbols.len() == 0 {
        end
    } else {
        ends_after(later(end, end_of(symbols[0])), symbols.drop_first())
    }
}

/// Quoted text with neither the closing quote nor a backslash is read as it is.
proof fn lemma_quoted_plain(
    plain: Seq<Symbol<char>>,
    rest: Seq<Symbol<char>>,
    quote: char,
    text: Seq<char>,
    end: Option<Location>,
    read: nat,
)
    requires
        forall|i: int| 0 <= i < plain.len() ==> (#[trigger] plain[i]).data != quote && plain[i].data != '\\',
    ensures
        quoted(plain + rest, quote, false, text, end, read) == quoted(
            rest,
            quote,
            false,
            text + symbol_chars(plain),
            ends_after(end, plain),
            read + plain.len(),
        ),
    decreases plain.len(),
{
    if plain.len() == 0 {
        assert(plain + rest =~= rest);
        assert(text + symbol_chars(plain) =~= text);
    } else {
        let tail = plain.drop_first();
        assert((plain + rest).drop_first() =~= tail + rest);
        assert((plain + rest)[0] == plain[0]);
        lemma_quoted_plain(tail, rest, quote, text.push(plain[0].data), later(end, end_of(plain[0])), read + 1);
        assert(text.push(plain[0].data) + symbol_chars(tail) =~= text + symbol_chars(plain));
    }
}

/// What quoted text reads begins with what was read before it.
proof fn lemma_quoted_prefix(
    rest: Seq<Symbol<char>>,
    quote: char,
    escape: bool,
    text: Seq<char>,
    end: Option<Location>,
    read: nat,
)
    ensures
        quoted(rest, quote, escape, text, end, read) matches Some((all, _, _)) ==> text.len() <= all.len()
            && all.subrange(0, text.len() as int) == text,
    decreases rest.len(),
{
    if rest.len() > 0 {
        let c = rest[0].data;
        let next_end = later(end, end_of(rest[0]));
        if escape {
            lemma_quoted_prefix(rest.drop_first(), quote, false, text.push(unescape(c)), next_end, read + 1);
            if let Some((all, _, _)) = quoted(rest, quote, escape, text, end, read) {
                assert(all.subrange(0, text.len() as int) =~= text.push(unescape(c)).subrange(0, text.len() as int));
            }
        } else if c == quote {
        } else if c == '\\' {
            lemma_quoted_prefix(rest.drop_first(), quote, true, text, next_end, read + 1);
        } else {
            lemma_quoted_prefix(rest.drop_first(), quote, false, text.push(c), next_end, read + 1);
            if let Some((all, _, _)) = quoted(rest, quote, escape, text, end, read) {
                assert(all.subrange(0, text.len() as int) =~= text.push(c).subrange(0, text.len() as int));
            }
        }
    }
}

/// Inside a quoted terminal or special sequence, a backslash escapes the character after it:
/// `\n` stands for a line feed, `\t` for a tab, `\r` for a carriage return, and any other
/// character for itself. So lexing a quote whose text reads plain characters, then a backslash
/// and `escaped`, gives a text that holds those characters and then what `escaped` stands for.
pub proof fn lemma_quoted_escapes(
    first: Symbol<char>,
    plain: Seq<Symbol<char>>,
    backslash: Symbol<char>,
    escaped: Symbol<char>,
    more: Seq<Symbol<char>>,
)
    requires
        first.data == '"' || first.data == '\'' || first.data == '?',
        backslash.data == '\\',
        forall|i: int| 0 <= i < plain.len() ==> (#[trigger] plain[i]).data != first.data && plain[i].data != '\\',
    ensures
        token_after(first, plain + seq![backslash, escaped] + more).0 matches Lexed::Token((_, text, _), _) ==> {
            &&& plain.len() < text.len()
            &&& text.subrange(0, plain.len() as int) == symbol_chars(plain)
            &&& escaped.data == 'n' ==> text[plain.len() as int] == '\n'
            &&& escaped.data == 't' ==> text[plain.len() as int] == '\t'
            &&& escaped.data == 'r' ==> text[plain.len() as int] == '\r'
            &&& escaped.data != 'n' && escaped.data != 't' && escaped.data != 'r' ==> text[plain.len() as int]
                == escaped.data
        },
{
    let q = first.data;
    let tail = seq![backslash, escaped] + more;
    assert(plain + seq![backslash, escaped] + more =~= plain + tail);
    assert(punctuation(q) is None);
    lemma_quoted_plain(plain, tail, q, Seq::empty(), None, 0);
    let text0 = Seq::<char>::empty() + symbol_chars(plain);
    let end0 = ends_after(None, plain);
    let e1 = later(end0, end_of(backslash));
    let e2 = later(e1, end_of(escaped));
    assert(tail[0] == backslash);
    assert(tail.drop_first() =~= seq![escaped] + more);
    assert((seq![escaped] + more)[0] == escaped);
    assert((seq![escaped] + more).drop_first() =~= more);
    let pushed = text0.push(unescape(escaped.data));
    assert(quoted(tail, q, false, text0, end0, plain.len()) == quoted(
        seq![escaped] + more,
        q,
        true,
        text0,
        e1,
        plain.len() + 1,
    ));
    assert(quoted(seq![escaped] + more, q, true, text0, e1, plain.len() + 1) == quoted(
        more,
        q,
        false,
        pushed,
        e2,
        plain.len() + 2,
    ));
    lemma_quoted_prefix(more, q, false, pushed, e2, plain.len() + 2);
    if let Some((all, _, _)) = quoted(more, q, false, pushed, e2, plain.len() + 2) {
        assert(all[plain.len() as int] == pushed[plain.len() as int]);
        assert(all.subrange(0, plain.len() as int) =~= pushed.subrange(0, plain.len() as int));
        assert(pushed.subrange(0, plain.len() as int) =~= symbol_chars(plain));
    }
}

/// Whether `c` may continue the name of a non-terminal.
pub open spec fn name_char(c: char) -> bool {
    c == '_' || c == '$' || alphabetic(c) || numeric(c)
}

/// Reads the rest of the name of a non-terminal: its characters, with each
/// run of white space between them read as one space. Gives the name, where
/// its last character ends and how many symbols were read.
pub open spec fn name(
    rest: Seq<Symbol<char>>,
    text: Seq<char>,
    whitespace: bool,
    end: Option<Location>,
    read: nat,
) -> (Seq<char>, Option<Location>, nat)
    decreases rest.len(),
{
    if rest.len() == 0 {
        (text, end, read)
    } else {
        let symbol = rest[0];
        let c = symbol.data;
        if white_space(c) {
            name(rest.drop_first(), text, true, end, read + 1)
        } else if name_char(c) {
            let spaced = if whitespace {
                text.push(' ')
            } else {
                text
            };
            name(rest.drop_first(), spaced.push(c), false, later(end, end_of(symbol)), read + 1)
        } else {
            (text, end, read)
        }
    }
}

/// Reads a comment up to the `*)` closing the outermost `(*`, comments
/// nesting. Gives the text, where it ends and how many symbols were read;
/// `None` when the text ends first.
pub open spec fn comment(
    rest: Seq<Symbol<char>>,
    depth: nat,
    text: Seq<char>,
    prev: Option<char>,
    end: Option<Location>,
    read: nat,
) -> Option<(Seq<char>, Option<Location>, nat)>
    decreases rest.len(),
{
    if rest.len() == 0 {
        None
    } else {
        let symbol = rest[0];
        let c = symbol.data;
        let end = later(end, end_of(symbol));
        let closes = prev == Some('*') && c == ')';
        if closes && depth == 1 {
            Some((text, end, read + 1))
        } else {
            let depth = if closes {
                (depth - 1) as nat
            } else if prev == Some('(') && c == '*' {
                depth + 1
            } else {
                depth
            };
            let text = match prev {
                Some(p) => text.push(p),
                None => text,
            };
            comment(rest.drop_first(), depth, text, Some(c), end, read + 1)
        }
    }
}

/// Ten to the power `e`.
pub open spec fn pow10(e: nat) -> nat
    decreases e,
{
    if e == 0 {
        1
    } else {
        10 * pow10((e - 1) as nat)
    }
}

/// Reads the digits after the first digit of a number: the `k`-th of them
/// adds its value times ten to the power `k`. Gives the number and how many
/// symbols were read.
pub open spec fn number(rest: Seq<Symbol<char>>, value: nat, exponent: nat, read: nat) -> (nat, nat)
    decreases rest.len(),
{
    if rest.len() == 0 {
        (value, read)
    } else {
        match decimal_digit(rest[0].data) {
            Some(digit) => number(rest.drop_first(), value + pow10(exponent) * (digit as nat), exponent + 1, read + 1),
            None => (value, read),
        }
    }
}

/// Whether reading a number from `rest` keeps every power of ten and every
/// partial value within `u128`.
pub open spec fn number_fits(rest: Seq<Symbol<char>>, value: nat, exponent: nat) -> bool
    decreases rest.len(),
{
    value <= u128::MAX && (rest.len() == 0 || match decimal_digit(rest[0].data) {
        Some(digit) => exponent < 39 && pow10(exponent) <= u128::MAX && value + pow10(exponent) * (digit as nat)
            <= u128::MAX && number_fits(rest.drop_first(), value + pow10(exponent) * (digit as nat), exponent + 1),
        None => true,
    })
}

/// A token by its kind, its text (for comments, terminals, non-terminals and
/// special sequences) and its number (for numbers).
pub open spec fn token_view(token: Token) -> (TokenKind, Seq<char>, u128) {
    match token {
        Token::Comment(s) => (TokenKind::Comment, s@, 0),
        Token::Terminal(s) => (TokenKind::Terminal, s@, 0),
        Token::NonTerm(s) => (TokenKind::NonTerm, s@, 0),
        Token::Special(s) => (TokenKind::Special, s@, 0),
        Token::Number(n) => (TokenKind::Number, Seq::empty(), n),
        _ => (kind_of(token), Seq::empty(), 0),
    }
}

/// What reading one token gives: a token by its view and span, or an error.
pub enum Lexed {
    Token((TokenKind, Seq<char>, u128), Option<Span>),
    Error(LexError),
}

/// Whether `result` is what `lexed` describes.
pub open spec fn agrees(result: Result<Symbol<Token>, LexError>, lexed: Lexed) -> bool {
    match (result, lexed) {
        (Ok(symbol), Lexed::Token(view, span)) => token_view(symbol.data) == view && symbol.span == span,
        (Err(error), Lexed::Error(expected)) => error == expected,
        _ => false,
    }
}

/// The single-symbol token that `c` stands for, if any.
pub open spec fn punctuation(c: char) -> Option<TokenKind> {
    if c == ',' {
        Some(TokenKind::Comma)
    } else if c == ';' {
        Some(TokenKind::Semicolon)
    } else if c == '=' {
        Some(TokenKind::Equal)
    } else if c == '|' {
        Some(TokenKind::Pipe)
    } else if c == '*' {
        Some(TokenKind::Times)
    } else if c == '-' {
        Some(TokenKind::Except)
    } else if c == ')' {
        Some(TokenKind::CloseParen)
    } else if c == '[' {
        Some(TokenKind::OpenSquare)
    } else if c == ']' {
        Some(TokenKind::CloseSquare)
    } else if c == '{' {
        Some(TokenKind::OpenCurly)
    } else if c == '}' {
        Some(TokenKind::CloseCurly)
    } else {
        None
    }
}

/// The token starting with `first`, `after` being the symbols after it:
/// what it is and how many of those symbols it takes.
pub open spec fn token_after(first: Symbol<char>, after: Seq<Symbol<char>>) -> (Lexed, nat) {
    let c = first.data;
    if let Some(kind) = punctuation(c) {
        (Lexed::Token((kind, Seq::empty(), 0), first.span), 0)
    } else if c == '(' {
        if after.len() > 0 && after[0].data == '*' {
            match comment(after.drop_first(), 1, Seq::empty(), None, None, 0) {
                Some((text, end, read)) => (
                    Lexed::Token((TokenKind::Comment, text, 0), joined_span(first, end)),
                    read + 1,
                ),
                None => (Lexed::Error(LexError::UnclosedComment(first)), after.len()),
            }
        } else {
            (Lexed::Token((TokenKind::OpenParen, Seq::empty(), 0), first.span), 0)
        }
    } else if c == '"' || c == '\'' || c == '?' {
        let kind = if c == '?' {
            TokenKind::Special
        } else {
            TokenKind::Terminal
        };
        match quoted(after, c, false, Seq::empty(), None, 0) {
            Some((text, end, read)) => (Lexed::Token((kind, text, 0), joined_span(first, end)), read),
            None => (
                Lexed::Error(
                    if c == '?' {
                        LexError::UnfinishedSpecial(first)
                    } else {
                        LexError::UnfinishedQuote(first)
                    },
                ),
                after.len(),
            ),
        }
    } else if c == '$' || c == '_' || alphabetic(c) {
        let (text, end, read) = name(after, seq![c], false, None, 0);
        (Lexed::Token((TokenKind::NonTerm, text, 0), joined_span(first, end)), read)
    } else if let Some(digit) = decimal_digit(c) {
        let (value, read) = number(after, digit as nat, 1, 0);
        (Lexed::Token((TokenKind::Number, Seq::empty(), value as u128), first.span), read)
    } else {
        (Lexed::Error(LexError::Unrecognized(first)), 0)
    }
}

/// The number of white-space symbols at the start of `rest`.
pub open spec fn leading_space(rest: Seq<Symbol<char>>) -> nat
    decreases rest.len(),
{
    if rest.len() > 0 && white_space(rest[0].data) {
        1 + leading_space(rest.drop_first())
    } else {
        0
    }
}

/// Splits the characters of a text into tokens, one at a time.
#[derive(Debug, Clone)]
pub struct Lexer {
    symbols: Vec<Symbol<char>>,
    position: usize,
}

impl Lexer {
    /// The symbols not read yet.
    pub closed spec fn rest(&self) -> Seq<Symbol<char>> {
        self.symbols@.skip(self.position as int)
    }

    /// The symbols are those of a text, and the position lies within them.
    pub closed spec fn wf(&self) -> bool {
        self.position <= self.symbols@.len() && well_spanned(self.symbols@)
    }
}

/// The symbols of the characters `chars` read from `location` on.
pub open spec fn symbols_of(chars: Seq<char>, location: Location) -> Seq<Symbol<char>>
    decreases chars.len(),
{
    if chars.len() == 0 {
        Seq::empty()
    } else {
        seq![Symbol { data: chars[0], span: Some(Span::at(location)) }] + symbols_of(
            chars.drop_first(),
            advance(location, chars[0]),
        )
    }
}

/// Reading a character moves no earlier.
proof fn lemma_advance(location: Location, c: char)
    requires
        location.line < u128::MAX,
        location.column < u128::MAX,
    ensures
        location_le(location, advance(location, c)),
{
}

/// Whether `symbol` lies within bounds and starts no earlier than `first`.
pub open spec fn after_first(first: Symbol<char>, symbol: Symbol<char>) -> bool {
    &&& symbol.span is Some
    &&& symbol.span->0 == Span::at(start_of(symbol))
    &&& 1 <= start_of(symbol).column <= u64::MAX as u128 + 1
    &&& location_le(start_of(first), start_of(symbol))
}

/// Whether a latest end `end` taken over symbols after `first` stays within bounds.
pub open spec fn end_after(first: Symbol<char>, end: Option<Location>) -> bool {
    end matches Some(e) ==> e.column <= u64::MAX as u128 + 2 && location_le(start_of(first), e)
}

proof fn lemma_end_after(first: Symbol<char>, end: Option<Location>, symbol: Symbol<char>)
    requires
        end_after(first, end),
        after_first(first, symbol),
    ensures
        end_after(first, later(end, end_of(symbol))),
{
    Span::lemma_of(start_of(symbol), Location { line: start_of(symbol).line, column: (start_of(symbol).column + 1) as u128 });
}

impl Lexer {
    /// The symbols still to read all come after `first`.
    pub closed spec fn rest_after(&self, first: Symbol<char>) -> bool {
        forall|i: int| 0 <= i < self.rest().len() ==> after_first(first, #[trigger] self.rest()[i])
    }

    /// The lexer of the text `source` holds.
    pub fn from_source(source: Source) -> (lexer: Self)
        ensures
            lexer.wf(),
            lexer.rest() == symbols_of(source.remaining(), source.location()),
    {
        let mut source = source;
        let ghost chars = source.remaining();
        let ghost start = source.location();
        let mut symbols: Vec<Symbol<char>> = Vec::new();
        loop
            invariant
                symbols@ + symbols_of(source.remaining(), source.location()) == symbols_of(chars, start),
                well_spanned(symbols@),
                forall|i: int| 0 <= i < symbols@.len() ==> location_le(start_of(#[trigger] symbols@[i]), source.location()),
            ensures
                symbols@ == symbols_of(chars, start),
                well_spanned(symbols@),
            decreases source.remaining().len(),
        {
            let ghost before = source;
            let ghost before_symbols = symbols@;
            match source.next() {
                Some(symbol) => {
                    symbols.push(symbol);
                    proof {
                        let rem = before.remaining();
                        assert(symbols_of(rem, before.location()) == seq![symbol] + symbols_of(
                            rem.drop_first(),
                            advance(before.location(), rem[0]),
                        ));
                        assert(before_symbols + (seq![symbol] + symbols_of(source.remaining(), source.location()))
                            =~= symbols@ + symbols_of(source.remaining(), source.location()));
                        Span::lemma_of(before.location(), Location { line: before.location().line, column: (before.location().column + 1) as u128 });
                        assert(start_of(symbol) == before.location());
                        lemma_advance(before.location(), rem[0]);
                        assert forall|i: int| 0 <= i < symbols@.len() implies (#[trigger] symbols@[i]).span is Some && symbols@[i].span->0
                            == Span::at(start_of(symbols@[i])) && 1 <= start_of(symbols@[i]).column <= u64::MAX as u128 + 1 by {
                            if i < before_symbols.len() {
                                assert(symbols@[i] == before_symbols[i]);
                            }
                        }
                        assert forall|i: int, j: int|
                            0 <= i <= j < symbols@.len() implies location_le(start_of(#[trigger] symbols@[i]), start_of(#[trigger] symbols@[j])) by {
                            if j == symbols@.len() - 1 {
                                if i < before_symbols.len() {
                                    assert(symbols@[i] == before_symbols[i]);
                                }
                            } else {
                                assert(symbols@[i] == before_symbols[i]);
                                assert(symbols@[j] == before_symbols[j]);
                            }
                        }
                        assert forall|i: int| 0 <= i < symbols@.len() implies location_le(start_of(#[trigger] symbols@[i]), source.location()) by {
                            if i < before_symbols.len() {
                                assert(symbols@[i] == before_symbols[i]);
                            }
                        }
                    }
                },
                None => {
                    proof {
                        assert(symbols_of(source.remaining(), source.location()) =~= Seq::<Symbol<char>>::empty());
                        assert(symbols@ + Seq::<Symbol<char>>::empty() =~= symbols@);
                    }
                    break;
                },
            }
        }
        let lexer = Self { symbols, position: 0 };
        proof {
            assert(lexer.rest() =~= symbols@);
        }
        lexer
    }

    /// The next symbol, read.
    fn next_symbol(&mut self) -> (symbol: Option<Symbol<char>>)
        requires
            old(self).wf(),
        ensures
            final(self).wf(),
            final(self).symbols == old(self).symbols,
            old(self).rest().len() == 0 ==> symbol is None && final(self).rest() == old(self).rest()
                && final(self).position == old(self).position,
            old(self).rest().len() > 0 ==> symbol == Some(old(self).rest()[0]) && final(self).rest()
                == old(self).rest().drop_first() && final(self).position == old(self).position + 1,
    {
        if self.position < self.symbols.len() {
            let symbol = self.symbols[self.position];
            self.position += 1;
            proof {
                assert(self.rest() =~= old(self).rest().drop_first());
            }
            Some(symbol)
        } else {
            None
        }
    }

    /// The next symbol, left unread.
    fn peek_symbol(&self) -> (symbol: Option<Symbol<char>>)
        requires
            self.wf(),
        ensures
            self.rest().len() == 0 ==> symbol is None,
            self.rest().len() > 0 ==> symbol == Some(self.rest()[0]),
    {
        if self.position < self.symbols.len() {
            Some(self.symbols[self.position])
        } else {
            None
        }
    }

    /// Skips white space and reads the symbol after it, if any.
    fn next_non_whitespace(&mut self) -> (symbol: Option<Symbol<char>>)
        requires
            old(self).wf(),
        ensures
            final(self).wf(),
            final(self).symbols == old(self).symbols,
            leading_space(old(self).rest()) == old(self).rest().len() ==> symbol is None && final(self).rest().len() == 0,
            leading_space(old(self).rest()) < old(self).rest().len() ==> ({
                let k = leading_space(old(self).rest()) as int;
                &&& symbol == Some(old(self).rest()[k])
                &&& final(self).rest() == old(self).rest().skip(k + 1)
                &&& final(self).position == old(self).position + k + 1
            }),
    {
        let ghost start = self.rest();
        let ghost start_position = self.position;
        loop
            invariant
                self.wf(),
                self.symbols == old(self).symbols,
                start == old(self).rest(),
                start_position == old(self).position,
                self.position >= start_position,
                self.rest() == start.skip(self.position - start_position),
                leading_space(start) == (self.position - start_position) + leading_space(self.rest()),
            ensures
                self.wf(),
                self.symbols == old(self).symbols,
                leading_space(start) == start.len() ==> self.rest().len() == 0,
                leading_space(start) < start.len() ==> self.position == start_position + leading_space(start)
                    && leading_space(self.rest()) == 0 && self.rest() == start.skip(self.position - start_position),
            decreases self.rest().len(),
        {
            let ghost before = self.rest();
            if self.position >= self.symbols.len() {
                proof {
                    assert(self.rest().len() == 0);
                }
                break;
            }
            let current = self.symbols[self.position];
            if !is_whitespace(current.data) {
                proof {
                    assert(before[0] == current);
                }
                break;
            }
            self.position += 1;
            proof {
                assert(before[0] == current);
                assert(self.rest() =~= before.drop_first());
                assert(self.rest() =~= start.skip(self.position - start_position));
            }
        }
        let symbol = self.next_symbol();
        proof {
            if leading_space(start) < start.len() {
                let k = leading_space(start) as int;
                assert(self.rest() =~= start.skip(k + 1));
                assert(old(self).rest()[k] == start[k]);
            }
        }
        symbol
    }
}

/// The span from the start of `first` to `end` included, when both are known.
fn join_span(first: Symbol<char>, end: Option<Location>) -> (span: Option<Span>)
    requires
        first.span is Some ==> first.span->0 == Span::at(start_of(first)),
        end_after(first, end),
    ensures
        span == joined_span(first, end),
{
    match (first.span, end) {
        (Some(first_span), Some(end)) => {
            proof {
                Span::lemma_of(start_of(first), Location { line: start_of(first).line, column: (start_of(first).column + 1) as u128 });
            }
            Some(Span::new_inclusive(first_span.start(), end))
        },
        _ => None,
    }
}

/// The character an escaped `c` stands for.
fn unescape_char(c: char) -> (d: char)
    ensures
        d == unescape(c),
{
    match c {
        'n' => '\n',
        't' => '\t',
        'r' => '\r',
        _ => c,
    }
}

impl Lexer {
    fn lex_comma(&mut self, first: Symbol<char>) -> (result: Result<Symbol<Token>, LexError>)
        ensures
            result == Ok::<Symbol<Token>, LexError>(Symbol { data: Token::Comma, span: first.span }),
            *final(self) == *old(self),
    {
        Ok(Symbol { data: Token::Comma, span: first.span })
    }

    fn lex_semicolon(&mut self, first: Symbol<char>) -> (result: Result<Symbol<Token>, LexError>)
        ensures
            result == Ok::<Symbol<Token>, LexError>(Symbol { data: Token::Semicolon, span: first.span }),
            *final(self) == *old(self),
    {
        Ok(Symbol { data: Token::Semicolon, span: first.span })
    }

    fn lex_equal(&mut self, first: Symbol<char>) -> (result: Result<Symbol<Token>, LexError>)
        ensures
            result == Ok::<Symbol<Token>, LexError>(Symbol { data: Token::Equal, span: first.span }),
            *final(self) == *old(self),
    {
        Ok(Symbol { data: Token::Equal, span: first.span })
    }

    fn lex_pipe(&mut self, first: Symbol<char>) -> (result: Result<Symbol<Token>, LexError>)
        ensures
            result == Ok::<Symbol<Token>, LexError>(Symbol { data: Token::Pipe, span: first.span }),
            *final(self) == *old(self),
    {
        Ok(Symbol { data: Token::Pipe, span: first.span })
    }

    fn lex_times(&mut self, first: Symbol<char>) -> (result: Result<Symbol<Token>, LexError>)
        ensures
            result == Ok::<Symbol<Token>, LexError>(Symbol { data: Token::Times, span: first.span }),
            *final(self) == *old(self),
    {
        Ok(Symbol { data: Token::Times, span: first.span })
    }

    fn lex_except(&mut self, first: Symbol<char>) -> (result: Result<Symbol<Token>, LexError>)
        ensures
            result == Ok::<Symbol<Token>, LexError>(Symbol { data: Token::Except, span: first.span }),
            *final(self) == *old(self),
    {
        Ok(Symbol { data: Token::Except, span: first.span })
    }

    fn lex_close_paren(&mut self, first: Symbol<char>) -> (result: Result<Symbol<Token>, LexError>)
        ensures
            result == Ok::<Symbol<Token>, LexError>(Symbol { data: Token::CloseParen, span: first.span }),
            *final(self) == *old(self),
    {
        Ok(Symbol { data: Token::CloseParen, span: first.span })
    }

    fn lex_open_square(&mut self, first: Symbol<char>) -> (result: Result<Symbol<Token>, LexError>)
        ensures
            result == Ok::<Symbol<Token>, LexError>(Symbol { data: Token::OpenSquare, span: first.span }),
            *final(self) == *old(self),
    {
        Ok(Symbol { data: Token::OpenSquare, span: first.span })
    }

    fn lex_close_square(&mut self, first: Symbol<char>) -> (result: Result<Symbol<Token>, LexError>)
        ensures
            result == Ok::<Symbol<Token>, LexError>(Symbol { data: Token::CloseSquare, span: first.span }),
            *final(self) == *old(self),
    {
        Ok(Symbol { data: Token::CloseSquare, span: first.span })
    }

    fn lex_open_curly(&mut self, first: Symbol<char>) -> (result: Result<Symbol<Token>, LexError>)
        ensures
            result == Ok::<Symbol<Token>, LexError>(Symbol { data: Token::OpenCurly, span: first.span }),
            *final(self) == *old(self),
    {
        Ok(Symbol { data: Token::OpenCurly, span: first.span })
    }

    fn lex_close_curly(&mut self, first: Symbol<char>) -> (result: Result<Symbol<Token>, LexError>)
        ensures
            result == Ok::<Symbol<Token>, LexError>(Symbol { data: Token::CloseCurly, span: first.span }),
            *final(self) == *old(self),
    {
        Ok(Symbol { data: Token::CloseCurly, span: first.span })
    }

    /// Reads quoted text up to the closing quote; a special sequence when
    /// `special` holds, a terminal otherwise.
    fn lex_quoted(&mut self, quote: Symbol<char>, special: bool) -> (result: Result<Symbol<Token>, LexError>)
        requires
            old(self).wf(),
            old(self).rest_after(quote),
            quote.span is Some ==> quote.span->0 == Span::at(start_of(quote)),
        ensures
            final(self).wf(),
            final(self).symbols == old(self).symbols,
            match quoted(old(self).rest(), quote.data, false, Seq::empty(), None, 0) {
                Some((text, end, read)) => {
                    &&& agrees(
                        result,
                        Lexed::Token(
                            (if special { TokenKind::Special } else { TokenKind::Terminal }, text, 0),
                            joined_span(quote, end),
                        ),
                    )
                    &&& final(self).rest() == old(self).rest().skip(read as int)
                },
                None => {
                    &&& result == Err::<Symbol<Token>, LexError>(
                        if special {
                            LexError::UnfinishedSpecial(quote)
                        } else {
                            LexError::UnfinishedQuote(quote)
                        },
                    )
                    &&& final(self).rest().len() == 0
                },
            },
    {
        let ghost start = self.rest();
        let mut quoted_text = String::new();
        let mut span_end: Option<Location> = None;
        let mut escape = false;
        let ghost mut read: nat = 0;
        loop
            invariant
                self.wf(),
                self.symbols == old(self).symbols,
                start == old(self).rest(),
                self.rest() == start.skip(read as int),
                read <= start.len(),
                old(self).rest_after(quote),
                end_after(quote, span_end),
                quote.span is Some ==> quote.span->0 == Span::at(start_of(quote)),
                quoted(start, quote.data, false, Seq::empty(), None, 0) == quoted(
                    self.rest(),
                    quote.data,
                    escape,
                    quoted_text@,
                    span_end,
                    read,
                ),
            decreases self.rest().len(),
        {
            let ghost before = self.rest();
            match self.next_symbol() {
                Some(symbol) => {
                    proof {
                        assert(symbol == start[read as int]);
                        assert(after_first(quote, symbol));
                        lemma_end_after(quote, span_end, symbol);
                        assert(self.rest() =~= start.skip(read + 1int));
                    }
                    let symbol_end = match symbol.span {
                        Some(span) => Some(span.end()),
                        None => None,
                    };
                    span_end = later_location(span_end, symbol_end);
                    proof {
                        read = read + 1;
                    }
                    if escape {
                        escape = false;
                        push_char(&mut quoted_text, unescape_char(symbol.data));
                    } else if symbol.data == quote.data {
                        let span = join_span(quote, span_end);
                        let data = if special {
                            Token::Special(quoted_text)
                        } else {
                            Token::Terminal(quoted_text)
                        };
                        return Ok(Symbol { data, span });
                    } else if symbol.data == '\\' {
                        escape = true;
                    } else {
                        push_char(&mut quoted_text, symbol.data);
                    }
                },
                None => {
                    return Err(
                        if special {
                            LexError::UnfinishedSpecial(quote)
                        } else {
                            LexError::UnfinishedQuote(quote)
                        },
                    );
                },
            }
        }
    }

    fn lex_terminal(&mut self, first: Symbol<char>) -> (result: Result<Symbol<Token>, LexError>)
        requires
            old(self).wf(),
            old(self).rest_after(first),
            first.span is Some ==> first.span->0 == Span::at(start_of(first)),
        ensures
            final(self).wf(),
            final(self).symbols == old(self).symbols,
            match quoted(old(self).rest(), first.data, false, Seq::empty(), None, 0) {
                Some((text, end, read)) => {
                    &&& agrees(result, Lexed::Token((TokenKind::Terminal, text, 0), joined_span(first, end)))
                    &&& final(self).rest() == old(self).rest().skip(read as int)
                },
                None => {
                    &&& result == Err::<Symbol<Token>, LexError>(LexError::UnfinishedQuote(first))
                    &&& final(self).rest().len() == 0
                },
            },
    {
        self.lex_quoted(first, false)
    }

    fn lex_special(&mut self, first: Symbol<char>) -> (result: Result<Symbol<Token>, LexError>)
        requires
            old(self).wf(),
            old(self).rest_after(first),
            first.span is Some ==> first.span->0 == Span::at(start_of(first)),
        ensures
            final(self).wf(),
            final(self).symbols == old(self).symbols,
            match quoted(old(self).rest(), first.data, false, Seq::empty(), None, 0) {
                Some((text, end, read)) => {
                    &&& agrees(result, Lexed::Token((TokenKind::Special, text, 0), joined_span(first, end)))
                    &&& final(self).rest() == old(self).rest().skip(read as int)
                },
                None => {
                    &&& result == Err::<Symbol<Token>, LexError>(LexError::UnfinishedSpecial(first))
                    &&& final(self).rest().len() == 0
                },
            },
    {
        self.lex_quoted(first, true)
    }
}

/// Ten to the power `exponent`, as `u128::pow` gives it.
fn power_of_ten(exponent: u32) -> (power: u128)
    requires
        pow10(exponent as nat) <= u128::MAX,
    ensures
        power == pow10(exponent as nat),
{
    let mut power: u128 = 1;
    let mut i: u32 = 0;
    while i < exponent
        invariant
            i <= exponent,
            power == pow10(i as nat),
            pow10(exponent as nat) <= u128::MAX,
        decreases exponent - i,
    {
        proof {
            lemma_pow10_grows(i as nat + 1, exponent as nat);
        }
        power = power * 10;
        i += 1;
    }
    power
}

proof fn lemma_pow10_grows(a: nat, b: nat)
    requires
        a <= b,
    ensures
        pow10(a) <= pow10(b),
    decreases b,
{
    if a < b {
        lemma_pow10_grows(a, (b - 1) as nat);
    }
}

impl Lexer {
    /// Reads the rest of the name of a non-terminal starting with `first`.
    fn lex_non_term(&mut self, first: Symbol<char>) -> (result: Result<Symbol<Token>, LexError>)
        requires
            old(self).wf(),
            old(self).rest_after(first),
            first.span is Some ==> first.span->0 == Span::at(start_of(first)),
        ensures
            final(self).wf(),
            final(self).symbols == old(self).symbols,
            ({
                let (text, end, read) = name(old(self).rest(), seq![first.data], false, None, 0);
                &&& agrees(result, Lexed::Token((TokenKind::NonTerm, text, 0), joined_span(first, end)))
                &&& final(self).rest() == old(self).rest().skip(read as int)
            }),
    {
        let ghost start = self.rest();
        let mut ident = String::new();
        push_char(&mut ident, first.data);
        let mut whitespace = false;
        let mut span_end: Option<Location> = None;
        let ghost mut read: nat = 0;
        proof {
            assert(ident@ =~= seq![first.data]);
        }
        loop
            invariant
                self.wf(),
                self.symbols == old(self).symbols,
                start == old(self).rest(),
                self.rest() == start.skip(read as int),
                read <= start.len(),
                old(self).rest_after(first),
                end_after(first, span_end),
                first.span is Some ==> first.span->0 == Span::at(start_of(first)),
                name(start, seq![first.data], false, None, 0) == name(self.rest(), ident@, whitespace, span_end, read),
            ensures
                self.wf(),
                self.symbols == old(self).symbols,
                end_after(first, span_end),
                name(start, seq![first.data], false, None, 0) == (ident@, span_end, read),
                self.rest() == start.skip(read as int),
            decreases self.rest().len(),
        {
            let ghost before = self.rest();
            match self.peek_symbol() {
                Some(symbol) => {
                    proof {
                        assert(symbol == start[read as int]);
                        assert(after_first(first, symbol));
                    }
                    if is_whitespace(symbol.data) {
                        whitespace = true;
                        self.next_symbol();
                        proof {
                            read = read + 1;
                            assert(self.rest() =~= start.skip(read as int));
                        }
                    } else {
                        let should_continue = symbol.data == '_' || symbol.data == '$' || is_alphanumeric(symbol.data);
                        if should_continue {
                            if whitespace {
                                whitespace = false;
                                push_char(&mut ident, ' ');
                            }
                            push_char(&mut ident, symbol.data);
                            proof {
                                lemma_end_after(first, span_end, symbol);
                            }
                            let symbol_end = match symbol.span {
                                Some(span) => Some(span.end()),
                                None => None,
                            };
                            span_end = later_location(span_end, symbol_end);
                            self.next_symbol();
                            proof {
                                read = read + 1;
                                assert(self.rest() =~= start.skip(read as int));
                            }
                        } else {
                            break;
                        }
                    }
                },
                None => break,
            }
        }
        let span = join_span(first, span_end);
        Ok(Symbol { data: Token::NonTerm(ident), span })
    }

    /// Reads the other digits of a number starting with `first`; each digit is
    /// added times ten to the power of its place after the first.
    fn lex_number(&mut self, first: Symbol<char>) -> (result: Result<Symbol<Token>, LexError>)
        requires
            old(self).wf(),
            decimal_digit(first.data) is Some,
            number_fits(old(self).rest(), decimal_digit(first.data)->0 as nat, 1),
        ensures
            final(self).wf(),
            final(self).symbols == old(self).symbols,
            ({
                let (value, read) = number(old(self).rest(), decimal_digit(first.data)->0 as nat, 1, 0);
                &&& agrees(result, Lexed::Token((TokenKind::Number, Seq::empty(), value as u128), first.span))
                &&& final(self).rest() == old(self).rest().skip(read as int)
            }),
    {
        let ghost start = self.rest();
        let mut number_value: u128 = match to_decimal_digit(first.data) {
            Some(digit) => digit as u128,
            None => 0,
        };
        let mut exponent: u32 = 1;
        let ghost mut read: nat = 0;
        loop
            invariant
                self.wf(),
                self.symbols == old(self).symbols,
                start == old(self).rest(),
                self.rest() == start.skip(read as int),
                read <= start.len(),
                number(start, decimal_digit(first.data)->0 as nat, 1, 0) == number(self.rest(), number_value as nat, exponent as nat, read),
                number_fits(self.rest(), number_value as nat, exponent as nat),
            ensures
                self.wf(),
                self.symbols == old(self).symbols,
                number(start, decimal_digit(first.data)->0 as nat, 1, 0) == (number_value as nat, read),
                self.rest() == start.skip(read as int),
            decreases self.rest().len(),
        {
            match self.peek_symbol() {
                Some(symbol) => match to_decimal_digit(symbol.data) {
                    Some(digit) => {
                        let power = power_of_ten(exponent);
                        number_value = number_value + power * digit as u128;
                        exponent = exponent + 1;
                        self.next_symbol();
                        proof {
                            read = read + 1;
                            assert(self.rest() =~= start.skip(read as int));
                        }
                    },
                    None => break,
                },
                None => break,
            }
        }
        Ok(Symbol { data: Token::Number(number_value), span: first.span })
    }

    /// Reads a comment whose opening `(*` are `first` and `_second`.
    fn lex_comment(&mut self, first: Symbol<char>, _second: Symbol<char>) -> (result: Result<Symbol<Token>, LexError>)
        requires
            old(self).wf(),
            old(self).rest_after(first),
            first.span is Some ==> first.span->0 == Span::at(start_of(first)),
        ensures
            final(self).wf(),
            final(self).symbols == old(self).symbols,
            match comment(old(self).rest(), 1, Seq::empty(), None, None, 0) {
                Some((text, end, read)) => {
                    &&& agrees(result, Lexed::Token((TokenKind::Comment, text, 0), joined_span(first, end)))
                    &&& final(self).rest() == old(self).rest().skip(read as int)
                    &&& read <= old(self).rest().len()
                },
                None => {
                    &&& result == Err::<Symbol<Token>, LexError>(LexError::UnclosedComment(first))
                    &&& final(self).rest().len() == 0
                },
            },
    {
        let ghost start = self.rest();
        let total = self.symbols.len();
        let mut stack_count: u128 = 1;
        let mut content = String::new();
        let mut prev: Option<char> = None;
        let mut span_end: Option<Location> = None;
        let ghost mut read: nat = 0;
        loop
            invariant
                self.wf(),
                self.symbols == old(self).symbols,
                start == old(self).rest(),
                self.rest() == start.skip(read as int),
                read <= start.len(),
                1 <= stack_count <= read + 1,
                start.len() <= total,
                total == self.symbols@.len(),
                old(self).rest_after(first),
                end_after(first, span_end),
                first.span is Some ==> first.span->0 == Span::at(start_of(first)),
                comment(start, 1, Seq::empty(), None, None, 0) == comment(
                    self.rest(),
                    stack_count as nat,
                    content@,
                    prev,
                    span_end,
                    read,
                ),
            decreases self.rest().len(),
        {
            match self.next_symbol() {
                Some(symbol) => {
                    proof {
                        assert(symbol == start[read as int]);
                        assert(after_first(first, symbol));
                        lemma_end_after(first, span_end, symbol);
                    }
                    let symbol_end = match symbol.span {
                        Some(span) => Some(span.end()),
                        None => None,
                    };
                    span_end = later_location(span_end, symbol_end);
                    proof {
                        read = read + 1;
                        assert(self.rest() =~= start.skip(read as int));
                    }
                    if prev == Some('*') && symbol.data == ')' {
                        stack_count = stack_count - 1;
                        if stack_count == 0 {
                            let span = join_span(first, span_end);
                            return Ok(Symbol { data: Token::Comment(content), span });
                        }
                    }
                    if prev == Some('(') && symbol.data == '*' {
                        stack_count = stack_count + 1;
                    }
                    if let Some(prev_char) = prev {
                        push_char(&mut content, prev_char);
                    }
                    prev = Some(symbol.data);
                },
                None => {
                    return Err(LexError::UnclosedComment(first));
                },
            }
        }
    }

    fn lex_open_paren(&mut self, first: Symbol<char>) -> (result: Result<Symbol<Token>, LexError>)
        requires
            old(self).wf(),
            old(self).rest_after(first),
            first.span is Some ==> first.span->0 == Span::at(start_of(first)),
        ensures
            final(self).wf(),
            final(self).symbols == old(self).symbols,
            ({
                let rest = old(self).rest();
                if rest.len() > 0 && rest[0].data == '*' {
                    match comment(rest.drop_first(), 1, Seq::empty(), None, None, 0) {
                        Some((text, end, read)) => {
                            &&& agrees(result, Lexed::Token((TokenKind::Comment, text, 0), joined_span(first, end)))
                            &&& final(self).rest() == rest.skip(read + 1int)
                        },
                        None => {
                            &&& result == Err::<Symbol<Token>, LexError>(LexError::UnclosedComment(first))
                            &&& final(self).rest().len() == 0
                        },
                    }
                } else {
                    &&& result == Ok::<Symbol<Token>, LexError>(Symbol { data: Token::OpenParen, span: first.span })
                    &&& final(self).rest() == rest
                }
            }),
    {
        match self.peek_symbol() {
            Some(second) => {
                if second.data == '*' {
                    let ghost rest = self.rest();
                    self.next_symbol();
                    proof {
                        assert forall|i: int| 0 <= i < self.rest().len() implies after_first(first, #[trigger] self.rest()[i]) by {
                            assert(self.rest()[i] == rest[i + 1]);
                        }
                    }
                    let result = self.lex_comment(first, second);
                    proof {
                        if let Some((text, end, read)) = comment(rest.drop_first(), 1, Seq::empty(), None, None, 0) {
                            assert(rest.drop_first().skip(read as int) =~= rest.skip(read + 1int));
                        }
                    }
                    return result;
                }
                Ok(Symbol { data: Token::OpenParen, span: first.span })
            },
            None => Ok(Symbol { data: Token::OpenParen, span: first.span }),
        }
    }
}

/// Where a number too big for `u128` is reported: at its first digit, or at the very start
/// where the digit has no span.
pub open spec fn number_span(first: Symbol<char>) -> Span {
    match first.span {
        Some(span) => span,
        None => Span::at(Location { line: 1, column: 1 }),
    }
}

/// Whether reading the next token of `rest` keeps numbers within `u128`.
pub open spec fn lexable(rest: Seq<Symbol<char>>) -> bool {
    let k = leading_space(rest) as int;
    k < rest.len() && decimal_digit(rest[k].data) is Some && !(rest[k].data == '$' || rest[k].data == '_' || alphabetic(
        rest[k].data,
    )) ==> number_fits(rest.skip(k + 1), decimal_digit(rest[k].data)->0 as nat, 1)
}

/// The leading white space of `rest` is shorter than `rest`, or all of it.
proof fn lemma_leading_space(rest: Seq<Symbol<char>>)
    ensures
        leading_space(rest) <= rest.len(),
        leading_space(rest) < rest.len() ==> !white_space(rest[leading_space(rest) as int].data),
    decreases rest.len(),
{
    if rest.len() > 0 && white_space(rest[0].data) {
        lemma_leading_space(rest.drop_first());
        if leading_space(rest) < rest.len() {
            assert(rest[leading_space(rest) as int] == rest.drop_first()[leading_space(rest.drop_first()) as int]);
        }
    }
}

impl Lexer {
    /// The symbols after the one just read come after it.
    proof fn lemma_rest_after(&self, first: Symbol<char>)
        requires
            self.wf(),
            self.position >= 1,
            first == self.symbols@[self.position - 1],
        ensures
            self.rest_after(first),
            first.span is Some ==> first.span->0 == Span::at(start_of(first)),
    {
        assert forall|i: int| 0 <= i < self.rest().len() implies after_first(first, #[trigger] self.rest()[i]) by {
            assert(self.rest()[i] == self.symbols@[self.position + i]);
            assert(location_le(start_of(self.symbols@[self.position - 1]), start_of(self.symbols@[self.position + i])));
        }
    }

    /// Whether the digits from `start` on, read after a first digit worth `value`, make a number
    /// within `u128`.
    fn digits_fit(&self, start: usize, value: u128) -> (fits: bool)
        requires
            self.wf(),
            start <= self.symbols@.len(),
        ensures
            fits == number_fits(self.symbols@.skip(start as int), value as nat, 1),
    {
        proof {
            reveal_with_fuel(pow10, 40);
            assert(pow10(38) == 100000000000000000000000000000000000000nat);
        }
        let mut i: usize = start;
        let mut v: u128 = value;
        let mut exponent: u32 = 1;
        while i < self.symbols.len()
            invariant
                self.wf(),
                start <= i <= self.symbols@.len(),
                1 <= exponent < 40,
                pow10(38) == 100000000000000000000000000000000000000nat,
                number_fits(self.symbols@.skip(start as int), value as nat, 1) == number_fits(
                    self.symbols@.skip(i as int),
                    v as nat,
                    exponent as nat,
                ),
            decreases self.symbols.len() - i,
        {
            let ghost rest = self.symbols@.skip(i as int);
            proof {
                assert(rest[0] == self.symbols@[i as int]);
                assert(rest.drop_first() =~= self.symbols@.skip(i + 1));
            }
            match to_decimal_digit(self.symbols[i].data) {
                None => {
                    return true;
                },
                Some(digit) => {
                    if exponent >= 39 {
                        return false;
                    }
                    proof {
                        lemma_pow10_grows(exponent as nat, 38);
                    }
                    let power = power_of_ten(exponent);
                    match power.checked_mul(digit as u128) {
                        None => {
                            return false;
                        },
                        Some(product) => match v.checked_add(product) {
                            None => {
                                return false;
                            },
                            Some(sum) => {
                                v = sum;
                            },
                        },
                    }
                    exponent = exponent + 1;
                    i = i + 1;
                },
            }
        }
        proof {
            assert(self.symbols@.skip(i as int).len() == 0);
        }
        true
    }

    /// Whether reading the next token keeps its number, if it is one, within `u128`.
    pub fn next_fits(&self) -> (fits: bool)
        requires
            self.wf(),
        ensures
            fits == lexable(self.rest()),
    {
        let ghost rest = self.rest();
        let mut k: usize = self.position;
        proof {
            assert(self.symbols@.skip(k as int) =~= rest);
        }
        while k < self.symbols.len() && is_whitespace(self.symbols[k].data)
            invariant
                self.wf(),
                rest == self.rest(),
                self.position <= k <= self.symbols@.len(),
                leading_space(rest) == (k - self.position) + leading_space(self.symbols@.skip(k as int)),
            decreases self.symbols.len() - k,
        {
            proof {
                let here = self.symbols@.skip(k as int);
                assert(here[0] == self.symbols@[k as int]);
                assert(here.drop_first() =~= self.symbols@.skip(k + 1));
            }
            k = k + 1;
        }
        proof {
            let here = self.symbols@.skip(k as int);
            if k < self.symbols.len() {
                assert(here[0] == self.symbols@[k as int]);
            }
            assert(leading_space(here) == 0);
            assert(k - self.position == leading_space(rest));
        }
        if k >= self.symbols.len() {
            return true;
        }
        let c = self.symbols[k].data;
        proof {
            assert(rest[k - self.position] == self.symbols@[k as int]);
            assert(rest.skip(k - self.position + 1) =~= self.symbols@.skip(k + 1));
        }
        match to_decimal_digit(c) {
            None => true,
            Some(digit) => {
                if c == '$' || c == '_' || is_alphabetic(c) {
                    true
                } else {
                    self.digits_fit(k + 1, digit as u128)
                }
            },
        }
    }

    /// Reads the next token as `next` does, where its number, if it is one, fits in `u128`;
    /// otherwise reads nothing and gives `NumberTooBig` with the span of the number's first
    /// digit (the span at the very start where the digit has none).
    pub fn try_next(&mut self) -> (result: Option<Result<Symbol<Token>, LexError>>)
        requires
            old(self).wf(),
        ensures
            final(self).wf(),
            lexable(old(self).rest()) ==> ({
                let rest = old(self).rest();
                let k = leading_space(rest) as int;
                if k == rest.len() {
                    result is None && final(self).rest().len() == 0
                } else {
                    let (lexed, read) = token_after(rest[k], rest.skip(k + 1));
                    result matches Some(r) && agrees(r, lexed) && final(self).rest() == rest.skip(k + 1).skip(read as int)
                }
            }),
            !lexable(old(self).rest()) ==> *final(self) == *old(self) && result == Some(
                Err::<Symbol<Token>, LexError>(LexError::NumberTooBig(
                    number_span(old(self).rest()[leading_space(old(self).rest()) as int]),
                )),
            ),
    {
        if self.next_fits() {
            return self.next();
        }
        let ghost rest = self.rest();
        let mut k: usize = self.position;
        proof {
            assert(self.symbols@.skip(k as int) =~= rest);
        }
        while k < self.symbols.len() && is_whitespace(self.symbols[k].data)
            invariant
                self.wf(),
                rest == self.rest(),
                !lexable(rest),
                self.position <= k <= self.symbols@.len(),
                leading_space(rest) == (k - self.position) + leading_space(self.symbols@.skip(k as int)),
            decreases self.symbols.len() - k,
        {
            proof {
                let here = self.symbols@.skip(k as int);
                assert(here[0] == self.symbols@[k as int]);
                assert(here.drop_first() =~= self.symbols@.skip(k + 1));
            }
            k = k + 1;
        }
        proof {
            let here = self.symbols@.skip(k as int);
            if k < self.symbols.len() {
                assert(here[0] == self.symbols@[k as int]);
                assert(rest[k - self.position] == self.symbols@[k as int]);
            }
            assert(leading_space(here) == 0);
        }
        let first = self.symbols[k];
        let span = match first.span {
            Some(span) => span,
            None => Span::default(),
        };
        Some(Err(LexError::NumberTooBig(span)))
    }

    /// Reads the next token, skipping the white space before it; `None` when
    /// only white space is left.
    pub fn next(&mut self) -> (result: Option<Result<Symbol<Token>, LexError>>)
        requires
            old(self).wf(),
            lexable(old(self).rest()),
        ensures
            final(self).wf(),
            ({
                let rest = old(self).rest();
                let k = leading_space(rest) as int;
                if k == rest.len() {
                    result is None && final(self).rest().len() == 0
                } else {
                    let (lexed, read) = token_after(rest[k], rest.skip(k + 1));
                    result matches Some(r) && agrees(r, lexed) && final(self).rest() == rest.skip(k + 1).skip(read as int)
                }
            }),
    {
        let ghost rest = self.rest();
        proof {
            lemma_leading_space(rest);
        }
        let first = match self.next_non_whitespace() {
            Some(symbol) => symbol,
            None => return None,
        };
        proof {
            let k = leading_space(rest) as int;
            assert(self.rest() =~= rest.skip(k + 1));
            assert(first == self.symbols@[self.position - 1]);
            self.lemma_rest_after(first);
            assert(rest.skip(k + 1).skip(0) =~= rest.skip(k + 1));
        }
        let result = match first.data {
            ',' => self.lex_comma(first),
            ';' => self.lex_semicolon(first),
            '=' => self.lex_equal(first),
            '|' => self.lex_pipe(first),
            '*' => self.lex_times(first),
            '-' => self.lex_except(first),
            '(' => self.lex_open_paren(first),
            ')' => self.lex_close_paren(first),
            '[' => self.lex_open_square(first),
            ']' => self.lex_close_square(first),
            '{' => self.lex_open_curly(first),
            '}' => self.lex_close_curly(first),
            '"' | '\'' => self.lex_terminal(first),
            '?' => self.lex_special(first),
            '$' => self.lex_non_term(first),
            '_' => self.lex_non_term(first),
            _ => {
                if is_alphabetic(first.data) {
                    self.lex_non_term(first)
                } else if to_decimal_digit(first.data).is_some() {
                    self.lex_number(first)
                } else {
                    Err(LexError::Unrecognized(first))
                }
            },
        };
        Some(result)
    }
}

} // verus!
