//! Positions in a text, and the characters of a text with their positions.
use crate::text::{decimal, push_decimal};
use vstd::prelude::*;

verus! {

/// A line and a column, both counted from 1.
#[derive(Debug, Clone, Copy, PartialEq, Eq, PartialOrd, Ord, Hash, Structural)]
pub struct Location {
    pub line: u128,
    pub column: u128,
}

/// Whether `a` comes no later than `b`: by line, then by column.
pub open spec fn location_le(a: Location, b: Location) -> bool {
    a.line < b.line || (a.line == b.line && a.column <= b.column)
}

/// Whether `a` comes no later than `b`.
pub fn location_le_exec(a: Location, b: Location) -> (le: bool)
    ensures
        le == location_le(a, b),
{
    a.line < b.line || (a.line == b.line && a.column <= b.column)
}

/// The location after reading `c` at `location`.
pub open spec fn advance(location: Location, c: char) -> Location {
    if c == '\n' {
        Location { line: (location.line + 1) as u128, column: 1 }
    } else {
        Location { line: location.line, column: (location.column + 1) as u128 }
    }
}

/// How a location is written: its line and its column, in decimal.
pub open spec fn location_text(location: Location) -> Seq<char> {
    "line "@ + decimal(location.line as nat) + ", column "@ + decimal(location.column as nat)
}

impl Location {
    /// The location written out, as `line L, column C`.
    pub fn to_string(&self) -> (text: String)
        ensures
            text@ == location_text(*self),
    {
        let mut text = String::new();
        self.write_to(&mut text);
        text
    }

    /// Appends the location written out.
    pub fn write_to(&self, text: &mut String)
        ensures
            final(text)@ == old(text)@ + location_text(*self),
    {
        text.append("line ");
        push_decimal(text, self.line);
        text.append(", column ");
        push_decimal(text, self.column);
        assert(final(text)@ =~= old(text)@ + location_text(*self));
    }
}

impl Default for Location {
    fn default() -> (location: Self)
        ensures
            location == (Location { line: 1, column: 1 }),
    {
        Self { line: 1, column: 1 }
    }
}

/// A stretch of text, from `start` up to but not including `end`.
#[derive(Debug, Clone, Copy, PartialEq, Eq, PartialOrd, Ord, Hash, Structural)]
pub struct Span {
    start: Location,
    end: Location,
}

/// Why a span could not be made.
#[derive(Debug, Clone)]
pub struct SpanError {
    pub given_start: Location,
    pub given_end: Location,
}

impl Span {
    /// Where the span starts.
    pub closed spec fn start_spec(self) -> Location {
        self.start
    }

    /// Where the span ends, exclusive.
    pub closed spec fn end_spec(self) -> Location {
        self.end
    }

    /// The span with these ends.
    pub closed spec fn of(start: Location, end: Location) -> Span {
        Span { start, end }
    }

    pub proof fn lemma_of(start: Location, end: Location)
        ensures
            Span::of(start, end).start_spec() == start,
            Span::of(start, end).end_spec() == end,
    {
    }

    /// The span of the single character at `location`.
    pub open spec fn at(location: Location) -> Span {
        Span::of(location, Location { line: location.line, column: (location.column + 1) as u128 })
    }

    /// The span from `start` to `end`; `end` must not come before `start`.
    pub fn new(start: Location, end: Location) -> (span: Self)
        requires
            location_le(start, end),
        ensures
            span == Span::of(start, end),
    {
        Span { start, end }
    }

    /// The span from `start` to `end`, refused when `end` comes before `start`.
    pub fn try_new(start: Location, end: Location) -> (result: Result<Self, SpanError>)
        ensures
            location_le(start, end) ==> result == Ok::<Span, SpanError>(Span::of(start, end)),
            !location_le(start, end) ==> (result matches Err(error) && error.given_start == start
                && error.given_end == end),
    {
        if location_le_exec(start, end) {
            Ok(Span { start, end })
        } else {
            Err(SpanError { given_start: start, given_end: end })
        }
    }

    /// The span from `start` to `end` included, refused when the place after
    /// `end` comes before `start`.
    pub fn try_new_inclusive(start: Location, end: Location) -> (result: Result<Self, SpanError>)
        requires
            end.column < u128::MAX,
        ensures
            ({
                let converted_end = Location { line: end.line, column: (end.column + 1) as u128 };
                &&& location_le(start, converted_end) ==> result == Ok::<Span, SpanError>(Span::of(start, converted_end))
                &&& !location_le(start, converted_end) ==> (result matches Err(error) && error.given_start == start
                    && error.given_end == end)
            }),
    {
        let converted_end = Location { line: end.line, column: end.column + 1 };
        if location_le_exec(start, converted_end) {
            Ok(Self::new(start, converted_end))
        } else {
            Err(SpanError { given_start: start, given_end: end })
        }
    }

    /// The span from `start` to `end` included.
    pub fn new_inclusive(start: Location, end: Location) -> (span: Self)
        requires
            end.column < u128::MAX,
            location_le(start, Location { line: end.line, column: (end.column + 1) as u128 }),
        ensures
            span == Span::of(start, Location { line: end.line, column: (end.column + 1) as u128 }),
    {
        match Self::try_new_inclusive(start, end) {
            Ok(span) => span,
            Err(_) => Span { start, end },
        }
    }

    /// The span of the single character at `location`.
    pub fn from(location: Location) -> (span: Self)
        requires
            location.column < u128::MAX,
        ensures
            span == Span::at(location),
    {
        Self::new(location, Location { line: location.line, column: location.column + 1 })
    }

    pub fn start(self) -> (start: Location)
        ensures
            start == self.start_spec(),
    {
        self.start
    }

    pub fn end(self) -> (end: Location)
        ensures
            end == self.end_spec(),
    {
        self.end
    }

    /// The last place within the span: one column before its end.
    pub fn inclusive_end(self) -> (end: Location)
        requires
            self.end_spec().column > 0,
        ensures
            end == (Location { line: self.end_spec().line, column: (self.end_spec().column - 1) as u128 }),
    {
        Location { line: self.end.line, column: self.end.column - 1 }
    }
}

/// The last place within a span: one column before its end.
pub open spec fn last_place(span: Span) -> Location {
    Location { line: span.end_spec().line, column: (span.end_spec().column - 1) as u128 }
}

/// How a span is written: its only place, or its first and last places.
pub open spec fn span_text(span: Span) -> Seq<char> {
    if span.start_spec() == last_place(span) {
        location_text(span.start_spec())
    } else {
        location_text(span.start_spec()) + " - "@ + location_text(last_place(span))
    }
}

impl Span {
    /// The span written out: its only place, or its first and last places.
    pub fn to_string(&self) -> (text: String)
        requires
            self.end_spec().column > 0,
        ensures
            text@ == span_text(*self),
    {
        let mut text = String::new();
        self.write_to(&mut text);
        text
    }

    /// Appends the span written out.
    pub fn write_to(&self, text: &mut String)
        requires
            self.end_spec().column > 0,
        ensures
            final(text)@ == old(text)@ + span_text(*self),
    {
        let start = self.start();
        let last = self.inclusive_end();
        start.write_to(text);
        if start != last {
            text.append(" - ");
            last.write_to(text);
        }
        assert(final(text)@ =~= old(text)@ + span_text(*self));
    }
}

/// How a span error is written.
pub open spec fn span_error_text(error: SpanError) -> Seq<char> {
    "Span's end "@ + location_text(error.given_end) + " must not come before span's start "@
        + location_text(error.given_start)
}

impl SpanError {
    /// The error written out.
    pub fn to_string(&self) -> (text: String)
        ensures
            text@ == span_error_text(*self),
    {
        let mut text = String::new();
        text.append("Span's end ");
        self.given_end.write_to(&mut text);
        text.append(" must not come before span's start ");
        self.given_start.write_to(&mut text);
        assert(text@ =~= span_error_text(*self));
        text
    }
}

impl Default for Span {
    fn default() -> (span: Self)
        ensures
            span == Span::at(Location { line: 1, column: 1 }),
    {
        Self::from(Location::default())
    }
}

/// A piece of data with where it was found, if known.
#[derive(Debug, Clone, Copy, PartialEq, Eq, PartialOrd, Ord, Hash)]
pub struct Symbol<T> {
    pub data: T,
    pub span: Option<Span>,
}

/// The characters of a text, each with its location.
#[derive(Debug)]
pub struct Source {
    location: Location,
    input: Vec<char>,
    position: usize,
}

impl Source {
    /// The characters not read yet.
    pub closed spec fn remaining(&self) -> Seq<char> {
        self.input@.skip(self.position as int)
    }

    /// The location of the next character.
    pub closed spec fn location(&self) -> Location {
        self.location
    }

    #[verifier::type_invariant]
    closed spec fn wf(&self) -> bool {
        &&& self.position <= self.input@.len()
        &&& 1 <= self.location.line <= self.position + 1
        &&& 1 <= self.location.column <= self.position + 1
    }

    /// The text `input`, read from its start.
    pub fn new(input: Vec<char>) -> (source: Self)
        ensures
            source.remaining() == input@,
            source.location() == (Location { line: 1, column: 1 }),
    {
        let source = Self { location: Location::default(), input, position: 0 };
        proof {
            assert(source.remaining() =~= input@);
        }
        source
    }

    /// The next character with its span.
    pub fn next(&mut self) -> (symbol: Option<Symbol<char>>)
        ensures
            1 <= old(self).location().line <= u64::MAX as u128 + 1,
            1 <= old(self).location().column <= u64::MAX as u128 + 1,
            old(self).remaining().len() == 0 ==> symbol is None && final(self).remaining().len() == 0
                && final(self).location() == old(self).location(),
            old(self).remaining().len() > 0 ==> symbol == Some(
                Symbol { data: old(self).remaining()[0], span: Some(Span::at(old(self).location())) },
            ) && final(self).remaining() == old(self).remaining().drop_first() && final(self).location()
                == advance(old(self).location(), old(self).remaining()[0]),
    {
        proof {
            use_type_invariant(&*self);
        }
        if self.position >= self.input.len() {
            return None;
        }
        let character = self.input[self.position];
        let span = Span::from(self.location);
        self.position += 1;
        if character == '\n' {
            self.location = Location { line: self.location.line + 1, column: 1 };
        } else {
            self.location = Location { line: self.location.line, column: self.location.column + 1 };
        }
        proof {
            assert(self.remaining() =~= old(self).remaining().drop_first());
        }
        Some(Symbol { data: character, span: Some(span) })
    }
}

} // verus!
