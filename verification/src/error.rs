//! Everything a failed parse reports: the span of the offending token and the
//! error taxonomy.

use vstd::prelude::*;

verus! {

/// A region of the input line, as character offsets `begin..end`.
///
/// It never owns text; [`Span::arg`] reads the region back out of the line it
/// was produced from.
#[derive(Copy, Clone, Debug, PartialEq, Eq, Structural)]
pub struct Span {
    pub begin: usize,
    pub end: usize,
}

impl Span {
    /// The text of the token this span points at, read from the line the span
    /// was produced from.
    pub fn arg<'a>(&self, source: &'a str) -> (r: &'a str)
        requires
            self.begin <= self.end <= source@.len(),
        ensures
            r@ == source@.subrange(self.begin as int, self.end as int),
    {
        source.substring_char(self.begin, self.end)
    }
}

/// Why an integer token was rejected.
#[derive(Copy, Clone, Debug, PartialEq, Eq, Structural)]
pub enum IntErrorKind {
    /// The token was empty.
    Empty,
    /// A character other than a decimal digit stood where a digit was
    /// required (a lone sign counts, too).
    InvalidDigit,
    /// The value exceeds the largest 64-bit signed integer.
    PosOverflow,
    /// The value is below the smallest 64-bit signed integer.
    NegOverflow,
}

/// Every way a `parse` call can fail. Nothing is retried internally: the
/// first failure ends the call and is handed back to the caller.
#[derive(Clone, Debug)]
pub enum Error {
    /// A token stood where a command name was required and matched none.
    NotCommand(Span),
    /// A `--name` or `-x` flag matched no parameter of the current command.
    NotParameter(Span),
    /// The first token of the line began with `-`; a command was expected.
    CommandExpected(Span),
    /// A typed parameter was named but the line ended before its value.
    ParameterValueMissed,
    /// An internal invariant of the resolver was violated; defensive, never
    /// produced by a correctly built tree.
    ParserFault,
    /// The resolved command has no handler; carries the name the caller
    /// typed.
    NoHandler(String),
    /// A token that looks like a flag stood where a non-numeric value was
    /// expected.
    NotValue(Span),
    /// A token could not be coerced to a boolean.
    ParseBool(Span),
    /// A token could not be coerced to a 64-bit signed integer.
    ParseInt(Span, IntErrorKind),
    /// A token could not be coerced to a 64-bit float.
    ParseFloat(Span),
}

/// The variant of an [`Error`], with no payload; what tests and embedders
/// usually dispatch on.
#[derive(Copy, Clone, Debug, PartialEq, Eq, Structural)]
pub enum Kind {
    NotCommand,
    NotParameter,
    CommandExpected,
    ParameterValueMissed,
    ParserFault,
    NoHandler,
    NotValue,
    ParseBool,
    ParseInt,
    ParseFloat,
}

/// The mathematical value of an [`Error`]: the typed name of a handlerless
/// command as a sequence of characters.
pub enum ErrorV {
    NotCommand(Span),
    NotParameter(Span),
    CommandExpected(Span),
    ParameterValueMissed,
    ParserFault,
    NoHandler(Seq<char>),
    NotValue(Span),
    ParseBool(Span),
    ParseInt(Span, IntErrorKind),
    ParseFloat(Span),
}

impl View for Error {
    type V = ErrorV;

    open spec fn view(&self) -> ErrorV {
        match self {
            Error::NotCommand(sp) => ErrorV::NotCommand(*sp),
            Error::NotParameter(sp) => ErrorV::NotParameter(*sp),
            Error::CommandExpected(sp) => ErrorV::CommandExpected(*sp),
            Error::ParameterValueMissed => ErrorV::ParameterValueMissed,
            Error::ParserFault => ErrorV::ParserFault,
            Error::NoHandler(name) => ErrorV::NoHandler(name@),
            Error::NotValue(sp) => ErrorV::NotValue(*sp),
            Error::ParseBool(sp) => ErrorV::ParseBool(*sp),
            Error::ParseInt(sp, k) => ErrorV::ParseInt(*sp, *k),
            Error::ParseFloat(sp) => ErrorV::ParseFloat(*sp),
        }
    }
}

impl Error {
    /// The variant of this error, with no payload.
    pub fn kind(&self) -> (r: Kind)
        ensures
            r == self@.kind(),
    {
        match self {
            Error::NotCommand(_) => Kind::NotCommand,
            Error::NotParameter(_) => Kind::NotParameter,
            Error::CommandExpected(_) => Kind::CommandExpected,
            Error::ParameterValueMissed => Kind::ParameterValueMissed,
            Error::ParserFault => Kind::ParserFault,
            Error::NoHandler(_) => Kind::NoHandler,
            Error::NotValue(_) => Kind::NotValue,
            Error::ParseBool(_) => Kind::ParseBool,
            Error::ParseInt(_, _) => Kind::ParseInt,
            Error::ParseFloat(_) => Kind::ParseFloat,
        }
    }
}

impl ErrorV {
    /// The variant of this error value, with no payload.
    pub open spec fn kind(self) -> Kind {
        match self {
            ErrorV::NotCommand(_) => Kind::NotCommand,
            ErrorV::NotParameter(_) => Kind::NotParameter,
            ErrorV::CommandExpected(_) => Kind::CommandExpected,
            ErrorV::ParameterValueMissed => Kind::ParameterValueMissed,
            ErrorV::ParserFault => Kind::ParserFault,
            ErrorV::NoHandler(_) => Kind::NoHandler,
            ErrorV::NotValue(_) => Kind::NotValue,
            ErrorV::ParseBool(_) => Kind::ParseBool,
            ErrorV::ParseInt(_, _) => Kind::ParseInt,
            ErrorV::ParseFloat(_) => Kind::ParseFloat,
        }
    }
}

} // verus!
