//! Errors of (de)serialization, the positions they refer to, and their messages.
use vstd::prelude::*;

use crate::event::Event;
use crate::text::push_char;

verus! {

/// A position in the input text: the character index, the line (counted
/// from 1) and the column (counted from 0).
#[derive(Clone, Copy, Debug, PartialEq, Eq, Structural)]
pub struct Marker {
    pub index: usize,
    pub line: usize,
    pub col: usize,
}

impl Marker {
    /// The line of this position.
    pub fn line(&self) -> (r: usize)
        ensures
            r == self.line,
    {
        self.line
    }
}

/// The errors of (de)serialization.
#[derive(Debug)]
pub enum Error {
    Message(String),
    MarkedMessage { msg: String, mark: Marker },
    UnsupportedType(&'static str),
    UnexpectedStreamStart { mark: Marker, expected: &'static str },
    UnexpectedStreamEnd { mark: Marker, expected: &'static str },
    UnexpectedDocumentStart { mark: Marker, expected: &'static str },
    UnexpectedDocumentEnd { mark: Marker, expected: &'static str },
    UnexpectedScalar { mark: Marker, expected: &'static str, value: String },
    UnexpectedSequenceStart { mark: Marker, expected: &'static str },
    UnexpectedSequenceEnd { mark: Marker, expected: &'static str },
    UnexpectedMappingStart { mark: Marker, expected: &'static str },
    UnexpectedMappingEnd { mark: Marker, expected: &'static str },
}

/// The error that reports the event `ev` at `mark` where `expected` was expected.
pub open spec fn unexpected_event(ev: Event, mark: Marker, expected: &'static str) -> Error {
    match ev {
        Event::StreamStart => Error::UnexpectedStreamStart { mark, expected },
        Event::StreamEnd => Error::UnexpectedStreamEnd { mark, expected },
        Event::DocumentStart => Error::UnexpectedDocumentStart { mark, expected },
        Event::DocumentEnd => Error::UnexpectedDocumentEnd { mark, expected },
        Event::Scalar(value) => Error::UnexpectedScalar { mark, expected, value },
        Event::SequenceStart => Error::UnexpectedSequenceStart { mark, expected },
        Event::SequenceEnd => Error::UnexpectedSequenceEnd { mark, expected },
        Event::MappingStart => Error::UnexpectedMappingStart { mark, expected },
        Event::MappingEnd => Error::UnexpectedMappingEnd { mark, expected },
    }
}

/// The error `e` with the position `mark` attached: a plain message becomes a
/// marked message, every other error stays as it is.
pub open spec fn with_mark(e: Error, mark: Marker) -> Error {
    match e {
        Error::Message(msg) => Error::MarkedMessage { msg, mark },
        _ => e,
    }
}

/// The character of the decimal digit `d`.
pub open spec fn digit_char(d: nat) -> char {
    ((48 + d) as u8) as char
}

/// The decimal representation of `n`, without sign or leading zeros.
pub open spec fn decimal(n: nat) -> Seq<char>
    decreases n,
{
    if n < 10 {
        seq![digit_char(n)]
    } else {
        decimal(n / 10).push(digit_char(n % 10))
    }
}

/// The text that an error displays.
pub open spec fn error_message(e: Error) -> Seq<char> {
    match e {
        Error::Message(msg) => msg@,
        Error::MarkedMessage { msg, mark } => msg@ + " at line "@ + decimal(mark.line as nat),
        Error::UnsupportedType(t) => "(de)serialization of "@ + t@ + " is not supported"@,
        Error::UnexpectedStreamStart { mark, expected } => "expected "@ + expected@
            + ", but found the start of the stream at line "@ + decimal(mark.line as nat),
        Error::UnexpectedStreamEnd { mark, expected } => "expected "@ + expected@
            + ", but found the end of the stream at line "@ + decimal(mark.line as nat),
        Error::UnexpectedDocumentStart { mark, expected } => "expected "@ + expected@
            + ", but found the start of a document at line "@ + decimal(mark.line as nat),
        Error::UnexpectedDocumentEnd { mark, expected } => "expected "@ + expected@
            + ", but found the end of a document at line "@ + decimal(mark.line as nat),
        Error::UnexpectedScalar { mark, expected, value } => "expected "@ + expected@
            + ", but found scalar \""@ + value@ + "\" at line "@ + decimal(mark.line as nat),
        Error::UnexpectedSequenceStart { mark, expected } => "expected "@ + expected@
            + ", but found the start of a sequence at line "@ + decimal(mark.line as nat),
        Error::UnexpectedSequenceEnd { mark, expected } => "expected "@ + expected@
            + ", but found the end of a sequence at line "@ + decimal(mark.line as nat),
        Error::UnexpectedMappingStart { mark, expected } => "expected "@ + expected@
            + ", but found the start of a mapping at line "@ + decimal(mark.line as nat),
        Error::UnexpectedMappingEnd { mark, expected } => "expected "@ + expected@
            + ", but found the end of a mapping at line "@ + decimal(mark.line as nat),
    }
}

/// Appends the decimal representation of `n` to `out`.
pub fn push_decimal(out: &mut String, n: u128)
    ensures
        final(out)@ == old(out)@ + decimal(n as nat),
    decreases n,
{
    let ghost start = out@;
    if n >= 10 {
        push_decimal(out, n / 10);
    }
    let d: u8 = (n % 10) as u8;
    push_char(out, (48u8 + d) as char);
    proof {
        if n >= 10 {
            assert(out@ =~= start + decimal(n as nat));
        } else {
            assert(out@ =~= start + decimal(n as nat));
        }
    }
}

/// Appends the characters of `s` to `out`.
pub fn push_str(out: &mut String, s: &str)
    ensures
        final(out)@ == old(out)@ + s@,
{
    let cs = crate::text::chars_of(s);
    let ghost start = out@;
    let mut i: usize = 0;
    while i < cs.len()
        invariant
            i <= cs@.len(),
            cs@ == s@,
            out@ == start + cs@.take(i as int),
        decreases cs@.len() - i,
    {
        push_char(out, cs[i]);
        i = i + 1;
        proof {
            assert(cs@.take(i as int) =~= cs@.take(i - 1).push(cs@[i - 1]));
        }
    }
    proof {
        assert(cs@.take(i as int) =~= cs@);
    }
}

/// The message of serde's `invalid_value` error for the string `value` where
/// `expected` was expected.
pub uninterp spec fn invalid_value_message(value: Seq<char>, expected: Seq<char>) -> Seq<char>;

/// The text of `serde::de::Error::invalid_value(Unexpected::Str(value), &expected)`,
/// made with serde's own error type.
/// Trusted: the text is a function of `value` and `expected` alone, named
/// `invalid_value_message`; serde writes it as "invalid value: string ",
/// `value` in Rust's debug quoting, ", expected " and `expected`, which is not
/// stated here.
#[verifier::external_body]
fn serde_invalid_value_text(value: &str, expected: &str) -> (r: String)
    ensures
        r@ == invalid_value_message(value@, expected@),
{
    <serde::de::value::Error as serde::de::Error>::invalid_value(
        serde::de::Unexpected::Str(value),
        &expected,
    ).to_string()
}

impl Error {
    /// The error for the scalar `value` that cannot be read as `expected`.
    pub fn invalid_value(value: &str, expected: &'static str) -> (r: Error)
        ensures
            r matches Error::Message(m) && m@ == invalid_value_message(value@, expected@),
    {
        Error::Message(serde_invalid_value_text(value, expected))
    }

    /// A copy of this error.
    pub fn duplicate(&self) -> (r: Error)
        ensures
            r == *self,
    {
        match self {
            Error::Message(msg) => Error::Message(msg.clone()),
            Error::MarkedMessage { msg, mark } => Error::MarkedMessage { msg: msg.clone(), mark: *mark },
            Error::UnsupportedType(t) => Error::UnsupportedType(t),
            Error::UnexpectedStreamStart { mark, expected } => Error::UnexpectedStreamStart {
                mark: *mark,
                expected,
            },
            Error::UnexpectedStreamEnd { mark, expected } => Error::UnexpectedStreamEnd {
                mark: *mark,
                expected,
            },
            Error::UnexpectedDocumentStart { mark, expected } => Error::UnexpectedDocumentStart {
                mark: *mark,
                expected,
            },
            Error::UnexpectedDocumentEnd { mark, expected } => Error::UnexpectedDocumentEnd {
                mark: *mark,
                expected,
            },
            Error::UnexpectedScalar { mark, expected, value } => Error::UnexpectedScalar {
                mark: *mark,
                expected,
                value: value.clone(),
            },
            Error::UnexpectedSequenceStart { mark, expected } => Error::UnexpectedSequenceStart {
                mark: *mark,
                expected,
            },
            Error::UnexpectedSequenceEnd { mark, expected } => Error::UnexpectedSequenceEnd {
                mark: *mark,
                expected,
            },
            Error::UnexpectedMappingStart { mark, expected } => Error::UnexpectedMappingStart {
                mark: *mark,
                expected,
            },
            Error::UnexpectedMappingEnd { mark, expected } => Error::UnexpectedMappingEnd {
                mark: *mark,
                expected,
            },
        }
    }

    /// The error that reports the event `ev` at `mark` where `expected` was
    /// expected.
    pub fn from_event(ev: Event, mark: Marker, expected: &'static str) -> (r: Error)
        ensures
            r == unexpected_event(ev, mark, expected),
    {
        match ev {
            Event::StreamStart => Error::UnexpectedStreamStart { mark, expected },
            Event::StreamEnd => Error::UnexpectedStreamEnd { mark, expected },
            Event::DocumentStart => Error::UnexpectedDocumentStart { mark, expected },
            Event::DocumentEnd => Error::UnexpectedDocumentEnd { mark, expected },
            Event::Scalar(value) => Error::UnexpectedScalar { mark, expected, value },
            Event::SequenceStart => Error::UnexpectedSequenceStart { mark, expected },
            Event::SequenceEnd => Error::UnexpectedSequenceEnd { mark, expected },
            Event::MappingStart => Error::UnexpectedMappingStart { mark, expected },
            Event::MappingEnd => Error::UnexpectedMappingEnd { mark, expected },
        }
    }

    /// Attaches a position to a plain message; other errors are returned as
    /// they are.
    pub fn add_mark(self, mark: Marker) -> (r: Error)
        ensures
            r == with_mark(self, mark),
    {
        match self {
            Error::Message(msg) => Error::MarkedMessage { msg, mark },
            _ => self,
        }
    }

    /// The text that this error displays.
    pub fn message(&self) -> (r: String)
        ensures
            r@ == error_message(*self),
    {
        let mut out = String::new();
        match self {
            Error::Message(msg) => {
                push_str(&mut out, msg.as_str());
            },
            Error::MarkedMessage { msg, mark } => {
                push_str(&mut out, msg.as_str());
                push_str(&mut out, " at line ");
                push_decimal(&mut out, mark.line as u128);
            },
            Error::UnsupportedType(t) => {
                push_str(&mut out, "(de)serialization of ");
                push_str(&mut out, t);
                push_str(&mut out, " is not supported");
            },
            Error::UnexpectedScalar { mark, expected, value } => {
                push_str(&mut out, "expected ");
                push_str(&mut out, expected);
                push_str(&mut out, ", but found scalar \"");
                push_str(&mut out, value.as_str());
                push_str(&mut out, "\" at line ");
                push_decimal(&mut out, mark.line as u128);
            },
            Error::UnexpectedStreamStart { mark, expected } => {
                unexpected_message(&mut out, expected, ", but found the start of the stream at line ", *mark);
            },
            Error::UnexpectedStreamEnd { mark, expected } => {
                unexpected_message(&mut out, expected, ", but found the end of the stream at line ", *mark);
            },
            Error::UnexpectedDocumentStart { mark, expected } => {
                unexpected_message(&mut out, expected, ", but found the start of a document at line ", *mark);
            },
            Error::UnexpectedDocumentEnd { mark, expected } => {
                unexpected_message(&mut out, expected, ", but found the end of a document at line ", *mark);
            },
            Error::UnexpectedSequenceStart { mark, expected } => {
                unexpected_message(&mut out, expected, ", but found the start of a sequence at line ", *mark);
            },
            Error::UnexpectedSequenceEnd { mark, expected } => {
                unexpected_message(&mut out, expected, ", but found the end of a sequence at line ", *mark);
            },
            Error::UnexpectedMappingStart { mark, expected } => {
                unexpected_message(&mut out, expected, ", but found the start of a mapping at line ", *mark);
            },
            Error::UnexpectedMappingEnd { mark, expected } => {
                unexpected_message(&mut out, expected, ", but found the end of a mapping at line ", *mark);
            },
        }
        proof {
            assert(out@ =~= error_message(*self));
        }
        out
    }
}

/// Writes "expected <expected><found><line>" to the empty `out`.
fn unexpected_message(out: &mut String, expected: &str, found: &str, mark: Marker)
    requires
        old(out)@.len() == 0,
    ensures
        final(out)@ == "expected "@ + expected@ + found@ + decimal(mark.line as nat),
{
    push_str(out, "expected ");
    push_str(out, expected);
    push_str(out, found);
    push_decimal(out, mark.line as u128);
    proof {
        assert(out@ =~= "expected "@ + expected@ + found@ + decimal(mark.line as nat));
    }
}

} // verus!
