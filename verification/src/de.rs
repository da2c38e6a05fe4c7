//! Deserialization: the decisions that turn a stream of StrictYAML events into
//! the values that serde's data model asks for.
use vstd::prelude::*;

use crate::error::{Error, Marker, invalid_value_message, unexpected_event, with_mark};
use crate::event::Event;
use crate::parser::{
    Document,
    documents_model,
    failure_reported,
    parse_stream,
    stream_events,
    stream_start,
};
use crate::syntax::{text_documents, text_end};
use crate::scalar::{bool_text, char_text, integer_in_range, parse_bool, parse_char, parse_integer};

verus! {

/// A deserializer over the events of a StrictYAML stream.
pub struct Deserializer {
    events: Vec<(Event, Marker)>,
    failure: Option<Error>,
    end_mark: Marker,
    pos: usize,
    many: bool,
    is_root: Option<bool>,
    documents: Ghost<Seq<Document>>,
}

/// What a deserializer is: the events it has yet to deliver, the error that
/// comes after them (or, without one, the end of the stream at `end_mark`
/// forever), whether it reads a stream of many documents, whether it has met
/// that stream's root sequence, and the documents of the stream it reads.
pub struct DeserializerView {
    pub remaining: Seq<(Event, Marker)>,
    pub failure: Option<Error>,
    pub end_mark: Marker,
    pub many: bool,
    pub is_root: Option<bool>,
    pub documents: Seq<Document>,
}

impl DeserializerView {
    /// What the next read gives: the next event, or after the last event the
    /// error that stopped the reading, or else the end of the stream.
    pub open spec fn next_event(self) -> Result<(Event, Marker), Error> {
        if self.remaining.len() > 0 {
            Ok(self.remaining[0])
        } else {
            match self.failure {
                Some(e) => Err(e),
                None => Ok((Event::StreamEnd, self.end_mark)),
            }
        }
    }

    /// The state after one read.
    pub open spec fn advanced(self) -> DeserializerView {
        DeserializerView {
            remaining: if self.remaining.len() > 0 {
                self.remaining.drop_first()
            } else {
                self.remaining
            },
            ..self
        }
    }

    /// The state with `is_root` set to `r`.
    pub open spec fn with_root(self, r: Option<bool>) -> DeserializerView {
        DeserializerView { is_root: r, ..self }
    }

    /// Whether the next read gives a scalar whose text is empty.
    pub open spec fn next_is_empty_scalar(self) -> bool {
        self.next_event() matches Ok((Event::Scalar(s), _)) && s@.len() == 0
    }
}

impl View for Deserializer {
    type V = DeserializerView;

    closed spec fn view(&self) -> DeserializerView {
        DeserializerView {
            remaining: self.events@.skip(self.pos as int),
            failure: self.failure,
            end_mark: self.end_mark,
            many: self.many,
            is_root: self.is_root,
            documents: self.documents@,
        }
    }
}

/// The result of reading a scalar with `read`: the value, or the error for a
/// scalar that does not read as `expected` (marked with the scalar's
/// position), or the error for an event that is no scalar, or the reading
/// error.
pub open spec fn scalar_result<T>(
    v: DeserializerView,
    r: Result<T, Error>,
    read: spec_fn(Seq<char>) -> Option<T>,
    expected: &'static str,
) -> bool {
    match v.next_event() {
        Err(e) => r == Err::<T, Error>(e),
        Ok((Event::Scalar(s), m)) => match read(s@) {
            Some(x) => r == Ok::<T, Error>(x),
            None => r matches Err(Error::MarkedMessage { msg, mark }) && mark == m && msg@
                == invalid_value_message(s@, expected@),
        },
        Ok((ev, m)) => r == Err::<T, Error>(unexpected_event(ev, m, "a scalar")),
    }
}

/// What looking for the next element of a sequence gives, and the state
/// after it: at the root of a stream of many documents, the end of the
/// stream ends the sequence and the start of a document (which is read)
/// starts an element; elsewhere the end of a sequence ends it and anything
/// else starts an element, with nothing read.
pub open spec fn element_step(v: DeserializerView, is_root: bool) -> (
    Result<ElementStep, Error>,
    DeserializerView,
) {
    match v.next_event() {
        Err(e) => (Err(e), v),
        Ok((ev, _)) => if v.many && is_root {
            if ev is StreamEnd {
                (Ok(ElementStep::End), v)
            } else if ev is DocumentStart {
                (Ok(ElementStep::Element), v.advanced())
            } else {
                (Ok(ElementStep::Unexpected), v)
            }
        } else if ev is SequenceEnd {
            (Ok(ElementStep::End), v)
        } else {
            (Ok(ElementStep::Element), v)
        },
    }
}

/// What ending an element gives, and the state after it: at the root of a
/// stream of many documents, the end of the document is read if it follows.
pub open spec fn element_end_step(v: DeserializerView, is_root: bool) -> (
    Result<(), Error>,
    DeserializerView,
) {
    if v.many && is_root {
        match v.next_event() {
            Err(e) => (Err(e), v),
            Ok((ev, _)) => (Ok(()), if ev is DocumentEnd {
                v.advanced()
            } else {
                v
            }),
        }
    } else {
        (Ok(()), v)
    }
}

/// What `deserialize_any` finds next.
#[derive(Debug, PartialEq, Eq, Structural)]
pub enum AnyKind {
    Scalar,
    Sequence,
    Mapping,
}

/// What `next_element` finds next.
#[derive(Debug, PartialEq, Eq, Structural)]
pub enum ElementStep {
    /// The sequence (or the stream of documents) has ended.
    End,
    /// An element follows.
    Element,
    /// In a stream of many documents, neither a document nor the end of the
    /// stream follows.
    Unexpected,
}

/// How an enum starts.
#[derive(Debug)]
pub enum EnumStart {
    /// A scalar that names a unit variant, with its position.
    Name(String, Marker),
    /// Any other event, already read, with its position: the variant's name
    /// and content follow, then the end of a mapping.
    Complex(Marker),
}

/// The integer whose sign is `neg` and whose magnitude is `m`.
fn signed_of(neg: bool, m: u128) -> (r: i128)
    requires
        neg ==> m <= i128::MAX + 1,
        !neg ==> m <= i128::MAX,
    ensures
        r == (if neg {
            -(m as int)
        } else {
            m as int
        }),
{
    if neg {
        if m == (i128::MAX as u128) + 1 {
            i128::MIN
        } else {
            -(m as i128)
        }
    } else {
        m as i128
    }
}

impl Deserializer {
    fn new(input: &str, many: bool) -> (r: Deserializer)
        requires
            input@.len() <= isize::MAX,
        ensures
            r@.many == many,
            r@.is_root is None,
            r@.remaining == stream_events(
                r@.documents,
                stream_start(),
                if r@.failure is None {
                    Some(r@.end_mark)
                } else {
                    None
                },
            ),
            documents_model(r@.documents) == text_documents(input@).0,
            failure_reported(text_documents(input@).1, r@.failure),
            r@.end_mark == text_end(input@),
    {
        let parsed = parse_stream(input);
        let ghost docs = parsed.documents@;
        let d = Deserializer {
            events: parsed.events,
            failure: parsed.failure,
            end_mark: parsed.end_mark,
            pos: 0,
            many,
            is_root: None,
            documents: Ghost(docs),
        };
        proof {
            assert(d.events@.skip(0) =~= d.events@);
        }
        d
    }

    /// A deserializer for a stream of many documents, read as one sequence.
    pub fn from_str_many(input: &str) -> (r: Deserializer)
        requires
            input@.len() <= isize::MAX,
        ensures
            r@.many,
            r@.is_root is None,
            r@.remaining == stream_events(
                r@.documents,
                stream_start(),
                if r@.failure is None {
                    Some(r@.end_mark)
                } else {
                    None
                },
            ),
            documents_model(r@.documents) == text_documents(input@).0,
            failure_reported(text_documents(input@).1, r@.failure),
            r@.end_mark == text_end(input@),
    {
        Deserializer::new(input, true)
    }

    /// A deserializer for a stream of one document.
    pub fn from_str(input: &str) -> (r: Deserializer)
        requires
            input@.len() <= isize::MAX,
        ensures
            !r@.many,
            r@.is_root is None,
            r@.remaining == stream_events(
                r@.documents,
                stream_start(),
                if r@.failure is None {
                    Some(r@.end_mark)
                } else {
                    None
                },
            ),
            documents_model(r@.documents) == text_documents(input@).0,
            failure_reported(text_documents(input@).1, r@.failure),
            r@.end_mark == text_end(input@),
    {
        Deserializer::new(input, false)
    }

    #[verifier::type_invariant]
    spec fn inv(self) -> bool {
        self.pos <= self.events@.len()
    }

    /// The next event, without reading it.
    pub fn peek(&self) -> (r: Result<(Event, Marker), Error>)
        ensures
            r == self@.next_event(),
    {
        proof {
            use_type_invariant(self);
        }
        if self.pos < self.events.len() {
            let (ev, m) = &self.events[self.pos];
            Ok((ev.duplicate(), *m))
        } else {
            match &self.failure {
                Some(e) => Err(e.duplicate()),
                None => Ok((Event::StreamEnd, self.end_mark)),
            }
        }
    }

    /// Reads the next event.
    pub fn next(&mut self) -> (r: Result<(Event, Marker), Error>)
        ensures
            r == old(self)@.next_event(),
            final(self)@ == old(self)@.advanced(),
    {
        proof {
            use_type_invariant(&*self);
        }
        let r = self.peek();
        if self.pos < self.events.len() {
            self.pos = self.pos + 1;
            proof {
                assert(self.events@.skip(self.pos as int) =~= old(self)@.remaining.drop_first());
            }
        }
        r
    }

    /// Reads the start of the stream, then the start of its document if one
    /// follows.
    pub fn begin_document(&mut self) -> (r: Result<(), Error>)
        ensures
            match old(self)@.next_event() {
                Err(e) => r == Err::<(), Error>(e) && final(self)@ == old(self)@.advanced(),
                Ok((ev, mark)) => if !(ev is StreamStart) {
                    r == Err::<(), Error>(unexpected_event(ev, mark, "the start of the stream"))
                        && final(self)@ == old(self)@.advanced()
                } else {
                    let v1 = old(self)@.advanced();
                    match v1.next_event() {
                        Err(e) => r == Err::<(), Error>(e) && final(self)@ == v1,
                        Ok((ev2, _)) => r is Ok && final(self)@ == if ev2 is DocumentStart {
                            v1.advanced()
                        } else {
                            v1
                        },
                    }
                },
            },
    {
        let (ev, mark) = self.next()?;
        match ev {
            Event::StreamStart => {},
            _ => {
                return Err(Error::from_event(ev, mark, "the start of the stream"));
            },
        }
        let (ev, _mark) = self.peek()?;
        if let Event::DocumentStart = ev {
            self.next()?;
        }
        Ok(())
    }

    /// Reads the end of the document if it follows, then the end of the stream.
    pub fn end_document(&mut self) -> (r: Result<(), Error>)
        ensures
            match old(self)@.next_event() {
                Err(e) => r == Err::<(), Error>(e) && final(self)@ == old(self)@,
                Ok((ev, _)) => {
                    let v1 = if ev is DocumentEnd {
                        old(self)@.advanced()
                    } else {
                        old(self)@
                    };
                    final(self)@ == v1.advanced() && match v1.next_event() {
                        Err(e) => r == Err::<(), Error>(e),
                        Ok((ev2, mark2)) => if ev2 is StreamEnd {
                            r is Ok
                        } else {
                            r == Err::<(), Error>(
                                unexpected_event(ev2, mark2, "the end of the stream"),
                            )
                        },
                    }
                },
            },
    {
        let (ev, _mark) = self.peek()?;
        if let Event::DocumentEnd = ev {
            self.next()?;
        }
        let (ev, mark) = self.next()?;
        match ev {
            Event::StreamEnd => Ok(()),
            _ => Err(Error::from_event(ev, mark, "the end of the stream")),
        }
    }

    /// What kind of node follows, without reading it.
    pub fn deserialize_any(&self) -> (r: Result<AnyKind, Error>)
        ensures
            match self@.next_event() {
                Err(e) => r == Err::<AnyKind, Error>(e),
                Ok((Event::Scalar(_), _)) => r == Ok::<AnyKind, Error>(AnyKind::Scalar),
                Ok((Event::SequenceStart, _)) => r == Ok::<AnyKind, Error>(AnyKind::Sequence),
                Ok((Event::MappingStart, _)) => r == Ok::<AnyKind, Error>(AnyKind::Mapping),
                Ok((ev, mark)) => r == Err::<AnyKind, Error>(
                    unexpected_event(ev, mark, "a sequence, map or scalar"),
                ),
            },
    {
        let (ev, mark) = self.peek()?;
        match ev {
            Event::Scalar(_) => Ok(AnyKind::Scalar),
            Event::SequenceStart => Ok(AnyKind::Sequence),
            Event::MappingStart => Ok(AnyKind::Mapping),
            _ => Err(Error::from_event(ev, mark, "a sequence, map or scalar")),
        }
    }

    /// Reads a scalar: its text and position.
    pub fn next_scalar(&mut self) -> (r: Result<(String, Marker), Error>)
        ensures
            final(self)@ == old(self)@.advanced(),
            match old(self)@.next_event() {
                Err(e) => r == Err::<(String, Marker), Error>(e),
                Ok((Event::Scalar(s), m)) => r == Ok::<(String, Marker), Error>((s, m)),
                Ok((ev, m)) => r == Err::<(String, Marker), Error>(
                    unexpected_event(ev, m, "a scalar"),
                ),
            },
    {
        let (ev, mark) = self.next()?;
        match ev {
            Event::Scalar(value) => Ok((value, mark)),
            _ => Err(Error::from_event(ev, mark, "a scalar")),
        }
    }

    /// Reads a boolean scalar.
    pub fn deserialize_bool(&mut self) -> (r: Result<bool, Error>)
        ensures
            final(self)@ == old(self)@.advanced(),
            scalar_result(old(self)@, r, |s: Seq<char>| bool_text(s), "a boolean"),
    {
        let (value, mark) = self.next_scalar()?;
        match parse_bool(value.as_str()) {
            Some(b) => Ok(b),
            None => Err(Error::invalid_value(value.as_str(), "a boolean").add_mark(mark)),
        }
    }

    /// Reads a scalar that holds an 8-bit signed integer, in decimal.
    pub fn deserialize_i8(&mut self) -> (r: Result<i8, Error>)
        ensures
            final(self)@ == old(self)@.advanced(),
            scalar_result(
                old(self)@,
                r,
                |s: Seq<char>|
                    match integer_in_range(s, true, -128 as int, 127 as int) {
                        Some(v) => Some(v as i8),
                        None => None,
                    },
                "an 8-bit signed integer",
            ),
    {
        let (value, mark) = self.next_scalar()?;
        match parse_integer(value.as_str(), true, -128, 127) {
            Some((neg, m)) => Ok(signed_of(neg, m) as i8),
            None => Err(Error::invalid_value(value.as_str(), "an 8-bit signed integer").add_mark(mark)),
        }
    }

    /// Reads a scalar that holds a 16-bit signed integer, in decimal.
    pub fn deserialize_i16(&mut self) -> (r: Result<i16, Error>)
        ensures
            final(self)@ == old(self)@.advanced(),
            scalar_result(
                old(self)@,
                r,
                |s: Seq<char>|
                    match integer_in_range(s, true, -32768 as int, 32767 as int) {
                        Some(v) => Some(v as i16),
                        None => None,
                    },
                "a 16-bit signed integer",
            ),
    {
        let (value, mark) = self.next_scalar()?;
        match parse_integer(value.as_str(), true, -32768, 32767) {
            Some((neg, m)) => Ok(signed_of(neg, m) as i16),
            None => Err(Error::invalid_value(value.as_str(), "a 16-bit signed integer").add_mark(mark)),
        }
    }

    /// Reads a scalar that holds a 32-bit signed integer, in decimal.
    pub fn deserialize_i32(&mut self) -> (r: Result<i32, Error>)
        ensures
            final(self)@ == old(self)@.advanced(),
            scalar_result(
                old(self)@,
                r,
                |s: Seq<char>|
                    match integer_in_range(s, true, -2147483648 as int, 2147483647 as int) {
                        Some(v) => Some(v as i32),
                        None => None,
                    },
                "a 32-bit signed integer",
            ),
    {
        let (value, mark) = self.next_scalar()?;
        match parse_integer(value.as_str(), true, -2147483648, 2147483647) {
            Some((neg, m)) => Ok(signed_of(neg, m) as i32),
            None => Err(Error::invalid_value(value.as_str(), "a 32-bit signed integer").add_mark(mark)),
        }
    }

    /// Reads a scalar that holds a 64-bit signed integer, in decimal.
    pub fn deserialize_i64(&mut self) -> (r: Result<i64, Error>)
        ensures
            final(self)@ == old(self)@.advanced(),
            scalar_result(
                old(self)@,
                r,
                |s: Seq<char>|
                    match integer_in_range(s, true, i64::MIN as int, i64::MAX as int) {
                        Some(v) => Some(v as i64),
                        None => None,
                    },
                "a 64-bit signed integer",
            ),
    {
        let (value, mark) = self.next_scalar()?;
        match parse_integer(value.as_str(), true, i64::MIN as i128, i64::MAX as u128) {
            Some((neg, m)) => Ok(signed_of(neg, m) as i64),
            None => Err(Error::invalid_value(value.as_str(), "a 64-bit signed integer").add_mark(mark)),
        }
    }

    /// Reads a scalar that holds an 128-bit signed integer, in decimal.
    pub fn deserialize_i128(&mut self) -> (r: Result<i128, Error>)
        ensures
            final(self)@ == old(self)@.advanced(),
            scalar_result(
                old(self)@,
                r,
                |s: Seq<char>|
                    match integer_in_range(s, true, i128::MIN as int, i128::MAX as int) {
                        Some(v) => Some(v as i128),
                        None => None,
                    },
                "an 128-bit signed integer",
            ),
    {
        let (value, mark) = self.next_scalar()?;
        match parse_integer(value.as_str(), true, i128::MIN, i128::MAX as u128) {
            Some((neg, m)) => Ok(signed_of(neg, m) as i128),
            None => Err(Error::invalid_value(value.as_str(), "an 128-bit signed integer").add_mark(mark)),
        }
    }

    /// Reads a scalar that holds an 8-bit unsigned integer, in decimal.
    pub fn deserialize_u8(&mut self) -> (r: Result<u8, Error>)
        ensures
            final(self)@ == old(self)@.advanced(),
            scalar_result(
                old(self)@,
                r,
                |s: Seq<char>|
                    match integer_in_range(s, false, 0 as int, 255 as int) {
                        Some(v) => Some(v as u8),
                        None => None,
                    },
                "an 8-bit unsigned integer",
            ),
    {
        let (value, mark) = self.next_scalar()?;
        match parse_integer(value.as_str(), false, 0, 255) {
            Some((neg, m)) => Ok(m as u8),
            None => Err(Error::invalid_value(value.as_str(), "an 8-bit unsigned integer").add_mark(mark)),
        }
    }

    /// Reads a scalar that holds a 16-bit unsigned integer, in decimal.
    pub fn deserialize_u16(&mut self) -> (r: Result<u16, Error>)
        ensures
            final(self)@ == old(self)@.advanced(),
            scalar_result(
                old(self)@,
                r,
                |s: Seq<char>|
                    match integer_in_range(s, false, 0 as int, 65535 as int) {
                        Some(v) => Some(v as u16),
                        None => None,
                    },
                "a 16-bit unsigned integer",
            ),
    {
        let (value, mark) = self.next_scalar()?;
        match parse_integer(value.as_str(), false, 0, 65535) {
            Some((neg, m)) => Ok(m as u16),
            None => Err(Error::invalid_value(value.as_str(), "a 16-bit unsigned integer").add_mark(mark)),
        }
    }

    /// Reads a scalar that holds a 32-bit unsigned integer, in decimal.
    pub fn deserialize_u32(&mut self) -> (r: Result<u32, Error>)
        ensures
            final(self)@ == old(self)@.advanced(),
            scalar_result(
                old(self)@,
                r,
                |s: Seq<char>|
                    match integer_in_range(s, false, 0 as int, 4294967295 as int) {
                        Some(v) => Some(v as u32),
                        None => None,
                    },
                "a 32-bit unsigned integer",
            ),
    {
        let (value, mark) = self.next_scalar()?;
        match parse_integer(value.as_str(), false, 0, 4294967295) {
            Some((neg, m)) => Ok(m as u32),
            None => Err(Error::invalid_value(value.as_str(), "a 32-bit unsigned integer").add_mark(mark)),
        }
    }

    /// Reads a scalar that holds a 64-bit unsigned integer, in decimal.
    pub fn deserialize_u64(&mut self) -> (r: Result<u64, Error>)
        ensures
            final(self)@ == old(self)@.advanced(),
            scalar_result(
                old(self)@,
                r,
                |s: Seq<char>|
                    match integer_in_range(s, false, 0 as int, u64::MAX as int) {
                        Some(v) => Some(v as u64),
                        None => None,
                    },
                "a 64-bit unsigned integer",
            ),
    {
        let (value, mark) = self.next_scalar()?;
        match parse_integer(value.as_str(), false, 0, u64::MAX as u128) {
            Some((neg, m)) => Ok(m as u64),
            None => Err(Error::invalid_value(value.as_str(), "a 64-bit unsigned integer").add_mark(mark)),
        }
    }

    /// Reads a scalar that holds an 128-bit unsigned integer, in decimal.
    pub fn deserialize_u128(&mut self) -> (r: Result<u128, Error>)
        ensures
            final(self)@ == old(self)@.advanced(),
            scalar_result(
                old(self)@,
                r,
                |s: Seq<char>|
                    match integer_in_range(s, false, 0 as int, u128::MAX as int) {
                        Some(v) => Some(v as u128),
                        None => None,
                    },
                "an 128-bit unsigned integer",
            ),
    {
        let (value, mark) = self.next_scalar()?;
        match parse_integer(value.as_str(), false, 0, u128::MAX) {
            Some((neg, m)) => Ok(m as u128),
            None => Err(Error::invalid_value(value.as_str(), "an 128-bit unsigned integer").add_mark(mark)),
        }
    }

    /// Reads a scalar that holds one character.
    pub fn deserialize_char(&mut self) -> (r: Result<char, Error>)
        ensures
            final(self)@ == old(self)@.advanced(),
            scalar_result(old(self)@, r, |s: Seq<char>| char_text(s), "a single character"),
    {
        let (value, mark) = self.next_scalar()?;
        match parse_char(value.as_str()) {
            Some(c) => Ok(c),
            None => Err(Error::invalid_value(value.as_str(), "a single character").add_mark(mark)),
        }
    }

    /// Reads a scalar's text.
    pub fn deserialize_str(&mut self) -> (r: Result<String, Error>)
        ensures
            final(self)@ == old(self)@.advanced(),
            match old(self)@.next_event() {
                Err(e) => r == Err::<String, Error>(e),
                Ok((Event::Scalar(s), _)) => r == Ok::<String, Error>(s),
                Ok((ev, m)) => r == Err::<String, Error>(unexpected_event(ev, m, "a scalar")),
            },
    {
        let (value, _mark) = self.next_scalar()?;
        Ok(value)
    }

    /// Byte strings are not supported: the error that says so, and nothing is
    /// read.
    pub fn deserialize_bytes(&self) -> (r: Error)
        ensures
            r == Error::UnsupportedType("bytes"),
    {
        Error::UnsupportedType("bytes")
    }

    /// Whether a value follows (a mapping, a sequence or a scalar), without
    /// reading it.
    pub fn deserialize_option(&self) -> (r: Result<bool, Error>)
        ensures
            match self@.next_event() {
                Err(e) => r == Err::<bool, Error>(e),
                Ok((ev, _)) => r == Ok::<bool, Error>(
                    ev is MappingStart || ev is SequenceStart || ev is Scalar,
                ),
            },
    {
        let (ev, _mark) = self.peek()?;
        let is_some = match ev {
            Event::MappingStart | Event::SequenceStart | Event::Scalar(_) => true,
            _ => false,
        };
        Ok(is_some)
    }

    /// Reads a unit: an empty scalar is read if one follows, anything else is
    /// left.
    pub fn deserialize_unit(&mut self) -> (r: Result<(), Error>)
        ensures
            match old(self)@.next_event() {
                Err(e) => r == Err::<(), Error>(e) && final(self)@ == old(self)@,
                Ok(_) => r is Ok && final(self)@ == if old(self)@.next_is_empty_scalar() {
                    old(self)@.advanced()
                } else {
                    old(self)@
                },
            },
    {
        let (ev, _mark) = self.peek()?;
        let empty = match &ev {
            Event::Scalar(value) => value.as_str().unicode_len() == 0,
            _ => false,
        };
        if empty {
            let _ = self.next()?;
        }
        Ok(())
    }

    /// Reads the start of a sequence: in a stream of many documents the first
    /// sequence asked for is the stream itself (the root). Returns whether this
    /// sequence is the root, and its position.
    pub fn deserialize_seq(&mut self) -> (r: Result<(bool, Marker), Error>)
        ensures
            ({
                let root = old(self)@.many && old(self)@.is_root is None;
                let v1 = if root {
                    old(self)@.with_root(Some(true))
                } else {
                    old(self)@
                };
                &&& final(self)@ == v1.advanced()
                &&& match old(self)@.next_event() {
                    Err(e) => r == Err::<(bool, Marker), Error>(e),
                    Ok((ev, mark)) => if ev is SequenceStart || (ev is StreamStart
                        && old(self)@.many) {
                        r == Ok::<(bool, Marker), Error>((root, mark))
                    } else if old(self)@.many && root {
                        r == Err::<(bool, Marker), Error>(
                            unexpected_event(ev, mark, "the start of the stream"),
                        )
                    } else {
                        r == Err::<(bool, Marker), Error>(
                            unexpected_event(ev, mark, "the start of a sequence"),
                        )
                    },
                }
            }),
    {
        proof {
            use_type_invariant(&*self);
        }
        let mut is_root = false;
        if self.many && self.is_root.is_none() {
            self.is_root = Some(true);
            is_root = true;
        }
        let (ev, mark) = self.next()?;
        match ev {
            Event::SequenceStart => Ok((is_root, mark)),
            Event::StreamStart if self.many => Ok((is_root, mark)),
            _ => {
                if self.many && is_root {
                    Err(Error::from_event(ev, mark, "the start of the stream"))
                } else {
                    Err(Error::from_event(ev, mark, "the start of a sequence"))
                }
            },
        }
    }

    /// Looks for the next element of a sequence; at the root of a stream of
    /// many documents, reads the start of the next document.
    pub fn next_element(&mut self, is_root: bool) -> (r: Result<ElementStep, Error>)
        ensures
            r == element_step(old(self)@, is_root).0,
            final(self)@ == element_step(old(self)@, is_root).1,
    {
        let (ev, _mark) = self.peek()?;
        if self.many && is_root {
            match ev {
                Event::StreamEnd => Ok(ElementStep::End),
                Event::DocumentStart => {
                    let _ = self.next()?;
                    Ok(ElementStep::Element)
                },
                _ => Ok(ElementStep::Unexpected),
            }
        } else {
            match ev {
                Event::SequenceEnd => Ok(ElementStep::End),
                _ => Ok(ElementStep::Element),
            }
        }
    }

    /// After an element: at the root of a stream of many documents, reads the
    /// end of the document if it follows.
    pub fn end_element(&mut self, is_root: bool) -> (r: Result<(), Error>)
        ensures
            r == element_end_step(old(self)@, is_root).0,
            final(self)@ == element_end_step(old(self)@, is_root).1,
    {
        if self.many && is_root {
            let (ev, _mark) = self.peek()?;
            if let Event::DocumentEnd = ev {
                let _ = self.next()?;
            }
        }
        Ok(())
    }

    /// Reads the end of a sequence, or at the root of a stream of many
    /// documents the end of the stream.
    pub fn end_seq(&mut self, is_root: bool) -> (r: Result<(), Error>)
        ensures
            match old(self)@.next_event() {
                Err(e) => r == Err::<(), Error>(e) && final(self)@ == old(self)@.advanced(),
                Ok((ev, mark)) => if old(self)@.many && is_root {
                    if ev is StreamEnd {
                        r is Ok && final(self)@ == old(self)@.advanced()
                    } else {
                        r == Err::<(), Error>(unexpected_event(ev, mark, "the end of the stream"))
                            && final(self)@ == old(self)@.advanced().with_root(Some(false))
                    }
                } else {
                    final(self)@ == old(self)@.advanced() && if ev is SequenceEnd {
                        r is Ok
                    } else {
                        r == Err::<(), Error>(unexpected_event(ev, mark, "the end of a sequence"))
                    }
                },
            },
    {
        if self.many && is_root {
            let (ev, mark) = self.next()?;
            match ev {
                Event::StreamEnd => {},
                _ => {
                    proof {
                        use_type_invariant(&*self);
                    }
                    self.is_root = Some(false);
                    return Err(Error::from_event(ev, mark, "the end of the stream"));
                },
            }
        } else {
            let (ev, mark) = self.next()?;
            match ev {
                Event::SequenceEnd => {},
                _ => {
                    return Err(Error::from_event(ev, mark, "the end of a sequence"));
                },
            }
        }
        Ok(())
    }

    /// Reads the start of a mapping and returns its position.
    pub fn deserialize_map(&mut self) -> (r: Result<Marker, Error>)
        ensures
            final(self)@ == old(self)@.advanced(),
            match old(self)@.next_event() {
                Err(e) => r == Err::<Marker, Error>(e),
                Ok((ev, mark)) => if ev is MappingStart {
                    r == Ok::<Marker, Error>(mark)
                } else {
                    r == Err::<Marker, Error>(unexpected_event(ev, mark, "the start of a mapping"))
                },
            },
    {
        let (ev, mark) = self.next()?;
        match ev {
            Event::MappingStart => Ok(mark),
            _ => Err(Error::from_event(ev, mark, "the start of a mapping")),
        }
    }

    /// Whether another key of the mapping follows, without reading it.
    pub fn next_key(&self) -> (r: Result<bool, Error>)
        ensures
            match self@.next_event() {
                Err(e) => r == Err::<bool, Error>(e),
                Ok((ev, _)) => r == Ok::<bool, Error>(!(ev is MappingEnd)),
            },
    {
        let (ev, _mark) = self.peek()?;
        match ev {
            Event::MappingEnd => Ok(false),
            _ => Ok(true),
        }
    }

    /// Reads the end of the mapping that started at `start`; an error for
    /// any other event carries `start`.
    pub fn end_map(&mut self, start: Marker) -> (r: Result<(), Error>)
        ensures
            final(self)@ == old(self)@.advanced(),
            match old(self)@.next_event() {
                Err(e) => r == Err::<(), Error>(e),
                Ok((ev, _)) => if ev is MappingEnd {
                    r is Ok
                } else {
                    r == Err::<(), Error>(unexpected_event(ev, start, "the end of a mapping"))
                },
            },
    {
        let (ev, _mark) = self.next()?;
        match ev {
            Event::MappingEnd => Ok(()),
            _ => Err(Error::from_event(ev, start, "the end of a mapping")),
        }
    }

    /// Reads the start of an enum: a scalar names a unit variant; any other
    /// event opens a variant with content.
    pub fn deserialize_enum(&mut self) -> (r: Result<EnumStart, Error>)
        ensures
            final(self)@ == old(self)@.advanced(),
            match old(self)@.next_event() {
                Err(e) => r == Err::<EnumStart, Error>(e),
                Ok((Event::Scalar(s), mark)) => r == Ok::<EnumStart, Error>(
                    EnumStart::Name(s, mark),
                ),
                Ok((_, mark)) => r == Ok::<EnumStart, Error>(EnumStart::Complex(mark)),
            },
    {
        let (ev, mark) = self.next()?;
        match ev {
            Event::Scalar(value) => Ok(EnumStart::Name(value, mark)),
            _ => Ok(EnumStart::Complex(mark)),
        }
    }

    /// Reads the end of the mapping that closes a variant with content.
    pub fn end_enum(&mut self) -> (r: Result<(), Error>)
        ensures
            final(self)@ == old(self)@.advanced(),
            match old(self)@.next_event() {
                Err(e) => r == Err::<(), Error>(e),
                Ok((ev, mark)) => if ev is MappingEnd {
                    r is Ok
                } else {
                    r == Err::<(), Error>(unexpected_event(ev, mark, "the end of a mapping"))
                },
            },
    {
        let (ev, mark) = self.next()?;
        match ev {
            Event::MappingEnd => Ok(()),
            _ => Err(Error::from_event(ev, mark, "the end of a mapping")),
        }
    }
}

} // verus!
