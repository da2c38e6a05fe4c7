//! The events of a StrictYAML stream.
use vstd::prelude::*;

use crate::error::Marker;

verus! {

/// An event of a StrictYAML event stream, as the parser delivers it.
#[derive(Debug)]
pub enum Event {
    StreamStart,
    StreamEnd,
    DocumentStart,
    DocumentEnd,
    /// A scalar with its text.
    Scalar(String),
    SequenceStart,
    SequenceEnd,
    MappingStart,
    MappingEnd,
}

impl Event {
    /// A copy of this event.
    pub fn duplicate(&self) -> (r: Event)
        ensures
            r == *self,
    {
        match self {
            Event::StreamStart => Event::StreamStart,
            Event::StreamEnd => Event::StreamEnd,
            Event::DocumentStart => Event::DocumentStart,
            Event::DocumentEnd => Event::DocumentEnd,
            Event::Scalar(s) => Event::Scalar(s.clone()),
            Event::SequenceStart => Event::SequenceStart,
            Event::SequenceEnd => Event::SequenceEnd,
            Event::MappingStart => Event::MappingStart,
            Event::MappingEnd => Event::MappingEnd,
        }
    }
}

} // verus!
