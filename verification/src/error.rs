//! Error types for streaming responses.

use vstd::prelude::*;

verus! {

/// The kind of error that occurred during streaming.
#[derive(Clone, Copy, Debug, PartialEq, Eq, Structural)]
pub enum StreamBodyKind {
    /// An error occurred while decoding a frame or format.
    CodecError,
    /// An error occurred while reading the stream.
    InputOutputError,
    /// The maximum object length was exceeded.
    MaxLenReachedError,
}

/// The error that may occur while framing or reading a streamed response body.
///
/// It carries the error kind, an optional description of the underlying
/// cause, and an optional human-readable message.
#[derive(Clone, Debug)]
pub struct StreamBodyError {
    kind: StreamBodyKind,
    source: Option<String>,
    message: Option<String>,
}

impl StreamBodyError {
    /// The kind of this error, as seen by specifications.
    pub closed spec fn spec_kind(&self) -> StreamBodyKind {
        self.kind
    }

    /// The underlying cause carried by this error, as seen by specifications.
    pub closed spec fn spec_source(&self) -> Option<Seq<char>> {
        match self.source {
            Some(s) => Some(s@),
            None => None,
        }
    }

    /// The message carried by this error, as seen by specifications.
    pub closed spec fn spec_message(&self) -> Option<Seq<char>> {
        match self.message {
            Some(m) => Some(m@),
            None => None,
        }
    }

    /// Create a new instance of an error.
    pub fn new(kind: StreamBodyKind, source: Option<String>, message: Option<String>) -> (e: Self)
        ensures
            e.spec_kind() == kind,
            e.spec_source() == (match source {
                Some(s) => Some::<Seq<char>>(s@),
                None => None::<Seq<char>>,
            }),
            e.spec_message() == (match message {
                Some(m) => Some::<Seq<char>>(m@),
                None => None::<Seq<char>>,
            }),
    {
        Self { kind, source, message }
    }

    /// The kind of error that occurred during streaming.
    pub fn kind(&self) -> (k: StreamBodyKind)
        ensures
            k == self.spec_kind(),
    {
        self.kind
    }

    /// The description of the underlying error that occurred, if any.
    pub fn source(&self) -> (s: Option<&String>)
        ensures
            (match s {
                Some(sv) => self.spec_source() == Some(sv@),
                None => self.spec_source() is None,
            }),
    {
        self.source.as_ref()
    }

    /// The message associated with the error, if any.
    pub fn message(&self) -> (m: Option<&str>)
        ensures
            (match m {
                Some(mv) => self.spec_message() == Some(mv@),
                None => self.spec_message() is None,
            }),
    {
        match &self.message {
            Some(m) => Some(m.as_str()),
            None => None,
        }
    }
}

} // verus!
