//! Error kinds of the decoder, the parser and the encoder.
use vstd::prelude::*;

verus! {

/// What a decoder rejected.
#[derive(Debug, PartialEq, Eq, Clone, Copy)]
pub enum DecodeErrorKind {
    InvalidTag(u8),
    UnexpectedEOF,
    InvalidVarint,
    InvalidUtf8,
    TrailingBytes,
}

/// A decoder error: its kind and the byte offset at which it was found.
#[derive(Debug, PartialEq, Eq, Clone, Copy)]
pub struct DecodeError {
    pub kind: DecodeErrorKind,
    pub offset: usize,
}

/// A position in textual source: byte offset, 1-based line and column.
#[derive(Debug, PartialEq, Eq, Clone, Copy)]
pub struct Span {
    pub offset: usize,
    pub line: usize,
    pub column: usize,
}

/// What a parser rejected.
#[derive(Debug, PartialEq, Eq, Clone, Copy)]
pub enum ParseErrorKind {
    UnexpectedToken { expected: &'static str, found: &'static str },
    MalformedBytesLiteral,
    IntegerOutOfRange,
}

/// A parser error: its kind and where in the source it was found.
#[derive(Debug, PartialEq, Eq, Clone, Copy)]
pub struct ParseError {
    pub kind: ParseErrorKind,
    pub span: Span,
}

/// What an encoder may reject in a host representation that does not rule
/// these out by its types.
#[derive(Debug, PartialEq, Eq, Clone, Copy)]
pub enum EncodeError {
    DuplicateKey,
    InvalidUtf8,
    InvalidInteger,
}

/// `std::io::Error`, carried opaquely in `StrataError::Io`.
#[verifier::external_type_specification]
#[verifier::external_body]
pub struct ExIoError(std::io::Error);

/// Any failure of the library or of the I/O around it.
#[derive(Debug)]
pub enum StrataError {
    Parse(ParseError),
    Encode(EncodeError),
    Decode(DecodeError),
    Io(std::io::Error),
    Internal(&'static str),
}

impl From<ParseError> for StrataError {
    fn from(err: ParseError) -> (r: Self)
        ensures
            r == StrataError::Parse(err),
    {
        StrataError::Parse(err)
    }
}

impl vstd::std_specs::convert::FromSpecImpl<ParseError> for StrataError {
    open spec fn obeys_from_spec() -> bool {
        true
    }

    open spec fn from_spec(err: ParseError) -> StrataError {
        StrataError::Parse(err)
    }
}

impl From<EncodeError> for StrataError {
    fn from(err: EncodeError) -> (r: Self)
        ensures
            r == StrataError::Encode(err),
    {
        StrataError::Encode(err)
    }
}

impl vstd::std_specs::convert::FromSpecImpl<EncodeError> for StrataError {
    open spec fn obeys_from_spec() -> bool {
        true
    }

    open spec fn from_spec(err: EncodeError) -> StrataError {
        StrataError::Encode(err)
    }
}

impl From<DecodeError> for StrataError {
    fn from(err: DecodeError) -> (r: Self)
        ensures
            r == StrataError::Decode(err),
    {
        StrataError::Decode(err)
    }
}

impl vstd::std_specs::convert::FromSpecImpl<DecodeError> for StrataError {
    open spec fn obeys_from_spec() -> bool {
        true
    }

    open spec fn from_spec(err: DecodeError) -> StrataError {
        StrataError::Decode(err)
    }
}

impl From<std::io::Error> for StrataError {
    fn from(err: std::io::Error) -> (r: Self)
        ensures
            r == StrataError::Io(err),
    {
        StrataError::Io(err)
    }
}

impl vstd::std_specs::convert::FromSpecImpl<std::io::Error> for StrataError {
    open spec fn obeys_from_spec() -> bool {
        true
    }

    open spec fn from_spec(err: std::io::Error) -> StrataError {
        StrataError::Io(err)
    }
}

} // verus!
