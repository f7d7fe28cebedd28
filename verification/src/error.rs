use vstd::prelude::*;
use std::io;

verus! {

#[verifier::external_type_specification]
#[verifier::external_body]
pub struct ExIoError(std::io::Error);

pub type Result<T> = std::result::Result<T, Error>;

/// An error of the codec: what went wrong, and at which byte position.
#[derive(Debug)]
pub struct Error {
    pub err: Box<ErrorImpl>,
}

#[derive(Debug)]
pub enum ErrorCode {
    Eof,
    Io(io::Error),
    Message(String),
    UnsupportedType,
    // serialization errors
    UnsupportedTAType,
    UnsupportedCacheType,
    IntTooLargeFori64,
    // deserialization errors
    UnmatchedCode(u8),
    Expectedi64,
    ExpectedNonZeroReadLength,
    ExpectedDoubleCode,
    ExpectedFloatCode,
    ExpectedBooleanCode,
    ExpectedChunkBytesConclusion,
    ExpectedBytesCode,
    ExpectedStringCode,
    MapExpectedListCode,
    ExpectedListCode,
    InvalidUTF8,
    UnexpectedEof,
    AttemptToReadPastEnd,
}

#[derive(Debug)]
pub struct ErrorImpl {
    pub code: ErrorCode,
    pub position: usize,
}

#[derive(Copy, Clone, PartialEq, Eq, Debug, Structural)]
pub enum Category {
    Io,
    Eof,
    De,
    Ser,
    Misc,
}

/// The category that each error code falls under.
pub open spec fn category_of(code: ErrorCode) -> Category {
    match code {
        ErrorCode::Eof => Category::Eof,
        ErrorCode::Io(_) => Category::Io,
        ErrorCode::UnsupportedType | ErrorCode::Message(_) => Category::Misc,
        ErrorCode::UnsupportedTAType
        | ErrorCode::UnsupportedCacheType
        | ErrorCode::IntTooLargeFori64 => Category::Ser,
        _ => Category::De,
    }
}


/// The text that describes an error code: the message itself for `Message`, the
/// variant's name for the others; an I/O error describes itself (`None` here).
pub open spec fn code_text(code: ErrorCode) -> Option<Seq<char>> {
    match code {
        ErrorCode::Eof => Some("Eof"@),
        ErrorCode::Io(_) => None,
        ErrorCode::Message(m) => Some(m@),
        ErrorCode::UnmatchedCode(_) => Some("UnmatchedCode"@),
        ErrorCode::UnsupportedType => Some("UnsupportedType"@),
        ErrorCode::UnsupportedTAType => Some("UnsupportedTAType"@),
        ErrorCode::UnsupportedCacheType => Some("UnsupportedCacheType"@),
        ErrorCode::IntTooLargeFori64 => Some("IntTooLargeFori64"@),
        ErrorCode::Expectedi64 => Some("Expectedi64"@),
        ErrorCode::ExpectedNonZeroReadLength => Some("ExpectedNonZeroReadLength"@),
        ErrorCode::ExpectedDoubleCode => Some("ExpectedDoubleCode"@),
        ErrorCode::ExpectedFloatCode => Some("ExpectedFloatCode"@),
        ErrorCode::ExpectedBooleanCode => Some("ExpectedBooleanCode"@),
        ErrorCode::ExpectedChunkBytesConclusion => Some("ExpectedChunkBytesConclusion"@),
        ErrorCode::ExpectedBytesCode => Some("ExpectedBytesCode"@),
        ErrorCode::ExpectedStringCode => Some("ExpectedStringCode"@),
        ErrorCode::MapExpectedListCode => Some("MapExpectedListCode"@),
        ErrorCode::ExpectedListCode => Some("ExpectedListCode"@),
        ErrorCode::InvalidUTF8 => Some("InvalidUTF8"@),
        ErrorCode::UnexpectedEof => Some("UnexpectedEof"@),
        ErrorCode::AttemptToReadPastEnd => Some("AttemptToReadPastEnd"@),
    }
}

impl ErrorCode {
    /// The text that describes this code; `None` for an I/O error, whose own
    /// description is used.
    pub fn describe(&self) -> (r: Option<&str>)
        ensures
            r matches Some(t) ==> code_text(*self) == Some(t@),
            r is None ==> code_text(*self) is None,
    {
        match self {
            ErrorCode::Eof => Some("Eof"),
            ErrorCode::Io(_) => None,
            ErrorCode::Message(m) => Some(m.as_str()),
            ErrorCode::UnmatchedCode(_) => Some("UnmatchedCode"),
            ErrorCode::UnsupportedType => Some("UnsupportedType"),
            ErrorCode::UnsupportedTAType => Some("UnsupportedTAType"),
            ErrorCode::UnsupportedCacheType => Some("UnsupportedCacheType"),
            ErrorCode::IntTooLargeFori64 => Some("IntTooLargeFori64"),
            ErrorCode::Expectedi64 => Some("Expectedi64"),
            ErrorCode::ExpectedNonZeroReadLength => Some("ExpectedNonZeroReadLength"),
            ErrorCode::ExpectedDoubleCode => Some("ExpectedDoubleCode"),
            ErrorCode::ExpectedFloatCode => Some("ExpectedFloatCode"),
            ErrorCode::ExpectedBooleanCode => Some("ExpectedBooleanCode"),
            ErrorCode::ExpectedChunkBytesConclusion => Some("ExpectedChunkBytesConclusion"),
            ErrorCode::ExpectedBytesCode => Some("ExpectedBytesCode"),
            ErrorCode::ExpectedStringCode => Some("ExpectedStringCode"),
            ErrorCode::MapExpectedListCode => Some("MapExpectedListCode"),
            ErrorCode::ExpectedListCode => Some("ExpectedListCode"),
            ErrorCode::InvalidUTF8 => Some("InvalidUTF8"),
            ErrorCode::UnexpectedEof => Some("UnexpectedEof"),
            ErrorCode::AttemptToReadPastEnd => Some("AttemptToReadPastEnd"),
        }
    }
}

impl ErrorImpl {
    pub fn classify(&self) -> (c: Category)
        ensures
            c == category_of(self.code),
    {
        match self.code {
            ErrorCode::Eof => Category::Eof,
            ErrorCode::Io(_) => Category::Io,
            ErrorCode::UnsupportedType | ErrorCode::Message(_) => Category::Misc,
            ErrorCode::UnsupportedTAType
            | ErrorCode::UnsupportedCacheType
            | ErrorCode::IntTooLargeFori64 => Category::Ser,
            _ => Category::De,
        }
    }
}

impl Error {
    /// True of exactly the errors whose code is `Eof`.
    pub fn is_eof(&self) -> (b: bool)
        ensures
            b <==> self.err.code is Eof,
    {
        self.classify() == Category::Eof
    }

    pub fn classify(&self) -> (c: Category)
        ensures
            c == category_of(self.err.code),
    {
        self.err.classify()
    }

    pub fn msg(msg: String) -> (e: Self)
        ensures
            e.err.code == ErrorCode::Message(msg),
            e.err.position == 0,
    {
        Error { err: Box::new(ErrorImpl { code: ErrorCode::Message(msg), position: 0 }) }
    }

    pub fn syntax(code: ErrorCode, position: usize) -> (e: Self)
        ensures
            e.err.code == code,
            e.err.position == position,
    {
        Error { err: Box::new(ErrorImpl { code: code, position: position }) }
    }

    pub fn unmatched_code(code: u8, position: usize) -> (e: Self)
        ensures
            e.err.code == ErrorCode::UnmatchedCode(code),
            e.err.position == position,
    {
        Error { err: Box::new(ErrorImpl { code: ErrorCode::UnmatchedCode(code), position: position }) }
    }

    pub fn eof(position: usize) -> (e: Self)
        ensures
            e.err.code is Eof,
            e.err.position == position,
    {
        Error { err: Box::new(ErrorImpl { code: ErrorCode::Eof, position: position }) }
    }

    pub fn io(error: io::Error) -> (e: Self)
        ensures
            e.err.code == ErrorCode::Io(error),
            e.err.position == 0,
    {
        Error { err: Box::new(ErrorImpl { code: ErrorCode::Io(error), position: 0 }) }
    }
}

} // verus!
