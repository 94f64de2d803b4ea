//! Diagnostics: a closed taxonomy of error codes, each reported together
//! with the source line and column at which it was found.

use vstd::prelude::*;

verus! {

/// One member of the closed diagnostic taxonomy.
///
/// The `char` carried by `ExpectedCommaOrEndWhileParsing` and
/// `EndOfFileWhileParsing` is the closing delimiter (`]` or `}`) of the
/// structure that was being parsed.
#[derive(Debug, PartialEq, Eq, Clone, Copy)]
pub enum ErrorCode {
    ExpectedToken,
    ExpectedDoubleQuote,
    ExpectedColon,
    ExpectedCommaOrEndWhileParsing(char),
    KeyMustBeAString,
    InvalidNumber,
    EndOfFileExpected,
    EndOfFileWhileParsing(char),
    EndOfFileWhileParsingValue,
}

impl ErrorCode {
    /// Do the variants that carry a closing delimiter carry `]` or `}`?
    /// The parser never produces any other delimiter.
    pub open spec fn delimiter_valid(self) -> bool {
        match self {
            ErrorCode::ExpectedCommaOrEndWhileParsing(end) => end == ']' || end == '}',
            ErrorCode::EndOfFileWhileParsing(end) => end == ']' || end == '}',
            _ => true,
        }
    }

    /// The wording of each diagnostic.
    pub open spec fn spec_message(self) -> Seq<char> {
        match self {
            ErrorCode::ExpectedToken => "Expected a JSON object, array, string, number, bool, or null."@,
            ErrorCode::ExpectedDoubleQuote => "Expected '\"'"@,
            ErrorCode::ExpectedColon => "Expected ':'"@,
            ErrorCode::ExpectedCommaOrEndWhileParsing(end) => if end == ']' {
                "Expected ',' or ']' while parsing array"@
            } else {
                "Expected ',' or '}' while parsing object"@
            },
            ErrorCode::KeyMustBeAString => "Key must be a string"@,
            ErrorCode::InvalidNumber => "Invalid number"@,
            ErrorCode::EndOfFileExpected => "End of file expected"@,
            ErrorCode::EndOfFileWhileParsing(end) => if end == ']' {
                "End of file while parsing a list"@
            } else {
                "End of file while parsing an object"@
            },
            ErrorCode::EndOfFileWhileParsingValue => "End of file while parsing a value"@,
        }
    }

    /// A human-readable description of the diagnostic.
    pub fn message(&self) -> (r: String)
        requires
            self.delimiter_valid(),
        ensures
            r@ == self.spec_message(),
    {
        match self {
            ErrorCode::ExpectedToken => "Expected a JSON object, array, string, number, bool, or null.".to_owned(),
            ErrorCode::ExpectedDoubleQuote => "Expected '\"'".to_owned(),
            ErrorCode::ExpectedColon => "Expected ':'".to_owned(),
            ErrorCode::ExpectedCommaOrEndWhileParsing(end) => if *end == ']' {
                "Expected ',' or ']' while parsing array".to_owned()
            } else {
                "Expected ',' or '}' while parsing object".to_owned()
            },
            ErrorCode::KeyMustBeAString => "Key must be a string".to_owned(),
            ErrorCode::InvalidNumber => "Invalid number".to_owned(),
            ErrorCode::EndOfFileExpected => "End of file expected".to_owned(),
            ErrorCode::EndOfFileWhileParsing(end) => if *end == ']' {
                "End of file while parsing a list".to_owned()
            } else {
                "End of file while parsing an object".to_owned()
            },
            ErrorCode::EndOfFileWhileParsingValue => "End of file while parsing a value".to_owned(),
        }
    }
}

/// The mathematical shape of a diagnostic: a code and an unbounded
/// line/column position, both counted from 1.
pub struct ErrorModel {
    pub code: ErrorCode,
    pub line: int,
    pub col: int,
}

/// One reported defect: an error code with the line and column (both
/// counted from 1) at which it was found.
#[derive(Debug, PartialEq, Eq, Clone, Copy)]
pub struct Error {
    code: ErrorCode,
    line: usize,
    col: usize,
}

impl View for Error {
    type V = ErrorModel;

    closed spec fn view(&self) -> ErrorModel {
        ErrorModel { code: self.code, line: self.line as int, col: self.col as int }
    }
}

impl DeepView for Error {
    type V = ErrorModel;

    open spec fn deep_view(&self) -> ErrorModel {
        self.view()
    }
}

impl Error {
    pub fn new(code: ErrorCode, line: usize, col: usize) -> (r: Error)
        ensures
            r@ == (ErrorModel { code, line: line as int, col: col as int }),
    {
        Error { code, line, col }
    }
}

} // verus!
