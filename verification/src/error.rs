//! What goes wrong while JSON text is read, and where.
use vstd::prelude::*;

verus! {

/// The error type of an input source.
#[verifier::external_type_specification]
#[verifier::external_body]
pub struct ExIoError(std::io::Error);

/// Why the input was refused.
#[derive(Debug)]
pub enum ErrorCode {
    /// A message from whoever builds the final value.
    Message(String),
    /// The input source failed.
    Io(std::io::Error),
    /// The input ended inside an array.
    EofWhileParsingList,
    /// The input ended inside an object.
    EofWhileParsingObject,
    /// The input ended inside a string.
    EofWhileParsingString,
    /// The input ended where a value was due.
    EofWhileParsingValue,
    /// A `:` was due.
    ExpectedColon,
    /// A `,` or a `]` was due.
    ExpectedListCommaOrEnd,
    /// A `,` or a `}` was due.
    ExpectedObjectCommaOrEnd,
    /// A `{` or a `[` was due.
    ExpectedObjectOrArray,
    /// One of `null`, `true` and `false` was begun and not finished.
    ExpectedSomeIdent,
    /// Something that cannot begin a value.
    ExpectedSomeValue,
    /// A backslash that no known escape sequence follows.
    InvalidEscape,
    /// A malformed number.
    InvalidNumber,
    /// A number whose magnitude is beyond every finite double.
    NumberOutOfRange,
    /// Bytes that do not encode Unicode text.
    InvalidUnicodeCodePoint,
    /// An object key that is not a string.
    KeyMustBeAString,
    /// Half of a surrogate pair on its own.
    LoneLeadingSurrogateInHexEscape,
    /// Something other than white space behind the value.
    TrailingCharacters,
    /// The second half of a surrogate pair is missing.
    UnexpectedEndOfHexEscape,
    /// Arrays and objects nested too deeply.
    RecursionLimitExceeded,
}

/// The kinds of error a caller may want to tell apart.
#[derive(Debug, Clone, Copy, PartialEq, Eq, Structural)]
pub enum Category {
    /// The input source failed.
    Io,
    /// The input is not well-formed JSON.
    Syntax,
    /// The input is well-formed JSON of the wrong shape.
    Data,
    /// The input ended too early.
    Eof,
}

impl ErrorCode {
    /// The category of a code.
    pub open spec fn category(&self) -> Category {
        match *self {
            ErrorCode::Message(_) => Category::Data,
            ErrorCode::Io(_) => Category::Io,
            ErrorCode::EofWhileParsingList
            | ErrorCode::EofWhileParsingObject
            | ErrorCode::EofWhileParsingString
            | ErrorCode::EofWhileParsingValue => Category::Eof,
            _ => Category::Syntax,
        }
    }

    /// The text that a code is reported with.
    pub open spec fn text(&self) -> Seq<char> {
        match *self {
            ErrorCode::Message(m) => m@,
            ErrorCode::Io(_) => "I/O error"@,
            ErrorCode::EofWhileParsingList => "EOF while parsing a list"@,
            ErrorCode::EofWhileParsingObject => "EOF while parsing an object"@,
            ErrorCode::EofWhileParsingString => "EOF while parsing a string"@,
            ErrorCode::EofWhileParsingValue => "EOF while parsing a value"@,
            ErrorCode::ExpectedColon => "expected `:`"@,
            ErrorCode::ExpectedListCommaOrEnd => "expected `,` or `]`"@,
            ErrorCode::ExpectedObjectCommaOrEnd => "expected `,` or `}`"@,
            ErrorCode::ExpectedObjectOrArray => "expected `{` or `[`"@,
            ErrorCode::ExpectedSomeIdent => "expected ident"@,
            ErrorCode::ExpectedSomeValue => "expected value"@,
            ErrorCode::InvalidEscape => "invalid escape"@,
            ErrorCode::InvalidNumber => "invalid number"@,
            ErrorCode::NumberOutOfRange => "number out of range"@,
            ErrorCode::InvalidUnicodeCodePoint => "invalid unicode code point"@,
            ErrorCode::KeyMustBeAString => "key must be a string"@,
            ErrorCode::LoneLeadingSurrogateInHexEscape => "lone leading surrogate in hex escape"@,
            ErrorCode::TrailingCharacters => "trailing characters"@,
            ErrorCode::UnexpectedEndOfHexEscape => "unexpected end of hex escape"@,
            ErrorCode::RecursionLimitExceeded => "recursion limit exceeded"@,
        }
    }

    /// The text that this code is reported with. For a failed source it says
    /// only that; the source's own error holds the rest.
    pub fn description(&self) -> (r: &str)
        ensures
            r@ == self.text(),
    {
        match self {
            ErrorCode::Message(m) => m.as_str(),
            ErrorCode::Io(_) => "I/O error",
            ErrorCode::EofWhileParsingList => "EOF while parsing a list",
            ErrorCode::EofWhileParsingObject => "EOF while parsing an object",
            ErrorCode::EofWhileParsingString => "EOF while parsing a string",
            ErrorCode::EofWhileParsingValue => "EOF while parsing a value",
            ErrorCode::ExpectedColon => "expected `:`",
            ErrorCode::ExpectedListCommaOrEnd => "expected `,` or `]`",
            ErrorCode::ExpectedObjectCommaOrEnd => "expected `,` or `}`",
            ErrorCode::ExpectedObjectOrArray => "expected `{` or `[`",
            ErrorCode::ExpectedSomeIdent => "expected ident",
            ErrorCode::ExpectedSomeValue => "expected value",
            ErrorCode::InvalidEscape => "invalid escape",
            ErrorCode::InvalidNumber => "invalid number",
            ErrorCode::NumberOutOfRange => "number out of range",
            ErrorCode::InvalidUnicodeCodePoint => "invalid unicode code point",
            ErrorCode::KeyMustBeAString => "key must be a string",
            ErrorCode::LoneLeadingSurrogateInHexEscape => "lone leading surrogate in hex escape",
            ErrorCode::TrailingCharacters => "trailing characters",
            ErrorCode::UnexpectedEndOfHexEscape => "unexpected end of hex escape",
            ErrorCode::RecursionLimitExceeded => "recursion limit exceeded",
        }
    }
}

/// What an [`Error`] says: a reason and the place it concerns.
pub struct ErrorView {
    /// The reason.
    pub code: ErrorCode,
    /// The line, counted from one; zero where no place is known.
    pub line: nat,
    /// The column, counted in bytes from one; zero at the start of a line.
    pub column: nat,
}

/// The error of every operation of this crate.
#[derive(Debug)]
pub struct Error {
    code: ErrorCode,
    line: usize,
    column: usize,
}

/// The result of an operation that reads JSON text.
pub type Result<T> = core::result::Result<T, Error>;

impl View for Error {
    type V = ErrorView;

    closed spec fn view(&self) -> ErrorView {
        ErrorView { code: self.code, line: self.line as nat, column: self.column as nat }
    }
}

impl Error {
    /// An error about the text at a known place.
    pub fn syntax(code: ErrorCode, line: usize, column: usize) -> (r: Error)
        ensures
            r@ == (ErrorView { code, line: line as nat, column: column as nat }),
    {
        Error { code, line, column }
    }

    /// A failure of the input source, at no known place.
    pub fn io(error: std::io::Error) -> (r: Error)
        ensures
            r@ == (ErrorView { code: ErrorCode::Io(error), line: 0, column: 0 }),
    {
        Error { code: ErrorCode::Io(error), line: 0, column: 0 }
    }

    /// A complaint of whoever builds the final value, at no known place.
    pub fn message(text: String) -> (r: Error)
        ensures
            r@ == (ErrorView { code: ErrorCode::Message(text), line: 0, column: 0 }),
    {
        Error { code: ErrorCode::Message(text), line: 0, column: 0 }
    }

    /// The same error at the given place, if no place was known; otherwise
    /// the error as it is.
    pub fn fix_position(self, line: usize, column: usize) -> (r: Error)
        ensures
            self@.line == 0 ==> r@ == (ErrorView {
                code: self@.code,
                line: line as nat,
                column: column as nat,
            }),
            self@.line != 0 ==> r@ == self@,
    {
        if self.line == 0 {
            Error { code: self.code, line, column }
        } else {
            self
        }
    }

    /// The reason.
    pub fn code(&self) -> (r: &ErrorCode)
        ensures
            *r == self@.code,
    {
        &self.code
    }

    /// The line of the error, counted from one; zero where none is known.
    pub fn line(&self) -> (r: usize)
        ensures
            r == self@.line,
    {
        self.line
    }

    /// The column of the error, in bytes.
    pub fn column(&self) -> (r: usize)
        ensures
            r == self@.column,
    {
        self.column
    }

    /// The category of the error.
    pub fn classify(&self) -> (r: Category)
        ensures
            r == self@.code.category(),
    {
        match self.code {
            ErrorCode::Message(_) => Category::Data,
            ErrorCode::Io(_) => Category::Io,
            ErrorCode::EofWhileParsingList
            | ErrorCode::EofWhileParsingObject
            | ErrorCode::EofWhileParsingString
            | ErrorCode::EofWhileParsingValue => Category::Eof,
            _ => Category::Syntax,
        }
    }

    /// Whether the input ended too early, so that more of it may help.
    pub fn is_eof(&self) -> (r: bool)
        ensures
            r == (self@.code.category() == Category::Eof),
    {
        self.classify() == Category::Eof
    }
}

} // verus!
