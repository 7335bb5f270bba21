//! The one failure type every codec and helper of this library reports.

use vstd::prelude::*;

verus! {

/// Which quota a parser ran over.
#[derive(Debug, Clone, Copy, PartialEq, Eq, Structural)]
pub enum QuotaKind {
    Depth,
    Elements,
}

/// The enumerated failure kinds of the library.
#[derive(Debug)]
pub enum LLSDError {
    /// XML well-formedness or grammar violation.
    XmlError { message: String },
    /// JSON syntax error.
    JsonError { message: String },
    /// Malformed binary data other than the kinds below.
    BinaryError { message: String },
    /// The binary magic was absent or wrong while validation was on.
    InvalidMagic,
    /// A binary type tag outside the known range.
    InvalidType { type_id: u8 },
    /// Input ran out in the middle of a value.
    UnexpectedEndOfData,
    /// Text that should have held a UUID did not.
    InvalidUuid { uuid: String },
    /// Text that should have held a date did not, or a binary date was out
    /// of the representable range.
    InvalidDate { date: String },
    /// A base64 payload failed to decode.
    Base64Error,
    /// A string, key or URI payload was not valid UTF-8.
    Utf8Error,
    /// A depth or element-count quota was exceeded.
    QuotaExceeded { kind: QuotaKind },
    /// A number that no LLSD real can carry (non-finite on serialize).
    InvalidNumber,
    /// An XML document with no `llsd` root element.
    MissingRoot,
    /// The constraint validator rejected a value.
    ValidationError { message: String },
    /// A required field was absent.
    MissingField { field: String },
    /// A value had the wrong type for an access.
    TypeMismatch { expected: String, actual: String },
    /// A dotted path led nowhere.
    PathNotFound { path: String },
    /// An array index was out of bounds.
    IndexOutOfBounds { index: usize },
    /// Any other failure, described in words.
    CustomError { message: String },
}

impl LLSDError {
    /// A binary-format failure with the given description.
    pub fn binary_error(message: &str) -> (r: LLSDError)
        ensures
            r is BinaryError,
    {
        LLSDError::BinaryError { message: message.to_owned() }
    }

    /// A validation failure with the given description.
    pub fn validation_error(message: &str) -> (r: LLSDError)
        ensures
            r is ValidationError,
    {
        LLSDError::ValidationError { message: message.to_owned() }
    }

    /// Any other failure, described in words.
    pub fn custom(message: &str) -> (r: LLSDError)
        ensures
            r is CustomError,
    {
        LLSDError::CustomError { message: message.to_owned() }
    }

    /// A missing-field failure.
    pub fn missing_field(field: &str) -> (r: LLSDError)
        ensures
            r is MissingField,
    {
        LLSDError::MissingField { field: field.to_owned() }
    }

    /// A type-mismatch failure.
    pub fn type_mismatch(expected: &str, actual: &str) -> (r: LLSDError)
        ensures
            r is TypeMismatch,
    {
        LLSDError::TypeMismatch { expected: expected.to_owned(), actual: actual.to_owned() }
    }

    /// A path-not-found failure.
    pub fn path_not_found(path: &str) -> (r: LLSDError)
        ensures
            r is PathNotFound,
    {
        LLSDError::PathNotFound { path: path.to_owned() }
    }
}

/// The result type every fallible operation of this library returns.
pub type LLSDResult<T> = Result<T, LLSDError>;

} // verus!
