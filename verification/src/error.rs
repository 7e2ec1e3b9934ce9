//! The errors of the library.

use vstd::prelude::*;
use vstd::string::StringExecFns;

verus! {

/// Why a decimal or hexadecimal number could not be read
/// (the kinds of `std::num::ParseIntError` that unsigned parsing gives).
#[derive(Debug, Clone, Copy, PartialEq, Eq, Structural)]
pub enum IntErrorKind {
    /// The text was empty.
    Empty,
    /// A character is not a digit of the radix.
    InvalidDigit,
    /// The number does not fit in the target type.
    PosOverflow,
}

/// The errors of the library.
#[derive(Debug)]
pub enum Error {
    /// An MD5 checksum text does not have 32 bytes.
    MD5Error,
    /// A continuation line came before any field.
    InvalidFoldedValue,
    /// A status entry is malformed.
    InvalidStatusEntry,
    /// A required field is missing from a status entry.
    MissingStatusEntryField(String),
    /// A path is malformed.
    InvalidPath,
    /// A dependency is not met.
    UnmetDepedency,
    /// A number could not be read.
    ParseIntError(IntErrorKind),
}

/// What an [`Error`] holds, with its text taken by its characters.
pub enum ErrorModel {
    MD5Error,
    InvalidFoldedValue,
    InvalidStatusEntry,
    MissingStatusEntryField(Seq<char>),
    InvalidPath,
    UnmetDepedency,
    ParseIntError(IntErrorKind),
}

impl View for Error {
    type V = ErrorModel;

    open spec fn view(&self) -> ErrorModel {
        match self {
            Error::MD5Error => ErrorModel::MD5Error,
            Error::InvalidFoldedValue => ErrorModel::InvalidFoldedValue,
            Error::InvalidStatusEntry => ErrorModel::InvalidStatusEntry,
            Error::MissingStatusEntryField(f) => ErrorModel::MissingStatusEntryField(f@),
            Error::InvalidPath => ErrorModel::InvalidPath,
            Error::UnmetDepedency => ErrorModel::UnmetDepedency,
            Error::ParseIntError(k) => ErrorModel::ParseIntError(*k),
        }
    }
}

/// What a function gave (`None` where the reading halts instead of
/// returning) agrees with the model of its outcome.
pub open spec fn outcome_matches<T: View>(
    r: Option<Result<T, Error>>,
    s: Option<Result<T::V, ErrorModel>>,
) -> bool {
    match (r, s) {
        (None, None) => true,
        (Some(Ok(x)), Some(Ok(y))) => x@ == y,
        (Some(Err(e)), Some(Err(f))) => e@ == f,
        _ => false,
    }
}

/// The text that `std::num::ParseIntError` displays for each kind.
pub open spec fn int_error_text(k: IntErrorKind) -> Seq<char> {
    match k {
        IntErrorKind::Empty => "cannot parse integer from empty string"@,
        IntErrorKind::InvalidDigit => "invalid digit found in string"@,
        IntErrorKind::PosOverflow => "number too large to fit in target type"@,
    }
}

/// Whether an error has a message of its own: the others refer back to
/// their own display, which never ends.
pub open spec fn has_message(e: ErrorModel) -> bool {
    ||| e is MD5Error
    ||| e is MissingStatusEntryField
    ||| e is ParseIntError
}

/// The message of an error.
pub open spec fn message_spec(e: ErrorModel) -> Seq<char> {
    match e {
        ErrorModel::MissingStatusEntryField(f) => "Missing required field \""@ + f
            + "\" from status file."@,
        ErrorModel::MD5Error => "Invalid String size: MD5 Checksum must be 32 characters long."@,
        ErrorModel::ParseIntError(k) => int_error_text(k),
        _ => Seq::empty(),
    }
}

/// The short description of an error.
pub open spec fn description_spec(e: ErrorModel) -> Seq<char> {
    match e {
        ErrorModel::ParseIntError(k) => int_error_text(k),
        _ => "Unimplemented message"@,
    }
}

fn int_error_message(k: IntErrorKind) -> (s: String)
    ensures
        s@ == int_error_text(k),
{
    match k {
        IntErrorKind::Empty => String::from_str("cannot parse integer from empty string"),
        IntErrorKind::InvalidDigit => String::from_str("invalid digit found in string"),
        IntErrorKind::PosOverflow => String::from_str("number too large to fit in target type"),
    }
}

impl Error {
    /// The message that displays the error.
    pub fn message(&self) -> (s: String)
        requires
            has_message(self@),
        ensures
            s@ == message_spec(self@),
    {
        match self {
            Error::MissingStatusEntryField(field) => {
                let mut s = String::from_str("Missing required field \"");
                s.append(field.as_str());
                s.append("\" from status file.");
                s
            },
            Error::MD5Error => String::from_str(
                "Invalid String size: MD5 Checksum must be 32 characters long.",
            ),
            Error::ParseIntError(k) => int_error_message(*k),
            _ => String::new(),
        }
    }

    /// The short description of the error.
    pub fn description(&self) -> (s: String)
        ensures
            s@ == description_spec(self@),
    {
        match self {
            Error::ParseIntError(k) => int_error_message(*k),
            _ => String::from_str("Unimplemented message"),
        }
    }
}

} // verus!
