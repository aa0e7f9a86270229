//! What a decoding step can end with besides a value.

use vstd::prelude::*;
use crate::source::SourceFailure;

verus! {

/// What was wrong with a header line.
#[derive(Clone, Copy, Debug, PartialEq, Eq, Structural)]
pub enum HeaderFault {
    /// The line does not hold `Content-Disposition:`.
    DispositionMissing,
    /// No `;` ends the disposition type.
    DispositionValue,
    /// `name="` or its closing quote is missing.
    FieldName,
    /// The disposition type is not `form-data`.
    NotFormData,
}

/// The ways in which a step of decoding ends without a value.
#[derive(Debug)]
pub enum DecodeError {
    /// Nothing is left to read: the end of a part, or of the whole body.
    EndOfData,
    /// A header line could not be read; the line is kept for diagnosis.
    MalformedHeader { fault: HeaderFault, line: Vec<u8> },
    /// The byte source failed.
    Source(SourceFailure),
}

/// The end-of-data signal, as a result of any type.
pub fn eof<T>() -> (r: Result<T, DecodeError>)
    ensures
        r == Err::<T, DecodeError>(DecodeError::EndOfData),
{
    Err(DecodeError::EndOfData)
}

/// The error for a header line that could not be read.
pub fn line_error(fault: HeaderFault, line: Vec<u8>) -> (e: DecodeError)
    ensures
        e == (DecodeError::MalformedHeader { fault, line }),
{
    DecodeError::MalformedHeader { fault, line }
}

} // verus!
