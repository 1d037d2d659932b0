//! The errors of the typed layer.

use vstd::prelude::*;

verus! {

/// Why a codec could not turn a value into bytes or bytes into a value.
#[derive(Clone, Copy, Debug, PartialEq, Eq, Structural)]
pub enum CodecError {
    /// The bytes do not have the length that the codec calls for.
    InvalidLength,
    /// The bytes are not UTF-8.
    InvalidUtf8,
}

/// A failure of the storage engine.
#[derive(Clone, Copy, Debug, PartialEq, Eq, Structural)]
pub enum EngineError {
    /// The handle names no table of the transaction's environment.
    UnknownTable,
    /// A cursor was asked to step before it was placed anywhere.
    CursorUnpositioned,
    /// The environment holds as many tables as it allows.
    TablesFull,
}

/// What an operation of the typed layer can fail with. A key that is not
/// found is no error: it shows as `None`, `false` or `0`.
#[derive(Clone, Copy, Debug, PartialEq, Eq, Structural)]
pub enum Error {
    /// A typed value could not be encoded.
    Encoding(CodecError),
    /// Stored bytes could not be decoded.
    Decoding(CodecError),
    /// `append` was given a key that is not above every key of the table.
    KeyOrderViolation,
    /// The writer of a reserved value did not fill the reserved space exactly.
    ReservedWriteIncomplete,
    /// The storage engine failed.
    Engine(EngineError),
}

} // verus!
