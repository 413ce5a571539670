use vstd::prelude::*;

verus! {

/// Which closed code set an unrecognized value was offered to.
#[derive(Clone, Copy, Debug, PartialEq, Eq, Structural)]
pub enum CodeField {
    Direction,
    CellCommand,
    RelayCommand,
}

/// The hard errors that abort a conversion or index-build run.
#[derive(Debug)]
pub enum ConversionError {
    /// The fixed-width string encoder was handed non-ASCII input.
    EncodingError,
    /// A categorical code fell outside the closed variant set named by `field`.
    UnrecognizedCode { field: CodeField, code: i64 },
    /// A required field was missing, had the wrong type, the wrong array
    /// arity, or an oversized value.
    MalformedInput,
    /// Two records carry the same identifier `key`, which must be unique.
    DuplicateIdentifier { key: Vec<u8> },
}

} // verus!
