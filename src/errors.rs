use vstd::prelude::*;

verus! {

/// std's I/O error, carried through as an opaque value.
#[verifier::external_type_specification]
#[verifier::external_body]
pub struct ExIoError(std::io::Error);

/// What can go wrong while loading records or converting a range of them.
#[derive(Debug)]
pub enum AocError {
    /// The input could not be read.
    IOError(std::io::Error),
    /// A requested line number lies outside the records, or the range is reversed.
    OutOfBounds,
    /// A record in the requested range does not parse as the target type.
    ParseToTypeFailed,
}

} // verus!
