use vstd::prelude::*;

verus! {

/// The failures of the rotator.
#[derive(Debug)]
pub enum RollingError {
    /// A byte-size setting was malformed.
    ParseError,
    /// The file system refused an operation.
    WriterResult(std::io::Error),
}

pub type Result<T> = std::result::Result<T, RollingError>;

/// `std::io::Error` is carried through unchanged; nothing looks inside it.
#[verifier::external_type_specification]
#[verifier::external_body]
pub struct ExIoError(std::io::Error);

} // verus!
