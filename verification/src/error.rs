use vstd::prelude::*;

verus! {

#[verifier::external_type_specification]
#[verifier::external_body]
pub struct ExIoError(std::io::Error);

/// Errors of the archiver.
#[derive(Debug)]
pub enum DtarError {
    /// An input or output operation failed.
    Io(std::io::Error),
    /// No directories were given to archive.
    NoDirectories,
}

} // verus!
