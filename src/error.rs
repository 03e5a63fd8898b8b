//! Errors of the parser.

use vstd::prelude::*;

verus! {

/// Opaque handle on the I/O error that a failed line read carries.
#[verifier::external_type_specification]
#[verifier::external_body]
pub struct ExIoError(std::io::Error);

/// Why an item of a FASTA stream could not be produced.
#[derive(Debug)]
pub enum FastaError {
    /// The text does not have the structure of a FASTA header or entry.
    Parse(String),
    /// The underlying stream failed while a line was read.
    Io(std::io::Error),
}

} // verus!
