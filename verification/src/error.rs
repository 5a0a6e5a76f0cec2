//! The errors that the library reports.

use vstd::prelude::*;

verus! {

/// An error of the operating system's file interface. Nothing is known of its
/// contents here: it is carried to the caller as it came.
#[verifier::external_type_specification]
#[verifier::external_body]
pub struct ExIoError(std::io::Error);

/// Why an operation failed.
#[derive(Debug)]
pub enum Error {
    /// The underlying file failed; the error is the file's own.
    Io(std::io::Error),
    /// No element of a queue equals the probe.
    NotFound,
    /// A position that cannot be reached: before the start of the file, or beyond
    /// what positions can express.
    InvalidSeek,
    /// Bytes read from a file are not what the library wrote there.
    Corrupt,
}

} // verus!
