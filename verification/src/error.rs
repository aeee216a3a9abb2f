//! The error type shared by file and silo operations.

use vstd::prelude::*;

verus! {

/// A value of `std::io::Error`, carried through without being read.
#[verifier::external_type_specification]
#[verifier::external_body]
pub struct ExIoError(std::io::Error);

/// A value of `std::string::FromUtf8Error`, carried through without being read.
#[verifier::external_type_specification]
#[verifier::external_body]
pub struct ExFromUtf8Error(std::string::FromUtf8Error);

/// Error type for file and silo operations.
///
/// Lookups and listings never produce one of these: absence is reported as
/// `None` and unreadable directories list as empty.  Only content and
/// metadata access fails explicitly.
#[derive(Debug)]
#[allow(inconsistent_fields)]
pub enum Error {
    /// The bytes of a file were not valid UTF-8.
    DecodeError { source: std::string::FromUtf8Error },
    /// No file exists at the requested path.
    NotFound,
    /// The operating system reported a failure while reading or examining a file.
    IoError { source: std::io::Error },
    /// An embedded file that was baked in without metadata.
    MetadataUnavailable,
}

} // verus!
