//! The trusted boundary to the operating system.
//!
//! Directory listing goes through the `walkdir` crate and content access
//! through the `fs-err` crate.  What comes back from disk depends on the
//! machine's state at the time of the call, so these items promise nothing
//! about it: callers validate the returned strings themselves and state
//! what holds of every outcome.

use vstd::prelude::*;

verus! {

/// Relies on walkdir::WalkDir with depth bounds 1..=1: the immediate
/// children of the directory at `abs`, as `(name, is_file, is_dir)`, in
/// file-name order.  Names are the final path component, decoded lossily.
/// Unreadable entries and an unreadable directory are passed over silently,
/// so the worst case is an empty listing.
#[verifier::external_body]
pub(crate) fn list_dir(abs: &str) -> Vec<(String, bool, bool)> {
    let mut out = Vec::new();
    let wd = walkdir::WalkDir::new(abs).min_depth(1).max_depth(1).sort_by_file_name();
    for entry in wd.into_iter().flatten() {
        let name = entry.file_name().to_string_lossy().into_owned();
        out.push((name, entry.file_type().is_file(), entry.file_type().is_dir()));
    }
    out
}

/// Relies on walkdir::WalkDir: every entry below the directory at `abs`,
/// recursively, as `(path, is_file)` with the walk's root still prefixed to
/// each path, in file-name order per directory.  Paths are decoded lossily;
/// unreadable entries are passed over silently.
#[verifier::external_body]
pub(crate) fn walk_files(abs: &str) -> Vec<(String, bool)> {
    let mut out = Vec::new();
    let wd = walkdir::WalkDir::new(abs).min_depth(1).sort_by_file_name();
    for entry in wd.into_iter().flatten() {
        let path = entry.path().to_string_lossy().into_owned();
        out.push((path, entry.file_type().is_file()));
    }
    out
}

/// Relies on fs_err::read: the bytes of the file at `abs` as found on disk
/// at the time of the call.  A failure is always the operating system's,
/// wrapped as the I/O variant.
#[verifier::external_body]
pub(crate) fn disk_read(abs: &str) -> (r: Result<Vec<u8>, crate::error::Error>)
    ensures
        r matches Err(e) ==> e is IoError,
{
    match fs_err::read(abs) {
        Ok(v) => Ok(v),
        Err(e) => Err(crate::error::Error::IoError { source: e }),
    }
}

/// Relies on fs_err::metadata: size, modification time (seconds since the
/// Unix epoch, when the platform reports one) and kind of the object at
/// `abs`, as found on disk at the time of the call.  A failure is always
/// the operating system's, wrapped as the I/O variant.
#[verifier::external_body]
pub(crate) fn disk_stat(abs: &str) -> (r: Result<(u64, Option<u64>, bool, bool), crate::error::Error>)
    ensures
        r matches Err(e) ==> e is IoError,
{
    match fs_err::metadata(abs) {
        Ok(m) => {
            let modified = m
                .modified()
                .ok()
                .and_then(|t| t.duration_since(std::time::UNIX_EPOCH).ok())
                .map(|d| d.as_secs());
            Ok((m.len(), modified, m.is_file(), m.is_dir()))
        },
        Err(e) => Err(crate::error::Error::IoError { source: e }),
    }
}

/// Relies on String::from_utf8: succeeds exactly on valid UTF-8 input and
/// decodes it; failure carries the decode error.
#[verifier::external_body]
pub(crate) fn bytes_to_string(v: Vec<u8>) -> (r: Result<String, crate::error::Error>)
    ensures
        r is Ok <==> vstd::utf8::valid_utf8(v@),
        r matches Ok(s) ==> s@ == vstd::utf8::decode_utf8(v@),
        r matches Err(e) ==> e is DecodeError,
{
    match String::from_utf8(v) {
        Ok(s) => Ok(s),
        Err(e) => Err(crate::error::Error::DecodeError { source: e }),
    }
}

} // verus!
