//! The errors of building an archive.
use vstd::prelude::*;

verus! {

/// Why an archive operation failed.
#[derive(Debug, PartialEq, Eq)]
pub enum TarError {
    /// The sink or source of bytes failed; the text describes how.
    Io(String),
    /// A value is longer than the header field meant for it.
    ValueTooLong,
    /// A value holds a nul byte, which a header field cannot carry.
    ValueContainsNul,
    /// A path inside an archive starts at the root.
    PathNotRelative,
    /// A path inside an archive holds a `..` component.
    PathHasParentDir,
    /// A path inside an archive has no component.
    PathEmpty,
    /// A file on disk is neither a regular file, a directory nor a symlink.
    UnknownFileType,
}

} // verus!
