//! The patch record: the unit the splitter produces and the name
//! allocator consumes, plus the error values of both components.

use vstd::prelude::*;

verus! {

/// One self-contained patch segment for a single file.
///
/// `old` and `new` are the file identities declared by the segment's
/// `"--- "` and `"+++ "` marker lines, normalized; `contents` is the
/// full reconstructed segment text, lines joined with `'\n'`.
#[derive(Debug, PartialEq, Eq)]
pub struct PatchFile {
    pub old: String,
    pub new: String,
    pub contents: String,
}

/// Raised when the whole input held no usable file-boundary markers:
/// at the final flush no `"--- "` or `"+++ "` name was pending.
#[derive(Debug, PartialEq, Eq, Structural)]
pub enum SplitError {
    MalformedInput,
}

/// Raised when every candidate name the allocator may try is occupied.
#[derive(Debug, PartialEq, Eq, Structural)]
pub enum AllocError {
    TooManyCollisions,
}

impl PatchFile {
    /// Builds a record from its three parts.
    pub fn new(old: String, new: String, contents: String) -> (r: PatchFile)
        ensures
            r.old@ == old@,
            r.new@ == new@,
            r.contents@ == contents@,
    {
        PatchFile { old, new, contents }
    }
}

} // verus!
