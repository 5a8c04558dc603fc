//! Temporarily substitute files in a working directory with counterparts from
//! a linked source directory, keeping the originals as suffixed aside copies.
//!
//! The library implements the swap state machine over an explicit model of the
//! relevant directory trees (`fs::Fs`): a map from canonical relative path
//! strings to directory or file nodes. Every operation is specified and
//! verified against that model; the thin unverified front end mirrors the real
//! filesystem into the model and applies the resulting changes back.
use vstd::prelude::*;

pub mod pathspec;
pub mod strutil;
pub mod fs;
pub mod scan;
pub mod link;
pub mod swap;
pub mod cli;

verus! {

/// The fixed suffix that tags an aside copy, and the name of the marker file.
pub open spec fn fswap_suffix() -> Seq<char> {
    ".fswap"@
}

/// Every failure an operation can report. Filesystem-level faults (an
/// unreadable directory, a failed rename) belong to the unverified front end;
/// the variants here are the ones the state machine itself decides.
#[derive(Clone, Copy, Debug, PartialEq, Eq, Structural)]
pub enum FswapError {
    /// A named path does not exist.
    NotFound,
    /// A path that must be a directory is not one.
    NotADirectory,
    /// The working file to swap is not a regular file.
    NotAFile,
    /// The source and working directories resolve to the same directory.
    SameDirectory,
    /// A marker file already exists in the working directory.
    AlreadyLinked,
    /// No marker file exists in the working directory.
    NotLinked,
    /// The marker file content is not valid text.
    InvalidEncoding,
    /// The linked source directory does not exist.
    SourceMissing,
    /// The counterpart of a working file is missing from the source directory.
    SourceFileMissing,
    /// A directory to scan cannot be listed.
    Unreadable,
    /// A path is not a canonical relative path and cannot name a file.
    InvalidPath,
    /// A command option is not recognized.
    InvalidOption,
}

} // verus!
