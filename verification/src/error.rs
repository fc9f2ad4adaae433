//! The error taxonomy of a weaving run.

use vstd::prelude::*;

verus! {

/// Every fatal condition a run can end in.
///
/// A linker failure is not an internal error: the run merely mirrors the
/// linker's exit status, so `LinkFailed` only marks that normalization was
/// skipped.
#[derive(Clone, Copy, Debug, PartialEq, Eq, Structural)]
pub enum WeaveError {
    /// The container declares the alternate component encoding, which this
    /// tool does not support; nothing past the header is inspected.
    UnsupportedEncoding,
    /// Structurally invalid bytes in a binary module container.
    MalformedContainer,
    /// Structurally invalid bytes in a static archive.
    MalformedArchive,
    /// The link arguments name no output path, so there is nothing to
    /// normalize afterwards; nothing is invoked.
    MissingOutputPath,
    /// The external assembler exited non-zero or could not be spawned.
    AssemblyFailed,
    /// The underlying linker exited non-zero.
    LinkFailed,
    /// A read or write against an object file, an archive, or the final
    /// artifact failed.
    ArtifactIo,
}

impl WeaveError {
    /// A short, stable description of the condition, for diagnostics.
    pub fn describe(&self) -> (r: &'static str)
        ensures
            r@.len() > 0,
    {
        proof {
            reveal_strlit("containers with the component encoding are not supported");
            reveal_strlit("malformed binary module container");
            reveal_strlit("malformed static archive");
            reveal_strlit("output path argument should be present");
            reveal_strlit("assembling an embedded block failed");
            reveal_strlit("the underlying linker failed");
            reveal_strlit("reading or writing an artifact failed");
        }
        match self {
            WeaveError::UnsupportedEncoding => "containers with the component encoding are not supported",
            WeaveError::MalformedContainer => "malformed binary module container",
            WeaveError::MalformedArchive => "malformed static archive",
            WeaveError::MissingOutputPath => "output path argument should be present",
            WeaveError::AssemblyFailed => "assembling an embedded block failed",
            WeaveError::LinkFailed => "the underlying linker failed",
            WeaveError::ArtifactIo => "reading or writing an artifact failed",
        }
    }
}

} // verus!
