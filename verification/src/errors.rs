//! The error taxonomy: remote transport failures, malformed input, archive
//! version mismatches, and filesystem failures on cache paths.
use vstd::prelude::*;

verus! {

#[derive(Debug, Clone, Copy, PartialEq, Eq, Structural)]
pub enum GwasError {
    /// Network failure or malformed response header.
    RemoteIo,
    /// Missing required column, unparseable numeric or date field, or
    /// malformed markup.
    Parse,
    /// Archive written by an incompatible encoding version.
    FormatMismatch,
    /// Create, rename or remove failure on a cache path.
    Filesystem,
}

} // verus!
