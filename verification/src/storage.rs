//! Configuration of the wallet descriptor storage collaborator.
//!
//! The storage module itself is a separate component; the runtime
//! configuration only needs to know where its file lives and in which
//! format it is written.

use vstd::prelude::*;

use crate::cache::file::FileFormat;

verus! {

/// Where and in which format the descriptor storage file lives.
#[derive(Clone, PartialEq, Debug)]
pub struct FileConfig {
    /// Directory holding the storage file.
    pub location: String,
    /// Serialization format of the storage file.
    pub format: FileFormat,
}

} // verus!
