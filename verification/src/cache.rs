//! The cache abstraction: the [`driver::Driver`] capability interface,
//! the in-memory data model, and the file-backed implementation.

pub mod driver;
pub mod file;

pub use driver::Driver;
pub use file::internal::{FileConfig, FileDriver};

use vstd::prelude::*;

verus! {

/// Failures a cache driver can surface.
///
/// Read operations keyed by an unknown contract do not fail; they return
/// empty results instead.
#[derive(Clone, Copy, PartialEq, Eq, Structural, Debug)]
pub enum Error {
    /// A failure of the underlying storage medium, reported by the owner
    /// of the file handle.
    Io,
    /// The cache could not be serialized during a flush.
    Encoding,
    /// Persisted data was malformed or did not match the expected schema.
    Decoding,
    /// A serialization format outside the supported set was selected.
    UnsupportedFormat,
    /// An address already bound to one derivation index was about to be
    /// rebound to a different one.
    BindingConflict,
}

} // verus!
