//! The file-backed cache: serialization format selector, in-memory data
//! model, whole-state codec, and the driver implementation.

pub mod codec;
pub mod internal;
pub mod model;

use vstd::prelude::*;

verus! {

/// The closed set of serialization formats a cache file may use.  The
/// selector is validated when the configuration is loaded: a value of
/// this type always names a supported format.
#[derive(Clone, Copy, PartialEq, Eq, Structural, Hash, Debug)]
pub enum FileFormat {
    /// Compact binary encoding with deterministic field order.
    StrictEncode,
    Yaml,
    Toml,
    Json,
}

impl FileFormat {
    /// The conventional file name extension of each format.
    pub open spec fn extension_spec(self) -> Seq<char> {
        match self {
            FileFormat::StrictEncode => "dat"@,
            FileFormat::Yaml => "yaml"@,
            FileFormat::Toml => "toml"@,
            FileFormat::Json => "json"@,
        }
    }

    pub fn extension(&self) -> (r: &'static str)
        ensures
            r@ == self.extension_spec(),
    {
        match self {
            FileFormat::StrictEncode => "dat",
            FileFormat::Yaml => "yaml",
            FileFormat::Toml => "toml",
            FileFormat::Json => "json",
        }
    }
}

} // verus!
