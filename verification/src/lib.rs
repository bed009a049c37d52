//! State cache for a Bitcoin/RGB wallet runtime.
//!
//! The crate keeps, per tracked contract, the set of unspent outputs, the
//! HD derivation indices already consumed by addresses, and the asset
//! allocations sitting on outputs.  The [`cache::Driver`] trait is the
//! capability interface the rest of a wallet runtime talks to; the
//! [`cache::FileDriver`] implementation keeps the whole state resident in
//! memory and serializes it in full for a file-backed owner to persist.

pub mod assoc;
pub mod cache;
pub mod model;
pub mod runtime;
pub mod storage;
