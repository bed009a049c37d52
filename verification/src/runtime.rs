//! Node runtime configuration consumed by the storage and cache layers.

pub mod config;

pub use config::Config;
