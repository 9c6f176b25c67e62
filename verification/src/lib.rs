//! Engine of a command-line package manager for self-contained binary
//! artifacts: repository synchronization into a local metadata store,
//! download candidate selection, and an install/update/remove pipeline
//! whose database and filesystem effects are modeled explicitly so that
//! atomicity, crash-safety and retention can be stated and proved.

pub mod bytes;
pub mod config;
pub mod db;
pub mod engine;
pub mod errors;
pub mod filters;
pub mod laws;
pub mod order;
pub mod pattern;
pub mod shard;
