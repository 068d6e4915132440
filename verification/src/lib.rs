//! A filesystem-like view of a flat, prefix-delimited object-store namespace.
//!
//! The crate parses object-store paths into a canonical container/key form,
//! classifies backend response codes into a closed error taxonomy, and turns
//! flat listings into a navigable directory tree with per-node metadata.

pub mod bucket;
pub mod errors;
pub mod file;
pub mod fs;
pub mod object;
pub mod s3;
pub mod services;
pub mod text;
