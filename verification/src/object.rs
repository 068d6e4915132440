//! Metadata of a single stored object, as a caller sees it.

use std::collections::HashMap;

use vstd::prelude::*;

verus! {

/// Whether a key addresses an object ("file") or a prefix ("directory").
#[derive(Clone, Copy, Debug, PartialEq, Eq, Structural)]
pub enum S3ObjectType {
    File,
    Directory,
}

/// What a caller learns about one object: its content type and length, its
/// entity tag, its timestamp, any user metadata, and whether the key reads
/// as a file or as a directory.
#[derive(Debug)]
pub struct ObjectMetadata {
    pub content_type: String,
    pub content_length: Option<i64>,
    pub e_tag: String,
    pub last_modified: String,
    pub metadata: Option<HashMap<String, String>>,
    pub object_type: S3ObjectType,
}

} // verus!
