//! Filesystem-style operations over the flat namespace: the decisions and
//! computations each one makes, over plain values that the storage layer
//! hands in and takes back.

use vstd::prelude::*;

use crate::bucket::{bucket_parses, parse_parts, BucketConfig};
use crate::errors::S3PathError;
use crate::file::{valid_records, File, ObjectRecord};
use crate::object::{ObjectMetadata, S3ObjectType};
use crate::s3::{clean_path, spec_clean_path};
use crate::services::GetResponse;
use crate::text::{
    contains_char, join_on, join_upto, nonempty_pieces, retain_nonempty, split_char, split_on,
};

verus! {

/// Everything a directory creation needs from the path alone: the parent
/// to probe for existence, the bucket and key to write, and the path
/// string to report on success.
#[derive(Debug, PartialEq)]
pub struct CreateDirPlan {
    pub parent: BucketConfig,
    pub target: BucketConfig,
    pub created: String,
}

/// The parent of a path: its raw separator-split pieces with the last two
/// dropped, joined again. A trailing separator thus counts as one piece.
pub open spec fn spec_parent_path(s: Seq<char>) -> Seq<char> {
    let parts = split_on(s, '/');
    join_on(parts.take(parts.len() - 2), '/')
}

/// When a directory creation can be planned from the path alone.
pub open spec fn create_dir_accepted(s: Seq<char>) -> bool {
    &&& split_on(s, '/').len() >= 2
    &&& parse_parts(spec_parent_path(s)).len() > 0
    &&& parse_parts(s).len() > 0
    &&& spec_clean_path(s) is Ok
}

/// Plan the creation of a directory: name the parent whose existence must
/// be probed, the bucket configuration to write under, and the path string
/// to report. Too short or unparseable paths are rejected.
pub fn create_dir(path: &str) -> (r: Result<CreateDirPlan, S3PathError>)
    ensures
        match r {
            Ok(plan) => create_dir_accepted(path@) && bucket_parses(
                plan.parent,
                spec_parent_path(path@),
            ) && bucket_parses(plan.target, path@) && (spec_clean_path(path@) matches Ok(c)
                && plan.created@ == c),
            Err(e) => !create_dir_accepted(path@) && e == S3PathError::InvalidPath,
        },
{
    let parts_raw = split_char(path, '/');
    if parts_raw.len() < 2 {
        return Err(S3PathError::InvalidPath);
    }
    let upto = parts_raw.len() - 2;
    let parent_str: String = if upto == 0 {
        proof {
            assert(parts_raw.deep_view().take(0) =~= Seq::<Seq<char>>::empty());
        }
        String::new()
    } else {
        join_upto(&parts_raw, upto)
    };
    let parent = match BucketConfig::from_path(parent_str.as_str()) {
        Ok(b) => b,
        Err(e) => {
            return Err(e);
        },
    };
    let target = match BucketConfig::from_path(path) {
        Ok(b) => b,
        Err(e) => {
            return Err(e);
        },
    };
    let created = match clean_path(path) {
        Ok(c) => c,
        Err(e) => {
            return Err(e);
        },
    };
    Ok(CreateDirPlan { parent, target, created })
}

/// Plan the creation of a directory without probing any parent: the bucket
/// configuration to write under and the path string to report.
pub fn create_dir_all(path: &str) -> (r: Result<(BucketConfig, String), S3PathError>)
    ensures
        match r {
            Ok(t) => parse_parts(path@).len() > 0 && bucket_parses(t.0, path@) && (spec_clean_path(
                path@,
            ) matches Ok(c) && t.1@ == c),
            Err(e) => (parse_parts(path@).len() == 0 || spec_clean_path(path@) is Err) && e
                == S3PathError::InvalidPath,
        },
{
    let target = match BucketConfig::from_path(path) {
        Ok(b) => b,
        Err(e) => {
            return Err(e);
        },
    };
    let created = match clean_path(path) {
        Ok(c) => c,
        Err(e) => {
            return Err(e);
        },
    };
    Ok((target, created))
}

/// Synthesize the metadata of the object at `key` from what its fetch
/// reported. A response that omits its content type, entity tag or
/// timestamp is malformed and reported as unknown rather than accepted.
pub fn metadata(key: &str, response: GetResponse) -> (r: Result<ObjectMetadata, S3PathError>)
    ensures
        r is Ok <==> (response.content_type is Some && response.e_tag is Some
            && response.last_modified is Some),
        r matches Ok(m) ==> {
            &&& Some(m.content_type@) == response.content_type.deep_view()
            &&& m.content_length == response.content_length
            &&& Some(m.e_tag@) == response.e_tag.deep_view()
            &&& Some(m.last_modified@) == response.last_modified.deep_view()
            &&& m.metadata == response.metadata
            &&& m.object_type == (if key@.contains('.') {
                S3ObjectType::File
            } else {
                S3ObjectType::Directory
            })
        },
        r matches Err(e) ==> e == S3PathError::Unknown,
{
    let GetResponse { content_type, content_length, e_tag, last_modified, metadata } = response;
    let content_type = match content_type {
        Some(c) => c,
        None => {
            return Err(S3PathError::Unknown);
        },
    };
    let e_tag = match e_tag {
        Some(t) => t,
        None => {
            return Err(S3PathError::Unknown);
        },
    };
    let last_modified = match last_modified {
        Some(l) => l,
        None => {
            return Err(S3PathError::Unknown);
        },
    };
    let object_type = if contains_char(key, '.') {
        S3ObjectType::File
    } else {
        S3ObjectType::Directory
    };
    Ok(
        ObjectMetadata {
            content_type,
            content_length,
            e_tag,
            last_modified,
            metadata,
            object_type,
        },
    )
}

/// Hand a fetched body through: a missing body is malformed and reported
/// as unknown rather than accepted, and a fetch error passes unchanged.
pub fn read(body: Result<Option<Vec<u8>>, S3PathError>) -> (r: Result<Vec<u8>, S3PathError>)
    ensures
        match body {
            Ok(Some(b)) => r == Ok::<Vec<u8>, S3PathError>(b),
            Ok(None) => r == Err::<Vec<u8>, S3PathError>(S3PathError::Unknown),
            Err(e) => r == Err::<Vec<u8>, S3PathError>(e),
        },
{
    match body {
        Ok(Some(b)) => Ok(b),
        Ok(None) => Err(S3PathError::Unknown),
        Err(e) => Err(e),
    }
}

/// Read a directory: an existence error passes unchanged, a path that is
/// no directory is refused as such, and otherwise the listing's records
/// are kept, dropping those without a key and those naming the directory
/// itself. The directory's name is the path's last nonempty segment.
pub fn read_dir(
    path: &str,
    exists: Result<bool, S3PathError>,
    is_dir: bool,
    objects: Vec<ObjectRecord>,
) -> (r: Result<Vec<ObjectRecord>, S3PathError>)
    ensures
        (match exists {
            Err(e) => r matches Err(f) && f == e,
            Ok(_) => {
                if !is_dir {
                    r matches Err(f) && f == S3PathError::NotADirectory
                } else {
                    let segs = nonempty_pieces(split_on(path@, '/'));
                    if segs.len() == 0 {
                        r matches Err(f) && f == S3PathError::InvalidPath
                    } else {
                        r matches Ok(v) && v.deep_view() == valid_records(
                            objects.deep_view(),
                            segs.last(),
                        )
                    }
                }
            },
        }),
{
    match exists {
        Err(e) => {
            return Err(e);
        },
        Ok(_) => {},
    }
    if !is_dir {
        return Err(S3PathError::NotADirectory);
    }
    let segs = retain_nonempty(split_char(path, '/'));
    if segs.len() == 0 {
        return Err(S3PathError::InvalidPath);
    }
    let dir_name = &segs[segs.len() - 1];
    let kept = File::filter_valid(&objects, dir_name.as_str());
    proof {
        assert(segs.deep_view()[segs@.len() - 1] == nonempty_pieces(split_on(path@, '/')).last());
    }
    Ok(kept)
}

} // verus!
