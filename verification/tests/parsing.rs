//! Path parsing: container, key and full-key extraction.

use s3_fs::bucket::BucketConfig;
use s3_fs::errors::S3PathError;

#[test]
fn nested_path_splits_container_key_full_key() {
    let b = BucketConfig::from_path("s3://C/a/b/c").unwrap();
    assert_eq!(b.name, "C");
    assert_eq!(b.key, "a/");
    assert_eq!(b.full_key, Some("a/b/c/".to_string()));
}

#[test]
fn single_segment_key_equals_full_key() {
    let b = BucketConfig::from_path("s3://C/a").unwrap();
    assert_eq!(b.name, "C");
    assert_eq!(b.key, "a/");
    assert_eq!(b.full_key, Some("a/".to_string()));
}

#[test]
fn container_only_has_empty_key() {
    let b = BucketConfig::from_path("s3://C").unwrap();
    assert_eq!(b.name, "C");
    assert_eq!(b.key, "");
    assert_eq!(b.full_key, None);
}

#[test]
fn bare_absolute_path_accepted() {
    let b = BucketConfig::from_path("/bucket/key").unwrap();
    assert_eq!(
        b,
        BucketConfig {
            name: "bucket".to_string(),
            key: "key/".to_string(),
            full_key: Some("key/".to_string()),
        }
    );
}

#[test]
fn deep_bare_path() {
    let b = BucketConfig::from_path("/bucket/a/b/c/d").unwrap();
    assert_eq!(b.name, "bucket");
    assert_eq!(b.key, "a/");
    assert_eq!(b.full_key, Some("a/b/c/d/".to_string()));
}

#[test]
fn accesspoint_slash_matches_colon_spelling() {
    let slash = BucketConfig::from_path("s3://C:accesspoint/name/key").unwrap();
    let colon = BucketConfig::from_path("s3://C:accesspoint:name/key").unwrap();
    assert_eq!(slash, colon);
    assert_eq!(slash.name, "C:accesspoint:name");
    assert_eq!(slash.key, "key/");
    assert_eq!(slash.full_key, Some("key/".to_string()));
}

#[test]
fn empty_path_rejected() {
    assert_eq!(BucketConfig::from_path(""), Err(S3PathError::InvalidPath));
    assert_eq!(BucketConfig::from_path("s3://"), Err(S3PathError::InvalidPath));
    assert_eq!(BucketConfig::from_path("/"), Err(S3PathError::InvalidPath));
    assert_eq!(BucketConfig::from_path("///"), Err(S3PathError::InvalidPath));
}

#[test]
fn repeated_separators_are_collapsed() {
    let b = BucketConfig::from_path("s3://C//a///b").unwrap();
    assert_eq!(b.name, "C");
    assert_eq!(b.key, "a/");
    assert_eq!(b.full_key, Some("a/b/".to_string()));
}

#[test]
fn split_path_returns_the_triple() {
    let (name, key, full_key) = BucketConfig::split_path("s3://bucket/key").unwrap();
    assert_eq!(name, "bucket");
    assert_eq!(key, "key/");
    assert_eq!(full_key, Some("key/".to_string()));
}

#[test]
fn trailing_separator_is_dropped_by_split() {
    let b = BucketConfig::from_path("s3://bucket/dir/").unwrap();
    assert_eq!(b.name, "bucket");
    assert_eq!(b.key, "dir/");
    assert_eq!(b.full_key, Some("dir/".to_string()));
}
