//! The filesystem-style operations and the listing accumulator.

use s3_fs::errors::S3PathError;
use s3_fs::file::ObjectRecord;
use s3_fs::fs;
use s3_fs::object::S3ObjectType;
use s3_fs::s3::{ancestors, clean_path, validate_path};
use s3_fs::services::{GetResponse, ListAction, Listing, ListingPage};

fn rec(key: Option<&str>, size: Option<i64>) -> ObjectRecord {
    ObjectRecord { key: key.map(|s| s.to_string()), size, last_modified: None }
}

fn full_response() -> GetResponse {
    GetResponse {
        content_type: Some("text/plain".to_string()),
        content_length: Some(42),
        e_tag: Some("etag-1".to_string()),
        last_modified: Some("2021-01-01T00:00:00Z".to_string()),
        metadata: None,
    }
}

#[test]
fn create_dir_plans_parent_probe_and_write() {
    let plan = fs::create_dir("s3://bucket/a/b/").unwrap();
    assert_eq!(plan.parent.name, "bucket");
    assert_eq!(plan.parent.key, "a/");
    assert_eq!(plan.target.name, "bucket");
    assert_eq!(plan.target.key, "a/");
    assert_eq!(plan.target.full_key, Some("a/b/".to_string()));
    assert_eq!(plan.created, "a/b/");
}

#[test]
fn create_dir_rejects_a_path_without_a_parent() {
    assert_eq!(fs::create_dir("x"), Err(S3PathError::InvalidPath));
    assert_eq!(fs::create_dir("foo/some_dir"), Err(S3PathError::InvalidPath));
}

#[test]
fn create_dir_all_skips_the_parent_probe() {
    let (target, created) = fs::create_dir_all("/bucket/dir/").unwrap();
    assert_eq!(target.name, "bucket");
    assert_eq!(target.key, "dir/");
    assert_eq!(created, "/bucket/dir/");
}

#[test]
fn create_dir_all_rejects_a_relative_path() {
    assert_eq!(fs::create_dir_all("rel/only"), Err(S3PathError::InvalidPath));
}

#[test]
fn metadata_synthesis_reads_the_key_for_the_kind() {
    let m = fs::metadata("a/b.txt", full_response()).unwrap();
    assert_eq!(m.content_type, "text/plain");
    assert_eq!(m.content_length, Some(42));
    assert_eq!(m.e_tag, "etag-1");
    assert_eq!(m.last_modified, "2021-01-01T00:00:00Z");
    assert_eq!(m.object_type, S3ObjectType::File);

    let d = fs::metadata("a/b", full_response()).unwrap();
    assert_eq!(d.object_type, S3ObjectType::Directory);
}

#[test]
fn metadata_without_content_type_is_unknown() {
    let mut r = full_response();
    r.content_type = None;
    assert!(matches!(fs::metadata("a/b", r), Err(S3PathError::Unknown)));
}

#[test]
fn read_hands_the_body_through() {
    assert_eq!(fs::read(Ok(Some(vec![1, 2, 3]))), Ok(vec![1, 2, 3]));
    assert_eq!(fs::read(Ok(None)), Err(S3PathError::Unknown));
    assert_eq!(
        fs::read(Err(S3PathError::ExpiredToken)),
        Err(S3PathError::ExpiredToken)
    );
}

#[test]
fn read_dir_propagates_an_existence_error() {
    let r = fs::read_dir("/b/dir", Err(S3PathError::ObjectDoesNotExist), true, vec![]);
    assert_eq!(r, Err(S3PathError::ObjectDoesNotExist));
}

#[test]
fn read_dir_refuses_a_non_directory() {
    let r = fs::read_dir("/b/dir", Ok(true), false, vec![]);
    assert_eq!(r, Err(S3PathError::NotADirectory));
}

#[test]
fn read_dir_keeps_the_listing_minus_self_references() {
    let objects = vec![
        rec(None, Some(1)),
        rec(Some("dir"), Some(2)),
        rec(Some("dir/f.txt"), Some(3)),
    ];
    let kept = fs::read_dir("/b/dir", Ok(true), true, objects).unwrap();
    assert_eq!(kept, vec![rec(Some("dir/f.txt"), Some(3))]);
}

#[test]
fn read_dir_rejects_a_path_without_segments() {
    let r = fs::read_dir("///", Ok(true), true, vec![]);
    assert_eq!(r, Err(S3PathError::InvalidPath));
}

#[test]
fn clean_path_drops_scheme_and_bucket() {
    assert_eq!(clean_path("s3://bucket/k/l"), Ok("k/l".to_string()));
    assert_eq!(clean_path("s3://bucket"), Ok("bucket".to_string()));
    assert_eq!(clean_path("/a/b"), Ok("/a/b".to_string()));
    assert_eq!(clean_path("rel/path"), Err(S3PathError::InvalidPath));
}

#[test]
fn ancestors_walk_up_to_the_root() {
    assert_eq!(ancestors("/a/b/c"), vec!["/a/b/c", "/a/b", "/a"]);
    assert_eq!(ancestors("a/b"), vec!["a/b", "a"]);
    assert_eq!(ancestors("/x"), vec!["/x"]);
    assert_eq!(ancestors(""), Vec::<String>::new());
    assert_eq!(ancestors("a//b/"), vec!["a/b", "a"]);
}

#[test]
fn validate_path_accepts_scheme_or_absolute() {
    assert!(validate_path("s3://bucket/k"));
    assert!(validate_path("/a/b"));
    assert!(!validate_path("rel/path"));
    assert!(!validate_path(""));
}

#[test]
fn listing_accumulates_pages_and_stops_on_a_missing_token() {
    let mut l = Listing::new();
    let first = ListingPage {
        contents: Some(vec![rec(Some("root/dir/a.txt"), Some(1))]),
        prefix: Some("root/dir/".to_string()),
        common_prefixes: Some(vec!["root/dir/sub/".to_string()]),
        next_continuation_token: Some("token-1".to_string()),
    };
    assert_eq!(l.apply_page(first), ListAction::Continue("token-1".to_string()));
    assert_eq!(l.base_prefix, Some("root/dir".to_string()));

    let second = ListingPage {
        contents: Some(vec![rec(Some("root/dir/b.txt"), Some(2))]),
        prefix: Some("other/".to_string()),
        common_prefixes: None,
        next_continuation_token: None,
    };
    assert_eq!(l.apply_page(second), ListAction::Done);
    assert_eq!(l.base_prefix, Some("root/dir".to_string()));
    assert_eq!(
        l.objects,
        vec![rec(Some("root/dir/a.txt"), Some(1)), rec(Some("root/dir/b.txt"), Some(2))]
    );
    assert_eq!(l.common_prefixes, vec!["root/dir/sub/".to_string()]);
}

#[test]
fn listing_page_without_a_prefix_leaves_the_base_unset() {
    let mut l = Listing::new();
    let page = ListingPage {
        contents: None,
        prefix: None,
        common_prefixes: None,
        next_continuation_token: None,
    };
    assert_eq!(l.apply_page(page), ListAction::Done);
    assert_eq!(l.base_prefix, None);
    assert!(l.objects.is_empty());
    assert!(l.common_prefixes.is_empty());
}
