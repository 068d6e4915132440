//! The directory tree: construction, dedup, leaf lookup and idempotence.

use s3_fs::file::{File, FileMetadata, ObjectRecord, S3ObjectType};

fn rec(key: &str, size: Option<i64>, last_modified: Option<&str>) -> ObjectRecord {
    ObjectRecord {
        key: Some(key.to_string()),
        size,
        last_modified: last_modified.map(|s| s.to_string()),
    }
}

fn plain_node(path: &str, name: &str, parent: Option<&str>) -> File {
    File {
        path: path.to_string(),
        name: name.to_string(),
        parent: parent.map(|s| s.to_string()),
        children: Vec::new(),
        prefix: String::new(),
        metadata: FileMetadata {
            last_modified: None,
            size: None,
            extension: None,
            file_type: S3ObjectType::Directory,
        },
    }
}

fn count_nodes_with_id(t: &File, id: &str) -> usize {
    let mut n = if t.path == id { 1 } else { 0 };
    for c in t.children.iter() {
        n += count_nodes_with_id(c, id);
    }
    n
}

fn same_tree(a: &File, b: &File) -> bool {
    a.path == b.path && a.name == b.name && a.parent == b.parent && a.prefix == b.prefix
        && a.metadata == b.metadata && a.children.len() == b.children.len()
        && a.children.iter().zip(b.children.iter()).all(|(x, y)| same_tree(x, y))
}

#[test]
fn leaf_of_prefix_is_directory_and_entry_is_file() {
    let t = File::new(
        "b",
        vec![rec("a/b/c.txt", Some(3), Some("2021-01-01T00:00:00Z"))],
        "a/b/".to_string(),
        vec![],
    );
    let leaf = t.leaf_child().expect("the base prefix has a node");
    assert_eq!(leaf.path, "a/b");
    assert_eq!(leaf.metadata.file_type, S3ObjectType::Directory);
    assert!(t.is_dir());

    let file_node = t.query("a/b/c.txt").expect("the entry has a node");
    assert_eq!(file_node.metadata.file_type, S3ObjectType::File);
    assert_eq!(file_node.metadata.extension, Some("txt".to_string()));
    assert_eq!(file_node.metadata.size, Some(3));
    assert_eq!(
        file_node.metadata.last_modified,
        Some("2021-01-01T00:00:00Z".to_string())
    );
}

#[test]
fn listing_scenario_builds_the_expected_tree() {
    let t = File::new(
        "dir",
        vec![
            rec("root/dir/file1.txt", Some(10), None),
            rec("root/dir/sub/file2.png", Some(20), None),
        ],
        "root/dir/".to_string(),
        vec!["root/dir/sub/".to_string()],
    );
    let leaf = t.leaf_child().expect("the base prefix has a node");
    assert_eq!(leaf.path, "root/dir");
    assert_eq!(leaf.metadata.file_type, S3ObjectType::Directory);
    assert!(t.is_dir());

    let png = t.query("root/dir/sub/file2.png").expect("the png has a node");
    assert_eq!(png.metadata.file_type, S3ObjectType::File);
    assert_eq!(png.metadata.extension, Some("png".to_string()));
    assert_eq!(png.metadata.size, Some(20));
}

#[test]
fn inserting_the_same_id_twice_keeps_one_node() {
    let mut root = plain_node("r", "r", None);
    let first = plain_node("r/x", "x", Some("r"));
    let mut second = plain_node("r/x", "x", Some("r"));
    second.metadata.size = Some(99);
    root.add_child(first);
    root.add_child(second);
    assert_eq!(root.children.len(), 1);
    assert_eq!(count_nodes_with_id(&root, "r/x"), 1);
    assert_eq!(root.children[0].metadata.size, None);
}

#[test]
fn add_children_inserts_in_order_with_dedup() {
    let mut root = plain_node("r", "r", None);
    let a = plain_node("r/a", "a", Some("r"));
    let b = plain_node("r/b", "b", Some("r"));
    let a_again = plain_node("r/a", "a", Some("r"));
    root.add_children(vec![a, b, a_again]);
    assert_eq!(root.children.len(), 2);
    assert_eq!(root.children[0].path, "r/a");
    assert_eq!(root.children[1].path, "r/b");
}

#[test]
fn building_twice_yields_identical_trees() {
    let make = || {
        File::new(
            "dir",
            vec![
                rec("root/dir/file1.txt", Some(10), Some("a")),
                rec("root/dir/sub/file2.png", Some(20), Some("b")),
            ],
            "root/dir/".to_string(),
            vec!["root/dir/sub/".to_string()],
        )
    };
    let t1 = make();
    let t2 = make();
    assert!(same_tree(&t1, &t2));
}

#[test]
fn tie_between_candidates_goes_to_the_later_one() {
    // "a/n/b" and "a/b" compare equal once the origin name "n" is dropped;
    // the later candidate supplies the raw segments.
    let t = File::new(
        "n",
        vec![rec("a/b", None, None)],
        "a/n/b".to_string(),
        vec![],
    );
    assert!(t.query("a/b").is_some());
    assert!(t.query("a/n").is_none());
    assert!(t.query("a/n/b").is_none());
}

#[test]
fn empty_listing_yields_a_lone_origin_root() {
    let t = File::new("x", vec![], String::new(), vec![]);
    assert_eq!(t.path, "x");
    assert_eq!(t.name, "x");
    assert!(t.children.is_empty());
    assert!(t.leaf_child().is_none());
}

#[test]
fn records_naming_the_origin_are_dropped() {
    // The only record is the origin itself, so only the base prefix counts.
    let t = File::new("b", vec![rec("b", Some(7), None)], "a/b/".to_string(), vec![]);
    assert!(t.query("b").is_none());
    let leaf = t.leaf_child().expect("base prefix still yields a node");
    assert_eq!(leaf.path, "a/b");
    assert_eq!(leaf.metadata.size, None);
}

#[test]
fn extension_is_what_follows_the_last_dot() {
    let t = File::new(
        "d",
        vec![rec("d/x.tar.gz", Some(1), None)],
        "d/".to_string(),
        vec![],
    );
    let node = t.query("d/x.tar.gz").expect("the archive has a node");
    assert_eq!(node.metadata.extension, Some("gz".to_string()));
    assert_eq!(node.metadata.file_type, S3ObjectType::File);
}

#[test]
fn first_matching_record_donates_the_metadata() {
    // Both keys end in "s"; the deepest path comes from the later key, but
    // the first matching record donates size and timestamp.
    let t = File::new(
        "n",
        vec![rec("p/s", Some(1), Some("first")), rec("q/s", Some(2), Some("second"))],
        String::new(),
        vec![],
    );
    let node = t.query("q/s").expect("the deepest path ends at q/s");
    assert_eq!(node.metadata.size, Some(1));
    assert_eq!(node.metadata.last_modified, Some("first".to_string()));
}

#[test]
fn built_nodes_link_parent_by_id() {
    let t = File::new(
        "dir",
        vec![rec("root/dir/sub/file2.png", Some(20), None)],
        "root/dir/".to_string(),
        vec![],
    );
    // walk the chain: every child records its parent's id and carries
    // parent id + "/" + name as its own id
    let mut node = &t;
    assert_eq!(node.parent, None);
    while let Some(child) = node.children.first() {
        assert_eq!(child.parent, Some(node.path.clone()));
        assert_eq!(child.path, format!("{}/{}", node.path, child.name));
        node = child;
    }
    assert_eq!(node.path, "root/dir/sub/file2.png");
}

#[test]
fn generate_file_id_joins_parent_and_name() {
    assert_eq!(File::generate_file_id("c", &Some("a/b".to_string())), "a/b/c");
    assert_eq!(File::generate_file_id("root", &None), "root");
}

#[test]
fn name_without_slash_removes_all_separators() {
    assert_eq!(File::name_without_slash("dir/"), "dir");
    assert_eq!(File::name_without_slash("/a/b/"), "ab");
    assert_eq!(File::name_without_slash("plain"), "plain");
}

#[test]
fn metadata_of_the_leaf_is_returned() {
    let t = File::new(
        "b",
        vec![rec("a/b/c.txt", Some(3), None)],
        "a/b/c.txt".to_string(),
        vec![],
    );
    // here the recorded prefix points at the file itself
    let m = t._metadata();
    assert_eq!(m.file_type, S3ObjectType::File);
    assert_eq!(m.extension, Some("txt".to_string()));
    assert_eq!(m.size, Some(3));
}
