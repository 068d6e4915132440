//! The directory tree built from a flat object listing.

use vstd::prelude::*;

use crate::text::{
    after_last, after_last_char, contains_char, ends_with_str, join_on, join_upto,
    nonempty_pieces, remove_char, retain_nonempty, segs_less, segs_lt, split_char, split_on,
    str_eq, strip_all, strip_trailing, strip_trailing_char,
};

verus! {

/// Whether a tree node stands for an object ("file") or a prefix ("directory").
#[derive(Clone, Copy, Debug, PartialEq, Eq, Structural)]
pub enum S3ObjectType {
    File,
    Directory,
}

/// Metadata attached to one tree node.
#[derive(Debug, PartialEq)]
pub struct FileMetadata {
    pub last_modified: Option<String>,
    pub size: Option<i64>,
    pub extension: Option<String>,
    pub file_type: S3ObjectType,
}

/// The mathematical value of a [`FileMetadata`].
pub ghost struct MetadataView {
    pub last_modified: Option<Seq<char>>,
    pub size: Option<i64>,
    pub extension: Option<Seq<char>>,
    pub file_type: S3ObjectType,
}

impl View for FileMetadata {
    type V = MetadataView;

    open spec fn view(&self) -> MetadataView {
        MetadataView {
            last_modified: self.last_modified.deep_view(),
            size: self.size,
            extension: self.extension.deep_view(),
            file_type: self.file_type,
        }
    }
}

/// One record of an object listing: a key, a size and a timestamp, any of
/// which the backend may omit.
#[derive(Debug, PartialEq)]
pub struct ObjectRecord {
    pub key: Option<String>,
    pub size: Option<i64>,
    pub last_modified: Option<String>,
}

/// The mathematical value of an [`ObjectRecord`].
pub ghost struct RecordView {
    pub key: Option<Seq<char>>,
    pub size: Option<i64>,
    pub last_modified: Option<Seq<char>>,
}

impl View for ObjectRecord {
    type V = RecordView;

    open spec fn view(&self) -> RecordView {
        RecordView {
            key: self.key.deep_view(),
            size: self.size,
            last_modified: self.last_modified.deep_view(),
        }
    }
}

impl DeepView for ObjectRecord {
    type V = RecordView;

    open spec fn deep_view(&self) -> RecordView {
        self.view()
    }
}

/// The records that carry a key and whose key is not `name` itself:
/// self-references are dropped before a tree is built.
pub open spec fn valid_records(rs: Seq<RecordView>, name: Seq<char>) -> Seq<RecordView>
    decreases rs.len(),
{
    if rs.len() == 0 {
        Seq::empty()
    } else {
        let rest = valid_records(rs.drop_last(), name);
        match rs.last().key {
            Some(k) => if k != name {
                rest.push(rs.last())
            } else {
                rest
            },
            None => rest,
        }
    }
}

/// The records whose key ends with the segment name `seg`.
pub open spec fn matching_records(rs: Seq<RecordView>, seg: Seq<char>) -> Seq<RecordView>
    decreases rs.len(),
{
    if rs.len() == 0 {
        Seq::empty()
    } else {
        let rest = matching_records(rs.drop_last(), seg);
        match rs.last().key {
            Some(k) => if seg.is_suffix_of(k) {
                rest.push(rs.last())
            } else {
                rest
            },
            None => rest,
        }
    }
}

/// The keys of the records, in order; a missing key reads as empty.
pub open spec fn record_keys(rs: Seq<RecordView>) -> Seq<Seq<char>>
    decreases rs.len(),
{
    if rs.len() == 0 {
        Seq::empty()
    } else {
        record_keys(rs.drop_last()).push(
            match rs.last().key {
                Some(k) => k,
                None => Seq::empty(),
            },
        )
    }
}

/// The metadata synthesized for a segment called `name` from the records
/// matching it: a dotted name is a file and its extension is what follows
/// the last dot; the first matching record donates size and timestamp.
pub open spec fn spec_metadata(name: Seq<char>, ms: Seq<RecordView>) -> MetadataView {
    let has_dot = name.contains('.');
    MetadataView {
        last_modified: if ms.len() > 0 {
            ms[0].last_modified
        } else {
            None
        },
        size: if ms.len() > 0 {
            ms[0].size
        } else {
            None
        },
        extension: if has_dot {
            Some(after_last(name, '.'))
        } else {
            None
        },
        file_type: if has_dot {
            S3ObjectType::File
        } else {
            S3ObjectType::Directory
        },
    }
}

impl FileMetadata {
    /// Synthesize the metadata of a node called `name` from the records
    /// whose keys match it.
    fn new(name: &str, matches: &Vec<ObjectRecord>) -> (m: FileMetadata)
        ensures
            m@ == spec_metadata(name@, matches.deep_view()),
    {
        let mut m = FileMetadata {
            last_modified: None,
            size: None,
            extension: None,
            file_type: S3ObjectType::Directory,
        };
        if contains_char(name, '.') {
            let ext = after_last_char(name, '.');
            m.extension = Some(ext.to_owned());
            m.file_type = S3ObjectType::File;
        }
        if matches.len() > 0 {
            let first = &matches[0];
            m.size = first.size;
            m.last_modified = match &first.last_modified {
                Some(s) => Some(s.clone()),
                None => None,
            };
        }
        m
    }
}

/// One node of the directory tree; children are owned, the parent is
/// referenced by its path string rather than by a pointer.
#[derive(Debug)]
pub struct File {
    pub path: String,
    pub name: String,
    pub parent: Option<String>,
    pub children: Vec<File>,
    pub prefix: String,
    pub metadata: FileMetadata,
}

/// The mathematical value of a [`File`] tree.
pub ghost struct FileView {
    pub path: Seq<char>,
    pub name: Seq<char>,
    pub parent: Option<Seq<char>>,
    pub children: Seq<FileView>,
    pub prefix: Seq<char>,
    pub metadata: MetadataView,
}

/// The mathematical value of a [`File`] tree.
pub open spec fn file_view(t: File) -> FileView
    decreases t, 0nat,
{
    FileView {
        path: t.path@,
        name: t.name@,
        parent: t.parent.deep_view(),
        children: file_views(t.children@, t.children@.len() as nat),
        prefix: t.prefix@,
        metadata: t.metadata@,
    }
}

/// The mathematical values of the first `n` trees of a forest.
pub open spec fn file_views(ts: Seq<File>, n: nat) -> Seq<FileView>
    decreases ts, n,
{
    if n == 0 || n > ts.len() {
        Seq::empty()
    } else {
        file_views(ts, (n - 1) as nat).push(file_view(ts[n - 1]))
    }
}

impl View for File {
    type V = FileView;

    open spec fn view(&self) -> FileView {
        file_view(*self)
    }
}

/// The mathematical value of a whole forest.
pub open spec fn forest_view(ts: Seq<File>) -> Seq<FileView> {
    file_views(ts, ts.len() as nat)
}

pub proof fn lemma_file_views_props(ts: Seq<File>, n: nat)
    requires
        n <= ts.len(),
    ensures
        file_views(ts, n).len() == n,
        forall|i: int| 0 <= i < n ==> #[trigger] file_views(ts, n)[i] == file_view(ts[i]),
    decreases n,
{
    if n > 0 {
        lemma_file_views_props(ts, (n - 1) as nat);
    }
}

/// The children of a tree's value are the values of the tree's children.
pub proof fn lemma_children_views(t: File)
    ensures
        t@.children.len() == t.children@.len(),
        forall|i: int|
            0 <= i < t.children@.len() ==> #[trigger] t@.children[i] == t.children@[i]@,
{
    lemma_file_views_props(t.children@, t.children@.len() as nat);
}

/// Does some node of the tree carry this id?
pub open spec fn spec_contains_id(t: FileView, id: Seq<char>) -> bool {
    spec_query(t, id) is Some
}

/// Exact-id depth-first search: the first node of the tree that carries `id`.
pub open spec fn spec_query(t: FileView, id: Seq<char>) -> Option<FileView>
    decreases t, 0nat,
{
    if t.path == id {
        Some(t)
    } else {
        spec_query_from(t.children, id, 0)
    }
}

/// Depth-first search through the forest `cs`, starting at tree `i`.
pub open spec fn spec_query_from(cs: Seq<FileView>, id: Seq<char>, i: nat) -> Option<FileView>
    decreases cs, cs.len() - i,
{
    if i >= cs.len() {
        None
    } else {
        match spec_query(cs[i as int], id) {
            Some(f) => Some(f),
            None => spec_query_from(cs, id, (i + 1) as nat),
        }
    }
}

/// The id of a node: its parent's id, a separator and its own name; a root
/// carries its name alone.
pub open spec fn spec_file_id(name: Seq<char>, parent: Option<Seq<char>>) -> Seq<char> {
    match parent {
        Some(p) => p + seq!['/'] + name,
        None => name,
    }
}

/// A childless node for the segment `name`, with metadata synthesized from
/// the records that match it.
pub open spec fn spec_build_node(
    prefix: Seq<char>,
    name: Seq<char>,
    parent: Option<Seq<char>>,
    valid: Seq<RecordView>,
) -> FileView {
    FileView {
        path: spec_file_id(name, parent),
        name: name,
        parent: parent,
        children: Seq::empty(),
        prefix: prefix,
        metadata: spec_metadata(name, matching_records(valid, name)),
    }
}

/// The pieces of a candidate path that take part in the depth comparison:
/// nonempty and different from the stripped origin name.
pub open spec fn comparable_pieces(parts: Seq<Seq<char>>, stripped: Seq<char>) -> Seq<Seq<char>>
    decreases parts.len(),
{
    if parts.len() == 0 {
        Seq::empty()
    } else {
        let rest = comparable_pieces(parts.drop_last(), stripped);
        if parts.last().len() > 0 && parts.last() != stripped {
            rest.push(parts.last())
        } else {
            rest
        }
    }
}

/// The comparable segments of one candidate path.
pub open spec fn comparable_segments(cand: Seq<char>, stripped: Seq<char>) -> Seq<Seq<char>> {
    comparable_pieces(split_on(cand, '/'), stripped)
}

/// Every candidate for the deepest path: the reported common prefixes, the
/// listing's base prefix, and the keys of the valid records, in that order.
pub open spec fn spec_candidates(
    prefix: Seq<char>,
    cps: Seq<Seq<char>>,
    valid: Seq<RecordView>,
) -> Seq<Seq<char>> {
    cps.push(prefix) + record_keys(valid)
}

/// The index, among the first `n` candidates, of the one whose comparable
/// segments are lexicographically greatest; a tie goes to the later one.
pub open spec fn deepest_upto(cands: Seq<Seq<char>>, stripped: Seq<char>, n: int) -> int
    decreases n,
{
    if n <= 1 {
        0
    } else {
        let best = deepest_upto(cands, stripped, n - 1);
        if segs_lt(
            comparable_segments(cands[n - 1], stripped),
            comparable_segments(cands[best], stripped),
        ) {
            best
        } else {
            n - 1
        }
    }
}

/// The nonempty raw segments of the deepest candidate path.
pub open spec fn spec_longest_path(cands: Seq<Seq<char>>, stripped: Seq<char>) -> Seq<Seq<char>>
    recommends
        cands.len() >= 1,
{
    nonempty_pieces(split_on(cands[deepest_upto(cands, stripped, cands.len() as int)], '/'))
}

/// The parent id of the `j`-th node of a chain: the join of the segments
/// before it, or nothing for the chain's head.
pub open spec fn chain_parent(segs: Seq<Seq<char>>, j: int) -> Option<Seq<char>> {
    if j == 0 {
        None
    } else {
        Some(join_on(segs.take(j), '/'))
    }
}

/// The id of the `j`-th chain node is the join of the segments up to it.
pub proof fn lemma_chain_ids(segs: Seq<Seq<char>>, j: int)
    requires
        0 <= j < segs.len(),
    ensures
        spec_file_id(segs[j], chain_parent(segs, j)) == join_on(segs.take(j + 1), '/'),
{
    if j == 0 {
        assert(segs.take(1).len() == 1);
        assert(segs.take(1)[0] == segs[0]);
    } else {
        assert(segs.take(j + 1) =~= segs.take(j).push(segs[j]));
        crate::text::lemma_join_push(segs.take(j), segs[j], '/');
    }
}

/// The chain of nodes for `segs`, each the sole child of the one before it.
pub open spec fn spec_chain(
    prefix: Seq<char>,
    segs: Seq<Seq<char>>,
    parent: Option<Seq<char>>,
    valid: Seq<RecordView>,
) -> FileView
    recommends
        segs.len() >= 1,
    decreases segs.len(),
{
    let node = spec_build_node(prefix, segs[0], parent, valid);
    if segs.len() <= 1 {
        node
    } else {
        FileView {
            children: seq![spec_chain(prefix, segs.drop_first(), Some(node.path), valid)],
            ..node
        }
    }
}

/// The tree built from a listing: the deepest candidate path, materialized
/// as a chain of nodes keyed by their full paths; when no candidate has a
/// segment, a lone root for the origin name.
pub open spec fn spec_new(
    name: Seq<char>,
    objects: Seq<RecordView>,
    prefix: Seq<char>,
    cps: Seq<Seq<char>>,
) -> FileView {
    let stripped = strip_all(name, '/');
    let valid = valid_records(objects, name);
    let cands = spec_candidates(prefix, cps, valid);
    let raw = spec_longest_path(cands, stripped);
    if raw.len() == 0 {
        spec_build_node(prefix, stripped, None, valid)
    } else {
        spec_chain(prefix, raw, None, valid)
    }
}

/// A field-for-field copy of one record.
fn clone_record(r: &ObjectRecord) -> (c: ObjectRecord)
    ensures
        c@ == r@,
{
    ObjectRecord {
        key: match &r.key {
            Some(k) => Some(k.clone()),
            None => None,
        },
        size: r.size,
        last_modified: match &r.last_modified {
            Some(m) => Some(m.clone()),
            None => None,
        },
    }
}

/// The designated leaf of a tree: the node whose id equals the tree's
/// recorded origin prefix, once a trailing separator is dropped.
pub open spec fn spec_leaf(t: FileView) -> Option<FileView> {
    spec_query(t, strip_trailing(t.prefix, '/'))
}

/// How many nodes of the tree carry this id.
pub open spec fn spec_count_id(t: FileView, id: Seq<char>) -> nat
    decreases t, 0nat,
{
    (if t.path == id {
        1nat
    } else {
        0nat
    }) + spec_count_from(t.children, id, 0)
}

/// How many nodes of the forest, from tree `i` on, carry this id.
pub open spec fn spec_count_from(cs: Seq<FileView>, id: Seq<char>, i: nat) -> nat
    decreases cs, cs.len() - i,
{
    if i >= cs.len() {
        0nat
    } else {
        spec_count_id(cs[i as int], id) + spec_count_from(cs, id, (i + 1) as nat)
    }
}

/// The search finds a node exactly when the count is positive.
pub proof fn lemma_count_query(t: FileView, id: Seq<char>)
    ensures
        spec_query(t, id) is Some <==> spec_count_id(t, id) > 0,
    decreases t, 0nat,
{
    lemma_count_query_from(t.children, id, 0);
}

proof fn lemma_count_query_from(cs: Seq<FileView>, id: Seq<char>, i: nat)
    ensures
        spec_query_from(cs, id, i) is Some <==> spec_count_from(cs, id, i) > 0,
    decreases cs, cs.len() - i,
{
    if i < cs.len() {
        lemma_count_query(cs[i as int], id);
        lemma_count_query_from(cs, id, (i + 1) as nat);
    }
}

/// Appending one more tree to a node's children adds that tree's count.
pub proof fn lemma_count_push(t: FileView, c: FileView, id: Seq<char>)
    ensures
        spec_count_id(FileView { children: t.children.push(c), ..t }, id) == spec_count_id(t, id)
            + spec_count_id(c, id),
{
    lemma_count_from_push(t.children, c, id, 0);
}

proof fn lemma_count_from_push(cs: Seq<FileView>, c: FileView, id: Seq<char>, i: nat)
    requires
        i <= cs.len(),
    ensures
        spec_count_from(cs.push(c), id, i) == spec_count_from(cs, id, i) + spec_count_id(c, id),
    decreases cs.len() - i,
{
    if i < cs.len() {
        assert(cs.push(c)[i as int] == cs[i as int]);
        lemma_count_from_push(cs, c, id, (i + 1) as nat);
    } else {
        assert(cs.push(c)[i as int] == c);
        assert(spec_count_from(cs.push(c), id, (i + 1) as nat) == 0);
        assert(spec_count_from(cs, id, i) == 0);
    }
}

/// Dedup by id: inserting two subtrees whose roots carry the same id, into
/// a tree that does not carry it yet, leaves exactly one node with that id.
/// The second insertion is a silent no-op, never an error.
pub proof fn lemma_add_child_dedup(t: FileView, c1: FileView, c2: FileView, id: Seq<char>)
    requires
        c1.path == id,
        c2.path == id,
        spec_count_id(t, id) == 0,
        spec_count_id(c1, id) == 1,
    ensures
        spec_add_child(spec_add_child(t, c1), c2) == spec_add_child(t, c1),
        spec_count_id(spec_add_child(spec_add_child(t, c1), c2), id) == 1,
{
    lemma_count_query(t, id);
    assert(!spec_contains_id(t, id));
    let t1 = spec_add_child(t, c1);
    lemma_count_push(t, c1, id);
    assert(spec_count_id(t1, id) == 1);
    lemma_count_query(t1, id);
    assert(spec_contains_id(t1, id));
    assert(spec_add_child(t1, c2) == t1);
}

/// Structural soundness of a tree: a node is a file exactly when its
/// display name is dotted, and every child records its parent's id and
/// carries that id, a separator and its own name as its id.
pub open spec fn wf_tree(t: FileView) -> bool
    decreases t, 0nat,
{
    &&& (t.metadata.file_type is File <==> t.name.contains('.'))
    &&& wf_children(t.children, t.path, 0)
}

/// Structural soundness of the children from position `i` on.
pub open spec fn wf_children(cs: Seq<FileView>, parent: Seq<char>, i: nat) -> bool
    decreases cs, cs.len() - i,
{
    i >= cs.len() || {
        &&& cs[i as int].parent == Some(parent)
        &&& cs[i as int].path == parent + seq!['/'] + cs[i as int].name
        &&& wf_tree(cs[i as int])
        &&& wf_children(cs, parent, (i + 1) as nat)
    }
}

proof fn lemma_chain_wf(
    prefix: Seq<char>,
    segs: Seq<Seq<char>>,
    parent: Option<Seq<char>>,
    valid: Seq<RecordView>,
)
    requires
        segs.len() >= 1,
    ensures
        wf_tree(spec_chain(prefix, segs, parent, valid)),
        spec_chain(prefix, segs, parent, valid).parent == parent,
        spec_chain(prefix, segs, parent, valid).path == spec_file_id(segs[0], parent),
        spec_chain(prefix, segs, parent, valid).name == segs[0],
    decreases segs.len(),
{
    let node = spec_chain(prefix, segs, parent, valid);
    if segs.len() > 1 {
        let head = spec_build_node(prefix, segs[0], parent, valid);
        lemma_chain_wf(prefix, segs.drop_first(), Some(head.path), valid);
        let child = spec_chain(prefix, segs.drop_first(), Some(head.path), valid);
        assert(child.path == head.path + seq!['/'] + child.name);
        assert(node.children == seq![child]);
        assert(node.children[0] == child);
        assert(wf_children(node.children, node.path, 1));
        assert(wf_children(node.children, node.path, 0));
    } else {
        assert(wf_children(node.children, node.path, 0));
    }
}

/// Every tree the builder returns is structurally sound: files are the
/// dotted names, and each node's id is its parent's id, a separator and
/// its own name.
pub proof fn lemma_new_wf(
    name: Seq<char>,
    objects: Seq<RecordView>,
    prefix: Seq<char>,
    cps: Seq<Seq<char>>,
)
    ensures
        wf_tree(spec_new(name, objects, prefix, cps)),
{
    let stripped = strip_all(name, '/');
    let valid = valid_records(objects, name);
    let cands = spec_candidates(prefix, cps, valid);
    let raw = spec_longest_path(cands, stripped);
    if raw.len() == 0 {
        let t = spec_new(name, objects, prefix, cps);
        assert(wf_children(t.children, t.path, 0));
    } else {
        lemma_chain_wf(prefix, raw, None, valid);
    }
}

proof fn lemma_chain_ids_longer(
    prefix: Seq<char>,
    segs: Seq<Seq<char>>,
    p: Seq<char>,
    valid: Seq<RecordView>,
    id: Seq<char>,
)
    requires
        segs.len() >= 1,
        id.len() <= p.len(),
    ensures
        spec_count_id(spec_chain(prefix, segs, Some(p), valid), id) == 0,
    decreases segs.len(),
{
    let node = spec_chain(prefix, segs, Some(p), valid);
    assert(node.path == p + seq!['/'] + segs[0]);
    assert(node.path.len() > id.len());
    if segs.len() > 1 {
        let child = spec_chain(prefix, segs.drop_first(), Some(node.path), valid);
        assert(node.children == seq![child]);
        lemma_chain_ids_longer(prefix, segs.drop_first(), node.path, valid, id);
        assert(node.children[0] == child);
        assert(spec_count_from(node.children, id, 1) == 0);
        assert(spec_count_from(node.children, id, 0) == spec_count_id(child, id)
            + spec_count_from(node.children, id, 1));
    } else {
        assert(spec_count_from(node.children, id, 0) == 0);
    }
}

proof fn lemma_chain_unique(
    prefix: Seq<char>,
    segs: Seq<Seq<char>>,
    parent: Option<Seq<char>>,
    valid: Seq<RecordView>,
    id: Seq<char>,
)
    requires
        segs.len() >= 1,
    ensures
        spec_count_id(spec_chain(prefix, segs, parent, valid), id) <= 1,
    decreases segs.len(),
{
    let node = spec_chain(prefix, segs, parent, valid);
    if segs.len() > 1 {
        let head = spec_build_node(prefix, segs[0], parent, valid);
        let child = spec_chain(prefix, segs.drop_first(), Some(head.path), valid);
        assert(node.children == seq![child]);
        assert(node.children[0] == child);
        assert(spec_count_from(node.children, id, 1) == 0);
        assert(spec_count_from(node.children, id, 0) == spec_count_id(child, id)
            + spec_count_from(node.children, id, 1));
        if node.path == id {
            lemma_chain_ids_longer(prefix, segs.drop_first(), head.path, valid, id);
        } else {
            lemma_chain_unique(prefix, segs.drop_first(), Some(head.path), valid, id);
        }
    } else {
        assert(spec_count_from(node.children, id, 0) == 0);
    }
}

/// In a tree the builder returns, no id names two nodes: at most one node
/// carries any given id.
pub proof fn lemma_new_ids_unique(
    name: Seq<char>,
    objects: Seq<RecordView>,
    prefix: Seq<char>,
    cps: Seq<Seq<char>>,
    id: Seq<char>,
)
    ensures
        spec_count_id(spec_new(name, objects, prefix, cps), id) <= 1,
{
    let stripped = strip_all(name, '/');
    let valid = valid_records(objects, name);
    let cands = spec_candidates(prefix, cps, valid);
    let raw = spec_longest_path(cands, stripped);
    if raw.len() == 0 {
        let t = spec_new(name, objects, prefix, cps);
        assert(spec_count_from(t.children, id, 0) == 0);
    } else {
        lemma_chain_unique(prefix, raw, None, valid, id);
    }
}

proof fn lemma_chain_query_id(
    prefix: Seq<char>,
    segs: Seq<Seq<char>>,
    parent: Option<Seq<char>>,
    valid: Seq<RecordView>,
    m: int,
)
    requires
        1 <= m <= segs.len(),
    ensures
        ({
            let target = match parent {
                None => join_on(segs.take(m), '/'),
                Some(p) => p + seq!['/'] + join_on(segs.take(m), '/'),
            };
            spec_query(spec_chain(prefix, segs, parent, valid), target) matches Some(f)
                && f.path == target && f.name == segs[m - 1] && f.prefix == prefix && f.metadata
                == spec_metadata(segs[m - 1], matching_records(valid, segs[m - 1]))
        }),
    decreases m,
{
    let t = spec_chain(prefix, segs, parent, valid);
    let head = spec_build_node(prefix, segs[0], parent, valid);
    let target = match parent {
        None => join_on(segs.take(m), '/'),
        Some(p) => p + seq!['/'] + join_on(segs.take(m), '/'),
    };
    if m == 1 {
        assert(segs.take(1).len() == 1 && segs.take(1)[0] == segs[0]);
        assert(join_on(segs.take(1), '/') == segs[0]);
        assert(t.path == target);
    } else {
        let rest = segs.drop_first();
        let child = spec_chain(prefix, rest, Some(head.path), valid);
        assert(t.children == seq![child]);
        lemma_chain_query_id(prefix, rest, Some(head.path), valid, m - 1);
        let child_target = head.path + seq!['/'] + join_on(rest.take(m - 1), '/');
        assert(segs.take(m)[0] == segs[0]);
        assert(segs.take(m).drop_first() =~= rest.take(m - 1));
        assert(join_on(segs.take(m), '/') == segs[0] + seq!['/'] + join_on(rest.take(m - 1), '/'));
        assert(target =~= child_target);
        assert(target.len() > head.path.len());
        assert(t.path != target);
        assert(t.children[0] == child);
        assert(spec_query(t, target) == spec_query_from(t.children, target, 0));
        assert(spec_query_from(t.children, target, 0) == spec_query(child, target));
        assert(rest[m - 2] == segs[m - 1]);
    }
}

/// Leaf lookup: in a built tree whose recorded base prefix, once a
/// trailing separator is dropped, joins the first `m` raw segments of the
/// deepest path, the designated leaf is exactly the `m`-th chain node,
/// named by that segment and carrying its synthesized metadata.
pub proof fn lemma_new_leaf_found(
    name: Seq<char>,
    objects: Seq<RecordView>,
    prefix: Seq<char>,
    cps: Seq<Seq<char>>,
    m: int,
)
    requires
        ({
            let stripped = strip_all(name, '/');
            let valid = valid_records(objects, name);
            let raw = spec_longest_path(spec_candidates(prefix, cps, valid), stripped);
            1 <= m <= raw.len() && strip_trailing(prefix, '/') == join_on(raw.take(m), '/')
        }),
    ensures
        ({
            let stripped = strip_all(name, '/');
            let valid = valid_records(objects, name);
            let raw = spec_longest_path(spec_candidates(prefix, cps, valid), stripped);
            spec_leaf(spec_new(name, objects, prefix, cps)) matches Some(f) && f.name == raw[m - 1]
                && f.metadata == spec_metadata(raw[m - 1], matching_records(valid, raw[m - 1]))
        }),
{
    let stripped = strip_all(name, '/');
    let valid = valid_records(objects, name);
    let raw = spec_longest_path(spec_candidates(prefix, cps, valid), stripped);
    let t = spec_new(name, objects, prefix, cps);
    lemma_chain_query_id(prefix, raw, None, valid, m);
    assert(t.prefix == prefix);
}

/// Tree construction is a function of the listing alone: two builds from
/// the same origin name, records, base prefix and common prefixes are
/// structurally identical, with the same ids, kinds and metadata.
pub proof fn lemma_new_deterministic(
    a: FileView,
    b: FileView,
    name: Seq<char>,
    objects: Seq<RecordView>,
    prefix: Seq<char>,
    cps: Seq<Seq<char>>,
)
    requires
        a == spec_new(name, objects, prefix, cps),
        b == spec_new(name, objects, prefix, cps),
    ensures
        a == b,
{
}

/// The tree after a dedup-by-id insertion of `c` under the root of `t`.
pub open spec fn spec_add_child(t: FileView, c: FileView) -> FileView {
    if spec_contains_id(t, c.path) {
        t
    } else {
        FileView { children: t.children.push(c), ..t }
    }
}

/// The tree after inserting each member of `cs`, in order.
pub open spec fn spec_add_children(t: FileView, cs: Seq<FileView>) -> FileView
    decreases cs.len(),
{
    if cs.len() == 0 {
        t
    } else {
        spec_add_children(spec_add_child(t, cs[0]), cs.drop_first())
    }
}

impl File {
    /// Build the directory tree for one listing: records that carry no key
    /// or name the origin itself are dropped, the deepest candidate path is
    /// chosen, and its segments become a chain of nodes, each the sole
    /// child of the one before it, inserted with dedup by id.
    pub fn new(
        name: &str,
        objects: Vec<ObjectRecord>,
        prefix: String,
        common_prefixes: Vec<String>,
    ) -> (t: File)
        ensures
            t@ == spec_new(name@, objects.deep_view(), prefix@, common_prefixes.deep_view()),
    {
        let valid = Self::filter_valid(&objects, name);
        let stripped = Self::name_without_slash(name);
        let raw = Self::longest_path(name, &valid, &prefix, &common_prefixes);
        let ghost raw_dv = raw.deep_view();
        let ghost valid_dv = valid.deep_view();
        if raw.len() == 0 {
            return Self::build_file(prefix, stripped, None, &valid);
        }
        let k = raw.len();
        proof {
            assert(raw_dv.len() == k);
        }
        let mut j = k - 1;
        let parent_last: Option<String> = if j >= 1 {
            Some(join_upto(&raw, j))
        } else {
            None
        };
        proof {
            assert(parent_last.deep_view() == chain_parent(raw_dv, j as int));
        }
        let mut cur = Self::build_file(prefix.clone(), raw[j].clone(), parent_last, &valid);
        proof {
            assert(raw[j as int]@ == raw_dv[j as int]);
            assert(raw_dv.skip(j as int).len() == 1);
            assert(raw_dv.skip(j as int)[0] == raw_dv[j as int]);
            assert(cur@ == spec_chain(prefix@, raw_dv.skip(j as int), chain_parent(raw_dv, j as int), valid_dv));
        }
        while j > 0
            invariant
                0 <= j <= k - 1,
                k == raw_dv.len(),
                k == raw@.len(),
                raw_dv == raw.deep_view(),
                valid_dv == valid.deep_view(),
                cur@ == spec_chain(prefix@, raw_dv.skip(j as int), chain_parent(raw_dv, j as int), valid_dv),
            decreases j,
        {
            j -= 1;
            let parent_j: Option<String> = if j >= 1 {
                Some(join_upto(&raw, j))
            } else {
                None
            };
            proof {
                assert(parent_j.deep_view() == chain_parent(raw_dv, j as int));
            }
            let mut node = Self::build_file(prefix.clone(), raw[j].clone(), parent_j, &valid);
            proof {
                lemma_chain_ids(raw_dv, j as int);
                assert(node@.path == join_on(raw_dv.take(j + 1), '/'));
                let cur_view = cur@;
                assert(cur_view.path == spec_file_id(
                    raw_dv.skip(j + 1)[0],
                    chain_parent(raw_dv, j + 1),
                ));
                assert(cur_view.path == join_on(raw_dv.take(j + 1), '/') + seq!['/'] + raw_dv.skip(
                    j + 1,
                )[0]);
                assert(cur_view.path.len() > node@.path.len());
                assert(node@.path != cur_view.path);
                assert(spec_query_from(node@.children, cur_view.path, 0) is None);
                assert(spec_query(node@, cur_view.path) is None);
            }
            let ghost node_before = node@;
            let ghost cur_view = cur@;
            node.add_child(cur);
            proof {
                assert(node@ == spec_add_child(node_before, cur_view));
                assert(node@.children =~= seq![cur_view]);
                assert(raw_dv.skip(j as int).drop_first() =~= raw_dv.skip(j + 1));
                assert(raw_dv.skip(j as int)[0] == raw_dv[j as int]);
                assert(raw_dv.skip(j as int).len() >= 2);
                assert(chain_parent(raw_dv, j + 1) == Some(node_before.path));
                assert(node@ == spec_chain(
                    prefix@,
                    raw_dv.skip(j as int),
                    chain_parent(raw_dv, j as int),
                    valid_dv,
                ));
            }
            cur = node;
        }
        proof {
            assert(raw_dv.skip(0) =~= raw_dv);
        }
        cur
    }

    /// The origin name with its separators removed.
    pub fn name_without_slash(name: &str) -> (r: String)
        ensures
            r@ == strip_all(name@, '/'),
    {
        remove_char(name, '/')
    }

    /// The id a node gets from its own name and its parent's id.
    pub fn generate_file_id(file_name: &str, parent: &Option<String>) -> (r: String)
        ensures
            r@ == spec_file_id(file_name@, parent.deep_view()),
    {
        match parent {
            Some(p) => {
                let mut id = p.clone();
                id.append("/");
                id.append(file_name);
                proof {
                    reveal_strlit("/");
                    assert(("/")@ =~= seq!['/']);
                    assert(id@ =~= p@ + seq!['/'] + file_name@);
                }
                id
            },
            None => file_name.to_owned(),
        }
    }

    /// A childless node for one segment, with synthesized metadata.
    fn build_file(
        prefix: String,
        file_name: String,
        parent: Option<String>,
        s3_objects: &Vec<ObjectRecord>,
    ) -> (t: File)
        ensures
            t@ == spec_build_node(prefix@, file_name@, parent.deep_view(), s3_objects.deep_view()),
    {
        let matches = Self::filter_objects_for_path(file_name.as_str(), s3_objects);
        let file_id = Self::generate_file_id(file_name.as_str(), &parent);
        let metadata = FileMetadata::new(file_name.as_str(), &matches);
        let t = File {
            path: file_id,
            name: file_name,
            parent,
            children: Vec::new(),
            prefix,
            metadata,
        };
        proof {
            assert(t@.children =~= Seq::<FileView>::empty());
        }
        t
    }

    /// The records whose key ends with the given segment name.
    fn filter_objects_for_path(path: &str, objects: &Vec<ObjectRecord>) -> (r: Vec<ObjectRecord>)
        ensures
            r.deep_view() == matching_records(objects.deep_view(), path@),
    {
        let ghost objects_dv = objects.deep_view();
        let mut r: Vec<ObjectRecord> = Vec::new();
        let mut i: usize = 0;
        proof {
            assert(r.deep_view() =~= matching_records(objects_dv.take(0), path@));
        }
        while i < objects.len()
            invariant
                0 <= i <= objects@.len(),
                objects_dv == objects.deep_view(),
                objects_dv.len() == objects@.len(),
                r.deep_view() == matching_records(objects_dv.take(i as int), path@),
            decreases objects@.len() - i,
        {
            let ghost old_dv = r.deep_view();
            let rec = &objects[i];
            let keep = match &rec.key {
                Some(k) => ends_with_str(k.as_str(), path),
                None => false,
            };
            if keep {
                r.push(clone_record(rec));
                proof {
                    assert(r.deep_view() =~= old_dv.push(objects_dv[i as int]));
                }
            }
            proof {
                assert(objects_dv.take(i + 1).drop_last() =~= objects_dv.take(i as int));
                assert(objects_dv.take(i + 1).last() == objects_dv[i as int]);
            }
            i += 1;
        }
        proof {
            assert(objects_dv.take(objects@.len() as int) =~= objects_dv);
        }
        r
    }

    /// The records that carry a key other than the origin name itself.
    pub(crate) fn filter_valid(objects: &Vec<ObjectRecord>, name: &str) -> (r: Vec<ObjectRecord>)
        ensures
            r.deep_view() == valid_records(objects.deep_view(), name@),
    {
        let ghost objects_dv = objects.deep_view();
        let mut r: Vec<ObjectRecord> = Vec::new();
        let mut i: usize = 0;
        proof {
            assert(r.deep_view() =~= valid_records(objects_dv.take(0), name@));
        }
        while i < objects.len()
            invariant
                0 <= i <= objects@.len(),
                objects_dv == objects.deep_view(),
                objects_dv.len() == objects@.len(),
                r.deep_view() == valid_records(objects_dv.take(i as int), name@),
            decreases objects@.len() - i,
        {
            let ghost old_dv = r.deep_view();
            let rec = &objects[i];
            let keep = match &rec.key {
                Some(k) => !str_eq(k.as_str(), name),
                None => false,
            };
            if keep {
                r.push(clone_record(rec));
                proof {
                    assert(r.deep_view() =~= old_dv.push(objects_dv[i as int]));
                }
            }
            proof {
                assert(objects_dv.take(i + 1).drop_last() =~= objects_dv.take(i as int));
                assert(objects_dv.take(i + 1).last() == objects_dv[i as int]);
            }
            i += 1;
        }
        proof {
            assert(objects_dv.take(objects@.len() as int) =~= objects_dv);
        }
        r
    }

    /// The comparable segments of one candidate path.
    fn comparable_of(cand: &String, stripped: &String) -> (r: Vec<String>)
        ensures
            r.deep_view() == comparable_segments(cand@, stripped@),
    {
        let parts = split_char(cand.as_str(), '/');
        let ghost parts_dv = parts.deep_view();
        let mut r: Vec<String> = Vec::new();
        let mut i: usize = 0;
        proof {
            assert(r.deep_view() =~= comparable_pieces(parts_dv.take(0), stripped@));
        }
        while i < parts.len()
            invariant
                0 <= i <= parts@.len(),
                parts_dv == parts.deep_view(),
                parts_dv.len() == parts@.len(),
                r.deep_view() == comparable_pieces(parts_dv.take(i as int), stripped@),
            decreases parts@.len() - i,
        {
            let ghost old_dv = r.deep_view();
            let piece = &parts[i];
            if piece.as_str().unicode_len() > 0 && !str_eq(piece.as_str(), stripped.as_str()) {
                r.push(piece.clone());
                proof {
                    assert(r.deep_view() =~= old_dv.push(parts_dv[i as int]));
                }
            }
            proof {
                assert(parts_dv.take(i + 1).drop_last() =~= parts_dv.take(i as int));
                assert(parts_dv.take(i + 1).last() == parts_dv[i as int]);
            }
            i += 1;
        }
        proof {
            assert(parts_dv.take(parts@.len() as int) =~= parts_dv);
        }
        r
    }

    /// The nonempty raw segments of the deepest candidate path, chosen by
    /// lexicographic comparison of comparable segments, later candidates
    /// winning ties.
    fn longest_path(
        name: &str,
        objects: &Vec<ObjectRecord>,
        prefix: &String,
        common_prefixes: &Vec<String>,
    ) -> (r: Vec<String>)
        ensures
            r.deep_view() == spec_longest_path(
                spec_candidates(prefix@, common_prefixes.deep_view(), objects.deep_view()),
                strip_all(name@, '/'),
            ),
    {
        let ghost cps_dv = common_prefixes.deep_view();
        let ghost objects_dv = objects.deep_view();
        let mut cands: Vec<String> = Vec::new();
        let mut i: usize = 0;
        while i < common_prefixes.len()
            invariant
                0 <= i <= common_prefixes@.len(),
                cps_dv == common_prefixes.deep_view(),
                cps_dv.len() == common_prefixes@.len(),
                cands.deep_view() == cps_dv.take(i as int),
            decreases common_prefixes@.len() - i,
        {
            let ghost old_dv = cands.deep_view();
            cands.push(common_prefixes[i].clone());
            proof {
                assert(cands.deep_view() =~= old_dv.push(cps_dv[i as int]));
                assert(cps_dv.take(i + 1) =~= cps_dv.take(i as int).push(cps_dv[i as int]));
            }
            i += 1;
        }
        proof {
            assert(cps_dv.take(cps_dv.len() as int) =~= cps_dv);
        }
        cands.push(prefix.clone());
        proof {
            assert(cands.deep_view() =~= cps_dv.push(prefix@));
        }
        let ghost with_prefix = cands.deep_view();
        let mut o: usize = 0;
        while o < objects.len()
            invariant
                0 <= o <= objects@.len(),
                objects_dv == objects.deep_view(),
                objects_dv.len() == objects@.len(),
                with_prefix == cps_dv.push(prefix@),
                cands.deep_view() == with_prefix + record_keys(objects_dv.take(o as int)),
            decreases objects@.len() - o,
        {
            let ghost old_dv = cands.deep_view();
            let rec = &objects[o];
            let key_copy: String = match &rec.key {
                Some(k) => k.clone(),
                None => String::new(),
            };
            cands.push(key_copy);
            proof {
                assert(objects_dv.take(o + 1).drop_last() =~= objects_dv.take(o as int));
                assert(objects_dv.take(o + 1).last() == objects_dv[o as int]);
                assert(cands.deep_view() =~= old_dv.push(
                    match objects_dv[o as int].key {
                        Some(k) => k,
                        None => Seq::empty(),
                    },
                ));
                assert(cands.deep_view() =~= with_prefix + record_keys(objects_dv.take(o + 1)));
            }
            o += 1;
        }
        proof {
            assert(objects_dv.take(objects_dv.len() as int) =~= objects_dv);
            assert(cands.deep_view() =~= spec_candidates(prefix@, cps_dv, objects_dv));
        }
        let ghost cands_dv = cands.deep_view();
        let stripped = Self::name_without_slash(name);
        let mut best: usize = 0;
        let mut best_comp = Self::comparable_of(&cands[0], &stripped);
        let mut n: usize = 1;
        while n < cands.len()
            invariant
                1 <= n <= cands@.len(),
                cands@.len() >= 1,
                0 <= best < n,
                cands_dv == cands.deep_view(),
                cands_dv.len() == cands@.len(),
                stripped@ == strip_all(name@, '/'),
                best as int == deepest_upto(cands_dv, stripped@, n as int),
                best_comp.deep_view() == comparable_segments(cands_dv[best as int], stripped@),
            decreases cands@.len() - n,
        {
            let comp = Self::comparable_of(&cands[n], &stripped);
            if segs_less(&comp, &best_comp) {
            } else {
                best = n;
                best_comp = comp;
            }
            n += 1;
        }
        let raw = split_char(cands[best].as_str(), '/');
        let r = retain_nonempty(raw);
        proof {
            assert(r.deep_view() == spec_longest_path(cands_dv, stripped@));
        }
        r
    }

    /// Insert `child` under this node unless some node of the tree already
    /// carries its id; re-insertion of a known id is a silent no-op.
    pub fn add_child(&mut self, child: File)
        ensures
            final(self)@ == spec_add_child(old(self)@, child@),
    {
        let known = self.query(child.path.as_str()).is_some();
        if !known {
            proof {
                lemma_children_views(*self);
            }
            let ghost prior = *self;
            self.children.push(child);
            proof {
                lemma_children_views(*self);
                assert(self@.children =~= prior@.children.push(child@));
            }
        }
    }

    /// Insert each of `children` in order, with the same dedup rule.
    pub fn add_children(&mut self, children: Vec<File>)
        ensures
            final(self)@ == spec_add_children(old(self)@, forest_view(children@)),
    {
        let mut rest = children;
        while rest.len() > 0
            invariant
                spec_add_children(self@, forest_view(rest@)) == spec_add_children(
                    old(self)@,
                    forest_view(children@),
                ),
            decreases rest.len(),
        {
            let ghost prior_rest = rest@;
            let next = rest.remove(0);
            proof {
                lemma_file_views_props(prior_rest, prior_rest.len() as nat);
                lemma_file_views_props(rest@, rest@.len() as nat);
                lemma_file_views_props(prior_rest, 1nat);
                assert(forest_view(rest@) =~= forest_view(prior_rest).drop_first());
                assert(forest_view(prior_rest)[0] == next@);
            }
            self.add_child(next);
        }
    }

    /// The designated leaf: the node whose id equals the tree's recorded
    /// origin prefix, once a trailing separator is dropped. An empty result
    /// means the type of the origin path cannot be read off this tree.
    pub fn leaf_child(&self) -> (r: Option<&File>)
        ensures
            match r {
                Some(f) => spec_leaf(self@) == Some(f@),
                None => spec_leaf(self@) is None,
            },
    {
        let target = strip_trailing_char(self.prefix.as_str(), '/');
        self.query(target)
    }

    /// Does the origin path name a directory? The caller must have checked
    /// that the tree has a designated leaf.
    pub fn is_dir(&self) -> (r: bool)
        requires
            spec_leaf(self@) is Some,
        ensures
            spec_leaf(self@) matches Some(f) && r == (f.metadata.file_type is Directory),
    {
        match self.leaf_child() {
            Some(f) => f.metadata.file_type == S3ObjectType::Directory,
            None => false,
        }
    }

    /// The metadata of the designated leaf. The caller must have checked
    /// that the tree has one.
    pub fn _metadata(&self) -> (m: FileMetadata)
        requires
            spec_leaf(self@) is Some,
        ensures
            spec_leaf(self@) matches Some(f) && m@ == f.metadata,
    {
        match self.leaf_child() {
            Some(f) => FileMetadata {
                last_modified: match &f.metadata.last_modified {
                    Some(s) => Some(s.clone()),
                    None => None,
                },
                size: f.metadata.size,
                extension: match &f.metadata.extension {
                    Some(s) => Some(s.clone()),
                    None => None,
                },
                file_type: f.metadata.file_type,
            },
            None => FileMetadata {
                last_modified: None,
                size: None,
                extension: None,
                file_type: S3ObjectType::Directory,
            },
        }
    }

    /// Exact-id depth-first search; returns the first node found.
    pub fn query(&self, id: &str) -> (r: Option<&File>)
        ensures
            match r {
                Some(f) => spec_query(self@, id@) == Some(f@),
                None => spec_query(self@, id@) is None,
            },
        decreases *self,
    {
        if str_eq(self.path.as_str(), id) {
            Some(self)
        } else {
            proof {
                lemma_children_views(*self);
            }
            let mut i: usize = 0;
            while i < self.children.len()
                invariant
                    0 <= i <= self.children.len(),
                    self@.children.len() == self.children@.len(),
                    forall|j: int|
                        0 <= j < self.children@.len() ==> #[trigger] self@.children[j]
                            == self.children@[j]@,
                    spec_query_from(self@.children, id@, 0) == spec_query_from(
                        self@.children,
                        id@,
                        i as nat,
                    ),
                    self@.path != id@,
                decreases self.children.len() - i,
            {
                let found = self.children[i].query(id);
                if found.is_some() {
                    return found;
                }
                i += 1;
            }
            None
        }
    }
}

} // verus!
