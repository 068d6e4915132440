//! Parsing a user-supplied path into a canonical container / key /
//! full-key triple.

use vstd::prelude::*;

use crate::errors::S3PathError;
use crate::text::{
    join_on, join_slash, matches_at, nonempty_pieces, retain_nonempty, split_char, split_on,
};

verus! {

/// A parsed path: the container (bucket) name, the immediate child key and,
/// for nested paths, the complete joined remainder.
#[derive(Debug, Clone, PartialEq)]
pub struct BucketConfig {
    /// The name of the bucket.
    pub name: String,
    /// The immediate child under the bucket, with a trailing separator;
    /// empty when the path names the bucket alone.
    pub key: String,
    /// The complete remainder after the bucket, joined by separators and
    /// ending in one; absent when the path names the bucket alone.
    pub full_key: Option<String>,
}

/// The scheme prefix that may qualify a path.
pub open spec fn scheme_marker() -> Seq<char> {
    seq!['s', '3', ':', '/', '/']
}

/// An access-point marker whose trailing separator must not count as a
/// segment boundary.
pub open spec fn ap_slash() -> Seq<char> {
    seq![':', 'a', 'c', 'c', 'e', 's', 's', 'p', 'o', 'i', 'n', 't', '/']
}

/// The same marker once its separator has been rewritten away.
pub open spec fn ap_colon() -> Seq<char> {
    seq![':', 'a', 'c', 'c', 'e', 's', 's', 'p', 'o', 'i', 'n', 't', ':']
}

/// `s` without one leading scheme prefix, if it carries one.
pub open spec fn strip_scheme(s: Seq<char>) -> Seq<char> {
    if scheme_marker().is_prefix_of(s) {
        s.skip(scheme_marker().len() as int)
    } else {
        s
    }
}

/// Every occurrence of the access-point marker rewritten so that its
/// trailing separator becomes a colon, left to right, without overlap.
pub open spec fn normalize_marker(s: Seq<char>) -> Seq<char>
    decreases s.len(),
{
    if s.len() >= 13 && s.subrange(0, 13) == ap_slash() {
        ap_colon() + normalize_marker(s.skip(13))
    } else if s.len() == 0 {
        s
    } else {
        seq![s[0]] + normalize_marker(s.drop_first())
    }
}

/// The nonempty separator-delimited segments of a path, after the scheme is
/// stripped and access-point markers are protected.
pub open spec fn parse_parts(s: Seq<char>) -> Seq<Seq<char>> {
    nonempty_pieces(split_on(normalize_marker(strip_scheme(s)), '/'))
}

/// The key of a parsed path: its second segment plus a trailing separator,
/// or empty when there is no second segment.
pub open spec fn spec_key(parts: Seq<Seq<char>>) -> Seq<char> {
    if parts.len() <= 1 {
        Seq::empty()
    } else {
        parts[1].push('/')
    }
}

/// The full key of a parsed path: everything after the first segment,
/// joined and ending in a separator; absent when nothing follows it.
pub open spec fn spec_full_key(parts: Seq<Seq<char>>) -> Option<Seq<char>> {
    if parts.len() <= 1 {
        None
    } else {
        Some(join_on(parts.skip(1), '/').push('/'))
    }
}

/// Does `b` hold exactly what parsing the path `s` yields?
pub open spec fn bucket_parses(b: BucketConfig, s: Seq<char>) -> bool {
    let parts = parse_parts(s);
    parts.len() > 0 && b.name@ == parts[0] && b.key@ == spec_key(parts) && b.full_key.deep_view()
        == spec_full_key(parts)
}

impl BucketConfig {
    /// Parse a path, either scheme-qualified (`s3://bucket/key`) or bare
    /// absolute (`/bucket/key`), into a bucket configuration. A path with no
    /// segments at all has no container name and is rejected.
    pub fn from_path(path: &str) -> (r: Result<BucketConfig, S3PathError>)
        ensures
            ({
                let parts = parse_parts(path@);
                match r {
                    Ok(b) => parts.len() > 0 && b.name@ == parts[0] && b.key@ == spec_key(parts)
                        && b.full_key.deep_view() == spec_full_key(parts),
                    Err(e) => parts.len() == 0 && e == S3PathError::InvalidPath,
                }
            }),
    {
        match Self::split_path(path) {
            Ok((name, key, full_key)) => Ok(BucketConfig { name, key, full_key }),
            Err(e) => Err(e),
        }
    }

    /// Split a path into its container name, its immediate child key and its
    /// complete nested remainder.
    pub fn split_path(path: &str) -> (r: Result<(String, String, Option<String>), S3PathError>)
        ensures
            ({
                let parts = parse_parts(path@);
                match r {
                    Ok(t) => parts.len() > 0 && t.0@ == parts[0] && t.1@ == spec_key(parts)
                        && t.2.deep_view() == spec_full_key(parts),
                    Err(e) => parts.len() == 0 && e == S3PathError::InvalidPath,
                }
            }),
    {
        let len = path.unicode_len();
        let stripped: &str = if matches_at(path, 0, "s3://") {
            proof {
                reveal_strlit("s3://");
                assert(("s3://")@ =~= scheme_marker());
            }
            let rest = path.substring_char(5, len);
            proof {
                assert(path@.subrange(0, 5) == path@.subrange(0, scheme_marker().len() as int));
                assert(scheme_marker().is_prefix_of(path@));
                assert(rest@ =~= strip_scheme(path@));
            }
            rest
        } else {
            proof {
                reveal_strlit("s3://");
                assert(("s3://")@ =~= scheme_marker());
                if scheme_marker().is_prefix_of(path@) {
                    assert(path@.subrange(0, 5) == scheme_marker());
                }
                assert(strip_scheme(path@) == path@);
            }
            path
        };
        let normalized = normalize_access_point(stripped);
        let raw_parts = split_char(normalized.as_str(), '/');
        let parts = retain_nonempty(raw_parts);
        let ghost parts_model = parse_parts(path@);
        proof {
            assert(parts.deep_view() == parts_model);
        }
        if parts.len() == 0 {
            return Err(S3PathError::InvalidPath);
        }
        let name = parts[0].clone();
        let mut key = String::new();
        let mut full_key: Option<String> = None;
        if parts.len() >= 2 {
            key.append(parts[1].as_str());
            key.append("/");
            let mut joined = join_slash(&parts, 1);
            joined.append("/");
            proof {
                reveal_strlit("/");
                assert(key@ =~= parts_model[1].push('/'));
                assert(joined@ =~= join_on(parts_model.skip(1), '/').push('/'));
            }
            full_key = Some(joined);
        }
        proof {
            assert(name@ == parts_model[0]);
        }
        Ok((name, key, full_key))
    }
}

/// Does the access-point marker occur in `s` at position `p`?
pub open spec fn is_marker_at(s: Seq<char>, p: int) -> bool {
    p + 13 <= s.len() && s.subrange(p, p + 13) == ap_slash()
}

/// Stripping a leading scheme prefix from a scheme-qualified path leaves
/// exactly the remainder.
pub proof fn lemma_strip_scheme_concat(rest: Seq<char>)
    ensures
        strip_scheme(scheme_marker() + rest) == rest,
{
    let s = scheme_marker() + rest;
    assert(s.subrange(0, 5) =~= scheme_marker());
    assert(scheme_marker().is_prefix_of(s));
    assert(s.skip(5) =~= rest);
}

/// Rewriting walks over any marker-free prefix unchanged.
pub proof fn lemma_normalize_skip_prefix(s: Seq<char>, k: int)
    requires
        0 <= k <= s.len(),
        forall|p: int| 0 <= p < k ==> !is_marker_at(s, p),
    ensures
        normalize_marker(s) == s.take(k) + normalize_marker(s.skip(k)),
    decreases k,
{
    if k == 0 {
        assert(s.skip(0) =~= s);
        assert(s.take(0) + normalize_marker(s) =~= normalize_marker(s));
    } else {
        lemma_normalize_skip_prefix(s, k - 1);
        let tail = s.skip(k - 1);
        assert(tail.len() > 0);
        assert(!is_marker_at(s, k - 1));
        if tail.len() >= 13 {
            assert(tail.subrange(0, 13) =~= s.subrange(k - 1, k - 1 + 13));
        }
        assert(!(tail.len() >= 13 && tail.subrange(0, 13) == ap_slash()));
        assert(tail[0] == s[k - 1]);
        assert(tail.drop_first() =~= s.skip(k));
        assert(normalize_marker(tail) == seq![s[k - 1]] + normalize_marker(s.skip(k)));
        assert(s.take(k - 1) + (seq![s[k - 1]] + normalize_marker(s.skip(k))) =~= s.take(k)
            + normalize_marker(s.skip(k)));
    }
}

/// A marker-free string is left unchanged by the rewrite.
pub proof fn lemma_normalize_id(s: Seq<char>)
    requires
        forall|p: int| 0 <= p < s.len() ==> !is_marker_at(s, p),
    ensures
        normalize_marker(s) == s,
{
    lemma_normalize_skip_prefix(s, s.len() as int);
    assert(s.skip(s.len() as int) =~= Seq::<char>::empty());
    assert(s.take(s.len() as int) =~= s);
    assert(s + normalize_marker(Seq::<char>::empty()) =~= s);
}

/// A scheme-qualified nested path `s3://C/a/b/c`, free of access-point
/// markers, parses to container `C`, key `a/` and full key `a/b/c/`.
pub proof fn lemma_parse_nested_path(cont: Seq<char>, a: Seq<char>, b: Seq<char>, c: Seq<char>)
    requires
        cont.len() > 0 && a.len() > 0 && b.len() > 0 && c.len() > 0,
        forall|i: int| 0 <= i < cont.len() ==> cont[i] != '/',
        forall|i: int| 0 <= i < a.len() ==> a[i] != '/',
        forall|i: int| 0 <= i < b.len() ==> b[i] != '/',
        forall|i: int| 0 <= i < c.len() ==> c[i] != '/',
        ({
            let rest = cont + seq!['/'] + a + seq!['/'] + b + seq!['/'] + c;
            forall|p: int| 0 <= p < rest.len() ==> !is_marker_at(rest, p)
        }),
    ensures
        ({
            let parts = parse_parts(
                scheme_marker() + (cont + seq!['/'] + a + seq!['/'] + b + seq!['/'] + c),
            );
            parts == seq![cont, a, b, c] && spec_key(parts) == a.push('/') && spec_full_key(parts)
                == Some((a + seq!['/'] + b + seq!['/'] + c).push('/'))
        }),
{
    let rest = cont + seq!['/'] + a + seq!['/'] + b + seq!['/'] + c;
    lemma_strip_scheme_concat(rest);
    lemma_normalize_id(rest);
    let tail_bc = b + seq!['/'] + c;
    let tail_abc = a + seq!['/'] + tail_bc;
    assert(rest =~= cont + seq!['/'] + tail_abc);
    crate::text::lemma_split_append(cont, tail_abc, '/');
    crate::text::lemma_split_append(a, tail_bc, '/');
    crate::text::lemma_split_append(b, c, '/');
    crate::text::lemma_split_sep_free(c, '/');
    let parts_raw = split_on(rest, '/');
    assert(parts_raw =~= seq![cont, a, b, c]);
    let parts = parse_parts(scheme_marker() + rest);
    assert(forall|i: int| 0 <= i < parts_raw.len() ==> parts_raw[i].len() > 0);
    crate::text::lemma_nonempty_all(parts_raw);
    assert(parts == seq![cont, a, b, c]);
    assert(spec_key(parts) =~= a.push('/'));
    let remainder = parts.skip(1);
    assert(remainder =~= seq![a, b, c]);
    assert(seq![a, b, c].drop_first() =~= seq![b, c]);
    assert(seq![b, c].drop_first() =~= seq![c]);
    assert(join_on(seq![c], '/') == c);
    assert(join_on(seq![b, c], '/') == b + seq!['/'] + c);
    assert(join_on(seq![a, b, c], '/') == a + seq!['/'] + (b + seq!['/'] + c));
    assert(join_on(seq![a, b, c], '/').push('/') =~= (a + seq!['/'] + b + seq!['/'] + c).push(
        '/',
    ));
}

/// A scheme-qualified single-segment path `s3://C/a` parses to container
/// `C` with key and full key both `a/`; a bare `s3://C` parses to container
/// `C` with an empty key and no full key.
pub proof fn lemma_parse_shallow_path(cont: Seq<char>, a: Seq<char>)
    requires
        cont.len() > 0 && a.len() > 0,
        forall|i: int| 0 <= i < cont.len() ==> cont[i] != '/',
        forall|i: int| 0 <= i < a.len() ==> a[i] != '/',
        ({
            let rest = cont + seq!['/'] + a;
            forall|p: int| 0 <= p < rest.len() ==> !is_marker_at(rest, p)
        }),
        forall|p: int| 0 <= p < cont.len() ==> !is_marker_at(cont, p),
    ensures
        ({
            let parts = parse_parts(scheme_marker() + (cont + seq!['/'] + a));
            parts == seq![cont, a] && spec_key(parts) == a.push('/') && spec_full_key(parts)
                == Some(a.push('/'))
        }),
        ({
            let parts = parse_parts(scheme_marker() + cont);
            parts == seq![cont] && spec_key(parts) == Seq::<char>::empty() && spec_full_key(parts)
                is None
        }),
{
    let rest = cont + seq!['/'] + a;
    lemma_strip_scheme_concat(rest);
    lemma_normalize_id(rest);
    crate::text::lemma_split_append(cont, a, '/');
    crate::text::lemma_split_sep_free(a, '/');
    let parts_raw = split_on(rest, '/');
    assert(parts_raw =~= seq![cont, a]);
    assert(forall|i: int| 0 <= i < parts_raw.len() ==> parts_raw[i].len() > 0);
    crate::text::lemma_nonempty_all(parts_raw);
    let parts = parse_parts(scheme_marker() + rest);
    assert(parts == seq![cont, a]);
    assert(spec_key(parts) =~= a.push('/'));
    assert(parts.skip(1) =~= seq![a]);
    assert(join_on(seq![a], '/').push('/') =~= a.push('/'));

    lemma_strip_scheme_concat(cont);
    lemma_normalize_id(cont);
    crate::text::lemma_split_sep_free(cont, '/');
    let only = split_on(cont, '/');
    assert(only =~= seq![cont]);
    assert(forall|i: int| 0 <= i < only.len() ==> only[i].len() > 0);
    crate::text::lemma_nonempty_all(only);
    assert(parse_parts(scheme_marker() + cont) == seq![cont]);
}

/// A scheme-qualified access-point path parses exactly as it would if its
/// marker's trailing separator were written as a colon: the rewrite makes
/// the two spellings one before segments are split. Here `x` is what stands
/// between the scheme and the marker and `r` what follows the marker.
#[verifier::rlimit(100)]
#[verifier::spinoff_prover]
pub proof fn lemma_accesspoint_equivalence(x: Seq<char>, r: Seq<char>)
    requires
        forall|p: int| 0 <= p < x.len() ==> !is_marker_at(x + ap_slash() + r, p),
        forall|p: int| 0 <= p < x.len() + 13 ==> !is_marker_at(x + ap_colon() + r, p),
    ensures
        normalize_marker(x + ap_slash() + r) == normalize_marker(x + ap_colon() + r),
        parse_parts(scheme_marker() + (x + ap_slash() + r)) == parse_parts(
            scheme_marker() + (x + ap_colon() + r),
        ),
{
    let s1 = x + ap_slash() + r;
    let s2 = x + ap_colon() + r;
    lemma_normalize_skip_prefix(s1, x.len() as int);
    lemma_normalize_skip_prefix(s2, x.len() as int + 13);
    assert(s1.skip(x.len() as int) =~= ap_slash() + r);
    lemma_normalize_marker_head(r);
    assert(s2.skip(x.len() as int + 13) =~= r);
    assert(s1.take(x.len() as int) =~= x);
    assert(s2.take(x.len() as int + 13) =~= x + ap_colon());
    assert(x + (ap_colon() + normalize_marker(r)) =~= (x + ap_colon()) + normalize_marker(r));
    lemma_strip_scheme_concat(s1);
    lemma_strip_scheme_concat(s2);
}

/// Rewriting a string that begins with the marker rewrites that marker.
#[verifier::rlimit(50)]
proof fn lemma_normalize_marker_head(r: Seq<char>)
    ensures
        normalize_marker(ap_slash() + r) == ap_colon() + normalize_marker(r),
{
    let t = ap_slash() + r;
    assert(t.subrange(0, 13) =~= ap_slash());
    assert(t.len() >= 13);
    assert(t.skip(13) =~= r);
}

/// Every occurrence of the access-point marker rewritten so that its
/// trailing separator becomes a colon.
fn normalize_access_point(s: &str) -> (r: String)
    ensures
        r@ == normalize_marker(s@),
{
    let len = s.unicode_len();
    let mut r = String::new();
    let mut i: usize = 0;
    proof {
        assert(s@.skip(0) =~= s@);
    }
    while i < len
        invariant
            len == s@.len(),
            0 <= i <= len,
            normalize_marker(s@) == r@ + normalize_marker(s@.skip(i as int)),
        decreases len - i,
    {
        let ghost tail = s@.skip(i as int);
        if matches_at(s, i, ":accesspoint/") {
            r.append(":accesspoint:");
            proof {
                reveal_strlit(":accesspoint/");
                reveal_strlit(":accesspoint:");
                assert((":accesspoint/")@ =~= ap_slash());
                assert((":accesspoint:")@ =~= ap_colon());
                assert(tail.subrange(0, 13) =~= s@.subrange(i as int, i + 13));
                assert(tail.len() >= 13 && tail.subrange(0, 13) == ap_slash());
                assert(tail.skip(13) =~= s@.skip(i + 13));
                assert(normalize_marker(tail) == ap_colon() + normalize_marker(s@.skip(i + 13)));
                assert(r@ + normalize_marker(s@.skip(i + 13)) =~= normalize_marker(s@));
            }
            i += 13;
        } else {
            let one = s.substring_char(i, i + 1);
            r.append(one);
            proof {
                reveal_strlit(":accesspoint/");
                assert((":accesspoint/")@ =~= ap_slash());
                if tail.len() >= 13 {
                    assert(tail.subrange(0, 13) =~= s@.subrange(i as int, i + 13));
                }
                assert(!(tail.len() >= 13 && tail.subrange(0, 13) == ap_slash()));
                assert(tail[0] == s@[i as int]);
                assert(tail.drop_first() =~= s@.skip(i + 1));
                assert(normalize_marker(tail) == seq![s@[i as int]] + normalize_marker(
                    s@.skip(i + 1),
                ));
                assert(one@ =~= seq![s@[i as int]]);
                assert(r@ + normalize_marker(s@.skip(i + 1)) =~= normalize_marker(s@));
            }
            i += 1;
        }
    }
    proof {
        assert(s@.skip(len as int) =~= Seq::<char>::empty());
        assert(normalize_marker(Seq::<char>::empty()) =~= Seq::<char>::empty());
        assert(r@ + Seq::<char>::empty() =~= r@);
    }
    r
}

} // verus!
