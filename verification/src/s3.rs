//! Path hygiene for the path façade: validating that a path is absolute
//! or scheme-qualified, and cleaning it into its stored form.

use vstd::prelude::*;

use crate::bucket::scheme_marker;
use crate::errors::S3PathError;
use crate::text::{
    after_first, contains_char, join_on, join_upto, matches_at, nonempty_pieces, retain_nonempty,
    split_char, split_on, starts_with_str,
};

verus! {

/// The path and each of its parents up to the root, the path itself first,
/// written with the path's nonempty segments and a kept leading separator.
pub open spec fn spec_ancestors(s: Seq<char>) -> Seq<Seq<char>> {
    let segs = nonempty_pieces(split_on(s, '/'));
    let lead: Seq<char> = if s.len() > 0 && s[0] == '/' {
        seq!['/']
    } else {
        Seq::empty()
    };
    Seq::new(segs.len(), |i: int| lead + join_on(segs.take(segs.len() - i), '/'))
}

/// Enumerate the path and each of its parents, the path itself first: one
/// entry for each of its nonempty segments, dropping the last segment at
/// every step.
pub fn ancestors(path: &str) -> (r: Vec<String>)
    ensures
        r.deep_view() == spec_ancestors(path@),
{
    let ghost model = spec_ancestors(path@);
    let segs = retain_nonempty(split_char(path, '/'));
    let ghost segs_dv = segs.deep_view();
    let n = segs.len();
    let rooted = path.unicode_len() > 0 && path.get_char(0) == '/';
    let mut r: Vec<String> = Vec::new();
    let mut i: usize = 0;
    proof {
        assert(r.deep_view() =~= model.take(0));
    }
    while i < n
        invariant
            0 <= i <= n,
            n == segs@.len(),
            segs_dv == segs.deep_view(),
            segs_dv == nonempty_pieces(split_on(path@, '/')),
            segs_dv.len() == n,
            model == spec_ancestors(path@),
            model.len() == n,
            rooted == (path@.len() > 0 && path@[0] == '/'),
            r.deep_view() == model.take(i as int),
        decreases n - i,
    {
        let ghost old_dv = r.deep_view();
        let joined = join_upto(&segs, n - i);
        let item: String = if rooted {
            let mut s = String::new();
            s.append("/");
            s.append(joined.as_str());
            s
        } else {
            joined
        };
        proof {
            reveal_strlit("/");
            if rooted {
                assert(item@ =~= seq!['/'] + join_on(segs_dv.take(n - i), '/'));
            } else {
                assert(item@ =~= Seq::<char>::empty() + join_on(segs_dv.take(n - i), '/'));
            }
            assert(model[i as int] == item@);
        }
        r.push(item);
        proof {
            assert(r.deep_view() =~= old_dv.push(model[i as int]));
            assert(model.take(i + 1) =~= model.take(i as int).push(model[i as int]));
        }
        i += 1;
    }
    proof {
        assert(model.take(n as int) =~= model);
    }
    r
}

/// The cleaned form of a path: for a scheme-qualified path, what follows
/// the bucket; for a bare absolute path, the path itself; a relative path
/// is rejected.
pub open spec fn spec_clean_path(s: Seq<char>) -> Result<Seq<char>, S3PathError> {
    if scheme_marker().is_prefix_of(s) {
        let rem = s.skip(scheme_marker().len() as int);
        if rem.contains('/') {
            Ok(after_first(rem, '/'))
        } else {
            Ok(rem)
        }
    } else if s.len() > 0 && s[0] == '/' {
        Ok(s)
    } else {
        Err(S3PathError::InvalidPath)
    }
}

/// Is the path acceptable: scheme-qualified, or absolute?
pub fn validate_path(path: &str) -> (ok: bool)
    ensures
        ok == (scheme_marker().is_prefix_of(path@) || (path@.len() > 0 && path@[0] == '/')),
{
    proof {
        reveal_strlit("s3://");
        assert(("s3://")@ =~= scheme_marker());
    }
    if starts_with_str(path, "s3://") {
        return true;
    }
    path.unicode_len() > 0 && path.get_char(0) == '/'
}

/// Clean a path into its stored form; a path neither scheme-qualified nor
/// absolute is rejected rather than accepted silently.
pub fn clean_path(path: &str) -> (r: Result<String, S3PathError>)
    ensures
        match r {
            Ok(c) => spec_clean_path(path@) matches Ok(m) && c@ == m,
            Err(e) => spec_clean_path(path@) is Err && e == S3PathError::InvalidPath,
        },
{
    let len = path.unicode_len();
    if matches_at(path, 0, "s3://") {
        proof {
            reveal_strlit("s3://");
            assert(("s3://")@ =~= scheme_marker());
        }
        let rem = path.substring_char(5, len);
        proof {
            assert(scheme_marker().is_prefix_of(path@));
            assert(rem@ =~= path@.skip(5));
        }
        let rem_len = rem.unicode_len();
        let mut i: usize = 0;
        while i < rem_len
            invariant
                rem_len == rem@.len(),
                0 <= i <= rem_len,
                forall|j: int| 0 <= j < i ==> rem@[j] != '/',
                scheme_marker().is_prefix_of(path@),
                rem@ == path@.skip(5),
            decreases rem_len - i,
        {
            if rem.get_char(i) == '/' {
                let tail = rem.substring_char(i + 1, rem_len);
                proof {
                    let head = rem@.subrange(0, i as int);
                    assert(rem@ =~= head + seq!['/'] + tail@);
                    crate::text::lemma_after_first_append(head, '/', tail@);
                    assert(rem@[i as int] == '/');
                    assert(rem@.contains('/'));
                }
                return Ok(tail.to_owned());
            }
            i += 1;
        }
        assert(!rem@.contains('/'));
        Ok(rem.to_owned())
    } else {
        proof {
            reveal_strlit("s3://");
            assert(("s3://")@ =~= scheme_marker());
            if scheme_marker().is_prefix_of(path@) {
                assert(path@.subrange(0, 5) == scheme_marker());
            }
        }
        if len > 0 && path.get_char(0) == '/' {
            Ok(path.to_owned())
        } else {
            Err(S3PathError::InvalidPath)
        }
    }
}

} // verus!
