//! Character-level models and helpers shared by the path parser and the
//! tree builder: splitting on a separator, joining, filtering empty pieces,
//! suffix/prefix tests and lexicographic comparison.

use vstd::prelude::*;

verus! {

// ---------------------------------------------------------------------------
// Spec models
// ---------------------------------------------------------------------------

/// The pieces of `s` between occurrences of `sep`; an empty string has one
/// empty piece, and `n` separators delimit `n + 1` pieces.
pub open spec fn split_on(s: Seq<char>, sep: char) -> Seq<Seq<char>>
    decreases s.len(),
{
    if s.len() == 0 {
        seq![Seq::empty()]
    } else if s[0] == sep {
        seq![Seq::<char>::empty()] + split_on(s.drop_first(), sep)
    } else {
        let rest = split_on(s.drop_first(), sep);
        seq![seq![s[0]] + rest[0]] + rest.drop_first()
    }
}

/// The pieces of `parts` that are not empty, in order.
pub open spec fn nonempty_pieces(parts: Seq<Seq<char>>) -> Seq<Seq<char>>
    decreases parts.len(),
{
    if parts.len() == 0 {
        Seq::empty()
    } else if parts.last().len() > 0 {
        nonempty_pieces(parts.drop_last()).push(parts.last())
    } else {
        nonempty_pieces(parts.drop_last())
    }
}

/// The members of `parts` joined by `sep`.
pub open spec fn join_on(parts: Seq<Seq<char>>, sep: char) -> Seq<char>
    decreases parts.len(),
{
    if parts.len() == 0 {
        Seq::empty()
    } else if parts.len() == 1 {
        parts[0]
    } else {
        parts[0] + seq![sep] + join_on(parts.drop_first(), sep)
    }
}

/// `s` without any occurrence of `c`.
pub open spec fn strip_all(s: Seq<char>, c: char) -> Seq<char>
    decreases s.len(),
{
    if s.len() == 0 {
        s
    } else if s.last() == c {
        strip_all(s.drop_last(), c)
    } else {
        strip_all(s.drop_last(), c).push(s.last())
    }
}

/// `s` without one trailing `c`, if it ends with one.
pub open spec fn strip_trailing(s: Seq<char>, c: char) -> Seq<char> {
    if s.len() > 0 && s.last() == c {
        s.drop_last()
    } else {
        s
    }
}

/// What follows the first occurrence of `c` in `s`; all of `s` when `c`
/// does not occur.
pub open spec fn after_first(s: Seq<char>, c: char) -> Seq<char>
    decreases s.len(),
{
    if s.len() == 0 {
        s
    } else if s[0] == c {
        s.drop_first()
    } else {
        after_first(s.drop_first(), c)
    }
}

/// What follows the last occurrence of `c` in `s`; all of `s` when `c` does
/// not occur.
pub open spec fn after_last(s: Seq<char>, c: char) -> Seq<char>
    decreases s.len(),
{
    if s.len() == 0 {
        s
    } else if s.last() == c {
        Seq::empty()
    } else {
        after_last(s.drop_last(), c).push(s.last())
    }
}

/// Strict lexicographic order on character sequences, by code point, with a
/// proper prefix ordered before its extensions.
pub open spec fn chars_lt(a: Seq<char>, b: Seq<char>) -> bool
    decreases a.len(),
{
    if b.len() == 0 {
        false
    } else if a.len() == 0 {
        true
    } else if a[0] != b[0] {
        a[0] < b[0]
    } else {
        chars_lt(a.drop_first(), b.drop_first())
    }
}

/// Strict lexicographic order on sequences of segments, segment-wise.
pub open spec fn segs_lt(a: Seq<Seq<char>>, b: Seq<Seq<char>>) -> bool
    decreases a.len(),
{
    if b.len() == 0 {
        false
    } else if a.len() == 0 {
        true
    } else if a[0] != b[0] {
        chars_lt(a[0], b[0])
    } else {
        segs_lt(a.drop_first(), b.drop_first())
    }
}

// ---------------------------------------------------------------------------
// Lemmas about the models
// ---------------------------------------------------------------------------

/// A separator-free string splits into itself alone.
pub proof fn lemma_split_sep_free(s: Seq<char>, sep: char)
    requires
        forall|i: int| 0 <= i < s.len() ==> s[i] != sep,
    ensures
        split_on(s, sep) == seq![s],
    decreases s.len(),
{
    if s.len() > 0 {
        lemma_split_sep_free(s.drop_first(), sep);
        assert(seq![s[0]] + s.drop_first() =~= s);
        assert(split_on(s, sep) =~~= seq![s]);
    } else {
        assert(s =~= Seq::<char>::empty());
        assert(split_on(s, sep) =~~= seq![s]);
    }
}

/// Splitting distributes over a separator between a separator-free head and
/// any tail.
pub proof fn lemma_split_append(a: Seq<char>, b: Seq<char>, sep: char)
    requires
        forall|i: int| 0 <= i < a.len() ==> a[i] != sep,
    ensures
        split_on(a + seq![sep] + b, sep) == seq![a] + split_on(b, sep),
    decreases a.len(),
{
    let s = a + seq![sep] + b;
    if a.len() == 0 {
        assert(s =~= seq![sep] + b);
        assert(s[0] == sep);
        assert(s.drop_first() =~= b);
        assert(a =~= Seq::<char>::empty());
        assert(split_on(s, sep) =~~= seq![a] + split_on(b, sep));
    } else {
        assert(s[0] == a[0]);
        assert(s.drop_first() =~= a.drop_first() + seq![sep] + b);
        lemma_split_append(a.drop_first(), b, sep);
        let rest = split_on(s.drop_first(), sep);
        assert(rest == seq![a.drop_first()] + split_on(b, sep));
        assert(rest[0] == a.drop_first());
        assert(seq![a[0]] + rest[0] =~= a);
        assert(rest.drop_first() =~= split_on(b, sep));
        assert(split_on(s, sep) =~~= seq![a] + split_on(b, sep));
    }
}

/// How filtering empty pieces acts on a one-piece extension.
pub proof fn lemma_nonempty_push(parts: Seq<Seq<char>>, x: Seq<char>)
    ensures
        nonempty_pieces(parts.push(x)) == if x.len() > 0 {
            nonempty_pieces(parts).push(x)
        } else {
            nonempty_pieces(parts)
        },
{
    assert(parts.push(x).drop_last() =~= parts);
}

/// A filtered piece list keeps only, and all, the nonempty pieces.
pub proof fn lemma_nonempty_all(parts: Seq<Seq<char>>)
    ensures
        (forall|i: int| 0 <= i < parts.len() ==> parts[i].len() > 0) ==> nonempty_pieces(parts)
            == parts,
    decreases parts.len(),
{
    if parts.len() > 0 {
        lemma_nonempty_all(parts.drop_last());
        if forall|i: int| 0 <= i < parts.len() ==> parts[i].len() > 0 {
            assert(forall|i: int|
                0 <= i < parts.drop_last().len() ==> parts.drop_last()[i].len() > 0);
            assert(nonempty_pieces(parts.drop_last()).push(parts.last()) =~= parts);
        }
    }
}

/// How a join grows when one more piece is appended.
pub proof fn lemma_join_push(parts: Seq<Seq<char>>, x: Seq<char>, sep: char)
    ensures
        join_on(parts.push(x), sep) == if parts.len() == 0 {
            x
        } else {
            join_on(parts, sep) + seq![sep] + x
        },
    decreases parts.len(),
{
    let whole = parts.push(x);
    if parts.len() == 0 {
        assert(whole.len() == 1);
        assert(whole[0] == x);
    } else {
        lemma_join_push(parts.drop_first(), x, sep);
        assert(whole.drop_first() =~= parts.drop_first().push(x));
        assert(whole[0] == parts[0]);
        if parts.len() == 1 {
            assert(parts.drop_first().len() == 0);
            assert(join_on(parts, sep) == parts[0]);
        } else {
            assert(join_on(parts, sep) + seq![sep] + x =~= parts[0] + seq![sep] + (join_on(
                parts.drop_first(),
                sep,
            ) + seq![sep] + x));
        }
    }
}

/// What follows the first separator of a string that begins, before that
/// separator, with a separator-free head.
pub proof fn lemma_after_first_append(h: Seq<char>, c: char, t: Seq<char>)
    requires
        forall|i: int| 0 <= i < h.len() ==> h[i] != c,
    ensures
        after_first(h + seq![c] + t, c) == t,
    decreases h.len(),
{
    let whole = h + seq![c] + t;
    if h.len() == 0 {
        assert(whole[0] == c);
        assert(whole.drop_first() =~= t);
    } else {
        assert(whole[0] == h[0]);
        assert(whole.drop_first() =~= h.drop_first() + seq![c] + t);
        lemma_after_first_append(h.drop_first(), c, t);
    }
}

/// What follows the last separator of a string that ends, after that
/// separator, in a separator-free tail.
pub proof fn lemma_after_last_append(s: Seq<char>, c: char, t: Seq<char>)
    requires
        forall|i: int| 0 <= i < t.len() ==> t[i] != c,
    ensures
        after_last(s + seq![c] + t, c) == t,
    decreases t.len(),
{
    let whole = s + seq![c] + t;
    if t.len() == 0 {
        assert(whole.last() == c);
    } else {
        assert(whole.drop_last() =~= s + seq![c] + t.drop_last());
        assert(forall|i: int| 0 <= i < t.drop_last().len() ==> t.drop_last()[i] != c);
        lemma_after_last_append(s, c, t.drop_last());
        assert(whole.last() == t.last());
        assert(after_last(whole, c) =~= t);
    }
}

/// A separator-free string is all after-the-last-separator.
pub proof fn lemma_after_last_free(s: Seq<char>, c: char)
    requires
        forall|i: int| 0 <= i < s.len() ==> s[i] != c,
    ensures
        after_last(s, c) == s,
    decreases s.len(),
{
    if s.len() > 0 {
        lemma_after_last_free(s.drop_last(), c);
        assert(after_last(s, c) =~= s);
    }
}

/// Lexicographic comparison ignores an equal prefix.
pub proof fn lemma_chars_lt_common(a: Seq<char>, b: Seq<char>, i: int)
    requires
        0 <= i <= a.len(),
        i <= b.len(),
        forall|j: int| 0 <= j < i ==> a[j] == b[j],
    ensures
        chars_lt(a, b) == chars_lt(a.skip(i), b.skip(i)),
    decreases i,
{
    if i > 0 {
        assert(a.len() > 0 && b.len() > 0 && a[0] == b[0]);
        lemma_chars_lt_common(a.drop_first(), b.drop_first(), i - 1);
        assert(a.drop_first().skip(i - 1) =~= a.skip(i));
        assert(b.drop_first().skip(i - 1) =~= b.skip(i));
    } else {
        assert(a.skip(0) =~= a);
        assert(b.skip(0) =~= b);
    }
}

/// Segment-wise lexicographic comparison ignores an equal prefix.
pub proof fn lemma_segs_lt_common(a: Seq<Seq<char>>, b: Seq<Seq<char>>, i: int)
    requires
        0 <= i <= a.len(),
        i <= b.len(),
        forall|j: int| 0 <= j < i ==> a[j] == b[j],
    ensures
        segs_lt(a, b) == segs_lt(a.skip(i), b.skip(i)),
    decreases i,
{
    if i > 0 {
        assert(a.len() > 0 && b.len() > 0 && a[0] == b[0]);
        lemma_segs_lt_common(a.drop_first(), b.drop_first(), i - 1);
        assert(a.drop_first().skip(i - 1) =~= a.skip(i));
        assert(b.drop_first().skip(i - 1) =~= b.skip(i));
    } else {
        assert(a.skip(0) =~= a);
        assert(b.skip(0) =~= b);
    }
}

// ---------------------------------------------------------------------------
// Executable helpers
// ---------------------------------------------------------------------------

/// Character-for-character equality of two string slices.
pub fn str_eq(a: &str, b: &str) -> (r: bool)
    ensures
        r == (a@ == b@),
{
    let a_len = a.unicode_len();
    let b_len = b.unicode_len();
    if a_len != b_len {
        assert(a@ != b@);
        return false;
    }
    let mut i: usize = 0;
    while i < a_len
        invariant
            a_len == a@.len(),
            b_len == b@.len(),
            a_len == b_len,
            0 <= i <= a_len,
            forall|j: int| 0 <= j < i ==> a@[j] == b@[j],
        decreases a_len - i,
    {
        if a.get_char(i) != b.get_char(i) {
            assert(a@ != b@);
            return false;
        }
        i += 1;
    }
    assert(a@ =~= b@);
    true
}

/// Does `pat` occur in `s` starting at character position `i`?
pub fn matches_at(s: &str, i: usize, pat: &str) -> (r: bool)
    ensures
        r == (i + pat@.len() <= s@.len() && s@.subrange(i as int, i + pat@.len()) == pat@),
{
    let s_len = s.unicode_len();
    let p_len = pat.unicode_len();
    if p_len > s_len || i > s_len - p_len {
        return false;
    }
    let mut j: usize = 0;
    while j < p_len
        invariant
            s_len == s@.len(),
            p_len == pat@.len(),
            i + p_len <= s_len,
            0 <= j <= p_len,
            forall|k: int| 0 <= k < j ==> s@[i + k] == pat@[k],
        decreases p_len - j,
    {
        if s.get_char(i + j) != pat.get_char(j) {
            assert(s@.subrange(i as int, i + pat@.len())[j as int] == s@[i + j]);
            assert(s@.subrange(i as int, i + pat@.len()) != pat@);
            return false;
        }
        j += 1;
    }
    assert(s@.subrange(i as int, i + pat@.len()) =~= pat@);
    true
}

/// Does `s` begin with `pat`?
pub fn starts_with_str(s: &str, pat: &str) -> (r: bool)
    ensures
        r == pat@.is_prefix_of(s@),
{
    let r = matches_at(s, 0, pat);
    proof {
        if pat@.len() <= s@.len() {
            assert(s@.subrange(0, pat@.len() as int) == s@.take(pat@.len() as int));
        }
    }
    r
}

/// Does `s` end with `pat`?
pub fn ends_with_str(s: &str, pat: &str) -> (r: bool)
    ensures
        r == pat@.is_suffix_of(s@),
{
    let s_len = s.unicode_len();
    let p_len = pat.unicode_len();
    if p_len > s_len {
        return false;
    }
    let r = matches_at(s, s_len - p_len, pat);
    proof {
        assert(s@.subrange(s@.len() - pat@.len(), s@.len() as int) == s@.skip(
            s@.len() - pat@.len(),
        ));
    }
    r
}

/// Does the character `c` occur in `s`?
pub fn contains_char(s: &str, c: char) -> (r: bool)
    ensures
        r == s@.contains(c),
{
    let len = s.unicode_len();
    let mut i: usize = 0;
    while i < len
        invariant
            len == s@.len(),
            0 <= i <= len,
            forall|j: int| 0 <= j < i ==> s@[j] != c,
        decreases len - i,
    {
        if s.get_char(i) == c {
            assert(s@[i as int] == c);
            return true;
        }
        i += 1;
    }
    false
}

/// The pieces of `s` between occurrences of `sep`, as owned strings.
pub fn split_char(s: &str, sep: char) -> (r: Vec<String>)
    ensures
        r.deep_view() == split_on(s@, sep),
{
    let len = s.unicode_len();
    let mut r: Vec<String> = Vec::new();
    let mut start: usize = 0;
    let mut i: usize = 0;
    proof {
        assert(s@.subrange(0, len as int) =~= s@);
        assert(r.deep_view() =~= Seq::<Seq<char>>::empty());
        assert(r.deep_view() + split_on(s@, sep) =~= split_on(s@, sep));
    }
    while i < len
        invariant
            len == s@.len(),
            0 <= start <= i <= len,
            forall|j: int| start <= j < i ==> s@[j] != sep,
            split_on(s@, sep) == r.deep_view() + split_on(s@.subrange(start as int, len as int), sep),
        decreases len - i,
    {
        if s.get_char(i) == sep {
            let ghost old_dv = r.deep_view();
            let piece = s.substring_char(start, i).to_owned();
            r.push(piece);
            proof {
                assert(r.deep_view() =~= old_dv.push(s@.subrange(start as int, i as int)));
                let head = s@.subrange(start as int, i as int);
                let tail = s@.subrange(i + 1, len as int);
                assert(s@.subrange(start as int, len as int) =~= head + seq![sep] + tail);
                lemma_split_append(head, tail, sep);
                assert(old_dv + (seq![head] + split_on(tail, sep)) =~= r.deep_view() + split_on(
                    tail,
                    sep,
                ));
            }
            start = i + 1;
        }
        i += 1;
    }
    let ghost old_dv = r.deep_view();
    let piece = s.substring_char(start, len).to_owned();
    r.push(piece);
    proof {
        let tail = s@.subrange(start as int, len as int);
        lemma_split_sep_free(tail, sep);
        assert(r.deep_view() =~= old_dv.push(tail));
        assert(old_dv + seq![tail] =~= r.deep_view());
    }
    r
}

/// The members of `v` that are not empty, in order.
pub fn retain_nonempty(v: Vec<String>) -> (r: Vec<String>)
    ensures
        r.deep_view() == nonempty_pieces(v.deep_view()),
{
    let mut r: Vec<String> = Vec::new();
    let mut i: usize = 0;
    while i < v.len()
        invariant
            0 <= i <= v.len(),
            r.deep_view() == nonempty_pieces(v.deep_view().take(i as int)),
        decreases v.len() - i,
    {
        let ghost old_dv = r.deep_view();
        let piece = &v[i];
        if piece.as_str().unicode_len() > 0 {
            let copy = piece.clone();
            r.push(copy);
            proof {
                assert(r.deep_view() =~= old_dv.push(v.deep_view()[i as int]));
            }
        }
        proof {
            assert(v.deep_view().take(i + 1) =~= v.deep_view().take(i as int).push(
                v.deep_view()[i as int],
            ));
            lemma_nonempty_push(v.deep_view().take(i as int), v.deep_view()[i as int]);
        }
        i += 1;
    }
    proof {
        assert(v.deep_view().take(v.len() as int) =~= v.deep_view());
    }
    r
}

/// The members of `parts`, from position `from` on, joined by `/`.
pub fn join_slash(parts: &Vec<String>, from: usize) -> (r: String)
    requires
        from <= parts@.len(),
    ensures
        r@ == join_on(parts.deep_view().skip(from as int), '/'),
{
    let mut r = String::new();
    if from >= parts.len() {
        assert(parts.deep_view().skip(from as int) =~= Seq::<Seq<char>>::empty());
        return r;
    }
    r.append(parts[from].as_str());
    let ghost whole = parts.deep_view().skip(from as int);
    let mut i: usize = from + 1;
    proof {
        assert(whole.take(1)[0] == parts.deep_view()[from as int]);
        assert(r@ =~= join_on(whole.take(1), '/'));
    }
    while i < parts.len()
        invariant
            from < i <= parts@.len(),
            whole == parts.deep_view().skip(from as int),
            whole.len() == parts@.len() - from,
            forall|j: int| 0 <= j < whole.len() ==> whole[j] == parts.deep_view()[from + j],
            r@ == join_on(whole.take(i - from), '/'),
        decreases parts@.len() - i,
    {
        r.append("/");
        r.append(parts[i].as_str());
        proof {
            reveal_strlit("/");
            assert(("/")@ =~= seq!['/']);
            assert(whole.take(i - from + 1) =~= whole.take(i - from).push(
                parts.deep_view()[i as int],
            ));
            lemma_join_push(whole.take(i - from), parts.deep_view()[i as int], '/');
            assert(r@ =~= join_on(whole.take(i - from), '/') + seq!['/']
                + parts.deep_view()[i as int]);
        }
        i += 1;
    }
    proof {
        assert(whole.take(whole.len() as int) =~= whole);
    }
    r
}

/// The first `upto` members of `parts` joined by `/`.
pub fn join_upto(parts: &Vec<String>, upto: usize) -> (r: String)
    requires
        1 <= upto <= parts@.len(),
    ensures
        r@ == join_on(parts.deep_view().take(upto as int), '/'),
{
    let mut r = String::new();
    r.append(parts[0].as_str());
    proof {
        assert(parts.deep_view().take(1)[0] == parts.deep_view()[0]);
        assert(r@ =~= join_on(parts.deep_view().take(1), '/'));
    }
    let mut i: usize = 1;
    while i < upto
        invariant
            1 <= i <= upto <= parts@.len(),
            parts.deep_view().len() == parts@.len(),
            r@ == join_on(parts.deep_view().take(i as int), '/'),
        decreases upto - i,
    {
        r.append("/");
        r.append(parts[i].as_str());
        proof {
            reveal_strlit("/");
            assert(("/")@ =~= seq!['/']);
            assert(parts.deep_view().take(i + 1) =~= parts.deep_view().take(i as int).push(
                parts.deep_view()[i as int],
            ));
            lemma_join_push(parts.deep_view().take(i as int), parts.deep_view()[i as int], '/');
            assert(r@ =~= join_on(parts.deep_view().take(i as int), '/') + seq!['/']
                + parts.deep_view()[i as int]);
        }
        i += 1;
    }
    r
}

/// `s` without any occurrence of `c`.
pub fn remove_char(s: &str, c: char) -> (r: String)
    ensures
        r@ == strip_all(s@, c),
{
    let len = s.unicode_len();
    let mut r = String::new();
    let mut i: usize = 0;
    while i < len
        invariant
            len == s@.len(),
            0 <= i <= len,
            r@ == strip_all(s@.subrange(0, i as int), c),
        decreases len - i,
    {
        proof {
            assert(s@.subrange(0, i + 1).drop_last() =~= s@.subrange(0, i as int));
            assert(s@.subrange(0, i + 1).last() == s@[i as int]);
        }
        if s.get_char(i) != c {
            let one = s.substring_char(i, i + 1);
            r.append(one);
            proof {
                assert(r@ =~= strip_all(s@.subrange(0, i as int), c).push(s@[i as int]));
            }
        }
        i += 1;
    }
    proof {
        assert(s@.subrange(0, len as int) =~= s@);
    }
    r
}

/// `s` without one trailing `c`, if it ends with one.
pub fn strip_trailing_char(s: &str, c: char) -> (r: &str)
    ensures
        r@ == strip_trailing(s@, c),
{
    let len = s.unicode_len();
    if len > 0 && s.get_char(len - 1) == c {
        let r = s.substring_char(0, len - 1);
        proof {
            assert(s@.subrange(0, len - 1) =~= s@.drop_last());
        }
        r
    } else {
        s
    }
}

/// What follows the last occurrence of `c` in `s`; all of `s` when `c` does
/// not occur.
pub fn after_last_char(s: &str, c: char) -> (r: &str)
    ensures
        r@ == after_last(s@, c),
{
    let len = s.unicode_len();
    let mut i: usize = len;
    while i > 0
        invariant
            len == s@.len(),
            0 <= i <= len,
            forall|j: int| i <= j < len ==> s@[j] != c,
        decreases i,
    {
        if s.get_char(i - 1) == c {
            let r = s.substring_char(i, len);
            proof {
                let head = s@.subrange(0, i - 1);
                let tail = s@.subrange(i as int, len as int);
                assert(s@ =~= head + seq![c] + tail);
                lemma_after_last_append(head, c, tail);
            }
            return r;
        }
        i -= 1;
    }
    proof {
        lemma_after_last_free(s@, c);
    }
    s
}

/// Strict lexicographic comparison of two strings, by character.
pub fn chars_less(a: &str, b: &str) -> (r: bool)
    ensures
        r == chars_lt(a@, b@),
{
    let a_len = a.unicode_len();
    let b_len = b.unicode_len();
    let mut i: usize = 0;
    loop
        invariant
            a_len == a@.len(),
            b_len == b@.len(),
            i <= a_len,
            i <= b_len,
            forall|j: int| 0 <= j < i ==> a@[j] == b@[j],
        decreases a_len - i,
    {
        proof {
            lemma_chars_lt_common(a@, b@, i as int);
        }
        if i >= a_len {
            assert(a@.skip(i as int).len() == 0);
            return i < b_len;
        }
        if i >= b_len {
            assert(b@.skip(i as int).len() == 0);
            return false;
        }
        let ca = a.get_char(i);
        let cb = b.get_char(i);
        if ca != cb {
            assert(a@.skip(i as int)[0] == ca && b@.skip(i as int)[0] == cb);
            return ca < cb;
        }
        i += 1;
    }
}

/// Strict lexicographic comparison of two segment lists, segment-wise.
pub fn segs_less(a: &Vec<String>, b: &Vec<String>) -> (r: bool)
    ensures
        r == segs_lt(a.deep_view(), b.deep_view()),
{
    let a_len = a.len();
    let b_len = b.len();
    let mut i: usize = 0;
    loop
        invariant
            a_len == a@.len(),
            b_len == b@.len(),
            a.deep_view().len() == a_len,
            b.deep_view().len() == b_len,
            i <= a_len,
            i <= b_len,
            forall|j: int| 0 <= j < i ==> a.deep_view()[j] == b.deep_view()[j],
        decreases a_len - i,
    {
        proof {
            lemma_segs_lt_common(a.deep_view(), b.deep_view(), i as int);
        }
        if i >= a_len {
            assert(a.deep_view().skip(i as int).len() == 0);
            return i < b_len;
        }
        if i >= b_len {
            assert(b.deep_view().skip(i as int).len() == 0);
            return false;
        }
        if !str_eq(a[i].as_str(), b[i].as_str()) {
            assert(a.deep_view().skip(i as int)[0] == a.deep_view()[i as int]);
            assert(b.deep_view().skip(i as int)[0] == b.deep_view()[i as int]);
            return chars_less(a[i].as_str(), b[i].as_str());
        }
        i += 1;
    }
}

} // verus!
