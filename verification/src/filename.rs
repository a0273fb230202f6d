//! The filename parser: a path's basename, stem and extension, and the
//! best-guess title/author pair derived from a stem.
//!
//! The path model is deliberately simple: the basename is everything after
//! the last `'/'`, and the stem/extension split is at the last `'.'` of the
//! basename, provided that dot is not its leading character. A path whose
//! basename is empty has no stem.

use vstd::prelude::*;

use crate::text::subst_underscores;
use crate::text::subvec;
use crate::text::trim_exec;
use crate::text::trim_spec;
use crate::text::subst_underscores_exec;

verus! {

/// The part of a path after its last slash.
pub open spec fn basename_of(p: Seq<char>) -> Seq<char>
    decreases p.len(),
{
    if p.len() == 0 {
        p
    } else if p.last() == '/' {
        Seq::<char>::empty()
    } else {
        basename_of(p.drop_last()).push(p.last())
    }
}

/// The index of the dot that splits a basename into stem and extension:
/// its last dot, provided that dot is not the leading character.
pub open spec fn dot_split(b: Seq<char>) -> Option<int>
    decreases b.len(),
{
    if b.len() <= 1 {
        None::<int>
    } else if b.last() == '.' {
        Some(b.len() - 1)
    } else {
        dot_split(b.drop_last())
    }
}

/// The stem of a basename: what precedes the extension dot, or the whole
/// basename when there is no extension.
pub open spec fn stem_of_basename(b: Seq<char>) -> Seq<char> {
    match dot_split(b) {
        Some(i) => b.take(i),
        None => b,
    }
}

/// The extension of a basename, without its dot.
pub open spec fn ext_of_basename(b: Seq<char>) -> Option<Seq<char>> {
    match dot_split(b) {
        Some(i) => Some(b.skip(i + 1)),
        None => None::<Seq<char>>,
    }
}

/// The stem of a whole path.
pub open spec fn stem_of(p: Seq<char>) -> Seq<char> {
    stem_of_basename(basename_of(p))
}

/// The extension of a whole path.
pub open spec fn ext_of(p: Seq<char>) -> Option<Seq<char>> {
    ext_of_basename(basename_of(p))
}

/// Whether a path has a stem to parse: its basename is non-empty.
pub open spec fn has_stem(p: Seq<char>) -> bool {
    basename_of(p).len() > 0
}

/// The title/author separator: space, hyphen, space.
pub open spec fn sep_seq() -> Seq<char> {
    seq![' ', '-', ' ']
}

/// Whether the separator occurs in `s` at offset `i`.
pub open spec fn has_sep_at(s: Seq<char>, i: int) -> bool {
    0 <= i && i + 3 <= s.len() && s.subrange(i, i + 3) == sep_seq()
}

/// The offset of the first occurrence of the separator, if any.
pub open spec fn find_sep(s: Seq<char>) -> Option<int>
    decreases s.len(),
{
    if s.len() < 3 {
        None::<int>
    } else if s.take(3) == sep_seq() {
        Some(0int)
    } else {
        match find_sep(s.drop_first()) {
            Some(i) => Some(i + 1),
            None => None::<int>,
        }
    }
}

/// The author used when the filename names none.
pub open spec fn unknown_seq() -> Seq<char> {
    seq!['U', 'n', 'k', 'n', 'o', 'w', 'n']
}

/// What the filename parser yields for a stem. With a separator, the text
/// before it is the title and the text after it the author, both trimmed;
/// without one, the whole stem is the title and the author is "Unknown".
/// Underscores in either output become spaces. A side of the separator
/// that trims to nothing falls back — the title to the whole stem, the
/// author to "Unknown" — so that neither output is ever empty.
pub open spec fn parse_spec(stem: Seq<char>) -> (Seq<char>, Seq<char>) {
    match find_sep(stem) {
        Some(i) => (
            if trim_spec(stem.take(i)).len() == 0 {
                subst_underscores(stem)
            } else {
                subst_underscores(trim_spec(stem.take(i)))
            },
            if trim_spec(stem.skip(i + 3)).len() == 0 {
                unknown_seq()
            } else {
                subst_underscores(trim_spec(stem.skip(i + 3)))
            },
        ),
        None => (subst_underscores(stem), unknown_seq()),
    }
}

/// Neither parsed output is empty when the stem is not: the title falls
/// back to the whole stem and the author to "Unknown".
pub proof fn lemma_parse_nonempty(stem: Seq<char>)
    requires
        stem.len() > 0,
    ensures
        parse_spec(stem).0.len() > 0,
        parse_spec(stem).1.len() > 0,
{
}

/// A stem built as `title - author`, where the title holds no separator
/// of its own, does not end in `" -"`, and neither side trims to nothing,
/// parses into exactly that title and that author, each trimmed and with
/// underscores become spaces.
pub proof fn lemma_parse_with_separator(t: Seq<char>, a: Seq<char>)
    requires
        forall|j: int| !has_sep_at(t, j),
        !(t.len() >= 2 && t[t.len() - 2] == ' ' && t[t.len() - 1] == '-'),
        trim_spec(t).len() > 0,
        trim_spec(a).len() > 0,
    ensures
        parse_spec(t + sep_seq() + a) == (
            subst_underscores(trim_spec(t)),
            subst_underscores(trim_spec(a)),
        ),
{
    let s = t + sep_seq() + a;
    let n = t.len() as int;
    assert(s.subrange(n, n + 3) =~= sep_seq());
    assert(has_sep_at(s, n));
    assert forall|j: int| 0 <= j < n implies !has_sep_at(s, j) by {
        if has_sep_at(s, j) {
            if j + 3 <= n {
                assert(t.subrange(j, j + 3) =~= s.subrange(j, j + 3));
                assert(has_sep_at(t, j));
            } else if j == n - 2 {
                assert(s.subrange(j, j + 3)[0] == t[n - 2]);
                assert(s.subrange(j, j + 3)[1] == t[n - 1]);
                assert(t[n - 2] == ' ' && t[n - 1] == '-');
            } else {
                assert(j == n - 1);
                assert(s.subrange(j, j + 3)[1] == sep_seq()[0]);
                assert(s.subrange(j, j + 3)[2] == sep_seq()[1]);
                assert(' ' == '-');
            }
        }
    }
    lemma_find_sep_char(s);
    match find_sep(s) {
        Some(f) => {
            assert(!(f < n) && !(n < f));
            assert(s.take(n) =~= t);
            assert(s.skip(n + 3) =~= a);
        },
        None => {
            assert(false);
        },
    }
}

/// A stem without the separator parses into itself as the title, with
/// underscores become spaces, and the author "Unknown".
pub proof fn lemma_parse_no_separator(stem: Seq<char>)
    requires
        forall|j: int| !has_sep_at(stem, j),
    ensures
        parse_spec(stem) == (subst_underscores(stem), unknown_seq()),
{
    lemma_find_sep_char(stem);
    match find_sep(stem) {
        Some(f) => {
            assert(has_sep_at(stem, f));
            assert(false);
        },
        None => {},
    }
}

proof fn lemma_dot_split_bounds(b: Seq<char>)
    ensures
        match dot_split(b) {
            Some(i) => 1 <= i < b.len(),
            None => true,
        },
    decreases b.len(),
{
    if b.len() > 1 && b.last() != '.' {
        lemma_dot_split_bounds(b.drop_last());
    }
}

/// A non-empty basename has a non-empty stem.
pub proof fn lemma_stem_nonempty(b: Seq<char>)
    requires
        b.len() > 0,
    ensures
        stem_of_basename(b).len() > 0,
{
    lemma_dot_split_bounds(b);
}

proof fn lemma_basename_suffix(p: Seq<char>, k: int)
    requires
        0 <= k <= p.len(),
        k > 0 ==> p[k - 1] == '/',
        forall|j: int| k <= j < p.len() ==> p[j] != '/',
    ensures
        basename_of(p) == p.skip(k),
    decreases p.len(),
{
    if k == p.len() {
        if p.len() == 0 {
            assert(p.skip(k) =~= p);
        } else {
            assert(p.last() == '/');
            assert(p.skip(k) =~= Seq::<char>::empty());
        }
    } else {
        assert(p.last() != '/');
        let q = p.drop_last();
        assert(forall|j: int| k <= j < q.len() ==> q[j] == p[j] && p[j] != '/');
        lemma_basename_suffix(q, k);
        assert(q.skip(k).push(p.last()) =~= p.skip(k));
    }
}

/// The basename of a path: the characters after its last slash.
pub(crate) fn basename_exec(p: &Vec<char>) -> (r: Vec<char>)
    ensures
        r@ == basename_of(p@),
{
    let mut k: usize = p.len();
    while k > 0 && p[k - 1] != '/'
        invariant
            k <= p.len(),
            forall|j: int| k <= j < p@.len() ==> p@[j] != '/',
        decreases k,
    {
        k = k - 1;
    }
    proof {
        lemma_basename_suffix(p@, k as int);
    }
    subvec(p, k, p.len())
}

/// The stem of a non-empty basename.
pub(crate) fn stem_exec(b: &Vec<char>) -> (r: Vec<char>)
    ensures
        r@ == stem_of_basename(b@),
{
    let mut j: usize = b.len();
    proof {
        assert(b@.take(b@.len() as int) =~= b@);
    }
    while j > 1 && b[j - 1] != '.'
        invariant
            j <= b.len(),
            dot_split(b@) == dot_split(b@.take(j as int)),
        decreases j,
    {
        proof {
            let t = b@.take(j as int);
            assert(t.last() == b@[j - 1]);
            assert(t.drop_last() =~= b@.take(j - 1));
        }
        j = j - 1;
    }
    if j > 1 {
        proof {
            let t = b@.take(j as int);
            assert(t.last() == b@[j - 1]);
            assert(dot_split(b@) == Some(j - 1));
        }
        subvec(b, 0, j - 1)
    } else {
        proof {
            assert(dot_split(b@.take(j as int)) is None);
        }
        subvec(b, 0, b.len())
    }
}

/// The extension of a basename, without its dot; `None` when it has none.
pub(crate) fn ext_exec(b: &Vec<char>) -> (r: Option<Vec<char>>)
    ensures
        match r {
            Some(e) => ext_of_basename(b@) == Some(e@),
            None => ext_of_basename(b@) is None,
        },
{
    let mut j: usize = b.len();
    proof {
        assert(b@.take(b@.len() as int) =~= b@);
    }
    while j > 1 && b[j - 1] != '.'
        invariant
            j <= b.len(),
            dot_split(b@) == dot_split(b@.take(j as int)),
        decreases j,
    {
        proof {
            let t = b@.take(j as int);
            assert(t.last() == b@[j - 1]);
            assert(t.drop_last() =~= b@.take(j - 1));
        }
        j = j - 1;
    }
    if j > 1 {
        proof {
            let t = b@.take(j as int);
            assert(t.last() == b@[j - 1]);
            assert(dot_split(b@) == Some(j - 1));
            assert(b@.subrange(j as int, b@.len() as int) =~= b@.skip(j as int));
        }
        Some(subvec(b, j, b.len()))
    } else {
        proof {
            assert(dot_split(b@.take(j as int)) is None);
        }
        None
    }
}

proof fn lemma_find_sep_char(s: Seq<char>)
    ensures
        match find_sep(s) {
            Some(i) => has_sep_at(s, i) && (forall|j: int| 0 <= j < i ==> !has_sep_at(s, j)),
            None => forall|j: int| !has_sep_at(s, j),
        },
    decreases s.len(),
{
    if s.len() >= 3 && s.take(3) != sep_seq() {
        let t = s.drop_first();
        lemma_find_sep_char(t);
        assert(forall|j: int|
            0 <= j && j + 3 <= t.len() ==> #[trigger] t.subrange(j, j + 3) =~= s.subrange(
                j + 1,
                j + 4,
            ));
        assert(forall|j: int| 1 <= j ==> (#[trigger] has_sep_at(s, j) <==> has_sep_at(t, j - 1)));
        assert(s.subrange(0, 3) =~= s.take(3));
        assert(!has_sep_at(s, 0));
        match find_sep(t) {
            Some(i) => {
                assert(has_sep_at(s, i + 1));
            },
            None => {},
        }
    } else if s.len() >= 3 {
        assert(s.subrange(0, 3) =~= s.take(3));
        assert(has_sep_at(s, 0));
    }
}

/// The offset of the first occurrence of the separator in `s`, if any.
pub(crate) fn find_sep_exec(s: &Vec<char>) -> (r: Option<usize>)
    ensures
        match r {
            Some(i) => find_sep(s@) == Some(i as int),
            None => find_sep(s@) is None,
        },
{
    proof {
        lemma_find_sep_char(s@);
    }
    if s.len() < 3 {
        return None;
    }
    let mut i: usize = 0;
    while i <= s.len() - 3
        invariant
            3 <= s.len(),
            i + 3 <= s.len() + 1,
            forall|j: int| 0 <= j < i ==> !has_sep_at(s@, j),
        decreases s.len() - i,
    {
        if s[i] == ' ' && s[i + 1] == '-' && s[i + 2] == ' ' {
            proof {
                assert(s@.subrange(i as int, i + 3) =~= sep_seq());
                assert(has_sep_at(s@, i as int));
                lemma_find_sep_char(s@);
                match find_sep(s@) {
                    Some(f) => {
                        assert(!(f < i));
                        assert(!(i < f));
                    },
                    None => {
                        assert(false);
                    },
                }
            }
            return Some(i);
        }
        proof {
            if has_sep_at(s@, i as int) {
                assert(s@.subrange(i as int, i + 3)[0] == s@[i as int]);
                assert(s@.subrange(i as int, i + 3)[1] == s@[i + 1]);
                assert(s@.subrange(i as int, i + 3)[2] == s@[i + 2]);
                assert(false);
            }
        }
        i = i + 1;
    }
    proof {
        match find_sep(s@) {
            Some(f) => {
                assert(!has_sep_at(s@, f));
                assert(false);
            },
            None => {},
        }
    }
    None
}

/// Parse a stem into its title and author character sequences.
pub(crate) fn parse_stem_chars(stem: &Vec<char>) -> (r: (Vec<char>, Vec<char>))
    ensures
        r.0@ == parse_spec(stem@).0,
        r.1@ == parse_spec(stem@).1,
{
    match find_sep_exec(stem) {
        Some(i) => {
            let n = stem.len();
            proof {
                lemma_find_sep_char(stem@);
                assert(has_sep_at(stem@, i as int));
                assert(i + 3 <= n);
            }
            let before = subvec(stem, 0, i);
            let after = subvec(stem, i + 3, n);
            proof {
                assert(stem@.subrange(0, i as int) =~= stem@.take(i as int));
                assert(stem@.subrange(i + 3, stem@.len() as int) =~= stem@.skip(i + 3));
            }
            let tb = trim_exec(&before);
            let title = if tb.len() == 0 {
                subst_underscores_exec(stem)
            } else {
                subst_underscores_exec(&tb)
            };
            let ta = trim_exec(&after);
            let author = if ta.len() == 0 {
                unknown_chars()
            } else {
                subst_underscores_exec(&ta)
            };
            (title, author)
        },
        None => {
            let title = subst_underscores_exec(stem);
            (title, unknown_chars())
        },
    }
}

/// The characters of the fallback author "Unknown".
pub(crate) fn unknown_chars() -> (r: Vec<char>)
    ensures
        r@ == unknown_seq(),
{
    let mut v: Vec<char> = Vec::new();
    v.push('U');
    v.push('n');
    v.push('k');
    v.push('n');
    v.push('o');
    v.push('w');
    v.push('n');
    proof {
        assert(v@ =~= unknown_seq());
    }
    v
}

} // verus!
