//! The directory scanner's computational half: given the files found
//! under a root, keep those with a recognized ebook extension, extract an
//! entry for each, and return the entries ordered case-insensitively by
//! title, ties keeping discovery order (a stable sort).
//!
//! Walking the filesystem itself is input/output and stays with the
//! caller, who hands in one [`FoundFile`] per regular file, or nothing at
//! all when the root directory does not exist.

use vstd::prelude::*;
use vstd::string::*;
use vstd::multiset::Multiset;

use crate::book::Book;
use crate::book::BookView;
use crate::extract::extract_view;
use crate::filename::ext_of;
use crate::filename::basename_exec;
use crate::filename::ext_exec;
use crate::text::lex_leq;
use crate::text::lower_seq;
use crate::text::lex_leq_exec;
use crate::text::lower_chars;
use crate::text::str_to_chars;

verus! {

/// One regular file found under the scanned root: its path, and the bytes
/// of its contents, or nothing when they could not be read.
pub struct FoundFile {
    pub path: String,
    pub bytes: Option<Vec<u8>>,
}

/// The mathematical shadow of a [`FoundFile`].
pub struct FoundFileView {
    pub path: Seq<char>,
    pub bytes: Option<Seq<u8>>,
}

impl View for FoundFile {
    type V = FoundFileView;

    open spec fn view(&self) -> FoundFileView {
        FoundFileView {
            path: self.path@,
            bytes: match self.bytes {
                Option::Some(b) => Option::Some(b@),
                Option::None => Option::None,
            },
        }
    }
}

/// A whole-scan failure.
#[derive(PartialEq, Eq, Structural, Debug)]
pub enum ScanError {
    /// The scanned root does not exist or could not be listed.
    DirectoryNotFound,
}

/// The recognized ebook extensions, compared after case folding.
pub open spec fn recognized_ext(e: Seq<char>) -> bool {
    ||| lower_seq(e) == seq!['e', 'p', 'u', 'b']
    ||| lower_seq(e) == seq!['m', 'o', 'b', 'i']
    ||| lower_seq(e) == seq!['a', 'z', 'w', '3']
    ||| lower_seq(e) == seq!['p', 'd', 'f']
}

/// Whether a path carries a recognized ebook extension.
pub open spec fn recognized_file(p: Seq<char>) -> bool {
    match ext_of(p) {
        Some(e) => recognized_ext(e),
        None => false,
    }
}

/// The entry the scanner keeps for one found file: none for an
/// unrecognized extension or a path without a stem.
pub open spec fn entry_of(f: FoundFileView) -> Option<BookView> {
    if recognized_file(f.path) {
        extract_view(f.path, f.bytes)
    } else {
        Option::None
    }
}

/// The entries of a file listing, in discovery order.
pub open spec fn entries_of(files: Seq<FoundFileView>) -> Seq<BookView>
    decreases files.len(),
{
    if files.len() == 0 {
        Seq::<BookView>::empty()
    } else {
        entries_of(files.drop_last()) + match entry_of(files.last()) {
            Some(b) => seq![b],
            None => Seq::<BookView>::empty(),
        }
    }
}

/// The ordering key of an entry: its title, folded to lowercase as
/// std's Unicode lowercasing does.
pub open spec fn key_of(b: BookView) -> Seq<char> {
    crate::text::lower_of(b.title)
}

/// A new entry placed after every held entry whose key is not greater:
/// the insertion step of a stable insertion sort.
pub open spec fn insert_sorted(x: BookView, s: Seq<BookView>) -> Seq<BookView>
    decreases s.len(),
{
    if s.len() > 0 && lex_leq(key_of(s[0]), key_of(x)) {
        seq![s[0]] + insert_sorted(x, s.drop_first())
    } else {
        seq![x] + s
    }
}

/// A stable insertion sort by entry key: the canonical display order.
pub open spec fn sort_books(s: Seq<BookView>) -> Seq<BookView>
    decreases s.len(),
{
    if s.len() == 0 {
        s
    } else {
        insert_sorted(s.last(), sort_books(s.drop_last()))
    }
}

/// The views of a sequence of books.
pub open spec fn views_of(s: Seq<Book>) -> Seq<BookView> {
    s.map_values(|b: Book| b@)
}

/// The views of a sequence of found files.
pub open spec fn file_views(s: Seq<FoundFile>) -> Seq<FoundFileView> {
    s.map_values(|f: FoundFile| f@)
}

/// A sequence sorted (non-strictly) by entry key.
pub open spec fn sorted_by_key(s: Seq<BookView>) -> bool {
    forall|i: int, j: int| 0 <= i < j < s.len() ==> lex_leq(key_of(s[i]), key_of(s[j]))
}

/// Where the insertion step places the new entry: after the longest
/// prefix of keys not greater than its own.
pub open spec fn insert_pos(x: BookView, s: Seq<BookView>) -> int
    decreases s.len(),
{
    if s.len() > 0 && lex_leq(key_of(s[0]), key_of(x)) {
        1 + insert_pos(x, s.drop_first())
    } else {
        0int
    }
}

/// The insertion step splits the held sequence at the insertion position
/// and puts the new entry in between.
pub proof fn lemma_insert_sorted_split(x: BookView, s: Seq<BookView>)
    ensures
        0 <= insert_pos(x, s) <= s.len(),
        insert_sorted(x, s) == s.take(insert_pos(x, s)) + seq![x] + s.skip(insert_pos(x, s)),
        forall|m: int| 0 <= m < insert_pos(x, s) ==> lex_leq(key_of(s[m]), key_of(x)),
        insert_pos(x, s) < s.len() ==> !lex_leq(key_of(s[insert_pos(x, s)]), key_of(x)),
    decreases s.len(),
{
    let p = insert_pos(x, s);
    if s.len() > 0 && lex_leq(key_of(s[0]), key_of(x)) {
        let t = s.drop_first();
        lemma_insert_sorted_split(x, t);
        let q = insert_pos(x, t);
        assert(seq![s[0]] + (t.take(q) + seq![x] + t.skip(q)) =~= s.take(q + 1) + seq![x] + s.skip(
            q + 1,
        ));
        assert(forall|m: int| 1 <= m < p ==> s[m] == t[m - 1]);
    } else {
        assert(s.take(0) + seq![x] + s.skip(0) =~= seq![x] + s);
    }
}

/// Inserting into a key-sorted sequence keeps it key-sorted.
pub proof fn lemma_insert_sorted_keeps_sorted(x: BookView, s: Seq<BookView>)
    requires
        sorted_by_key(s),
    ensures
        sorted_by_key(insert_sorted(x, s)),
{
    lemma_insert_sorted_split(x, s);
    let p = insert_pos(x, s);
    let r = insert_sorted(x, s);
    assert(forall|m: int| 0 <= m < p ==> r[m] == s[m]);
    assert(r[p] == x);
    assert(forall|m: int| p < m < r.len() ==> r[m] == s[m - 1]);
    assert forall|i: int, j: int| 0 <= i < j < r.len() implies lex_leq(
        key_of(r[i]),
        key_of(r[j]),
    ) by {
        if j == p {
            // r[j] is x; r[i] is s[i] with i < p
            assert(lex_leq(key_of(s[i]), key_of(x)));
        } else if i == p {
            // r[i] is x; r[j] is s[j - 1] with j - 1 >= p
            crate::text::lemma_lex_total(key_of(s[j - 1]), key_of(x));
            if p < s.len() && j - 1 > p {
                assert(lex_leq(key_of(s[p]), key_of(s[j - 1])));
                if lex_leq(key_of(s[j - 1]), key_of(x)) {
                    crate::text::lemma_lex_trans(key_of(s[p]), key_of(s[j - 1]), key_of(x));
                    assert(false);
                }
            }
        }
    }
}

/// The insertion step adds exactly the new entry to the held multiset.
pub proof fn lemma_insert_sorted_multiset(x: BookView, s: Seq<BookView>)
    ensures
        insert_sorted(x, s).to_multiset() == s.to_multiset().insert(x),
{
    broadcast use vstd::seq_lib::group_to_multiset_ensures;

    lemma_insert_sorted_split(x, s);
    let p = insert_pos(x, s);
    vstd::seq_lib::lemma_multiset_commutative(s.take(p) + seq![x], s.skip(p));
    vstd::seq_lib::lemma_multiset_commutative(s.take(p), seq![x]);
    vstd::seq_lib::lemma_multiset_commutative(s.take(p), s.skip(p));
    assert(s.take(p) + s.skip(p) =~= s);
    assert(seq![x].to_multiset() =~= Multiset::<BookView>::empty().insert(x)) by {
        assert(seq![x] =~= Seq::<BookView>::empty().push(x));
    }
    assert(insert_sorted(x, s).to_multiset() =~= s.to_multiset().insert(x));
}

/// The canonical order is indeed sorted: case-insensitively by title.
pub proof fn lemma_sort_books_sorted(s: Seq<BookView>)
    ensures
        sorted_by_key(sort_books(s)),
    decreases s.len(),
{
    if s.len() > 0 {
        lemma_sort_books_sorted(s.drop_last());
        lemma_insert_sorted_keeps_sorted(s.last(), sort_books(s.drop_last()));
    }
}

/// The canonical order is a permutation: sorting neither loses nor
/// invents entries.
pub proof fn lemma_sort_books_permutes(s: Seq<BookView>)
    ensures
        sort_books(s).to_multiset() == s.to_multiset(),
        sort_books(s).len() == s.len(),
    decreases s.len(),
{
    broadcast use vstd::seq_lib::group_to_multiset_ensures;

    if s.len() > 0 {
        lemma_sort_books_permutes(s.drop_last());
        lemma_insert_sorted_multiset(s.last(), sort_books(s.drop_last()));
        assert(s.drop_last().push(s.last()) =~= s);
        assert(s.drop_last().push(s.last()).to_multiset() =~= s.drop_last().to_multiset().insert(
            s.last(),
        ));
        assert(sort_books(s).to_multiset().len() == s.to_multiset().len());
        assert(sort_books(s).len() == sort_books(s).to_multiset().len());
        assert(s.len() == s.to_multiset().len());
    }
}

proof fn lemma_filter_all_false(s: Seq<BookView>, pred: spec_fn(BookView) -> bool)
    requires
        forall|i: int| 0 <= i < s.len() ==> !pred(s[i]),
    ensures
        s.filter(pred) == Seq::<BookView>::empty(),
    decreases s.len(),
{
    reveal(Seq::filter);
    if s.len() > 0 {
        lemma_filter_all_false(s.drop_last(), pred);
        assert(!pred(s.last()));
    }
}

proof fn lemma_filter_single(x: BookView, pred: spec_fn(BookView) -> bool)
    ensures
        pred(x) ==> seq![x].filter(pred) == seq![x],
        !pred(x) ==> seq![x].filter(pred) == Seq::<BookView>::empty(),
{
    reveal(Seq::filter);
    assert(seq![x].drop_last() =~= Seq::<BookView>::empty());
    assert(seq![x].last() == x);
    assert(Seq::<BookView>::empty().filter(pred) == Seq::<BookView>::empty());
    assert(Seq::<BookView>::empty().push(x) =~= seq![x]);
}

proof fn lemma_insert_sorted_filter(x: BookView, s: Seq<BookView>, k: Seq<char>)
    requires
        sorted_by_key(s),
    ensures
        key_of(x) == k ==> insert_sorted(x, s).filter(|b: BookView| key_of(b) == k) == s.filter(
            |b: BookView| key_of(b) == k,
        ).push(x),
        key_of(x) != k ==> insert_sorted(x, s).filter(|b: BookView| key_of(b) == k) == s.filter(
            |b: BookView| key_of(b) == k,
        ),
{
    let pred = |b: BookView| key_of(b) == k;
    lemma_insert_sorted_split(x, s);
    let p = insert_pos(x, s);
    Seq::filter_distributes_over_add(s.take(p) + seq![x], s.skip(p), pred);
    Seq::filter_distributes_over_add(s.take(p), seq![x], pred);
    Seq::filter_distributes_over_add(s.take(p), s.skip(p), pred);
    assert(s.take(p) + s.skip(p) =~= s);
    lemma_filter_single(x, pred);
    if key_of(x) == k {
        // no held entry with this key stands behind the insertion point
        assert forall|m: int| 0 <= m < s.skip(p).len() implies !pred(s.skip(p)[m]) by {
            assert(s.skip(p)[m] == s[p + m]);
            if pred(s[p + m]) {
                assert(lex_leq(key_of(s[p]), key_of(s[p + m]))) by {
                    if m > 0 {
                        assert(lex_leq(key_of(s[p]), key_of(s[p + m])));
                    } else {
                        crate::text::lemma_lex_total(key_of(s[p]), key_of(s[p]));
                    }
                }
                assert(!lex_leq(key_of(s[p]), key_of(x)));
            }
        }
        lemma_filter_all_false(s.skip(p), pred);
        assert((s.take(p) + seq![x] + s.skip(p)).filter(pred) =~= s.filter(pred).push(x));
    } else {
        assert((s.take(p) + seq![x] + s.skip(p)).filter(pred) =~= s.filter(pred));
    }
}

/// The canonical order is stable: among the entries sharing any one
/// ordering key, it keeps the discovery order exactly.
pub proof fn lemma_sort_books_stable(s: Seq<BookView>, k: Seq<char>)
    ensures
        sort_books(s).filter(|b: BookView| key_of(b) == k) == s.filter(
            |b: BookView| key_of(b) == k,
        ),
    decreases s.len(),
{
    reveal(Seq::filter);
    let pred = |b: BookView| key_of(b) == k;
    if s.len() > 0 {
        lemma_sort_books_stable(s.drop_last(), k);
        lemma_sort_books_sorted(s.drop_last());
        lemma_insert_sorted_filter(s.last(), sort_books(s.drop_last()), k);
        if key_of(s.last()) == k {
            assert(s.filter(pred) == s.drop_last().filter(pred).push(s.last()));
        } else {
            assert(s.filter(pred) == s.drop_last().filter(pred));
        }
    }
}

/// Whether the path carries a recognized ebook extension.
pub(crate) fn recognized_file_exec(path_chars: &Vec<char>) -> (r: bool)
    ensures
        r == recognized_file(path_chars@),
{
    let base = basename_exec(path_chars);
    match ext_exec(&base) {
        Some(e) => {
            let l = lower_chars(&e);
            crate::text::chars_eq4(&l, 'e', 'p', 'u', 'b') || crate::text::chars_eq4(
                &l,
                'm',
                'o',
                'b',
                'i',
            ) || crate::text::chars_eq4(&l, 'a', 'z', 'w', '3') || crate::text::chars_eq3(
                &l,
                'p',
                'd',
                'f',
            )
        },
        None => false,
    }
}

/// The case-folded title of a book: its ordering key.
fn title_key(b: &Book) -> (r: Vec<char>)
    ensures
        r@ == key_of(b@),
{
    let lowered = crate::text::to_lowercase_str(b.title.as_str());
    str_to_chars(lowered.as_str())
}

fn insert_book(v: &mut Vec<Book>, x: Book)
    ensures
        views_of(final(v)@) == insert_sorted(x@, views_of(old(v)@)),
{
    let xk = title_key(&x);
    let ghost s = views_of(v@);
    let mut j: usize = 0;
    loop
        invariant_except_break
            j <= v@.len(),
            s == views_of(v@),
            xk@ == key_of(x@),
            forall|m: int| 0 <= m < j ==> lex_leq(key_of(s[m]), key_of(x@)),
        ensures
            j <= v@.len(),
            s == views_of(v@),
            forall|m: int| 0 <= m < j ==> lex_leq(key_of(s[m]), key_of(x@)),
            j < v@.len() ==> !lex_leq(key_of(s[j as int]), key_of(x@)),
        decreases v@.len() - j,
    {
        if j == v.len() {
            break;
        }
        proof {
            assert(s[j as int] == v@[j as int]@);
        }
        let k = title_key(&v[j]);
        proof {
            assert(k@ == key_of(s[j as int]));
        }
        if !lex_leq_exec(&k, &xk) {
            break;
        }
        j = j + 1;
    }
    proof {
        lemma_insert_sorted_split(x@, s);
        let p = insert_pos(x@, s);
        if p < j {
            assert(lex_leq(key_of(s[p]), key_of(x@)));
            assert(false);
        }
        if j < p {
            assert(lex_leq(key_of(s[j as int]), key_of(x@)));
            assert(false);
        }
    }
    v.insert(j, x);
    proof {
        assert(views_of(v@) =~= s.take(j as int) + seq![x@] + s.skip(j as int));
    }
}

/// Sort entries by the canonical order: case-insensitively by title,
/// entries with equal keys keeping their relative order.
pub fn sort_books_exec(v: Vec<Book>) -> (r: Vec<Book>)
    ensures
        views_of(r@) == sort_books(views_of(v@)),
{
    let ghost orig = v@;
    let mut rest = v;
    let mut out: Vec<Book> = Vec::new();
    proof {
        assert(views_of(Seq::<Book>::empty()) =~= Seq::<BookView>::empty());
        assert(views_of(orig.take(0)) =~= Seq::<BookView>::empty());
        assert(orig.skip(0) =~= orig);
    }
    let ghost i: int = 0;
    while rest.len() > 0
        invariant
            0 <= i <= orig.len(),
            rest@ == orig.skip(i),
            views_of(out@) == sort_books(views_of(orig.take(i))),
        decreases rest@.len(),
    {
        let x = rest.remove(0);
        proof {
            assert(orig.skip(i).remove(0) =~= orig.skip(i + 1));
            assert(x == orig[i]);
        }
        insert_book(&mut out, x);
        proof {
            let t = views_of(orig.take(i + 1));
            assert(orig.take(i + 1).drop_last() =~= orig.take(i));
            assert(t.drop_last() =~= views_of(orig.take(i)));
            assert(t.last() == orig[i]@);
            assert(sort_books(t) == insert_sorted(orig[i]@, sort_books(views_of(orig.take(i)))));
        }
        proof {
            i = i + 1;
        }
    }
    proof {
        assert(orig.take(orig.len() as int) =~= orig);
    }
    out
}

impl Book {
    /// Assemble the scan result from the files found under a root.
    /// `None` stands for a root that does not exist: the scan fails with
    /// [`ScanError::DirectoryNotFound`] and yields no entries. Otherwise
    /// every recognized file contributes its extracted entry, and the
    /// result is the canonical stable order.
    pub fn from_dir(listing: Option<Vec<FoundFile>>) -> (r: Result<Vec<Book>, ScanError>)
        ensures
            listing is None ==> r == Err::<Vec<Book>, ScanError>(ScanError::DirectoryNotFound),
            listing is Some ==> r is Ok && views_of(r->Ok_0@) == sort_books(
                entries_of(file_views(listing->0@)),
            ),
    {
        let files = match listing {
            Some(f) => f,
            None => {
                return Err(ScanError::DirectoryNotFound);
            },
        };
        let mut found: Vec<Book> = Vec::new();
        let mut i: usize = 0;
        proof {
            assert(file_views(files@.take(0)) =~= Seq::<FoundFileView>::empty());
            assert(views_of(found@) =~= Seq::<BookView>::empty());
        }
        while i < files.len()
            invariant
                i <= files@.len(),
                views_of(found@) == entries_of(file_views(files@.take(i as int))),
            decreases files@.len() - i,
        {
            let ghost pre = views_of(found@);
            let f = &files[i];
            let path_chars = str_to_chars(f.path.as_str());
            if recognized_file_exec(&path_chars) {
                match Book::extract(f.path.as_str(), f.bytes.as_ref()) {
                    Some(b) => {
                        found.push(b);
                    },
                    None => {},
                }
            }
            proof {
                let fs = file_views(files@.take(i + 1));
                assert(files@.take(i + 1).drop_last() =~= files@.take(i as int));
                assert(fs.drop_last() =~= file_views(files@.take(i as int)));
                assert(fs.last() == files@[i as int]@);
                match entry_of(files@[i as int]@) {
                    Some(b) => {
                        assert(views_of(found@) =~= pre.push(b));
                        assert(entries_of(fs) =~= entries_of(fs.drop_last()) + seq![b]);
                    },
                    None => {
                        assert(entries_of(fs) =~= entries_of(fs.drop_last()));
                    },
                }
            }
            i = i + 1;
        }
        proof {
            assert(files@.take(files@.len() as int) =~= files@);
        }
        Ok(sort_books_exec(found))
    }
}

} // verus!
