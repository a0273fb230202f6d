//! The in-memory library collection: file-backed entries deduplicated by
//! source path, with a strict single add and a tolerant batch merge.
//! Entries without a backing file have no identity and never collide.

use vstd::prelude::*;

use crate::book::Book;
use crate::book::BookView;
use crate::scan::views_of;

verus! {

/// A failure of the strict single-add path.
#[derive(PartialEq, Eq, Structural, Debug)]
pub enum AddError {
    /// An entry with the same source path is already held.
    DuplicatePath,
    /// The given path has no stem to derive a title from.
    NoStem,
}

/// Whether some held entry has this source path.
pub open spec fn has_path(s: Seq<BookView>, p: Option<Seq<char>>) -> bool {
    exists|i: int| 0 <= i < s.len() && s[i].path == p
}

/// Whether an entry with this path collides with a held one: only
/// file-backed entries, whose path is present, have an identity to
/// collide on.
pub open spec fn dup_path(s: Seq<BookView>, p: Option<Seq<char>>) -> bool {
    p is Some && has_path(s, p)
}

/// No two file-backed held entries share a source path.
pub open spec fn distinct_paths(s: Seq<BookView>) -> bool {
    forall|i: int, j: int|
        0 <= i < j < s.len() && s[i].path is Some && s[j].path is Some ==> s[i].path != s[j].path
}

/// What a tolerant batch merge yields: incoming entries in order, each
/// kept unless an entry with its (present) source path is already there.
pub open spec fn merge_spec(held: Seq<BookView>, incoming: Seq<BookView>) -> Seq<BookView>
    decreases incoming.len(),
{
    if incoming.len() == 0 {
        held
    } else {
        let rest = merge_spec(held, incoming.drop_last());
        if dup_path(rest, incoming.last().path) {
            rest
        } else {
            rest.push(incoming.last())
        }
    }
}

/// The source paths of the file-backed entries, as a set.
pub open spec fn path_set(s: Seq<BookView>) -> Set<Seq<char>>
    decreases s.len(),
{
    if s.len() == 0 {
        Set::<Seq<char>>::empty()
    } else {
        match s.last().path {
            Some(p) => path_set(s.drop_last()).insert(p),
            None => path_set(s.drop_last()),
        }
    }
}

/// How many entries of a batch have no backing file.
pub open spec fn pathless_count(s: Seq<BookView>) -> int
    decreases s.len(),
{
    if s.len() == 0 {
        0int
    } else {
        pathless_count(s.drop_last()) + if s.last().path is None {
            1int
        } else {
            0int
        }
    }
}

/// The collection holding the library's entries.
pub struct App {
    books: Vec<Book>,
}

impl View for App {
    type V = Seq<BookView>;

    closed spec fn view(&self) -> Seq<BookView> {
        views_of(self.books@)
    }
}

impl App {
    /// The collection's invariant: file-backed held entries have
    /// pairwise distinct source paths.
    pub open spec fn wf(self) -> bool {
        distinct_paths(self@)
    }

    /// An empty collection.
    pub fn new() -> (r: App)
        ensures
            r@ == Seq::<BookView>::empty(),
            r.wf(),
    {
        let r = App { books: Vec::new() };
        proof {
            assert(r@ =~= Seq::<BookView>::empty());
        }
        r
    }

    /// The held entries, in insertion order.
    pub fn books(&self) -> (r: &Vec<Book>)
        ensures
            views_of(r@) == self@,
    {
        &self.books
    }

    fn contains_path(&self, p: &Option<String>) -> (r: bool)
        ensures
            r == dup_path(
                self@,
                match p {
                    Option::Some(q) => Option::Some(q@),
                    Option::None => Option::None,
                },
            ),
    {
        let ghost pv: Option<Seq<char>> = match p {
            Option::Some(q) => Option::Some(q@),
            Option::None => Option::None,
        };
        let mut i: usize = 0;
        while i < self.books.len()
            invariant
                i <= self.books@.len(),
                pv == (match p {
                    Option::Some(q) => Option::Some(q@),
                    Option::None => Option::None,
                }),
                pv is Some ==> forall|m: int| 0 <= m < i ==> views_of(self.books@)[m].path != pv,
            decreases self.books@.len() - i,
        {
            let same = match (&self.books[i].path, p) {
                (Some(a), Some(b)) => *a == *b,
                _ => false,
            };
            proof {
                assert(views_of(self.books@)[i as int] == self.books@[i as int]@);
            }
            if same {
                proof {
                    assert(self.books@[i as int]@.path == pv);
                    assert(self@[i as int].path == pv);
                }
                return true;
            }
            i = i + 1;
        }
        false
    }

    /// Strictly add one entry: refused with [`AddError::DuplicatePath`],
    /// and the collection left unchanged, exactly when the entry is
    /// file-backed and one with the same source path is already held;
    /// appended otherwise.
    pub fn add_one(&mut self, b: Book) -> (r: Result<(), AddError>)
        ensures
            dup_path(old(self)@, b@.path) ==> r == Err::<(), AddError>(AddError::DuplicatePath)
                && final(self)@ == old(self)@,
            !dup_path(old(self)@, b@.path) ==> r == Ok::<(), AddError>(()) && final(self)@ == old(
                self,
            )@.push(b@),
            old(self).wf() ==> final(self).wf(),
    {
        if self.contains_path(&b.path) {
            return Err(AddError::DuplicatePath);
        }
        let ghost pre = self.books@;
        self.books.push(b);
        proof {
            assert(views_of(self.books@) =~= views_of(pre).push(b@));
            if distinct_paths(views_of(pre)) {
                let s = views_of(self.books@);
                assert forall|i: int, j: int|
                    0 <= i < j < s.len() && s[i].path is Some && s[j].path is Some implies s[i].path
                    != s[j].path by {
                    if j == s.len() - 1 {
                        assert(!dup_path(views_of(pre), b@.path));
                        assert(s[i] == views_of(pre)[i]);
                    }
                }
            }
        }
        Ok(())
    }

    /// Tolerantly merge a batch of entries: each incoming file-backed
    /// entry is kept only when no entry with its source path is already
    /// held, in batch order; such duplicates are dropped silently, and
    /// entries without a backing file are always kept.
    pub fn add_many(&mut self, bs: Vec<Book>)
        ensures
            final(self)@ == merge_spec(old(self)@, views_of(bs@)),
            old(self).wf() ==> final(self).wf(),
    {
        let ghost held = self@;
        let ghost incoming = views_of(bs@);
        let mut rest = bs;
        let ghost i: int = 0;
        proof {
            assert(incoming.take(0) =~= Seq::<BookView>::empty());
            assert(merge_spec(held, incoming.take(0)) == held);
            assert(rest@ =~= bs@.skip(0));
        }
        while rest.len() > 0
            invariant
                0 <= i <= incoming.len(),
                incoming == views_of(bs@),
                rest@ == bs@.skip(i),
                self@ == merge_spec(held, incoming.take(i)),
            decreases rest@.len(),
        {
            let x = rest.remove(0);
            proof {
                assert(bs@.skip(i).remove(0) =~= bs@.skip(i + 1));
                assert(x == bs@[i]);
            }
            let dup = self.contains_path(&x.path);
            let ghost pre = self.books@;
            if !dup {
                self.books.push(x);
            }
            proof {
                let t = incoming.take(i + 1);
                assert(t.drop_last() =~= incoming.take(i));
                assert(t.last() == bs@[i]@);
                if !dup {
                    assert(views_of(self.books@) =~= views_of(pre).push(bs@[i]@));
                }
                assert(self@ == merge_spec(held, t));
                i = i + 1;
            }
        }
        proof {
            assert(incoming.take(incoming.len() as int) =~= incoming);
            if distinct_paths(held) {
                lemma_merge_wf(held, incoming);
            }
        }
    }

    /// The strict user action behind "add this one file": parse the path
    /// into an entry and add it, surfacing a missing stem or a duplicate.
    pub fn add_book_from_path(&mut self, path: &str) -> (r: Result<(), AddError>)
        ensures
            !crate::filename::has_stem(path@) ==> r == Err::<(), AddError>(AddError::NoStem)
                && final(self)@ == old(self)@,
            crate::filename::has_stem(path@) && has_path(old(self)@, Some(path@)) ==> r == Err::<
                (),
                AddError,
            >(AddError::DuplicatePath) && final(self)@ == old(self)@,
            crate::filename::has_stem(path@) && !has_path(old(self)@, Some(path@)) ==> r == Ok::<
                (),
                AddError,
            >(()) && final(self)@ == old(self)@.push(
                BookView {
                    title: crate::filename::parse_spec(crate::filename::stem_of(path@)).0,
                    author: crate::filename::parse_spec(crate::filename::stem_of(path@)).1,
                    path: Some(path@),
                },
            ),
            old(self).wf() ==> final(self).wf(),
    {
        match Book::from_filename(path) {
            Some(b) => self.add_one(b),
            None => Err(AddError::NoStem),
        }
    }
}

impl Default for App {
    /// An empty collection.
    fn default() -> (r: App)
        ensures
            r@ == Seq::<BookView>::empty(),
            r.wf(),
    {
        App::new()
    }
}

/// Merging holds an entry's path exactly when one side held it.
pub proof fn lemma_merge_paths(held: Seq<BookView>, incoming: Seq<BookView>)
    ensures
        forall|p: Option<Seq<char>>|
            #[trigger] has_path(merge_spec(held, incoming), p) <==> has_path(held, p) || has_path(
                incoming,
                p,
            ),
    decreases incoming.len(),
{
    if incoming.len() > 0 {
        let d = incoming.drop_last();
        lemma_merge_paths(held, d);
        let rest = merge_spec(held, d);
        let m = merge_spec(held, incoming);
        assert forall|p: Option<Seq<char>>| #[trigger] has_path(m, p) implies has_path(held, p)
            || has_path(incoming, p) by {
            let i = choose|i: int| 0 <= i < m.len() && m[i].path == p;
            if i < rest.len() {
                assert(has_path(rest, p));
                if has_path(d, p) {
                    let k = choose|k: int| 0 <= k < d.len() && d[k].path == p;
                    assert(incoming[k].path == p);
                }
            } else {
                assert(m[i] == incoming.last());
                assert(incoming[incoming.len() - 1].path == p);
            }
        }
        assert forall|p: Option<Seq<char>>| has_path(held, p) || has_path(incoming, p) implies #[trigger] has_path(
            m,
            p,
        ) by {
            if has_path(held, p) || has_path(d, p) {
                assert(has_path(rest, p));
                let k = choose|k: int| 0 <= k < rest.len() && rest[k].path == p;
                assert(m[k].path == p);
            } else {
                // p can only be the last incoming entry's path
                let i = choose|i: int| 0 <= i < incoming.len() && incoming[i].path == p;
                if i < incoming.len() - 1 {
                    assert(d[i].path == p);
                    assert(false);
                }
                // that entry was kept: a collision would mean its path
                // is present, hence held by one of the two sides
                assert(!dup_path(rest, incoming.last().path));
                assert(m[m.len() - 1].path == p);
            }
        }
    }
}

/// Merging preserves pairwise-distinct source paths of file-backed
/// entries.
pub proof fn lemma_merge_wf(held: Seq<BookView>, incoming: Seq<BookView>)
    requires
        distinct_paths(held),
    ensures
        distinct_paths(merge_spec(held, incoming)),
    decreases incoming.len(),
{
    if incoming.len() > 0 {
        let d = incoming.drop_last();
        lemma_merge_wf(held, d);
        let rest = merge_spec(held, d);
        let m = merge_spec(held, incoming);
        if !dup_path(rest, incoming.last().path) {
            assert forall|i: int, j: int|
                0 <= i < j < m.len() && m[i].path is Some && m[j].path is Some implies m[i].path
                != m[j].path by {
                if j == m.len() - 1 {
                    assert(m[i] == rest[i]);
                    if rest[i].path == incoming.last().path {
                        assert(has_path(rest, incoming.last().path));
                    }
                }
            }
        }
    }
}

proof fn lemma_path_set(s: Seq<BookView>)
    ensures
        path_set(s).finite(),
        forall|p: Seq<char>| #[trigger] path_set(s).contains(p) <==> has_path(s, Some(p)),
    decreases s.len(),
{
    broadcast use vstd::set::group_set_axioms;

    if s.len() > 0 {
        let d = s.drop_last();
        lemma_path_set(d);
        assert forall|p: Seq<char>| #[trigger] path_set(s).contains(p) <==> has_path(
            s,
            Some(p),
        ) by {
            if has_path(d, Some(p)) {
                let i = choose|i: int| 0 <= i < d.len() && d[i].path == Some(p);
                assert(s[i].path == Some(p));
            }
            if has_path(s, Some(p)) && s.last().path != Some(p) {
                let i = choose|i: int| 0 <= i < s.len() && s[i].path == Some(p);
                assert(d[i].path == Some(p));
            }
        }
    }
}

/// A batch merge grows the collection by its pathless entries plus one
/// entry for each distinct incoming source path that was genuinely new.
pub proof fn lemma_merge_len(held: Seq<BookView>, incoming: Seq<BookView>)
    ensures
        merge_spec(held, incoming).len() == held.len() + pathless_count(incoming) + path_set(
            incoming,
        ).difference(path_set(held)).len(),
    decreases incoming.len(),
{
    broadcast use vstd::set::group_set_axioms;

    lemma_path_set(held);
    lemma_path_set(incoming);
    if incoming.len() == 0 {
        assert(path_set(incoming).difference(path_set(held)) =~= Set::<Seq<char>>::empty());
    } else {
        let d = incoming.drop_last();
        lemma_merge_len(held, d);
        lemma_merge_paths(held, d);
        lemma_path_set(d);
        let rest = merge_spec(held, d);
        let hs = path_set(held);
        let old_diff = path_set(d).difference(hs);
        let new_diff = path_set(incoming).difference(hs);
        match incoming.last().path {
            Some(p) => {
                assert(path_set(incoming) == path_set(d).insert(p));
                if dup_path(rest, Some(p)) {
                    assert(has_path(held, Some(p)) || has_path(d, Some(p)));
                    assert(new_diff =~= old_diff);
                } else {
                    assert(!has_path(held, Some(p)) && !has_path(d, Some(p)));
                    assert(!old_diff.contains(p));
                    assert(new_diff =~= old_diff.insert(p));
                    assert(old_diff.finite());
                    assert(new_diff.len() == old_diff.len() + 1);
                }
            },
            None => {
                assert(path_set(incoming) == path_set(d));
                assert(!dup_path(rest, incoming.last().path));
            },
        }
    }
}

} // verus!
