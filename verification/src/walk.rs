//! Walking a directory tree that came from outside the project: an extracted archive, a
//! dependency, a path a user named.
//!
//! Such a tree can carry symbolic links, and a link is a way out of it: a link to `/etc`
//! or a link back to an ancestor turns a walk into a traversal or a loop. A walk starts from
//! the resolved root, refuses to follow links, and yields paths **relative** to that root, so
//! a caller cannot accidentally rejoin an escaped path onto a different base.

use vstd::prelude::*;

use crate::path;
use crate::path::{parts, parts_before, rest_of};
use crate::text;
use crate::text::texts;

verus! {

/// What a walk sees at one place.
#[derive(Clone, Copy, Debug, PartialEq, Eq, Structural)]
pub enum Kind {
    File,
    Directory,
    Link,
    Other,
}

/// One place that a walk visits.
#[derive(Debug, PartialEq, Eq)]
pub struct Visited {
    pub path: String,
    pub kind: Kind,
}

/// A visited place, as the contracts see it.
pub struct Place {
    pub path: Seq<char>,
    pub kind: Kind,
}

impl View for Visited {
    type V = Place;

    open spec fn view(&self) -> Place {
        Place { path: self.path@, kind: self.kind }
    }
}

/// The contents of a list of visited places.
pub open spec fn places(list: Seq<Visited>) -> Seq<Place> {
    Seq::new(list.len(), |i: int| list[i]@)
}

/// A sorted list of paths with one more, behind those that are not after it.
pub open spec fn with_path(list: Seq<Seq<char>>, p: Seq<char>) -> Seq<Seq<char>>
    decreases list.len(),
{
    if list.len() == 0 || !parts_before(parts(p), parts(list.last())) {
        list.push(p)
    } else {
        with_path(list.drop_last(), p).push(list.last())
    }
}

/// The files among visited places, as paths relative to `root`, in path order.
pub open spec fn files_below(root: Seq<char>, list: Seq<Place>) -> Seq<Seq<char>>
    decreases list.len(),
{
    if list.len() == 0 {
        Seq::empty()
    } else {
        let front = files_below(root, list.drop_last());
        match (list.last().kind, rest_of(list.last().path, root)) {
            (Kind::File, Some(rest)) => with_path(front, rest),
            _ => front,
        }
    }
}

/// Puts a path at its place in a sorted list.
fn put_path(list: &mut Vec<String>, p: String)
    ensures
        texts(final(list)@) == with_path(texts(old(list)@), p@),
{
    let ghost all = texts(list@);
    let n = list.len();
    let mut i: usize = n;
    assert(all.take(n as int) =~= all);
    assert(with_path(all, p@) + all.skip(n as int) =~= with_path(all, p@));
    while i > 0 && path::precedes(p.as_str(), list[i - 1].as_str())
        invariant
            i <= n,
            n == list@.len(),
            all == texts(list@),
            with_path(all, p@) == with_path(all.take(i as int), p@) + all.skip(i as int),
        decreases i,
    {
        proof {
            let front = all.take(i as int);
            assert(front.last() == all[i - 1]);
            assert(front.drop_last() =~= all.take(i - 1));
            let w = with_path(all.take(i - 1), p@);
            assert(w.push(all[i - 1]) + all.skip(i as int) =~= w + all.skip(i - 1));
        }
        i -= 1;
    }
    proof {
        let front = all.take(i as int);
        if i > 0 {
            assert(front.last() == all[i - 1]);
            assert(list@[i - 1]@ == all[i - 1]);
        }
        assert(with_path(front, p@) =~= front.push(p@));
    }
    list.insert(i, p);
    assert(texts(list@) =~= all.take(i as int).push(p@) + all.skip(i as int));
}

/// Every file among the `visited` places below the resolved `root`, as paths relative to it.
///
/// Symbolic links are not reported, which is what keeps the result inside `root`: a link is
/// the only entry a filesystem walk can reach outside the tree it started in. A place that
/// does not lie below the root is dropped rather than reported. Sorted, so callers see a
/// stable order.
pub fn files_within(root: &str, visited: &Vec<Visited>) -> (r: Vec<String>)
    ensures
        texts(r@) == files_below(root@, places(visited@)),
{
    let ghost all = places(visited@);
    let mut out: Vec<String> = Vec::new();
    let mut i: usize = 0;
    assert(texts(out@) =~= files_below(root@, all.take(0)));
    while i < visited.len()
        invariant
            i <= visited@.len(),
            all == places(visited@),
            texts(out@) == files_below(root@, all.take(i as int)),
        decreases visited@.len() - i,
    {
        proof {
            let grown = all.take(i + 1);
            assert(grown.drop_last() =~= all.take(i as int));
            assert(grown.last() == visited@[i as int]@);
        }
        if visited[i].kind == Kind::File {
            if let Some(rel) = path::strip_base(visited[i].path.as_str(), root) {
                put_path(&mut out, rel);
            }
        }
        i += 1;
    }
    assert(all.take(visited@.len() as int) =~= all);
    out
}

/// Paths in order: none stands behind one that comes after it.
pub open spec fn path_ordered(list: Seq<Seq<char>>) -> bool {
    forall|i: int, j: int|
        0 <= i < j < list.len() ==> !parts_before(
            parts(#[trigger] list[j]),
            parts(#[trigger] list[i]),
        )
}

proof fn lemma_with_path(list: Seq<Seq<char>>, p: Seq<char>)
    requires
        path_ordered(list),
    ensures
        path_ordered(with_path(list, p)),
        forall|k: int|
            0 <= k < with_path(list, p).len() ==> (#[trigger] with_path(list, p)[k]) == p
                || list.contains(with_path(list, p)[k]),
    decreases list.len(),
{
    let after = with_path(list, p);
    if list.len() == 0 || !parts_before(parts(p), parts(list.last())) {
        assert forall|k: int| 0 <= k < after.len() implies (#[trigger] after[k]) == p
            || list.contains(after[k]) by {
            if k < list.len() {
                assert(list[k] == after[k]);
            }
        }
        assert forall|i: int, j: int| 0 <= i < j < after.len() implies !parts_before(
            parts(#[trigger] after[j]),
            parts(#[trigger] after[i]),
        ) by {
            if j == list.len() {
                let last = list.len() - 1;
                if i < last && parts_before(parts(p), parts(list[i])) {
                    let a = parts(p);
                    let b = parts(list[i]);
                    let c = parts(list.last());
                    assert(!parts_before(parts(list[last]), parts(list[i])));
                    path::lemma_parts_total(b, c);
                    if parts_before(b, c) {
                        path::lemma_parts_transitive(a, b, c);
                    }
                }
            }
        }
    } else {
        let front = list.drop_last();
        assert forall|i: int, j: int| 0 <= i < j < front.len() implies !parts_before(
            parts(#[trigger] front[j]),
            parts(#[trigger] front[i]),
        ) by {
            assert(front[i] == list[i]);
            assert(front[j] == list[j]);
        }
        lemma_with_path(front, p);
        let w = with_path(front, p);
        assert forall|k: int| 0 <= k < after.len() implies (#[trigger] after[k]) == p
            || list.contains(after[k]) by {
            if k < w.len() {
                assert(after[k] == w[k]);
                if w[k] != p {
                    assert(front.contains(w[k]));
                    let m = choose|m: int| 0 <= m < front.len() && front[m] == w[k];
                    assert(list[m] == w[k]);
                }
            } else {
                assert(list[list.len() - 1] == after[k]);
            }
        }
        assert forall|i: int, j: int| 0 <= i < j < after.len() implies !parts_before(
            parts(#[trigger] after[j]),
            parts(#[trigger] after[i]),
        ) by {
            if j == w.len() {
                assert(after[j] == list.last());
                assert(after[i] == w[i]);
                if w[i] == p {
                    if parts_before(parts(list.last()), parts(p)) {
                        path::lemma_parts_transitive(
                            parts(p),
                            parts(list.last()),
                            parts(p),
                        );
                        path::lemma_parts_irreflexive(parts(p));
                    }
                } else {
                    let m = choose|m: int| 0 <= m < front.len() && front[m] == w[i];
                    assert(list[m] == w[i]);
                    assert(list[list.len() - 1] == list.last());
                }
            } else {
                assert(after[i] == w[i]);
                assert(after[j] == w[j]);
            }
        }
    }
}

/// A walk reports its files in path order, whatever order it met them in, and reports
/// nothing but files that lie below the root: neither a link nor a place outside the tree.
pub proof fn law_walk_reports_own_files_in_order(root: Seq<char>, list: Seq<Place>)
    ensures
        path_ordered(files_below(root, list)),
        forall|k: int|
            0 <= k < files_below(root, list).len() ==> exists|i: int|
                0 <= i < list.len() && list[i].kind == Kind::File && rest_of(
                    (#[trigger] list[i]).path,
                    root,
                ) == Some(#[trigger] files_below(root, list)[k]),
    decreases list.len(),
{
    if list.len() > 0 {
        let front = list.drop_last();
        law_walk_reports_own_files_in_order(root, front);
        let earlier = files_below(root, front);
        let last = list.last();
        let now = files_below(root, list);
        if last.kind == Kind::File && rest_of(last.path, root) is Some {
            lemma_with_path(earlier, rest_of(last.path, root)->Some_0);
        }
        assert forall|k: int| 0 <= k < now.len() implies exists|i: int|
            0 <= i < list.len() && list[i].kind == Kind::File && rest_of(
                (#[trigger] list[i]).path,
                root,
            ) == Some(#[trigger] now[k]) by {
            if earlier.contains(now[k]) {
                let m = choose|m: int| 0 <= m < earlier.len() && earlier[m] == now[k];
                let i = choose|i: int|
                    0 <= i < front.len() && front[i].kind == Kind::File && rest_of(
                        (#[trigger] front[i]).path,
                        root,
                    ) == Some(earlier[m]);
                assert(list[i] == front[i]);
            } else {
                assert(list[list.len() - 1] == last);
                if !(last.kind == Kind::File && rest_of(last.path, root) is Some) {
                    assert(now == earlier);
                    assert(earlier[k] == now[k]);
                }
            }
        }
    }
}

/// Whether a path resolves inside a root, given what both resolve to, so that a link or a
/// `..` component is compared as what it reaches rather than as what it reads.
///
/// A path that does not exist cannot be resolved, and so is not contained.
pub fn contains(root: Option<&str>, path: Option<&str>) -> (r: bool)
    ensures
        r == match (root, path) {
            (Some(root), Some(path)) => parts(root@).is_prefix_of(parts(path@)),
            _ => false,
        },
        r == reaches(
            match root {
                Some(root) => Some(root@),
                None => None,
            },
            match path {
                Some(path) => Some(path@),
                None => None,
            },
        ),
{
    match (root, path) {
        (Some(root), Some(path)) => path::starts_with(path, root),
        _ => false,
    }
}

proof fn lemma_with_path_holds(list: Seq<Seq<char>>, p: Seq<char>)
    ensures
        with_path(list, p).len() == list.len() + 1,
        forall|q: Seq<char>| #[trigger]
            with_path(list, p).contains(q) <==> list.contains(q) || q == p,
    decreases list.len(),
{
    let all = with_path(list, p);
    if list.len() == 0 || !parts_before(parts(p), parts(list.last())) {
        assert(all[list.len() as int] == p);
        assert forall|q: Seq<char>| #[trigger] all.contains(q) <==> list.contains(q) || q == p by {
            if list.contains(q) {
                let k = choose|k: int| 0 <= k < list.len() && list[k] == q;
                assert(all[k] == q);
            }
            if all.contains(q) {
                let k = choose|k: int| 0 <= k < all.len() && all[k] == q;
                if k < list.len() {
                    assert(list[k] == q);
                }
            }
        }
    } else {
        let front = list.drop_last();
        lemma_with_path_holds(front, p);
        let rest = with_path(front, p);
        assert forall|q: Seq<char>| #[trigger] all.contains(q) <==> list.contains(q) || q == p by {
            if rest.contains(q) {
                let k = choose|k: int| 0 <= k < rest.len() && rest[k] == q;
                assert(all[k] == q);
            }
            if list.contains(q) {
                let k = choose|k: int| 0 <= k < list.len() && list[k] == q;
                if k < front.len() {
                    assert(front[k] == q);
                    assert(front.contains(q));
                    assert(rest.contains(q));
                } else {
                    assert(all[rest.len() as int] == q);
                }
            }
            if q == p {
                assert(rest.contains(q));
            }
            if all.contains(q) {
                let k = choose|k: int| 0 <= k < all.len() && all[k] == q;
                if k < rest.len() {
                    assert(rest[k] == q);
                    assert(rest.contains(q));
                    if front.contains(q) {
                        let m = choose|m: int| 0 <= m < front.len() && front[m] == q;
                        assert(list[m] == q);
                    }
                } else {
                    assert(list[list.len() - 1] == q);
                }
            }
        }
    }
}

/// Every file that a walk visits below the root is reported, by its path from there.
pub proof fn law_walk_reports_every_file(root: Seq<char>, list: Seq<Place>, i: int)
    requires
        0 <= i < list.len(),
        list[i].kind == Kind::File,
        rest_of(list[i].path, root) is Some,
    ensures
        files_below(root, list).contains(rest_of(list[i].path, root)->Some_0),
    decreases list.len(),
{
    let front = list.drop_last();
    if i < front.len() {
        assert(front[i] == list[i]);
        law_walk_reports_every_file(root, front, i);
    }
    if let Some(rest) = rest_of(list.last().path, root) {
        lemma_with_path_holds(files_below(root, front), rest);
    }
}

/// A path that was resolved lies in a root that was resolved.
pub open spec fn reaches(root: Option<Seq<char>>, path: Option<Seq<char>>) -> bool {
    match (root, path) {
        (Some(root), Some(path)) => parts(root).is_prefix_of(parts(path)),
        _ => false,
    }
}

/// A root contains itself and what lies below it, and nothing that does not; what cannot be resolved
/// is in no root, and a root that cannot be resolved contains nothing.
pub proof fn law_containment(root: Seq<char>, path: Seq<char>)
    ensures
        reaches(Some(root), Some(root)),
        reaches(Some(root), Some(path)) <==> rest_of(path, root) is Some,
        !reaches(None, Some(path)),
        !reaches(Some(root), None),
        !reaches(None, None),
{
    assert(parts(root).subrange(0, parts(root).len() as int) =~= parts(root));
}

} // verus!
