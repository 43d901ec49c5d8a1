//! Slash-separated paths, read component by component.
//!
//! Two texts name the same path when they have the same components: a doubled
//! or trailing `/` and an inner `.` say nothing. Functions that take a path apart keep
//! the spelling of what they do not cut off; those that build one from components give
//! its canonical text, [`written`].

use vstd::prelude::*;

use crate::text;
use crate::text::{joined, opt_text, pieces, texts};

verus! {

/// One component of a path, as the contracts see it.
pub enum Part {
    /// The leading `/` of an absolute path.
    Root,
    /// A leading `.`.
    Here,
    /// A `..`.
    Up,
    /// An ordinary name.
    Name(Seq<char>),
}

/// One component of a path.
#[derive(Debug, PartialEq, Eq)]
pub enum Component {
    /// The leading `/` of an absolute path.
    RootDir,
    /// A leading `.`.
    CurDir,
    /// A `..`.
    ParentDir,
    /// An ordinary name.
    Normal(String),
}

impl View for Component {
    type V = Part;

    open spec fn view(&self) -> Part {
        match self {
            Component::RootDir => Part::Root,
            Component::CurDir => Part::Here,
            Component::ParentDir => Part::Up,
            Component::Normal(name) => Part::Name(name@),
        }
    }
}

/// The contents of a list of components.
pub open spec fn views(v: Seq<Component>) -> Seq<Part> {
    Seq::new(v.len(), |i: int| v[i]@)
}

/// What one `/`-separated piece of a path stands for: nothing when it is empty
/// or a `.` that does not lead.
pub open spec fn piece_part(piece: Seq<char>, leads: bool) -> Option<Part> {
    if piece.len() == 0 {
        None
    } else if piece == "."@ {
        if leads {
            Some(Part::Here)
        } else {
            None
        }
    } else if piece == ".."@ {
        Some(Part::Up)
    } else {
        Some(Part::Name(piece))
    }
}

/// The components that a list of `/`-separated pieces stands for.
pub open spec fn piece_parts(list: Seq<Seq<char>>) -> Seq<Part>
    decreases list.len(),
{
    if list.len() == 0 {
        Seq::empty()
    } else {
        let front = piece_parts(list.drop_last());
        match piece_part(list.last(), list.len() == 1) {
            Some(part) => front.push(part),
            None => front,
        }
    }
}

/// Whether a path is absolute.
pub open spec fn rooted(p: Seq<char>) -> bool {
    p.len() > 0 && p[0] == '/'
}

/// The components of the path `p`.
pub open spec fn parts(p: Seq<char>) -> Seq<Part> {
    if rooted(p) {
        seq![Part::Root] + piece_parts(pieces(p, '/'))
    } else {
        piece_parts(pieces(p, '/'))
    }
}

/// The text of one component.
pub open spec fn part_text(part: Part) -> Seq<char> {
    match part {
        Part::Root => Seq::empty(),
        Part::Here => "."@,
        Part::Up => ".."@,
        Part::Name(name) => name,
    }
}

/// The texts of a list of components.
pub open spec fn part_texts(list: Seq<Part>) -> Seq<Seq<char>> {
    Seq::new(list.len(), |i: int| part_text(list[i]))
}

/// The canonical text of a list of components.
pub open spec fn written(list: Seq<Part>) -> Seq<char> {
    if list == seq![Part::Root] {
        "/"@
    } else {
        joined(part_texts(list), "/"@)
    }
}

/// The last component, when it is an ordinary name.
pub open spec fn name_of(p: Seq<char>) -> Option<Seq<char>> {
    let list = parts(p);
    if list.len() > 0 && list.last() is Name {
        Some(list.last()->Name_0)
    } else {
        None
    }
}

/// What stands after the last `.` of a file name, when the name does not begin there.
pub open spec fn name_extension(name: Seq<char>) -> Option<Seq<char>> {
    match text::char_at_last(name, '.') {
        Some(i) => if i > 0 {
            Some(name.skip(i + 1))
        } else {
            None
        },
        None => None,
    }
}

/// A file name without its extension and the `.` before it.
pub open spec fn name_stem(name: Seq<char>) -> Seq<char> {
    match text::char_at_last(name, '.') {
        Some(i) => if i > 0 {
            name.take(i)
        } else {
            name
        },
        None => name,
    }
}

/// The extension of a path's file name.
pub open spec fn extension_of(p: Seq<char>) -> Option<Seq<char>> {
    match name_of(p) {
        Some(name) => name_extension(name),
        None => None,
    }
}

/// The components of the directory a path is in.
pub open spec fn parent_parts(p: Seq<char>) -> Option<Seq<Part>> {
    let list = parts(p);
    if list.len() == 0 || list.last() is Root {
        None
    } else {
        Some(list.drop_last())
    }
}

/// A file name with another extension; an empty one takes the `.` away as well.
pub open spec fn renamed(name: Seq<char>, ext: Seq<char>) -> Seq<char> {
    if ext.len() == 0 {
        name_stem(name)
    } else {
        name_stem(name) + "."@ + ext
    }
}

/// The components of a path with its extension replaced.
pub open spec fn extended_parts(p: Seq<char>, ext: Seq<char>) -> Seq<Part> {
    match name_of(p) {
        Some(name) => parts(p).drop_last().push(Part::Name(renamed(name, ext))),
        None => parts(p),
    }
}

/// `rel` read from the directory `base`: `rel` itself when it is absolute.
pub open spec fn under(base: Seq<char>, rel: Seq<char>) -> Seq<char> {
    if rooted(rel) {
        rel
    } else if base.len() == 0 || base.last() == '/' {
        base + rel
    } else {
        base + "/"@ + rel
    }
}

// ---------------------------------------------------------------------------
// Parts of a path, as they are spelled
// ---------------------------------------------------------------------------

/// The pieces at the beginning of a list that it takes for `n` components, and none more.
pub open spec fn upto(list: Seq<Seq<char>>, n: int) -> Seq<Seq<char>>
    decreases list.len(),
{
    if list.len() > 0 && piece_parts(list.drop_last()).len() >= n {
        upto(list.drop_last(), n)
    } else {
        list
    }
}

/// A list of pieces without the pieces at its beginning that say nothing there.
pub open spec fn led(list: Seq<Seq<char>>) -> Seq<Seq<char>>
    decreases list.len(),
{
    if list.len() > 0 && (list[0].len() == 0 || list[0] == "."@) {
        led(list.drop_first())
    } else {
        list
    }
}

/// How many components of a path are no pieces of its text: the root.
pub open spec fn root_len(p: Seq<char>) -> int {
    if rooted(p) {
        1
    } else {
        0
    }
}

/// The first `n` components of `p`, as they are spelled in it.
pub open spec fn lead(p: Seq<char>, n: int) -> Seq<char> {
    if rooted(p) && n == 1 {
        "/"@
    } else {
        joined(upto(pieces(p, '/'), n - root_len(p)), "/"@)
    }
}

/// The components of `p` after the first `n`, as they are spelled in it.
pub open spec fn tail(p: Seq<char>, n: int) -> Seq<char> {
    let list = pieces(p, '/');
    if n == 0 {
        lead(p, parts(p).len() as int)
    } else {
        joined(
            led(
                upto(list, piece_parts(list).len() as int).skip(
                    upto(list, n - root_len(p)).len() as int,
                ),
            ),
            "/"@,
        )
    }
}

/// The directory a path is in.
pub open spec fn parent_of(p: Seq<char>) -> Option<Seq<char>> {
    match parent_parts(p) {
        Some(list) => Some(lead(p, list.len() as int)),
        None => None,
    }
}

/// What is left of `p` below `base`, when it lies there.
pub open spec fn rest_of(p: Seq<char>, base: Seq<char>) -> Option<Seq<char>> {
    if parts(base).is_prefix_of(parts(p)) {
        Some(tail(p, parts(base).len() as int))
    } else {
        None
    }
}

/// A path with its extension replaced; an empty one takes the `.` away as well. A path without
/// a file name stays as it is.
pub open spec fn retyped(p: Seq<char>, ext: Seq<char>) -> Seq<char> {
    match name_of(p) {
        Some(name) => {
            let list = pieces(p, '/');
            let kept = upto(list, piece_parts(list).len() as int);
            joined(kept.drop_last().push(renamed(name, ext)), "/"@)
        },
        None => p,
    }
}

/// A path with its file name replaced; one without a file name gets it.
pub open spec fn refiled(p: Seq<char>, name: Seq<char>) -> Seq<char> {
    match name_of(p) {
        Some(_) => under(lead(p, parts(p).len() - 1), name),
        None => under(p, name),
    }
}

// ---------------------------------------------------------------------------
// Facts about components
// ---------------------------------------------------------------------------

proof fn lemma_views_push(v: Seq<Component>, c: Component)
    ensures
        views(v.push(c)) == views(v).push(c@),
{
    assert(views(v.push(c)) =~= views(v).push(c@));
}

/// Cutting `a`, a separator and a separator-free `b` gives the pieces of `a` and then `b`.
proof fn lemma_pieces_append(a: Seq<char>, b: Seq<char>, sep: char)
    requires
        !b.contains(sep),
    ensures
        pieces(a.push(sep) + b, sep) == pieces(a, sep).push(b),
    decreases b.len(),
{
    if b.len() == 0 {
        assert(a.push(sep) + b =~= a.push(sep));
        assert(a.push(sep).drop_last() =~= a);
        assert(b =~= Seq::<char>::empty());
    } else {
        let whole = a.push(sep) + b;
        assert(whole.drop_last() =~= a.push(sep) + b.drop_last());
        assert(!b.drop_last().contains(sep)) by {
            assert forall|i: int| 0 <= i < b.drop_last().len() implies b.drop_last()[i] != sep by {
                assert(b[i] == b.drop_last()[i]);
            }
        }
        lemma_pieces_append(a, b.drop_last(), sep);
        assert(b[b.len() - 1] != sep);
        let front = pieces(a, sep).push(b.drop_last());
        assert(front.drop_last() =~= pieces(a, sep));
        assert(b.drop_last().push(b.last()) =~= b);
    }
}

/// Cutting a list joined with a separator gives the list back, when no entry holds the separator.
pub proof fn law_split_undoes_join(list: Seq<Seq<char>>, sep: char)
    requires
        list.len() > 0,
        forall|i: int| 0 <= i < list.len() ==> !(#[trigger] list[i]).contains(sep),
    ensures
        pieces(joined(list, seq![sep]), sep) == list,
    decreases list.len(),
{
    if list.len() == 1 {
        text::lemma_pieces_single(list[0], sep);
        assert(list =~= seq![list[0]]);
    } else {
        let front = list.drop_last();
        assert forall|i: int| 0 <= i < front.len() implies !(#[trigger] front[i]).contains(
            sep,
        ) by {
            assert(front[i] == list[i]);
        }
        law_split_undoes_join(front, sep);
        assert(!list[list.len() - 1].contains(sep));
        lemma_pieces_append(joined(front, seq![sep]), list.last(), sep);
        assert(joined(front, seq![sep]) + seq![sep] + list.last() =~= joined(
            front,
            seq![sep],
        ).push(sep) + list.last());
        assert(front.push(list.last()) =~= list);
    }
}

/// A list of components that some path has: names are names, the root and a
/// leading `.` only stand first.
pub open spec fn proper(list: Seq<Part>) -> bool {
    forall|i: int|
        0 <= i < list.len() ==> match #[trigger] list[i] {
            Part::Root => i == 0,
            Part::Here => i == 0,
            Part::Up => true,
            Part::Name(name) => {
                &&& name.len() > 0
                &&& name != "."@
                &&& name != ".."@
                &&& !name.contains('/')
            },
        }
}

proof fn lemma_piece_parts_proper(list: Seq<Seq<char>>)
    requires
        forall|i: int| 0 <= i < list.len() ==> !(#[trigger] list[i]).contains('/'),
    ensures
        proper(piece_parts(list)),
        forall|i: int| 0 <= i < piece_parts(list).len() ==> !((#[trigger] piece_parts(list)[i]) is Root),
        list.len() > 0 && list[0].len() == 0 ==> forall|i: int|
            0 <= i < piece_parts(list).len() ==> !((#[trigger] piece_parts(list)[i]) is Here),
        piece_parts(list).len() <= list.len(),
    decreases list.len(),
{
    if list.len() > 0 {
        let front = list.drop_last();
        assert forall|i: int| 0 <= i < front.len() implies !(#[trigger] front[i]).contains(
            '/',
        ) by {
            assert(front[i] == list[i]);
        }
        lemma_piece_parts_proper(front);
        assert(!list[list.len() - 1].contains('/'));
        if front.len() > 0 {
            assert(front[0] == list[0]);
        }
    }
}

/// The components of any path are proper.
pub proof fn lemma_parts_proper(p: Seq<char>)
    ensures
        proper(parts(p)),
{
    text::lemma_pieces_hold_no_separator(p, '/');
    lemma_piece_parts_proper(pieces(p, '/'));
    if rooted(p) {
        lemma_first_piece_of_rooted(p);
        let tail = piece_parts(pieces(p, '/'));
        assert forall|i: int| 0 <= i < parts(p).len() implies match #[trigger] parts(p)[i] {
            Part::Root => i == 0,
            Part::Here => i == 0,
            Part::Up => true,
            Part::Name(name) => {
                &&& name.len() > 0
                &&& name != "."@
                &&& name != ".."@
                &&& !name.contains('/')
            },
        } by {
            if i > 0 {
                assert(parts(p)[i] == tail[i - 1]);
            }
        }
    }
}

proof fn lemma_first_piece_of_rooted(p: Seq<char>)
    requires
        rooted(p),
    ensures
        pieces(p, '/').len() >= 2,
        pieces(p, '/')[0].len() == 0,
    decreases p.len(),
{
    text::lemma_pieces_len(p.drop_last(), '/');
    if p.len() > 1 {
        assert(p.drop_last()[0] == p[0]);
        lemma_first_piece_of_rooted(p.drop_last());
    } else {
        assert(p.drop_last() =~= Seq::<char>::empty());
    }
}

/// Reading back the pieces of a proper list without a root gives the list.
proof fn lemma_piece_parts_of_texts(list: Seq<Part>)
    requires
        proper(list),
        forall|i: int| 0 <= i < list.len() ==> !((#[trigger] list[i]) is Root),
    ensures
        piece_parts(part_texts(list)) == list,
    decreases list.len(),
{
    reveal_strlit(".");
    reveal_strlit("..");
    if list.len() > 0 {
        let front = list.drop_last();
        assert forall|i: int| 0 <= i < front.len() implies match #[trigger] front[i] {
            Part::Root => i == 0,
            Part::Here => i == 0,
            Part::Up => true,
            Part::Name(name) => {
                &&& name.len() > 0
                &&& name != "."@
                &&& name != ".."@
                &&& !name.contains('/')
            },
        } && !(front[i] is Root) by {
            assert(front[i] == list[i]);
        }
        lemma_piece_parts_of_texts(front);
        assert(part_texts(list).drop_last() =~= part_texts(front));
        let last = list[list.len() - 1];
        assert(part_texts(list).last() == part_text(last));
        assert(".."@ != "."@) by {
            assert(".."@.len() != "."@.len());
        }
        assert(front.push(last) =~= list);
    } else {
        assert(piece_parts(part_texts(list)) =~= list);
    }
}

/// The pieces of a rooted list: the empty piece before the root, then the rest.
proof fn lemma_piece_parts_of_rooted_texts(list: Seq<Part>)
    requires
        proper(list),
        list.len() > 0,
        list[0] is Root,
    ensures
        piece_parts(part_texts(list)) == list.skip(1),
    decreases list.len(),
{
    reveal_strlit(".");
    reveal_strlit("..");
    let last = list[list.len() - 1];
    assert(part_texts(list).last() == part_text(last));
    if list.len() == 1 {
        reveal_with_fuel(piece_parts, 2);
        assert(part_texts(list).drop_last() =~= Seq::<Seq<char>>::empty());
        assert(list.skip(1) =~= Seq::<Part>::empty());
    } else {
        let front = list.drop_last();
        assert forall|i: int| 0 <= i < front.len() implies match #[trigger] front[i] {
            Part::Root => i == 0,
            Part::Here => i == 0,
            Part::Up => true,
            Part::Name(name) => {
                &&& name.len() > 0
                &&& name != "."@
                &&& name != ".."@
                &&& !name.contains('/')
            },
        } by {
            assert(front[i] == list[i]);
        }
        lemma_piece_parts_of_rooted_texts(front);
        assert(part_texts(list).drop_last() =~= part_texts(front));
        assert(".."@ != "."@) by {
            assert(".."@.len() != "."@.len());
        }
        assert(front.skip(1).push(last) =~= list.skip(1));
    }
}

proof fn lemma_texts_hold_no_slash(list: Seq<Part>)
    requires
        proper(list),
    ensures
        forall|i: int| 0 <= i < part_texts(list).len() ==> !(#[trigger] part_texts(list)[i]).contains('/'),
{
    reveal_strlit(".");
    reveal_strlit("..");
    assert forall|i: int| 0 <= i < part_texts(list).len() implies !(
    #[trigger] part_texts(list)[i]).contains('/') by {
        match list[i] {
            Part::Root => {},
            Part::Here => {},
            Part::Up => {},
            Part::Name(name) => {},
        }
    }
}

proof fn lemma_joined_starts(list: Seq<Seq<char>>, sep: Seq<char>)
    requires
        list.len() > 0,
    ensures
        list[0].is_prefix_of(joined(list, sep)),
        list.len() > 1 ==> (list[0] + sep).is_prefix_of(joined(list, sep)),
    decreases list.len(),
{
    if list.len() > 1 {
        let front = list.drop_last();
        assert(front[0] == list[0]);
        lemma_joined_starts(front, sep);
        let j = joined(front, sep);
        let whole = joined(list, sep);
        assert(whole == j + sep + list.last());
        if front.len() > 1 {
            assert((list[0] + sep) =~= j.subrange(0, (list[0] + sep).len() as int));
            assert((list[0] + sep) =~= whole.subrange(0, (list[0] + sep).len() as int));
        } else {
            assert(j == list[0]);
            assert((list[0] + sep) =~= whole.subrange(0, (list[0] + sep).len() as int));
        }
        assert(list[0] =~= whole.subrange(0, list[0].len() as int));
    } else {
        assert(list[0] =~= joined(list, sep).subrange(0, list[0].len() as int));
    }
}

/// The canonical text of a proper list of components has exactly those components.
pub proof fn law_written_parts(list: Seq<Part>)
    requires
        proper(list),
    ensures
        parts(written(list)) == list,
{
    reveal_strlit("/");
    assert("/"@ =~= seq!['/']);
    reveal_strlit(".");
    reveal_strlit("..");
    reveal_with_fuel(piece_parts, 3);
    reveal_with_fuel(pieces, 3);
    let segs = part_texts(list);
    lemma_texts_hold_no_slash(list);
    if list == seq![Part::Root] {
        let p = "/"@;
        assert(p.drop_last() =~= Seq::<char>::empty());
        let one = seq![Seq::<char>::empty()];
        assert(pieces(p, '/') == one.push(Seq::empty()));
        assert(one.push(Seq::empty()).drop_last() =~= one);
        assert(one.drop_last() =~= Seq::<Seq<char>>::empty());
        assert(piece_parts(one) =~= Seq::<Part>::empty());
        assert(piece_parts(pieces(p, '/')) =~= Seq::<Part>::empty());
        assert(parts(p) =~= list);
    } else if list.len() == 0 {
        let p = joined(segs, "/"@);
        assert(p =~= Seq::<char>::empty());
        let one = seq![Seq::<char>::empty()];
        assert(one.drop_last() =~= Seq::<Seq<char>>::empty());
        assert(piece_parts(one) =~= Seq::<Part>::empty());
        assert(parts(p) =~= list);
    } else {
        let p = joined(segs, "/"@);
        law_split_undoes_join(segs, '/');
        lemma_joined_starts(segs, "/"@);
        if list[0] is Root {
            assert(list.len() > 1) by {
                if list.len() == 1 {
                    assert(list =~= seq![Part::Root]);
                }
            }
            assert(segs[0].len() == 0);
            assert((segs[0] + "/"@)[0] == '/');
            assert(rooted(p));
            lemma_piece_parts_of_rooted_texts(list);
            assert(seq![Part::Root] + list.skip(1) =~= list);
        } else {
            assert forall|i: int| 0 <= i < list.len() implies !((#[trigger] list[i]) is Root) by {};
            assert(segs[0].len() > 0);
            assert(!segs[0].contains('/'));
            assert(p[0] == segs[0][0]);
            assert(!rooted(p));
            lemma_piece_parts_of_texts(list);
        }
    }
}

/// The components of a text that is joined from pieces.
pub proof fn lemma_joined_parts(list: Seq<Seq<char>>)
    requires
        list.len() > 0,
        forall|i: int| 0 <= i < list.len() ==> !(#[trigger] list[i]).contains('/'),
    ensures
        pieces(joined(list, "/"@), '/') == list,
        rooted(joined(list, "/"@)) == (list.len() > 1 && list[0].len() == 0),
{
    reveal_strlit("/");
    assert("/"@ =~= seq!['/']);
    law_split_undoes_join(list, '/');
    lemma_joined_starts(list, "/"@);
    let p = joined(list, "/"@);
    if list[0].len() > 0 {
        assert(p.subrange(0, list[0].len() as int)[0] == list[0][0]);
        assert(p[0] == list[0][0]);
        assert(list[0].contains(list[0][0]));
    } else if list.len() > 1 {
        assert((list[0] + "/"@)[0] == '/');
        assert(p.subrange(0, 1)[0] == '/');
    } else {
        assert(p == list[0]);
    }
}

/// A path that is not rooted does not begin with an empty piece, unless it is empty.
pub proof fn lemma_first_piece_of_relative(p: Seq<char>)
    requires
        !rooted(p),
        p.len() > 0,
    ensures
        pieces(p, '/').len() >= 1,
        pieces(p, '/')[0].len() > 0,
    decreases p.len(),
{
    text::lemma_pieces_len(p.drop_last(), '/');
    if p.len() > 1 {
        assert(p.drop_last()[0] == p[0]);
        lemma_first_piece_of_relative(p.drop_last());
    } else {
        assert(p.drop_last() =~= Seq::<char>::empty());
        let before = pieces(p.drop_last(), '/');
        assert(before =~= seq![Seq::<char>::empty()]);
    }
}

/// The pieces that it takes for `n` components stand for those components, and the last of
/// them for the last.
pub proof fn lemma_upto(list: Seq<Seq<char>>, n: int)
    requires
        0 <= n <= piece_parts(list).len(),
    ensures
        upto(list, n).len() <= list.len(),
        upto(list, n) == list.take(upto(list, n).len() as int),
        piece_parts(upto(list, n)) == piece_parts(list).take(n),
        n > 0 ==> upto(list, n).len() > 0 && piece_part(
            upto(list, n).last(),
            upto(list, n).len() == 1,
        ) is Some,
        n == 0 ==> upto(list, n).len() == 0,
    decreases list.len(),
{
    if list.len() > 0 && piece_parts(list.drop_last()).len() >= n {
        let front = list.drop_last();
        lemma_upto(front, n);
        assert(front.take(upto(list, n).len() as int) =~= list.take(upto(list, n).len() as int));
        assert(piece_parts(front).take(n) =~= piece_parts(list).take(n));
    } else {
        assert(list.take(list.len() as int) =~= list);
        assert(piece_parts(list).take(n) =~= piece_parts(list));
    }
}

/// Fewer components take fewer pieces.
proof fn lemma_upto_grows(list: Seq<Seq<char>>, m: int, n: int)
    requires
        0 <= m <= n <= piece_parts(list).len(),
    ensures
        upto(list, m).len() <= upto(list, n).len(),
    decreases list.len(),
{
    if list.len() > 0 && piece_parts(list.drop_last()).len() >= n {
        lemma_upto_grows(list.drop_last(), m, n);
    } else {
        lemma_upto(list, m);
    }
}

/// The first `n` components of a path, as spelled, are its first `n` components.
pub proof fn law_lead(p: Seq<char>, n: int)
    requires
        0 <= n <= parts(p).len(),
    ensures
        parts(lead(p, n)) == parts(p).take(n),
{
    let list = pieces(p, '/');
    text::lemma_pieces_hold_no_separator(p, '/');
    text::lemma_pieces_len(p, '/');
    if rooted(p) && n == 1 {
        law_written_parts(seq![Part::Root]);
        assert(parts(p).take(1) =~= seq![Part::Root]);
    } else {
        let m = n - root_len(p);
        if n == 0 {
            assert(upto(list, m).len() == 0) by {
                if rooted(p) {
                    lemma_upto_none(list, m);
                } else {
                    lemma_upto(list, 0);
                }
            }
            lemma_empty_parts();
            assert(lead(p, n) =~= Seq::<char>::empty());
            assert(parts(p).take(0) =~= Seq::<Part>::empty());
        } else {
            lemma_upto(list, m);
            let kept = upto(list, m);
            assert forall|i: int| 0 <= i < kept.len() implies !(#[trigger] kept[i]).contains(
                '/',
            ) by {
                assert(kept[i] == list[i]);
            }
            lemma_joined_parts(kept);
            assert(kept[0] == list[0]);
            if rooted(p) {
                lemma_first_piece_of_rooted(p);
                assert(kept.len() > 1) by {
                    if kept.len() == 1 {
                        assert(piece_part(kept.last(), true) is None);
                    }
                }
                assert(parts(p).take(n) =~= seq![Part::Root] + piece_parts(list).take(m));
            } else {
                assert(p.len() > 0) by {
                    if p.len() == 0 {
                        assert(p =~= Seq::<char>::empty());
                        lemma_empty_parts();
                    }
                }
                lemma_first_piece_of_relative(p);
            }
        }
    }
}

/// No component takes no piece.
proof fn lemma_upto_none(list: Seq<Seq<char>>, n: int)
    requires
        n <= 0,
    ensures
        upto(list, n).len() == 0,
    decreases list.len(),
{
    if list.len() > 0 {
        lemma_upto_none(list.drop_last(), n);
    }
}

/// The root is the first component of a rooted path, and no other component is one.
pub proof fn lemma_root_leads(p: Seq<char>)
    ensures
        forall|i: int|
            0 <= i < parts(p).len() ==> ((#[trigger] parts(p)[i]) is Root <==> i == 0 && rooted(p)),
{
    text::lemma_pieces_hold_no_separator(p, '/');
    let named = piece_parts(pieces(p, '/'));
    lemma_piece_parts_proper(pieces(p, '/'));
    assert forall|i: int| 0 <= i < parts(p).len() implies ((#[trigger] parts(p)[i]) is Root <==> i
        == 0 && rooted(p)) by {
        if rooted(p) && i > 0 {
            assert(parts(p)[i] == named[i - 1]);
        }
        if !rooted(p) {
            assert(parts(p)[i] == named[i]);
        }
    }
}

/// The empty text has no components.
pub proof fn lemma_empty_parts()
    ensures
        parts(Seq::<char>::empty()) == Seq::<Part>::empty(),
{
    let one = seq![Seq::<char>::empty()];
    reveal_with_fuel(piece_parts, 2);
    assert(one.drop_last() =~= Seq::<Seq<char>>::empty());
    assert(piece_parts(one) =~= Seq::<Part>::empty());
}

/// The components that pieces stand for where they do not lead.
spec fn inner_parts(list: Seq<Seq<char>>) -> Seq<Part>
    decreases list.len(),
{
    if list.len() == 0 {
        Seq::empty()
    } else {
        let front = inner_parts(list.drop_last());
        match piece_part(list.last(), false) {
            Some(part) => front.push(part),
            None => front,
        }
    }
}

/// A list of pieces stands for what its beginning stands for, and then for the rest.
proof fn lemma_piece_parts_split(list: Seq<Seq<char>>, k: int)
    requires
        0 <= k <= list.len(),
        k > 0 || (list.len() > 0 && list[0] != "."@),
    ensures
        piece_parts(list) == piece_parts(list.take(k)) + inner_parts(list.skip(k)),
    decreases list.len(),
{
    if k == list.len() {
        assert(list.take(k) =~= list);
        assert(list.skip(k) =~= Seq::<Seq<char>>::empty());
        assert(piece_parts(list) =~= piece_parts(list) + Seq::<Part>::empty());
    } else {
        let front = list.drop_last();
        let after = list.skip(k);
        assert(after.drop_last() =~= front.skip(k));
        assert(after.last() == list.last());
        assert(front.take(k) =~= list.take(k));
        if front.len() == 0 {
            assert(k == 0);
            assert(list.take(0) =~= Seq::<Seq<char>>::empty());
            assert(front =~= Seq::<Seq<char>>::empty());
            assert(after.drop_last() =~= Seq::<Seq<char>>::empty());
            reveal_with_fuel(piece_parts, 2);
            reveal_with_fuel(inner_parts, 2);
            assert(piece_part(list.last(), true) == piece_part(list.last(), false));
            assert(piece_parts(list) =~= piece_parts(list.take(k)) + inner_parts(after));
        } else {
            assert(front[0] == list[0]);
            lemma_piece_parts_split(front, k);
            let head = piece_parts(list.take(k));
            let inner = inner_parts(front.skip(k));
            assert(piece_parts(list) =~= head + inner_parts(after));
        }
    }
}

/// Leaving out what says nothing at the beginning leaves the components.
proof fn lemma_led(list: Seq<Seq<char>>)
    ensures
        inner_parts(led(list)) == inner_parts(list),
        led(list).len() > 0 ==> led(list)[0].len() > 0 && led(list)[0] != "."@,
        forall|i: int|
            0 <= i < led(list).len() ==> exists|j: int|
                0 <= j < list.len() && #[trigger] led(list)[i] == #[trigger] list[j],
    decreases list.len(),
{
    if list.len() > 0 && (list[0].len() == 0 || list[0] == "."@) {
        let rest = list.drop_first();
        lemma_led(rest);
        lemma_inner_first(list);
        assert forall|i: int| 0 <= i < led(list).len() implies exists|j: int|
            0 <= j < list.len() && #[trigger] led(list)[i] == #[trigger] list[j] by {
            let j = choose|j: int| 0 <= j < rest.len() && led(list)[i] == rest[j];
            assert(list[j + 1] == rest[j]);
        }
    } else {
        assert forall|i: int| 0 <= i < led(list).len() implies exists|j: int|
            0 <= j < list.len() && #[trigger] led(list)[i] == #[trigger] list[j] by {
            assert(led(list)[i] == list[i]);
        }
    }
}

/// A first piece that says nothing can be left out.
proof fn lemma_inner_first(list: Seq<Seq<char>>)
    requires
        list.len() > 0,
        list[0].len() == 0 || list[0] == "."@,
    ensures
        inner_parts(list.drop_first()) == inner_parts(list),
    decreases list.len(),
{
    if list.len() == 1 {
        reveal_with_fuel(inner_parts, 2);
        assert(list.drop_first() =~= Seq::<Seq<char>>::empty());
        assert(list.drop_last() =~= Seq::<Seq<char>>::empty());
    } else {
        let front = list.drop_last();
        assert(front[0] == list[0]);
        lemma_inner_first(front);
        assert(list.drop_first().drop_last() =~= front.drop_first());
        assert(list.drop_first().last() == list.last());
    }
}

/// Where the first piece does not say `.`, pieces stand for the same wherever they stand.
proof fn lemma_inner_leads(list: Seq<Seq<char>>)
    requires
        list.len() > 0 ==> list[0] != "."@,
    ensures
        piece_parts(list) == inner_parts(list),
    decreases list.len(),
{
    if list.len() > 0 {
        if list.len() > 1 {
            assert(list.drop_last()[0] == list[0]);
        }
        lemma_inner_leads(list.drop_last());
    }
}

/// The components of a path after the first `n`, as spelled, are those components.
pub proof fn law_tail(p: Seq<char>, n: int)
    requires
        0 <= n <= parts(p).len(),
    ensures
        parts(tail(p, n)) == parts(p).skip(n),
{
    if n == 0 {
        law_lead(p, parts(p).len() as int);
        assert(parts(p).take(parts(p).len() as int) =~= parts(p));
        assert(parts(p).skip(0) =~= parts(p));
    } else {
        let list = pieces(p, '/');
        text::lemma_pieces_hold_no_separator(p, '/');
        let total = piece_parts(list).len() as int;
        let m = n - root_len(p);
        lemma_upto(list, total);
        lemma_upto(list, m);
        lemma_upto_grows(list, m, total);
        let all = upto(list, total);
        let k = upto(list, m).len() as int;
        let after = all.skip(k);
        let kept = led(after);
        assert(piece_parts(list).take(total) =~= piece_parts(list));
        assert(all.take(k) =~= upto(list, m));
        assert(piece_parts(all) == piece_parts(list));
        if all.len() > 0 {
            assert(all[0] == list[0]);
            if k == 0 {
                lemma_first_piece_of_rooted(p);
                reveal_strlit(".");
            }
            lemma_piece_parts_split(all, k);
            assert(inner_parts(after) =~= piece_parts(list).skip(m));
        } else {
            assert(after =~= Seq::<Seq<char>>::empty());
            assert(inner_parts(after) =~= piece_parts(list).skip(m));
        }
        lemma_led(after);
        lemma_inner_leads(kept);
        assert(parts(p).skip(n) =~= piece_parts(list).skip(m));
        if kept.len() > 0 {
            assert forall|i: int| 0 <= i < kept.len() implies !(#[trigger] kept[i]).contains(
                '/',
            ) by {
                let j = choose|j: int| 0 <= j < after.len() && kept[i] == after[j];
                assert(after[j] == all[j + k]);
                assert(all[j + k] == list[j + k]);
            }
            lemma_joined_parts(kept);
        } else {
            lemma_empty_parts();
            assert(tail(p, n) =~= Seq::<char>::empty());
            assert(piece_parts(kept) =~= Seq::<Part>::empty());
        }
    }
}

/// A file name that a component can have.
pub open spec fn proper_name(name: Seq<char>) -> bool {
    name.len() > 0 && name != "."@ && name != ".."@ && !name.contains('/')
}

/// A path with its extension replaced has the components of the path, but for the last.
pub proof fn law_retyped(p: Seq<char>, ext: Seq<char>)
    requires
        name_of(p) matches Some(name) ==> proper_name(renamed(name, ext)),
    ensures
        parts(retyped(p, ext)) == extended_parts(p, ext),
{
    if let Some(name) = name_of(p) {
        let fresh = renamed(name, ext);
        let list = pieces(p, '/');
        text::lemma_pieces_hold_no_separator(p, '/');
        let total = piece_parts(list).len() as int;
        assert(total > 0) by {
            if total == 0 {
                assert(parts(p) =~= seq![Part::Root] || parts(p) =~= Seq::<Part>::empty());
            }
        }
        lemma_upto(list, total);
        let kept = upto(list, total);
        let front = kept.drop_last();
        let whole = front.push(fresh);
        assert(piece_parts(list).take(total) =~= piece_parts(list));
        assert(whole.drop_last() =~= front);
        assert(piece_parts(list) == piece_parts(front).push(
            piece_part(kept.last(), kept.len() == 1)->Some_0,
        ));
        assert(piece_parts(whole) == piece_parts(front).push(Part::Name(fresh)));
        assert forall|i: int| 0 <= i < whole.len() implies !(#[trigger] whole[i]).contains('/') by {
            if i < front.len() {
                assert(whole[i] == list[i]);
            }
        }
        lemma_joined_parts(whole);
        if rooted(p) {
            lemma_first_piece_of_rooted(p);
            assert(kept.len() > 1) by {
                if kept.len() == 1 {
                    assert(kept[0] == list[0]);
                    assert(piece_part(kept.last(), true) is None);
                }
            }
            assert(whole[0] == list[0]);
            assert(seq![Part::Root] + piece_parts(front).push(Part::Name(fresh)) =~= (
            seq![Part::Root] + piece_parts(list)).drop_last().push(Part::Name(fresh)));
        } else {
            assert(!rooted(joined(whole, "/"@))) by {
                if whole.len() > 1 {
                    assert(whole[0] == list[0]);
                    assert(p.len() > 0) by {
                        if p.len() == 0 {
                            assert(p =~= Seq::<char>::empty());
                            lemma_empty_parts();
                        }
                    }
                    lemma_first_piece_of_relative(p);
                }
            }
            assert(piece_parts(front).push(Part::Name(fresh)) =~= piece_parts(
                list,
            ).drop_last().push(Part::Name(fresh)));
        }
    }
}

/// A name below a directory is its last component.
pub proof fn law_under(base: Seq<char>, name: Seq<char>)
    requires
        proper_name(name),
    ensures
        parts(under(base, name)) == parts(base).push(Part::Name(name)),
{
    reveal_strlit("/");
    assert("/"@ =~= seq!['/']);
    assert(name[0] != '/') by {
        assert(name.contains(name[0]));
    }
    let p = under(base, name);
    if base.len() == 0 {
        assert(p =~= name);
        assert(base =~= Seq::<char>::empty());
        lemma_empty_parts();
        text::lemma_pieces_single(name, '/');
        let one = seq![name];
        reveal_with_fuel(piece_parts, 2);
        assert(one.drop_last() =~= Seq::<Seq<char>>::empty());
        assert(parts(p) =~= parts(base).push(Part::Name(name)));
    } else {
        assert(p[0] == base[0]);
        if base.last() == '/' {
            let front = base.drop_last();
            assert(p =~= front.push('/') + name);
            lemma_pieces_append(front, name, '/');
            assert(base =~= front.push('/'));
            assert(pieces(base, '/') == pieces(front, '/').push(Seq::empty()));
            let list = pieces(front, '/').push(name);
            let old = pieces(front, '/').push(Seq::<char>::empty());
            assert(list.drop_last() =~= pieces(front, '/'));
            assert(old.drop_last() =~= pieces(front, '/'));
            text::lemma_pieces_len(front, '/');
            assert(piece_parts(list) == piece_parts(old).push(Part::Name(name)));
        } else {
            assert(p =~= base.push('/') + name);
            lemma_pieces_append(base, name, '/');
            let list = pieces(base, '/').push(name);
            assert(list.drop_last() =~= pieces(base, '/'));
            text::lemma_pieces_len(base, '/');
            assert(piece_parts(list) == piece_parts(pieces(base, '/')).push(Part::Name(name)));
        }
        assert(parts(p) =~= parts(base).push(Part::Name(name)));
    }
}

/// A path with its file name replaced has the components of the path, but for the last.
pub proof fn law_refiled(p: Seq<char>, name: Seq<char>)
    requires
        proper_name(name),
    ensures
        parts(refiled(p, name)) == named_parts(p, name),
{
    match name_of(p) {
        Some(_) => {
            let n = parts(p).len() - 1;
            law_lead(p, n);
            law_under(lead(p, n), name);
            assert(parts(p).take(n) =~= parts(p).drop_last());
        },
        None => {
            law_under(p, name);
        },
    }
}

// ---------------------------------------------------------------------------
// Functions
// ---------------------------------------------------------------------------

/// The components of the path `p`.
pub fn components(p: &str) -> (r: Vec<Component>)
    ensures
        views(r@) == parts(p@),
        proper(views(r@)),
{
    proof {
        lemma_parts_proper(p@);
    }
    let list = text::split(p, '/');
    let mut out: Vec<Component> = Vec::new();
    if !p.is_empty() && p.get_char(0) == '/' {
        out.push(Component::RootDir);
    }
    let ghost lead = views(out@);
    let mut i: usize = 0;
    assert(views(out@) =~= lead + piece_parts(texts(list@).take(0)));
    while i < list.len()
        invariant
            i <= list@.len(),
            views(out@) == lead + piece_parts(texts(list@).take(i as int)),
        decreases list@.len() - i,
    {
        let piece = list[i].as_str();
        proof {
            let grown = texts(list@).take(i + 1);
            assert(grown.drop_last() =~= texts(list@).take(i as int));
            assert(grown.last() == piece@);
            assert(grown.len() == i + 1);
        }
        let ghost kept = out@;
        let ghost front = piece_parts(texts(list@).take(i as int));
        if piece.is_empty() {
        } else if text::same(piece, ".") {
            if i == 0 {
                out.push(Component::CurDir);
                proof {
                    lemma_views_push(kept, Component::CurDir);
                    assert((lead + front).push(Part::Here) =~= lead + front.push(Part::Here));
                }
            }
        } else if text::same(piece, "..") {
            out.push(Component::ParentDir);
            proof {
                lemma_views_push(kept, Component::ParentDir);
                assert((lead + front).push(Part::Up) =~= lead + front.push(Part::Up));
            }
        } else {
            let name = piece.to_owned();
            proof {
                lemma_views_push(kept, Component::Normal(name));
                assert((lead + front).push(Part::Name(name@)) =~= lead + front.push(
                    Part::Name(name@),
                ));
            }
            out.push(Component::Normal(name));
        }
        i += 1;
    }
    assert(texts(list@).take(list@.len() as int) =~= texts(list@));
    proof {
        if rooted(p@) {
            assert(lead =~= seq![Part::Root]);
        } else {
            assert(lead + piece_parts(pieces(p@, '/')) =~= piece_parts(pieces(p@, '/')));
        }
    }
    out
}

/// The canonical text of a list of components.
pub fn render(list: &Vec<Component>) -> (r: String)
    ensures
        r@ == written(views(list@)),
{
    if list.len() == 1 {
        if let Component::RootDir = &list[0] {
            assert(views(list@) =~= seq![Part::Root]);
            return "/".to_owned();
        }
    }
    let mut names: Vec<String> = Vec::new();
    let mut i: usize = 0;
    while i < list.len()
        invariant
            i <= list@.len(),
            names@.len() == i,
            forall|j: int| 0 <= j < i ==> names@[j]@ == part_text(list@[j]@),
        decreases list@.len() - i,
    {
        let name = match &list[i] {
            Component::RootDir => String::new(),
            Component::CurDir => ".".to_owned(),
            Component::ParentDir => "..".to_owned(),
            Component::Normal(name) => name.clone(),
        };
        names.push(name);
        i += 1;
    }
    assert(texts(names@) =~= part_texts(views(list@)));
    assert(views(list@) == seq![Part::Root] ==> views(list@)[0] is Root && list@.len() == 1);
    text::join(&names, "/")
}

/// The last component of `p`, when it is an ordinary name.
pub fn file_name(p: &str) -> (r: Option<String>)
    ensures
        opt_text(r) == name_of(p@),
{
    let mut list = components(p);
    let ghost all = list@;
    match list.pop() {
        Some(last) => {
            assert(last == all[all.len() - 1]);
            assert(views(all).last() == last@);
            match last {
                Component::Normal(name) => Some(name),
                _ => None,
            }
        },
        None => None,
    }
}

/// The extension of a file name.
pub fn extension_in(name: &str) -> (r: Option<String>)
    ensures
        opt_text(r) == name_extension(name@),
{
    let all = text::chars(name);
    proof {
        text::lemma_char_at_last(name@, '.');
    }
    match text::last_of(&all, '.') {
        Some(i) if i > 0 => {
            let n = all.len();
            let ext = text::slice(&all, i + 1, n);
            assert(ext@ =~= name@.skip(i + 1));
            Some(ext)
        },
        _ => None,
    }
}

/// A file name without its extension.
pub fn stem_in(name: &str) -> (r: String)
    ensures
        r@ == name_stem(name@),
{
    let all = text::chars(name);
    proof {
        text::lemma_char_at_last(name@, '.');
    }
    match text::last_of(&all, '.') {
        Some(i) if i > 0 => {
            let stem = text::slice(&all, 0, i);
            assert(stem@ =~= name@.take(i as int));
            stem
        },
        _ => name.to_owned(),
    }
}

/// The extension of `p`.
pub fn extension(p: &str) -> (r: Option<String>)
    ensures
        opt_text(r) == extension_of(p@),
{
    match file_name(p) {
        Some(name) => extension_in(name.as_str()),
        None => None,
    }
}

/// The pieces at the beginning of a list that it takes for `n` of its `count` components.
fn shorten(list: Vec<String>, count: usize, n: usize) -> (r: Vec<String>)
    requires
        count == piece_parts(texts(list@)).len(),
        n <= count,
    ensures
        texts(r@) == upto(texts(list@), n as int),
{
    let ghost all = texts(list@);
    let mut out = list;
    let mut left: usize = count;
    while out.len() > 0
        invariant
            all == texts(list@),
            upto(texts(out@), n as int) == upto(all, n as int),
            left == piece_parts(texts(out@)).len(),
            n <= left,
        decreases out@.len(),
    {
        let ghost kept = texts(out@);
        let last = out[out.len() - 1].as_str();
        let leads = out.len() == 1;
        assert(kept.last() == last@);
        let speaks = !last.is_empty() && (leads || !text::same(last, "."));
        assert(speaks == (piece_part(kept.last(), kept.len() == 1) is Some)) by {
            reveal_strlit(".");
            reveal_strlit("..");
        }
        if speaks && left == n {
            assert(piece_parts(kept.drop_last()).len() < n);
            assert(upto(kept, n as int) == kept);
            return out;
        }
        let _ = out.pop();
        assert(texts(out@) =~= kept.drop_last());
        if speaks {
            left -= 1;
        }
    }
    out
}

/// How many components the pieces of `p` stand for.
fn count_pieces(p: &str) -> (r: usize)
    ensures
        r == piece_parts(pieces(p@, '/')).len(),
        r == parts(p@).len() - root_len(p@),
{
    let list = components(p);
    assert(views(list@).len() == list@.len());
    let n = list.len();
    if is_absolute(p) {
        n - 1
    } else {
        n
    }
}

/// The first `n` components of `p`, as they are spelled in it.
pub fn leading(p: &str, n: usize) -> (r: String)
    requires
        n <= parts(p@).len(),
    ensures
        r@ == lead(p@, n as int),
{
    if is_absolute(p) {
        if n == 1 {
            return "/".to_owned();
        }
        if n == 0 {
            proof {
                lemma_upto_none(pieces(p@, '/'), -1);
                assert(lead(p@, 0) =~= Seq::<char>::empty());
            }
            return String::new();
        }
        let kept = shorten(text::split(p, '/'), count_pieces(p), n - 1);
        text::join(&kept, "/")
    } else {
        let kept = shorten(text::split(p, '/'), count_pieces(p), n);
        text::join(&kept, "/")
    }
}

/// The components of `p` after the first `n`, as they are spelled in it.
pub fn trailing(p: &str, n: usize) -> (r: String)
    requires
        n <= parts(p@).len(),
    ensures
        r@ == tail(p@, n as int),
{
    if n == 0 {
        return leading(p, components(p).len());
    }
    let total = count_pieces(p);
    let m = if is_absolute(p) {
        n - 1
    } else {
        n
    };
    let all = shorten(text::split(p, '/'), total, total);
    let from = shorten(text::split(p, '/'), total, m).len();
    proof {
        let list = pieces(p@, '/');
        lemma_upto(list, total as int);
        lemma_upto(list, m as int);
        lemma_upto_grows(list, m as int, total as int);
    }
    let ghost after = texts(all@).skip(from as int);
    let mut i: usize = from;
    assert(texts(all@).skip(i as int) =~= after);
    while i < all.len() && (all[i].as_str().is_empty() || text::same(all[i].as_str(), "."))
        invariant
            from <= i <= all@.len(),
            led(texts(all@).skip(i as int)) == led(after),
        decreases all@.len() - i,
    {
        proof {
            let here = texts(all@).skip(i as int);
            assert(here[0] == all@[i as int]@);
            assert(here.drop_first() =~= texts(all@).skip(i + 1));
        }
        i += 1;
    }
    proof {
        let here = texts(all@).skip(i as int);
        if i < all@.len() {
            assert(here[0] == all@[i as int]@);
        }
        assert(led(here) == here);
    }
    let mut kept: Vec<String> = Vec::new();
    let start: usize = i;
    while i < all.len()
        invariant
            start <= i <= all@.len(),
            kept@.len() == i - start,
            forall|k: int| 0 <= k < kept@.len() ==> (#[trigger] kept@[k])@ == all@[k + start]@,
        decreases all@.len() - i,
    {
        kept.push(all[i].clone());
        i += 1;
    }
    assert(texts(kept@) =~= texts(all@).skip(start as int));
    text::join(&kept, "/")
}

/// The directory `p` is in.
pub fn parent(p: &str) -> (r: Option<String>)
    ensures
        opt_text(r) == parent_of(p@),
{
    let list = components(p);
    if list.len() == 0 {
        return None;
    }
    let n = list.len() - 1;
    assert(views(list@).last() == list@[n as int]@);
    if let Component::RootDir = &list[n] {
        return None;
    }
    Some(leading(p, n))
}

/// `p` with its extension replaced by `ext`, or taken away when `ext` is empty.
pub fn with_extension(p: &str, ext: &str) -> (r: String)
    ensures
        r@ == retyped(p@, ext@),
{
    match file_name(p) {
        Some(name) => {
            let total = count_pieces(p);
            let mut list = shorten(text::split(p, '/'), total, total);
            let ghost all = list@;
            proof {
                lemma_upto(pieces(p@, '/'), total as int);
                assert(total > 0) by {
                    if total == 0 {
                        assert(parts(p@) =~= seq![Part::Root] || parts(p@) =~= Seq::<
                            Part,
                        >::empty());
                    }
                }
            }
            let mut fresh = stem_in(name.as_str());
            if !ext.is_empty() {
                fresh = fresh.concat(".").concat(ext);
            }
            let _ = list.pop();
            assert(texts(list@) =~= texts(all).drop_last());
            proof {
                text::lemma_texts_push(list@, fresh);
            }
            list.push(fresh);
            text::join(&list, "/")
        },
        None => p.to_owned(),
    }
}

/// The components of a path with its file name replaced.
pub open spec fn named_parts(p: Seq<char>, name: Seq<char>) -> Seq<Part> {
    match name_of(p) {
        Some(_) => parts(p).drop_last().push(Part::Name(name)),
        None => parts(p).push(Part::Name(name)),
    }
}

/// `p` with its file name replaced by `name`.
pub fn with_file_name(p: &str, name: &str) -> (r: String)
    ensures
        r@ == refiled(p@, name@),
{
    if file_name(p).is_some() {
        let n = components(p).len() - 1;
        join(leading(p, n).as_str(), name)
    } else {
        join(p, name)
    }
}

/// Whether `p` is absolute.
pub fn is_absolute(p: &str) -> (r: bool)
    ensures
        r == rooted(p@),
{
    !p.is_empty() && p.get_char(0) == '/'
}

/// `rel` read from the directory `base`.
pub fn join(base: &str, rel: &str) -> (r: String)
    ensures
        r@ == under(base@, rel@),
{
    if is_absolute(rel) {
        rel.to_owned()
    } else if base.is_empty() || base.get_char(base.unicode_len() - 1) == '/' {
        base.to_owned().concat(rel)
    } else {
        base.to_owned().concat("/").concat(rel)
    }
}

/// Whether two components are the same.
fn same_component(a: &Component, b: &Component) -> (r: bool)
    ensures
        r == (a@ == b@),
{
    match (a, b) {
        (Component::RootDir, Component::RootDir) => true,
        (Component::CurDir, Component::CurDir) => true,
        (Component::ParentDir, Component::ParentDir) => true,
        (Component::Normal(x), Component::Normal(y)) => text::same(x.as_str(), y.as_str()),
        _ => false,
    }
}

/// Whether the path `p` is `base` or lies below it.
pub fn starts_with(p: &str, base: &str) -> (r: bool)
    ensures
        r == parts(base@).is_prefix_of(parts(p@)),
{
    let x = components(p);
    let y = components(base);
    if y.len() > x.len() {
        return false;
    }
    let mut i: usize = 0;
    while i < y.len()
        invariant
            i <= y@.len() <= x@.len(),
            views(x@) == parts(p@),
            views(y@) == parts(base@),
            forall|j: int| 0 <= j < i ==> x@[j]@ == y@[j]@,
        decreases y@.len() - i,
    {
        if !same_component(&x[i], &y[i]) {
            assert(views(x@)[i as int] != views(y@)[i as int]);
            proof {
                if views(y@).is_prefix_of(views(x@)) {
                    assert(views(x@).subrange(0, y@.len() as int)[i as int] == views(y@)[i as int]);
                }
            }
            return false;
        }
        i += 1;
    }
    assert(views(y@) =~= views(x@).subrange(0, y@.len() as int));
    true
}

/// The components of `p` below `base`, when it lies there.
pub open spec fn below(p: Seq<char>, base: Seq<char>) -> Option<Seq<Part>> {
    if parts(base).is_prefix_of(parts(p)) {
        Some(parts(p).skip(parts(base).len() as int))
    } else {
        None
    }
}

/// What is left of `p` below `base`, when it lies there.
pub fn strip_base(p: &str, base: &str) -> (r: Option<String>)
    ensures
        opt_text(r) == rest_of(p@, base@),
{
    if !starts_with(p, base) {
        return None;
    }
    Some(trailing(p, components(base).len()))
}

/// Whether two texts name the same path.
pub fn same_path(a: &str, b: &str) -> (r: bool)
    ensures
        r == (parts(a@) == parts(b@)),
{
    let x = starts_with(a, b);
    let y = starts_with(b, a);
    proof {
        if x && y {
            let p = parts(a@);
            let q = parts(b@);
            assert(q =~= p.subrange(0, q.len() as int));
            assert(p =~= q.subrange(0, p.len() as int));
            assert(p =~= q);
        } else if parts(a@) == parts(b@) {
            let p = parts(a@);
            assert(p =~= p.subrange(0, p.len() as int));
            assert(p.is_prefix_of(p));
        }
    }
    x && y
}

// ---------------------------------------------------------------------------
// Order
// ---------------------------------------------------------------------------

/// Where a component stands among components: the root, a leading `.`, `..`, then names.
pub open spec fn rank(part: Part) -> int {
    match part {
        Part::Root => 0,
        Part::Here => 1,
        Part::Up => 2,
        Part::Name(_) => 3,
    }
}

/// One component comes strictly before another.
pub open spec fn part_before(a: Part, b: Part) -> bool {
    match (a, b) {
        (Part::Name(x), Part::Name(y)) => text::before(x, y),
        _ => rank(a) < rank(b),
    }
}

/// One list of components comes strictly before another, component by component.
pub open spec fn parts_before(a: Seq<Part>, b: Seq<Part>) -> bool
    decreases a.len(),
{
    if b.len() == 0 {
        false
    } else if a.len() == 0 {
        true
    } else if a[0] != b[0] {
        part_before(a[0], b[0])
    } else {
        parts_before(a.drop_first(), b.drop_first())
    }
}

proof fn lemma_part_order(a: Part, b: Part)
    ensures
        !part_before(a, a),
        part_before(a, b) || part_before(b, a) || a == b,
{
    match (a, b) {
        (Part::Name(x), Part::Name(y)) => {
            text::lemma_before_total(x, y);
        },
        _ => {},
    }
    match a {
        Part::Name(x) => {
            text::lemma_before_irreflexive(x);
        },
        _ => {},
    }
}

proof fn lemma_part_transitive(a: Part, b: Part, c: Part)
    requires
        part_before(a, b),
        part_before(b, c),
    ensures
        part_before(a, c),
{
    match (a, b) {
        (Part::Name(x), Part::Name(y)) => {
            match c {
                Part::Name(z) => {
                    text::lemma_before_transitive(x, y, z);
                },
                _ => {},
            }
        },
        _ => {},
    }
}

pub proof fn lemma_parts_irreflexive(a: Seq<Part>)
    ensures
        !parts_before(a, a),
    decreases a.len(),
{
    if a.len() > 0 {
        lemma_parts_irreflexive(a.drop_first());
    }
}

pub proof fn lemma_parts_transitive(a: Seq<Part>, b: Seq<Part>, c: Seq<Part>)
    requires
        parts_before(a, b),
        parts_before(b, c),
    ensures
        parts_before(a, c),
    decreases a.len(),
{
    if a.len() > 0 {
        if a[0] == b[0] && b[0] == c[0] {
            lemma_parts_transitive(a.drop_first(), b.drop_first(), c.drop_first());
        } else if a[0] != b[0] && b[0] != c[0] {
            lemma_part_transitive(a[0], b[0], c[0]);
            if a[0] == c[0] {
                lemma_part_order(a[0], b[0]);
            }
        }
    }
}

pub proof fn lemma_parts_total(a: Seq<Part>, b: Seq<Part>)
    ensures
        parts_before(a, b) || parts_before(b, a) || a == b,
    decreases a.len(),
{
    if a.len() > 0 && b.len() > 0 {
        if a[0] == b[0] {
            lemma_parts_total(a.drop_first(), b.drop_first());
            if a.drop_first() == b.drop_first() {
                assert(seq![a[0]] + a.drop_first() =~= a);
                assert(seq![b[0]] + b.drop_first() =~= b);
            }
        } else {
            lemma_part_order(a[0], b[0]);
        }
    } else if a.len() == 0 && b.len() == 0 {
        assert(a =~= b);
    }
}

fn component_precedes(a: &Component, b: &Component) -> (r: bool)
    ensures
        r == part_before(a@, b@),
{
    match (a, b) {
        (Component::Normal(x), Component::Normal(y)) => text::precedes(x.as_str(), y.as_str()),
        (Component::Normal(_), _) => false,
        (_, Component::Normal(_)) => true,
        (Component::RootDir, Component::RootDir) => false,
        (Component::RootDir, _) => true,
        (_, Component::RootDir) => false,
        (Component::CurDir, Component::CurDir) => false,
        (Component::CurDir, _) => true,
        (_, _) => false,
    }
}

/// Whether the path `a` comes strictly before the path `b`.
pub fn precedes(a: &str, b: &str) -> (r: bool)
    ensures
        r == parts_before(parts(a@), parts(b@)),
{
    let x = components(a);
    let y = components(b);
    let ghost p = views(x@);
    let ghost q = views(y@);
    let mut i: usize = 0;
    assert(p.skip(0) =~= p);
    assert(q.skip(0) =~= q);
    while i < x.len() && i < y.len()
        invariant
            i <= x@.len(),
            i <= y@.len(),
            p == views(x@),
            q == views(y@),
            p == parts(a@),
            q == parts(b@),
            parts_before(p, q) == parts_before(p.skip(i as int), q.skip(i as int)),
        decreases x@.len() - i,
    {
        if !same_component(&x[i], &y[i]) {
            assert(p.skip(i as int)[0] == x@[i as int]@);
            assert(q.skip(i as int)[0] == y@[i as int]@);
            return component_precedes(&x[i], &y[i]);
        }
        assert(p.skip(i as int).drop_first() =~= p.skip(i + 1));
        assert(q.skip(i as int).drop_first() =~= q.skip(i + 1));
        i += 1;
    }
    i < y.len()
}

// ---------------------------------------------------------------------------
// Laws on spelled paths
// ---------------------------------------------------------------------------

/// A name is its stem, a `.` and its extension, whatever the stem holds; another extension takes
/// the place of the last one, and an empty one takes the `.` along. A name whose only `.` leads has
/// no extension, and neither has one without.
pub proof fn law_extension(stem: Seq<char>, ext: Seq<char>, other: Seq<char>)
    requires
        stem.len() > 0,
        !ext.contains('.'),
        other.len() > 0,
    ensures
        name_extension(stem + "."@ + ext) == Some(ext),
        name_stem(stem + "."@ + ext) == stem,
        renamed(stem + "."@ + ext, other) == stem + "."@ + other,
        renamed(stem + "."@ + ext, Seq::empty()) == stem,
        name_extension("."@ + ext) is None,
        name_extension(ext) is None,
        name_stem("."@ + ext) == "."@ + ext,
        name_stem(ext) == ext,
{
    reveal_strlit(".");
    let name = stem + "."@ + ext;
    let i = stem.len() as int;
    text::lemma_char_at_last(name, '.');
    text::lemma_char_at_last("."@ + ext, '.');
    text::lemma_char_at_last(ext, '.');
    assert(name[i] == '.');
    assert forall|j: int| i < j < name.len() implies name[j] != '.' by {
        assert(name[j] == ext[j - i - 1]);
        assert(ext.contains(ext[j - i - 1]));
    }
    assert(text::char_at_last(name, '.') == Some(i)) by {
        let k = text::char_at_last(name, '.')->0;
        assert(name[k] == '.');
    }
    assert(name.skip(i + 1) =~= ext);
    assert(name.take(i) =~= stem);
    let dotted = "."@ + ext;
    assert(dotted[0] == '.');
    assert forall|j: int| 0 < j < dotted.len() implies dotted[j] != '.' by {
        assert(dotted[j] == ext[j - 1]);
        assert(ext.contains(ext[j - 1]));
    }
    assert forall|j: int| 0 <= j < ext.len() implies ext[j] != '.' by {
        assert(ext.contains(ext[j]));
    }
}

/// The last piece of a path is an ordinary name.
pub open spec fn ends_in_name(p: Seq<char>) -> bool {
    proper_name(pieces(p, '/').last())
}

/// A file below a directory: its components are the directory's and its name, its name and its
/// extension are its own, and it is spelled with one slash between them; its directory is that
/// directory, and with another extension or another name it stays there.
pub proof fn law_file_in_directory(dir: Seq<char>, name: Seq<char>, ext: Seq<char>, fresh: Seq<char>)
    requires
        ends_in_name(dir),
        proper_name(name),
        proper_name(fresh),
    ensures
        under(dir, name) == dir + "/"@ + name,
        parts(dir + "/"@ + name) == parts(dir).push(Part::Name(name)),
        name_of(dir + "/"@ + name) == Some(name),
        extension_of(dir + "/"@ + name) == name_extension(name),
        parent_of(dir + "/"@ + name) == Some(dir),
        retyped(dir + "/"@ + name, ext) == dir + "/"@ + renamed(name, ext),
        refiled(dir + "/"@ + name, fresh) == dir + "/"@ + fresh,
{
    reveal_strlit("/");
    let p = dir + "/"@ + name;
    let pd = pieces(dir, '/');
    text::lemma_pieces_len(dir, '/');
    text::law_join_undoes_split(dir, '/');
    assert("/"@ =~= seq!['/']);
    assert(dir.len() > 0) by {
        if dir.len() == 0 {
            assert(dir =~= Seq::<char>::empty());
            assert(pd.last().len() == 0);
        }
    }
    assert(dir.last() != '/') by {
        if dir.last() == '/' {
            assert(pd.last().len() == 0);
        }
    }
    assert(!rooted(name)) by {
        assert(name.contains(name[0]));
    }
    assert(!rooted(fresh)) by {
        assert(fresh.contains(fresh[0]));
    }
    assert(p =~= dir.push('/') + name);
    lemma_pieces_append(dir, name, '/');
    law_under(dir, name);
    let list = pieces(p, '/');
    assert(list == pd.push(name));
    assert(list.drop_last() =~= pd);
    let total = piece_parts(list).len() as int;
    assert(total == piece_parts(pd).len() + 1);
    assert(upto(list, total) == list);
    assert(parts(p).last() == Part::Name(name));
    assert(rooted(p) == rooted(dir));
    // The directory as it is spelled.
    assert(piece_parts(pd).len() > piece_parts(pd.drop_last()).len());
    let n = parts(p).len() - 1;
    assert(parts(p).drop_last() =~= parts(dir));
    assert(n - root_len(p) == total - 1);
    assert(upto(list, total - 1) == upto(pd, total - 1));
    assert(upto(pd, total - 1) == pd);
    assert(!(rooted(p) && n == 1)) by {
        if rooted(p) && n == 1 {
            assert(piece_parts(pd).len() == 0);
        }
    }
    assert(lead(p, n) == dir);
    let renewed = pd.push(renamed(name, ext));
    assert(renewed.drop_last() =~= pd);
    assert(retyped(p, ext) == text::joined(renewed, "/"@));
    assert(text::joined(renewed, "/"@) == text::joined(pd, "/"@) + "/"@ + renamed(name, ext));
}

/// A single name is a path of one component: with another extension it is the renamed name, and
/// it stands in the directory of no name.
pub proof fn law_lone_name(name: Seq<char>, ext: Seq<char>)
    requires
        proper_name(name),
    ensures
        parts(name) == seq![Part::Name(name)],
        name_of(name) == Some(name),
        extension_of(name) == name_extension(name),
        parent_of(name) == Some(Seq::<char>::empty()),
        retyped(name, ext) == renamed(name, ext),
{
    lemma_empty_parts();
    law_under(Seq::empty(), name);
    assert(!rooted(name)) by {
        assert(name.contains(name[0]));
    }
    assert(under(Seq::empty(), name) =~= name);
    assert(parts(name) =~= seq![Part::Name(name)]);
    text::lemma_pieces_single(name, '/');
    reveal_with_fuel(piece_parts, 2);
    reveal_with_fuel(upto, 2);
    let one = seq![name];
    assert(one.drop_last() =~= Seq::<Seq<char>>::empty());
    assert(upto(one, 1) == one);
    assert(upto(one, 0) =~= Seq::<Seq<char>>::empty());
    assert(parts(name).drop_last().len() == 0);
    assert(one.drop_last().push(renamed(name, ext)) =~= seq![renamed(name, ext)]);
}

/// Empty pieces and `.` behind a path add no component, and `..` adds one that climbs.
pub proof fn law_empty_pieces_do_not_count(p: Seq<char>)
    requires
        p.len() > 0,
    ensures
        parts(p + "/"@) == parts(p),
        parts(p + "/."@) == parts(p),
        parts(p + "/.."@) == parts(p).push(Part::Up),
{
    reveal_strlit("/");
    reveal_strlit("/.");
    reveal_strlit("/..");
    reveal_strlit(".");
    reveal_strlit("..");
    text::lemma_pieces_len(p, '/');
    let list = pieces(p, '/');
    assert(p + "/"@ =~= p.push('/') + Seq::<char>::empty());
    assert(p + "/."@ =~= p.push('/') + "."@);
    assert(p + "/.."@ =~= p.push('/') + ".."@);
    lemma_pieces_append(p, Seq::empty(), '/');
    lemma_pieces_append(p, "."@, '/');
    lemma_pieces_append(p, ".."@, '/');
    assert(list.push(Seq::<char>::empty()).drop_last() =~= list);
    assert(list.push("."@).drop_last() =~= list);
    assert(list.push(".."@).drop_last() =~= list);
    assert("."@.len() == 1 && ".."@.len() == 2);
    assert((p + "/"@)[0] == p[0]);
    assert((p + "/."@)[0] == p[0]);
    assert((p + "/.."@)[0] == p[0]);
    assert(parts(p + "/.."@) =~= parts(p).push(Part::Up));
}

/// What lies below a directory is what is spelled behind it, and nothing else lies below it.
pub proof fn law_below_directory(base: Seq<char>, rel: Seq<char>)
    requires
        ends_in_name(base),
        ends_in_name(rel),
        proper_name(pieces(rel, '/')[0]),
    ensures
        under(base, rel) == base + "/"@ + rel,
        rest_of(base + "/"@ + rel, base) == Some(rel),
{
    reveal_strlit("/");
    reveal_strlit(".");
    let p = base + "/"@ + rel;
    let pb = pieces(base, '/');
    let pr = pieces(rel, '/');
    text::lemma_pieces_len(base, '/');
    text::lemma_pieces_len(rel, '/');
    text::law_join_undoes_split(rel, '/');
    assert("/"@ =~= seq!['/']);
    assert(base.len() > 0) by {
        if base.len() == 0 {
            assert(base =~= Seq::<char>::empty());
            assert(pb.last().len() == 0);
        }
    }
    assert(base.last() != '/') by {
        if base.last() == '/' {
            assert(pb.last().len() == 0);
        }
    }
    assert(!rooted(rel)) by {
        if rooted(rel) {
            lemma_first_piece_of_rooted(rel);
        }
    }
    assert(p =~= base.push('/') + rel);
    text::lemma_pieces_concat(base, rel, '/');
    let list = pb + pr;
    assert(pieces(p, '/') == list);
    assert(rooted(p) == rooted(base));
    let k = piece_parts(pb).len() as int;
    assert(pb.drop_last().len() < pb.len());
    assert(piece_parts(pb.drop_last()).len() < k);
    lemma_pieces_behind(pb, pr, k);
    assert(list.last() == pr.last());
    assert(list.drop_last().len() > 0);
    assert(upto(list, piece_parts(list).len() as int) == list);
    assert(list.skip(pb.len() as int) =~= pr);
    assert(led(pr) == pr);
    assert(parts(base).is_prefix_of(parts(p))) by {
        if rooted(p) {
            assert(parts(base) =~= parts(p).subrange(0, parts(base).len() as int));
        } else {
            assert(parts(base) =~= parts(p).subrange(0, parts(base).len() as int));
        }
    }
    assert(parts(base).len() - root_len(p) == k);
    assert(parts(base).len() > 0);
}

/// Pieces behind a list leave its components in place and are not needed for them.
proof fn lemma_pieces_behind(pb: Seq<Seq<char>>, pr: Seq<Seq<char>>, k: int)
    requires
        pb.len() > 0,
        k == piece_parts(pb).len(),
        piece_parts(pb.drop_last()).len() < k,
    ensures
        upto(pb + pr, k) == pb,
        piece_parts(pb).is_prefix_of(piece_parts(pb + pr)),
    decreases pr.len(),
{
    let list = pb + pr;
    if pr.len() == 0 {
        assert(list =~= pb);
    } else {
        assert(list.drop_last() =~= pb + pr.drop_last());
        lemma_pieces_behind(pb, pr.drop_last(), k);
        let front = piece_parts(pb + pr.drop_last());
        let all = piece_parts(list);
        assert(front.len() >= k);
        assert(piece_parts(pb) =~= all.subrange(0, k)) by {
            assert forall|i: int| 0 <= i < k implies piece_parts(pb)[i] == all[i] by {
                assert(piece_parts(pb)[i] == front.subrange(0, k)[i]);
            }
        }
    }
}

/// What does not begin with a directory's components does not lie below it.
pub proof fn law_outside_directory(p: Seq<char>, base: Seq<char>)
    ensures
        rest_of(p, base) is Some <==> (parts(base).len() <= parts(p).len() && parts(p).take(
            parts(base).len() as int,
        ) == parts(base)),
{
    if parts(base).len() <= parts(p).len() {
        assert(parts(p).take(parts(base).len() as int) =~= parts(p).subrange(
            0,
            parts(base).len() as int,
        ));
    }
}

/// The first component that differs decides the order of two paths, names as texts; and a path
/// comes before every longer one that begins with its components.
pub proof fn law_first_component_decides(a: Seq<Part>, b: Seq<Part>, n: int)
    requires
        0 <= n <= a.len(),
        n < b.len(),
        a.take(n) == b.take(n),
    ensures
        n == a.len() ==> parts_before(a, b),
        n < a.len() && (a[n] matches Part::Name(x) && (b[n] matches Part::Name(y) && text::before(
            x,
            y,
        ))) ==> parts_before(a, b),
    decreases n,
{
    if n > 0 {
        assert(a.take(n)[0] == a[0] && b.take(n)[0] == b[0]);
        let (x, y) = (a.drop_first(), b.drop_first());
        assert(x.take(n - 1) =~= a.take(n).drop_first());
        assert(y.take(n - 1) =~= b.take(n).drop_first());
        law_first_component_decides(x, y, n - 1);
    } else if n < a.len() {
        if let (Part::Name(x), Part::Name(y)) = (a[0], b[0]) {
            text::lemma_before_irreflexive(x);
        }
    }
}

/// Where two paths first differ the kind of component decides: a root comes before `.`, that before
/// `..`, and that before a name; and a path comes after each of its beginnings.
pub proof fn law_kinds_of_component_in_order(a: Seq<Part>, name: Seq<char>)
    ensures
        part_before(Part::Root, Part::Here),
        part_before(Part::Here, Part::Up),
        part_before(Part::Up, Part::Name(name)),
        part_before(Part::Root, Part::Name(name)),
        part_before(Part::Here, Part::Name(name)),
        !part_before(Part::Name(name), Part::Up),
        !part_before(Part::Up, Part::Here),
        !part_before(Part::Here, Part::Root),
        parts_before(a, a.push(Part::Name(name))),
        !parts_before(a, Seq::empty()),
{
    assert(a.take(a.len() as int) =~= a.push(Part::Name(name)).take(a.len() as int));
    law_first_component_decides(a, a.push(Part::Name(name)), a.len() as int);
}

} // verus!
