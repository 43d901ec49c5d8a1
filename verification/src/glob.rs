//! The globs a `tsconfig` uses: `*` for any run within one segment, `?` for one
//! character, `**` for any number of segments.

use vstd::prelude::*;

use crate::text;
use crate::text::{pieces, texts};

verus! {

/// One glob character, other than `*`, fits one character of a name.
pub open spec fn fits(g: char, c: char) -> bool {
    g == '?' || g == c
}

/// One glob segment matches one name: `*` stands for any run, `?` for one character.
pub open spec fn wild(glob: Seq<char>, name: Seq<char>) -> bool
    decreases glob.len() + name.len(),
{
    if glob.len() == 0 {
        name.len() == 0
    } else if glob[0] == '*' {
        wild(glob.drop_first(), name) || (name.len() > 0 && wild(glob, name.drop_first()))
    } else {
        name.len() > 0 && fits(glob[0], name[0]) && wild(glob.drop_first(), name.drop_first())
    }
}

/// A list of glob segments matches a list of names, where `**` stands for any
/// number of names, none included.
pub open spec fn segments_match(glob: Seq<Seq<char>>, names: Seq<Seq<char>>) -> bool
    decreases glob.len(),
{
    if glob.len() == 0 {
        names.len() == 0
    } else if glob[0] == "**"@ {
        exists|k: int|
            0 <= k <= names.len() && segments_match(glob.drop_first(), #[trigger] names.skip(k))
    } else {
        names.len() > 0 && wild(glob[0], names[0]) && segments_match(
            glob.drop_first(),
            names.drop_first(),
        )
    }
}

/// A glob without a leading `./` and without surrounding slashes.
pub open spec fn bare_glob(glob: Seq<char>) -> Seq<char> {
    text::trimmed(text::trimmed_prefix(glob, "./"@), "/"@)
}

/// A glob matches a package-relative path. One without a wildcard names a file
/// or a directory, and a directory stands for everything under it.
pub open spec fn matched(glob: Seq<char>, path: Seq<char>) -> bool {
    let g = bare_glob(glob);
    if !g.contains('*') && !g.contains('?') {
        path == g || (g + "/"@).is_prefix_of(path)
    } else {
        segments_match(pieces(g, '/'), pieces(path, '/'))
    }
}

// ---------------------------------------------------------------------------
// Facts about one segment
// ---------------------------------------------------------------------------

/// A glob without `*` fits a text of its own length, character by character.
spec fn literal_fits(glob: Seq<char>, name: Seq<char>) -> bool {
    &&& glob.len() == name.len()
    &&& forall|i: int| 0 <= i < glob.len() ==> glob[i] != '*' && fits(#[trigger] glob[i], name[i])
}

/// A fitting literal front can be taken off both sides.
proof fn lemma_literal_front(p: Seq<char>, q: Seq<char>, x: Seq<char>, y: Seq<char>)
    requires
        literal_fits(p, x),
    ensures
        wild(p + q, x + y) == wild(q, y),
    decreases p.len(),
{
    if p.len() == 0 {
        assert(p + q =~= q);
        assert(x + y =~= y);
    } else {
        assert(fits(p[0], x[0]));
        assert((p + q).drop_first() =~= p.drop_first() + q);
        assert((x + y).drop_first() =~= x.drop_first() + y);
        assert forall|i: int| 0 <= i < p.drop_first().len() implies p.drop_first()[i] != '*'
            && fits(#[trigger] p.drop_first()[i], x.drop_first()[i]) by {
            assert(fits(p[i + 1], x[i + 1]));
        }
        lemma_literal_front(p.drop_first(), q, x.drop_first(), y);
    }
}

/// A glob whose front has no `*` needs a name at least as long as that front.
proof fn lemma_literal_needs(p: Seq<char>, q: Seq<char>, name: Seq<char>)
    requires
        forall|i: int| 0 <= i < p.len() ==> #[trigger] p[i] != '*',
        wild(p + q, name),
    ensures
        name.len() >= p.len(),
        wild(q, name.skip(p.len() as int)),
    decreases p.len(),
{
    if p.len() == 0 {
        assert(p + q =~= q);
        assert(name.skip(0) =~= name);
    } else {
        assert(p[0] != '*');
        assert((p + q).drop_first() =~= p.drop_first() + q);
        assert forall|i: int| 0 <= i < p.drop_first().len() implies #[trigger] p.drop_first()[i]
            != '*' by {
            assert(p[i + 1] != '*');
        }
        lemma_literal_needs(p.drop_first(), q, name.drop_first());
        assert(name.drop_first().skip(p.drop_first().len() as int) =~= name.skip(p.len() as int));
    }
}

/// A leading `*` also matches a longer name with the same end.
proof fn lemma_star_absorbs(glob: Seq<char>, name: Seq<char>, i: int)
    requires
        glob.len() > 0,
        glob[0] == '*',
        0 <= i <= name.len(),
        wild(glob, name.skip(i)),
    ensures
        wild(glob, name),
    decreases i,
{
    if i == 0 {
        assert(name.skip(0) =~= name);
    } else {
        assert(name.skip(i - 1).drop_first() =~= name.skip(i));
        lemma_star_absorbs(glob, name, i - 1);
    }
}

/// A leading `*` matches exactly when what follows matches some end of the name.
proof fn lemma_star_splits(glob: Seq<char>, name: Seq<char>)
    requires
        glob.len() > 0,
        glob[0] == '*',
        wild(glob, name),
    ensures
        exists|i: int| 0 <= i <= name.len() && wild(glob.drop_first(), #[trigger] name.skip(i)),
    decreases name.len(),
{
    if wild(glob.drop_first(), name) {
        assert(name.skip(0) =~= name);
        assert(wild(glob.drop_first(), name.skip(0)));
    } else {
        lemma_star_splits(glob, name.drop_first());
        let i = choose|i: int|
            0 <= i <= name.drop_first().len() && wild(
                glob.drop_first(),
                #[trigger] name.drop_first().skip(i),
            );
        assert(name.drop_first().skip(i) =~= name.skip(i + 1));
        assert(wild(glob.drop_first(), name.skip(i + 1)));
    }
}

/// A glob matches the empty name exactly when it is all `*`.
proof fn lemma_wild_empty(glob: Seq<char>)
    ensures
        wild(glob, Seq::empty()) == (forall|i: int| 0 <= i < glob.len() ==> #[trigger] glob[i] == '*'),
    decreases glob.len(),
{
    if glob.len() > 0 {
        lemma_wild_empty(glob.drop_first());
        if glob[0] == '*' {
            assert forall|i: int| 0 <= i < glob.len() implies (#[trigger] glob[i] == '*'
                || !wild(glob, Seq::empty())) by {
                if i > 0 && wild(glob, Seq::empty()) {
                    assert(glob.drop_first()[i - 1] == '*');
                }
            }
            if forall|i: int| 0 <= i < glob.len() ==> #[trigger] glob[i] == '*' {
                assert forall|i: int| 0 <= i < glob.drop_first().len() implies
                    #[trigger] glob.drop_first()[i] == '*' by {
                    assert(glob[i + 1] == '*');
                }
            }
        }
    }
}

/// After a `*`, a literal run and another `*`, only what follows the second `*` counts.
proof fn lemma_second_star(glob: Seq<char>, name: Seq<char>, m: int)
    requires
        glob.len() > m + 1,
        m >= 0,
        glob[0] == '*',
        glob[m + 1] == '*',
        m <= name.len(),
        literal_fits(glob.subrange(1, m + 1), name.take(m)),
    ensures
        wild(glob, name) == wild(glob.skip(m + 1), name.skip(m)),
{
    let p = glob.subrange(1, m + 1);
    let q = glob.skip(m + 1);
    assert(glob.drop_first() =~= p + q);
    if wild(q, name.skip(m)) {
        lemma_literal_front(p, q, name.take(m), name.skip(m));
        assert(name.take(m) + name.skip(m) =~= name);
    }
    if wild(glob, name) {
        lemma_star_splits(glob, name);
        let i = choose|i: int|
            0 <= i <= name.len() && wild(glob.drop_first(), #[trigger] name.skip(i));
        assert forall|j: int| 0 <= j < p.len() implies #[trigger] p[j] != '*' by {
            assert(fits(p[j], name.take(m)[j]));
        }
        lemma_literal_needs(p, q, name.skip(i));
        assert(name.skip(i).skip(m) =~= name.skip(m).skip(i));
        lemma_star_absorbs(q, name.skip(m), i);
    }
}

/// After a `*` and a literal run that does not go on, the `*` has to take one character more.
proof fn lemma_star_moves(glob: Seq<char>, name: Seq<char>, m: int)
    requires
        glob.len() >= m + 1,
        m >= 0,
        glob[0] == '*',
        m < name.len(),
        literal_fits(glob.subrange(1, m + 1), name.take(m)),
        glob.len() == m + 1 || (glob[m + 1] != '*' && !fits(glob[m + 1], name[m])),
    ensures
        wild(glob, name) == wild(glob, name.drop_first()),
{
    let p = glob.subrange(1, m + 1);
    let q = glob.skip(m + 1);
    assert(glob.drop_first() =~= p + q);
    lemma_literal_front(p, q, name.take(m), name.skip(m));
    assert(name.take(m) + name.skip(m) =~= name);
    assert(!wild(q, name.skip(m)));
}

/// Once the name is used up after a `*` and a literal run, only `*` may be left.
proof fn lemma_star_ends(glob: Seq<char>, name: Seq<char>)
    requires
        glob.len() >= name.len() + 1,
        glob[0] == '*',
        literal_fits(glob.subrange(1, name.len() as int + 1), name),
    ensures
        wild(glob, name) == wild(glob.skip(name.len() as int + 1), Seq::empty()),
{
    let m = name.len() as int;
    let p = glob.subrange(1, m + 1);
    let q = glob.skip(m + 1);
    assert(glob.drop_first() =~= p + q);
    lemma_literal_front(p, q, name, Seq::empty());
    assert(name + Seq::<char>::empty() =~= name);
    if wild(glob, name) && !wild(q, Seq::empty()) {
        lemma_star_splits(glob, name);
        let i = choose|i: int|
            0 <= i <= name.len() && wild(glob.drop_first(), #[trigger] name.skip(i));
        assert forall|j: int| 0 <= j < p.len() implies #[trigger] p[j] != '*' by {
            assert(fits(p[j], name[j]));
        }
        lemma_literal_needs(p, q, name.skip(i));
        assert(i == 0);
        assert(name.skip(0) =~= name);
    }
}

// ---------------------------------------------------------------------------
// Functions
// ---------------------------------------------------------------------------

/// One segment against one name: `*` any run, `?` one character.
pub fn segment_matches(glob: &str, name: &str) -> (r: bool)
    ensures
        r == wild(glob@, name@),
{
    let gl = text::chars(glob);
    let nm = text::chars(name);
    let ghost gs = gl@;
    let ghost ns = nm@;
    // Walk both, remembering the last `*` so a failed tail can backtrack onto it.
    let mut g: usize = 0;
    let mut n: usize = 0;
    let mut starred = false;
    let mut sg: usize = 0;
    let mut sn: usize = 0;
    assert(gs.skip(0) =~= gs);
    assert(ns.skip(0) =~= ns);
    while n < nm.len()
        invariant
            gs == gl@,
            ns == nm@,
            g <= gs.len(),
            n <= ns.len(),
            gs == glob@,
            ns == name@,
            !starred ==> wild(gs, ns) == wild(gs.skip(g as int), ns.skip(n as int)),
            starred ==> {
                &&& sg < g
                &&& sn <= n
                &&& n - sn == g - (sg + 1)
                &&& gs[sg as int] == '*'
                &&& literal_fits(
                    gs.subrange(sg + 1, g as int),
                    ns.subrange(sn as int, n as int),
                )
                &&& wild(gs, ns) == wild(gs.skip(sg as int), ns.skip(sn as int))
            },
        decreases
                (if starred {
                    ns.len() + 1 - sn
                } else {
                    ns.len() as int + 2
                }),
                (gs.len() - g) + (ns.len() - n),
    {
        let ghost m = g - (sg + 1);
        let ghost from = gs.skip(sg as int);
        let ghost rest = ns.skip(sn as int);
        proof {
            if starred {
                assert(from.subrange(1, m + 1) =~= gs.subrange(sg + 1, g as int));
                assert(rest.take(m) =~= ns.subrange(sn as int, n as int));
            }
        }
        if g < gl.len() && gl[g] == '*' {
            proof {
                if starred {
                    lemma_second_star(from, rest, m);
                    assert(from.skip(m + 1) =~= gs.skip(g as int));
                    assert(rest.skip(m) =~= ns.skip(n as int));
                }
            }
            starred = true;
            sg = g;
            sn = n;
            g += 1;
        } else if g < gl.len() && (gl[g] == '?' || gl[g] == nm[n]) {
            proof {
                if starred {
                    let p = gs.subrange(sg + 1, g as int);
                    let x = ns.subrange(sn as int, n as int);
                    assert(gs.subrange(sg + 1, g + 1) =~= p.push(gs[g as int]));
                    assert(ns.subrange(sn as int, n + 1) =~= x.push(ns[n as int]));
                    assert forall|i: int| 0 <= i < p.push(gs[g as int]).len() implies p.push(
                        gs[g as int],
                    )[i] != '*' && fits(
                        #[trigger] p.push(gs[g as int])[i],
                        x.push(ns[n as int])[i],
                    ) by {
                        if i < p.len() {
                            assert(fits(p[i], x[i]));
                        }
                    }
                } else {
                    assert(gs.skip(g as int).drop_first() =~= gs.skip(g + 1));
                    assert(ns.skip(n as int).drop_first() =~= ns.skip(n + 1));
                }
            }
            g += 1;
            n += 1;
        } else if starred {
            proof {
                lemma_star_moves(from, rest, m);
                assert(rest.drop_first() =~= ns.skip(sn + 1));
                assert(gs.subrange(sg + 1, sg + 1) =~= Seq::<char>::empty());
                assert(ns.subrange(sn + 1, sn + 1) =~= Seq::<char>::empty());
            }
            g = sg + 1;
            n = sn + 1;
            sn += 1;
        } else {
            return false;
        }
    }
    let ghost m = g - (sg + 1);
    proof {
        assert(ns.skip(n as int) =~= Seq::<char>::empty());
        if starred {
            let from = gs.skip(sg as int);
            let rest = ns.skip(sn as int);
            assert(from.subrange(1, m + 1) =~= gs.subrange(sg + 1, g as int));
            assert(rest =~= ns.subrange(sn as int, n as int));
            lemma_star_ends(from, rest);
            assert(from.skip(m + 1) =~= gs.skip(g as int));
        }
        lemma_wild_empty(gs.skip(g as int));
    }
    let start = g;
    while g < gl.len()
        invariant
            start <= g <= gs.len(),
            gs == gl@,
            forall|i: int| start <= i < g ==> gs[i] == '*',
            wild(glob@, name@) == (forall|i: int|
                0 <= i < gs.skip(start as int).len() ==> #[trigger] gs.skip(start as int)[i] == '*'),
        decreases gs.len() - g,
    {
        if gl[g] != '*' {
            assert(gs.skip(start as int)[g - start] != '*');
            return false;
        }
        g += 1;
    }
    true
}

/// Segment-wise match of `glob[g..]` against `path[p..]`.
fn matches_from(glob: &Vec<String>, path: &Vec<String>, g: usize, p: usize) -> (r: bool)
    requires
        g <= glob@.len(),
        p <= path@.len(),
    ensures
        r == segments_match(texts(glob@).skip(g as int), texts(path@).skip(p as int)),
    decreases glob@.len() - g,
{
    let ghost gs = texts(glob@).skip(g as int);
    let ghost ps = texts(path@).skip(p as int);
    if g == glob.len() {
        return p == path.len();
    }
    assert(gs[0] == glob@[g as int]@);
    assert(gs.drop_first() =~= texts(glob@).skip(g + 1));
    if text::same(glob[g].as_str(), "**") {
        let next = g + 1;
        let mut k: usize = p;
        while k < path.len()
            invariant
                g < glob@.len(),
                next == g + 1,
                p <= k <= path@.len(),
                gs == texts(glob@).skip(g as int),
                gs[0] == "**"@,
                ps == texts(path@).skip(p as int),
                gs.drop_first() == texts(glob@).skip(next as int),
                forall|j: int|
                    0 <= j < k - p ==> !segments_match(gs.drop_first(), #[trigger] ps.skip(j)),
            decreases path@.len() - k,
        {
            assert(ps.skip(k - p) =~= texts(path@).skip(k as int));
            if matches_from(glob, path, next, k) {
                return true;
            }
            k += 1;
        }
        assert(ps.skip(k - p) =~= texts(path@).skip(k as int));
        matches_from(glob, path, next, k)
    } else if p < path.len() {
        assert(ps[0] == path@[p as int]@);
        assert(ps.drop_first() =~= texts(path@).skip(p + 1));
        segment_matches(glob[g].as_str(), path[p].as_str()) && matches_from(
            glob,
            path,
            g + 1,
            p + 1,
        )
    } else {
        false
    }
}

/// Segment-wise match, where `**` stands for any number of segments including none.
pub fn matches_segments(glob: &Vec<String>, path: &Vec<String>) -> (r: bool)
    ensures
        r == segments_match(texts(glob@), texts(path@)),
{
    assert(texts(glob@).skip(0) =~= texts(glob@));
    assert(texts(path@).skip(0) =~= texts(path@));
    matches_from(glob, path, 0, 0)
}

/// Whether a `tsconfig` glob matches a package-relative path.
pub fn glob_matches(glob: &str, path: &str) -> (r: bool)
    ensures
        r == matched(glob@, path@),
{
    let g = text::trim_both(text::trim_prefix(glob, "./").as_str(), "/");
    if !text::has_char(g.as_str(), '*') && !text::has_char(g.as_str(), '?') {
        return text::same(path, g.as_str()) || text::starts_with(
            path,
            g.clone().concat("/").as_str(),
        );
    }
    matches_segments(&text::split(g.as_str(), '/'), &text::split(path, '/'))
}

/// A glob segment without a wildcard matches its own text and nothing else.
pub proof fn law_literal_segment(glob: Seq<char>, name: Seq<char>)
    requires
        !glob.contains('*'),
        !glob.contains('?'),
    ensures
        wild(glob, name) <==> glob == name,
    decreases glob.len(),
{
    if glob.len() == 0 {
        assert(name.len() == 0 ==> glob =~= name);
    } else {
        assert(glob.contains(glob[0]));
        if name.len() > 0 {
            assert forall|c: char| #[trigger] glob.drop_first().contains(c) implies glob.contains(
                c,
            ) by {
                let k = choose|k: int| 0 <= k < glob.drop_first().len() && glob.drop_first()[k] == c;
                assert(glob[k + 1] == c);
            }
            law_literal_segment(glob.drop_first(), name.drop_first());
            if glob[0] == name[0] && glob.drop_first() == name.drop_first() {
                assert forall|i: int| 0 <= i < glob.len() implies glob[i] == name[i] by {
                    if i > 0 {
                        assert(glob.drop_first()[i - 1] == name.drop_first()[i - 1]);
                    }
                }
                assert(glob.len() == name.len());
                assert(glob =~= name);
            }
        }
    }
}

/// `*` before a text matches the names that end in that text, `*` alone matches every name, and `?`
/// stands for exactly one character.
pub proof fn law_wildcards(text: Seq<char>, name: Seq<char>, glob: Seq<char>)
    requires
        !text.contains('*'),
        !text.contains('?'),
    ensures
        wild(seq!['*'] + text, name) <==> text.is_suffix_of(name),
        wild(seq!['*'], name),
        wild(seq!['?'] + glob, name) <==> name.len() > 0 && wild(glob, name.drop_first()),
    decreases name.len(),
{
    let star = seq!['*'] + text;
    assert(star.drop_first() =~= text);
    assert((seq!['?'] + glob).drop_first() =~= glob);
    assert(seq!['*'].drop_first() =~= Seq::<char>::empty());
    law_literal_segment(text, name);
    text::lemma_suffix_chars(name, text);
    if name.len() > 0 {
        let rest = name.drop_first();
        law_wildcards(text, rest, glob);
        text::lemma_suffix_chars(rest, text);
        if text.is_suffix_of(rest) {
            assert forall|k: int| 0 <= k < text.len() implies name[name.len() - text.len() + k]
                == #[trigger] text[k] by {
                assert(rest[rest.len() - text.len() + k] == text[k]);
            }
        }
        if text.is_suffix_of(name) && text.len() < name.len() {
            assert forall|k: int| 0 <= k < text.len() implies rest[rest.len() - text.len() + k]
                == #[trigger] text[k] by {
                assert(name[name.len() - text.len() + k] == text[k]);
            }
        }
        if text.is_suffix_of(name) && text.len() == name.len() {
            assert forall|k: int| 0 <= k < text.len() implies name[k] == text[k] by {
                assert(name[name.len() - text.len() + k] == text[k]);
            }
            assert(text =~= name);
        }
        if text == name {
            assert(text.is_suffix_of(name));
        }
        assert(wild(seq!['*'], name));
    } else {
        assert(text == name ==> text.is_suffix_of(name));
        assert(text.is_suffix_of(name) ==> text =~= name);
        assert(wild(Seq::<char>::empty(), name));
    }
}

/// `**` stands for any number of names: in front of globs that match some names it matches those
/// names behind any others, and none; every other glob stands for one name.
pub proof fn law_double_star(
    globs: Seq<Seq<char>>,
    front: Seq<Seq<char>>,
    names: Seq<Seq<char>>,
    glob: Seq<char>,
    name: Seq<char>,
)
    ensures
        segments_match(globs, names) ==> segments_match(seq!["**"@] + globs, front + names),
        segments_match(seq!["**"@], names),
        glob != "**"@ ==> (segments_match(seq![glob] + globs, seq![name] + names) <==> wild(
            glob,
            name,
        ) && segments_match(globs, names)),
        glob != "**"@ ==> !segments_match(seq![glob] + globs, Seq::empty()),
        segments_match(Seq::empty(), names) <==> names.len() == 0,
{
    assert((seq!["**"@] + globs).drop_first() =~= globs);
    assert((front + names).skip(front.len() as int) =~= names);
    assert(seq!["**"@].drop_first() =~= Seq::<Seq<char>>::empty());
    let none = names.skip(names.len() as int);
    assert(none.len() == 0);
    assert(segments_match(Seq::<Seq<char>>::empty(), none));
    assert((seq![glob] + globs).drop_first() =~= globs);
    assert((seq![name] + names).drop_first() =~= names);
}

/// A glob without a wildcard names a file, or a directory with everything under it, with or without
/// `./` in front and `/` behind.
pub proof fn law_plain_glob(glob: Seq<char>, path: Seq<char>)
    requires
        glob.len() > 0,
        !glob.contains('*'),
        !glob.contains('?'),
        glob[0] != '/',
        glob.last() != '/',
        !"./"@.is_prefix_of(glob),
        glob != "."@,
    ensures
        matched(glob, path) <==> path == glob || (glob + "/"@).is_prefix_of(path),
        bare_glob("./"@ + glob) == glob,
        bare_glob(glob + "/"@) == glob,
{
    reveal_strlit("./");
    reveal_strlit("/");
    reveal_strlit(".");
    assert(forall|c: char| "/"@.contains(c) <==> c == '/') by {
        assert("/"@[0] == '/');
    }
    text::law_trimmed_prefix(glob, "./"@);
    text::law_trimming_leaves_alone(glob, "/"@);
    let slashed = glob + "/"@;
    if "./"@.is_prefix_of(slashed) && !"./"@.is_prefix_of(glob) {
        assert(slashed.subrange(0, 2)[0] == '.' && slashed.subrange(0, 2)[1] == '/');
        assert(slashed[0] == '.' && slashed[1] == '/');
        if glob.len() >= 2 {
            assert("./"@ =~= glob.subrange(0, 2));
        }
        assert(glob =~= "."@);
    }
    text::law_trimmed_prefix(slashed, "./"@);
    assert(text::trimmed_start(slashed, "/"@) == slashed);
    assert(slashed.drop_last() =~= glob);
    assert(text::trimmed_end(slashed, "/"@) == text::trimmed_end(glob, "/"@));
}

} // verus!
