//! The output marker, and what it says of the vendored tree.
//!
//! Each build writes a marker into its output root: it is how the next build recognizes a
//! directory it may replace. It holds the version that produced it, plus a
//! `vendor-profile:` line when the vendored tree was shaped beyond plain extraction: the
//! line that decides whether the tree can seed the next build's cache.

use vstd::prelude::*;

use crate::build::options::{comment_policy, rewrites, Comments, Output, Processors};
use crate::error::{Error, Failure};
use crate::path;
use crate::text;
use crate::text::{joined, line_list, pieces, texts};

verus! {

/// The name of the output marker.
pub const OUT_MARKER: &'static str = ".web-modules-out";

/// The version a marker names.
pub const VERSION: &'static str = "0.1.0";

/// What the vendored tree of a build is shaped by beyond extraction: whether shipped source
/// maps are kept, and how its JavaScript is rewritten.
pub struct Shape {
    pub sourcemaps: bool,
    pub rewrite: Option<(bool, Comments)>,
}

/// How a build shapes the vendored tree.
pub open spec fn shape_of(sourcemap: bool, output: Output) -> Shape {
    Shape {
        sourcemaps: sourcemap,
        rewrite: if output.minify_web_modules && rewrites(output) {
            Some((output.minify, comment_policy(output)))
        } else {
            None
        },
    }
}

/// The word for a comment policy; keeping everything has none.
pub open spec fn comment_token(comments: Comments) -> Seq<Seq<char>> {
    match comments {
        Comments::Keep => Seq::empty(),
        Comments::Strip => seq!["comments=strip"@],
        Comments::Collect => seq!["comments=collect"@],
        Comments::Nothing => seq!["comments=none"@],
    }
}

/// The words that name a shape.
pub open spec fn shape_tokens(shape: Shape) -> Seq<Seq<char>> {
    let maps = if shape.sourcemaps {
        seq!["sourcemaps"@]
    } else {
        Seq::empty()
    };
    match shape.rewrite {
        Some((minify, comments)) => maps + (if minify {
            seq!["minify"@]
        } else {
            Seq::empty()
        }) + comment_token(comments),
        None => maps,
    }
}

/// The line that names a shape; empty for the shape of plain extraction.
pub open spec fn profile_line(shape: Shape) -> Seq<char> {
    if shape_tokens(shape).len() == 0 {
        Seq::empty()
    } else {
        "vendor-profile: "@ + joined(shape_tokens(shape), ","@)
    }
}

/// The vendor-profile line for the output marker: how this build shapes the vendored tree
/// beyond extraction. Empty means pristine.
pub fn vendor_profile(processors: &Processors, output: &Output) -> (r: String)
    ensures
        r@ == profile_line(shape_of(processors.sourcemap, *output)),
{
    let ghost shape = shape_of(processors.sourcemap, *output);
    let mut tokens: Vec<String> = Vec::new();
    if processors.sourcemap {
        tokens.push("sourcemaps".to_owned());
    }
    let effective = output.effective_comments();
    if output.minify_web_modules && (output.minify || effective != Comments::Keep) {
        if output.minify {
            tokens.push("minify".to_owned());
        }
        match effective {
            Comments::Keep => {},
            Comments::Strip => {
                tokens.push("comments=strip".to_owned());
            },
            Comments::Collect => {
                tokens.push("comments=collect".to_owned());
            },
            Comments::Nothing => {
                tokens.push("comments=none".to_owned());
            },
        }
    }
    assert(texts(tokens@) =~= shape_tokens(shape));
    if tokens.len() == 0 {
        let r = String::new();
        assert(r@ =~= Seq::<char>::empty());
        r
    } else {
        "vendor-profile: ".to_owned().concat(text::join(&tokens, ",").as_str())
    }
}

/// The vendor profile of a build. A folded tree's packages are consumed and deleted, never
/// shaped, so its profile is empty: such a build seeds only from a pristine tree.
pub fn build_profile(processors: &Processors, output: &Output, bundling: bool) -> (r: String)
    ensures
        r@ == (if bundling {
            Seq::empty()
        } else {
            profile_line(shape_of(processors.sourcemap, *output))
        }),
{
    if bundling {
        let none = String::new();
        assert(none@ =~= Seq::<char>::empty());
        none
    } else {
        vendor_profile(processors, output)
    }
}

/// The text of a marker.
pub open spec fn marker_text(profile: Seq<char>) -> Seq<char> {
    if profile.len() == 0 {
        VERSION@ + "\n"@
    } else {
        VERSION@ + "\n"@ + profile + "\n"@
    }
}

/// The text of the marker of a build with this vendor profile.
pub fn marker(profile: &str) -> (r: String)
    ensures
        r@ == marker_text(profile@),
{
    let head = VERSION.to_owned().concat("\n");
    if profile.is_empty() {
        head
    } else {
        head.concat(profile).concat("\n")
    }
}

/// The first line that starts as a vendor profile does; empty when there is none.
pub open spec fn first_profile(lines: Seq<Seq<char>>) -> Seq<char>
    decreases lines.len(),
{
    if lines.len() == 0 {
        Seq::empty()
    } else if "vendor-profile:"@.is_prefix_of(lines[0]) {
        lines[0]
    } else {
        first_profile(lines.drop_first())
    }
}

/// The profile that a marker names; empty for an absent, unreadable, or older marker (all of
/// which mean a pristine vendored tree).
pub open spec fn profile_in(content: Option<Seq<char>>) -> Seq<char> {
    match content {
        Some(content) => first_profile(line_list(content)),
        None => Seq::empty(),
    }
}

/// The previous output's vendor-profile line, out of the content of its marker.
pub fn marker_profile(content: Option<&str>) -> (r: String)
    ensures
        r@ == profile_in(
            match content {
                Some(c) => Some(c@),
                None => None,
            },
        ),
{
    let nothing = String::new();
    assert(nothing@ =~= Seq::<char>::empty());
    let given = match content {
        Some(given) => given,
        None => {
            return nothing;
        },
    };
    let lines = text::lines(given);
    let ghost all = texts(lines@);
    let mut i: usize = 0;
    assert(all.skip(0) =~= all);
    while i < lines.len()
        invariant
            i <= lines@.len(),
            all == texts(lines@),
            all == line_list(given@),
            content == Some(given),
            first_profile(all) == first_profile(all.skip(i as int)),
        decreases lines@.len() - i,
    {
        proof {
            assert(all.skip(i as int)[0] == lines@[i as int]@);
            assert(all.skip(i as int).drop_first() =~= all.skip(i + 1));
        }
        if text::starts_with(lines[i].as_str(), "vendor-profile:") {
            return lines[i].clone();
        }
        i += 1;
    }
    nothing
}

/// Whether the previous output's vendored tree may seed this build's cache: only when both
/// shape it alike. A tree swept of its shipped `.map` sidecars cannot resurrect them, so it
/// must not pose as a pristine extract for a build that wants them.
pub fn seeds(previous: Option<&str>, profile: &str) -> (r: bool)
    ensures
        r == (profile_in(
            match previous {
                Some(c) => Some(c@),
                None => None,
            },
        ) == profile@),
{
    text::same(marker_profile(previous).as_str(), profile)
}

proof fn lemma_token_chars(shape: Shape)
    ensures
        forall|i: int|
            0 <= i < shape_tokens(shape).len() ==> !(#[trigger] shape_tokens(shape)[i]).contains(
                ',',
            ) && !shape_tokens(shape)[i].contains('\n') && shape_tokens(shape)[i].len() > 0
                && shape_tokens(shape)[i].last() != '\r',
{
    reveal_strlit("sourcemaps");
    reveal_strlit("minify");
    reveal_strlit("comments=strip");
    reveal_strlit("comments=collect");
    reveal_strlit("comments=none");
}

proof fn lemma_joined_last(list: Seq<Seq<char>>, sep: Seq<char>)
    requires
        list.len() > 0,
        list.last().len() > 0,
    ensures
        joined(list, sep).len() > 0,
        joined(list, sep).last() == list.last().last(),
{
    if list.len() > 1 {
        assert(joined(list, sep) =~= joined(list.drop_last(), sep) + sep + list.last());
    } else {
        assert(list.last() == list[0]);
    }
}

/// A profile has no line break in it and is no empty line.
proof fn lemma_profile_is_one_line(shape: Shape)
    ensures
        !profile_line(shape).contains('\n'),
        profile_line(shape).len() > 0 ==> profile_line(shape).last() != '\r'
            && "vendor-profile:"@.is_prefix_of(profile_line(shape)),
{
    let tokens = shape_tokens(shape);
    if tokens.len() > 0 {
        lemma_token_chars(shape);
        reveal_strlit(",");
        reveal_strlit("vendor-profile: ");
        reveal_strlit("vendor-profile:");
        text::lemma_joined_lacks(tokens, ","@, '\n');
        assert(tokens[tokens.len() - 1].len() > 0);
        lemma_joined_last(tokens, ","@);
        let body = joined(tokens, ","@);
        let whole = profile_line(shape);
        assert(whole =~= "vendor-profile: "@ + body);
        assert("vendor-profile:"@ =~= whole.subrange(0, "vendor-profile:"@.len() as int));
        if whole.contains('\n') {
            let k = choose|k: int| 0 <= k < whole.len() && whole[k] == '\n';
            if k >= "vendor-profile: "@.len() {
                assert(body[k - "vendor-profile: "@.len()] == '\n');
            }
        }
    }
}

/// A build reads out of the previous output's marker the vendor profile that the build
/// before it wrote there.
pub proof fn law_marker_keeps_profile(sourcemap: bool, output: Output)
    ensures
        profile_in(Some(marker_text(profile_line(shape_of(sourcemap, output))))) == profile_line(
            shape_of(sourcemap, output),
        ),
{
    let profile = profile_line(shape_of(sourcemap, output));
    lemma_profile_is_one_line(shape_of(sourcemap, output));
    reveal_strlit("0.1.0");
    reveal_strlit("\n");
    reveal_strlit("vendor-profile:");
    assert("\n"@ =~= seq!['\n']);
    let none = Seq::<char>::empty();
    assert(!VERSION@.contains('\n'));
    text::lemma_pieces_single(VERSION@, '\n');
    text::lemma_pieces_single(none, '\n');
    let whole = marker_text(profile);
    reveal_with_fuel(first_profile, 3);
    if profile.len() == 0 {
        assert(whole =~= VERSION@.push('\n') + none);
        text::lemma_pieces_concat(VERSION@, none, '\n');
        assert(pieces(whole, '\n') =~= seq![VERSION@, none]);
        assert(line_list(whole) =~= seq![VERSION@]);
        assert(line_list(whole).drop_first() =~= Seq::<Seq<char>>::empty());
        assert(!"vendor-profile:"@.is_prefix_of(VERSION@));
        assert(profile =~= none);
    } else {
        text::lemma_pieces_single(profile, '\n');
        assert(whole =~= VERSION@.push('\n') + (profile.push('\n') + none));
        text::lemma_pieces_concat(VERSION@, profile.push('\n') + none, '\n');
        text::lemma_pieces_concat(profile, none, '\n');
        assert(pieces(whole, '\n') =~= seq![VERSION@, profile, none]);
        assert(line_list(whole) =~= seq![VERSION@, profile]);
        assert(!"vendor-profile:"@.is_prefix_of(VERSION@));
        assert(line_list(whole).drop_first() =~= seq![profile]);
    }
}

/// The shape that a list of tokens stands for: the tokens come in a fixed order, and each
/// of them names one toggle.
spec fn shape_in(tokens: Seq<Seq<char>>) -> Shape {
    let i: int = if tokens.len() > 0 && tokens[0] == "sourcemaps"@ {
        1
    } else {
        0
    };
    let minify = tokens.len() > i && tokens[i] == "minify"@;
    let k: int = if minify {
        i + 1
    } else {
        i
    };
    let comments = if tokens.len() <= k {
        Comments::Keep
    } else if tokens[k] == "comments=strip"@ {
        Comments::Strip
    } else if tokens[k] == "comments=collect"@ {
        Comments::Collect
    } else {
        Comments::Nothing
    };
    Shape {
        sourcemaps: i == 1,
        rewrite: if tokens.len() == i {
            None
        } else {
            Some((minify, comments))
        },
    }
}

proof fn lemma_tokens_are_distinct()
    ensures
        "sourcemaps"@.len() == 10,
        "minify"@.len() == 6,
        "comments=strip"@.len() == 14,
        "comments=collect"@.len() == 16,
        "comments=none"@.len() == 13,
{
    reveal_strlit("sourcemaps");
    reveal_strlit("minify");
    reveal_strlit("comments=strip");
    reveal_strlit("comments=collect");
    reveal_strlit("comments=none");
}

proof fn lemma_tokens_tell_shape(shape: Shape)
    requires
        shape.rewrite != Some((false, Comments::Keep)),
    ensures
        shape_in(shape_tokens(shape)) == shape,
{
    lemma_tokens_are_distinct();
    let tokens = shape_tokens(shape);
    let i: int = if shape.sourcemaps {
        1
    } else {
        0
    };
    assert(shape.sourcemaps == (tokens.len() > 0 && tokens[0] == "sourcemaps"@));
    match shape.rewrite {
        Some((minify, comments)) => {
            assert(minify == (tokens.len() > i && tokens[i] == "minify"@));
            let k: int = if minify {
                i + 1
            } else {
                i
            };
            assert(comment_token(comments).len() > 0 ==> tokens.len() == k + 1 && tokens[k]
                == comment_token(comments)[0]);
        },
        None => {
            assert(tokens.len() == i);
        },
    }
}

/// Two builds have the same vendor profile only when they shape the vendored tree alike:
/// the profile names every toggle that shapes it, so a differently shaped tree never seeds
/// the cache.
pub proof fn law_profile_tells_shape(
    sourcemap: bool,
    output: Output,
    other_sourcemap: bool,
    other_output: Output,
)
    ensures
        profile_line(shape_of(sourcemap, output)) == profile_line(
            shape_of(other_sourcemap, other_output),
        ) <==> shape_of(sourcemap, output) == shape_of(other_sourcemap, other_output),
{
    let a = shape_of(sourcemap, output);
    let b = shape_of(other_sourcemap, other_output);
    if profile_line(a) == profile_line(b) {
        let p = shape_tokens(a);
        let q = shape_tokens(b);
        reveal_strlit("vendor-profile: ");
        reveal_strlit(",");
        assert(","@ =~= seq![',']);
        if p.len() > 0 && q.len() > 0 {
            let head = "vendor-profile: "@;
            let x = joined(p, ","@);
            let y = joined(q, ","@);
            assert(x =~= (head + x).skip(head.len() as int));
            assert(y =~= (head + y).skip(head.len() as int));
            assert(x == y);
            lemma_token_chars(a);
            lemma_token_chars(b);
            path::law_split_undoes_join(p, ',');
            path::law_split_undoes_join(q, ',');
        } else {
            assert(p.len() == 0 && q.len() == 0) by {
                if p.len() > 0 {
                    assert(profile_line(a).len() > 0);
                }
                if q.len() > 0 {
                    assert(profile_line(b).len() > 0);
                }
            }
            assert(p =~= q);
        }
        lemma_tokens_tell_shape(a);
        lemma_tokens_tell_shape(b);
    }
}

/// A vendored tree seeds the next build only when both shape it alike: what the one build
/// wrote into its marker is what the other asks for exactly when their shapes agree.
pub proof fn law_seeding_needs_the_same_shape(
    sourcemap: bool,
    output: Output,
    other_sourcemap: bool,
    other_output: Output,
)
    ensures
        profile_in(Some(marker_text(profile_line(shape_of(sourcemap, output))))) == profile_line(
            shape_of(other_sourcemap, other_output),
        ) <==> shape_of(sourcemap, output) == shape_of(other_sourcemap, other_output),
{
    law_marker_keeps_profile(sourcemap, output);
    law_profile_tells_shape(sourcemap, output, other_sourcemap, other_output);
}

// ---------------------------------------------------------------------------
// Which directory a build may replace
// ---------------------------------------------------------------------------

/// What stands where a build's output is to go.
#[derive(Debug, PartialEq, Eq)]
pub enum Occupant {
    Absent,
    NotDirectory,
    Directory { marked: bool, empty: bool },
}

/// The output directory may be replaced only when this build can own it: absent, empty, or
/// marked as a previous build's output. Anything else is someone else's directory.
pub open spec fn replaceable(out: Seq<char>, found: Occupant) -> Result<(), Failure> {
    match found {
        Occupant::Absent => Ok(()),
        Occupant::NotDirectory => Err(
            Failure::Build("web-modules: --out "@ + out + " exists and is not a directory"@),
        ),
        Occupant::Directory { marked, empty } => if marked || empty {
            Ok(())
        } else {
            Err(
                Failure::Build(
                    "web-modules: "@ + out
                        + " contains files web-modules did not produce - refusing to replace it; pass an absent or empty --out, or delete the directory once (each build marks its output with "@
                        + OUT_MARKER@ + ")"@,
                ),
            )
        },
    }
}

/// Whether `out`, where `found` stands, may be replaced. Replacing someone else's directory
/// (the current dir under `--out .`, a shared `OUT_DIR`) would delete files this tool never
/// wrote.
pub fn ensure_replaceable(out: &str, found: &Occupant) -> (r: Result<(), Error>)
    ensures
        (match r {
            Ok(_) => Ok::<(), Failure>(()),
            Err(e) => Err(e@),
        }) == replaceable(out@, *found),
{
    match found {
        Occupant::Absent => Ok(()),
        Occupant::NotDirectory => Err(
            Error::Build(
                "web-modules: --out ".to_owned().concat(out).concat(
                    " exists and is not a directory",
                ),
            ),
        ),
        Occupant::Directory { marked, empty } => {
            if *marked || *empty {
                Ok(())
            } else {
                Err(
                    Error::Build(
                        "web-modules: ".to_owned().concat(out).concat(
                            " contains files web-modules did not produce - refusing to replace it; pass an absent or empty --out, or delete the directory once (each build marks its output with ",
                        ).concat(OUT_MARKER).concat(")"),
                    ),
                )
            }
        },
    }
}

/// `.<name>.web-modules-<suffix>` next to a directory.
pub open spec fn sibling_of(dir: Seq<char>, suffix: Seq<char>) -> Result<Seq<char>, Failure> {
    match path::name_of(dir) {
        Some(name) => Ok(
            path::refiled(dir, "."@ + name + ".web-modules-"@ + suffix),
        ),
        None => Err(
            Failure::Build("web-modules: --out "@ + dir + " has no usable directory name"@),
        ),
    }
}

/// `.<name>.web-modules-<suffix>` next to `dir`: on the same filesystem, so the promoting
/// rename is atomic.
pub fn sibling(dir: &str, suffix: &str) -> (r: Result<String, Error>)
    ensures
        crate::error::seen(r) == sibling_of(dir@, suffix@),
{
    match path::file_name(dir) {
        Some(name) => {
            let fresh = ".".to_owned().concat(name.as_str()).concat(".web-modules-").concat(suffix);
            Ok(path::with_file_name(dir, fresh.as_str()))
        },
        None => Err(
            Error::Build(
                "web-modules: --out ".to_owned().concat(dir).concat(
                    " has no usable directory name",
                ),
            ),
        ),
    }
}

/// A directory may be replaced when it is absent, empty, or marked, and in no other case.
pub proof fn law_what_may_be_replaced(out: Seq<char>, marked: bool, empty: bool)
    ensures
        replaceable(out, Occupant::Absent) is Ok,
        replaceable(out, Occupant::NotDirectory) is Err,
        replaceable(out, Occupant::Directory { marked, empty }) is Ok <==> marked || empty,
{
}

/// The staging directory is a hidden one beside the output, named after it and its purpose.
pub proof fn law_staging_is_beside(dir: Seq<char>, name: Seq<char>, suffix: Seq<char>)
    requires
        path::ends_in_name(dir),
        path::proper_name(name),
        !suffix.contains('/'),
    ensures
        sibling_of(dir + "/"@ + name, suffix) == Ok::<Seq<char>, Failure>(
            dir + "/"@ + ("."@ + name + ".web-modules-"@ + suffix),
        ),
{
    reveal_strlit(".");
    reveal_strlit("..");
    reveal_strlit(".web-modules-");
    let fresh = "."@ + name + ".web-modules-"@ + suffix;
    assert(!fresh.contains('/')) by {
        if fresh.contains('/') {
            let k = choose|k: int| 0 <= k < fresh.len() && fresh[k] == '/';
            if 1 <= k < 1 + name.len() {
                assert(name[k - 1] == '/');
            } else if k >= 1 + name.len() + 13 {
                assert(suffix[k - 1 - name.len() - 13] == '/');
            } else if k >= 1 + name.len() {
                assert(fresh[k] == ".web-modules-"@[k - 1 - name.len()]);
            }
        }
    }
    assert(fresh.len() > 2);
    path::law_file_in_directory(dir, name, name, fresh);
}

/// A marker names the version on its first line, and the profile, where there is one, on the next.
pub proof fn law_marker_lines(profile: Seq<char>)
    requires
        !profile.contains('\n'),
        profile.len() == 0 || profile.last() != '\r',
    ensures
        profile.len() == 0 ==> line_list(marker_text(profile)) == seq![VERSION@],
        profile.len() > 0 ==> line_list(marker_text(profile)) == seq![VERSION@, profile],
{
    reveal_strlit("0.1.0");
    reveal_strlit("\n");
    let v = VERSION@;
    assert(!v.contains('\n') && v.last() != '\r');
    assert(v + "\n"@ =~= v.push('\n'));
    text::law_lines(v, Seq::empty());
    text::law_lines(v, profile.push('\n'));
    text::law_lines(profile, Seq::empty());
    assert(v + "\n"@ + profile + "\n"@ =~= v.push('\n') + profile.push('\n'));
    assert(seq![v] + seq![profile] =~= seq![v, profile]);
}

/// A build shapes its vendored tree by its own settings: the maps as asked, and a rewrite exactly
/// when npm content is to be rewritten at all.
pub proof fn law_shape_follows_the_settings(sourcemap: bool, output: Output)
    ensures
        shape_of(sourcemap, output).sourcemaps == sourcemap,
        !output.minify_web_modules ==> shape_of(sourcemap, output).rewrite is None,
        output.minify_web_modules && output.minify ==> (shape_of(sourcemap, output).rewrite matches Some(
            (minify, comments),
        ) && minify && comments == comment_policy(output)),
        !output.minify && output.comments is None ==> shape_of(sourcemap, output).rewrite is None,
{
}

/// The words of a profile: `sourcemaps` when maps are kept, and of a rewrite `minify` when it
/// minifies and the comment policy unless everything is kept; no words mean no profile.
pub proof fn law_profile_words(shape: Shape)
    ensures
        shape_tokens(Shape { sourcemaps: false, rewrite: None }).len() == 0,
        shape_tokens(Shape { sourcemaps: true, rewrite: None }) == seq!["sourcemaps"@],
        shape.sourcemaps ==> shape_tokens(shape)[0] == "sourcemaps"@,
        shape.rewrite matches Some((minify, comments)) ==> {
            let at: int = if shape.sourcemaps {
                1
            } else {
                0
            };
            let next: int = if minify {
                at + 1
            } else {
                at
            };
            &&& minify ==> shape_tokens(shape)[at] == "minify"@
            &&& comments == Comments::Keep ==> shape_tokens(shape).len() == next
            &&& comments == Comments::Strip ==> shape_tokens(shape).len() == next + 1
                && shape_tokens(shape)[next] == "comments=strip"@
            &&& comments == Comments::Collect ==> shape_tokens(shape).len() == next + 1
                && shape_tokens(shape)[next] == "comments=collect"@
            &&& comments == Comments::Nothing ==> shape_tokens(shape).len() == next + 1
                && shape_tokens(shape)[next] == "comments=none"@
        },
        shape_tokens(shape).len() == 0 ==> profile_line(shape).len() == 0,
        shape_tokens(shape).len() > 0 ==> profile_line(shape) == "vendor-profile: "@ + joined(
            shape_tokens(shape),
            ","@,
        ),
{
}

/// The profile that a marker names is its first line that is one; a marker without one, and no
/// marker, name none.
pub proof fn law_profile_is_the_first(lines: Seq<Seq<char>>, line: Seq<char>)
    ensures
        profile_in(None).len() == 0,
        first_profile(Seq::empty()).len() == 0,
        "vendor-profile:"@.is_prefix_of(line) ==> first_profile(seq![line] + lines) == line,
        !"vendor-profile:"@.is_prefix_of(line) ==> first_profile(seq![line] + lines)
            == first_profile(lines),
{
    assert((seq![line] + lines).drop_first() =~= lines);
}

} // verus!
