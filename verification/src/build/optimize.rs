//! Rewriting vendored JavaScript in place: the `web_modules/` half of whole-tree
//! minification.
//!
//! Extraction ships packages byte-for-byte; this pass goes over the vendored tree after
//! pruning and sends every `.js`/`.mjs` through the crate's one rewrite pass. Third-party
//! trees ship oddities, so a file that cannot be read or parsed is left as shipped, aloud.

use vstd::prelude::*;

use crate::build::options::RewriteOptions;
use crate::path;
use crate::static_files;
use crate::static_files::{emitted_js, ext_or_empty};
use crate::text;
use crate::text::texts;
use crate::walk::{places, Kind, Place, Visited};

verus! {

/// What reading and rewriting one vendored file gave.
#[derive(Debug, PartialEq, Eq)]
pub enum Attempt {
    /// The file is not UTF-8 text.
    NotText,
    /// The rewrite failed, and why.
    Failed { message: String },
    /// The rewritten code, and its source map if one was asked for.
    Rewritten { code: String, map: Option<String> },
}

/// What happens to one vendored file.
#[derive(Debug, PartialEq, Eq)]
pub enum Replacement {
    /// It is left as shipped, and this is said.
    LeftAsShipped { warning: String },
    /// It is replaced.
    Replaced(Rewritten),
}

/// A vendored file's rewritten form, and the files to write and remove for it, in order: the
/// stale sidecars are unlinked, a fresh map is a new file, and the code is written to a
/// sibling and renamed over. Nothing writes through an existing directory entry: the staged
/// tree seeds the vendored one as hardlinks into the previous output.
#[derive(Debug, PartialEq, Eq)]
pub struct Rewritten {
    pub path: String,
    pub stale_gzip: String,
    pub stale_map: String,
    /// The fresh source map, to be written where the stale one was.
    pub map: Option<String>,
    pub temporary: String,
    pub code: String,
}

/// A vendored place is rewritten: a `.js`/`.mjs` file that is no link.
pub open spec fn rewritten_place(place: Place) -> bool {
    place.kind == Kind::File && emitted_js(ext_or_empty(place.path))
}

/// The places of a vendored tree that are rewritten, in order.
pub open spec fn rewritten_places(list: Seq<Place>) -> Seq<Seq<char>>
    decreases list.len(),
{
    if list.len() == 0 {
        Seq::empty()
    } else {
        let front = rewritten_places(list.drop_last());
        if rewritten_place(list.last()) {
            front.push(list.last().path)
        } else {
            front
        }
    }
}

/// Whether a vendored place is rewritten: a `.js`/`.mjs` file that is no link.
pub fn is_rewritten(path: &str, kind: Kind) -> (r: bool)
    ensures
        r == rewritten_place(Place { path: path@, kind }),
{
    kind == Kind::File && static_files::is_emitted_js(
        static_files::extension_or_empty(path).as_str(),
    )
}

/// Which of the `visited` places of a vendored tree are rewritten: every `.js`/`.mjs`. Links
/// are skipped: a marked output contains none this tool wrote.
pub fn rewrite_vendor_tree(visited: &Vec<Visited>) -> (r: Vec<String>)
    ensures
        texts(r@) == rewritten_places(places(visited@)),
{
    let ghost all = places(visited@);
    let mut out: Vec<String> = Vec::new();
    let mut i: usize = 0;
    assert(texts(out@) =~= rewritten_places(all.take(0)));
    while i < visited.len()
        invariant
            i <= visited@.len(),
            all == places(visited@),
            texts(out@) == rewritten_places(all.take(i as int)),
        decreases visited@.len() - i,
    {
        proof {
            let grown = all.take(i + 1);
            assert(grown.drop_last() =~= all.take(i as int));
            assert(grown.last() == visited@[i as int]@);
        }
        if is_rewritten(visited[i].path.as_str(), visited[i].kind) {
            let one = visited[i].path.clone();
            proof {
                text::lemma_texts_push(out@, one);
            }
            out.push(one);
        }
        i += 1;
    }
    assert(all.take(visited@.len() as int) =~= all);
    out
}

/// Code with the comment that links its source map: on a line of its own, at the end.
pub open spec fn linked(code: Seq<char>, map: Seq<char>) -> Seq<char> {
    (if code.len() == 0 || code.last() == '\n' {
        code
    } else {
        code + "\n"@
    }) + "//# sourceMappingURL="@ + map + "\n"@
}

/// Appends to `code` the comment that links the source map `map`.
pub fn append_source_map_comment(code: &str, map: &str) -> (r: String)
    ensures
        r@ == linked(code@, map@),
{
    let n = code.unicode_len();
    let body = if n == 0 || code.get_char(n - 1) == '\n' {
        code.to_owned()
    } else {
        code.to_owned().concat("\n")
    };
    body.concat("//# sourceMappingURL=").concat(map).concat("\n")
}

/// The name of a path, or nothing.
pub open spec fn map_name(path: Seq<char>) -> Seq<char> {
    static_files::name_or_empty(path) + ".map"@
}

/// What happens to the vendored file at `path` (called `rel` in messages), given what reading
/// and rewriting it gave.
pub fn replace_file(path: &str, rel: &str, attempt: Attempt) -> (r: Replacement)
    ensures
        match attempt {
            Attempt::NotText => r matches Replacement::LeftAsShipped { warning } && warning@
                == "web-modules: web_modules/"@ + rel@ + ": not UTF-8 text; left as shipped"@,
            Attempt::Failed { message } => r matches Replacement::LeftAsShipped { warning }
                && warning@ == "web-modules: web_modules/"@ + rel@ + ": left as shipped ("@
                + message@ + ")"@,
            Attempt::Rewritten { code, map } => r matches Replacement::Replaced(done) && {
                &&& done.path@ == path@
                &&& done.stale_gzip@ == path@ + ".gz"@
                &&& done.stale_map@ == path@ + ".map"@
                &&& done.temporary@ == path@ + ".tmp"@
                &&& (done.stale_gzip@, done.stale_map@, done.temporary@) == beside(path@)
                &&& text::opt_text(done.map) == text::opt_text(map)
                &&& done.code@ == (if map is Some {
                    linked(code@, map_name(path@))
                } else {
                    code@
                })
            },
        },
{
    let head = "web-modules: web_modules/".to_owned().concat(rel);
    match attempt {
        Attempt::NotText => Replacement::LeftAsShipped {
            warning: head.concat(": not UTF-8 text; left as shipped"),
        },
        Attempt::Failed { message } => Replacement::LeftAsShipped {
            warning: head.concat(": left as shipped (").concat(message.as_str()).concat(")"),
        },
        Attempt::Rewritten { code, map } => {
            let code = if map.is_some() {
                let name = match path::file_name(path) {
                    Some(name) => name,
                    None => {
                        let none = String::new();
                        assert(none@ =~= Seq::<char>::empty());
                        none
                    },
                };
                append_source_map_comment(code.as_str(), name.concat(".map").as_str())
            } else {
                code
            };
            Replacement::Replaced(
                Rewritten {
                    path: path.to_owned(),
                    stale_gzip: path.to_owned().concat(".gz"),
                    stale_map: path.to_owned().concat(".map"),
                    map,
                    temporary: path.to_owned().concat(".tmp"),
                    code,
                },
            )
        },
    }
}

/// How an `npm://` asset is emitted.
#[derive(Debug, PartialEq, Eq)]
pub enum Emission {
    /// Its bytes are copied, after this is said, if anything.
    Copied { warning: Option<String> },
    /// The rewritten code is written, with its source map if one was asked for.
    Written { code: String, map: Option<String> },
}

/// Whether the asset that goes to `rel` is rewritten: emitted JavaScript is, in a build that
/// rewrites npm content.
pub fn is_asset_rewritten(rel: &str, rewrite: Option<RewriteOptions>) -> (r: bool)
    ensures
        r == (rewrite is Some && emitted_js(ext_or_empty(rel@))),
{
    rewrite.is_some() && static_files::is_emitted_js(
        static_files::extension_or_empty(rel).as_str(),
    )
}

/// How the `npm://` asset that goes to `rel` is emitted, given what reading and rewriting it
/// gave, or nothing when it is not rewritten. Content that cannot be read or parsed must not
/// break the build: it is copied as it is, and this is said.
pub fn emit_asset(rel: &str, attempt: Option<Attempt>) -> (r: Emission)
    ensures
        match attempt {
            None => r == (Emission::Copied { warning: None }),
            Some(Attempt::NotText) => r matches Emission::Copied { warning: Some(warning) }
                && warning@ == "web-modules: "@ + rel@ + ": not UTF-8 text; copied as shipped"@,
            Some(Attempt::Failed { message }) => r matches Emission::Copied {
                warning: Some(warning),
            } && warning@ == "web-modules: "@ + rel@ + ": copied as shipped ("@ + message@ + ")"@,
            Some(Attempt::Rewritten { code, map }) => r == (Emission::Written { code, map }),
        },
{
    let head = "web-modules: ".to_owned().concat(rel);
    match attempt {
        None => Emission::Copied { warning: None },
        Some(Attempt::NotText) => Emission::Copied {
            warning: Some(head.concat(": not UTF-8 text; copied as shipped")),
        },
        Some(Attempt::Failed { message }) => Emission::Copied {
            warning: Some(
                head.concat(": copied as shipped (").concat(message.as_str()).concat(")"),
            ),
        },
        Some(Attempt::Rewritten { code, map }) => Emission::Written { code, map },
    }
}

/// Every `.js` and `.mjs` file of the vendored tree is rewritten, in any case of its extension, and
/// nothing else is: no link, and no other file.
pub proof fn law_what_is_rewritten(list: Seq<Place>, p: Seq<char>)
    ensures
        rewritten_places(list).contains(p) <==> exists|i: int|
            0 <= i < list.len() && (#[trigger] list[i]).path == p && list[i].kind == Kind::File && (
            text::lowered(ext_or_empty(p)) == "js"@ || text::lowered(ext_or_empty(p)) == "mjs"@),
    decreases list.len(),
{
    if list.len() > 0 {
        let front = list.drop_last();
        law_what_is_rewritten(front, p);
        let before = rewritten_places(front);
        let all = rewritten_places(list);
        if all.contains(p) {
            let k = choose|k: int| 0 <= k < all.len() && all[k] == p;
            if k < before.len() {
                assert(before[k] == p);
                let i = choose|i: int|
                    0 <= i < front.len() && (#[trigger] front[i]).path == p && front[i].kind
                        == Kind::File;
                assert(list[i] == front[i]);
            } else {
                assert(list[list.len() - 1].path == p);
            }
        }
        if exists|i: int|
            0 <= i < list.len() && (#[trigger] list[i]).path == p && rewritten_place(list[i]) {
            let i = choose|i: int|
                0 <= i < list.len() && (#[trigger] list[i]).path == p && rewritten_place(list[i]);
            if i < front.len() {
                assert(front[i] == list[i]);
                let k = choose|k: int| 0 <= k < before.len() && before[k] == p;
                assert(all[k] == p);
            } else {
                assert(all[before.len() as int] == p);
            }
        }
    }
}

/// The comment that links a source map stands behind the code, on a line of its own, and is the
/// last line.
pub proof fn law_map_comment(code: Seq<char>, map: Seq<char>)
    ensures
        code.is_prefix_of(linked(code, map)),
        ("//# sourceMappingURL="@ + map + "\n"@).is_suffix_of(linked(code, map)),
        code.len() > 0 && code.last() != '\n' ==> linked(code, map) == code + "\n"@
            + "//# sourceMappingURL="@ + map + "\n"@,
        code.len() > 0 && code.last() == '\n' ==> linked(code, map) == code
            + "//# sourceMappingURL="@ + map + "\n"@,
{
    reveal_strlit("\n");
    let all = linked(code, map);
    let comment = "//# sourceMappingURL="@ + map + "\n"@;
    assert(all.subrange(0, code.len() as int) =~= code);
    assert(all.subrange(all.len() - comment.len(), all.len() as int) =~= comment);
}

/// The files beside a rewritten one: its gzip sidecar, its source map, and where it is written first.
pub open spec fn beside(path: Seq<char>) -> (Seq<char>, Seq<char>, Seq<char>) {
    (path + ".gz"@, path + ".map"@, path + ".tmp"@)
}

/// The three are the path with a suffix of its own each, so no two of them, and no two files', are
/// one.
pub proof fn law_beside(path: Seq<char>, other: Seq<char>)
    ensures
        text::without_suffix(beside(path).0, ".gz"@) == Some(path),
        text::without_suffix(beside(path).1, ".map"@) == Some(path),
        text::without_suffix(beside(path).2, ".tmp"@) == Some(path),
        beside(path) == beside(other) ==> path == other,
{
    text::law_taking_off(path, ".gz"@);
    text::law_taking_off(path, ".map"@);
    text::law_taking_off(path, ".tmp"@);
    text::law_taking_off(other, ".gz"@);
}

} // verus!
