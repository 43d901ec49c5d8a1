//! Which files of a package are kept, and what kind of file a path is.

use vstd::prelude::*;

use crate::npm::{reference, Entry, Export};
use crate::path;
use crate::text;
use crate::text::{opt_text, pieces, texts};

verus! {

/// Some piece of a `/`-separated path is one of the trees a browser never loads.
pub open spec fn in_dropped_tree(rel: Seq<char>) -> bool {
    exists|i: int|
        0 <= i < pieces(rel, '/').len() && dropped_tree(#[trigger] pieces(rel, '/')[i])
}

/// The name of a tree that browser assets are not taken from.
pub open spec fn dropped_tree(seg: Seq<char>) -> bool {
    seg == "src"@ || seg == "node"@ || seg == "development"@
}

/// Some piece of a `/`-separated path is repository furniture.
pub open spec fn in_furniture(rel: Seq<char>) -> bool {
    exists|i: int| 0 <= i < pieces(rel, '/').len() && furniture(#[trigger] pieces(rel, '/')[i])
}

/// The name of a directory that a repository carries beside the package: a
/// dot-directory, or its examples, tests, docs and dependencies.
pub open spec fn furniture(seg: Seq<char>) -> bool {
    ||| "."@.is_prefix_of(seg)
    ||| seg == "node"@
    ||| seg == "development"@
    ||| seg == "node_modules"@
    ||| seg == "examples"@
    ||| seg == "test"@
    ||| seg == "tests"@
    ||| seg == "docs"@
}

/// The last piece of a `/`-separated path.
pub open spec fn last_piece(rel: Seq<char>) -> Seq<char> {
    pieces(rel, '/').last()
}

/// A licence or notice file, which travels with the code it covers.
pub open spec fn legal_notice(rel: Seq<char>) -> bool {
    let stem = text::uppered(pieces(last_piece(rel), '.')[0]);
    ||| stem == "LICENSE"@
    ||| stem == "LICENCE"@
    ||| stem == "NOTICE"@
    ||| stem == "COPYING"@
    ||| stem == "COPYRIGHT"@
    ||| stem == "AUTHORS"@
    ||| stem == "PATENTS"@
    ||| "LICENSE-"@.is_prefix_of(stem)
    ||| "LICENCE-"@.is_prefix_of(stem)
}

/// A TypeScript declaration, in any of the three module forms.
pub open spec fn declaration(name: Seq<char>) -> bool {
    ||| ".d.ts"@.is_suffix_of(name)
    ||| ".d.mts"@.is_suffix_of(name)
    ||| ".d.cts"@.is_suffix_of(name)
}

/// A lockfile at the package root.
pub open spec fn lockfile(rel: Seq<char>) -> bool {
    rel == "package-lock.json"@ || rel == "npm-shrinkwrap.json"@ || rel == "yarn.lock"@
}

/// A file that a module graph can reach, by its extension.
pub open spec fn graph_file(rel: Seq<char>) -> bool {
    ||| ".ts"@.is_suffix_of(rel)
    ||| ".tsx"@.is_suffix_of(rel)
    ||| ".mts"@.is_suffix_of(rel)
    ||| ".cts"@.is_suffix_of(rel)
    ||| ".js"@.is_suffix_of(rel)
    ||| ".mjs"@.is_suffix_of(rel)
    ||| ".cjs"@.is_suffix_of(rel)
    ||| ".json"@.is_suffix_of(rel)
    ||| ".css"@.is_suffix_of(rel)
    ||| ".scss"@.is_suffix_of(rel)
}

/// A file that a browser loads, by its extension.
pub open spec fn browser_file(rel: Seq<char>) -> bool {
    ||| ".js"@.is_suffix_of(rel)
    ||| ".mjs"@.is_suffix_of(rel)
    ||| ".css"@.is_suffix_of(rel)
    ||| ".scss"@.is_suffix_of(rel)
}

/// What is kept of a source-built package.
pub open spec fn source_kept(rel: Seq<char>) -> bool {
    &&& !in_furniture(rel)
    &&& !declaration(rel)
    &&& (legal_notice(rel) || (!lockfile(rel) && graph_file(rel)))
}

/// A TypeScript file, by its extension.
pub open spec fn typescript_file(rel: Seq<char>) -> bool {
    ||| ".ts"@.is_suffix_of(rel)
    ||| ".tsx"@.is_suffix_of(rel)
    ||| ".mts"@.is_suffix_of(rel)
    ||| ".cts"@.is_suffix_of(rel)
}

/// What is kept of a published package.
pub open spec fn asset_kept(rel: Seq<char>) -> bool {
    !in_dropped_tree(rel) && !typescript_file(rel) && (legal_notice(rel) || browser_file(rel))
}

/// `rel` when it is kept.
pub open spec fn kept_as_is(rel: Seq<char>, kept: bool) -> Option<Seq<char>> {
    if kept {
        Some(rel)
    } else {
        None
    }
}

/// An `exports` target covers a file: it names the file, or, ending in `/`, it
/// names a directory the `.js`/`.mjs` file is under.
pub open spec fn covered(rel: Seq<char>, target: Seq<char>) -> bool {
    if target.len() > 0 && target.last() == '/' {
        target.is_prefix_of(rel) && (".js"@.is_suffix_of(rel) || ".mjs"@.is_suffix_of(rel))
    } else {
        rel == target
    }
}

/// What is kept of a published package with a manifest: the manifest, what it
/// refers to, and the browser assets.
pub open spec fn manifest_kept(manifest: Option<Seq<Export>>, rel: Seq<char>) -> bool {
    ||| asset_kept(rel)
    ||| manifest matches Some(exports) && (rel == "package.json"@ || any_covered(exports, rel))
}

/// Some entry of a manifest covers a file.
pub open spec fn any_covered(exports: Seq<Export>, rel: Seq<char>) -> bool {
    exists|i: int| 0 <= i < exports.len() && covered(rel, reference(#[trigger] exports[i]))
}

/// Whether a name is a licence or notice file.
pub fn is_legal_notice(rel: &str) -> (r: bool)
    ensures
        r == legal_notice(rel@),
{
    let mut list = text::split(rel, '/');
    let ghost all = list@;
    let name = match list.pop() {
        Some(last) => last,
        None => rel.to_owned(),
    };
    assert(texts(all).last() == name@);
    let list = text::split(name.as_str(), '.');
    assert(texts(list@)[0] == list@[0]@);
    let stem = text::upper(list[0].as_str());
    let s = stem.as_str();
    text::same(s, "LICENSE") || text::same(s, "LICENCE") || text::same(s, "NOTICE") || text::same(
        s,
        "COPYING",
    ) || text::same(s, "COPYRIGHT") || text::same(s, "AUTHORS") || text::same(s, "PATENTS")
        || text::starts_with(s, "LICENSE-") || text::starts_with(s, "LICENCE-")
}

/// Whether a file name is a TypeScript declaration, in any of the three module forms.
pub fn is_declaration(name: &str) -> (r: bool)
    ensures
        r == declaration(name@),
{
    text::ends_with(name, ".d.ts") || text::ends_with(name, ".d.mts") || text::ends_with(
        name,
        ".d.cts",
    )
}

/// Selection for a source-built package: keep everything a module graph can reach,
/// **including `src/`**, which for a package that publishes only sources is the
/// package. The counterpart of [`keep_browser_assets`], which drops `src/` because a
/// published package's sources are redundant next to its built output.
///
/// Declaration files are dropped: `.d.ts` has no runtime form, and the compiler emits
/// nothing for it.
pub fn keep_sources(rel: &str) -> (r: Option<String>)
    ensures
        opt_text(r) == kept_as_is(rel@, source_kept(rel@)),
{
    let list = text::split(rel, '/');
    let mut i: usize = 0;
    while i < list.len()
        invariant
            i <= list@.len(),
            texts(list@) == pieces(rel@, '/'),
            forall|j: int| 0 <= j < i ==> !furniture(#[trigger] pieces(rel@, '/')[j]),
        decreases list@.len() - i,
    {
        let seg = list[i].as_str();
        assert(pieces(rel@, '/')[i as int] == seg@);
        if text::starts_with(seg, ".") || text::same(seg, "node") || text::same(
            seg,
            "development",
        ) || text::same(seg, "node_modules") || text::same(seg, "examples") || text::same(
            seg,
            "test",
        ) || text::same(seg, "tests") || text::same(seg, "docs") {
            return None;
        }
        i += 1;
    }
    // A declaration has no runtime form. TypeScript writes one per module format, and
    // `.d.mts`/`.d.cts` would otherwise pass as ordinary `.mts`/`.cts` sources.
    if is_declaration(rel) {
        return None;
    }
    if is_legal_notice(rel) {
        return Some(rel.to_owned());
    }
    // A lockfile describes how to build the package, not how to load it.
    if text::same(rel, "package-lock.json") || text::same(rel, "npm-shrinkwrap.json") || text::same(
        rel,
        "yarn.lock",
    ) {
        return None;
    }
    if text::ends_with(rel, ".ts") || text::ends_with(rel, ".tsx") || text::ends_with(rel, ".mts")
        || text::ends_with(rel, ".cts") || text::ends_with(rel, ".js") || text::ends_with(
        rel,
        ".mjs",
    ) || text::ends_with(rel, ".cjs") || text::ends_with(rel, ".json") || text::ends_with(
        rel,
        ".css",
    ) || text::ends_with(rel, ".scss") {
        Some(rel.to_owned())
    } else {
        None
    }
}

/// Default selection: keep browser assets (`.js`/`.mjs`/`.css`) **plus `.scss`
/// sources** (so packages like Bootstrap can be themed from their SCSS) while
/// dropping TypeScript sources and the node-only / development build trees some
/// packages ship. Licence and notice files travel along.
pub fn keep_browser_assets(rel: &str) -> (r: Option<String>)
    ensures
        opt_text(r) == kept_as_is(rel@, asset_kept(rel@)),
{
    let list = text::split(rel, '/');
    let mut i: usize = 0;
    while i < list.len()
        invariant
            i <= list@.len(),
            texts(list@) == pieces(rel@, '/'),
            forall|j: int| 0 <= j < i ==> !dropped_tree(#[trigger] pieces(rel@, '/')[j]),
        decreases list@.len() - i,
    {
        let seg = list[i].as_str();
        assert(pieces(rel@, '/')[i as int] == seg@);
        if text::same(seg, "src") || text::same(seg, "node") || text::same(seg, "development") {
            return None;
        }
        i += 1;
    }
    // TypeScript is no browser asset, whatever the file is called.
    if text::ends_with(rel, ".ts") || text::ends_with(rel, ".tsx") || text::ends_with(rel, ".mts")
        || text::ends_with(rel, ".cts") {
        return None;
    }
    if is_legal_notice(rel) {
        return Some(rel.to_owned());
    }
    if text::ends_with(rel, ".js") || text::ends_with(rel, ".mjs") || text::ends_with(rel, ".css")
        || text::ends_with(rel, ".scss") {
        Some(rel.to_owned())
    } else {
        None
    }
}

/// Whether `rel` is covered by an `exports` target: an exact file, or any
/// `.js`/`.mjs` under a pattern directory (one ending `/`).
pub fn path_covered(rel: &str, target: &str) -> (r: bool)
    ensures
        r == covered(rel@, target@),
{
    if !target.is_empty() && target.get_char(target.unicode_len() - 1) == '/' {
        text::starts_with(rel, target) && (text::ends_with(rel, ".js") || text::ends_with(
            rel,
            ".mjs",
        ))
    } else {
        text::same(rel, target)
    }
}

/// [`keep_for`] with the text of the manifest, if the package has one: a text that is no
/// manifest counts as none.
pub fn keep_with_manifest(manifest: Option<&str>, rel: &str) -> (r: Option<String>)
    ensures
        opt_text(r) == kept_as_is(
            rel@,
            manifest_kept(
                match manifest {
                    Some(m) => crate::npm::manifest_exports(m@),
                    None => None,
                },
                rel@,
            ),
        ),
{
    match manifest {
        Some(m) => match crate::npm::manifest_entries(m) {
            Some(entries) => keep_for(Some(&entries), rel),
            None => keep_for(None, rel),
        },
        None => keep_for(None, rel),
    }
}

/// Per-package keep-filter for browser-asset extraction. With a manifest, also keep
/// `package.json` and every file its entries refer to (even under `src/`), then
/// fall back to the browser-asset heuristic.
pub fn keep_for(manifest: Option<&Vec<Entry>>, rel: &str) -> (r: Option<String>)
    ensures
        opt_text(r) == kept_as_is(
            rel@,
            manifest_kept(crate::npm::opt_exports(manifest), rel@),
        ),
{
    match manifest {
        Some(entries) => {
            if text::same(rel, "package.json") {
                return Some(rel.to_owned());
            }
            let referenced = crate::npm::referenced_paths(entries);
            let ghost exports = crate::npm::exports(entries@);
            let mut i: usize = 0;
            assert(texts(referenced@).len() == entries@.len());
            while i < referenced.len()
                invariant
                    i <= referenced@.len(),
                    exports == crate::npm::exports(entries@),
                    manifest == Some(entries),
                    referenced@.len() == exports.len(),
                    texts(referenced@) == Seq::new(
                        entries@.len(),
                        |i: int| reference(entries@[i]@),
                    ),
                    rel@ != "package.json"@,
                    forall|j: int|
                        0 <= j < i ==> !covered(rel@, reference(#[trigger] exports[j])),
                decreases referenced@.len() - i,
            {
                assert(texts(referenced@)[i as int] == reference(exports[i as int]));
                if path_covered(rel, referenced[i].as_str()) {
                    assert(any_covered(exports, rel@));
                    return Some(rel.to_owned());
                }
                i += 1;
            }
            keep_browser_assets(rel)
        },
        None => keep_browser_assets(rel),
    }
}

// ---------------------------------------------------------------------------
// Kinds of source file
// ---------------------------------------------------------------------------

/// The extension that TypeScript emits for a source file.
pub open spec fn emitted_extension(p: Seq<char>) -> Option<Seq<char>> {
    match path::name_of(p) {
        Some(name) => if declaration(name) {
            None
        } else {
            match path::name_extension(name) {
                Some(ext) => if ext == "ts"@ || ext == "tsx"@ {
                    Some("js"@)
                } else if ext == "mts"@ {
                    Some("mjs"@)
                } else {
                    None
                },
                None => None,
            }
        },
        None => None,
    }
}

/// CommonJS TypeScript source.
pub open spec fn commonjs_source(p: Seq<char>) -> bool {
    path::name_of(p) matches Some(name) && !declaration(name) && ".cts"@.is_suffix_of(name)
}

/// TypeScript source in any form, declarations included.
pub open spec fn typescript_source(p: Seq<char>) -> bool {
    path::extension_of(p) matches Some(ext) && (ext == "ts"@ || ext == "tsx"@ || ext == "mts"@
        || ext == "cts"@)
}

/// The extension TypeScript emits for a source file, or `None` when the file is not one it
/// compiles.
///
/// The module format travels with the extension: `.mts` emits `.mjs`, which is what a
/// `package.json` pointing at `lib/index.mjs` needs to find. `.cts` is CommonJS source and
/// has no entry here; see [`is_commonjs_source`]. A declaration has no runtime form at all.
pub fn compiled_extension(path: &str) -> (r: Option<&'static str>)
    ensures
        (match r {
            Some(ext) => Some(ext@),
            None => None,
        }) == emitted_extension(path@),
{
    match path::file_name(path) {
        Some(name) => {
            if is_declaration(name.as_str()) {
                return None;
            }
            match path::extension_in(name.as_str()) {
                Some(ext) => {
                    if text::same(ext.as_str(), "ts") || text::same(ext.as_str(), "tsx") {
                        Some("js")
                    } else if text::same(ext.as_str(), "mts") {
                        Some("mjs")
                    } else {
                        None
                    }
                },
                None => None,
            }
        },
        None => None,
    }
}

/// Whether a path is CommonJS TypeScript source, which `.cts` is by definition.
pub fn is_commonjs_source(path: &str) -> (r: bool)
    ensures
        r == commonjs_source(path@),
{
    match path::file_name(path) {
        Some(name) => !is_declaration(name.as_str()) && text::ends_with(name.as_str(), ".cts"),
        None => false,
    }
}

/// Whether a path is TypeScript source in any form, declarations included: what must not
/// remain in a vendored tree.
pub fn is_typescript_source(path: &str) -> (r: bool)
    ensures
        r == typescript_source(path@),
{
    match path::extension(path) {
        Some(ext) => {
            let e = ext.as_str();
            text::same(e, "ts") || text::same(e, "tsx") || text::same(e, "mts") || text::same(
                e,
                "cts",
            )
        },
        None => false,
    }
}

/// What TypeScript compiles is TypeScript source, and is not CommonJS.
pub proof fn law_compiled_is_typescript(p: Seq<char>)
    ensures
        emitted_extension(p) is Some ==> typescript_source(p),
{
}

/// Every script, module, stylesheet and SCSS source of a published package is kept under its own
/// path, unless one of its segments is `src`, `node` or `development`: nothing below those is.
pub proof fn law_browser_assets_are_kept(rel: Seq<char>)
    requires
        ".js"@.is_suffix_of(rel) || ".mjs"@.is_suffix_of(rel) || ".css"@.is_suffix_of(rel)
            || ".scss"@.is_suffix_of(rel),
    ensures
        !pieces(rel, '/').contains("src"@) && !pieces(rel, '/').contains("node"@) && !pieces(
            rel,
            '/',
        ).contains("development"@) ==> kept_as_is(rel, asset_kept(rel)) == Some(rel),
        pieces(rel, '/').contains("src"@) || pieces(rel, '/').contains("node"@) || pieces(
            rel,
            '/',
        ).contains("development"@) ==> kept_as_is(rel, asset_kept(rel)) is None,
{
    lemma_dropped_trees(rel);
    lemma_no_typescript(rel);
}

/// A file of a published package that is no script, module, stylesheet or SCSS source is kept only
/// as a licence or a notice; TypeScript is never kept.
pub proof fn law_nothing_else_is_kept(rel: Seq<char>)
    ensures
        asset_kept(rel) && !legal_notice(rel) ==> ".js"@.is_suffix_of(rel) || ".mjs"@.is_suffix_of(
            rel,
        ) || ".css"@.is_suffix_of(rel) || ".scss"@.is_suffix_of(rel),
        ".ts"@.is_suffix_of(rel) || ".tsx"@.is_suffix_of(rel) || ".mts"@.is_suffix_of(rel)
            || ".cts"@.is_suffix_of(rel) ==> !asset_kept(rel),
        asset_kept(rel) ==> !pieces(rel, '/').contains("src"@) && !pieces(rel, '/').contains(
            "node"@,
        ) && !pieces(rel, '/').contains("development"@),
{
    lemma_dropped_trees(rel);
}

/// The trees that browser assets are not taken from, by their names.
proof fn lemma_dropped_trees(rel: Seq<char>)
    ensures
        in_dropped_tree(rel) <==> pieces(rel, '/').contains("src"@) || pieces(rel, '/').contains(
            "node"@,
        ) || pieces(rel, '/').contains("development"@),
{
    let list = pieces(rel, '/');
    if list.contains("src"@) {
        let i = list.index_of("src"@);
        assert(dropped_tree(list[i]));
    }
    if list.contains("node"@) {
        let i = list.index_of("node"@);
        assert(dropped_tree(list[i]));
    }
    if list.contains("development"@) {
        let i = list.index_of("development"@);
        assert(dropped_tree(list[i]));
    }
}

/// A name that ends like a browser asset does not end like TypeScript.
proof fn lemma_no_typescript(rel: Seq<char>)
    requires
        ".js"@.is_suffix_of(rel) || ".mjs"@.is_suffix_of(rel) || ".css"@.is_suffix_of(rel)
            || ".scss"@.is_suffix_of(rel),
    ensures
        !typescript_file(rel),
{
    reveal_strlit(".js");
    reveal_strlit(".mjs");
    reveal_strlit(".css");
    reveal_strlit(".scss");
    reveal_strlit(".ts");
    reveal_strlit(".tsx");
    reveal_strlit(".mts");
    reveal_strlit(".cts");
    let n = rel.len() as int;
    text::lemma_suffix_chars(rel, ".js"@);
    text::lemma_suffix_chars(rel, ".mjs"@);
    text::lemma_suffix_chars(rel, ".css"@);
    text::lemma_suffix_chars(rel, ".scss"@);
    text::lemma_suffix_chars(rel, ".ts"@);
    text::lemma_suffix_chars(rel, ".tsx"@);
    text::lemma_suffix_chars(rel, ".mts"@);
    text::lemma_suffix_chars(rel, ".cts"@);
    assert(".js"@[2] == 's' && ".js"@[1] == 'j');
    assert(".mjs"@[3] == 's' && ".mjs"@[2] == 'j');
    assert(".css"@[3] == 's' && ".css"@[2] == 's');
    assert(".scss"@[4] == 's' && ".scss"@[3] == 's');
    assert(".ts"@[1] == 't');
    assert(".mts"@[2] == 't');
    assert(".cts"@[2] == 't');
    assert(".tsx"@[3] == 'x');
}

/// A package taken as sources keeps every TypeScript file that is no declaration, every script,
/// module and CommonJS file, every stylesheet and SCSS source and every JSON document that is no
/// lockfile, `src/` included, under its own path; only what lies in repository furniture is left
/// out: dot-directories, dependencies, examples, tests and docs, and the `node` and `development`
/// trees.
pub proof fn law_sources_are_kept(rel: Seq<char>)
    requires
        ".ts"@.is_suffix_of(rel) || ".tsx"@.is_suffix_of(rel) || ".mts"@.is_suffix_of(rel)
            || ".cts"@.is_suffix_of(rel) || ".js"@.is_suffix_of(rel) || ".mjs"@.is_suffix_of(rel)
            || ".cjs"@.is_suffix_of(rel) || ".json"@.is_suffix_of(rel) || ".css"@.is_suffix_of(rel)
            || ".scss"@.is_suffix_of(rel),
        !".d.ts"@.is_suffix_of(rel),
        !".d.mts"@.is_suffix_of(rel),
        !".d.cts"@.is_suffix_of(rel),
        rel != "package-lock.json"@,
        rel != "npm-shrinkwrap.json"@,
    ensures
        (forall|i: int|
            0 <= i < pieces(rel, '/').len() ==> !"."@.is_prefix_of(#[trigger] pieces(rel, '/')[i])
                && pieces(rel, '/')[i] != "node"@ && pieces(rel, '/')[i] != "development"@
                && pieces(rel, '/')[i] != "node_modules"@ && pieces(rel, '/')[i] != "examples"@
                && pieces(rel, '/')[i] != "test"@ && pieces(rel, '/')[i] != "tests"@ && pieces(
                rel,
                '/',
            )[i] != "docs"@) ==> kept_as_is(rel, source_kept(rel)) == Some(rel),
{
    reveal_strlit("yarn.lock");
    reveal_strlit(".ts");
    reveal_strlit(".tsx");
    reveal_strlit(".mts");
    reveal_strlit(".cts");
    reveal_strlit(".js");
    reveal_strlit(".mjs");
    reveal_strlit(".cjs");
    reveal_strlit(".json");
    reveal_strlit(".css");
    reveal_strlit(".scss");
    let n = rel.len() as int;
    assert(rel != "yarn.lock"@) by {
        text::lemma_suffix_chars(rel, ".ts"@);
        text::lemma_suffix_chars(rel, ".tsx"@);
        text::lemma_suffix_chars(rel, ".mts"@);
        text::lemma_suffix_chars(rel, ".cts"@);
        text::lemma_suffix_chars(rel, ".js"@);
        text::lemma_suffix_chars(rel, ".mjs"@);
        text::lemma_suffix_chars(rel, ".cjs"@);
        text::lemma_suffix_chars(rel, ".json"@);
        text::lemma_suffix_chars(rel, ".css"@);
        text::lemma_suffix_chars(rel, ".scss"@);
        assert(".ts"@[2] == 's' && ".tsx"@[3] == 'x' && ".mts"@[3] == 's' && ".cts"@[3] == 's');
        assert(".js"@[2] == 's' && ".mjs"@[3] == 's' && ".cjs"@[3] == 's' && ".json"@[4] == 'n');
        assert(".css"@[3] == 's' && ".scss"@[4] == 's');
        assert("yarn.lock"@[8] == 'k');
    }
}

/// What a package taken as sources leaves out: declarations and root lockfiles, and everything in
/// repository furniture, licences included.
pub proof fn law_furniture_is_left_out(rel: Seq<char>, i: int)
    ensures
        ".d.ts"@.is_suffix_of(rel) || ".d.mts"@.is_suffix_of(rel) || ".d.cts"@.is_suffix_of(rel)
            ==> !source_kept(rel),
        0 <= i < pieces(rel, '/').len() && ("."@.is_prefix_of(pieces(rel, '/')[i]) || pieces(
            rel,
            '/',
        )[i] == "node"@ || pieces(rel, '/')[i] == "development"@ || pieces(rel, '/')[i]
            == "node_modules"@ || pieces(rel, '/')[i] == "examples"@ || pieces(rel, '/')[i]
            == "test"@ || pieces(rel, '/')[i] == "tests"@ || pieces(rel, '/')[i] == "docs"@)
            ==> !source_kept(rel),
        (rel == "package-lock.json"@ || rel == "npm-shrinkwrap.json"@ || rel == "yarn.lock"@)
            && !legal_notice(rel) ==> !source_kept(rel),
        source_kept(rel) && !legal_notice(rel) ==> graph_file(rel),
{
}

/// A licence or a notice, in any case and with any extension, travels with the code it covers:
/// both selections keep it where they keep anything.
pub proof fn law_licences_travel(dir: Seq<char>, stem: Seq<char>, rest: Seq<char>)
    requires
        !stem.contains('.'),
        !stem.contains('/'),
        !rest.contains('/'),
        ({
            let name = text::uppered(stem);
            ||| name == "LICENSE"@
            ||| name == "LICENCE"@
            ||| name == "NOTICE"@
            ||| name == "COPYING"@
            ||| name == "COPYRIGHT"@
            ||| name == "AUTHORS"@
            ||| name == "PATENTS"@
            ||| "LICENSE-"@.is_prefix_of(name)
            ||| "LICENCE-"@.is_prefix_of(name)
        }),
    ensures
        legal_notice(stem),
        legal_notice(stem.push('.') + rest),
        legal_notice(dir.push('/') + stem),
        legal_notice(dir.push('/') + (stem.push('.') + rest)),
        ({
            let rel = dir.push('/') + stem;
            &&& !in_dropped_tree(rel) && !typescript_file(rel) ==> asset_kept(rel)
            &&& !in_furniture(rel) && !declaration(rel) ==> source_kept(rel)
        }),
{
    let name = stem.push('.') + rest;
    assert(!name.contains('/')) by {
        assert forall|i: int| 0 <= i < name.len() implies name[i] != '/' by {
            if i < stem.len() {
                assert(stem.contains(stem[i]));
            } else if i > stem.len() {
                assert(rest.contains(rest[i - stem.len() - 1]));
            }
        }
    }
    text::lemma_pieces_single(stem, '/');
    text::lemma_pieces_single(name, '/');
    text::lemma_pieces_single(stem, '.');
    text::lemma_pieces_concat(stem, rest, '.');
    text::lemma_pieces_concat(dir, stem, '/');
    text::lemma_pieces_concat(dir, name, '/');
    text::lemma_pieces_len(dir, '/');
    text::lemma_pieces_len(rest, '.');
    assert((pieces(dir, '/') + seq![stem]).last() == stem);
    assert((pieces(dir, '/') + seq![name]).last() == name);
    assert((seq![stem] + pieces(rest, '.'))[0] == stem);
}

/// With a manifest, its own file is kept, and so is every file that it refers to, `src/` or not; a
/// pattern keeps the scripts and modules below its directory. Without one nothing more is.
pub proof fn law_manifest_files_are_kept(list: Seq<Export>, i: int, rel: Seq<char>)
    requires
        0 <= i < list.len(),
    ensures
        kept_as_is("package.json"@, manifest_kept(Some(list), "package.json"@)) == Some(
            "package.json"@,
        ),
        (list[i] matches Export::Bare(file) && file == rel && (rel.len() == 0 || rel.last() != '/'))
            ==> manifest_kept(Some(list), rel),
        (list[i] matches Export::Subpath { target, .. } && target == rel && (rel.len() == 0
            || rel.last() != '/')) ==> manifest_kept(Some(list), rel),
        (list[i] matches Export::Prefix { dir, .. } && dir.len() > 0 && dir.last() == '/'
            && dir.is_prefix_of(rel) && (".js"@.is_suffix_of(rel) || ".mjs"@.is_suffix_of(rel)))
            ==> manifest_kept(Some(list), rel),
        asset_kept(rel) ==> manifest_kept(Some(list), rel) && manifest_kept(None, rel),
        !asset_kept(rel) ==> !manifest_kept(None, rel),
{
    if covered(rel, reference(list[i])) {
        assert(any_covered(list, rel));
    }
}

/// A file that no entry refers to and no selection keeps is not kept for the manifest's sake.
pub proof fn law_unreferenced_files_are_left_out(list: Seq<Export>, rel: Seq<char>)
    requires
        manifest_kept(Some(list), rel),
        !asset_kept(rel),
        rel != "package.json"@,
    ensures
        exists|i: int|
            0 <= i < list.len() && match #[trigger] list[i] {
                Export::Bare(file) => file == rel || file.is_prefix_of(rel),
                Export::Subpath { target, .. } => target == rel || target.is_prefix_of(rel),
                Export::Prefix { dir, .. } => dir == rel || dir.is_prefix_of(rel),
            },
{
    let i = choose|i: int| 0 <= i < list.len() && covered(rel, reference(#[trigger] list[i]));
    assert(covered(rel, reference(list[i])));
}

/// What TypeScript emits for a name: `.ts` and `.tsx` give `.js`, `.mts` gives `.mjs`, and a
/// declaration and CommonJS source give nothing.
pub proof fn law_emitted_extensions(p: Seq<char>, stem: Seq<char>, ext: Seq<char>)
    requires
        path::name_of(p) == Some(stem + "."@ + ext),
        stem.len() > 0,
        !ext.contains('.'),
    ensures
        !".d"@.is_suffix_of(stem) && (ext == "ts"@ || ext == "tsx"@) ==> emitted_extension(p)
            == Some("js"@),
        !".d"@.is_suffix_of(stem) && ext == "mts"@ ==> emitted_extension(p) == Some("mjs"@),
        ext != "ts"@ && ext != "tsx"@ && ext != "mts"@ ==> emitted_extension(p) is None,
        ".d"@.is_suffix_of(stem) && (ext == "ts"@ || ext == "mts"@) ==> emitted_extension(p)
            is None,
        !".d"@.is_suffix_of(stem) && ext == "cts"@ ==> commonjs_source(p),
        typescript_source(p) <==> ext == "ts"@ || ext == "tsx"@ || ext == "mts"@ || ext == "cts"@,
{
    reveal_strlit(".");
    reveal_strlit(".d");
    reveal_strlit("ts");
    reveal_strlit("tsx");
    reveal_strlit("mts");
    reveal_strlit("cts");
    reveal_strlit(".cts");
    reveal_strlit(".d.ts");
    reveal_strlit(".d.mts");
    reveal_strlit(".d.cts");
    path::law_extension(stem, ext, "ts"@);
    let name = stem + "."@ + ext;
    let n = name.len() as int;
    let m = stem.len() as int;
    text::lemma_suffix_chars(name, ".d.ts"@);
    text::lemma_suffix_chars(name, ".d.mts"@);
    text::lemma_suffix_chars(name, ".d.cts"@);
    text::lemma_suffix_chars(name, ".cts"@);
    text::lemma_suffix_chars(stem, ".d"@);
    assert(name[m] == '.');
    assert(forall|i: int| 0 <= i < m ==> name[i] == stem[i]);
    assert(forall|i: int| 0 <= i < ext.len() ==> name[m + 1 + i] == #[trigger] ext[i]);
    assert(".d"@[0] == '.' && ".d"@[1] == 'd');
    assert(".d.ts"@[0] == '.' && ".d.ts"@[1] == 'd' && ".d.ts"@[2] == '.' && ".d.ts"@[3] == 't'
        && ".d.ts"@[4] == 's');
    assert(".d.mts"@[0] == '.' && ".d.mts"@[1] == 'd' && ".d.mts"@[2] == '.' && ".d.mts"@[3] == 'm'
        && ".d.mts"@[4] == 't' && ".d.mts"@[5] == 's');
    assert(".d.cts"@[0] == '.' && ".d.cts"@[1] == 'd' && ".d.cts"@[2] == '.' && ".d.cts"@[3] == 'c'
        && ".d.cts"@[4] == 't' && ".d.cts"@[5] == 's');
    assert(".cts"@[0] == '.' && ".cts"@[1] == 'c' && ".cts"@[2] == 't' && ".cts"@[3] == 's');
    if ext == "ts"@ {
        assert(name[n - 1] == ext[1] && name[n - 2] == ext[0]);
    } else if ext == "mts"@ || ext == "cts"@ || ext == "tsx"@ {
        assert(name[n - 1] == ext[2] && name[n - 2] == ext[1] && name[n - 3] == ext[0]);
    }
    assert("ts"@.len() == 2 && "tsx"@[0] == 't' && "mts"@[0] == 'm' && "cts"@[0] == 'c');
}

} // verus!
