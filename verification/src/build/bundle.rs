//! What bundling decides: which specifiers stay external, which file a specifier is loaded
//! from, what may be folded in, and what a folded tree keeps.
//!
//! The core path vendors *browser-ESM* npm packages and lets the browser's import map resolve
//! them; no bundler. Bundling folds an application entry together with what it imports into
//! ES modules: a single file ([`BundleOptions`]), or one facade per entry over shared chunks
//! ([`SplitBundleOptions`]).

use vstd::prelude::*;

use crate::build::options::{comment_policy, Comments, Output, Processors};
use crate::build::run::{import_lines, import_list};
use crate::error::{Error, Failure};
use crate::importmap::Importmap;
use crate::path;
use crate::path::{parts, parts_before, rooted, under};
use crate::text;
use crate::text::{
    digits, joined, pairs, replaced, texts, trimmed_start, without_prefix, without_suffix,
};

verus! {

/// Inputs for folding one entry into a single file.
#[derive(Debug, PartialEq, Eq)]
pub struct BundleOptions {
    /// The application entry module (e.g. `web/app.tsx`).
    pub entry: String,
    /// Module-resolution root: the directory whose `node_modules/` holds the dependencies.
    pub cwd: String,
    /// Directory the bundled `.js` (named after the entry) is written to.
    pub out_dir: String,
    /// Production build: define `process.env.NODE_ENV = "production"` and minify the output.
    pub production: bool,
}

/// Inputs for multi-entry chunked bundling that preserves every entry's public URL: every
/// module that the browser imports by URL stays available at exactly that URL as a facade
/// re-exporting from content-hashed shared chunks.
#[derive(Debug, PartialEq, Eq)]
pub struct SplitBundleOptions {
    /// Entry modules, **relative to `root`**. Each entry's output keeps this exact relative
    /// path under `out_dir` and preserves its export signature.
    pub entries: Vec<String>,
    /// Module-resolution and URL-space root: the directory whose layout mirrors the served
    /// URL space.
    pub root: String,
    /// Output directory; may equal `root` to bundle in place.
    pub out_dir: String,
    /// Import map consulted at bundle time.
    pub importmap: Option<Importmap>,
    /// Specifiers and URL-path prefixes to keep **external**: an entry matches exactly, or
    /// by prefix when it ends with `/`.
    pub external: Vec<String>,
    /// Naming template for shared chunks, relative to `out_dir`.
    pub chunk_filenames: String,
    /// Minify the output.
    pub minify: bool,
    /// Write source maps.
    pub sourcemap: bool,
    /// Comment policy for the output.
    pub comments: Comments,
}

/// What multi-entry bundling produced.
#[derive(Debug, PartialEq, Eq)]
pub struct SplitBundleOutput {
    /// Absolute paths of every source module folded into the output (entries included).
    /// External modules never appear.
    pub bundled_modules: Vec<String>,
    /// Output-relative paths of the JavaScript it wrote.
    pub emitted_js: Vec<String>,
}

// ---------------------------------------------------------------------------
// Externals
// ---------------------------------------------------------------------------

/// A value matches one entry of an external list: by prefix when the entry ends with `/`,
/// and exactly otherwise.
pub open spec fn matches_entry(entry: Seq<char>, value: Seq<char>) -> bool {
    match without_suffix(entry, "/"@) {
        Some(prefix) => value == prefix || (prefix + "/"@).is_prefix_of(value),
        None => value == entry,
    }
}

/// A value matches an external list.
pub open spec fn externally(external: Seq<Seq<char>>, value: Seq<char>) -> bool {
    exists|i: int| 0 <= i < external.len() && matches_entry(#[trigger] external[i], value)
}

/// Decide whether `value` (a raw specifier, or an import-map-resolved URL path) is external.
pub fn matches_external(external: &Vec<String>, value: &str) -> (r: bool)
    ensures
        r == externally(texts(external@), value@),
{
    let ghost all = texts(external@);
    let mut i: usize = 0;
    while i < external.len()
        invariant
            i <= external@.len(),
            all == texts(external@),
            forall|k: int| 0 <= k < i ==> !matches_entry(#[trigger] all[k], value@),
        decreases external@.len() - i,
    {
        let entry = external[i].as_str();
        assert(all[i as int] == entry@);
        let matched = match text::strip_suffix(entry, "/") {
            Some(prefix) => text::same(value, prefix.as_str()) || text::starts_with(
                value,
                prefix.clone().concat("/").as_str(),
            ),
            None => text::same(value, entry),
        };
        if matched {
            return true;
        }
        i += 1;
    }
    false
}

/// The URL of the exact entry for a specifier among the first `n` pairs.
pub open spec fn exact_entry(
    list: Seq<(Seq<char>, Seq<char>)>,
    specifier: Seq<char>,
    n: int,
) -> Option<Seq<char>>
    decreases n,
{
    if n <= 0 {
        None
    } else if list[n - 1].0 == specifier {
        Some(list[n - 1].1)
    } else {
        exact_entry(list, specifier, n - 1)
    }
}

/// The prefix by which an entry that ends with `/` stands at the start of a specifier.
pub open spec fn entry_prefix(key: Seq<char>, specifier: Seq<char>) -> Option<Seq<char>> {
    if key == specifier {
        None
    } else {
        match without_suffix(key, "/"@) {
            Some(prefix) => if key.is_prefix_of(specifier) {
                Some(prefix)
            } else {
                None
            },
            None => None,
        }
    }
}

/// The longest prefix entry for a specifier among the first `n` pairs, with its URL.
pub open spec fn longest_entry(
    list: Seq<(Seq<char>, Seq<char>)>,
    specifier: Seq<char>,
    n: int,
) -> Option<(Seq<char>, Seq<char>)>
    decreases n,
{
    if n <= 0 {
        None
    } else {
        let front = longest_entry(list, specifier, n - 1);
        match entry_prefix(list[n - 1].0, specifier) {
            Some(prefix) => match front {
                Some((best, _)) => if prefix.len() > best.len() {
                    Some((prefix, list[n - 1].1))
                } else {
                    front
                },
                None => Some((prefix, list[n - 1].1)),
            },
            None => front,
        }
    }
}

/// What a specifier resolves to through import-map pairs, as in a browser: the exact entry
/// first, then the longest trailing-`/` prefix entry.
pub open spec fn mapped(list: Seq<(Seq<char>, Seq<char>)>, specifier: Seq<char>) -> Option<
    Seq<char>,
> {
    match exact_entry(list, specifier, list.len() as int) {
        Some(url) => Some(url),
        None => match longest_entry(list, specifier, list.len() as int) {
            Some((prefix, url)) => Some(url + specifier.skip(prefix.len() as int + 1)),
            None => None,
        },
    }
}

proof fn lemma_longest_fits(
    list: Seq<(Seq<char>, Seq<char>)>,
    specifier: Seq<char>,
    n: int,
)
    requires
        0 <= n <= list.len(),
    ensures
        longest_entry(list, specifier, n) matches Some((prefix, _)) ==> prefix.len()
            < specifier.len(),
    decreases n,
{
    reveal_strlit("/");
    if n > 0 {
        lemma_longest_fits(list, specifier, n - 1);
    }
}

/// Resolve `specifier` through import-map pairs exactly like the browser would. Returns the
/// mapped URL.
pub fn importmap_resolve(list: &Vec<(String, String)>, specifier: &str) -> (r: Option<String>)
    ensures
        text::opt_text(r) == mapped(pairs(list@), specifier@),
{
    let ghost all = pairs(list@);
    let mut exact: Option<String> = None;
    let mut best: Option<(String, String)> = None;
    let mut i: usize = 0;
    while i < list.len()
        invariant
            i <= list@.len(),
            all == pairs(list@),
            text::opt_text(exact) == exact_entry(all, specifier@, i as int),
            text::opt_pair(best) == longest_entry(all, specifier@, i as int),
        decreases list@.len() - i,
    {
        let key = list[i].0.as_str();
        assert(all[i as int] == (list@[i as int].0@, list@[i as int].1@));
        if text::same(key, specifier) {
            exact = Some(list[i].1.clone());
        } else if let Some(prefix) = text::strip_suffix(key, "/") {
            if text::starts_with(specifier, key) {
                let longer = match &best {
                    Some((held, _)) => prefix.as_str().unicode_len() > held.as_str().unicode_len(),
                    None => true,
                };
                if longer {
                    best = Some((prefix, list[i].1.clone()));
                }
            }
        }
        i += 1;
    }
    if let Some(url) = exact {
        return Some(url);
    }
    match best {
        Some((prefix, url)) => {
            let n = prefix.as_str().unicode_len();
            let cs = text::chars(specifier);
            proof {
                lemma_longest_fits(all, specifier@, list@.len() as int);
            }
            let m = cs.len();
            assert(n < m);
            let rest = text::slice(&cs, n + 1, m);
            assert(rest@ =~= specifier@.skip(n + 1));
            Some(url.concat(rest.as_str()))
        },
        None => None,
    }
}

/// Among the prefix entries that stand at the start of a specifier, the one it resolves
/// through is the longest.
pub proof fn law_longest_prefix_wins(
    list: Seq<(Seq<char>, Seq<char>)>,
    specifier: Seq<char>,
    n: int,
    i: int,
)
    requires
        0 <= i < n <= list.len(),
        entry_prefix(list[i].0, specifier) is Some,
    ensures
        longest_entry(list, specifier, n) matches Some((best, _)) && best.len() >= entry_prefix(
            list[i].0,
            specifier,
        )->Some_0.len(),
    decreases n,
{
    if i < n - 1 {
        law_longest_prefix_wins(list, specifier, n - 1, i);
    }
}

/// A specifier, before it is resolved, is external. Relative imports resolve within the
/// bundle. URL-absolute imports are the browser's domain unless the file lives under the root
/// and is not external. Anything else is external when it, or the URL the import map gives
/// it, matches the external list.
pub open spec fn raw_external(
    external: Seq<Seq<char>>,
    list: Seq<(Seq<char>, Seq<char>)>,
    specifier: Seq<char>,
    under_root: bool,
) -> bool {
    if "."@.is_prefix_of(specifier) {
        false
    } else if "/"@.is_prefix_of(specifier) {
        externally(external, specifier) || !under_root
    } else if externally(external, specifier) {
        true
    } else {
        match mapped(list, specifier) {
            Some(url) => externally(external, url),
            None => false,
        }
    }
}

/// Whether a specifier, before it is resolved, is external. `under_root` is whether the file
/// that a URL-absolute specifier names lives under the root.
pub fn is_raw_external(
    external: &Vec<String>,
    list: &Vec<(String, String)>,
    specifier: &str,
    under_root: bool,
) -> (r: bool)
    ensures
        r == raw_external(texts(external@), pairs(list@), specifier@, under_root),
{
    if text::starts_with(specifier, ".") {
        return false;
    }
    if text::starts_with(specifier, "/") {
        return matches_external(external, specifier) || !under_root;
    }
    if matches_external(external, specifier) {
        return true;
    }
    match importmap_resolve(list, specifier) {
        Some(url) => matches_external(external, url.as_str()),
        None => false,
    }
}

/// Where an external entry lies under the root, and whether it stands for all beneath it.
pub open spec fn external_place(root: Seq<char>, entry: Seq<char>) -> (Seq<char>, bool) {
    match without_suffix(entry, "/"@) {
        Some(name) => (under(root, trimmed_start(name, "/"@)), true),
        None => (under(root, trimmed_start(entry, "/"@)), false),
    }
}

/// Where an external entry lies under the root, and whether it stands for all beneath it.
pub fn external_location(root: &str, entry: &str) -> (r: (String, bool))
    ensures
        (r.0@, r.1) == external_place(root@, entry@),
{
    match text::strip_suffix(entry, "/") {
        Some(name) => (path::join(root, text::trim_start(name.as_str(), "/").as_str()), true),
        None => (path::join(root, text::trim_start(entry, "/").as_str()), false),
    }
}

/// A resolved place is one of the external places, or beneath one.
pub open spec fn at_external(places: Seq<(String, bool)>, p: Seq<char>) -> bool {
    exists|i: int|
        0 <= i < places.len() && (if (#[trigger] places[i]).1 {
            parts(places[i].0@).is_prefix_of(parts(p))
        } else {
            parts(p) == parts(places[i].0@)
        })
}

/// A module that has been resolved: external by its location, part of the graph, or refused,
/// because it lies outside the root. The source tree may be untrusted: a `../..` chain or a
/// symlinked package must not fold local files into the published output.
pub open spec fn resolved_module(
    places: Seq<(String, bool)>,
    what: Seq<char>,
    root: Seq<char>,
    p: Seq<char>,
    canonical: Option<Seq<char>>,
) -> Result<bool, Failure> {
    if at_external(places, p) {
        Ok(true)
    } else {
        match canonical {
            Some(reached) => if parts(root).is_prefix_of(parts(reached)) {
                Ok(false)
            } else {
                Err(
                    Failure::Bundle(
                        "module "@ + p + " resolves outside the bundle "@ + what + " "@ + root,
                    ),
                )
            },
            None => Ok(false),
        }
    }
}

/// Whether a resolved module is external; it is refused when it lies outside `root`, which
/// messages call `what`. `canonical` is where it really lies, or nothing for a module that
/// is no file. External locations stay external however they were reached.
pub fn check_resolved(
    places: &Vec<(String, bool)>,
    what: &str,
    root: &str,
    p: &str,
    canonical: Option<&str>,
) -> (r: Result<bool, Error>)
    ensures
        (match r {
            Ok(b) => Ok::<bool, Failure>(b),
            Err(e) => Err(e@),
        }) == resolved_module(
            places@,
            what@,
            root@,
            p@,
            match canonical {
                Some(c) => Some(c@),
                None => None,
            },
        ),
{
    let mut i: usize = 0;
    while i < places.len()
        invariant
            i <= places@.len(),
            forall|k: int|
                0 <= k < i ==> !(if (#[trigger] places@[k]).1 {
                    parts(places@[k].0@).is_prefix_of(parts(p@))
                } else {
                    parts(p@) == parts(places@[k].0@)
                }),
        decreases places@.len() - i,
    {
        let there = if places[i].1 {
            path::starts_with(p, places[i].0.as_str())
        } else {
            path::same_path(p, places[i].0.as_str())
        };
        if there {
            assert(places@[i as int].1 == places@[i as int].1);
            return Ok(true);
        }
        i += 1;
    }
    match canonical {
        Some(reached) => {
            if path::starts_with(reached, root) {
                Ok(false)
            } else {
                Err(
                    Error::Bundle(
                        "module ".to_owned().concat(p).concat(
                            " resolves outside the bundle ",
                        ).concat(what).concat(" ").concat(root),
                    ),
                )
            }
        },
        None => Ok(false),
    }
}

/// No module outside the root is ever folded in: what is accepted as part of the graph and
/// is a file lies below the root.
pub proof fn law_folded_modules_lie_below_root(
    places: Seq<(String, bool)>,
    what: Seq<char>,
    root: Seq<char>,
    p: Seq<char>,
    reached: Seq<char>,
)
    ensures
        resolved_module(places, what, root, p, Some(reached)) == Ok::<bool, Failure>(false)
            ==> parts(root).is_prefix_of(parts(reached)),
{
}

// ---------------------------------------------------------------------------
// What the bundler is given
// ---------------------------------------------------------------------------

/// The name of an entry's output: its relative path without `.js`, with `/` between its
/// directories, so that the output layout reproduces the URL layout.
pub open spec fn entry_name(entry: Seq<char>) -> Seq<char> {
    let rel = replaced(entry, "\\"@, "/"@);
    match without_suffix(rel, ".js"@) {
        Some(name) => name,
        None => rel,
    }
}

/// An entry, as the bundler is given it: the name of its output, and the file.
pub fn input_item(root: &str, entry: &str) -> (r: (String, String))
    ensures
        r.0@ == entry_name(entry@),
        r.1@ == under(root@, entry@),
{
    proof {
        reveal_strlit("\\");
    }
    let rel = text::replace(entry, "\\", "/");
    let name = match text::strip_suffix(rel.as_str(), ".js") {
        Some(name) => name,
        None => rel,
    };
    (name, path::join(root, entry))
}

/// The aliases of the first `n` import-map pairs: each entry that is not external and maps to
/// an absolute URL path, rewritten to its file under the root.
pub open spec fn aliases(
    external: Seq<Seq<char>>,
    root: Seq<char>,
    list: Seq<(Seq<char>, Seq<char>)>,
    n: int,
) -> Seq<(Seq<char>, Seq<char>)>
    decreases n,
{
    if n <= 0 {
        Seq::empty()
    } else {
        let front = aliases(external, root, list, n - 1);
        let (spec, url) = list[n - 1];
        if externally(external, spec) || externally(external, url) {
            front
        } else {
            match without_prefix(url, "/"@) {
                Some(rel) => front.push(
                    (
                        match without_suffix(spec, "/"@) {
                            Some(name) => name,
                            None => spec,
                        },
                        under(root, rel),
                    ),
                ),
                None => front,
            }
        }
    }
}

/// The aliases that let the bundler load the same file the browser would fetch.
pub fn alias_list(external: &Vec<String>, root: &str, list: &Vec<(String, String)>) -> (r: Vec<
    (String, String),
>)
    ensures
        pairs(r@) == aliases(texts(external@), root@, pairs(list@), list@.len() as int),
{
    let ghost all = pairs(list@);
    let mut out: Vec<(String, String)> = Vec::new();
    let mut i: usize = 0;
    assert(pairs(out@) =~= Seq::<(Seq<char>, Seq<char>)>::empty());
    while i < list.len()
        invariant
            i <= list@.len(),
            all == pairs(list@),
            pairs(out@) == aliases(texts(external@), root@, all, i as int),
        decreases list@.len() - i,
    {
        let spec = list[i].0.as_str();
        let url = list[i].1.as_str();
        assert(all[i as int] == (spec@, url@));
        if !matches_external(external, spec) && !matches_external(external, url) {
            if let Some(rel) = text::strip_prefix(url, "/") {
                let name = match text::strip_suffix(spec, "/") {
                    Some(name) => name,
                    None => spec.to_owned(),
                };
                let one = (name, path::join(root, rel.as_str()));
                proof {
                    text::lemma_pairs_push(out@, one);
                }
                out.push(one);
            }
        }
        i += 1;
    }
    out
}

// ---------------------------------------------------------------------------
// What the bundler folded
// ---------------------------------------------------------------------------

/// A module id of the bundler's output, and whether a file of that name exists.
#[derive(Debug, PartialEq, Eq)]
pub struct ModuleId {
    pub id: String,
    pub exists: bool,
}

/// A sorted list of distinct paths with one more, unless it is there.
pub open spec fn with_module(list: Seq<Seq<char>>, p: Seq<char>) -> Seq<Seq<char>>
    decreases list.len(),
{
    if list.len() == 0 || parts_before(parts(list.last()), parts(p)) {
        list.push(p)
    } else if parts(list.last()) == parts(p) {
        list
    } else {
        with_module(list.drop_last(), p).push(list.last())
    }
}

/// The source files among module ids, in path order and each once: ids are absolute paths for
/// file modules.
pub open spec fn folded(ids: Seq<ModuleId>) -> Seq<Seq<char>>
    decreases ids.len(),
{
    if ids.len() == 0 {
        Seq::empty()
    } else {
        let front = folded(ids.drop_last());
        if rooted(ids.last().id@) && ids.last().exists {
            with_module(front, ids.last().id@)
        } else {
            front
        }
    }
}

fn put_module(list: &mut Vec<String>, p: String)
    ensures
        texts(final(list)@) == with_module(texts(old(list)@), p@),
{
    let ghost all = texts(list@);
    let n = list.len();
    let mut i: usize = n;
    assert(all.take(n as int) =~= all);
    assert(with_module(all, p@) + all.skip(n as int) =~= with_module(all, p@));
    while i > 0 && !path::precedes(list[i - 1].as_str(), p.as_str())
        invariant
            i <= n,
            n == list@.len(),
            all == texts(list@),
            with_module(all, p@) == with_module(all.take(i as int), p@) + all.skip(i as int),
        decreases i,
    {
        let ghost front = all.take(i as int);
        assert(front.last() == list@[i - 1]@);
        if path::same_path(list[i - 1].as_str(), p.as_str()) {
            assert(front + all.skip(i as int) =~= all);
            return;
        }
        proof {
            assert(front.drop_last() =~= all.take(i - 1));
            let w = with_module(all.take(i - 1), p@);
            assert(w.push(all[i - 1]) + all.skip(i as int) =~= w + all.skip(i - 1));
        }
        i -= 1;
    }
    proof {
        let front = all.take(i as int);
        if i > 0 {
            assert(front.last() == all[i - 1]);
            assert(list@[i - 1]@ == all[i - 1]);
        }
        assert(with_module(front, p@) =~= front.push(p@));
    }
    list.insert(i, p);
    assert(texts(list@) =~= all.take(i as int).push(p@) + all.skip(i as int));
}

/// Which source files got folded: absolute, existing, sorted and each once.
pub fn bundled_modules(ids: &Vec<ModuleId>) -> (r: Vec<String>)
    ensures
        texts(r@) == folded(ids@),
{
    let mut out: Vec<String> = Vec::new();
    let mut i: usize = 0;
    assert(texts(out@) =~= folded(ids@.take(0)));
    while i < ids.len()
        invariant
            i <= ids@.len(),
            texts(out@) == folded(ids@.take(i as int)),
        decreases ids@.len() - i,
    {
        proof {
            let grown = ids@.take(i + 1);
            assert(grown.drop_last() =~= ids@.take(i as int));
            assert(grown.last() == ids@[i as int]);
        }
        if path::is_absolute(ids[i].id.as_str()) && ids[i].exists {
            put_module(&mut out, ids[i].id.clone());
        }
        i += 1;
    }
    assert(ids@.take(ids@.len() as int) =~= ids@);
    out
}

// ---------------------------------------------------------------------------
// Folding a built tree
// ---------------------------------------------------------------------------

/// The bundle entries: those asked for, or `app.js`, the fallback page's entry.
pub open spec fn entry_list(asked: Seq<Seq<char>>) -> Seq<Seq<char>> {
    if asked.len() == 0 {
        seq!["app.js"@]
    } else {
        asked
    }
}

/// The bundle entries of a build.
pub fn entries_or_default(processors: &Processors) -> (r: Vec<String>)
    ensures
        texts(r@) == entry_list(texts(processors.bundle_entries@)),
{
    if processors.bundle_entries.len() == 0 {
        let mut out: Vec<String> = Vec::new();
        out.push("app.js".to_owned());
        assert(texts(out@) =~= seq!["app.js"@]);
        out
    } else {
        text::copy_texts(&processors.bundle_entries)
    }
}

/// The first entry that is not there.
pub open spec fn first_missing(entries: Seq<Seq<char>>, present: Seq<bool>, i: int) -> Option<
    Seq<char>,
>
    decreases entries.len() - i,
{
    if i < 0 || i >= entries.len() {
        None
    } else if !present[i] {
        Some(entries[i])
    } else {
        first_missing(entries, present, i + 1)
    }
}

/// Every entry has to be a module that the build emitted; `present` says of each whether it is.
pub fn check_entries(entries: &Vec<String>, present: &Vec<bool>) -> (r: Result<(), Error>)
    requires
        present@.len() == entries@.len(),
    ensures
        match first_missing(texts(entries@), present@, 0) {
            Some(entry) => r matches Err(e) && e@ == Failure::Build(
                "web-modules: bundle entry "@ + entry
                    + " does not exist in the output - name an emitted module with --bundle-entry (without one, the entry is app.js)"@,
            ),
            None => r is Ok,
        },
{
    let mut i: usize = 0;
    while i < entries.len()
        invariant
            i <= entries@.len(),
            present@.len() == entries@.len(),
            first_missing(texts(entries@), present@, 0) == first_missing(
                texts(entries@),
                present@,
                i as int,
            ),
        decreases entries@.len() - i,
    {
        if !present[i] {
            return Err(
                Error::Build(
                    "web-modules: bundle entry ".to_owned().concat(entries[i].as_str()).concat(
                        " does not exist in the output - name an emitted module with --bundle-entry (without one, the entry is app.js)",
                    ),
                ),
            );
        }
        i += 1;
    }
    Ok(())
}

/// An import-map URL with the mount of the vendored modules replaced by where they are staged.
pub open spec fn staged_url(mount: Seq<char>, url: Seq<char>) -> Seq<char> {
    match without_prefix(url, mount) {
        Some(rest) => "/web_modules"@ + rest,
        None => url,
    }
}

/// The import map of a build as the bundler needs it: the bundler's alias resolver expects a
/// URL to be `/` and the stage-relative path; a subpath mount or a relative one is normalized,
/// so resolution still lands in the staged tree.
pub fn staged_importmap(importmap: &Importmap, mount: &str) -> (r: Importmap)
    ensures
        r@ == importmap@.map_values(|url: Seq<char>| staged_url(mount@, url)),
{
    let list = importmap.iter();
    let ghost all = pairs(list@);
    let ghost by = |url: Seq<char>| staged_url(mount@, url);
    let mut out = Importmap::new();
    let mut i: usize = 0;
    assert(out@ =~= staged_entries(all, mount@, 0));
    while i < list.len()
        invariant
            i <= list@.len(),
            all == pairs(list@),
            out@ == staged_entries(all, mount@, i as int),
        decreases list@.len() - i,
    {
        assert(all[i as int] == (list@[i as int].0@, list@[i as int].1@));
        let value = match text::strip_prefix(list[i].1.as_str(), mount) {
            Some(rest) => "/web_modules".to_owned().concat(rest.as_str()),
            None => list[i].1.clone(),
        };
        let _ = out.insert(list[i].0.as_str(), value.as_str());
        i += 1;
    }
    proof {
        lemma_staged_entries(all, mount@, all.len() as int, importmap@);
    }
    out
}

/// The entries of the first `n` pairs, each URL staged.
spec fn staged_entries(list: Seq<(Seq<char>, Seq<char>)>, mount: Seq<char>, n: int) -> Map<
    Seq<char>,
    Seq<char>,
>
    decreases n,
{
    if n <= 0 {
        Map::empty()
    } else {
        staged_entries(list, mount, n - 1).insert(
            list[n - 1].0,
            staged_url(mount, list[n - 1].1),
        )
    }
}

proof fn lemma_staged_entries(
    list: Seq<(Seq<char>, Seq<char>)>,
    mount: Seq<char>,
    n: int,
    map: Map<Seq<char>, Seq<char>>,
)
    requires
        n == list.len(),
        list == crate::sorted_map::listing::<crate::sorted_map::ByText, Seq<char>>(map),
        map == crate::sorted_map::table::<crate::sorted_map::ByText, Seq<char>>(list),
    ensures
        staged_entries(list, mount, n) == map.map_values(|url: Seq<char>| staged_url(mount, url)),
{
    lemma_staged_table(list, mount, n);
    assert(list.take(n) =~= list);
}

proof fn lemma_staged_table(list: Seq<(Seq<char>, Seq<char>)>, mount: Seq<char>, n: int)
    requires
        0 <= n <= list.len(),
    ensures
        staged_entries(list, mount, n) == crate::sorted_map::table::<
            crate::sorted_map::ByText,
            Seq<char>,
        >(list.take(n)).map_values(|url: Seq<char>| staged_url(mount, url)),
    decreases n,
{
    let by = |url: Seq<char>| staged_url(mount, url);
    if n > 0 {
        lemma_staged_table(list, mount, n - 1);
        let grown = list.take(n);
        assert(grown.drop_last() =~= list.take(n - 1));
        assert(grown.last() == list[n - 1]);
        let front = crate::sorted_map::table::<crate::sorted_map::ByText, Seq<char>>(
            list.take(n - 1),
        );
        assert(front.insert(list[n - 1].0, list[n - 1].1).map_values(by) =~= front.map_values(
            by,
        ).insert(list[n - 1].0, staged_url(mount, list[n - 1].1)));
    } else {
        assert(crate::sorted_map::table::<crate::sorted_map::ByText, Seq<char>>(
            list.take(0),
        ).map_values(by) =~= Map::<Seq<char>, Seq<char>>::empty());
    }
}

/// A path is one of a list.
pub open spec fn path_listed(list: Seq<Seq<char>>, p: Seq<char>) -> bool {
    exists|i: int| 0 <= i < list.len() && parts(#[trigger] list[i]) == parts(p)
}

fn is_path_listed(list: &Vec<String>, p: &str) -> (r: bool)
    ensures
        r == path_listed(texts(list@), p@),
{
    let ghost all = texts(list@);
    let mut i: usize = 0;
    while i < list.len()
        invariant
            i <= list@.len(),
            all == texts(list@),
            forall|k: int| 0 <= k < i ==> parts(#[trigger] all[k]) != parts(p@),
        decreases list@.len() - i,
    {
        assert(all[i as int] == list@[i as int]@);
        if path::same_path(list[i].as_str(), p) {
            return true;
        }
        i += 1;
    }
    false
}

/// A folded module leaves the tree: unless it is an entry, which was rewritten in place, or
/// lies outside the stage.
pub open spec fn leaves(entries: Seq<Seq<char>>, stage: Seq<char>, module: Seq<char>) -> bool {
    !path_listed(entries, module) && parts(stage).is_prefix_of(parts(module))
}

/// Whether a folded module leaves the tree. `entries` and `stage` are canonical.
pub fn leaves_tree(entries: &Vec<String>, stage: &str, module: &str) -> (r: bool)
    ensures
        r == leaves(texts(entries@), stage@, module@),
{
    !is_path_listed(entries, module) && path::starts_with(module, stage)
}

/// The sidecars that leave with a folded module.
pub fn sidecars(module: &str) -> (r: (String, String))
    ensures
        r.0@ == module@ + ".map"@,
        r.1@ == module@ + ".LEGAL.txt"@,
{
    (module.to_owned().concat(".map"), module.to_owned().concat(".LEGAL.txt"))
}

/// What leaves the tree once it is folded, in order: each folded module that leaves it, with
/// its sidecars.
pub open spec fn removed(
    entries: Seq<Seq<char>>,
    stage: Seq<char>,
    modules: Seq<Seq<char>>,
) -> Seq<Seq<char>>
    decreases modules.len(),
{
    if modules.len() == 0 {
        Seq::empty()
    } else {
        let front = removed(entries, stage, modules.drop_last());
        let module = modules.last();
        if leaves(entries, stage, module) {
            front + seq![module, module + ".map"@, module + ".LEGAL.txt"@]
        } else {
            front
        }
    }
}

/// What leaves the tree once it is folded: everything that the bundle inlined, because the
/// browser no longer loads it. The sidecars of a module go with it; the bundler wrote fresh
/// ones for what it emitted. `entries`, `stage` and `modules` are canonical.
pub fn removals(entries: &Vec<String>, stage: &str, modules: &Vec<String>) -> (r: Vec<String>)
    ensures
        texts(r@) == removed(texts(entries@), stage@, texts(modules@)),
{
    let ghost all = texts(modules@);
    let mut out: Vec<String> = Vec::new();
    let mut i: usize = 0;
    assert(texts(out@) =~= removed(texts(entries@), stage@, all.take(0)));
    while i < modules.len()
        invariant
            i <= modules@.len(),
            all == texts(modules@),
            texts(out@) == removed(texts(entries@), stage@, all.take(i as int)),
        decreases modules@.len() - i,
    {
        let ghost front = texts(out@);
        proof {
            let grown = all.take(i + 1);
            assert(grown.drop_last() =~= all.take(i as int));
            assert(grown.last() == modules@[i as int]@);
        }
        if leaves_tree(entries, stage, modules[i].as_str()) {
            let (map, legal) = sidecars(modules[i].as_str());
            out.push(modules[i].clone());
            out.push(map);
            out.push(legal);
            assert(texts(out@) =~= front + seq![
                modules@[i as int]@,
                modules@[i as int]@ + ".map"@,
                modules@[i as int]@ + ".LEGAL.txt"@,
            ]);
        }
        i += 1;
    }
    assert(all.take(modules@.len() as int) =~= all);
    out
}

/// Folding a tree removes no entry for being folded, and no module outside the stage: each
/// removed path is a folded module inside the stage that is no entry, or a sidecar of one.
pub proof fn law_folding_keeps_entries(
    entries: Seq<Seq<char>>,
    stage: Seq<char>,
    modules: Seq<Seq<char>>,
    i: int,
)
    requires
        0 <= i < removed(entries, stage, modules).len(),
    ensures
        exists|k: int|
            0 <= k < modules.len() && leaves(entries, stage, #[trigger] modules[k]) && (removed(
                entries,
                stage,
                modules,
            )[i] == modules[k] || removed(entries, stage, modules)[i] == modules[k] + ".map"@
                || removed(entries, stage, modules)[i] == modules[k] + ".LEGAL.txt"@),
    decreases modules.len(),
{
    let front = modules.drop_last();
    let list = removed(entries, stage, front);
    if i < list.len() {
        law_folding_keeps_entries(entries, stage, front, i);
        let k = choose|k: int|
            0 <= k < front.len() && leaves(entries, stage, #[trigger] front[k]) && (list[i]
                == front[k] || list[i] == front[k] + ".map"@ || list[i] == front[k]
                + ".LEGAL.txt"@);
        assert(modules[k] == front[k]);
    } else {
        assert(modules[modules.len() - 1] == modules.last());
    }
}

/// What the bundler is asked for when a built tree is folded in place: every entry keeps its
/// path, the vendored packages are resolved in the stage, nothing stays outside the bundle,
/// and minifying and the comment policy, which emission deferred, are applied here.
pub fn fold_options(
    entries: &Vec<String>,
    stage: &str,
    importmap: &Importmap,
    mount: &str,
    processors: &Processors,
    output: &Output,
) -> (r: SplitBundleOptions)
    ensures
        texts(r.entries@) == texts(entries@),
        r.root@ == stage@,
        r.out_dir@ == stage@,
        r.importmap matches Some(map) && map@ == importmap@.map_values(
            |url: Seq<char>| staged_url(mount@, url),
        ),
        r.external@.len() == 0,
        r.chunk_filenames@ == "chunks/[name]-[hash].js"@,
        r.minify == output.minify,
        r.sourcemap == processors.sourcemap,
        r.comments == comment_policy(*output),
{
    SplitBundleOptions {
        entries: text::copy_texts(entries),
        root: stage.to_owned(),
        out_dir: stage.to_owned(),
        importmap: Some(staged_importmap(importmap, mount)),
        external: Vec::new(),
        chunk_filenames: "chunks/[name]-[hash].js".to_owned(),
        minify: output.minify,
        sourcemap: processors.sourcemap,
        comments: output.effective_comments(),
    }
}

/// The imports among the first `n` unresolved ones that break in the folded tree: those of a
/// module that survives and that the bundler did not write.
pub open spec fn orphaned(
    unresolved: Seq<(Seq<char>, Seq<char>)>,
    emitted: Seq<Seq<char>>,
    survives: Seq<bool>,
    n: int,
) -> Seq<(Seq<char>, Seq<char>)>
    decreases n,
{
    if n <= 0 {
        Seq::empty()
    } else {
        let front = orphaned(unresolved, emitted, survives, n - 1);
        if !path_listed(emitted, unresolved[n - 1].0) && survives[n - 1] {
            front.push(unresolved[n - 1])
        } else {
            front
        }
    }
}

/// With the import map gone, a surviving module whose bare imports the map used to resolve is
/// broken in the shipped tree: a worker script or a second page's module needs its own entry,
/// so its imports inline too. `unresolved` are the bare imports, each with whether its module
/// survives; `emitted` is what the bundler wrote.
pub fn check_orphans(
    unresolved: &Vec<(String, String)>,
    emitted: &Vec<String>,
    survives: &Vec<bool>,
) -> (r: Result<(), Error>)
    requires
        survives@.len() == unresolved@.len(),
    ensures
        ({
            let list = orphaned(
                pairs(unresolved@),
                texts(emitted@),
                survives@,
                unresolved@.len() as int,
            );
            if list.len() == 0 {
                r is Ok
            } else {
                r matches Err(e) && e@ == Failure::Build(
                    "web-modules: --bundle removes the import map, but "@ + digits(list.len())
                        + " surviving module(s) still import bare specifiers - add each as a --bundle-entry so its imports inline too:\n"@
                        + joined(import_lines(list), "\n"@),
                )
            }
        }),
{
    let ghost all = pairs(unresolved@);
    let mut out: Vec<(String, String)> = Vec::new();
    let mut i: usize = 0;
    assert(pairs(out@) =~= Seq::<(Seq<char>, Seq<char>)>::empty());
    while i < unresolved.len()
        invariant
            i <= unresolved@.len(),
            survives@.len() == unresolved@.len(),
            all == pairs(unresolved@),
            pairs(out@) == orphaned(all, texts(emitted@), survives@, i as int),
        decreases unresolved@.len() - i,
    {
        assert(all[i as int] == (unresolved@[i as int].0@, unresolved@[i as int].1@));
        if !is_path_listed(emitted, unresolved[i].0.as_str()) && survives[i] {
            let one = (unresolved[i].0.clone(), unresolved[i].1.clone());
            proof {
                text::lemma_pairs_push(out@, one);
            }
            out.push(one);
        }
        i += 1;
    }
    if out.len() == 0 {
        return Ok(());
    }
    let lines = import_list(&out);
    Err(
        Error::Build(
            "web-modules: --bundle removes the import map, but ".to_owned().concat(
                text::decimal(out.len()).as_str(),
            ).concat(
                " surviving module(s) still import bare specifiers - add each as a --bundle-entry so its imports inline too:\n",
            ).concat(text::join(&lines, "\n").as_str()),
        ),
    )
}

/// An external entry that ends in `/` stands for that name and everything below it; any other entry
/// for itself alone.
pub proof fn law_external_entries(name: Seq<char>, value: Seq<char>, external: Seq<Seq<char>>)
    ensures
        matches_entry(name + "/"@, value) <==> value == name || (name + "/"@).is_prefix_of(value),
        name.len() == 0 || name.last() != '/' ==> (matches_entry(name, value) <==> value == name),
        !externally(Seq::empty(), value),
        externally(external.push(name), value) <==> externally(external, value) || matches_entry(
            name,
            value,
        ),
{
    reveal_strlit("/");
    let dir = name + "/"@;
    text::lemma_suffix_chars(dir, "/"@);
    assert("/"@.is_suffix_of(dir));
    assert(dir.take(dir.len() - 1) =~= name);
    text::lemma_suffix_chars(name, "/"@);
    if "/"@.is_suffix_of(name) {
        assert(name[name.len() - 1] == "/"@[0]);
    }
    let more = external.push(name);
    if externally(external, value) {
        let k = choose|k: int| 0 <= k < external.len() && matches_entry(#[trigger] external[k], value);
        assert(matches_entry(more[k], value));
    }
    if matches_entry(name, value) {
        assert(matches_entry(more[external.len() as int], value));
    }
    if externally(more, value) {
        let k = choose|k: int| 0 <= k < more.len() && matches_entry(#[trigger] more[k], value);
        if k < external.len() {
            assert(matches_entry(external[k], value));
        }
    }
}

proof fn lemma_exact_entry(list: Seq<(Seq<char>, Seq<char>)>, specifier: Seq<char>, n: int)
    requires
        0 <= n <= list.len(),
    ensures
        match exact_entry(list, specifier, n) {
            Some(url) => exists|i: int| 0 <= i < n && #[trigger] list[i] == (specifier, url),
            None => forall|i: int| 0 <= i < n ==> (#[trigger] list[i]).0 != specifier,
        },
    decreases n,
{
    if n > 0 {
        lemma_exact_entry(list, specifier, n - 1);
        if list[n - 1].0 == specifier {
            assert(list[n - 1] == (specifier, list[n - 1].1));
        }
    }
}

proof fn lemma_longest_entry(list: Seq<(Seq<char>, Seq<char>)>, specifier: Seq<char>, n: int)
    requires
        0 <= n <= list.len(),
    ensures
        match longest_entry(list, specifier, n) {
            Some((prefix, url)) => exists|i: int|
                0 <= i < n && #[trigger] list[i] == (prefix + "/"@, url) && (prefix
                    + "/"@).is_prefix_of(specifier) && prefix + "/"@ != specifier,
            None => forall|i: int|
                0 <= i < n ==> entry_prefix((#[trigger] list[i]).0, specifier) is None,
        },
    decreases n,
{
    if n > 0 {
        lemma_longest_entry(list, specifier, n - 1);
        reveal_strlit("/");
        let key = list[n - 1].0;
        if let Some(prefix) = entry_prefix(key, specifier) {
            text::lemma_suffix_chars(key, "/"@);
            assert("/"@.is_suffix_of(key));
            assert(key[key.len() - 1] == "/"@[0]);
            assert(key.take(key.len() - 1) + "/"@ =~= key);
            assert(list[n - 1] == (prefix + "/"@, list[n - 1].1));
        }
    }
}

/// A specifier resolves by its own entry, if it has one; else by a directory entry above it, the
/// longest of them, the rest behind that directory appended to its URL; else not at all.
pub proof fn law_resolves_as_a_browser(list: Seq<(Seq<char>, Seq<char>)>, specifier: Seq<char>)
    ensures
        match mapped(list, specifier) {
            Some(url) => (exists|i: int|
                0 <= i < list.len() && #[trigger] list[i] == (specifier, url)) || exists|
                prefix: Seq<char>,
                base: Seq<char>,
                rest: Seq<char>,
            |
                list.contains((prefix + "/"@, base)) && specifier == #[trigger] spliced(prefix, rest)
                    && url == #[trigger] (base + rest),
            None => forall|i: int|
                0 <= i < list.len() ==> (#[trigger] list[i]).0 != specifier && entry_prefix(
                    list[i].0,
                    specifier,
                ) is None,
        },
        (exists|i: int| 0 <= i < list.len() && (#[trigger] list[i]).0 == specifier) ==> (mapped(
            list,
            specifier,
        ) matches Some(url) && list.contains((specifier, url))),
{
    reveal_strlit("/");
    let n = list.len() as int;
    lemma_exact_entry(list, specifier, n);
    lemma_longest_entry(list, specifier, n);
    if exact_entry(list, specifier, n) is None {
        if let Some((prefix, base)) = longest_entry(list, specifier, n) {
            let i = choose|i: int|
                0 <= i < n && #[trigger] list[i] == (prefix + "/"@, base) && (prefix
                    + "/"@).is_prefix_of(specifier) && prefix + "/"@ != specifier;
            let rest = specifier.skip(prefix.len() as int + 1);
            assert(specifier.subrange(0, prefix.len() as int + 1) =~= prefix + "/"@);
            assert(spliced(prefix, rest) =~= specifier);
            assert(list.contains((prefix + "/"@, base)));
            assert(mapped(list, specifier) == Some(base + rest));
        }
    }
}

/// A directory and what stands behind its slash.
pub open spec fn spliced(prefix: Seq<char>, rest: Seq<char>) -> Seq<char> {
    prefix + "/"@ + rest
}

/// A relative import stays in the bundle. An absolute one is left to the browser unless its file is
/// under the root and not external. Any other is external by its own name or by the URL that the
/// import map gives it.
pub proof fn law_raw_externals(
    external: Seq<Seq<char>>,
    list: Seq<(Seq<char>, Seq<char>)>,
    specifier: Seq<char>,
    under_root: bool,
    url: Seq<char>,
)
    requires
        specifier.len() > 0,
    ensures
        specifier[0] == '.' ==> !raw_external(external, list, specifier, under_root),
        specifier[0] == '/' && !under_root ==> raw_external(external, list, specifier, under_root),
        specifier[0] == '/' && under_root ==> raw_external(external, list, specifier, under_root)
            == externally(external, specifier),
        specifier[0] != '.' && externally(external, specifier) ==> raw_external(
            external,
            list,
            specifier,
            under_root,
        ),
        specifier[0] != '.' && specifier[0] != '/' && !externally(external, specifier) && mapped(
            list,
            specifier,
        ) == Some(url) ==> raw_external(external, list, specifier, under_root) == externally(
            external,
            url,
        ),
        specifier[0] != '.' && specifier[0] != '/' && !externally(external, specifier) && mapped(
            list,
            specifier,
        ) is None ==> !raw_external(external, list, specifier, under_root),
{
    reveal_strlit(".");
    reveal_strlit("/");
    assert(specifier.subrange(0, 1)[0] == specifier[0]);
    if specifier[0] == '.' {
        assert(specifier.subrange(0, 1) =~= "."@);
    }
    if specifier[0] == '/' {
        assert(specifier.subrange(0, 1) =~= "/"@);
    }
}

/// An entry's output is named by its path without `.js`, with forward slashes.
pub proof fn law_entry_names(stem: Seq<char>, entry: Seq<char>)
    ensures
        !stem.contains('\\') ==> entry_name(stem + ".js"@) == stem,
        !entry.contains('\\') && !".js"@.is_suffix_of(entry) ==> entry_name(entry) == entry,
        entry_name(stem + "\\"@ + entry) == entry_name(stem + "/"@ + entry),
{
    reveal_strlit(".js");
    reveal_strlit("\\");
    reveal_strlit("/");
    assert("\\"@ =~= seq!['\\']);
    assert("/"@ =~= seq!['/']);
    let file = stem + ".js"@;
    if !stem.contains('\\') {
        assert(!file.contains('\\')) by {
            if file.contains('\\') {
                let k = choose|k: int| 0 <= k < file.len() && file[k] == '\\';
                if k < stem.len() {
                    assert(stem[k] == '\\');
                }
            }
        }
        text::lemma_replaced_absent(file, '\\', seq!['/'], 0);
        assert(file.skip(0) =~= file);
        text::lemma_suffix_chars(file, ".js"@);
        assert(".js"@.is_suffix_of(file));
        assert(file.take(file.len() - 3) =~= stem);
    }
    if !entry.contains('\\') {
        text::lemma_replaced_absent(entry, '\\', seq!['/'], 0);
        assert(entry.skip(0) =~= entry);
    }
    text::law_replaced_in_parts(stem + "\\"@, entry, '\\', seq!['/']);
    text::law_replaced_in_parts(stem + "/"@, entry, '\\', seq!['/']);
    assert(stem + "\\"@ =~= stem.push('\\'));
    assert(stem + "/"@ =~= stem.push('/'));
    text::law_replaced_one_by_one(stem, '\\', seq!['/'], '\\');
    text::law_replaced_one_by_one(stem, '\\', seq!['/'], '/');
}

/// Every entry of the import map that is not external and maps to an absolute URL is an alias for
/// the file of that URL under the root, and nothing else is one.
pub proof fn law_aliases(
    external: Seq<Seq<char>>,
    root: Seq<char>,
    list: Seq<(Seq<char>, Seq<char>)>,
    n: int,
)
    requires
        0 <= n < list.len(),
    ensures
        aliases(external, root, list, 0).len() == 0,
        externally(external, list[n].0) || externally(external, list[n].1) || !"/"@.is_prefix_of(
            list[n].1,
        ) ==> aliases(external, root, list, n + 1) == aliases(external, root, list, n),
        !externally(external, list[n].0) && !externally(external, list[n].1) && "/"@.is_prefix_of(
            list[n].1,
        ) ==> ({
            let name = if "/"@.is_suffix_of(list[n].0) {
                list[n].0.drop_last()
            } else {
                list[n].0
            };
            aliases(external, root, list, n + 1) == aliases(external, root, list, n).push(
                (name, under(root, list[n].1.drop_first())),
            )
        }),
{
    reveal_strlit("/");
    let (spec, url) = list[n];
    if "/"@.is_suffix_of(spec) {
        assert(spec.take(spec.len() - 1) =~= spec.drop_last());
    }
    if "/"@.is_prefix_of(url) {
        assert(url.skip(1) =~= url.drop_first());
    }
}

proof fn lemma_with_module(list: Seq<Seq<char>>, p: Seq<char>)
    ensures
        forall|q: Seq<char>| #[trigger]
            with_module(list, p).contains(q) ==> list.contains(q) || q == p,
        forall|q: Seq<char>| #[trigger] list.contains(q) ==> with_module(list, p).contains(q),
        exists|i: int|
            0 <= i < with_module(list, p).len() && parts(#[trigger] with_module(list, p)[i]) == parts(
                p,
            ),
    decreases list.len(),
{
    let all = with_module(list, p);
    if list.len() == 0 || parts_before(parts(list.last()), parts(p)) {
        assert(all[list.len() as int] == p);
        assert forall|q: Seq<char>| #[trigger] list.contains(q) implies all.contains(q) by {
            let k = choose|k: int| 0 <= k < list.len() && list[k] == q;
            assert(all[k] == q);
        }
        assert forall|q: Seq<char>| #[trigger] all.contains(q) implies list.contains(q) || q == p by {
            let k = choose|k: int| 0 <= k < all.len() && all[k] == q;
            if k < list.len() {
                assert(list[k] == q);
            }
        }
    } else if parts(list.last()) == parts(p) {
        assert(all[list.len() - 1] == list.last());
    } else {
        let front = list.drop_last();
        lemma_with_module(front, p);
        let rest = with_module(front, p);
        let i = choose|i: int| 0 <= i < rest.len() && parts(#[trigger] rest[i]) == parts(p);
        assert(all[i] == rest[i]);
        assert forall|q: Seq<char>| #[trigger] list.contains(q) implies all.contains(q) by {
            let k = choose|k: int| 0 <= k < list.len() && list[k] == q;
            if k < front.len() {
                assert(front[k] == q);
                assert(front.contains(q));
                let m = choose|m: int| 0 <= m < rest.len() && rest[m] == q;
                assert(all[m] == q);
            } else {
                assert(all[rest.len() as int] == q);
            }
        }
        assert forall|q: Seq<char>| #[trigger] all.contains(q) implies list.contains(q) || q == p by {
            let k = choose|k: int| 0 <= k < all.len() && all[k] == q;
            if k < rest.len() {
                assert(rest[k] == q);
                assert(rest.contains(q));
                if front.contains(q) {
                    let m = choose|m: int| 0 <= m < front.len() && front[m] == q;
                    assert(list[m] == q);
                }
            } else {
                assert(list[list.len() - 1] == q);
            }
        }
    }
}

/// Every absolute path that exists among the module ids is reported as folded, if not in its own
/// spelling then in another of the same path; and nothing else is.
pub proof fn law_what_is_folded(ids: Seq<ModuleId>)
    ensures
        forall|i: int|
            0 <= i < ids.len() && rooted((#[trigger] ids[i]).id@) && ids[i].exists ==> path_listed(
                folded(ids),
                ids[i].id@,
            ),
        forall|p: Seq<char>| #[trigger]
            folded(ids).contains(p) ==> exists|i: int|
                0 <= i < ids.len() && (#[trigger] ids[i]).id@ == p && rooted(p) && ids[i].exists,
    decreases ids.len(),
{
    if ids.len() > 0 {
        let front = ids.drop_last();
        law_what_is_folded(front);
        let before = folded(front);
        let all = folded(ids);
        let last = ids.last();
        lemma_with_module(before, last.id@);
        assert forall|i: int|
            0 <= i < ids.len() && rooted((#[trigger] ids[i]).id@) && ids[i].exists implies path_listed(
            all,
            ids[i].id@,
        ) by {
            if i < front.len() {
                assert(front[i] == ids[i]);
                let k = choose|k: int|
                    0 <= k < before.len() && parts(#[trigger] before[k]) == parts(ids[i].id@);
                assert(before.contains(before[k]));
                assert(all.contains(before[k]));
                let m = choose|m: int| 0 <= m < all.len() && all[m] == before[k];
                assert(parts(all[m]) == parts(ids[i].id@));
            } else {
                let k = choose|k: int|
                    0 <= k < all.len() && parts(#[trigger] all[k]) == parts(last.id@);
                assert(parts(all[k]) == parts(ids[i].id@));
            }
        }
        assert forall|p: Seq<char>| #[trigger] all.contains(p) implies exists|i: int|
            0 <= i < ids.len() && (#[trigger] ids[i]).id@ == p && rooted(p) && ids[i].exists by {
            if before.contains(p) {
                let i = choose|i: int|
                    0 <= i < front.len() && (#[trigger] front[i]).id@ == p && rooted(p)
                        && front[i].exists;
                assert(ids[i].id@ == p);
            } else {
                assert(ids[ids.len() - 1].id@ == p);
            }
        }
    }
}

/// Without entries the entry is `app.js`; with any, they are what was asked for.
pub proof fn law_default_entry(asked: Seq<Seq<char>>)
    ensures
        asked.len() > 0 ==> entry_list(asked) == asked,
        entry_list(Seq::empty()) == seq!["app.js"@],
{
}

/// The first entry that is not there is the one reported, and there is none exactly when all are
/// there.
pub proof fn law_first_absent_entry(entries: Seq<Seq<char>>, present: Seq<bool>, i: int)
    requires
        0 <= i,
        entries.len() == present.len(),
    ensures
        match first_missing(entries, present, i) {
            Some(entry) => exists|k: int|
                i <= k < entries.len() && #[trigger] entries[k] == entry && !present[k] && forall|
                    j: int,
                |
                    i <= j < k ==> #[trigger] present[j],
            None => forall|j: int| i <= j < entries.len() ==> #[trigger] present[j],
        },
    decreases entries.len() - i,
{
    if i < entries.len() {
        if present[i] {
            law_first_absent_entry(entries, present, i + 1);
        } else {
            assert(entries[i] == entries[i]);
        }
    }
}

/// A URL below the mount is read below the staged modules; any other stays as it is.
pub proof fn law_staged_urls(mount: Seq<char>, rest: Seq<char>, url: Seq<char>)
    ensures
        staged_url(mount, mount + rest) == "/web_modules"@ + rest,
        !mount.is_prefix_of(url) ==> staged_url(mount, url) == url,
{
    let all = mount + rest;
    assert(all.subrange(0, mount.len() as int) =~= mount);
    assert(all.skip(mount.len() as int) =~= rest);
}

/// Every folded module of the stage that is no entry goes, with its source map and its collected
/// comments.
pub proof fn law_folded_modules_go(
    entries: Seq<Seq<char>>,
    stage: Seq<char>,
    modules: Seq<Seq<char>>,
    k: int,
)
    requires
        0 <= k < modules.len(),
        path::rest_of(modules[k], stage) is Some,
        !path_listed(entries, modules[k]),
    ensures
        removed(entries, stage, modules).contains(modules[k]),
        removed(entries, stage, modules).contains(modules[k] + ".map"@),
        removed(entries, stage, modules).contains(modules[k] + ".LEGAL.txt"@),
    decreases modules.len(),
{
    let front = modules.drop_last();
    let before = removed(entries, stage, front);
    let all = removed(entries, stage, modules);
    let m = modules[k];
    if k < front.len() {
        assert(front[k] == m);
        law_folded_modules_go(entries, stage, front, k);
        let a = choose|a: int| 0 <= a < before.len() && before[a] == m;
        let b = choose|b: int| 0 <= b < before.len() && before[b] == m + ".map"@;
        let c = choose|c: int| 0 <= c < before.len() && before[c] == m + ".LEGAL.txt"@;
        assert(all[a] == m && all[b] == m + ".map"@ && all[c] == m + ".LEGAL.txt"@);
    } else {
        let n = before.len() as int;
        assert(all[n] == m && all[n + 1] == m + ".map"@ && all[n + 2] == m + ".LEGAL.txt"@);
    }
}

/// An unresolved import is reported when its module survives and the bundler did not write it, and
/// only then, in order.
pub proof fn law_orphans(
    unresolved: Seq<(Seq<char>, Seq<char>)>,
    emitted: Seq<Seq<char>>,
    survives: Seq<bool>,
    n: int,
)
    requires
        0 <= n < unresolved.len(),
    ensures
        orphaned(unresolved, emitted, survives, 0).len() == 0,
        survives[n] && !path_listed(emitted, unresolved[n].0) ==> orphaned(
            unresolved,
            emitted,
            survives,
            n + 1,
        ) == orphaned(unresolved, emitted, survives, n).push(unresolved[n]),
        !survives[n] || path_listed(emitted, unresolved[n].0) ==> orphaned(
            unresolved,
            emitted,
            survives,
            n + 1,
        ) == orphaned(unresolved, emitted, survives, n),
{
}

/// An external entry lies under the root, its leading slashes aside, and stands for all beneath it
/// when it ends in `/`.
pub proof fn law_external_places(root: Seq<char>, name: Seq<char>)
    requires
        name.len() > 0,
        name[0] != '/',
        name.last() != '/',
    ensures
        external_place(root, name) == (under(root, name), false),
        external_place(root, name + "/"@) == (under(root, name), true),
        external_place(root, "/"@ + name) == (under(root, name), false),
        external_place(root, "/"@ + name + "/"@) == (under(root, name), true),
{
    reveal_strlit("/");
    let set = "/"@;
    assert(forall|c: char| set.contains(c) <==> c == '/') by {
        assert(set[0] == '/');
    }
    text::law_trimming_leaves_alone(name, set);
    text::lemma_suffix_chars(name, set);
    if set.is_suffix_of(name) {
        assert(name[name.len() - 1] == set[0]);
    }
    let led = set + name;
    text::lemma_suffix_chars(led, set);
    if set.is_suffix_of(led) {
        assert(led[led.len() - 1] == set[0]);
    }
    assert(led.drop_first() =~= name);
    assert(trimmed_start(led, set) == trimmed_start(name, set));
    let a = name + set;
    text::lemma_suffix_chars(a, set);
    assert(a.take(a.len() - 1) =~= name);
    let b = led + set;
    text::lemma_suffix_chars(b, set);
    assert(b.take(b.len() - 1) =~= led);
}

} // verus!
