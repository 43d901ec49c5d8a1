//! What a `package.json` asks to vendor.
//!
//! Keep your browser dependencies in a real `package.json` next to your sources.
//! Registry ranges are preserved verbatim (`^3`, `~1.2`, …); an https `.tgz` URL
//! becomes a tarball spec; a `github:owner/repo#ref` or git URL becomes a git spec;
//! and local protocols (`file:`/`link:`/`workspace:`/`portal:`) are skipped.
//!
//! # `webDependencies` whitelist
//!
//! When `dependencies` also carries server-only packages, narrow the browser vend
//! with a `webDependencies` whitelist under the `web_modules` key:
//!
//! ```json
//! { "dependencies": { "lit": "^3", "pg": "^8" },
//!   "web_modules": { "webDependencies": ["lit"] } }
//! ```
//!
//! # `sourceDependencies`
//!
//! A package that publishes only TypeScript has no built output to vendor, so it is
//! compiled from source. Naming it under `web_modules.sourceDependencies` says so.
//! The named packages are excluded from the ordinary specs, so nothing is fetched twice.

use vstd::prelude::*;

use crate::error::{Error, Failure};
use crate::json;
use crate::json::{Json, Tree};
use crate::mount;
use crate::mount::{Mount, MountSpec};
use crate::path;
use crate::text;
use crate::text::{opt_text, texts};
use crate::vendor::spec::{
    git_package, lemma_wanted_push, npm_package, sourced, tarball_package, wanted, Keep, Mode,
    Origin, PackageSpec, Wanted,
};

verus! {

// ---------------------------------------------------------------------------
// One dependency value
// ---------------------------------------------------------------------------

/// A value that points at a local path rather than a registry or git source.
pub open spec fn local_protocol(value: Seq<char>) -> bool {
    ||| "file:"@.is_prefix_of(value)
    ||| "link:"@.is_prefix_of(value)
    ||| "workspace:"@.is_prefix_of(value)
    ||| "portal:"@.is_prefix_of(value)
}

/// A value that points at a pre-packed tarball over https.
pub open spec fn tarball_url(value: Seq<char>) -> bool {
    "https://"@.is_prefix_of(value) && (".tgz"@.is_suffix_of(value) || ".tar.gz"@.is_suffix_of(
        value,
    ))
}

/// The path of a local path-dependency value.
pub open spec fn local_path(value: Seq<char>) -> Option<Seq<char>> {
    if "file:"@.is_prefix_of(value) {
        Some(value.skip(5))
    } else if "link:"@.is_prefix_of(value) {
        Some(value.skip(5))
    } else if "./"@.is_prefix_of(value) || "../"@.is_prefix_of(value) {
        Some(value)
    } else {
        None
    }
}

/// A protocol that composing from a manifest does not vendor.
pub open spec fn unsupported_protocol(value: Seq<char>) -> bool {
    ||| "workspace:"@.is_prefix_of(value)
    ||| "portal:"@.is_prefix_of(value)
    ||| "npm:"@.is_prefix_of(value)
}

/// A git value in two halves: what locates the repository, and the reference
/// after `#`, the default branch when there is none.
pub open spec fn git_halves(value: Seq<char>) -> (Seq<char>, Seq<char>) {
    let v = text::trimmed(value, text::white());
    let bare = match text::without_prefix(v, "git+"@) {
        Some(rest) => rest,
        None => v,
    };
    match text::cut(bare, '#') {
        Some(p) => p,
        None => (bare, "HEAD"@),
    }
}

/// The path of the repository on the host: after `github:`, or after `github.com`.
pub open spec fn host_path(locator: Seq<char>) -> Option<Seq<char>> {
    match text::without_prefix(locator, "github:"@) {
        Some(rest) => Some(rest),
        None => match text::find_from(locator, "github.com"@, 0) {
            Some(i) => Some(text::trimmed_start(locator.skip(i + 10), ":/"@)),
            None => None,
        },
    }
}

/// The `(owner/repo, ref)` of a GitHub dependency value; nothing for any other value.
pub open spec fn github_dep(value: Seq<char>) -> Option<(Seq<char>, Seq<char>)> {
    let (locator, reference) = git_halves(value);
    match host_path(locator) {
        Some(p) => match text::cut(
            text::trimmed(text::trimmed_suffix(p, ".git"@), "/"@),
            '/',
        ) {
            Some((owner, rest)) => {
                let repo = match text::cut(rest, '/') {
                    Some((first, _)) => first,
                    None => rest,
                };
                if owner.len() == 0 || repo.len() == 0 {
                    None
                } else {
                    Some((owner + "/"@ + repo, reference))
                }
            },
            None => None,
        },
        None => None,
    }
}

/// What one dependency asks for: nothing for a local path; a tarball before a
/// GitHub repository, so a release asset vends as the packed tarball; else a
/// registry package.
pub open spec fn dependency(name: Seq<char>, value: Seq<char>) -> Option<Wanted> {
    if local_protocol(value) {
        None
    } else if tarball_url(value) {
        Some(tarball_package(name, value))
    } else {
        match github_dep(value) {
            Some((repo, reference)) => Some(git_package(repo, reference)),
            None => Some(npm_package(name, value)),
        }
    }
}

/// A `package.json` value pointing at a local path rather than a registry/git
/// source; nothing to vendor.
pub fn is_local_protocol(value: &str) -> (r: bool)
    ensures
        r == local_protocol(value@),
{
    text::starts_with(value, "file:") || text::starts_with(value, "link:") || text::starts_with(
        value,
        "workspace:",
    ) || text::starts_with(value, "portal:")
}

/// A `package.json` value pointing at a pre-packed tarball over https (an `npm
/// pack` `.tgz`, e.g. a GitHub Release asset).
pub fn is_tarball_url(value: &str) -> (r: bool)
    ensures
        r == tarball_url(value@),
{
    text::starts_with(value, "https://") && (text::ends_with(value, ".tgz") || text::ends_with(
        value,
        ".tar.gz",
    ))
}

/// The path of a local path-dependency value (`file:…`, `link:…`, `./…`, `../…`).
pub fn local_path_dep(value: &str) -> (r: Option<String>)
    ensures
        opt_text(r) == local_path(value@),
{
    proof {
        reveal_strlit("file:");
        reveal_strlit("link:");
    }
    match text::strip_prefix(value, "file:") {
        Some(rest) => Some(rest),
        None => match text::strip_prefix(value, "link:") {
            Some(rest) => Some(rest),
            None => if text::starts_with(value, "./") || text::starts_with(value, "../") {
                Some(value.to_owned())
            } else {
                None
            },
        },
    }
}

/// Dependency protocols [`read_package_json`] doesn't vendor (handled elsewhere, or
/// not a registry package).
pub fn is_unsupported_protocol(value: &str) -> (r: bool)
    ensures
        r == unsupported_protocol(value@),
{
    text::starts_with(value, "workspace:") || text::starts_with(value, "portal:")
        || text::starts_with(value, "npm:")
}

/// Parse a GitHub dependency value into `(owner/repo, ref)`: the npm
/// `github:owner/repo#ref` shorthand or a `git+https://github.com/owner/repo(.git)#ref`
/// URL. The ref defaults to `HEAD` (the default branch) when absent. Returns `None`
/// for a plain registry range.
pub fn parse_github_dep(value: &str) -> (r: Option<(String, String)>)
    ensures
        text::opt_pair(r) == github_dep(value@),
{
    let v = text::trim(value);
    let bare = match text::strip_prefix(v.as_str(), "git+") {
        Some(rest) => rest,
        None => v,
    };
    let (locator, reference) = match text::split_once(bare.as_str(), '#') {
        Some(p) => p,
        None => (bare, "HEAD".to_owned()),
    };
    let found = match text::strip_prefix(locator.as_str(), "github:") {
        Some(rest) => Some(rest),
        None => match text::find(locator.as_str(), "github.com") {
            Some(i) => {
                proof {
                    reveal_strlit("github.com");
                    text::lemma_find_from(locator@, "github.com"@, 0);
                }
                let n = locator.as_str().unicode_len();
                let tail = locator.as_str().substring_char(i + 10, n);
                assert(tail@ =~= locator@.skip(i + 10));
                Some(text::trim_start(tail, ":/"))
            },
            None => None,
        },
    };
    match found {
        Some(p) => {
            let trimmed = text::trim_both(text::trim_suffix(p.as_str(), ".git").as_str(), "/");
            match text::split_once(trimmed.as_str(), '/') {
                Some((owner, rest)) => {
                    let repo = match text::split_once(rest.as_str(), '/') {
                        Some((first, _)) => first,
                        None => rest,
                    };
                    if owner.as_str().is_empty() || repo.as_str().is_empty() {
                        return None;
                    }
                    Some((owner.concat("/").concat(repo.as_str()), reference))
                },
                None => None,
            }
        },
        None => None,
    }
}

/// Turn one `package.json` dependency entry (`name` to `value`) into a vendoring
/// [`PackageSpec`]: an https `.tgz` URL into a tarball spec; a `github:` / git URL into
/// a git spec; a local protocol (`file:`/`link:`/`workspace:`/`portal:`) into `None`
/// (nothing to vend); anything else into a registry spec, range verbatim.
pub fn dep_to_spec(name: &str, value: &str) -> (r: Option<PackageSpec>)
    ensures
        match r {
            Some(spec) => dependency(name@, value@) == Some(spec@),
            None => dependency(name@, value@) is None,
        },
{
    if is_local_protocol(value) {
        return None;
    }
    if is_tarball_url(value) {
        return Some(PackageSpec::tarball(name, value));
    }
    match parse_github_dep(value) {
        Some((repo, reference)) => Some(PackageSpec::git(repo.as_str(), reference.as_str())),
        None => Some(PackageSpec::npm(name, value)),
    }
}

// ---------------------------------------------------------------------------
// Source dependencies
// ---------------------------------------------------------------------------

/// All entries of a list are texts.
pub open spec fn all_text(items: Seq<Tree>) -> bool {
    forall|i: int| 0 <= i < items.len() ==> (#[trigger] items[i]) is Text
}

/// The texts of a list.
pub open spec fn item_texts(items: Seq<Tree>) -> Seq<Seq<char>> {
    Seq::new(items.len(), |i: int| items[i]->Text_0)
}

/// The dependency names listed under `web_modules.sourceDependencies`, in manifest order.
pub open spec fn source_names(path: Seq<char>, doc: Tree) -> Result<Seq<Seq<char>>, Failure> {
    match json::field2(doc, "web_modules"@, "sourceDependencies"@) {
        None => Ok(Seq::empty()),
        Some(Tree::Array(items)) => if all_text(items) {
            Ok(item_texts(items))
        } else {
            Err(
                Failure::Vendor(
                    path + ": web_modules.sourceDependencies entries must be strings"@,
                ),
            )
        },
        Some(_) => Err(
            Failure::Vendor(
                path
                    + ": web_modules.sourceDependencies must be an array of dependency names"@,
            ),
        ),
    }
}

/// The contents of a result that is a list of texts.
pub open spec fn seen_texts(r: Result<Vec<String>, Error>) -> Result<Seq<Seq<char>>, Failure> {
    match r {
        Ok(list) => Ok(texts(list@)),
        Err(e) => Err(e@),
    }
}

/// The contents of a result that is a list of specs.
pub open spec fn seen_specs(r: Result<Vec<PackageSpec>, Error>) -> Result<Seq<Wanted>, Failure> {
    match r {
        Ok(list) => Ok(wanted(list@)),
        Err(e) => Err(e@),
    }
}

/// The dependency names listed under `web_modules.sourceDependencies`, in manifest
/// order. Absent key: empty.
pub fn source_dependency_names(path: &str, doc: &Json) -> (r: Result<Vec<String>, Error>)
    ensures
        seen_texts(r) == source_names(path@, doc.tree()),
{
    match doc.get2("web_modules", "sourceDependencies") {
        None => {
            let none: Vec<String> = Vec::new();
            assert(texts(none@) =~= Seq::<Seq<char>>::empty());
            Ok(none)
        },
        Some(listed) => match listed.as_array() {
            Some(items) => {
                proof {
                    json::lemma_trees(items@);
                }
                let mut names: Vec<String> = Vec::new();
                let mut i: usize = 0;
                while i < items.len()
                    invariant
                        i <= items@.len(),
                        names@.len() == i,
                        json::trees(items@).len() == items@.len(),
                        json::field2(doc.tree(), "web_modules"@, "sourceDependencies"@) == Some(
                            Tree::Array(json::trees(items@)),
                        ),
                        forall|j: int|
                            0 <= j < items@.len() ==> #[trigger] json::trees(items@)[j]
                                == items@[j].tree(),
                        forall|j: int|
                            0 <= j < i ==> #[trigger] json::trees(items@)[j] == Tree::Text(
                                names@[j]@,
                            ),
                    decreases items@.len() - i,
                {
                    assert(json::trees(items@)[i as int] == items@[i as int].tree());
                    match items[i].as_str() {
                        Some(name) => {
                            names.push(name.to_owned());
                        },
                        None => {
                            assert(!all_text(json::trees(items@)));
                            return Err(
                                Error::Vendor(
                                    path.to_owned().concat(
                                        ": web_modules.sourceDependencies entries must be strings",
                                    ),
                                ),
                            );
                        },
                    }
                    i += 1;
                }
                assert(all_text(json::trees(items@)));
                assert(texts(names@) =~= item_texts(json::trees(items@)));
                Ok(names)
            },
            None => Err(
                Error::Vendor(
                    path.to_owned().concat(
                        ": web_modules.sourceDependencies must be an array of dependency names",
                    ),
                ),
            ),
        },
    }
}

/// What one listed source dependency asks for: a git repository under the
/// dependency's own name, taken as sources.
pub open spec fn source_spec(path: Seq<char>, doc: Tree, name: Seq<char>) -> Result<
    Wanted,
    Failure,
> {
    match json::text_of(json::field2(doc, "dependencies"@, name)) {
        None => Err(
            Failure::Vendor(
                path + ": web_modules.sourceDependencies lists `"@ + name
                    + "`, not found in dependencies"@,
            ),
        ),
        Some(value) => match github_dep(value) {
            None => Err(
                Failure::Vendor(
                    path + ": web_modules.sourceDependencies lists `"@ + name + "`, whose value `"@
                        + value
                        + "` is not a git reference — only a git source can be built from source"@,
                ),
            ),
            Some((repo, reference)) => Ok(
                sourced(Wanted { dir: name, ..git_package(repo, reference) }),
            ),
        },
    }
}

/// What a list of source dependencies asks for, the first failure deciding.
pub open spec fn source_specs(path: Seq<char>, doc: Tree, names: Seq<Seq<char>>) -> Result<
    Seq<Wanted>,
    Failure,
>
    decreases names.len(),
{
    if names.len() == 0 {
        Ok(Seq::empty())
    } else {
        match source_specs(path, doc, names.drop_last()) {
            Err(e) => Err(e),
            Ok(specs) => match source_spec(path, doc, names.last()) {
                Err(e) => Err(e),
                Ok(spec) => Ok(specs.push(spec)),
            },
        }
    }
}

/// What a manifest's source dependencies ask for.
pub open spec fn manifest_source_specs(path: Seq<char>, doc: Tree) -> Result<
    Seq<Wanted>,
    Failure,
> {
    match source_names(path, doc) {
        Err(e) => Err(e),
        Ok(names) => source_specs(path, doc, names),
    }
}

proof fn lemma_source_error_stays(
    path: Seq<char>,
    doc: Tree,
    names: Seq<Seq<char>>,
    i: int,
)
    requires
        0 <= i <= names.len(),
        source_specs(path, doc, names.take(i)) is Err,
    ensures
        source_specs(path, doc, names) == source_specs(path, doc, names.take(i)),
    decreases names.len(),
{
    if i == names.len() {
        assert(names.take(i) =~= names);
    } else {
        assert(names.drop_last().take(i) =~= names.take(i));
        lemma_source_error_stays(path, doc, names.drop_last(), i);
    }
}

/// Build **source** specs from a `package.json`, given its path and content: the
/// dependencies named under `web_modules.sourceDependencies`, taken from their git
/// reference and configured to keep their sources ([`PackageSpec::as_source`]).
///
/// A listed name absent from `dependencies`, or whose value is not a git reference, is
/// an error: only a git source has sources to build, and a silent skip would leave the
/// app with an unresolvable import.
pub fn source_specs_from_package_json(path: &str, bytes: &[u8]) -> (r: Result<
    Vec<PackageSpec>,
    Error,
>)
    ensures
        seen_specs(r) == (match json::json_document(bytes@) {
            Ok(doc) => manifest_source_specs(path@, doc),
            Err(e) => Err(Failure::Vendor(path@ + ": "@ + e)),
        }),
{
    match json::parse(bytes) {
        Ok(doc) => source_specs_from_document(path, &doc),
        Err(e) => Err(Error::Vendor(path.to_owned().concat(": ").concat(e.as_str()))),
    }
}

/// [`source_specs_from_package_json`] for content that is already a document.
pub fn source_specs_from_document(path: &str, doc: &Json) -> (r: Result<Vec<PackageSpec>, Error>)
    ensures
        seen_specs(r) == manifest_source_specs(path@, doc.tree()),
{
    let names = match source_dependency_names(path, doc) {
        Ok(names) => names,
        Err(e) => {
            return Err(e);
        },
    };
    let ghost all = texts(names@);
    let mut specs: Vec<PackageSpec> = Vec::new();
    let mut i: usize = 0;
    assert(wanted(specs@) =~= Seq::<Wanted>::empty());
    while i < names.len()
        invariant
            i <= names@.len(),
            all == texts(names@),
            source_names(path@, doc.tree()) == Ok::<Seq<Seq<char>>, Failure>(all),
            source_specs(path@, doc.tree(), all.take(i as int)) == Ok::<Seq<Wanted>, Failure>(
                wanted(specs@),
            ),
        decreases names@.len() - i,
    {
        let name = names[i].as_str();
        proof {
            let grown = all.take(i + 1);
            assert(grown.drop_last() =~= all.take(i as int));
            assert(grown.last() == name@);
        }
        let value = match doc.get2("dependencies", name) {
            Some(v) => v.as_str(),
            None => None,
        };
        match value {
            None => {
                proof {
                    lemma_source_error_stays(path@, doc.tree(), all, i + 1);
                }
                return Err(
                    Error::Vendor(
                        path.to_owned().concat(": web_modules.sourceDependencies lists `").concat(
                            name,
                        ).concat("`, not found in dependencies"),
                    ),
                );
            },
            Some(value) => match parse_github_dep(value) {
                None => {
                    proof {
                        lemma_source_error_stays(path@, doc.tree(), all, i + 1);
                    }
                    return Err(
                        Error::Vendor(
                            path.to_owned().concat(
                                ": web_modules.sourceDependencies lists `",
                            ).concat(name).concat("`, whose value `").concat(value).concat(
                                "` is not a git reference — only a git source can be built from source",
                            ),
                        ),
                    );
                },
                Some((repo, reference)) => {
                    let spec = PackageSpec::git(repo.as_str(), reference.as_str()).dir(
                        name,
                    ).as_source();
                    proof {
                        lemma_wanted_push(specs@, spec);
                    }
                    specs.push(spec);
                },
            },
        }
        i += 1;
    }
    assert(all.take(names@.len() as int) =~= all);
    Ok(specs)
}

// ---------------------------------------------------------------------------
// The whitelist
// ---------------------------------------------------------------------------

/// What a list of whitelisted names asks for, in order: a name once, a source
/// dependency not at all, a local path nothing; the first failure deciding.
pub open spec fn whitelisted(
    path: Seq<char>,
    doc: Tree,
    sources: Seq<Seq<char>>,
    items: Seq<Tree>,
) -> Result<Seq<Wanted>, Failure>
    decreases items.len(),
{
    if items.len() == 0 {
        Ok(Seq::empty())
    } else {
        match whitelisted(path, doc, sources, items.drop_last()) {
            Err(e) => Err(e),
            Ok(specs) => match items.last() {
                Tree::Text(name) => {
                    match json::text_of(json::field2(doc, "dependencies"@, name)) {
                        None => Err(
                            Failure::Vendor(
                                path + ": web_modules.webDependencies lists `"@ + name
                                    + "`, not found in dependencies"@,
                            ),
                        ),
                        Some(value) => if items.drop_last().contains(Tree::Text(name))
                            || sources.contains(name) {
                            Ok(specs)
                        } else {
                            match dependency(name, value) {
                                Some(spec) => Ok(specs.push(spec)),
                                None => Ok(specs),
                            }
                        },
                    }
                },
                _ => Err(
                    Failure::Vendor(
                        path + ": web_modules.webDependencies entries must be strings"@,
                    ),
                ),
            },
        }
    }
}

proof fn lemma_whitelist_error_stays(
    path: Seq<char>,
    doc: Tree,
    sources: Seq<Seq<char>>,
    items: Seq<Tree>,
    i: int,
)
    requires
        0 <= i <= items.len(),
        whitelisted(path, doc, sources, items.take(i)) is Err,
    ensures
        whitelisted(path, doc, sources, items) == whitelisted(path, doc, sources, items.take(i)),
    decreases items.len(),
{
    if i == items.len() {
        assert(items.take(i) =~= items);
    } else {
        assert(items.drop_last().take(i) =~= items.take(i));
        lemma_whitelist_error_stays(path, doc, sources, items.drop_last(), i);
    }
}

// ---------------------------------------------------------------------------
// Sections
// ---------------------------------------------------------------------------

/// A name stands in a list of named dependencies.
pub open spec fn named_in(list: Seq<(Seq<char>, Option<Wanted>)>, name: Seq<char>) -> bool {
    exists|i: int| 0 <= i < list.len() && (#[trigger] list[i]).0 == name
}

/// The named dependencies after the fields of one section: a text value, not a source
/// dependency, under a name not seen before, with what it asks for.
pub open spec fn with_fields(
    list: Seq<(Seq<char>, Option<Wanted>)>,
    sources: Seq<Seq<char>>,
    fields: Seq<(Seq<char>, Tree)>,
) -> Seq<(Seq<char>, Option<Wanted>)>
    decreases fields.len(),
{
    if fields.len() == 0 {
        list
    } else {
        let before = with_fields(list, sources, fields.drop_last());
        let (name, value) = fields.last();
        match value {
            Tree::Text(v) => if sources.contains(name) || named_in(before, name) {
                before
            } else {
                before.push((name, dependency(name, v)))
            },
            _ => before,
        }
    }
}

/// The named dependencies of a list of sections, a section that is no object adding nothing.
pub open spec fn with_sections(doc: Tree, sources: Seq<Seq<char>>, sections: Seq<Seq<char>>) -> Seq<
    (Seq<char>, Option<Wanted>),
>
    decreases sections.len(),
{
    if sections.len() == 0 {
        Seq::empty()
    } else {
        let before = with_sections(doc, sources, sections.drop_last());
        match json::field(doc, sections.last()) {
            Some(Tree::Object(fields)) => with_fields(before, sources, fields),
            _ => before,
        }
    }
}

/// The specs that a list of named dependencies asks for.
pub open spec fn unnamed(list: Seq<(Seq<char>, Option<Wanted>)>) -> Seq<Wanted>
    decreases list.len(),
{
    if list.len() == 0 {
        Seq::empty()
    } else {
        match list.last().1 {
            Some(spec) => unnamed(list.drop_last()).push(spec),
            None => unnamed(list.drop_last()),
        }
    }
}

/// What a manifest's sections ask for.
pub open spec fn section_specs(path: Seq<char>, doc: Tree, sections: Seq<Seq<char>>) -> Result<
    Seq<Wanted>,
    Failure,
> {
    match source_names(path, doc) {
        Err(e) => Err(e),
        Ok(sources) => Ok(unnamed(with_sections(doc, sources, sections))),
    }
}

/// What a manifest asks for: its whitelist when it has one, else its dependencies.
pub open spec fn manifest_specs(path: Seq<char>, doc: Tree) -> Result<Seq<Wanted>, Failure> {
    match json::field2(doc, "web_modules"@, "webDependencies"@) {
        None => section_specs(path, doc, seq!["dependencies"@]),
        Some(Tree::Array(items)) => match source_names(path, doc) {
            Err(e) => Err(e),
            Ok(sources) => whitelisted(path, doc, sources, items),
        },
        Some(_) => Err(
            Failure::Vendor(
                path + ": web_modules.webDependencies must be an array of dependency names"@,
            ),
        ),
    }
}

/// Build vendoring specs from the `dependencies` of a `package.json`, given its path and
/// content. Each entry defaults to browser-asset extraction with an auto-derived import
/// map. Only `dependencies` is read; to read other sections, use
/// [`specs_from_package_json_sections`].
///
/// With a `web_modules.webDependencies` whitelist only the listed names are vended (in
/// order; versions still come from `dependencies`); a listed name absent from
/// `dependencies` is an error. Without the key, every `dependency` is vended.
pub fn specs_from_package_json(path: &str, bytes: &[u8]) -> (r: Result<Vec<PackageSpec>, Error>)
    ensures
        seen_specs(r) == (match json::json_document(bytes@) {
            Ok(doc) => manifest_specs(path@, doc),
            Err(e) => Err(Failure::Vendor(path@ + ": "@ + e)),
        }),
{
    match json::parse(bytes) {
        Ok(doc) => specs_from_document(path, &doc),
        Err(e) => Err(Error::Vendor(path.to_owned().concat(": ").concat(e.as_str()))),
    }
}

/// [`specs_from_package_json`] for content that is already a document.
pub fn specs_from_document(path: &str, doc: &Json) -> (r: Result<Vec<PackageSpec>, Error>)
    ensures
        seen_specs(r) == manifest_specs(path@, doc.tree()),
{
    match doc.get2("web_modules", "webDependencies") {
        None => {
            let sections = ["dependencies"];
            let r = specs_from_sections(path, doc, &sections);
            assert(Seq::new(sections@.len(), |i: int| sections@[i]@) =~= seq!["dependencies"@]);
            r
        },
        Some(whitelist) => match whitelist.as_array() {
            None => Err(
                Error::Vendor(
                    path.to_owned().concat(
                        ": web_modules.webDependencies must be an array of dependency names",
                    ),
                ),
            ),
            Some(items) => match source_dependency_names(path, doc) {
                Err(e) => Err(e),
                Ok(sources) => specs_from_whitelist(path, doc, &sources, items),
            },
        },
    }
}

fn specs_from_whitelist(
    path: &str,
    doc: &Json,
    sources: &Vec<String>,
    items: &Vec<Json>,
) -> (r: Result<Vec<PackageSpec>, Error>)
    ensures
        seen_specs(r) == whitelisted(path@, doc.tree(), texts(sources@), json::trees(items@)),
{
    let ghost all = json::trees(items@);
    let ghost names = texts(sources@);
    proof {
        json::lemma_trees(items@);
    }
    let mut specs: Vec<PackageSpec> = Vec::new();
    let mut seen: Vec<String> = Vec::new();
    let mut i: usize = 0;
    assert(wanted(specs@) =~= Seq::<Wanted>::empty());
    while i < items.len()
        invariant
            i <= items@.len(),
            all == json::trees(items@),
            names == texts(sources@),
            all.len() == items@.len(),
            forall|j: int| 0 <= j < items@.len() ==> #[trigger] all[j] == items@[j].tree(),
            forall|n: Seq<char>|
                #![trigger texts(seen@).contains(n)]
                texts(seen@).contains(n) == all.take(i as int).contains(Tree::Text(n)),
            whitelisted(path@, doc.tree(), names, all.take(i as int)) == Ok::<
                Seq<Wanted>,
                Failure,
            >(wanted(specs@)),
        decreases items@.len() - i,
    {
        proof {
            let grown = all.take(i + 1);
            assert(grown.drop_last() =~= all.take(i as int));
            assert(all[i as int] == items@[i as int].tree());
            assert(grown.last() == items@[i as int].tree());
        }
        match items[i].as_str() {
            None => {
                proof {
                    lemma_whitelist_error_stays(path@, doc.tree(), names, all, i + 1);
                }
                return Err(
                    Error::Vendor(
                        path.to_owned().concat(
                            ": web_modules.webDependencies entries must be strings",
                        ),
                    ),
                );
            },
            Some(name) => {
                let known = text::listed(&seen, name);
                let ghost old_seen = seen@;
                if !known {
                    let copy = name.to_owned();
                    proof {
                        text::lemma_texts_push(seen@, copy);
                    }
                    seen.push(copy);
                }
                proof {
                    let front = all.take(i as int);
                    let grown = all.take(i + 1);
                    assert(grown =~= front.push(Tree::Text(name@)));
                    assert forall|n: Seq<char>|
                        #![trigger texts(seen@).contains(n)]
                        texts(seen@).contains(n) == grown.contains(Tree::Text(n)) by {
                        assert(texts(old_seen).contains(n) == front.contains(Tree::Text(n)));
                        if front.contains(Tree::Text(n)) {
                            let k = choose|k: int|
                                0 <= k < front.len() && front[k] == Tree::Text(n);
                            assert(grown[k] == Tree::Text(n));
                        }
                        if n == name@ {
                            assert(grown[i as int] == Tree::Text(n));
                        }
                        if texts(old_seen).contains(n) && !known {
                            let k = choose|k: int|
                                0 <= k < texts(old_seen).len() && texts(old_seen)[k] == n;
                            assert(texts(seen@)[k] == n);
                        }
                        if !known && n == name@ {
                            assert(texts(seen@)[texts(old_seen).len() as int] == n);
                        }
                        if grown.contains(Tree::Text(n)) && n != name@ {
                            let k = choose|k: int|
                                0 <= k < grown.len() && grown[k] == Tree::Text(n);
                            assert(front[k] == Tree::Text(n));
                        }
                        if texts(seen@).contains(n) && n != name@ {
                            let k = choose|k: int|
                                0 <= k < texts(seen@).len() && texts(seen@)[k] == n;
                            assert(texts(old_seen)[k] == n);
                        }
                    }
                }
                let value = match doc.get2("dependencies", name) {
                    Some(v) => v.as_str(),
                    None => None,
                };
                match value {
                    None => {
                        proof {
                            lemma_whitelist_error_stays(path@, doc.tree(), names, all, i + 1);
                        }
                        return Err(
                            Error::Vendor(
                                path.to_owned().concat(
                                    ": web_modules.webDependencies lists `",
                                ).concat(name).concat("`, not found in dependencies"),
                            ),
                        );
                    },
                    Some(value) => {
                        if !known && !text::listed(sources, name) {
                            if let Some(spec) = dep_to_spec(name, value) {
                                proof {
                                    lemma_wanted_push(specs@, spec);
                                }
                                specs.push(spec);
                            }
                        }
                    },
                }
            },
        }
        i += 1;
    }
    assert(all.take(items@.len() as int) =~= all);
    Ok(specs)
}

/// Like [`specs_from_package_json`], but read the named dependency `sections`
/// (e.g. `&["dependencies", "devDependencies"]`). The first section to name a
/// package wins, also where it asks for nothing to vend; later duplicates are dropped. The
/// `webDependencies` whitelist is **not** applied; that is [`specs_from_package_json`]'s browser-vend rule.
pub fn specs_from_package_json_sections(path: &str, bytes: &[u8], sections: &[&str]) -> (r: Result<
    Vec<PackageSpec>,
    Error,
>)
    ensures
        seen_specs(r) == (match json::json_document(bytes@) {
            Ok(doc) => section_specs(
                path@,
                doc,
                Seq::new(sections@.len(), |i: int| sections@[i]@),
            ),
            Err(e) => Err(Failure::Vendor(path@ + ": "@ + e)),
        }),
{
    match json::parse(bytes) {
        Ok(doc) => specs_from_sections(path, &doc, sections),
        Err(e) => Err(Error::Vendor(path.to_owned().concat(": ").concat(e.as_str()))),
    }
}

/// The names, and the specs that they ask for, are those of a list of named dependencies.
spec fn beside(
    names: Seq<String>,
    specs: Seq<PackageSpec>,
    list: Seq<(Seq<char>, Option<Wanted>)>,
) -> bool {
    &&& names.len() == list.len()
    &&& forall|i: int| 0 <= i < list.len() ==> (#[trigger] list[i]).0 == names[i]@
    &&& wanted(specs) == unnamed(list)
}

/// [`specs_from_package_json_sections`] for content that is already a document.
pub fn specs_from_sections(path: &str, doc: &Json, sections: &[&str]) -> (r: Result<
    Vec<PackageSpec>,
    Error,
>)
    ensures
        seen_specs(r) == section_specs(
            path@,
            doc.tree(),
            Seq::new(sections@.len(), |i: int| sections@[i]@),
        ),
{
    let sources = match source_dependency_names(path, doc) {
        Ok(names) => names,
        Err(e) => {
            return Err(e);
        },
    };
    let ghost wanted_sections = Seq::new(sections@.len(), |i: int| sections@[i]@);
    let ghost skipped = texts(sources@);
    let mut names: Vec<String> = Vec::new();
    let mut specs: Vec<PackageSpec> = Vec::new();
    let mut k: usize = 0;
    assert(wanted(specs@) =~= Seq::<Wanted>::empty());
    while k < sections.len()
        invariant
            k <= sections@.len(),
            wanted_sections == Seq::new(sections@.len(), |i: int| sections@[i]@),
            skipped == texts(sources@),
            beside(
                names@,
                specs@,
                with_sections(doc.tree(), skipped, wanted_sections.take(k as int)),
            ),
        decreases sections@.len() - k,
    {
        let ghost before = with_sections(doc.tree(), skipped, wanted_sections.take(k as int));
        proof {
            let grown = wanted_sections.take(k + 1);
            assert(grown.drop_last() =~= wanted_sections.take(k as int));
            assert(grown.last() == sections@[k as int]@);
        }
        let found = match doc.get(sections[k]) {
            Some(v) => v.as_object(),
            None => None,
        };
        if let Some(fields) = found {
            proof {
                json::lemma_field_trees(fields@);
            }
            let ghost all = json::field_trees(fields@);
            let mut i: usize = 0;
            while i < fields.len()
                invariant
                    i <= fields@.len(),
                    all == json::field_trees(fields@),
                    all.len() == fields@.len(),
                    skipped == texts(sources@),
                    forall|j: int|
                        0 <= j < fields@.len() ==> #[trigger] all[j] == (
                            fields@[j].0@,
                            fields@[j].1.tree(),
                        ),
                    beside(names@, specs@, with_fields(before, skipped, all.take(i as int))),
                decreases fields@.len() - i,
            {
                let ghost list = with_fields(before, skipped, all.take(i as int));
                proof {
                    let grown = all.take(i + 1);
                    assert(grown.drop_last() =~= all.take(i as int));
                    assert(all[i as int] == (fields@[i as int].0@, fields@[i as int].1.tree()));
                }
                let name = fields[i].0.as_str();
                if let Some(value) = fields[i].1.as_str() {
                    let known = text::listed(&names, name);
                    proof {
                        if known {
                            let j = choose|j: int|
                                0 <= j < texts(names@).len() && texts(names@)[j] == name@;
                            assert(list[j].0 == name@);
                        } else if named_in(list, name@) {
                            let j = choose|j: int|
                                0 <= j < list.len() && (#[trigger] list[j]).0 == name@;
                            assert(texts(names@)[j] == name@);
                        }
                    }
                    if !text::listed(&sources, name) && !known {
                        let ghost grown = list.push((name@, dependency(name@, value@)));
                        assert(grown.drop_last() =~= list);
                        names.push(name.to_owned());
                        if let Some(spec) = dep_to_spec(name, value) {
                            proof {
                                lemma_wanted_push(specs@, spec);
                            }
                            specs.push(spec);
                        }
                        assert(beside(names@, specs@, grown));
                    }
                }
                i += 1;
            }
            assert(all.take(fields@.len() as int) =~= all);
        }
        k += 1;
    }
    assert(wanted_sections.take(sections@.len() as int) =~= wanted_sections);
    Ok(specs)
}

// ---------------------------------------------------------------------------
// Composing from a manifest
// ---------------------------------------------------------------------------

/// A local path-dependency: its name and the directory it points at.
#[derive(Debug, PartialEq, Eq)]
pub struct LocalDep {
    pub name: String,
    pub dir: String,
}

/// The contents of a list of local dependencies.
pub open spec fn locals(list: Seq<LocalDep>) -> Seq<(Seq<char>, Seq<char>)> {
    Seq::new(list.len(), |i: int| (list[i].name@, list[i].dir@))
}

impl LocalDep {
    /// The mount of the directory, given the content of its `package.json` if it has
    /// one: named by the dependency **key** (npm's `file:` rule), honoring the target's
    /// `web_modules.root`.
    pub fn mount(&self, manifest: Option<&[u8]>) -> (r: Mount)
        ensures
            r@ == (MountSpec {
                specifier: self.name@ + "/"@,
                url: "/"@ + self.name@ + "/"@,
                ..mount::mounted(
                    self.dir@,
                    match manifest {
                        Some(bytes) => match json::json_document(bytes@) {
                            Ok(doc) => Some(doc),
                            Err(_) => None,
                        },
                        None => None,
                    },
                )
            }),
    {
        let specifier = self.name.clone().concat("/");
        let url = "/".to_owned().concat(self.name.as_str()).concat("/");
        Mount::from_dir(self.dir.as_str(), manifest).specifier(specifier.as_str()).url(url.as_str())
    }
}

/// One dependency of a composed manifest: a directory to mount, a package to
/// vendor, or nothing.
pub enum Composed {
    Local(Seq<char>),
    Package(Wanted),
    Skipped,
}

/// What one dependency of a composed manifest is.
pub open spec fn composed(name: Seq<char>, value: Seq<char>) -> Composed {
    match local_path(value) {
        Some(rel) => Composed::Local(rel),
        None => if tarball_url(value) {
            Composed::Package(tarball_package(name, value))
        } else {
            match github_dep(value) {
                Some((repo, reference)) => Composed::Package(git_package(repo, reference)),
                None => if unsupported_protocol(value) {
                    Composed::Skipped
                } else {
                    Composed::Package(npm_package(name, value))
                },
            }
        },
    }
}

/// The packages and the local directories of a manifest's dependencies, in order.
pub open spec fn composition(
    base: Seq<char>,
    sources: Seq<Seq<char>>,
    fields: Seq<(Seq<char>, Tree)>,
) -> (Seq<Wanted>, Seq<(Seq<char>, Seq<char>)>)
    decreases fields.len(),
{
    if fields.len() == 0 {
        (Seq::empty(), Seq::empty())
    } else {
        let (specs, dirs) = composition(base, sources, fields.drop_last());
        let (name, value) = fields.last();
        match value {
            Tree::Text(v) => if sources.contains(name) {
                (specs, dirs)
            } else {
                match composed(name, v) {
                    Composed::Local(rel) => (specs, dirs.push((name, path::under(base, rel)))),
                    Composed::Package(spec) => (specs.push(spec), dirs),
                    Composed::Skipped => (specs, dirs),
                }
            },
            _ => (specs, dirs),
        }
    }
}

/// The directory a manifest is in.
pub open spec fn manifest_dir(path: Seq<char>) -> Seq<char> {
    match path::parent_of(path) {
        Some(dir) => dir,
        None => "."@,
    }
}

/// The packages and the local directories that a manifest asks for.
pub open spec fn manifest_composition(path: Seq<char>, doc: Tree) -> Result<
    (Seq<Wanted>, Seq<(Seq<char>, Seq<char>)>),
    Failure,
> {
    match source_names(path, doc) {
        Err(e) => Err(e),
        Ok(sources) => match json::field(doc, "dependencies"@) {
            Some(Tree::Object(fields)) => Ok(composition(manifest_dir(path), sources, fields)),
            _ => Ok((Seq::empty(), Seq::empty())),
        },
    }
}

/// The contents of a composition.
pub open spec fn seen_composition(r: Result<(Vec<PackageSpec>, Vec<LocalDep>), Error>) -> Result<
    (Seq<Wanted>, Seq<(Seq<char>, Seq<char>)>),
    Failure,
> {
    match r {
        Ok((specs, dirs)) => Ok((wanted(specs@), locals(dirs@))),
        Err(e) => Err(e@),
    }
}

/// Read a `package.json`'s `dependencies`, given its path and content, splitting them:
/// registry ranges become vendoring [`PackageSpec`]s (kept verbatim; `github:` becomes a
/// git spec), and **local path-deps** (`file:`/`link:`/`./`/`../`) become [`LocalDep`]s.
/// Other protocols (`workspace:`/`portal:`/`npm:`) are skipped. Use this to compose
/// sibling dirs straight from a manifest; [`specs_from_package_json`] is the vend-only
/// subset.
pub fn read_package_json(path: &str, bytes: &[u8]) -> (r: Result<
    (Vec<PackageSpec>, Vec<LocalDep>),
    Error,
>)
    ensures
        seen_composition(r) == (match json::json_document(bytes@) {
            Ok(doc) => manifest_composition(path@, doc),
            Err(e) => Err(Failure::Vendor(path@ + ": "@ + e)),
        }),
{
    match json::parse(bytes) {
        Ok(doc) => read_document(path, &doc),
        Err(e) => Err(Error::Vendor(path.to_owned().concat(": ").concat(e.as_str()))),
    }
}

/// [`read_package_json`] for content that is already a document.
pub fn read_document(path: &str, doc: &Json) -> (r: Result<
    (Vec<PackageSpec>, Vec<LocalDep>),
    Error,
>)
    ensures
        seen_composition(r) == manifest_composition(path@, doc.tree()),
{
    let base = match path::parent(path) {
        Some(dir) => dir,
        None => ".".to_owned(),
    };
    let sources = match source_dependency_names(path, doc) {
        Ok(names) => names,
        Err(e) => {
            return Err(e);
        },
    };
    let mut specs: Vec<PackageSpec> = Vec::new();
    let mut dirs: Vec<LocalDep> = Vec::new();
    assert(wanted(specs@) =~= Seq::<Wanted>::empty());
    assert(locals(dirs@) =~= Seq::<(Seq<char>, Seq<char>)>::empty());
    let found = match doc.get("dependencies") {
        Some(v) => v.as_object(),
        None => None,
    };
    let fields = match found {
        Some(fields) => fields,
        None => {
            return Ok((specs, dirs));
        },
    };
    proof {
        json::lemma_field_trees(fields@);
    }
    let ghost all = json::field_trees(fields@);
    let ghost skipped = texts(sources@);
    let mut i: usize = 0;
    while i < fields.len()
        invariant
            i <= fields@.len(),
            all == json::field_trees(fields@),
            all.len() == fields@.len(),
            skipped == texts(sources@),
            forall|j: int|
                0 <= j < fields@.len() ==> #[trigger] all[j] == (
                    fields@[j].0@,
                    fields@[j].1.tree(),
                ),
            (wanted(specs@), locals(dirs@)) == composition(base@, skipped, all.take(i as int)),
        decreases fields@.len() - i,
    {
        proof {
            let grown = all.take(i + 1);
            assert(grown.drop_last() =~= all.take(i as int));
            assert(all[i as int] == (fields@[i as int].0@, fields@[i as int].1.tree()));
        }
        let name = fields[i].0.as_str();
        if let Some(value) = fields[i].1.as_str() {
            if !text::listed(&sources, name) {
                if let Some(rel) = local_path_dep(value) {
                    let dep = LocalDep {
                        name: name.to_owned(),
                        dir: path::join(base.as_str(), rel.as_str()),
                    };
                    let ghost kept = dirs@;
                    dirs.push(dep);
                    assert(locals(dirs@) =~= locals(kept).push((dep.name@, dep.dir@)));
                } else if is_tarball_url(value) {
                    let spec = PackageSpec::tarball(name, value);
                    proof {
                        lemma_wanted_push(specs@, spec);
                    }
                    specs.push(spec);
                } else if let Some((repo, reference)) = parse_github_dep(value) {
                    let spec = PackageSpec::git(repo.as_str(), reference.as_str());
                    proof {
                        lemma_wanted_push(specs@, spec);
                    }
                    specs.push(spec);
                } else if !is_unsupported_protocol(value) {
                    let spec = PackageSpec::npm(name, value);
                    proof {
                        lemma_wanted_push(specs@, spec);
                    }
                    specs.push(spec);
                }
            }
        }
        i += 1;
    }
    assert(all.take(fields@.len() as int) =~= all);
    Ok((specs, dirs))
}

// ---------------------------------------------------------------------------
// Nothing twice
// ---------------------------------------------------------------------------

/// No name stands twice, and none of them is a source dependency.
spec fn single(list: Seq<(Seq<char>, Option<Wanted>)>, sources: Seq<Seq<char>>) -> bool {
    &&& forall|i: int, j: int|
        0 <= i < j < list.len() ==> (#[trigger] list[i]).0 != (#[trigger] list[j]).0
    &&& forall|i: int| 0 <= i < list.len() ==> !sources.contains((#[trigger] list[i]).0)
}

proof fn lemma_fields_single(
    list: Seq<(Seq<char>, Option<Wanted>)>,
    sources: Seq<Seq<char>>,
    fields: Seq<(Seq<char>, Tree)>,
)
    requires
        single(list, sources),
    ensures
        single(with_fields(list, sources, fields), sources),
    decreases fields.len(),
{
    if fields.len() > 0 {
        lemma_fields_single(list, sources, fields.drop_last());
        let before = with_fields(list, sources, fields.drop_last());
        let after = with_fields(list, sources, fields);
        if after != before {
            assert forall|i: int, j: int| 0 <= i < j < after.len() implies (
            #[trigger] after[i]).0 != (#[trigger] after[j]).0 by {
                assert(after[i] == before[i]);
                if j < before.len() {
                    assert(after[j] == before[j]);
                }
            }
            assert forall|i: int| 0 <= i < after.len() implies !sources.contains(
                (#[trigger] after[i]).0,
            ) by {
                if i < before.len() {
                    assert(after[i] == before[i]);
                }
            }
        }
    }
}

/// A dependency is vended at most once, as the first section that names it says, and a source
/// dependency, which its own spec carries, is not vended by a section at all.
pub proof fn law_sections_vend_once(doc: Tree, sources: Seq<Seq<char>>, sections: Seq<Seq<char>>)
    ensures
        ({
            let list = with_sections(doc, sources, sections);
            &&& forall|i: int, j: int|
                0 <= i < j < list.len() ==> (#[trigger] list[i]).0 != (#[trigger] list[j]).0
            &&& forall|i: int| 0 <= i < list.len() ==> !sources.contains((#[trigger] list[i]).0)
        }),
    decreases sections.len(),
{
    if sections.len() > 0 {
        law_sections_vend_once(doc, sources, sections.drop_last());
        let before = with_sections(doc, sources, sections.drop_last());
        if let Some(Tree::Object(fields)) = json::field(doc, sections.last()) {
            lemma_fields_single(before, sources, fields);
        }
    }
}

/// The source list has one spec for each listed name, in the order of the list, and each is
/// named by its key and taken as sources.
pub proof fn law_source_list_is_complete(path: Seq<char>, doc: Tree, names: Seq<Seq<char>>)
    ensures
        source_specs(path, doc, names) matches Ok(specs) ==> {
            &&& specs.len() == names.len()
            &&& forall|i: int|
                0 <= i < names.len() ==> (#[trigger] specs[i]).dir == names[i] && source_spec(
                    path,
                    doc,
                    names[i],
                ) == Ok::<Wanted, Failure>(specs[i])
        },
    decreases names.len(),
{
    if names.len() > 0 {
        let front = names.drop_last();
        law_source_list_is_complete(path, doc, front);
        if let Ok(specs) = source_specs(path, doc, names) {
            let before = source_specs(path, doc, front)->Ok_0;
            assert forall|i: int| 0 <= i < names.len() implies (#[trigger] specs[i]).dir == names[i]
                && source_spec(path, doc, names[i]) == Ok::<Wanted, Failure>(specs[i]) by {
                if i < front.len() {
                    assert(before[i] == specs[i]);
                    assert(front[i] == names[i]);
                }
            }
        }
    }
}

/// The dependency `name` asks for a spec.
pub open spec fn asks(doc: Tree, name: Seq<char>, spec: Wanted) -> bool {
    json::text_of(json::field2(doc, "dependencies"@, name)) matches Some(value) && dependency(
        name,
        value,
    ) == Some(spec)
}

/// A dependency that is no source dependency asks for a spec.
pub open spec fn asked_beside(doc: Tree, sources: Seq<Seq<char>>, spec: Wanted) -> bool {
    exists|name: Seq<char>| !sources.contains(name) && #[trigger] asks(doc, name, spec)
}

/// What the whitelist vends never comes from a source dependency: listed there or not, it is
/// fetched as sources and not a second time.
pub proof fn law_whitelist_leaves_sources_out(
    path: Seq<char>,
    doc: Tree,
    sources: Seq<Seq<char>>,
    items: Seq<Tree>,
)
    ensures
        whitelisted(path, doc, sources, items) matches Ok(specs) ==> forall|k: int|
            0 <= k < specs.len() ==> asked_beside(doc, sources, #[trigger] specs[k]),
    decreases items.len(),
{
    if items.len() > 0 {
        let front = items.drop_last();
        law_whitelist_leaves_sources_out(path, doc, sources, front);
        if let Ok(specs) = whitelisted(path, doc, sources, items) {
            let before = whitelisted(path, doc, sources, front)->Ok_0;
            assert forall|k: int| 0 <= k < specs.len() implies asked_beside(
                doc,
                sources,
                #[trigger] specs[k],
            ) by {
                if k < before.len() {
                    assert(before[k] == specs[k]);
                } else {
                    let name = items.last()->Text_0;
                    assert(asks(doc, name, specs[k]));
                }
            }
        }
    }
}

/// A field that is no source dependency asks for a spec.
pub open spec fn field_asks(
    sources: Seq<Seq<char>>,
    field: (Seq<char>, Tree),
    spec: Wanted,
) -> bool {
    &&& !sources.contains(field.0)
    &&& field.1 matches Tree::Text(value) && composed(field.0, value) == Composed::Package(spec)
}

/// What a composition vends or mounts never comes from a source dependency.
pub proof fn law_composition_leaves_sources_out(
    base: Seq<char>,
    sources: Seq<Seq<char>>,
    fields: Seq<(Seq<char>, Tree)>,
)
    ensures
        ({
            let (specs, dirs) = composition(base, sources, fields);
            &&& forall|k: int|
                0 <= k < specs.len() ==> exists|i: int|
                    0 <= i < fields.len() && field_asks(
                        sources,
                        #[trigger] fields[i],
                        #[trigger] specs[k],
                    )
            &&& forall|k: int| 0 <= k < dirs.len() ==> !sources.contains((#[trigger] dirs[k]).0)
        }),
    decreases fields.len(),
{
    if fields.len() > 0 {
        let front = fields.drop_last();
        law_composition_leaves_sources_out(base, sources, front);
        let (specs, dirs) = composition(base, sources, fields);
        let (before, _) = composition(base, sources, front);
        assert forall|k: int| 0 <= k < specs.len() implies exists|i: int|
            0 <= i < fields.len() && field_asks(sources, #[trigger] fields[i], #[trigger] specs[k]) by {
            if k < before.len() {
                assert(before[k] == specs[k]);
                let i = choose|i: int|
                    0 <= i < front.len() && field_asks(sources, #[trigger] front[i], before[k]);
                assert(fields[i] == front[i]);
            } else {
                assert(field_asks(sources, fields[fields.len() - 1], specs[k]));
            }
        }
        let (_, kept) = composition(base, sources, front);
        assert forall|k: int| 0 <= k < dirs.len() implies !sources.contains(
            (#[trigger] dirs[k]).0,
        ) by {
            if k < kept.len() {
                assert(kept[k] == dirs[k]);
            }
        }
    }
}

// ---------------------------------------------------------------------------
// Laws on one dependency value
// ---------------------------------------------------------------------------

/// The reference of a GitHub dependency is the text behind the first `#` of its value, and the
/// default branch only where there is no `#`. White space around the value does not count.
pub proof fn law_git_reference_is_kept(name: Seq<char>, value: Seq<char>)
    ensures
        ({
            let v = text::trimmed(value, text::white());
            dependency(name, value) matches Some(w) ==> (w.source matches Origin::Git {
                reference,
                ..
            } ==> {
                &&& !v.contains('#') ==> reference == "HEAD"@
                &&& forall|i: int|
                    0 <= i < v.len() && #[trigger] v[i] == '#' && !v.take(i).contains('#')
                        ==> reference == v.skip(i + 1)
            })
        }),
        ({
            let v = text::trimmed(value, text::white());
            github_dep(value) matches Some((_, reference)) ==> {
                &&& !v.contains('#') ==> reference == "HEAD"@
                &&& forall|i: int|
                    0 <= i < v.len() && #[trigger] v[i] == '#' && !v.take(i).contains('#')
                        ==> reference == v.skip(i + 1)
            }
        }),
{
    let v = text::trimmed(value, text::white());
    lemma_git_halves(v, value);
}

proof fn lemma_git_halves(v: Seq<char>, value: Seq<char>)
    requires
        v == text::trimmed(value, text::white()),
    ensures
        !v.contains('#') ==> git_halves(value).1 == "HEAD"@,
        forall|i: int|
            0 <= i < v.len() && #[trigger] v[i] == '#' && !v.take(i).contains('#')
                ==> git_halves(value).1 == v.skip(i + 1),
{
    reveal_strlit("git+");
    let bare = match text::without_prefix(v, "git+"@) {
        Some(rest) => rest,
        None => v,
    };
    let n = v.len() - bare.len();
    text::law_cut(bare, '#');
    assert(bare =~= v.skip(n));
    if n > 0 {
        assert(v.subrange(0, 4) == "git+"@);
        assert(v[0] == v.subrange(0, 4)[0] && v[1] == v.subrange(0, 4)[1] && v[2] == v.subrange(
            0,
            4,
        )[2] && v[3] == v.subrange(0, 4)[3]);
    }
    if !v.contains('#') {
        assert(!bare.contains('#')) by {
            if bare.contains('#') {
                let k = bare.index_of('#');
                assert(v[n + k] == '#');
            }
        }
        if let Some((head, _)) = text::cut(bare, '#') {
            assert(bare[head.len() as int] == '#');
        }
    }
    assert forall|i: int|
        0 <= i < v.len() && #[trigger] v[i] == '#' && !v.take(i).contains('#') implies git_halves(
        value,
    ).1 == v.skip(i + 1) by {
        assert(i >= n);
        assert(bare[i - n] == '#');
        let (head, tail) = text::cut(bare, '#')->0;
        if head.len() < i - n {
            assert(bare[head.len() as int] == '#');
            assert(v.take(i)[n + head.len()] == '#');
        } else if head.len() > i - n {
            assert(head[i - n] == '#');
        }
        assert(tail =~= bare.skip(i - n + 1));
        assert(tail =~= v.skip(i + 1));
    }
}

/// A text that can stand for an owner or a repository: it is not empty, and holds neither of the
/// marks that end one.
pub open spec fn plain_name(s: Seq<char>) -> bool {
    s.len() > 0 && !s.contains('/') && !s.contains('#')
}

proof fn lemma_repository(value: Seq<char>, locator: Seq<char>, owner: Seq<char>, repo: Seq<char>)
    requires
        plain_name(owner),
        plain_name(repo),
        !".git"@.is_suffix_of(owner + "/"@ + repo),
        git_halves(value).0 == locator,
        host_path(locator) == Some(owner + "/"@ + repo) || host_path(locator) == Some(
            owner + "/"@ + repo + ".git"@,
        ),
    ensures
        github_dep(value) == Some((owner + "/"@ + repo, git_halves(value).1)),
{
    reveal_strlit("/");
    reveal_strlit(".git");
    let whole = owner + "/"@ + repo;
    text::law_trimmed_suffix(whole, ".git"@);
    assert(whole[0] == owner[0] && whole.last() == repo.last());
    assert(owner.contains(owner[0]) && repo.contains(repo.last()));
    assert(!"/"@.contains(whole[0]) && !"/"@.contains(whole.last())) by {
        assert forall|k: int| 0 <= k < "/"@.len() implies "/"@[k] == '/' by {}
    }
    text::law_trimming_leaves_alone(whole, "/"@);
    assert(whole =~= owner.push('/') + repo);
    text::law_cut_undoes_joining(owner, '/', repo);
    text::law_cut(repo, '/');
    if let Some((h, t)) = text::cut(repo, '/') {
        assert(repo[h.len() as int] == '/');
    }
}

/// A GitHub dependency names its repository, whichever way it is written: behind `github:`, or at
/// an address of the host, with `git+` and `.git` or without them. Its reference is what follows
/// the `#`.
pub proof fn law_repository_is_found(owner: Seq<char>, repo: Seq<char>, reference: Seq<char>)
    requires
        plain_name(owner),
        plain_name(repo),
        owner[0] != ':',
        !".git"@.is_suffix_of(owner + "/"@ + repo),
        reference.len() > 0,
        !text::white().contains(reference.last()),
    ensures
        ({
            let whole = owner + "/"@ + repo;
            &&& github_dep("github:"@ + whole + "#"@ + reference) == Some((whole, reference))
            &&& github_dep("https://github.com/"@ + whole + "#"@ + reference) == Some(
                (whole, reference),
            )
            &&& github_dep("https://github.com/"@ + whole + ".git"@ + "#"@ + reference) == Some(
                (whole, reference),
            )
            &&& github_dep("git+https://github.com/"@ + whole + "#"@ + reference) == Some(
                (whole, reference),
            )
            &&& github_dep("git+https://github.com/"@ + whole + ".git"@ + "#"@ + reference) == Some(
                (whole, reference),
            )
        }),
{
    let whole = owner + "/"@ + repo;
    let suffixed = whole + ".git"@;
    lemma_address("github:"@, whole, owner, repo, reference);
    lemma_address("https://github.com/"@, whole, owner, repo, reference);
    lemma_address("https://github.com/"@, suffixed, owner, repo, reference);
    reveal_strlit("git+https://github.com/");
    reveal_strlit("https://github.com/");
    reveal_strlit("git+");
    let plus = "git+https://github.com/"@;
    assert(plus =~= "git+"@ + "https://github.com/"@);
    let a = "https://github.com/"@ + whole + "#"@ + reference;
    let b = "https://github.com/"@ + suffixed + "#"@ + reference;
    assert(plus + whole + "#"@ + reference =~= "git+"@ + a);
    assert(plus + suffixed + "#"@ + reference =~= "git+"@ + b);
    lemma_git_plus(a);
    lemma_git_plus(b);
    assert("https://github.com/"@ + whole + ".git"@ =~= "https://github.com/"@ + suffixed);
    assert(plus + whole + ".git"@ =~= plus + suffixed);
}

/// `git+` before a value that does not itself begin with it says nothing more.
proof fn lemma_git_plus(value: Seq<char>)
    requires
        value.len() > 0,
        value[0] == 'h',
        !text::white().contains(value.last()),
    ensures
        github_dep("git+"@ + value) == github_dep(value),
{
    reveal_strlit("git+");
    lemma_letters_are_not_white();
    let more = "git+"@ + value;
    assert(more[0] == 'g' && more.last() == value.last());
    text::law_trimming_leaves_alone(value, text::white());
    text::law_trimming_leaves_alone(more, text::white());
    assert("git+"@ =~= more.subrange(0, 4));
    assert(more.skip(4) =~= value);
    assert(!"git+"@.is_prefix_of(value)) by {
        if "git+"@.is_prefix_of(value) {
            assert(value.subrange(0, 4)[0] == 'g');
        }
    }
}

proof fn lemma_letters_are_not_white()
    ensures
        !text::white().contains('g'),
        !text::white().contains('h'),
{
    reveal_strlit(
        "\t\n\u{b}\u{c}\r \u{85}\u{a0}\u{1680}\u{2000}\u{2001}\u{2002}\u{2003}\u{2004}\u{2005}\u{2006}\u{2007}\u{2008}\u{2009}\u{200a}\u{2028}\u{2029}\u{202f}\u{205f}\u{3000}",
    );
}

proof fn lemma_address(
    prefix: Seq<char>,
    path: Seq<char>,
    owner: Seq<char>,
    repo: Seq<char>,
    reference: Seq<char>,
)
    requires
        prefix == "github:"@ || prefix == "https://github.com/"@,
        plain_name(owner),
        plain_name(repo),
        owner[0] != ':',
        !".git"@.is_suffix_of(owner + "/"@ + repo),
        path == owner + "/"@ + repo || path == owner + "/"@ + repo + ".git"@,
        reference.len() > 0,
        !text::white().contains(reference.last()),
    ensures
        github_dep(prefix + path + "#"@ + reference) == Some((owner + "/"@ + repo, reference)),
{
    reveal_strlit("github:");
    reveal_strlit("https://github.com/");
    reveal_strlit("github.com");
    reveal_strlit("git+");
    reveal_strlit("#");
    reveal_strlit("/");
    reveal_strlit(":/");
    reveal_strlit(".git");
    lemma_letters_are_not_white();
    let locator = prefix + path;
    let value = locator + "#"@ + reference;
    assert(value[0] == 'g' || value[0] == 'h');
    assert(value.last() == reference.last());
    text::law_trimming_leaves_alone(value, text::white());
    assert(!"git+"@.is_prefix_of(value)) by {
        if "git+"@.is_prefix_of(value) {
            assert(value.subrange(0, 4)[0] == 'g' && value.subrange(0, 4)[3] == '+');
            assert(value[3] == '+');
        }
    }
    assert(!locator.contains('#')) by {
        assert forall|i: int| 0 <= i < locator.len() implies locator[i] != '#' by {
            if i < prefix.len() {
                assert(locator[i] == prefix[i]);
            } else {
                let k = i - prefix.len();
                assert(locator[i] == path[k]);
                if k < owner.len() {
                    assert(path[k] == owner[k]);
                    assert(owner.contains(owner[k]));
                } else if k > owner.len() && k < owner.len() + 1 + repo.len() {
                    assert(path[k] == repo[k - owner.len() - 1]);
                    assert(repo.contains(repo[k - owner.len() - 1]));
                }
            }
        }
    }
    assert(value =~= locator.push('#') + reference);
    text::law_cut_undoes_joining(locator, '#', reference);
    assert(git_halves(value) == (locator, reference));
    assert(owner.contains(owner[0]));
    assert(path[0] == owner[0]);
    if prefix == "github:"@ {
        assert(prefix =~= locator.subrange(0, 7));
        assert(locator.skip(7) =~= path);
    } else {
        assert(!"github:"@.is_prefix_of(locator)) by {
            if "github:"@.is_prefix_of(locator) {
                assert(locator.subrange(0, 7)[0] == 'g');
            }
        }
        text::lemma_find_from(locator, "github.com"@, 0);
        assert("github.com"@ =~= locator.subrange(8, 18));
        assert(text::occurs_at(locator, "github.com"@, 8));
        assert forall|j: int| 0 <= j < 8 implies !text::occurs_at(
            locator,
            "github.com"@,
            j,
        ) by {
            if text::occurs_at(locator, "github.com"@, j) {
                assert(locator.subrange(j, j + 10)[0] == 'g');
                assert(locator[j] == prefix[j]);
            }
        }
        assert(text::find_from(locator, "github.com"@, 0) == Some(8int));
        let rest = locator.skip(18);
        assert(rest =~= "/"@ + path);
        reveal_with_fuel(text::trimmed_start, 2);
        assert(":/"@.contains(":/"@[1]));
        assert(rest.drop_first() =~= path);
        assert(!":/"@.contains(path[0])) by {
            assert forall|k: int| 0 <= k < ":/"@.len() implies ":/"@[k] != path[0] by {}
        }
        assert(text::trimmed_start(rest, ":/"@) == path);
    }
    lemma_repository(value, locator, owner, repo);
}

/// What a dependency is, by its value. A local path asks for nothing. A packed tarball over https is
/// that tarball, also on the host. A value that names neither is a range of the registry, verbatim,
/// under the dependency's own name.
pub proof fn law_dependency_kinds(name: Seq<char>, value: Seq<char>)
    ensures
        "file:"@.is_prefix_of(value) || "link:"@.is_prefix_of(value) || "workspace:"@.is_prefix_of(
            value,
        ) || "portal:"@.is_prefix_of(value) ==> dependency(name, value) is None,
        dependency(name, value) is None ==> "file:"@.is_prefix_of(value) || "link:"@.is_prefix_of(
            value,
        ) || "workspace:"@.is_prefix_of(value) || "portal:"@.is_prefix_of(value),
        "https://"@.is_prefix_of(value) && (".tgz"@.is_suffix_of(value) || ".tar.gz"@.is_suffix_of(
            value,
        )) ==> (dependency(name, value) matches Some(w) && w.source == (Origin::Tarball {
            name,
            url: value,
        }) && w.dir == name),
        dependency(name, value) matches Some(w) ==> (w.source matches Origin::Npm {
            package,
            range,
        } ==> package == name && range == value && w.dir == name),
        dependency(name, value) matches Some(w) ==> (w.source is Tarball
            ==> "https://"@.is_prefix_of(value)),
        dependency(name, value) matches Some(w) ==> (w.source is Git ==> github_dep(value)
            is Some),
        !local_protocol(value) && !tarball_url(value) ==> (github_dep(value) matches Some(
            (repo, reference),
        ) ==> (dependency(name, value) matches Some(w) && (w.source matches Origin::Git {
            reference: at,
            ..
        } && at == reference))),
{
    reveal_strlit("https://");
    reveal_strlit("file:");
    reveal_strlit("link:");
    reveal_strlit("workspace:");
    reveal_strlit("portal:");
    if "https://"@.is_prefix_of(value) && local_protocol(value) {
        assert(value.subrange(0, 8)[0] == 'h');
        if "file:"@.is_prefix_of(value) {
            assert(value.subrange(0, 5)[0] == 'f');
        } else if "link:"@.is_prefix_of(value) {
            assert(value.subrange(0, 5)[0] == 'l');
        } else if "workspace:"@.is_prefix_of(value) {
            assert(value.subrange(0, 10)[0] == 'w');
        } else {
            assert(value.subrange(0, 7)[0] == 'p');
        }
    }
}

/// A value that does not name the host is no GitHub dependency: it is a range of the registry.
pub proof fn law_ranges_are_kept_verbatim(name: Seq<char>, value: Seq<char>)
    requires
        !text::has(value, "github"@),
        !local_protocol(value),
        !tarball_url(value),
    ensures
        dependency(name, value) == Some(npm_package(name, value)),
        (npm_package(name, value).source matches Origin::Npm { package, range } && package == name
            && range == value),
{
    reveal_strlit("github");
    reveal_strlit("github:");
    reveal_strlit("github.com");
    reveal_strlit("git+");
    let locator = git_halves(value).0;
    let start = lemma_locator_within(value);
    text::lemma_find_from(locator, "github.com"@, 0);
    if "github:"@.is_prefix_of(locator) {
        assert(value.subrange(start, start + 6) =~= "github"@) by {
            assert forall|k: int| 0 <= k < 6 implies value[start + k] == "github"@[k] by {
                assert(locator.subrange(0, 7)[k] == "github:"@[k]);
            }
        }
        assert(text::occurs_at(value, "github"@, start));
    }
    if let Some(i) = text::find_from(locator, "github.com"@, 0) {
        assert(value.subrange(start + i, start + i + 6) =~= "github"@) by {
            assert forall|k: int| 0 <= k < 6 implies value[start + i + k] == "github"@[k] by {
                assert(locator.subrange(i, i + 10)[k] == "github.com"@[k]);
            }
        }
        assert(text::occurs_at(value, "github"@, start + i));
    }
}

/// What locates a repository is a part of the value.
proof fn lemma_locator_within(value: Seq<char>) -> (start: int)
    ensures
        0 <= start,
        start + git_halves(value).0.len() <= value.len(),
        git_halves(value).0 == value.subrange(start, start + git_halves(value).0.len()),
{
    reveal_strlit("git+");
    let front = text::trimmed_start(value, text::white());
    let v = text::trimmed(value, text::white());
    text::law_trimmed_start(value, text::white());
    text::law_trimmed_end(front, text::white());
    let a = value.len() - front.len();
    let bare = match text::without_prefix(v, "git+"@) {
        Some(rest) => rest,
        None => v,
    };
    let b = v.len() - bare.len();
    text::law_cut(bare, '#');
    let locator = git_halves(value).0;
    assert(locator =~= bare.take(locator.len() as int));
    assert(locator =~= value.subrange(a + b, a + b + locator.len()));
    a + b
}

/// A source dependency is its repository at its reference, taken as sources under the name that the
/// manifest gives it; what is not on the host is refused.
pub proof fn law_source_dependency(path: Seq<char>, doc: Tree, name: Seq<char>, value: Seq<char>)
    requires
        json::field2(doc, "dependencies"@, name) == Some(Tree::Text(value)),
    ensures
        github_dep(value) is None ==> source_spec(path, doc, name) is Err,
        github_dep(value) matches Some((repo, reference)) ==> (source_spec(path, doc, name) matches Ok(
            w,
        ) && w.dir == name && w.compile && w.extract == Mode::Filter(Keep::Sources) && w.imports
            is Auto && w.dest is None && (w.source matches Origin::Git { reference: at, .. } && at
            == reference)),
{
}

/// A dependency that is composed is a directory to mount when its value is a local path, and that
/// path; else the package that it is when it is vended alone, unless its protocol is left to others.
pub proof fn law_composed_kinds(name: Seq<char>, value: Seq<char>, rest: Seq<char>)
    ensures
        composed(name, "file:"@ + rest) == Composed::Local(rest),
        composed(name, "link:"@ + rest) == Composed::Local(rest),
        composed(name, "./"@ + rest) == Composed::Local("./"@ + rest),
        composed(name, "../"@ + rest) == Composed::Local("../"@ + rest),
        !"./"@.is_prefix_of(value) && !"../"@.is_prefix_of(value) && !"file:"@.is_prefix_of(value)
            && !"link:"@.is_prefix_of(value) ==> !(composed(name, value) is Local),
        composed(name, value) matches Composed::Package(w) ==> (dependency(name, value) matches Some(
            x,
        ) ==> w == x),
        composed(name, value) is Skipped ==> "workspace:"@.is_prefix_of(value)
            || "portal:"@.is_prefix_of(value) || "npm:"@.is_prefix_of(value),
        ("workspace:"@.is_prefix_of(value) || "portal:"@.is_prefix_of(value) || "npm:"@.is_prefix_of(
            value,
        )) && github_dep(value) is None ==> composed(name, value) is Skipped,
{
    reveal_strlit("file:");
    reveal_strlit("link:");
    reveal_strlit("./");
    reveal_strlit("../");
    reveal_strlit("workspace:");
    reveal_strlit("portal:");
    reveal_strlit("npm:");
    reveal_strlit("https://");
    let a = "file:"@ + rest;
    let b = "link:"@ + rest;
    let c = "./"@ + rest;
    let d = "../"@ + rest;
    assert(a.subrange(0, 5) =~= "file:"@);
    assert(a.skip(5) =~= rest);
    assert(b.subrange(0, 5) =~= "link:"@);
    assert(b.skip(5) =~= rest);
    assert(b[0] == 'l' && c[0] == '.' && d[0] == '.');
    assert(c.subrange(0, 2) =~= "./"@);
    assert(d.subrange(0, 3) =~= "../"@);
    lemma_prefix_first(a, "file:"@);
    lemma_prefix_first(b, "file:"@);
    lemma_prefix_first(c, "file:"@);
    lemma_prefix_first(d, "file:"@);
    lemma_prefix_first(c, "link:"@);
    lemma_prefix_first(d, "link:"@);
    lemma_prefix_first(value, "workspace:"@);
    lemma_prefix_first(value, "portal:"@);
    lemma_prefix_first(value, "npm:"@);
    lemma_prefix_first(value, "https://"@);
    lemma_prefix_first(value, "file:"@);
    lemma_prefix_first(value, "link:"@);
    lemma_prefix_first(value, "./"@);
    lemma_prefix_first(value, "../"@);
}

proof fn lemma_prefix_first(s: Seq<char>, prefix: Seq<char>)
    requires
        prefix.len() > 0,
    ensures
        prefix.is_prefix_of(s) ==> s.len() > 0 && s[0] == prefix[0],
{
    if prefix.is_prefix_of(s) {
        assert(s.subrange(0, prefix.len() as int)[0] == prefix[0]);
    }
}

// ---------------------------------------------------------------------------
// Laws on what a manifest asks for
// ---------------------------------------------------------------------------

/// A named dependency is in a list with what it asks for.
pub open spec fn listed_as(
    list: Seq<(Seq<char>, Option<Wanted>)>,
    name: Seq<char>,
    asked: Option<Wanted>,
) -> bool {
    exists|k: int| 0 <= k < list.len() && #[trigger] list[k] == (name, asked)
}

/// Fields are added behind a list, which stays as it is.
proof fn lemma_fields_behind(
    list: Seq<(Seq<char>, Option<Wanted>)>,
    sources: Seq<Seq<char>>,
    fields: Seq<(Seq<char>, Tree)>,
)
    ensures
        list.len() <= with_fields(list, sources, fields).len(),
        forall|k: int|
            0 <= k < list.len() ==> list[k] == #[trigger] with_fields(list, sources, fields)[k],
    decreases fields.len(),
{
    if fields.len() > 0 {
        lemma_fields_behind(list, sources, fields.drop_last());
        let before = with_fields(list, sources, fields.drop_last());
        let all = with_fields(list, sources, fields);
        assert forall|k: int| 0 <= k < list.len() implies list[k] == #[trigger] all[k] by {
            assert(list[k] == before[k]);
        }
    }
}

/// A field that is the first to name its package, and no source dependency, is listed with what its
/// value asks for.
proof fn lemma_field_is_listed(
    list: Seq<(Seq<char>, Option<Wanted>)>,
    sources: Seq<Seq<char>>,
    fields: Seq<(Seq<char>, Tree)>,
    i: int,
    value: Seq<char>,
)
    requires
        0 <= i < fields.len(),
        fields[i].1 == Tree::Text(value),
        !sources.contains(fields[i].0),
        !named_in(list, fields[i].0),
        forall|j: int|
            0 <= j < i ==> (#[trigger] fields[j]).0 != fields[i].0 || !(fields[j].1 is Text),
    ensures
        listed_as(
            with_fields(list, sources, fields),
            fields[i].0,
            dependency(fields[i].0, value),
        ),
    decreases fields.len(),
{
    let front = fields.drop_last();
    let before = with_fields(list, sources, front);
    let all = with_fields(list, sources, fields);
    if i == fields.len() - 1 {
        assert forall|j: int| 0 <= j < front.len() implies (#[trigger] front[j]).0 != fields[i].0
            || !(front[j].1 is Text) by {
            assert(front[j] == fields[j]);
        }
        lemma_unnamed_stays(list, sources, front, fields[i].0);
        assert(all[before.len() as int] == (fields[i].0, dependency(fields[i].0, value)));
    } else {
        assert(front[i] == fields[i]);
        assert forall|j: int| 0 <= j < i implies (#[trigger] front[j]).0 != front[i].0 || !(
        front[j].1 is Text) by {
            assert(front[j] == fields[j]);
        }
        lemma_field_is_listed(list, sources, front, i, value);
        let k = choose|k: int|
            0 <= k < before.len() && #[trigger] before[k] == (
                fields[i].0,
                dependency(fields[i].0, value),
            );
        assert(all[k] == before[k]);
    }
}

proof fn lemma_unnamed_stays(
    list: Seq<(Seq<char>, Option<Wanted>)>,
    sources: Seq<Seq<char>>,
    fields: Seq<(Seq<char>, Tree)>,
    name: Seq<char>,
)
    requires
        !named_in(list, name),
        forall|j: int|
            0 <= j < fields.len() ==> (#[trigger] fields[j]).0 != name || !(fields[j].1 is Text),
    ensures
        !named_in(with_fields(list, sources, fields), name),
    decreases fields.len(),
{
    if fields.len() > 0 {
        let front = fields.drop_last();
        assert forall|j: int| 0 <= j < front.len() implies (#[trigger] front[j]).0 != name || !(
        front[j].1 is Text) by {
            assert(front[j] == fields[j]);
        }
        lemma_unnamed_stays(list, sources, front, name);
        let before = with_fields(list, sources, front);
        let all = with_fields(list, sources, fields);
        assert(fields[fields.len() - 1] == fields.last());
        if named_in(all, name) {
            let k = choose|k: int| 0 <= k < all.len() && (#[trigger] all[k]).0 == name;
            if k < before.len() {
                assert(before[k] == all[k]);
            }
        }
    }
}

proof fn lemma_asked_is_unnamed(
    list: Seq<(Seq<char>, Option<Wanted>)>,
    name: Seq<char>,
    spec: Wanted,
)
    requires
        listed_as(list, name, Some(spec)),
    ensures
        unnamed(list).contains(spec),
    decreases list.len(),
{
    let k = choose|k: int| 0 <= k < list.len() && #[trigger] list[k] == (name, Some(spec));
    let front = list.drop_last();
    if k == list.len() - 1 {
        assert(unnamed(list)[unnamed(front).len() as int] == spec);
    } else {
        assert(front[k] == list[k]);
        lemma_asked_is_unnamed(front, name, spec);
        let m = unnamed(front).index_of(spec);
        assert(unnamed(list)[m] == spec);
    }
}

/// Without a whitelist every dependency is vended: the first field of `dependencies` to name a
/// package, unless it is a source dependency, with what its value asks for.
pub proof fn law_every_dependency_is_vended(
    path: Seq<char>,
    doc: Tree,
    sources: Seq<Seq<char>>,
    fields: Seq<(Seq<char>, Tree)>,
    i: int,
    value: Seq<char>,
    spec: Wanted,
)
    requires
        json::field2(doc, "web_modules"@, "webDependencies"@) is None,
        source_names(path, doc) == Ok::<Seq<Seq<char>>, Failure>(sources),
        json::field(doc, "dependencies"@) == Some(Tree::Object(fields)),
        0 <= i < fields.len(),
        fields[i].1 == Tree::Text(value),
        !sources.contains(fields[i].0),
        forall|j: int|
            0 <= j < i ==> (#[trigger] fields[j]).0 != fields[i].0 || !(fields[j].1 is Text),
        dependency(fields[i].0, value) == Some(spec),
    ensures
        manifest_specs(path, doc) matches Ok(specs) && specs.contains(spec),
{
    let sections = seq!["dependencies"@];
    reveal_with_fuel(with_sections, 2);
    assert(sections.drop_last() =~= Seq::<Seq<char>>::empty());
    let none = Seq::<(Seq<char>, Option<Wanted>)>::empty();
    assert(with_sections(doc, sources, sections) == with_fields(none, sources, fields));
    lemma_field_is_listed(none, sources, fields, i, value);
    lemma_asked_is_unnamed(with_fields(none, sources, fields), fields[i].0, spec);
}

/// The first section to name a package wins: a field of it that no earlier section names is listed
/// with what its value asks for, and later sections leave that alone.
pub proof fn law_earlier_section_wins(
    doc: Tree,
    sources: Seq<Seq<char>>,
    sections: Seq<Seq<char>>,
    s: int,
    fields: Seq<(Seq<char>, Tree)>,
    i: int,
    value: Seq<char>,
)
    requires
        0 <= s < sections.len(),
        json::field(doc, sections[s]) == Some(Tree::Object(fields)),
        0 <= i < fields.len(),
        fields[i].1 == Tree::Text(value),
        !sources.contains(fields[i].0),
        !named_in(with_sections(doc, sources, sections.take(s)), fields[i].0),
        forall|j: int|
            0 <= j < i ==> (#[trigger] fields[j]).0 != fields[i].0 || !(fields[j].1 is Text),
    ensures
        listed_as(
            with_sections(doc, sources, sections),
            fields[i].0,
            dependency(fields[i].0, value),
        ),
    decreases sections.len(),
{
    let front = sections.drop_last();
    let before = with_sections(doc, sources, front);
    let all = with_sections(doc, sources, sections);
    if s == sections.len() - 1 {
        assert(sections.take(s) =~= front);
        lemma_field_is_listed(before, sources, fields, i, value);
    } else {
        assert(front.take(s) =~= sections.take(s));
        law_earlier_section_wins(doc, sources, front, s, fields, i, value);
        let k = choose|k: int|
            0 <= k < before.len() && #[trigger] before[k] == (
                fields[i].0,
                dependency(fields[i].0, value),
            );
        if let Some(Tree::Object(more)) = json::field(doc, sections.last()) {
            lemma_fields_behind(before, sources, more);
        }
        assert(all[k] == before[k]);
    }
}

/// With a whitelist only what it names is vended, each name once, at the version that
/// `dependencies` gives it: a name that is listed, is no source dependency and asks for something
/// is vended, and a name that `dependencies` lacks is refused.
pub proof fn law_whitelist_is_vended(
    path: Seq<char>,
    doc: Tree,
    sources: Seq<Seq<char>>,
    items: Seq<Tree>,
    i: int,
    name: Seq<char>,
)
    requires
        0 <= i < items.len(),
        items[i] == Tree::Text(name),
    ensures
        json::text_of(json::field2(doc, "dependencies"@, name)) is None ==> whitelisted(
            path,
            doc,
            sources,
            items,
        ) is Err,
        json::text_of(json::field2(doc, "dependencies"@, name)) matches Some(value) ==> (
        dependency(name, value) matches Some(spec) ==> (!sources.contains(name) ==> (whitelisted(
            path,
            doc,
            sources,
            items,
        ) matches Ok(specs) ==> specs.contains(spec)))),
    decreases items.len(),
{
    let front = items.drop_last();
    if i == items.len() - 1 {
        if front.contains(Tree::Text(name)) {
            let j = front.index_of(Tree::Text(name));
            law_whitelist_is_vended(path, doc, sources, front, j, name);
        } else if let Some(value) = json::text_of(json::field2(doc, "dependencies"@, name)) {
            if let Some(spec) = dependency(name, value) {
                if whitelisted(path, doc, sources, items) is Ok && !sources.contains(name) {
                    let specs = whitelisted(path, doc, sources, items)->Ok_0;
                    assert(specs[specs.len() - 1] == spec);
                }
            }
        }
    } else {
        assert(front[i] == items[i]);
        law_whitelist_is_vended(path, doc, sources, front, i, name);
        if let Some(value) = json::text_of(json::field2(doc, "dependencies"@, name)) {
            if let Some(spec) = dependency(name, value) {
                if whitelisted(path, doc, sources, items) is Ok && !sources.contains(name) {
                    let specs = whitelisted(path, doc, sources, items)->Ok_0;
                    let before = whitelisted(path, doc, sources, front)->Ok_0;
                    let k = before.index_of(spec);
                    assert(specs[k] == spec);
                }
            }
        }
    }
}

/// The whitelist takes the place of the list of dependencies, and is refused when it is no list or
/// holds what is no name.
pub proof fn law_whitelist_decides(path: Seq<char>, doc: Tree, items: Seq<Tree>, i: int)
    ensures
        json::field2(doc, "web_modules"@, "webDependencies"@) matches Some(list) ==> !(list
            is Array) ==> manifest_specs(path, doc) is Err,
        json::field2(doc, "web_modules"@, "webDependencies"@) == Some(Tree::Array(items)) && 0 <= i
            < items.len() && !(items[i] is Text) ==> manifest_specs(path, doc) is Err,
{
    if json::field2(doc, "web_modules"@, "webDependencies"@) == Some(Tree::Array(items)) && 0 <= i
        < items.len() && !(items[i] is Text) {
        if let Ok(sources) = source_names(path, doc) {
            lemma_whitelist_of_names(path, doc, sources, items, i);
        }
    }
}

proof fn lemma_whitelist_of_names(
    path: Seq<char>,
    doc: Tree,
    sources: Seq<Seq<char>>,
    items: Seq<Tree>,
    i: int,
)
    requires
        0 <= i < items.len(),
        !(items[i] is Text),
    ensures
        whitelisted(path, doc, sources, items) is Err,
    decreases items.len(),
{
    if i < items.len() - 1 {
        assert(items.drop_last()[i] == items[i]);
        lemma_whitelist_of_names(path, doc, sources, items.drop_last(), i);
    }
}

/// A composition leaves nothing out: each dependency that is no source dependency is vended or
/// mounted as its value says, a directory below the one that the manifest is in.
pub proof fn law_composition_is_complete(
    base: Seq<char>,
    sources: Seq<Seq<char>>,
    fields: Seq<(Seq<char>, Tree)>,
    i: int,
    value: Seq<char>,
)
    requires
        0 <= i < fields.len(),
        fields[i].1 == Tree::Text(value),
        !sources.contains(fields[i].0),
    ensures
        composed(fields[i].0, value) matches Composed::Package(spec) ==> composition(
            base,
            sources,
            fields,
        ).0.contains(spec),
        composed(fields[i].0, value) matches Composed::Local(rel) ==> composition(
            base,
            sources,
            fields,
        ).1.contains((fields[i].0, path::under(base, rel))),
    decreases fields.len(),
{
    let front = fields.drop_last();
    let (specs, dirs) = composition(base, sources, fields);
    let (before, kept) = composition(base, sources, front);
    if i == fields.len() - 1 {
        match composed(fields[i].0, value) {
            Composed::Package(spec) => {
                assert(specs[before.len() as int] == spec);
            },
            Composed::Local(rel) => {
                assert(dirs[kept.len() as int] == (fields[i].0, path::under(base, rel)));
            },
            Composed::Skipped => {},
        }
    } else {
        assert(front[i] == fields[i]);
        law_composition_is_complete(base, sources, front, i, value);
        match composed(fields[i].0, value) {
            Composed::Package(spec) => {
                let k = before.index_of(spec);
                assert(specs[k] == spec);
            },
            Composed::Local(rel) => {
                let k = kept.index_of((fields[i].0, path::under(base, rel)));
                assert(dirs[k] == (fields[i].0, path::under(base, rel)));
            },
            Composed::Skipped => {},
        }
    }
}

/// The directory of a manifest is the one it is in, and the one without a name for a bare file name.
pub proof fn law_manifest_directory(dir: Seq<char>)
    requires
        path::ends_in_name(dir),
    ensures
        manifest_dir(dir + "/package.json"@) == dir,
        manifest_dir("package.json"@) == Seq::<char>::empty(),
{
    reveal_strlit("/package.json");
    reveal_strlit("package.json");
    reveal_strlit("/");
    reveal_strlit(".");
    reveal_strlit("..");
    assert(dir + "/package.json"@ =~= dir + "/"@ + "package.json"@);
    assert(path::proper_name("package.json"@)) by {
        assert("package.json"@.len() == 12 && "."@.len() == 1 && ".."@.len() == 2);
    }
    path::law_file_in_directory(dir, "package.json"@, Seq::empty(), "package.json"@);
    path::law_lone_name("package.json"@, Seq::empty());
}

/// An address in the form of a shell login, `git@github.com:owner/repo`, names its repository as
/// well, with `.git` or without it.
pub proof fn law_login_address(
    owner: Seq<char>,
    repo: Seq<char>,
    reference: Seq<char>,
    path: Seq<char>,
)
    requires
        plain_name(owner),
        plain_name(repo),
        owner[0] != ':',
        !".git"@.is_suffix_of(owner + "/"@ + repo),
        path == owner + "/"@ + repo || path == owner + "/"@ + repo + ".git"@,
        reference.len() > 0,
        !text::white().contains(reference.last()),
    ensures
        github_dep("git@github.com:"@ + path + "#"@ + reference) == Some(
            (owner + "/"@ + repo, reference),
        ),
{
    let prefix = "git@github.com:"@;
    reveal_strlit("git@github.com:");
    reveal_strlit("github:");
    reveal_strlit("github.com");
    reveal_strlit("git+");
    reveal_strlit("#");
    reveal_strlit("/");
    reveal_strlit(":/");
    reveal_strlit(".git");
    lemma_letters_are_not_white();
    let locator = prefix + path;
    let value = locator + "#"@ + reference;
    assert(value[0] == 'g' && value[3] == '@');
    assert(value.last() == reference.last());
    text::law_trimming_leaves_alone(value, text::white());
    assert(!"git+"@.is_prefix_of(value)) by {
        if "git+"@.is_prefix_of(value) {
            assert(value.subrange(0, 4)[3] == '+');
        }
    }
    assert(!locator.contains('#')) by {
        assert forall|i: int| 0 <= i < locator.len() implies locator[i] != '#' by {
            if i < prefix.len() {
                assert(locator[i] == prefix[i]);
            } else {
                let k = i - prefix.len();
                assert(locator[i] == path[k]);
                if k < owner.len() {
                    assert(path[k] == owner[k]);
                    assert(owner.contains(owner[k]));
                } else if k > owner.len() && k < owner.len() + 1 + repo.len() {
                    assert(path[k] == repo[k - owner.len() - 1]);
                    assert(repo.contains(repo[k - owner.len() - 1]));
                }
            }
        }
    }
    assert(value =~= locator.push('#') + reference);
    text::law_cut_undoes_joining(locator, '#', reference);
    assert(git_halves(value) == (locator, reference));
    assert(owner.contains(owner[0]));
    assert(path[0] == owner[0]);
    assert(!"github:"@.is_prefix_of(locator)) by {
        if "github:"@.is_prefix_of(locator) {
            assert(locator.subrange(0, 7)[3] == 'h');
            assert(locator[3] == '@');
        }
    }
    text::lemma_find_from(locator, "github.com"@, 0);
    assert("github.com"@ =~= locator.subrange(4, 14));
    assert(text::occurs_at(locator, "github.com"@, 4));
    assert forall|j: int| 0 <= j < 4 implies !text::occurs_at(locator, "github.com"@, j) by {
        if text::occurs_at(locator, "github.com"@, j) {
            assert(locator.subrange(j, j + 10)[0] == 'g');
            assert(locator.subrange(j, j + 10)[3] == 'h');
            assert(locator[j] == prefix[j] && locator[j + 3] == prefix[j + 3]);
        }
    }
    assert(text::find_from(locator, "github.com"@, 0) == Some(4int));
    let rest = locator.skip(14);
    assert(rest[0] == ':');
    reveal_with_fuel(text::trimmed_start, 2);
    assert(":/"@.contains(":/"@[0]));
    assert(rest.drop_first() =~= path);
    assert(!":/"@.contains(path[0])) by {
        assert forall|k: int| 0 <= k < ":/"@.len() implies ":/"@[k] != path[0] by {}
    }
    assert(text::trimmed_start(rest, ":/"@) == path);
    lemma_repository(value, locator, owner, repo);
}

} // verus!
