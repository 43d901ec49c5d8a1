//! What the library takes from `npm_utils`: the structural path check, the
//! GitHub archive address, version ranges, and the entries of a package manifest.

use vstd::prelude::*;

use npm_utils::package_json::spec::Range;

use crate::path;
use crate::path::Part;
use crate::text;

verus! {

/// A relative path that cannot leave the directory it is joined onto: not
/// empty, without a root or a `..`, and without a backslash in any name.
pub open spec fn within(relative: Seq<char>) -> bool {
    &&& relative.len() > 0
    &&& forall|i: int|
        0 <= i < path::parts(relative).len() ==> match #[trigger] path::parts(relative)[i] {
            Part::Here => true,
            Part::Name(name) => !name.contains('\\'),
            _ => false,
        }
}

/// What the check says of a path that is refused.
pub open spec fn unsafe_message(relative: Seq<char>) -> Seq<char> {
    "unsafe path "@ + text::debug_form(relative) + ": refuses to escape the destination"@
}

/// Calls `npm_utils::path_safety::ensure_within`: it accepts exactly the paths
/// that are [`within`], and its error reads [`unsafe_message`].
#[verifier::external_body]
pub(crate) fn ensure_within(relative: &str) -> (r: Result<(), String>)
    ensures
        match r {
            Ok(_) => within(relative@),
            Err(e) => !within(relative@) && e@ == unsafe_message(relative@),
        },
{
    npm_utils::path_safety::ensure_within(relative).map_err(|e| e.to_string())
}

/// Calls `npm_utils::download::github_archive_url`: the address of a
/// repository's archive at a reference.
#[verifier::external_body]
pub(crate) fn github_archive_url(owner: &str, repo: &str, reference: &str) -> (r: String)
    ensures
        r@ == "https://github.com/"@ + owner@ + "/"@ + repo@ + "/archive/"@ + reference@ + ".zip"@,
{
    npm_utils::download::github_archive_url(owner, repo, reference)
}

/// `npm_utils::package_json::spec::Range`, carried through as it is.
#[verifier::external_type_specification]
#[verifier::external_body]
pub struct ExRange(Range);

/// The version range that a text is, or the text of the complaint about it.
pub uninterp spec fn parsed_range(range: Seq<char>) -> Result<Range, Seq<char>>;

/// Calls `npm_utils::package_json::spec::Range::parse`: it gives the [`parsed_range`] of its
/// argument, or an error with the text of its complaint. The empty text, `*`, `x` and `latest`
/// are ranges.
#[verifier::external_body]
pub(crate) fn parse_range(range: &str) -> (r: Result<Range, String>)
    ensures
        match r {
            Ok(parsed) => parsed_range(range@) == Ok::<Range, Seq<char>>(parsed),
            Err(e) => parsed_range(range@) == Err::<Range, Seq<char>>(e@),
        },
        range@.len() == 0 || range@ == "*"@ || range@ == "x"@ || range@ == "latest"@ ==> r is Ok,
{
    Range::parse(range).map_err(|e| e.to_string())
}

/// An import-map-worthy entry of a package manifest.
#[derive(Debug, PartialEq, Eq)]
pub enum Entry {
    /// The bare specifier (`name`) to a target relative path (the `.` export).
    Bare(String),
    /// A concrete subpath (`name/<subpath>`) to a target relative path.
    Subpath { subpath: String, target: String },
    /// A subpath *pattern* (`"./…/*"` export): the prefix before `*`, and the
    /// target directory before `*`.
    Prefix { subpath: String, dir: String },
}

/// A manifest entry, as the contracts see it.
pub enum Export {
    Bare(Seq<char>),
    Subpath { subpath: Seq<char>, target: Seq<char> },
    Prefix { subpath: Seq<char>, dir: Seq<char> },
}

impl View for Entry {
    type V = Export;

    open spec fn view(&self) -> Export {
        match self {
            Entry::Bare(target) => Export::Bare(target@),
            Entry::Subpath { subpath, target } => Export::Subpath {
                subpath: subpath@,
                target: target@,
            },
            Entry::Prefix { subpath, dir } => Export::Prefix { subpath: subpath@, dir: dir@ },
        }
    }
}

/// The contents of a list of entries.
pub open spec fn exports(list: Seq<Entry>) -> Seq<Export> {
    Seq::new(list.len(), |i: int| list[i]@)
}

/// The contents of an optional list of entries.
pub open spec fn opt_exports(list: Option<&Vec<Entry>>) -> Option<Seq<Export>> {
    match list {
        Some(list) => Some(exports(list@)),
        None => None,
    }
}

/// The entries that `npm_utils` finds in a package manifest, or nothing when
/// the text is no manifest.
pub uninterp spec fn manifest_exports(manifest: Seq<char>) -> Option<Seq<Export>>;

/// Calls `npm_utils::package_json::PackageJson::from_json` and then `entries`:
/// the result is [`manifest_exports`] of the text.
#[verifier::external_body]
fn read_entries(manifest: &str) -> (r: Option<Vec<Entry>>)
    ensures
        match r {
            Some(list) => manifest_exports(manifest@) == Some(exports(list@)),
            None => manifest_exports(manifest@) is None,
        },
{
    let parsed = npm_utils::package_json::PackageJson::from_json(manifest).ok()?;
    Some(parsed.entries().into_iter().map(|entry| match entry {
        npm_utils::package_json::Entry::Bare(target) => Entry::Bare(target),
        npm_utils::package_json::Entry::Subpath { subpath, target } => Entry::Subpath { subpath, target },
        npm_utils::package_json::Entry::Prefix { subpath, dir } => Entry::Prefix { subpath, dir },
    }).collect())
}

/// The import-map-worthy entries of a package manifest, or nothing when the text is no
/// manifest.
pub fn manifest_entries(manifest: &str) -> (r: Option<Vec<Entry>>)
    ensures
        match r {
            Some(list) => manifest_exports(manifest@) == Some(exports(list@)),
            None => manifest_exports(manifest@) is None,
        },
{
    read_entries(manifest)
}

/// The path an entry refers to: its target, or its directory.
pub open spec fn reference(export: Export) -> Seq<char> {
    match export {
        Export::Bare(target) => target,
        Export::Subpath { target, .. } => target,
        Export::Prefix { dir, .. } => dir,
    }
}

/// Every relative path the entries refer to (concrete targets and pattern
/// directories): what has to be kept when vendoring, even under `src/`.
pub fn referenced_paths(entries: &Vec<Entry>) -> (r: Vec<String>)
    ensures
        text::texts(r@) == Seq::new(entries@.len(), |i: int| reference(entries@[i]@)),
{
    let mut out: Vec<String> = Vec::new();
    let mut i: usize = 0;
    while i < entries.len()
        invariant
            i <= entries@.len(),
            out@.len() == i,
            forall|j: int| 0 <= j < i ==> (#[trigger] out@[j])@ == reference(entries@[j]@),
        decreases entries@.len() - i,
    {
        let one = match &entries[i] {
            Entry::Bare(target) => target.clone(),
            Entry::Subpath { target, .. } => target.clone(),
            Entry::Prefix { dir, .. } => dir.clone(),
        };
        out.push(one);
        i += 1;
    }
    assert(text::texts(out@) =~= Seq::new(entries@.len(), |i: int| reference(entries@[i]@)));
    out
}

/// A relative path is accepted when it is not empty, names no root and no parent, and has no
/// backslash in any name.
pub proof fn law_within(relative: Seq<char>)
    ensures
        !within(Seq::empty()),
        path::rooted(relative) ==> !within(relative),
        path::parts(relative).contains(Part::Up) ==> !within(relative),
        relative.len() > 0 && (forall|i: int|
            0 <= i < path::parts(relative).len() ==> ((#[trigger] path::parts(relative)[i])
                matches Part::Name(name) && !name.contains('\\'))) ==> within(relative),
{
    if path::rooted(relative) {
        assert(path::parts(relative)[0] is Root);
    }
    if path::parts(relative).contains(Part::Up) {
        let k = choose|k: int|
            0 <= k < path::parts(relative).len() && path::parts(relative)[k] == Part::Up;
        assert(path::parts(relative)[k] is Up);
    }
}

} // verus!
