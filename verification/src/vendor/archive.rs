//! Where an archive's files go.

use vstd::prelude::*;

use crate::npm::{opt_exports, Entry, Export};
use crate::text;
use crate::text::opt_text;
use crate::vendor::keep;
use crate::vendor::keep::{kept_as_is, manifest_kept, source_kept};
use crate::vendor::spec::{Extract, Keep, Mode};

verus! {

/// The path of an archive entry inside the package. A GitHub archive carries a
/// single top-level `repo-<ref>/` directory, whose exact name depends on the ref:
/// it is taken off, and an entry that is nothing below it is no file of the package.
pub open spec fn inner(is_git: bool, entry: Seq<char>) -> Option<Seq<char>> {
    if !is_git {
        Some(entry)
    } else {
        match text::cut(entry, '/') {
            Some((_, rest)) => if rest.len() > 0 {
                Some(rest)
            } else {
                None
            },
            None => None,
        }
    }
}

/// Where a file of the package goes, relative to its destination, when it is kept.
/// `caller` is what the caller's own predicate says of the file.
pub open spec fn placed(
    mode: Mode,
    manifest: Option<Seq<Export>>,
    rel: Seq<char>,
    caller: Option<Seq<char>>,
) -> Option<Seq<char>> {
    match mode {
        Mode::BrowserAssets => kept_as_is(rel, manifest_kept(manifest, rel)),
        Mode::Full => Some(rel),
        Mode::File { from, to } => if rel == from {
            Some(to)
        } else {
            None
        },
        Mode::Filter(Keep::Sources) => kept_as_is(rel, source_kept(rel)),
        Mode::Filter(Keep::Caller) => caller,
    }
}

/// The path of an archive entry inside the package, or `None` when it is no file of it.
pub fn inner_path(is_git: bool, entry: &str) -> (r: Option<String>)
    ensures
        opt_text(r) == inner(is_git, entry@),
{
    if !is_git {
        return Some(entry.to_owned());
    }
    match text::split_once(entry, '/') {
        Some((_, rest)) => if rest.as_str().is_empty() {
            None
        } else {
            Some(rest)
        },
        None => None,
    }
}

/// Where a file of the package goes, relative to its destination, or `None` to drop it.
pub fn placed_path(
    extract: &Extract,
    manifest: Option<&Vec<Entry>>,
    rel: &str,
    caller: Option<String>,
) -> (r: Option<String>)
    ensures
        opt_text(r) == placed(extract@, opt_exports(manifest), rel@, opt_text(caller)),
{
    match extract {
        Extract::BrowserAssets => keep::keep_for(manifest, rel),
        Extract::Full => Some(rel.to_owned()),
        Extract::File { from, to } => if text::same(rel, from.as_str()) {
            Some(to.clone())
        } else {
            None
        },
        Extract::Filter(keep) => match keep {
            Keep::Sources => keep::keep_sources(rel),
            Keep::Caller => caller,
        },
    }
}

/// Where an archive entry goes, relative to the destination, or `None` to drop it.
/// `caller` is what the caller's own predicate says of the entry's
/// [`inner_path`]; the other modes do not read it.
pub fn extracted_path(
    extract: &Extract,
    is_git: bool,
    manifest: Option<&Vec<Entry>>,
    entry: &str,
    caller: Option<String>,
) -> (r: Option<String>)
    ensures
        opt_text(r) == (match inner(is_git, entry@) {
            Some(rel) => placed(extract@, opt_exports(manifest), rel, opt_text(caller)),
            None => None,
        }),
{
    match inner_path(is_git, entry) {
        Some(rel) => placed_path(extract, manifest, rel.as_str(), caller),
        None => None,
    }
}

/// Whether extracting clears the destination first. A whole-directory extract owns its
/// destination; a single-file extract may share one.
pub fn clears_destination(extract: &Extract) -> (r: bool)
    ensures
        r == !(extract@ is File),
        r == clears(extract@),
{
    match extract {
        Extract::File { .. } => false,
        _ => true,
    }
}

/// Whether the manifest is read before the rest of the archive: only browser-asset
/// extraction of a packed package goes by it.
pub fn reads_manifest_first(extract: &Extract, is_git: bool) -> (r: bool)
    ensures
        r == (!is_git && extract@ is BrowserAssets),
        r == manifest_first(extract@, is_git),
{
    match extract {
        Extract::BrowserAssets => !is_git,
        _ => false,
    }
}

/// A file that is kept keeps its place, except the one file of a single-file
/// extract and what a caller's predicate moves.
pub proof fn law_kept_files_stay_in_place(
    mode: Mode,
    manifest: Option<Seq<Export>>,
    rel: Seq<char>,
    caller: Option<Seq<char>>,
)
    requires
        !(mode is File),
        mode != Mode::Filter(Keep::Caller),
    ensures
        placed(mode, manifest, rel, caller) matches Some(p) ==> p == rel,
{
}

/// A manifest never makes browser-asset extraction keep less.
pub proof fn law_manifest_keeps_more(
    manifest: Seq<Export>,
    rel: Seq<char>,
    caller: Option<Seq<char>>,
)
    ensures
        placed(Mode::BrowserAssets, None, rel, caller) is Some ==> placed(
            Mode::BrowserAssets,
            Some(manifest),
            rel,
            caller,
        ) is Some,
{
}

/// A packed package's entries are its files; a repository archive's entry `top/rest` is the file
/// `rest`, and an entry with nothing below its top directory is no file.
pub proof fn law_top_directory_is_taken_off(top: Seq<char>, rest: Seq<char>)
    requires
        !top.contains('/'),
    ensures
        inner(false, top) == Some(top),
        inner(false, top + "/"@ + rest) == Some(top + "/"@ + rest),
        inner(true, top) is None,
        inner(true, top + "/"@) is None,
        rest.len() > 0 ==> inner(true, top + "/"@ + rest) == Some(rest),
{
    reveal_strlit("/");
    text::law_cut_undoes_joining(top, '/', rest);
    text::law_cut_undoes_joining(top, '/', Seq::empty());
    text::law_cut(top, '/');
    if let Some((head, tail)) = text::cut(top, '/') {
        assert(top[head.len() as int] == '/');
    }
    assert(top + "/"@ =~= top.push('/'));
    assert(top.push('/') + Seq::<char>::empty() =~= top.push('/'));
}

/// A full extract keeps every file under its own path, a single-file extract keeps its one file
/// under the name asked for and no other, and a caller's predicate is taken at its word.
pub proof fn law_extract_modes(
    manifest: Option<Seq<Export>>,
    rel: Seq<char>,
    caller: Option<Seq<char>>,
    from: Seq<char>,
    to: Seq<char>,
)
    ensures
        placed(Mode::Full, manifest, rel, caller) == Some(rel),
        placed(Mode::File { from, to }, manifest, from, caller) == Some(to),
        rel != from ==> placed(Mode::File { from, to }, manifest, rel, caller) is None,
        placed(Mode::Filter(Keep::Caller), manifest, rel, caller) == caller,
{
}

/// Extracting in this mode clears the destination first.
pub open spec fn clears(mode: Mode) -> bool {
    match mode {
        Mode::File { .. } => false,
        _ => true,
    }
}

/// Extracting in this mode reads the manifest before the rest of the archive.
pub open spec fn manifest_first(mode: Mode, is_git: bool) -> bool {
    match mode {
        Mode::BrowserAssets => !is_git,
        _ => false,
    }
}

/// Only a single file may share its destination, and only what a packed package ships to browsers
/// is chosen by its manifest.
pub proof fn law_destination_and_manifest(from: Seq<char>, to: Seq<char>, keep: Keep, is_git: bool)
    ensures
        !clears(Mode::File { from, to }),
        clears(Mode::Full) && clears(Mode::BrowserAssets) && clears(Mode::Filter(keep)),
        manifest_first(Mode::BrowserAssets, false),
        !manifest_first(Mode::BrowserAssets, true),
        !manifest_first(Mode::Full, is_git) && !manifest_first(Mode::File { from, to }, is_git)
            && !manifest_first(Mode::Filter(keep), is_git),
{
}

} // verus!
