//! What a later build removes from a vendor tree again.
//!
//! A staged build seeds `web_modules/` from the previous output to keep download caches
//! warm, so a package whose spec was dropped since then would otherwise ship forever.

use vstd::prelude::*;

use crate::text;
use crate::text::texts;
use crate::vendor::spec::{wanted, PackageSpec, Wanted};

verus! {

/// The file name of a package's cache marker: its directory with `_` for `/`.
pub open spec fn marker_file(dir: Seq<char>) -> Seq<char> {
    "."@ + text::replaced(dir, "/"@, "_"@) + ".version"@
}

/// The file name of a package's lock.
pub open spec fn lock_file(dir: Seq<char>) -> Seq<char> {
    "."@ + text::replaced(dir, "/"@, "_"@) + ".lock"@
}

/// The file name of a package's cache marker.
pub fn marker_name(dir: &str) -> (r: String)
    ensures
        r@ == marker_file(dir@),
{
    proof {
        reveal_strlit("/");
    }
    ".".to_owned().concat(text::replace(dir, "/", "_").as_str()).concat(".version")
}

/// The file name of a package's lock.
pub fn lock_name(dir: &str) -> (r: String)
    ensures
        r@ == lock_file(dir@),
{
    proof {
        reveal_strlit("/");
    }
    ".".to_owned().concat(text::replace(dir, "/", "_").as_str()).concat(".lock")
}

/// What becomes of one entry of a vendor tree.
#[derive(Debug, PartialEq, Eq)]
pub enum Fate {
    /// A current package directory or cache marker: left alone.
    Keep,
    /// A directory on the way to a kept package: descended into under this
    /// qualified name, and removed when emptied.
    Descend(String),
    /// A directory no spec asks for: removed whole.
    RemoveTree,
    /// Any other file: removed.
    RemoveFile,
}

/// An entry's fate, as the contracts see it.
pub enum Verdict {
    Keep,
    Descend(Seq<char>),
    RemoveTree,
    RemoveFile,
}

impl View for Fate {
    type V = Verdict;

    open spec fn view(&self) -> Verdict {
        match self {
            Fate::Keep => Verdict::Keep,
            Fate::Descend(name) => Verdict::Descend(name@),
            Fate::RemoveTree => Verdict::RemoveTree,
            Fate::RemoveFile => Verdict::RemoveFile,
        }
    }
}

/// The directories of the requested packages and of those vendored beyond them.
pub open spec fn kept_dirs(specs: Seq<Wanted>, extra: Seq<Seq<char>>) -> Seq<Seq<char>> {
    Seq::new(specs.len(), |i: int| specs[i].dir) + extra
}

/// An entry's name below the vendor root.
pub open spec fn qualified(prefix: Seq<char>, name: Seq<char>) -> Seq<char> {
    if prefix.len() == 0 {
        name
    } else {
        prefix + "/"@ + name
    }
}

/// Some kept directory lies below `dir`.
pub open spec fn leads_to_kept(keep: Seq<Seq<char>>, dir: Seq<char>) -> bool {
    exists|i: int| 0 <= i < keep.len() && (dir + "/"@).is_prefix_of(#[trigger] keep[i])
}

/// `name` is the marker of some kept directory.
pub open spec fn kept_marker(keep: Seq<Seq<char>>, name: Seq<char>) -> bool {
    exists|i: int| 0 <= i < keep.len() && marker_file(#[trigger] keep[i]) == name
}

/// What becomes of one entry: a kept package directory and the directories on the way
/// to it stay, and so do the current cache markers at the root; everything else goes.
pub open spec fn verdict(
    keep: Seq<Seq<char>>,
    prefix: Seq<char>,
    name: Seq<char>,
    is_dir: bool,
) -> Verdict {
    let full = qualified(prefix, name);
    if is_dir {
        if keep.contains(full) {
            Verdict::Keep
        } else if leads_to_kept(keep, full) {
            Verdict::Descend(full)
        } else {
            Verdict::RemoveTree
        }
    } else if prefix.len() == 0 && kept_marker(keep, name) {
        Verdict::Keep
    } else {
        Verdict::RemoveFile
    }
}

/// The directories to keep: those of the specs, then `extra`, which names
/// pipeline-vendored packages beyond them (the transform runtime).
pub fn keep_dirs(specs: &Vec<PackageSpec>, extra: &Vec<String>) -> (r: Vec<String>)
    ensures
        texts(r@) == kept_dirs(wanted(specs@), texts(extra@)),
{
    let mut out: Vec<String> = Vec::new();
    let mut i: usize = 0;
    while i < specs.len()
        invariant
            i <= specs@.len(),
            out@.len() == i,
            forall|j: int| 0 <= j < i ==> (#[trigger] out@[j])@ == specs@[j].dir@,
        decreases specs@.len() - i,
    {
        out.push(specs[i].dir.clone());
        i += 1;
    }
    let n = specs.len();
    let mut k: usize = 0;
    while k < extra.len()
        invariant
            k <= extra@.len(),
            n == specs@.len(),
            out@.len() == n + k,
            forall|j: int| 0 <= j < n ==> (#[trigger] out@[j])@ == specs@[j].dir@,
            forall|j: int| n <= j < n + k ==> (#[trigger] out@[j])@ == extra@[j - n]@,
        decreases extra@.len() - k,
    {
        out.push(extra[k].clone());
        k += 1;
    }
    assert(texts(out@) =~= kept_dirs(wanted(specs@), texts(extra@)));
    out
}

/// What becomes of the entry `name` of the directory `prefix` (empty for the vendor
/// root): keep exact package dirs, descend into scope dirs on the way to a kept
/// package, keep current cache markers at the root, and delete everything else.
pub fn prune_entry(keep: &Vec<String>, prefix: &str, name: &str, is_dir: bool) -> (r: Fate)
    ensures
        r@ == verdict(texts(keep@), prefix@, name@, is_dir),
{
    let full = if prefix.is_empty() {
        name.to_owned()
    } else {
        prefix.to_owned().concat("/").concat(name)
    };
    if is_dir {
        if text::listed(keep, full.as_str()) {
            return Fate::Keep;
        }
        let way = full.clone().concat("/");
        let mut i: usize = 0;
        while i < keep.len()
            invariant
                i <= keep@.len(),
                full@ == qualified(prefix@, name@),
                way@ == full@ + "/"@,
                is_dir,
                !texts(keep@).contains(full@),
                forall|j: int|
                    0 <= j < i ==> !(full@ + "/"@).is_prefix_of(#[trigger] texts(keep@)[j]),
            decreases keep@.len() - i,
        {
            assert(texts(keep@)[i as int] == keep@[i as int]@);
            if text::starts_with(keep[i].as_str(), way.as_str()) {
                assert(leads_to_kept(texts(keep@), full@));
                return Fate::Descend(full);
            }
            i += 1;
        }
        assert(!leads_to_kept(texts(keep@), full@));
        return Fate::RemoveTree;
    }
    if prefix.is_empty() {
        let mut i: usize = 0;
        while i < keep.len()
            invariant
                i <= keep@.len(),
                !is_dir,
                prefix@.len() == 0,
                forall|j: int|
                    0 <= j < i ==> marker_file(#[trigger] texts(keep@)[j]) != name@,
            decreases keep@.len() - i,
        {
            assert(texts(keep@)[i as int] == keep@[i as int]@);
            if text::same(marker_name(keep[i].as_str()).as_str(), name) {
                assert(kept_marker(texts(keep@), name@));
                return Fate::Keep;
            }
            i += 1;
        }
        assert(!kept_marker(texts(keep@), name@));
    }
    Fate::RemoveFile
}

/// A requested package survives pruning: its own directory is kept, and every directory
/// above it is descended into or kept, never removed.
pub proof fn law_prune_keeps_requested(
    keep: Seq<Seq<char>>,
    prefix: Seq<char>,
    name: Seq<char>,
    i: int,
)
    requires
        0 <= i < keep.len(),
    ensures
        keep[i] == qualified(prefix, name) ==> verdict(keep, prefix, name, true) is Keep,
        (qualified(prefix, name) + "/"@).is_prefix_of(keep[i]) ==> !(verdict(
            keep,
            prefix,
            name,
            true,
        ) is RemoveTree),
        prefix.len() == 0 && name == marker_file(keep[i]) ==> verdict(
            keep,
            prefix,
            name,
            false,
        ) is Keep,
{
    if (qualified(prefix, name) + "/"@).is_prefix_of(keep[i]) {
        assert(leads_to_kept(keep, qualified(prefix, name)));
    }
    if name == marker_file(keep[i]) {
        assert(kept_marker(keep, name));
    }
}

/// With nothing requested, nothing is kept.
pub proof fn law_prune_empties_unrequested(prefix: Seq<char>, name: Seq<char>, is_dir: bool)
    ensures
        verdict(Seq::empty(), prefix, name, is_dir) is RemoveTree || verdict(
            Seq::empty(),
            prefix,
            name,
            is_dir,
        ) is RemoveFile,
{
}

/// Nothing is kept without being asked for: a directory that stays is a kept one, a directory that
/// is entered has a kept one below it, and a file that stays is the marker of a kept directory, at
/// the root.
pub proof fn law_only_requested_is_kept(
    keep: Seq<Seq<char>>,
    prefix: Seq<char>,
    name: Seq<char>,
    is_dir: bool,
)
    ensures
        verdict(keep, prefix, name, true) is Keep ==> keep.contains(
            if prefix.len() == 0 {
                name
            } else {
                prefix + "/"@ + name
            },
        ),
        verdict(keep, prefix, name, false) is Keep ==> prefix.len() == 0 && exists|i: int|
            0 <= i < keep.len() && name == marker_file(#[trigger] keep[i]),
        verdict(keep, prefix, name, true) matches Verdict::Descend(below) ==> below == (
        if prefix.len() == 0 {
            name
        } else {
            prefix + "/"@ + name
        }) && exists|i: int|
            0 <= i < keep.len() && (below + "/"@).is_prefix_of(#[trigger] keep[i]),
        verdict(keep, prefix, name, is_dir) is RemoveTree ==> is_dir,
        verdict(keep, prefix, name, is_dir) is RemoveFile ==> !is_dir,
        verdict(keep, prefix, name, is_dir) is Descend ==> is_dir,
{
}

/// Every spec's directory and every extra one is kept, and no other.
pub proof fn law_kept_directories(specs: Seq<Wanted>, extra: Seq<Seq<char>>, dir: Seq<char>)
    ensures
        kept_dirs(specs, extra).contains(dir) <==> extra.contains(dir) || exists|i: int|
            0 <= i < specs.len() && (#[trigger] specs[i]).dir == dir,
{
    let kept = kept_dirs(specs, extra);
    if extra.contains(dir) {
        let k = choose|k: int| 0 <= k < extra.len() && extra[k] == dir;
        assert(kept[specs.len() + k] == dir);
    }
    if exists|i: int| 0 <= i < specs.len() && (#[trigger] specs[i]).dir == dir {
        let k = choose|i: int| 0 <= i < specs.len() && (#[trigger] specs[i]).dir == dir;
        assert(kept[k] == dir);
    }
    if kept.contains(dir) {
        let k = choose|k: int| 0 <= k < kept.len() && kept[k] == dir;
        if k < specs.len() {
            assert(specs[k].dir == dir);
        } else {
            assert(extra[k - specs.len()] == dir);
        }
    }
}

proof fn lemma_underscored(dir: Seq<char>)
    ensures
        text::replaced(dir, seq!['/'], seq!['_']) == Seq::new(
            dir.len(),
            |i: int|
                if dir[i] == '/' {
                    '_'
                } else {
                    dir[i]
                },
        ),
    decreases dir.len(),
{
    if dir.len() == 0 {
        text::law_replaced_one_by_one(dir, '/', seq!['_'], '/');
        assert(dir =~= Seq::<char>::empty());
    } else {
        lemma_underscored(dir.drop_last());
        text::law_replaced_one_by_one(dir.drop_last(), '/', seq!['_'], dir.last());
        assert(dir.drop_last().push(dir.last()) =~= dir);
    }
}

/// The marker and the lock of a package are hidden files named after its directory, with `_` in the
/// place of each `/`.
pub proof fn law_hidden_names(dir: Seq<char>)
    ensures
        ({
            let name = Seq::new(
                dir.len(),
                |i: int|
                    if dir[i] == '/' {
                        '_'
                    } else {
                        dir[i]
                    },
            );
            &&& marker_file(dir) == "."@ + name + ".version"@
            &&& lock_file(dir) == "."@ + name + ".lock"@
        }),
{
    reveal_strlit("/");
    reveal_strlit("_");
    assert("/"@ =~= seq!['/']);
    assert("_"@ =~= seq!['_']);
    lemma_underscored(dir);
}

} // verus!
