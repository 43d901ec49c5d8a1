//! Import-map entries of a vendored package.

use vstd::prelude::*;

use crate::npm::{exports, Entry, Export};
use crate::text;
use crate::text::{opt_text, pairs};
use crate::vendor::spec::{
    origin_name, source_name, Imports, Origin, PackageSpec, Strategy, Wanted,
};

verus! {

/// What the vendored tree says of an entry's target.
#[derive(Debug, PartialEq, Eq)]
pub struct Target {
    /// The target is a file of the tree.
    pub present: bool,
    /// The path of the wrapper that now stands in for a bare target.
    pub wrapper: Option<String>,
}

/// A URL under a package's directory.
pub open spec fn under_mount(mount: Seq<char>, dir: Seq<char>, path: Seq<char>) -> Seq<char> {
    mount + "/"@ + dir + "/"@ + text::trimmed_start(path, "/"@)
}

/// The entry that one export contributes, if any: a bare entry whose target is there
/// (or its wrapper), a subpath that is remapped and there, every pattern prefix.
pub open spec fn contribution(
    export: Export,
    target: Target,
    package: Seq<char>,
    dir: Seq<char>,
    mount: Seq<char>,
) -> Option<(Seq<char>, Seq<char>)> {
    match export {
        Export::Bare(file) => if target.present {
            Some(
                (
                    package,
                    under_mount(
                        mount,
                        dir,
                        match opt_text(target.wrapper) {
                            Some(w) => w,
                            None => file,
                        },
                    ),
                ),
            )
        } else {
            None
        },
        Export::Subpath { subpath, target: file } => if file != subpath && target.present {
            Some((package + "/"@ + subpath, under_mount(mount, dir, file)))
        } else {
            None
        },
        Export::Prefix { subpath, dir: tdir } => Some(
            (package + "/"@ + subpath, under_mount(mount, dir, tdir)),
        ),
    }
}

/// The entries that a list of exports contributes, in order.
pub open spec fn contributions(
    list: Seq<Export>,
    targets: Seq<Target>,
    package: Seq<char>,
    dir: Seq<char>,
    mount: Seq<char>,
) -> Seq<(Seq<char>, Seq<char>)>
    decreases list.len(),
{
    if list.len() == 0 {
        Seq::empty()
    } else {
        let front = contributions(list.drop_last(), targets, package, dir, mount);
        match contribution(list.last(), targets[list.len() - 1], package, dir, mount) {
            Some(e) => front.push(e),
            None => front,
        }
    }
}

/// Some bare export's target is there.
pub open spec fn bare_present(list: Seq<Export>, targets: Seq<Target>) -> bool {
    exists|i: int| 0 <= i < list.len() && (#[trigger] list[i]) is Bare && targets[i].present
}

/// Some export is a pattern.
pub open spec fn has_prefix(list: Seq<Export>) -> bool {
    exists|i: int| 0 <= i < list.len() && (#[trigger] list[i]) is Prefix
}

/// The auto-derived entries of a package: what its exports contribute, and, when it
/// has a bare entry and no pattern of its own, a `name/` prefix for its files.
pub open spec fn derived(
    list: Seq<Export>,
    targets: Seq<Target>,
    package: Seq<char>,
    dir: Seq<char>,
    mount: Seq<char>,
) -> Seq<(Seq<char>, Seq<char>)> {
    let all = contributions(list, targets, package, dir, mount);
    if bare_present(list, targets) && !has_prefix(list) {
        all.push((package + "/"@, mount + "/"@ + dir + "/"@))
    } else {
        all
    }
}

/// The entries of a spec that states its own: each path under the package's directory.
pub open spec fn stated(
    list: Seq<(Seq<char>, Seq<char>)>,
    dir: Seq<char>,
    mount: Seq<char>,
) -> Seq<(Seq<char>, Seq<char>)> {
    Seq::new(list.len(), |i: int| (list[i].0, under_mount(mount, dir, list[i].1)))
}

/// The name that a spec's auto-derived entries are imported by: a source dependency
/// by the name its manifest gave it, another by its own.
pub open spec fn imported_as(spec: Wanted) -> Seq<char> {
    if spec.compile {
        spec.dir
    } else {
        origin_name(spec.source)
    }
}

/// The import-map entries of a spec, given its manifest's entries if it has any.
pub open spec fn spec_entries(
    spec: Wanted,
    mount: Seq<char>,
    manifest: Option<Seq<Export>>,
    targets: Seq<Target>,
) -> Seq<(Seq<char>, Seq<char>)> {
    match spec.imports {
        Strategy::Nothing => Seq::empty(),
        Strategy::Explicit(list) => stated(list, spec.dir, mount),
        Strategy::Auto => match manifest {
            Some(list) => derived(list, targets, imported_as(spec), spec.dir, mount),
            None => Seq::empty(),
        },
    }
}

proof fn lemma_under_mount(mount: Seq<char>, dir: Seq<char>, path: Seq<char>)
    ensures
        (mount + "/"@).is_prefix_of(under_mount(mount, dir, path)),
{
    let whole = under_mount(mount, dir, path);
    assert(whole =~= (mount + "/"@) + (dir + "/"@ + text::trimmed_start(path, "/"@)));
    assert(mount + "/"@ =~= whole.subrange(0, (mount + "/"@).len() as int));
}

proof fn lemma_contributions_rooted(
    list: Seq<Export>,
    targets: Seq<Target>,
    package: Seq<char>,
    dir: Seq<char>,
    mount: Seq<char>,
)
    ensures
        forall|i: int|
            0 <= i < contributions(list, targets, package, dir, mount).len() ==> (mount
                + "/"@).is_prefix_of(
                (#[trigger] contributions(list, targets, package, dir, mount)[i]).1,
            ),
    decreases list.len(),
{
    if list.len() > 0 {
        lemma_contributions_rooted(list.drop_last(), targets, package, dir, mount);
        let target = targets[list.len() - 1];
        match list.last() {
            Export::Bare(file) => {
                lemma_under_mount(mount, dir, file);
                if let Some(w) = opt_text(target.wrapper) {
                    lemma_under_mount(mount, dir, w);
                }
            },
            Export::Subpath { subpath, target: file } => lemma_under_mount(mount, dir, file),
            Export::Prefix { subpath, dir: tdir } => lemma_under_mount(mount, dir, tdir),
        }
        let front = contributions(list.drop_last(), targets, package, dir, mount);
        let all = contributions(list, targets, package, dir, mount);
        assert forall|i: int| 0 <= i < all.len() implies (mount + "/"@).is_prefix_of(
            (#[trigger] all[i]).1,
        ) by {
            if i < front.len() {
                assert(all[i] == front[i]);
            }
        }
    }
}

/// The URLs of a spec's entries lie below the mount.
pub proof fn lemma_entries_rooted(
    spec: Wanted,
    mount: Seq<char>,
    manifest: Option<Seq<Export>>,
    targets: Seq<Target>,
)
    ensures
        forall|i: int|
            0 <= i < spec_entries(spec, mount, manifest, targets).len() ==> (mount
                + "/"@).is_prefix_of((#[trigger] spec_entries(spec, mount, manifest, targets)[i]).1),
{
    match spec.imports {
        Strategy::Nothing => {},
        Strategy::Explicit(list) => {
            assert forall|i: int|
                0 <= i < spec_entries(spec, mount, manifest, targets).len() implies (mount
                + "/"@).is_prefix_of(
                (#[trigger] spec_entries(spec, mount, manifest, targets)[i]).1,
            ) by {
                lemma_under_mount(mount, spec.dir, list[i].1);
            }
        },
        Strategy::Auto => {
            if let Some(list) = manifest {
                lemma_contributions_rooted(list, targets, imported_as(spec), spec.dir, mount);
                let url = mount + "/"@ + spec.dir + "/"@;
                assert(url =~= (mount + "/"@) + (spec.dir + "/"@));
                assert(mount + "/"@ =~= url.subrange(0, (mount + "/"@).len() as int));
            }
        },
    }
}

/// A URL under a package's directory.
pub fn join(mount: &str, dir: &str, path: &str) -> (r: String)
    ensures
        r@ == under_mount(mount@, dir@, path@),
{
    mount.to_owned().concat("/").concat(dir).concat("/").concat(
        text::trim_start(path, "/").as_str(),
    )
}

/// Derive import-map entries from a package's resolved `exports`, given what the tree
/// says of each entry's target. Bare + a `name/` convenience prefix (so subpaths resolve
/// to the vended files); non-identity subpath remaps and `"./*"` pattern prefixes are
/// mapped explicitly. Entries whose target file isn't present are skipped.
pub fn auto_entries(
    entries: &Vec<Entry>,
    targets: &Vec<Target>,
    package: &str,
    dir: &str,
    mount: &str,
) -> (r: Vec<(String, String)>)
    requires
        targets@.len() == entries@.len(),
    ensures
        pairs(r@) == derived(exports(entries@), targets@, package@, dir@, mount@),
{
    let ghost all = exports(entries@);
    let mut out: Vec<(String, String)> = Vec::new();
    let mut bare = false;
    let mut prefix = false;
    let mut i: usize = 0;
    assert(pairs(out@) =~= contributions(all.take(0), targets@, package@, dir@, mount@));
    while i < entries.len()
        invariant
            i <= entries@.len(),
            targets@.len() == entries@.len(),
            all == exports(entries@),
            pairs(out@) == contributions(all.take(i as int), targets@, package@, dir@, mount@),
            bare == bare_present(all.take(i as int), targets@),
            prefix == has_prefix(all.take(i as int)),
        decreases entries@.len() - i,
    {
        let ghost front = all.take(i as int);
        let ghost grown = all.take(i + 1);
        proof {
            assert(grown.drop_last() =~= front);
            assert(grown.last() == entries@[i as int]@);
            assert(grown.len() - 1 == i);
            if bare_present(front, targets@) {
                let k = choose|k: int|
                    0 <= k < front.len() && (#[trigger] front[k]) is Bare && targets@[k].present;
                assert(grown[k] is Bare);
            }
            if has_prefix(front) {
                let k = choose|k: int| 0 <= k < front.len() && (#[trigger] front[k]) is Prefix;
                assert(grown[k] is Prefix);
            }
            if bare_present(grown, targets@) && !(grown[i as int] is Bare
                && targets@[i as int].present) {
                let k = choose|k: int|
                    0 <= k < grown.len() && (#[trigger] grown[k]) is Bare && targets@[k].present;
                assert(front[k] is Bare);
            }
            if has_prefix(grown) && !(grown[i as int] is Prefix) {
                let k = choose|k: int| 0 <= k < grown.len() && (#[trigger] grown[k]) is Prefix;
                assert(front[k] is Prefix);
            }
        }
        match &entries[i] {
            Entry::Bare(file) => {
                if targets[i].present {
                    let path = match &targets[i].wrapper {
                        Some(w) => w.clone(),
                        None => file.clone(),
                    };
                    let e = (package.to_owned(), join(mount, dir, path.as_str()));
                    proof {
                        text::lemma_pairs_push(out@, e);
                        assert(grown[i as int] is Bare);
                    }
                    out.push(e);
                    bare = true;
                }
            },
            Entry::Subpath { subpath, target } => {
                if !text::same(target.as_str(), subpath.as_str()) && targets[i].present {
                    let e = (
                        package.to_owned().concat("/").concat(subpath.as_str()),
                        join(mount, dir, target.as_str()),
                    );
                    proof {
                        text::lemma_pairs_push(out@, e);
                    }
                    out.push(e);
                }
            },
            Entry::Prefix { subpath, dir: tdir } => {
                let e = (
                    package.to_owned().concat("/").concat(subpath.as_str()),
                    join(mount, dir, tdir.as_str()),
                );
                proof {
                    text::lemma_pairs_push(out@, e);
                    assert(grown[i as int] is Prefix);
                }
                out.push(e);
                prefix = true;
            },
        }
        i += 1;
    }
    assert(all.take(entries@.len() as int) =~= all);
    if bare && !prefix {
        let e = (
            package.to_owned().concat("/"),
            mount.to_owned().concat("/").concat(dir).concat("/"),
        );
        proof {
            text::lemma_pairs_push(out@, e);
        }
        out.push(e);
    }
    out
}

/// Import-map entries for a vended spec, per its strategy. `manifest` is what its
/// `package.json` exports, if it has a readable one, and `targets` what the tree says
/// of each of those entries; only auto-derivation reads them.
pub fn import_entries(
    spec: &PackageSpec,
    mount: &str,
    manifest: Option<&Vec<Entry>>,
    targets: &Vec<Target>,
) -> (r: Vec<(String, String)>)
    requires
        manifest matches Some(list) ==> targets@.len() == list@.len(),
    ensures
        pairs(r@) == spec_entries(spec@, mount@, crate::npm::opt_exports(manifest), targets@),
{
    match &spec.imports {
        Imports::Nothing => {
            let none: Vec<(String, String)> = Vec::new();
            assert(pairs(none@) =~= Seq::<(Seq<char>, Seq<char>)>::empty());
            none
        },
        Imports::Explicit(list) => {
            let mut out: Vec<(String, String)> = Vec::new();
            let mut i: usize = 0;
            while i < list.len()
                invariant
                    i <= list@.len(),
                    out@.len() == i,
                    forall|j: int|
                        0 <= j < i ==> text::pair_text(#[trigger] out@[j]) == (
                            list@[j].0@,
                            under_mount(mount@, spec.dir@, list@[j].1@),
                        ),
                decreases list@.len() - i,
            {
                out.push(
                    (list[i].0.clone(), join(mount, spec.dir.as_str(), list[i].1.as_str())),
                );
                i += 1;
            }
            assert(pairs(out@) =~= stated(pairs(list@), spec.dir@, mount@));
            out
        },
        Imports::Auto => match manifest {
            Some(entries) => {
                let specifier = if spec.compile {
                    spec.dir.as_str()
                } else {
                    source_name(&spec.source)
                };
                auto_entries(entries, targets, specifier, spec.dir.as_str(), mount)
            },
            None => {
                let none: Vec<(String, String)> = Vec::new();
                assert(pairs(none@) =~= Seq::<(Seq<char>, Seq<char>)>::empty());
                none
            },
        },
    }
}

// ---------------------------------------------------------------------------
// Laws
// ---------------------------------------------------------------------------

/// A list holds a pair.
pub open spec fn holds(
    list: Seq<(Seq<char>, Seq<char>)>,
    specifier: Seq<char>,
    url: Seq<char>,
) -> bool {
    list.contains((specifier, url))
}

proof fn lemma_contributed(
    list: Seq<Export>,
    targets: Seq<Target>,
    package: Seq<char>,
    dir: Seq<char>,
    mount: Seq<char>,
    i: int,
)
    requires
        0 <= i < list.len(),
    ensures
        contribution(list[i], targets[i], package, dir, mount) matches Some(e) ==> contributions(
            list,
            targets,
            package,
            dir,
            mount,
        ).contains(e),
    decreases list.len(),
{
    if let Some(e) = contribution(list[i], targets[i], package, dir, mount) {
        let front = contributions(list.drop_last(), targets, package, dir, mount);
        let all = contributions(list, targets, package, dir, mount);
        if i == list.len() - 1 {
            assert(all[front.len() as int] == e);
        } else {
            assert(list.drop_last()[i] == list[i]);
            lemma_contributed(list.drop_last(), targets, package, dir, mount, i);
            let k = front.index_of(e);
            assert(all[k] == e);
        }
    }
}

/// A URL below a package's directory: the mount, the directory and the path, with one slash between
/// each two, whether or not the path begins with slashes.
pub proof fn law_url_below_package(mount: Seq<char>, dir: Seq<char>, path: Seq<char>)
    requires
        path.len() == 0 || path[0] != '/',
    ensures
        under_mount(mount, dir, path) == mount + "/"@ + dir + "/"@ + path,
        under_mount(mount, dir, "/"@ + path) == mount + "/"@ + dir + "/"@ + path,
{
    reveal_strlit("/");
    let slashed = "/"@ + path;
    assert("/"@.contains("/"@[0]));
    assert(slashed.drop_first() =~= path);
    reveal_with_fuel(text::trimmed_start, 2);
    if path.len() > 0 {
        assert(!"/"@.contains(path[0])) by {
            assert forall|k: int| 0 <= k < "/"@.len() implies "/"@[k] != path[0] by {}
        }
    }
}

/// What each export of a package gives, under its own target. A pattern maps `package/subpath` to
/// its target directory, so whatever follows the one follows the other. A subpath whose target is
/// there under another path maps to that target. The bare name maps to its target, or to the
/// wrapper that stands in for it.
pub proof fn law_export_is_mapped_to_its_target(
    list: Seq<Export>,
    targets: Seq<Target>,
    package: Seq<char>,
    dir: Seq<char>,
    mount: Seq<char>,
    i: int,
)
    requires
        0 <= i < list.len(),
    ensures
        list[i] matches Export::Prefix { subpath, dir: tdir } ==> (tdir.len() > 0 && tdir[0] == '/')
            || holds(
            derived(list, targets, package, dir, mount),
            package + "/"@ + subpath,
            mount + "/"@ + dir + "/"@ + tdir,
        ),
        list[i] matches Export::Subpath { subpath, target } ==> (target.len() > 0 && target[0]
            == '/') || target == subpath || !targets[i].present || holds(
            derived(list, targets, package, dir, mount),
            package + "/"@ + subpath,
            mount + "/"@ + dir + "/"@ + target,
        ),
        list[i] matches Export::Bare(target) ==> (target.len() > 0 && target[0] == '/')
            || !targets[i].present || targets[i].wrapper is Some || holds(
            derived(list, targets, package, dir, mount),
            package,
            mount + "/"@ + dir + "/"@ + target,
        ),
        list[i] is Bare && targets[i].present ==> (targets[i].wrapper matches Some(w) ==> (w@.len()
            > 0 && w@[0] == '/') || holds(
            derived(list, targets, package, dir, mount),
            package,
            mount + "/"@ + dir + "/"@ + w@,
        )),
{
    lemma_contributed(list, targets, package, dir, mount, i);
    let all = contributions(list, targets, package, dir, mount);
    let whole = derived(list, targets, package, dir, mount);
    assert forall|e: (Seq<char>, Seq<char>)| all.contains(e) implies #[trigger] whole.contains(
        e,
    ) by {
        let k = all.index_of(e);
        assert(whole[k] == e);
    }
    match list[i] {
        Export::Prefix { subpath, dir: tdir } => {
            if !(tdir.len() > 0 && tdir[0] == '/') {
                law_url_below_package(mount, dir, tdir);
            }
        },
        Export::Subpath { subpath, target } => {
            if !(target.len() > 0 && target[0] == '/') {
                law_url_below_package(mount, dir, target);
            }
        },
        Export::Bare(target) => {
            if !(target.len() > 0 && target[0] == '/') {
                law_url_below_package(mount, dir, target);
            }
            if let Some(w) = targets[i].wrapper {
                if !(w@.len() > 0 && w@[0] == '/') {
                    law_url_below_package(mount, dir, w@);
                }
            }
        },
    }
}

/// A package with a bare entry whose target is there, and without a pattern of its own, has a
/// prefix for its files: `package/` is its directory. One without a bare entry, or with a pattern,
/// has none but what it exports.
pub proof fn law_prefix_for_files(
    list: Seq<Export>,
    targets: Seq<Target>,
    package: Seq<char>,
    dir: Seq<char>,
    mount: Seq<char>,
)
    ensures
        (exists|i: int| 0 <= i < list.len() && (#[trigger] list[i]) is Bare && targets[i].present)
            && (forall|i: int| 0 <= i < list.len() ==> !((#[trigger] list[i]) is Prefix)) ==> holds(
            derived(list, targets, package, dir, mount),
            package + "/"@,
            mount + "/"@ + dir + "/"@,
        ),
        (forall|i: int|
            0 <= i < list.len() ==> !((#[trigger] list[i]) is Bare && targets[i].present)) || (
        exists|i: int| 0 <= i < list.len() && (#[trigger] list[i]) is Prefix) ==> derived(
            list,
            targets,
            package,
            dir,
            mount,
        ).len() <= list.len(),
{
    lemma_contributions_len(list, targets, package, dir, mount);
    let all = contributions(list, targets, package, dir, mount);
    let whole = derived(list, targets, package, dir, mount);
    if whole.len() > all.len() {
        assert(whole[all.len() as int] == (package + "/"@, mount + "/"@ + dir + "/"@));
    }
}

proof fn lemma_contributions_len(
    list: Seq<Export>,
    targets: Seq<Target>,
    package: Seq<char>,
    dir: Seq<char>,
    mount: Seq<char>,
)
    ensures
        contributions(list, targets, package, dir, mount).len() <= list.len(),
    decreases list.len(),
{
    if list.len() > 0 {
        lemma_contributions_len(list.drop_last(), targets, package, dir, mount);
    }
}

/// Some export is the reason for an entry: the pattern, the subpath or the bare name that it maps,
/// and its target is there unless it is a pattern.
pub open spec fn exported(
    list: Seq<Export>,
    targets: Seq<Target>,
    package: Seq<char>,
    specifier: Seq<char>,
) -> bool {
    exists|i: int|
        0 <= i < list.len() && match #[trigger] list[i] {
            Export::Prefix { subpath, .. } => specifier == package + "/"@ + subpath,
            Export::Subpath { subpath, target } => specifier == package + "/"@ + subpath && target
                != subpath && targets[i].present,
            Export::Bare(_) => specifier == package && targets[i].present,
        }
}

/// Nothing is mapped but what the package exports, and the prefix for its files.
pub proof fn law_only_exports_are_mapped(
    list: Seq<Export>,
    targets: Seq<Target>,
    package: Seq<char>,
    dir: Seq<char>,
    mount: Seq<char>,
    k: int,
)
    requires
        0 <= k < derived(list, targets, package, dir, mount).len(),
    ensures
        exported(list, targets, package, derived(list, targets, package, dir, mount)[k].0)
            || derived(list, targets, package, dir, mount)[k] == (
            package + "/"@,
            mount + "/"@ + dir + "/"@,
        ),
{
    let all = contributions(list, targets, package, dir, mount);
    if k < all.len() {
        lemma_contributions_exported(list, targets, package, dir, mount, k);
    }
}

proof fn lemma_contributions_exported(
    list: Seq<Export>,
    targets: Seq<Target>,
    package: Seq<char>,
    dir: Seq<char>,
    mount: Seq<char>,
    k: int,
)
    requires
        0 <= k < contributions(list, targets, package, dir, mount).len(),
    ensures
        exported(list, targets, package, contributions(list, targets, package, dir, mount)[k].0),
    decreases list.len(),
{
    if list.len() > 0 {
        let front = contributions(list.drop_last(), targets, package, dir, mount);
        if k < front.len() {
            lemma_contributions_exported(list.drop_last(), targets, package, dir, mount, k);
            let specifier = front[k].0;
            let i = choose|i: int|
                0 <= i < list.drop_last().len() && match #[trigger] list.drop_last()[i] {
                    Export::Prefix { subpath, .. } => specifier == package + "/"@ + subpath,
                    Export::Subpath { subpath, target } => specifier == package + "/"@ + subpath
                        && target != subpath && targets[i].present,
                    Export::Bare(_) => specifier == package && targets[i].present,
                };
            assert(list[i] == list.drop_last()[i]);
        } else {
            assert(list[list.len() - 1] == list.last());
        }
    }
}

/// The entries of a package follow its strategy: a package with none has none, one that states its
/// own has each under its directory, in order, and one that derives them derives them under the
/// name it is imported by: a source dependency by the directory its manifest names it by, another
/// by the package or the repository it comes from.
pub proof fn law_entries_follow_the_strategy(
    spec: Wanted,
    mount: Seq<char>,
    manifest: Option<Seq<Export>>,
    targets: Seq<Target>,
)
    ensures
        spec.imports is Nothing ==> spec_entries(spec, mount, manifest, targets).len() == 0,
        spec.imports is Auto && manifest is None ==> spec_entries(
            spec,
            mount,
            manifest,
            targets,
        ).len() == 0,
        spec.imports matches Strategy::Explicit(list) ==> {
            let all = spec_entries(spec, mount, manifest, targets);
            &&& all.len() == list.len()
            &&& forall|i: int|
                0 <= i < list.len() && (list[i].1.len() == 0 || list[i].1[0] != '/') ==> (
                #[trigger] all[i]) == (list[i].0, mount + "/"@ + spec.dir + "/"@ + list[i].1)
        },
        spec.imports is Auto ==> (manifest matches Some(list) ==> {
            let all = spec_entries(spec, mount, manifest, targets);
            &&& spec.compile ==> all == derived(list, targets, spec.dir, spec.dir, mount)
            &&& !spec.compile ==> (spec.source matches Origin::Npm { package, .. } ==> all
                == derived(list, targets, package, spec.dir, mount))
            &&& !spec.compile ==> (spec.source matches Origin::Git { repo, .. } ==> all == derived(
                list,
                targets,
                repo,
                spec.dir,
                mount,
            ))
            &&& !spec.compile ==> (spec.source matches Origin::Tarball { name, .. } ==> all
                == derived(list, targets, name, spec.dir, mount))
        }),
{
    if let Strategy::Explicit(list) = spec.imports {
        let all = spec_entries(spec, mount, manifest, targets);
        assert forall|i: int|
            0 <= i < list.len() && (list[i].1.len() == 0 || list[i].1[0] != '/') implies (
        #[trigger] all[i]) == (list[i].0, mount + "/"@ + spec.dir + "/"@ + list[i].1) by {
            law_url_below_package(mount, spec.dir, list[i].1);
        }
    }
}

} // verus!
