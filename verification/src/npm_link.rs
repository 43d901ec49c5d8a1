//! `npm://` symlink targets: source files from an installed dependency.
//!
//! A symlink whose target is an `npm://<package>/<subpath>` URL is not a filesystem
//! link but a reference into `node_modules`: the build resolves it, then writes the
//! file(s) at the link's own location (a single file, or, with a trailing `/`, a whole
//! directory subtree), and the dev server resolves the same reference to serve it. It is
//! a package reference resolved within the resolved package, so the symlink mode never
//! applies: the reference is followed in every mode, and only ever into the package it
//! names.
//!
//! What only the filesystem can answer is asked step by step: [`Mounting`] for a build,
//! [`Serving`] for a request.

use vstd::prelude::*;

use crate::error::{Error, Failure};
use crate::npm;
use crate::path;
use crate::path::{parent_of, parts, rest_of, tail, under, views, written, Part};
use crate::text;
use crate::text::{cut, opt_text, pairs, trimmed_end, without_prefix};
use crate::walk::{Kind, Place, Visited};

verus! {

/// The URL scheme that marks a symlink target as a `node_modules` package reference.
pub const SCHEME: &'static str = "npm://";

/// A parsed `npm://<package>/<subpath>` reference.
#[derive(Debug, PartialEq, Eq)]
pub struct Reference {
    pub package: String,
    pub subpath: String,
    /// A trailing slash mounts the whole directory rather than a single file.
    pub directory: bool,
}

/// A reference, as the contracts see it.
pub struct Link {
    pub package: Seq<char>,
    pub subpath: Seq<char>,
    pub directory: bool,
}

impl View for Reference {
    type V = Link;

    open spec fn view(&self) -> Link {
        Link { package: self.package@, subpath: self.subpath@, directory: self.directory }
    }
}

impl Clone for Reference {
    fn clone(&self) -> (r: Self)
        ensures
            r@ == self@,
    {
        Reference {
            package: self.package.clone(),
            subpath: self.subpath.clone(),
            directory: self.directory,
        }
    }
}

/// What stands before the first `/` and after it; nothing after it when there is none.
pub open spec fn first_segment(s: Seq<char>) -> (Seq<char>, Seq<char>) {
    match cut(s, '/') {
        Some((first, rest)) => (first, rest),
        None => (s, Seq::empty()),
    }
}

/// The package and the path in it that a reference without its scheme names; a scoped
/// package spans two segments, `@scope/name`.
pub open spec fn package_path(rest: Seq<char>) -> Option<(Seq<char>, Seq<char>)> {
    match without_prefix(rest, "@"@) {
        Some(scoped) => match cut(scoped, '/') {
            Some((scope, more)) => {
                let (name, subpath) = first_segment(more);
                if scope.len() == 0 || name.len() == 0 {
                    None
                } else {
                    Some(("@"@ + scope + "/"@ + name, subpath))
                }
            },
            None => None,
        },
        None => {
            let (name, subpath) = first_segment(rest);
            if name.len() == 0 {
                None
            } else {
                Some((name, subpath))
            }
        },
    }
}

/// The reference that a link target is.
pub open spec fn link_of(target: Seq<char>) -> Option<Link> {
    match without_prefix(target, SCHEME@) {
        Some(rest) => match package_path(trimmed_end(rest, "/"@)) {
            Some((package, subpath)) => Some(
                Link { package, subpath, directory: "/"@.is_suffix_of(rest) },
            ),
            None => None,
        },
        None => None,
    }
}

/// Whether a symlink's target is an `npm://` URL rather than a path.
pub fn is_reference(target: &str) -> (r: bool)
    ensures
        r == SCHEME@.is_prefix_of(target@),
{
    text::starts_with(target, SCHEME)
}

fn split_first(s: &str) -> (r: (String, String))
    ensures
        (r.0@, r.1@) == first_segment(s@),
{
    match text::split_once(s, '/') {
        Some(pair) => pair,
        None => {
            let nothing = String::new();
            assert(nothing@ =~= Seq::<char>::empty());
            (s.to_owned(), nothing)
        },
    }
}

/// Parse `npm://<package>/<subpath>`; the package may be scoped (`@scope/name`). `None`
/// for a target that is not a well-formed `npm://` reference.
pub fn parse(target: &str) -> (r: Option<Reference>)
    ensures
        (match r {
            Some(reference) => Some(reference@),
            None => None,
        }) == link_of(target@),
{
    let rest = match text::strip_prefix(target, SCHEME) {
        Some(rest) => rest,
        None => {
            return None;
        },
    };
    let directory = text::ends_with(rest.as_str(), "/");
    let rest = text::trim_end(rest.as_str(), "/");
    match text::strip_prefix(rest.as_str(), "@") {
        Some(scoped) => match text::split_once(scoped.as_str(), '/') {
            Some((scope, more)) => {
                let (name, subpath) = split_first(more.as_str());
                if scope.as_str().is_empty() || name.as_str().is_empty() {
                    return None;
                }
                let package = "@".to_owned().concat(scope.as_str()).concat("/").concat(
                    name.as_str(),
                );
                Some(Reference { package, subpath, directory })
            },
            None => None,
        },
        None => {
            let (name, subpath) = split_first(rest.as_str());
            if name.as_str().is_empty() {
                return None;
            }
            Some(Reference { package: name, subpath, directory })
        },
    }
}

// ---------------------------------------------------------------------------
// What the filesystem answers
// ---------------------------------------------------------------------------

/// What the filesystem answers to one step.
#[derive(Debug, PartialEq, Eq)]
pub enum Answer {
    /// The path asked for, or why there is none.
    Found(Result<String, String>),
    /// Whether what was asked holds.
    Holds(bool),
    /// The `npm://` target of the symlink asked for, if it is one.
    Target(Option<String>),
    /// What a walk met, in file-name order, or why it could not go on.
    Walked(Vec<Result<Visited, String>>),
}

/// An answer, as the contracts see it.
pub enum Reply {
    Found(Result<Seq<char>, Seq<char>>),
    Holds(bool),
    Target(Option<Seq<char>>),
    Walked(Seq<Result<Place, Seq<char>>>),
}

/// One thing that a walk met, as the contracts see it.
pub open spec fn met(one: Result<Visited, String>) -> Result<Place, Seq<char>> {
    match one {
        Ok(v) => Ok(v@),
        Err(e) => Err(e@),
    }
}

impl View for Answer {
    type V = Reply;

    open spec fn view(&self) -> Reply {
        match self {
            Answer::Found(Ok(p)) => Reply::Found(Ok(p@)),
            Answer::Found(Err(e)) => Reply::Found(Err(e@)),
            Answer::Holds(b) => Reply::Holds(*b),
            Answer::Target(t) => Reply::Target(opt_text(*t)),
            Answer::Walked(list) => Reply::Walked(Seq::new(list@.len(), |i: int| met(list@[i]))),
        }
    }
}

// ---------------------------------------------------------------------------
// Mounting, for a build
// ---------------------------------------------------------------------------

/// Where resolving a reference for a build stands: what is to be asked next, or the end.
#[derive(Debug)]
pub enum Mounting {
    /// Find the file at `subpath` of the installed package.
    FindFile { package: String, subpath: String },
    /// Find the directory of the installed package.
    FindPackage { package: String },
    /// Resolve the package directory to its canonical location.
    ResolvePackage { dir: String },
    /// Resolve the mounted directory to its canonical location.
    ResolveMount { root: String, path: String },
    /// Whether the mounted place is a directory.
    CheckMount { root: String, base: String },
    /// Walk the mounted directory without following links, in file-name order.
    Walk { root: String, base: String },
    /// What to emit, as `(subpath beneath the link, source file)` pairs.
    Done { files: Vec<(String, String)> },
    /// The reference cannot be resolved.
    Failed { error: Error },
}

/// Where resolving stands, as the contracts see it.
pub enum Mount {
    FindFile { package: Seq<char>, subpath: Seq<char> },
    FindPackage { package: Seq<char> },
    ResolvePackage { dir: Seq<char> },
    ResolveMount { root: Seq<char>, path: Seq<char> },
    CheckMount { root: Seq<char>, base: Seq<char> },
    Walk { root: Seq<char>, base: Seq<char> },
    Done { files: Seq<(Seq<char>, Seq<char>)> },
    Failed { error: Failure },
}

impl View for Mounting {
    type V = Mount;

    open spec fn view(&self) -> Mount {
        match self {
            Mounting::FindFile { package, subpath } => Mount::FindFile {
                package: package@,
                subpath: subpath@,
            },
            Mounting::FindPackage { package } => Mount::FindPackage { package: package@ },
            Mounting::ResolvePackage { dir } => Mount::ResolvePackage { dir: dir@ },
            Mounting::ResolveMount { root, path } => Mount::ResolveMount {
                root: root@,
                path: path@,
            },
            Mounting::CheckMount { root, base } => Mount::CheckMount { root: root@, base: base@ },
            Mounting::Walk { root, base } => Mount::Walk { root: root@, base: base@ },
            Mounting::Done { files } => Mount::Done { files: pairs(files@) },
            Mounting::Failed { error } => Mount::Failed { error: error@ },
        }
    }
}

/// The first thing to ask of a reference.
pub open spec fn mount_first(reference: Link) -> Mount {
    if reference.directory {
        Mount::FindPackage { package: reference.package }
    } else {
        Mount::FindFile { package: reference.package, subpath: reference.subpath }
    }
}

/// The failure that a complaint about a package is.
pub open spec fn package_failure(package: Seq<char>, e: Seq<char>) -> Failure {
    Failure::Build(SCHEME@ + package + ": "@ + e)
}

/// The failure that a complaint about a place in a package is.
pub open spec fn place_failure(reference: Link, e: Seq<char>) -> Failure {
    Failure::Build(SCHEME@ + reference.package + "/"@ + reference.subpath + ": "@ + e)
}

/// The files among what a walk of `base` met, relative to it; the first complaint ends it.
pub open spec fn mounted_files(
    package: Seq<char>,
    base: Seq<char>,
    list: Seq<Result<Place, Seq<char>>>,
) -> Result<Seq<(Seq<char>, Seq<char>)>, Failure>
    decreases list.len(),
{
    if list.len() == 0 {
        Ok(Seq::empty())
    } else {
        match mounted_files(package, base, list.drop_last()) {
            Ok(front) => match list.last() {
                Ok(place) => if place.kind == Kind::File {
                    match rest_of(place.path, base) {
                        Some(rest) => Ok(front.push((rest, place.path))),
                        None => Err(Failure::Build("prefix not found"@)),
                    }
                } else {
                    Ok(front)
                },
                Err(e) => Err(package_failure(package, e)),
            },
            Err(e) => Err(e),
        }
    }
}

/// What follows a step, once it is answered. An answer to something else changes nothing.
pub open spec fn mount_next(reference: Link, at: Mount, reply: Reply) -> Mount {
    match (at, reply) {
        (Mount::FindFile { .. }, Reply::Found(found)) => match found {
            Ok(file) => Mount::Done { files: seq![(Seq::<char>::empty(), file)] },
            Err(e) => Mount::Failed { error: package_failure(reference.package, e) },
        },
        (Mount::FindPackage { .. }, Reply::Found(found)) => match found {
            Ok(dir) => Mount::ResolvePackage { dir },
            Err(e) => Mount::Failed { error: package_failure(reference.package, e) },
        },
        (Mount::ResolvePackage { dir }, Reply::Found(found)) => match found {
            Ok(root) => if reference.subpath.len() == 0 {
                Mount::CheckMount { root, base: root }
            } else if npm::within(reference.subpath) {
                Mount::ResolveMount { root, path: under(dir, reference.subpath) }
            } else {
                Mount::Failed {
                    error: package_failure(
                        reference.package,
                        npm::unsafe_message(reference.subpath),
                    ),
                }
            },
            Err(e) => Mount::Failed { error: package_failure(reference.package, e) },
        },
        (Mount::ResolveMount { root, .. }, Reply::Found(found)) => match found {
            Ok(reached) => if parts(root).is_prefix_of(parts(reached)) {
                Mount::CheckMount { root, base: reached }
            } else {
                Mount::Failed { error: place_failure(reference, "resolves outside the package"@) }
            },
            Err(e) => Mount::Failed { error: place_failure(reference, e) },
        },
        (Mount::CheckMount { root, base }, Reply::Holds(is_dir)) => if is_dir {
            Mount::Walk { root, base }
        } else {
            Mount::Failed { error: place_failure(reference, "not a directory in the package"@) }
        },
        (Mount::Walk { base, .. }, Reply::Walked(list)) => match mounted_files(
            reference.package,
            base,
            list,
        ) {
            Ok(files) => Mount::Done { files },
            Err(error) => Mount::Failed { error },
        },
        _ => at,
    }
}

fn package_error(package: &str, e: &str) -> (r: Error)
    ensures
        r@ == package_failure(package@, e@),
{
    Error::Build(SCHEME.to_owned().concat(package).concat(": ").concat(e))
}

fn place_error(reference: &Reference, e: &str) -> (r: Error)
    ensures
        r@ == place_failure(reference@, e@),
{
    Error::Build(
        SCHEME.to_owned().concat(reference.package.as_str()).concat("/").concat(
            reference.subpath.as_str(),
        ).concat(": ").concat(e),
    )
}

proof fn lemma_mount_failure_stays(
    package: Seq<char>,
    base: Seq<char>,
    list: Seq<Result<Place, Seq<char>>>,
    n: int,
    e: Failure,
)
    requires
        0 <= n <= list.len(),
        mounted_files(package, base, list.take(n)) == Err::<Seq<(Seq<char>, Seq<char>)>, Failure>(
            e,
        ),
    ensures
        mounted_files(package, base, list) == Err::<Seq<(Seq<char>, Seq<char>)>, Failure>(e),
    decreases list.len() - n,
{
    if n < list.len() {
        let grown = list.take(n + 1);
        assert(grown.drop_last() =~= list.take(n));
        lemma_mount_failure_stays(package, base, list, n + 1, e);
    } else {
        assert(list.take(n) =~= list);
    }
}

fn collect_mounted(package: &str, base: &str, list: &Vec<Result<Visited, String>>) -> (r: Result<
    Vec<(String, String)>,
    Error,
>)
    ensures
        (match r {
            Ok(files) => Ok::<Seq<(Seq<char>, Seq<char>)>, Failure>(pairs(files@)),
            Err(e) => Err(e@),
        }) == mounted_files(package@, base@, Seq::new(list@.len(), |i: int| met(list@[i]))),
{
    let ghost all = Seq::new(list@.len(), |i: int| met(list@[i]));
    let mut files: Vec<(String, String)> = Vec::new();
    let mut i: usize = 0;
    assert(pairs(files@) =~= Seq::<(Seq<char>, Seq<char>)>::empty());
    while i < list.len()
        invariant
            i <= list@.len(),
            all == Seq::new(list@.len(), |i: int| met(list@[i])),
            mounted_files(package@, base@, all.take(i as int)) == Ok::<
                Seq<(Seq<char>, Seq<char>)>,
                Failure,
            >(pairs(files@)),
        decreases list@.len() - i,
    {
        proof {
            let grown = all.take(i + 1);
            assert(grown.drop_last() =~= all.take(i as int));
            assert(grown.last() == met(list@[i as int]));
        }
        match &list[i] {
            Ok(entry) => {
                if entry.kind == Kind::File {
                    match path::strip_base(entry.path.as_str(), base) {
                        Some(rel) => {
                            let one = (rel, entry.path.clone());
                            proof {
                                text::lemma_pairs_push(files@, one);
                            }
                            files.push(one);
                        },
                        None => {
                            let error = Error::Build("prefix not found".to_owned());
                            proof {
                                lemma_mount_failure_stays(
                                    package@,
                                    base@,
                                    all,
                                    i + 1,
                                    error@,
                                );
                            }
                            return Err(error);
                        },
                    }
                }
            },
            Err(e) => {
                let error = package_error(package, e.as_str());
                proof {
                    lemma_mount_failure_stays(package@, base@, all, i + 1, error@);
                }
                return Err(error);
            },
        }
        i += 1;
    }
    assert(all.take(list@.len() as int) =~= all);
    Ok(files)
}

impl Mounting {
    /// Starts resolving a reference: one file for a file reference, or every file beneath
    /// the directory for a directory mount.
    pub fn first(reference: &Reference) -> (r: Self)
        ensures
            r@ == mount_first(reference@),
    {
        if reference.directory {
            Mounting::FindPackage { package: reference.package.clone() }
        } else {
            Mounting::FindFile {
                package: reference.package.clone(),
                subpath: reference.subpath.clone(),
            }
        }
    }

    /// What follows, once the step is answered. A directory mount is resolved through the
    /// package's canonical location and required to stay inside: the subpath is
    /// attacker-influenced, so an in-package symlink must not redirect the mount outside
    /// the module. A walk that follows no links ships only the real files physically under
    /// the contained base.
    pub fn next(self, reference: &Reference, answer: Answer) -> (r: Self)
        ensures
            r@ == mount_next(reference@, self@, answer@),
    {
        match (self, answer) {
            (Mounting::FindFile { .. }, Answer::Found(found)) => match found {
                Ok(file) => {
                    let mut files: Vec<(String, String)> = Vec::new();
                    let nothing = String::new();
                    assert(nothing@ =~= Seq::<char>::empty());
                    files.push((nothing, file));
                    assert(pairs(files@) =~= seq![(Seq::<char>::empty(), file@)]);
                    Mounting::Done { files }
                },
                Err(e) => Mounting::Failed {
                    error: package_error(reference.package.as_str(), e.as_str()),
                },
            },
            (Mounting::FindPackage { .. }, Answer::Found(found)) => match found {
                Ok(dir) => Mounting::ResolvePackage { dir },
                Err(e) => Mounting::Failed {
                    error: package_error(reference.package.as_str(), e.as_str()),
                },
            },
            (Mounting::ResolvePackage { dir }, Answer::Found(found)) => match found {
                Ok(root) => {
                    if reference.subpath.as_str().is_empty() {
                        return Mounting::CheckMount { base: root.clone(), root };
                    }
                    match npm::ensure_within(reference.subpath.as_str()) {
                        Ok(_) => Mounting::ResolveMount {
                            root,
                            path: path::join(dir.as_str(), reference.subpath.as_str()),
                        },
                        Err(e) => Mounting::Failed {
                            error: package_error(reference.package.as_str(), e.as_str()),
                        },
                    }
                },
                Err(e) => Mounting::Failed {
                    error: package_error(reference.package.as_str(), e.as_str()),
                },
            },
            (Mounting::ResolveMount { root, .. }, Answer::Found(found)) => match found {
                Ok(reached) => {
                    if path::starts_with(reached.as_str(), root.as_str()) {
                        Mounting::CheckMount { root, base: reached }
                    } else {
                        Mounting::Failed {
                            error: place_error(reference, "resolves outside the package"),
                        }
                    }
                },
                Err(e) => Mounting::Failed { error: place_error(reference, e.as_str()) },
            },
            (Mounting::CheckMount { root, base }, Answer::Holds(is_dir)) => {
                if is_dir {
                    Mounting::Walk { root, base }
                } else {
                    Mounting::Failed {
                        error: place_error(reference, "not a directory in the package"),
                    }
                }
            },
            (Mounting::Walk { root: _, base }, Answer::Walked(list)) => match collect_mounted(
                reference.package.as_str(),
                base.as_str(),
                &list,
            ) {
                Ok(files) => Mounting::Done { files },
                Err(error) => Mounting::Failed { error },
            },
            (at, _) => at,
        }
    }
}

/// A mounted directory lies in its package.
pub open spec fn mount_contained(at: Mount) -> bool {
    match at {
        Mount::CheckMount { root, base } => parts(root).is_prefix_of(parts(base)),
        Mount::Walk { root, base } => parts(root).is_prefix_of(parts(base)),
        _ => true,
    }
}

proof fn lemma_prefix_of_itself(list: Seq<Part>)
    ensures
        list.is_prefix_of(list),
{
    assert(list =~= list.subrange(0, list.len() as int));
}

proof fn lemma_prefix_transitive(a: Seq<Part>, b: Seq<Part>, c: Seq<Part>)
    requires
        a.is_prefix_of(b),
        b.is_prefix_of(c),
    ensures
        a.is_prefix_of(c),
{
    assert(a =~= c.subrange(0, a.len() as int)) by {
        assert forall|i: int| 0 <= i < a.len() implies a[i] == c[i] by {
            assert(b.subrange(0, a.len() as int)[i] == a[i]);
            assert(c.subrange(0, b.len() as int)[i] == b[i]);
        }
    }
}

proof fn lemma_mounted_below(
    package: Seq<char>,
    base: Seq<char>,
    list: Seq<Result<Place, Seq<char>>>,
)
    ensures
        mounted_files(package, base, list) matches Ok(files) ==> forall|i: int|
            0 <= i < files.len() ==> parts(base).is_prefix_of(parts((#[trigger] files[i]).1)),
    decreases list.len(),
{
    if list.len() > 0 {
        lemma_mounted_below(package, base, list.drop_last());
    }
}

/// A directory mount never leaves the package it names: a resolved directory that is
/// accepted lies below the package's canonical location, and so does every file that a
/// walk of it ships.
pub proof fn law_mount_stays_in_package(reference: Link, at: Mount, reply: Reply)
    requires
        mount_contained(at),
    ensures
        mount_contained(mount_first(reference)),
        mount_contained(mount_next(reference, at, reply)),
        at matches Mount::Walk { root, .. } ==> (mount_next(reference, at, reply) matches Mount::Done {
            files,
        } ==> forall|i: int|
            0 <= i < files.len() ==> parts(root).is_prefix_of(parts((#[trigger] files[i]).1))),
{
    if let Mount::ResolvePackage { .. } = at {
        if let Reply::Found(Ok(root)) = reply {
            lemma_prefix_of_itself(parts(root));
        }
    }
    if let Mount::Walk { root, base } = at {
        if let Reply::Walked(list) = reply {
            lemma_mounted_below(reference.package, base, list);
            if let Ok(files) = mounted_files(reference.package, base, list) {
                assert forall|i: int| 0 <= i < files.len() implies parts(root).is_prefix_of(
                    parts((#[trigger] files[i]).1),
                ) by {
                    lemma_prefix_transitive(parts(root), parts(base), parts(files[i].1));
                }
            }
        }
    }
}

// ---------------------------------------------------------------------------
// Serving, for a request
// ---------------------------------------------------------------------------

/// Where resolving a request stands: what is to be asked next, or the end.
#[derive(Debug, PartialEq, Eq)]
pub enum Serving {
    /// The `npm://` target of the symlink at `prefix`, which is the first `taken`
    /// components of the request.
    Probe { prefix: String, taken: usize },
    /// Resolve the directory that the link is in.
    ResolveFrom { dir: String, reference: Reference, rest: String },
    /// Find the directory of the installed package.
    FindPackage { from: String, reference: Reference, rest: String },
    /// Resolve the package directory to its canonical location.
    ResolvePackage { dir: String, reference: Reference, rest: String },
    /// Resolve the file to its canonical location.
    ResolveFile { root: String, path: String },
    /// Find the file at `subpath` of the installed package.
    FindFile { from: String, package: String, subpath: String },
    /// Whether the place is a file. `within` is the package it was resolved in.
    CheckFile { within: Option<String>, file: String },
    /// The file to serve, if there is one.
    Served { found: Option<String> },
}

/// Where resolving a request stands, as the contracts see it.
pub enum Serve {
    Probe { prefix: Seq<char>, taken: int },
    ResolveFrom { dir: Seq<char>, reference: Link, rest: Seq<char> },
    FindPackage { from: Seq<char>, reference: Link, rest: Seq<char> },
    ResolvePackage { dir: Seq<char>, reference: Link, rest: Seq<char> },
    ResolveFile { root: Seq<char>, path: Seq<char> },
    FindFile { from: Seq<char>, package: Seq<char>, subpath: Seq<char> },
    CheckFile { within: Option<Seq<char>>, file: Seq<char> },
    Served { found: Option<Seq<char>> },
}

impl View for Serving {
    type V = Serve;

    open spec fn view(&self) -> Serve {
        match self {
            Serving::Probe { prefix, taken } => Serve::Probe {
                prefix: prefix@,
                taken: *taken as int,
            },
            Serving::ResolveFrom { dir, reference, rest } => Serve::ResolveFrom {
                dir: dir@,
                reference: reference@,
                rest: rest@,
            },
            Serving::FindPackage { from, reference, rest } => Serve::FindPackage {
                from: from@,
                reference: reference@,
                rest: rest@,
            },
            Serving::ResolvePackage { dir, reference, rest } => Serve::ResolvePackage {
                dir: dir@,
                reference: reference@,
                rest: rest@,
            },
            Serving::ResolveFile { root, path } => Serve::ResolveFile { root: root@, path: path@ },
            Serving::FindFile { from, package, subpath } => Serve::FindFile {
                from: from@,
                package: package@,
                subpath: subpath@,
            },
            Serving::CheckFile { within, file } => Serve::CheckFile {
                within: opt_text(*within),
                file: file@,
            },
            Serving::Served { found } => Serve::Served { found: opt_text(*found) },
        }
    }
}

/// The request that `relative` below `root` is, with `taken` of its components probed or
/// being probed; nothing is left to probe once they are used up.
pub open spec fn probe(root: Seq<char>, relative: Seq<char>, taken: int) -> Serve {
    if 0 < taken <= parts(relative).len() {
        Serve::Probe { prefix: under(root, written(parts(relative).take(taken))), taken }
    } else {
        Serve::Served { found: None }
    }
}

/// What is left of a request behind its first `taken` components.
pub open spec fn remainder(relative: Seq<char>, taken: int) -> Seq<char> {
    if 0 <= taken <= parts(relative).len() {
        tail(relative, taken)
    } else {
        Seq::empty()
    }
}

/// The file that a mounted directory's `subpath` and the rest of a request name.
pub open spec fn mounted_path(root: Seq<char>, reference: Link, rest: Seq<char>) -> Option<
    Seq<char>,
> {
    let base = if reference.subpath.len() == 0 {
        Some(root)
    } else if npm::within(reference.subpath) {
        Some(under(root, reference.subpath))
    } else {
        None
    };
    match base {
        Some(base) => if rest.len() == 0 {
            Some(base)
        } else if npm::within(rest) {
            Some(under(base, rest))
        } else {
            None
        },
        None => None,
    }
}

/// What follows a step of a request, once it is answered. An answer to something else
/// changes nothing.
pub open spec fn serve_next(root: Seq<char>, relative: Seq<char>, at: Serve, reply: Reply) -> Serve {
    let nothing = Serve::Served { found: None };
    match (at, reply) {
        (Serve::Probe { prefix, taken }, Reply::Target(target)) => match target {
            None => probe(root, relative, taken + 1),
            Some(target) => match (link_of(target), parent_of(prefix)) {
                (Some(reference), Some(dir)) => Serve::ResolveFrom {
                    dir,
                    reference,
                    rest: remainder(relative, taken),
                },
                _ => nothing,
            },
        },
        (Serve::ResolveFrom { reference, rest, .. }, Reply::Found(found)) => match found {
            Ok(from) => if reference.directory || rest.len() > 0 {
                Serve::FindPackage { from, reference, rest }
            } else {
                Serve::FindFile { from, package: reference.package, subpath: reference.subpath }
            },
            Err(_) => nothing,
        },
        (Serve::FindPackage { reference, rest, .. }, Reply::Found(found)) => match found {
            Ok(dir) => Serve::ResolvePackage { dir, reference, rest },
            Err(_) => nothing,
        },
        (Serve::ResolvePackage { reference, rest, .. }, Reply::Found(found)) => match found {
            Ok(package) => match mounted_path(package, reference, rest) {
                Some(path) => Serve::ResolveFile { root: package, path },
                None => nothing,
            },
            Err(_) => nothing,
        },
        (Serve::ResolveFile { root: package, .. }, Reply::Found(found)) => match found {
            Ok(reached) => if parts(package).is_prefix_of(parts(reached)) {
                Serve::CheckFile { within: Some(package), file: reached }
            } else {
                nothing
            },
            Err(_) => nothing,
        },
        (Serve::FindFile { .. }, Reply::Found(found)) => match found {
            Ok(file) => Serve::CheckFile { within: None, file },
            Err(_) => nothing,
        },
        (Serve::CheckFile { file, .. }, Reply::Holds(is_file)) => if is_file {
            Serve::Served { found: Some(file) }
        } else {
            nothing
        },
        _ => at,
    }
}

/// The first `taken` components of a path, in canonical spelling.
fn section(relative: &str, taken: usize) -> (r: String)
    requires
        taken <= parts(relative@).len(),
    ensures
        r@ == written(parts(relative@).take(taken as int)),
{
    let mut all = path::components(relative);
    let ghost list = all@;
    assert(views(list) == parts(relative@));
    while all.len() > taken
        invariant
            taken <= all@.len() <= list.len(),
            all@ == list.take(all@.len() as int),
        decreases all@.len(),
    {
        let ghost before = all@;
        let _ = all.pop();
        assert(all@ =~= list.take(all@.len() as int));
    }
    assert(views(all@) =~= parts(relative@).take(taken as int));
    path::render(&all)
}

fn probe_at(root: &str, relative: &str, taken: usize) -> (r: Serving)
    ensures
        r@ == probe(root@, relative@, taken as int),
{
    let all = path::components(relative);
    let n = all.len();
    assert(views(all@).len() == parts(relative@).len());
    if taken == 0 || taken > n {
        return Serving::Served { found: None };
    }
    let prefix = section(relative, taken);
    Serving::Probe { prefix: path::join(root, prefix.as_str()), taken }
}

fn mounted_file(root: &str, reference: &Reference, rest: &str) -> (r: Option<String>)
    ensures
        opt_text(r) == mounted_path(root@, reference@, rest@),
{
    let subpath = reference.subpath.as_str();
    let mut file = root.to_owned();
    if !subpath.is_empty() {
        if npm::ensure_within(subpath).is_err() {
            return None;
        }
        file = path::join(file.as_str(), subpath);
    }
    if !rest.is_empty() {
        if npm::ensure_within(rest).is_err() {
            return None;
        }
        file = path::join(file.as_str(), rest);
    }
    Some(file)
}

impl Serving {
    /// Starts resolving a dev-server request: if `relative` under `root` (or one of its
    /// ancestors) is an `npm://` symlink, the end is the real `node_modules` file it maps
    /// to; nothing when no `npm://` link lies on the path.
    pub fn first(root: &str, relative: &str) -> (r: Self)
        ensures
            r@ == probe(root@, relative@, 1),
    {
        probe_at(root, relative, 1)
    }

    /// What follows, once the step is answered. A directory mount, or a file reached
    /// through one, is resolved through the package's canonical location and refused if it
    /// escapes, so an in-package symlink cannot serve a file outside the module.
    pub fn next(self, root: &str, relative: &str, answer: Answer) -> (r: Self)
        ensures
            r@ == serve_next(root@, relative@, self@, answer@),
    {
        match (self, answer) {
            (Serving::Probe { prefix, taken }, Answer::Target(target)) => match target {
                None => {
                    let all = path::components(relative);
                    let n = all.len();
                    assert(views(all@).len() == parts(relative@).len());
                    if taken >= n {
                        return Serving::Served { found: None };
                    }
                    probe_at(root, relative, taken + 1)
                },
                Some(target) => {
                    let reference = match parse(target.as_str()) {
                        Some(reference) => reference,
                        None => {
                            return Serving::Served { found: None };
                        },
                    };
                    let dir = match path::parent(prefix.as_str()) {
                        Some(dir) => dir,
                        None => {
                            return Serving::Served { found: None };
                        },
                    };
                    let all = path::components(relative);
                    let n = all.len();
                    assert(views(all@).len() == parts(relative@).len());
                    let rest = if taken <= n {
                        path::trailing(relative, taken)
                    } else {
                        String::new()
                    };
                    assert(taken > n ==> rest@ =~= remainder(relative@, taken as int));
                    Serving::ResolveFrom { dir, reference, rest }
                },
            },
            (Serving::ResolveFrom { dir: _, reference, rest }, Answer::Found(found)) => match found {
                Ok(from) => {
                    if reference.directory || !rest.as_str().is_empty() {
                        Serving::FindPackage { from, reference, rest }
                    } else {
                        Serving::FindFile {
                            from,
                            package: reference.package,
                            subpath: reference.subpath,
                        }
                    }
                },
                Err(_) => Serving::Served { found: None },
            },
            (
                Serving::FindPackage { from: _, reference, rest },
                Answer::Found(found),
            ) => match found {
                Ok(dir) => Serving::ResolvePackage { dir, reference, rest },
                Err(_) => Serving::Served { found: None },
            },
            (
                Serving::ResolvePackage { dir: _, reference, rest },
                Answer::Found(found),
            ) => match found {
                Ok(package) => match mounted_file(package.as_str(), &reference, rest.as_str()) {
                    Some(path) => Serving::ResolveFile { root: package, path },
                    None => Serving::Served { found: None },
                },
                Err(_) => Serving::Served { found: None },
            },
            (Serving::ResolveFile { root: package, path: _ }, Answer::Found(found)) => match found {
                Ok(reached) => {
                    if path::starts_with(reached.as_str(), package.as_str()) {
                        Serving::CheckFile { within: Some(package), file: reached }
                    } else {
                        Serving::Served { found: None }
                    }
                },
                Err(_) => Serving::Served { found: None },
            },
            (Serving::FindFile { .. }, Answer::Found(found)) => match found {
                Ok(file) => Serving::CheckFile { within: None, file },
                Err(_) => Serving::Served { found: None },
            },
            (Serving::CheckFile { within: _, file }, Answer::Holds(is_file)) => {
                if is_file {
                    Serving::Served { found: Some(file) }
                } else {
                    Serving::Served { found: None }
                }
            },
            (at, _) => at,
        }
    }
}

/// A file reached through a mounted directory lies in its package.
pub open spec fn serve_contained(at: Serve) -> bool {
    match at {
        Serve::CheckFile { within: Some(root), file } => parts(root).is_prefix_of(parts(file)),
        _ => true,
    }
}

/// A request through a mounted directory never leaves the package: the file that is served
/// lies below the package's canonical location. And no file is served that was not found to
/// be one.
pub proof fn law_served_stays_in_package(
    root: Seq<char>,
    relative: Seq<char>,
    at: Serve,
    reply: Reply,
)
    requires
        serve_contained(at),
    ensures
        serve_contained(probe(root, relative, 1)),
        serve_contained(serve_next(root, relative, at, reply)),
        !(at is Served) ==> (serve_next(root, relative, at, reply) matches Serve::Served {
            found: Some(file),
        } ==> at matches Serve::CheckFile { file: checked, .. } && checked == file && reply
            == Reply::Holds(true)),
{
}

proof fn lemma_target(rest: Seq<char>)
    ensures
        SCHEME@.is_prefix_of("npm://"@ + rest),
        ("npm://"@ + rest).skip(SCHEME@.len() as int) == rest,
        without_prefix("npm://"@ + rest, SCHEME@) == Some(rest),
{
    let all = "npm://"@ + rest;
    assert(all.subrange(0, SCHEME@.len() as int) =~= SCHEME@);
    assert(all.skip(SCHEME@.len() as int) =~= rest);
}

proof fn lemma_trailing_slash(rest: Seq<char>)
    requires
        rest.len() > 0,
        rest.last() != '/',
    ensures
        trimmed_end(rest, "/"@) == rest,
        trimmed_end(rest + "/"@, "/"@) == rest,
        !"/"@.is_suffix_of(rest),
        "/"@.is_suffix_of(rest + "/"@),
{
    reveal_strlit("/");
    let set = "/"@;
    assert(forall|c: char| set.contains(c) <==> c == '/') by {
        assert(set[0] == '/');
    }
    assert((rest + set).drop_last() =~= rest);
    assert((rest + set).last() == '/');
    assert(set.contains((rest + set).last()));
    assert(!set.contains(rest.last()));
    assert(trimmed_end(rest, set) == rest);
    text::lemma_suffix_chars(rest, set);
    text::lemma_suffix_chars(rest + set, set);
    if set.is_suffix_of(rest) {
        assert(rest[rest.len() - 1] == set[0]);
    }
}

/// `npm://name/path` is the file `path` of the package `name`, `npm://name` the package itself, and
/// a slash at the end makes it a directory.
pub proof fn law_plain_reference(name: Seq<char>, path: Seq<char>)
    requires
        name.len() > 0,
        !name.contains('/'),
        name[0] != '@',
        path.len() > 0,
        path.last() != '/',
    ensures
        link_of("npm://"@ + (name + "/"@ + path)) == Some(
            Link { package: name, subpath: path, directory: false },
        ),
        link_of("npm://"@ + (name + "/"@ + path + "/"@)) == Some(
            Link { package: name, subpath: path, directory: true },
        ),
        link_of("npm://"@ + name) == Some(
            Link { package: name, subpath: Seq::empty(), directory: false },
        ),
        link_of("npm://"@ + (name + "/"@)) == Some(
            Link { package: name, subpath: Seq::empty(), directory: true },
        ),
{
    reveal_strlit("/");
    reveal_strlit("@");
    let whole = name + "/"@ + path;
    assert(whole =~= name.push('/') + path);
    lemma_target(whole);
    lemma_target(whole + "/"@);
    lemma_target(name);
    lemma_target(name + "/"@);
    assert(name + "/"@ + path + "/"@ =~= whole + "/"@);
    assert(whole.last() == path.last());
    assert(name.last() != '/') by {
        if name.last() == '/' {
            assert(name.contains(name[name.len() - 1]));
        }
    }
    lemma_trailing_slash(whole);
    lemma_trailing_slash(name);
    assert(!"@"@.is_prefix_of(whole)) by {
        if "@"@.is_prefix_of(whole) {
            assert(whole.subrange(0, 1)[0] == '@');
            assert(whole[0] == name[0]);
        }
    }
    assert(!"@"@.is_prefix_of(name)) by {
        if "@"@.is_prefix_of(name) {
            assert(name.subrange(0, 1)[0] == '@');
        }
    }
    text::law_cut_undoes_joining(name, '/', path);
    text::law_cut(name, '/');
    if let Some((head, rest)) = cut(name, '/') {
        assert(name[head.len() as int] == '/');
    }
    assert(package_path(whole) == Some((name, path)));
    assert(package_path(name) == Some((name, Seq::<char>::empty())));
}

/// A scoped package spans two segments: `npm://@scope/name/path` is the file `path` of
/// `@scope/name`.
pub proof fn law_scoped_reference(scope: Seq<char>, name: Seq<char>, path: Seq<char>)
    requires
        scope.len() > 0,
        !scope.contains('/'),
        name.len() > 0,
        !name.contains('/'),
        path.len() > 0,
        path.last() != '/',
    ensures
        link_of("npm://"@ + ("@"@ + scope + "/"@ + name + "/"@ + path)) == Some(
            Link { package: "@"@ + scope + "/"@ + name, subpath: path, directory: false },
        ),
        link_of("npm://"@ + ("@"@ + scope + "/"@ + name + "/"@ + path + "/"@)) == Some(
            Link { package: "@"@ + scope + "/"@ + name, subpath: path, directory: true },
        ),
        link_of("npm://"@ + ("@"@ + scope)) is None,
{
    reveal_strlit("/");
    reveal_strlit("@");
    let whole = "@"@ + scope + "/"@ + name + "/"@ + path;
    let inner = name.push('/') + path;
    lemma_target(whole);
    lemma_target(whole + "/"@);
    lemma_target("@"@ + scope);
    assert("@"@ + scope + "/"@ + name + "/"@ + path + "/"@ =~= whole + "/"@);
    assert(whole.last() == path.last());
    lemma_trailing_slash(whole);
    assert(whole.subrange(0, 1) =~= "@"@);
    assert(whole.skip(1) =~= scope.push('/') + inner);
    text::law_cut_undoes_joining(scope, '/', inner);
    text::law_cut_undoes_joining(name, '/', path);
    assert(package_path(whole) == Some(("@"@ + scope + "/"@ + name, path)));
    let lone = "@"@ + scope;
    assert(scope.last() != '/') by {
        if scope.last() == '/' {
            assert(scope.contains(scope[scope.len() - 1]));
        }
    }
    assert(lone.last() == scope.last());
    lemma_trailing_slash(lone);
    assert(lone.subrange(0, 1) =~= "@"@);
    assert(lone.skip(1) =~= scope);
    text::law_cut(scope, '/');
    if let Some((head, rest)) = cut(scope, '/') {
        assert(scope[head.len() as int] == '/');
    }
}

/// A target without the scheme is no reference.
pub proof fn law_other_targets(target: Seq<char>)
    requires
        !"npm://"@.is_prefix_of(target),
    ensures
        link_of(target) is None,
{
}

/// A file reference asks for its file and emits it at the link's own place; a directory reference
/// asks for the package, resolves it, resolves the directory in it, and walks that.
pub proof fn law_mounting(
    reference: Link,
    dir: Seq<char>,
    root: Seq<char>,
    base: Seq<char>,
    file: Seq<char>,
    list: Seq<Result<Place, Seq<char>>>,
)
    ensures
        !reference.directory ==> mount_first(reference) == (Mount::FindFile {
            package: reference.package,
            subpath: reference.subpath,
        }),
        reference.directory ==> mount_first(reference) == (Mount::FindPackage {
            package: reference.package,
        }),
        mount_next(
            reference,
            Mount::FindFile { package: reference.package, subpath: reference.subpath },
            Reply::Found(Ok(file)),
        ) == (Mount::Done { files: seq![(Seq::<char>::empty(), file)] }),
        mount_next(
            reference,
            Mount::FindPackage { package: reference.package },
            Reply::Found(Ok(dir)),
        ) == (Mount::ResolvePackage { dir }),
        reference.subpath.len() == 0 ==> mount_next(
            reference,
            Mount::ResolvePackage { dir },
            Reply::Found(Ok(root)),
        ) == (Mount::CheckMount { root, base: root }),
        reference.subpath.len() > 0 && npm::within(reference.subpath) ==> mount_next(
            reference,
            Mount::ResolvePackage { dir },
            Reply::Found(Ok(root)),
        ) == (Mount::ResolveMount { root, path: under(dir, reference.subpath) }),
        reference.subpath.len() > 0 && !npm::within(reference.subpath) ==> mount_next(
            reference,
            Mount::ResolvePackage { dir },
            Reply::Found(Ok(root)),
        ) is Failed,
        parts(root).is_prefix_of(parts(base)) ==> mount_next(
            reference,
            Mount::ResolveMount { root, path: dir },
            Reply::Found(Ok(base)),
        ) == (Mount::CheckMount { root, base }),
        mount_next(reference, Mount::CheckMount { root, base }, Reply::Holds(true)) == (Mount::Walk {
            root,
            base,
        }),
        mount_next(reference, Mount::CheckMount { root, base }, Reply::Holds(false)) is Failed,
        mounted_files(reference.package, base, list) is Ok <==> mount_next(
            reference,
            Mount::Walk { root, base },
            Reply::Walked(list),
        ) is Done,
{
}

/// A complaint at any step fails the mount.
pub proof fn law_mounting_fails(reference: Link, at: Mount, e: Seq<char>)
    requires
        at is FindFile || at is FindPackage || at is ResolvePackage || at is ResolveMount,
    ensures
        mount_next(reference, at, Reply::Found(Err(e))) is Failed,
{
}

/// Every file that a walk met is emitted under its path below the mounted directory, from where it
/// is, in order; nothing else is, and a complaint of the walk fails the mount.
pub proof fn law_mounted_files(
    package: Seq<char>,
    base: Seq<char>,
    list: Seq<Result<Place, Seq<char>>>,
    place: Place,
    e: Seq<char>,
)
    ensures
        mounted_files(package, base, Seq::empty()) == Ok::<Seq<(Seq<char>, Seq<char>)>, Failure>(
            Seq::empty(),
        ),
        mounted_files(package, base, list) matches Ok(front) ==> {
            &&& place.kind == Kind::File && (rest_of(place.path, base) is Some) ==> mounted_files(
                package,
                base,
                list.push(Ok(place)),
            ) == Ok::<Seq<(Seq<char>, Seq<char>)>, Failure>(
                front.push((rest_of(place.path, base)->Some_0, place.path)),
            )
            &&& place.kind != Kind::File ==> mounted_files(package, base, list.push(Ok(place)))
                == Ok::<Seq<(Seq<char>, Seq<char>)>, Failure>(front)
            &&& mounted_files(package, base, list.push(Err(e))) is Err
        },
        mounted_files(package, base, list) is Err ==> mounted_files(
            package,
            base,
            list.push(Ok(place)),
        ) is Err,
{
    assert(list.push(Ok(place)).drop_last() =~= list);
    assert(list.push(Err(e)).drop_last() =~= list);
}

/// A request is probed component by component, from the first, until a link is found or none is
/// left; the rest behind the link is looked for in what the link names.
pub proof fn law_probing(
    root: Seq<char>,
    relative: Seq<char>,
    prefix: Seq<char>,
    taken: int,
    target: Seq<char>,
)
    requires
        0 < taken <= parts(relative).len(),
    ensures
        probe(root, relative, taken) == (Serve::Probe {
            prefix: under(root, written(parts(relative).take(taken))),
            taken,
        }),
        probe(root, relative, parts(relative).len() as int + 1) == (Serve::Served { found: None }),
        serve_next(root, relative, Serve::Probe { prefix, taken }, Reply::Target(None)) == probe(
            root,
            relative,
            taken + 1,
        ),
        link_of(target) matches Some(reference) ==> (parent_of(prefix) matches Some(dir)
            ==> serve_next(
            root,
            relative,
            Serve::Probe { prefix, taken },
            Reply::Target(Some(target)),
        ) == (Serve::ResolveFrom { dir, reference, rest: tail(relative, taken) })),
        link_of(target) is None ==> serve_next(
            root,
            relative,
            Serve::Probe { prefix, taken },
            Reply::Target(Some(target)),
        ) == (Serve::Served { found: None }),
{
}

/// A link to a file is looked up as one; a link to a directory, and whatever lies behind a link, is
/// looked up in the package, below the directory that the link names.
pub proof fn law_serving(
    root: Seq<char>,
    relative: Seq<char>,
    reference: Link,
    dir: Seq<char>,
    rest: Seq<char>,
    found: Seq<char>,
    package: Seq<char>,
)
    ensures
        !reference.directory && rest.len() == 0 ==> serve_next(
            root,
            relative,
            Serve::ResolveFrom { dir, reference, rest },
            Reply::Found(Ok(found)),
        ) == (Serve::FindFile {
            from: found,
            package: reference.package,
            subpath: reference.subpath,
        }),
        reference.directory || rest.len() > 0 ==> serve_next(
            root,
            relative,
            Serve::ResolveFrom { dir, reference, rest },
            Reply::Found(Ok(found)),
        ) == (Serve::FindPackage { from: found, reference, rest }),
        serve_next(
            root,
            relative,
            Serve::FindPackage { from: dir, reference, rest },
            Reply::Found(Ok(found)),
        ) == (Serve::ResolvePackage { dir: found, reference, rest }),
        serve_next(
            root,
            relative,
            Serve::ResolvePackage { dir, reference, rest },
            Reply::Found(Ok(package)),
        ) == (match mounted_path(package, reference, rest) {
            Some(path) => Serve::ResolveFile { root: package, path },
            None => Serve::Served { found: None },
        }),
        parts(package).is_prefix_of(parts(found)) ==> serve_next(
            root,
            relative,
            Serve::ResolveFile { root: package, path: dir },
            Reply::Found(Ok(found)),
        ) == (Serve::CheckFile { within: Some(package), file: found }),
        serve_next(
            root,
            relative,
            Serve::FindFile { from: dir, package, subpath: rest },
            Reply::Found(Ok(found)),
        ) == (Serve::CheckFile { within: None, file: found }),
        serve_next(
            root,
            relative,
            Serve::CheckFile { within: Some(package), file: found },
            Reply::Holds(true),
        ) == (Serve::Served { found: Some(found) }),
        serve_next(
            root,
            relative,
            Serve::CheckFile { within: None, file: found },
            Reply::Holds(false),
        ) == (Serve::Served { found: None }),
{
}

/// The file that is looked for lies in the package, below the link's own directory and behind that
/// the rest of the request; either is refused when it would leave the package.
pub proof fn law_mounted_path(root: Seq<char>, reference: Link, rest: Seq<char>)
    ensures
        reference.subpath.len() == 0 && rest.len() == 0 ==> mounted_path(root, reference, rest)
            == Some(root),
        reference.subpath.len() == 0 && npm::within(rest) ==> mounted_path(root, reference, rest)
            == Some(under(root, rest)),
        npm::within(reference.subpath) && rest.len() == 0 ==> mounted_path(root, reference, rest)
            == Some(under(root, reference.subpath)),
        npm::within(reference.subpath) && npm::within(rest) ==> mounted_path(root, reference, rest)
            == Some(under(under(root, reference.subpath), rest)),
        reference.subpath.len() > 0 && !npm::within(reference.subpath) ==> mounted_path(
            root,
            reference,
            rest,
        ) is None,
        rest.len() > 0 && !npm::within(rest) ==> mounted_path(root, reference, rest) is None,
{
}

/// A package has a name: a reference without one, and a scoped one without a scope or without a name
/// behind it, is none.
pub proof fn law_nameless_references(rest: Seq<char>)
    requires
        rest.len() > 0,
        rest.last() != '/',
    ensures
        link_of("npm://"@ + ("@/"@ + rest)) is None,
        link_of("npm://"@ + ("/"@ + rest)) is None,
        link_of("npm://"@ + ("@s//"@ + rest)) is None,
{
    reveal_strlit("@/");
    reveal_strlit("/");
    reveal_strlit("@s//");
    reveal_strlit("@");
    let none = Seq::<char>::empty();
    let a = "@/"@ + rest;
    lemma_target(a);
    assert(a.last() == rest.last());
    lemma_trailing_slash(a);
    assert(a.subrange(0, 1) =~= "@"@);
    assert(a.skip(1) =~= none.push('/') + rest);
    text::law_cut_undoes_joining(none, '/', rest);
    let b = "/"@ + rest;
    lemma_target(b);
    assert(b.last() == rest.last());
    lemma_trailing_slash(b);
    assert(!"@"@.is_prefix_of(b)) by {
        if "@"@.is_prefix_of(b) {
            assert(b.subrange(0, 1)[0] == '@');
        }
    }
    assert(b =~= none.push('/') + rest);
    let c = "@s//"@ + rest;
    lemma_target(c);
    assert(c.last() == rest.last());
    lemma_trailing_slash(c);
    assert(c.subrange(0, 1) =~= "@"@);
    assert(c.skip(1) =~= seq!['s'].push('/') + b);
    text::law_cut_undoes_joining(seq!['s'], '/', b);
}

} // verus!
