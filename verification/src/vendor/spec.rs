//! One package to vendor.

use vstd::prelude::*;

use crate::text;
use crate::text::opt_text;

verus! {

/// Where a package's bytes come from.
#[derive(Debug, PartialEq, Eq)]
pub enum Source {
    /// npm registry: resolve `range` to the newest matching published version.
    Npm { package: String, range: String },
    /// A GitHub repository archive (`owner` + `repo`) at a git `reference`
    /// (tag, branch, or commit).
    Git { owner: String, repo: String, reference: String },
    /// A pre-packed tarball at an absolute https URL: an `npm pack` `.tgz`, such
    /// as a GitHub Release asset. Extracted like an npm tarball (nested under
    /// `package/`). `name` gives the import-map base; `url` doubles as the cache
    /// key, so a new release URL re-fetches.
    Tarball { name: String, url: String },
}

/// A source, as the contracts see it.
pub enum Origin {
    Npm { package: Seq<char>, range: Seq<char> },
    Git { owner: Seq<char>, repo: Seq<char>, reference: Seq<char> },
    Tarball { name: Seq<char>, url: Seq<char> },
}

impl View for Source {
    type V = Origin;

    open spec fn view(&self) -> Origin {
        match self {
            Source::Npm { package, range } => Origin::Npm { package: package@, range: range@ },
            Source::Git { owner, repo, reference } => Origin::Git {
                owner: owner@,
                repo: repo@,
                reference: reference@,
            },
            Source::Tarball { name, url } => Origin::Tarball { name: name@, url: url@ },
        }
    }
}

/// Which predicate an [`Extract::Filter`] keeps entries by.
#[derive(Clone, Copy, Debug, PartialEq, Eq, Structural)]
pub enum Keep {
    /// [`keep_sources`](crate::vendor::keep::keep_sources).
    Sources,
    /// The caller's own predicate.
    Caller,
}

/// How a package's archive is extracted into its destination directory.
#[derive(Debug, PartialEq, Eq)]
pub enum Extract {
    /// Keep browser assets (`.js`/`.mjs`/`.css`/`.scss`, dropping `src`/`node`/
    /// `development` trees). The default. Files referenced by the package's
    /// `package.json` exports are kept too, even under `src/`.
    BrowserAssets,
    /// Extract the **entire** archive (no filter), e.g. a full package staged
    /// into a `node_modules/` tree to serve as a SCSS `@use`/`@import` load path.
    Full,
    /// Extract a single file `from` (path inside the package) to `to` (relative
    /// to the destination dir), renaming as needed, e.g. one sprite or font.
    /// Does **not** clear the destination, so several `File` specs can target a
    /// shared directory.
    File { from: String, to: String },
    /// Keep entries for which the predicate returns the (possibly rewritten)
    /// relative path, dropping the rest.
    Filter(Keep),
}

/// An extraction mode, as the contracts see it.
pub enum Mode {
    BrowserAssets,
    Full,
    File { from: Seq<char>, to: Seq<char> },
    Filter(Keep),
}

impl View for Extract {
    type V = Mode;

    open spec fn view(&self) -> Mode {
        match self {
            Extract::BrowserAssets => Mode::BrowserAssets,
            Extract::Full => Mode::Full,
            Extract::File { from, to } => Mode::File { from: from@, to: to@ },
            Extract::Filter(keep) => Mode::Filter(*keep),
        }
    }
}

/// Import-map strategy for a spec.
#[derive(Debug, PartialEq, Eq)]
pub enum Imports {
    /// Auto-derive from the package's `package.json` exports (npm packages).
    Auto,
    /// No import-map entry (a SCSS/CSS-only package, a `<script>`-loaded global,
    /// or a single vendored file).
    Nothing,
    /// Explicit `(specifier, path)` entries, `path` relative to `<mount>/<dir>/`.
    Explicit(Vec<(String, String)>),
}

/// An import-map strategy, as the contracts see it.
pub enum Strategy {
    Auto,
    Nothing,
    Explicit(Seq<(Seq<char>, Seq<char>)>),
}

impl View for Imports {
    type V = Strategy;

    open spec fn view(&self) -> Strategy {
        match self {
            Imports::Auto => Strategy::Auto,
            Imports::Nothing => Strategy::Nothing,
            Imports::Explicit(list) => Strategy::Explicit(text::pairs(list@)),
        }
    }
}

/// One package to vendor, built fluently.
#[derive(Debug, PartialEq, Eq)]
pub struct PackageSpec {
    pub source: Source,
    pub dir: String,
    pub dest: Option<String>,
    pub extract: Extract,
    pub imports: Imports,
    /// Compile the package's TypeScript after extraction, so what lands in the
    /// vendor tree is what a browser loads. Set by [`PackageSpec::as_source`].
    pub compile: bool,
}

/// A package to vendor, as the contracts see it.
pub struct Wanted {
    pub source: Origin,
    pub dir: Seq<char>,
    pub dest: Option<Seq<char>>,
    pub extract: Mode,
    pub imports: Strategy,
    pub compile: bool,
}

impl View for PackageSpec {
    type V = Wanted;

    open spec fn view(&self) -> Wanted {
        Wanted {
            source: self.source@,
            dir: self.dir@,
            dest: opt_text(self.dest),
            extract: self.extract@,
            imports: self.imports@,
            compile: self.compile,
        }
    }
}

impl Clone for Source {
    fn clone(&self) -> (r: Self)
        ensures
            r@ == self@,
    {
        match self {
            Source::Npm { package, range } => Source::Npm {
                package: package.clone(),
                range: range.clone(),
            },
            Source::Git { owner, repo, reference } => Source::Git {
                owner: owner.clone(),
                repo: repo.clone(),
                reference: reference.clone(),
            },
            Source::Tarball { name, url } => Source::Tarball {
                name: name.clone(),
                url: url.clone(),
            },
        }
    }
}

impl Clone for Extract {
    fn clone(&self) -> (r: Self)
        ensures
            r@ == self@,
    {
        match self {
            Extract::BrowserAssets => Extract::BrowserAssets,
            Extract::Full => Extract::Full,
            Extract::File { from, to } => Extract::File { from: from.clone(), to: to.clone() },
            Extract::Filter(keep) => Extract::Filter(*keep),
        }
    }
}

impl Clone for Imports {
    fn clone(&self) -> (r: Self)
        ensures
            r@ == self@,
    {
        match self {
            Imports::Auto => Imports::Auto,
            Imports::Nothing => Imports::Nothing,
            Imports::Explicit(list) => {
                let mut out: Vec<(String, String)> = Vec::new();
                let mut i: usize = 0;
                while i < list.len()
                    invariant
                        i <= list@.len(),
                        out@.len() == i,
                        forall|j: int|
                            0 <= j < i ==> text::pair_text(#[trigger] out@[j]) == text::pair_text(
                                list@[j],
                            ),
                    decreases list@.len() - i,
                {
                    out.push((list[i].0.clone(), list[i].1.clone()));
                    i += 1;
                }
                assert(text::pairs(out@) =~= text::pairs(list@));
                Imports::Explicit(out)
            },
        }
    }
}

impl Clone for PackageSpec {
    fn clone(&self) -> (r: Self)
        ensures
            r@ == self@,
    {
        PackageSpec {
            source: self.source.clone(),
            dir: self.dir.clone(),
            dest: self.dest.clone(),
            extract: self.extract.clone(),
            imports: self.imports.clone(),
            compile: self.compile,
        }
    }
}

/// The contents of a list of specs.
pub open spec fn wanted(specs: Seq<PackageSpec>) -> Seq<Wanted> {
    Seq::new(specs.len(), |i: int| specs[i]@)
}

pub proof fn lemma_wanted_push(specs: Seq<PackageSpec>, s: PackageSpec)
    ensures
        wanted(specs.push(s)) == wanted(specs).push(s@),
{
    assert(wanted(specs.push(s)) =~= wanted(specs).push(s@));
}

/// An npm package by its defaults.
pub open spec fn npm_package(package: Seq<char>, range: Seq<char>) -> Wanted {
    Wanted {
        source: Origin::Npm { package, range },
        dir: package,
        dest: None,
        extract: Mode::BrowserAssets,
        imports: Strategy::Auto,
        compile: false,
    }
}

/// The owner and the name of a repository: what stands before and after the first `/`.
pub open spec fn owner_and_name(repo: Seq<char>) -> (Seq<char>, Seq<char>) {
    match text::cut(repo, '/') {
        Some(p) => p,
        None => (Seq::empty(), repo),
    }
}

/// A GitHub archive by its defaults.
pub open spec fn git_package(repo: Seq<char>, reference: Seq<char>) -> Wanted {
    let (owner, name) = owner_and_name(repo);
    Wanted {
        source: Origin::Git { owner, repo: name, reference },
        dir: name,
        dest: None,
        extract: Mode::BrowserAssets,
        imports: Strategy::Nothing,
        compile: false,
    }
}

/// A tarball by its defaults.
pub open spec fn tarball_package(name: Seq<char>, url: Seq<char>) -> Wanted {
    Wanted {
        source: Origin::Tarball { name, url },
        dir: name,
        dest: None,
        extract: Mode::BrowserAssets,
        imports: Strategy::Auto,
        compile: false,
    }
}

/// What a positional spec asks for: the range stands after the last `@`, unless that leads.
pub open spec fn positional(spec: Seq<char>) -> Wanted {
    match text::char_at_last(spec, '@') {
        Some(i) => if i > 0 {
            npm_package(spec.take(i), spec.skip(i + 1))
        } else {
            npm_package(spec, "*"@)
        },
        None => npm_package(spec, "*"@),
    }
}

/// A package taken as sources and compiled.
pub open spec fn sourced(w: Wanted) -> Wanted {
    Wanted {
        extract: Mode::Filter(Keep::Sources),
        compile: true,
        imports: Strategy::Auto,
        ..w
    }
}

impl PackageSpec {
    /// An npm package resolved against a semver `range`. Defaults: browser-asset
    /// extraction, auto-derived import map, vended to `<vendor_dir>/<package>/`.
    pub fn npm(package: &str, range: &str) -> (r: Self)
        ensures
            r@ == npm_package(package@, range@),
    {
        PackageSpec {
            dir: package.to_owned(),
            source: Source::Npm { package: package.to_owned(), range: range.to_owned() },
            dest: None,
            extract: Extract::BrowserAssets,
            imports: Imports::Auto,
            compile: false,
        }
    }

    /// A GitHub repository archive (`"owner/repo"`) at a git `reference` (tag,
    /// branch, or commit). Defaults: browser-asset extraction, **no** import-map
    /// entry, vended to `<vendor_dir>/<repo>/`.
    pub fn git(repo: &str, reference: &str) -> (r: Self)
        ensures
            r@ == git_package(repo@, reference@),
    {
        let (owner, name) = match text::split_once(repo, '/') {
            Some(p) => p,
            None => (String::new(), repo.to_owned()),
        };
        PackageSpec {
            dir: name.clone(),
            source: Source::Git { owner, repo: name, reference: reference.to_owned() },
            dest: None,
            extract: Extract::BrowserAssets,
            imports: Imports::Nothing,
            compile: false,
        }
    }

    /// A pre-packed `.tgz` at an absolute https URL: an `npm pack` archive such as
    /// a GitHub Release asset. Defaults: browser-asset extraction, auto-derived
    /// import map (the tarball carries its own `package.json`), vended to
    /// `<vendor_dir>/<name>/`. Unlike [`git`](Self::git), which fetches a whole-repo
    /// source archive, this is the built, publishable package.
    pub fn tarball(name: &str, url: &str) -> (r: Self)
        ensures
            r@ == tarball_package(name@, url@),
    {
        PackageSpec {
            dir: name.to_owned(),
            source: Source::Tarball { name: name.to_owned(), url: url.to_owned() },
            dest: None,
            extract: Extract::BrowserAssets,
            imports: Imports::Auto,
            compile: false,
        }
    }

    /// Parse one positional npm spec, `name`, `name@range`, or `@scope/name@range`
    /// (e.g. `lit`, `lit@^3`, `@lit/context@^1`), into an [`npm`](Self::npm) spec.
    /// The range `@` is the last one, so a leading scope `@` is preserved; a bare
    /// `name` (no range) resolves to `name@*`. Infallible: any string yields a spec.
    pub fn parse(spec: &str) -> (r: Self)
        ensures
            r@ == positional(spec@),
    {
        let all = text::chars(spec);
        proof {
            text::lemma_char_at_last(spec@, '@');
        }
        match text::last_of(&all, '@') {
            Some(i) if i > 0 => {
                let n = all.len();
                let name = text::slice(&all, 0, i);
                let range = text::slice(&all, i + 1, n);
                assert(name@ =~= spec@.take(i as int));
                assert(range@ =~= spec@.skip(i + 1));
                PackageSpec::npm(name.as_str(), range.as_str())
            },
            _ => PackageSpec::npm(spec, "*"),
        }
    }

    /// Override the subdirectory under the vendor root (and the import-map URL
    /// segment). Defaults to the package/repo name.
    pub fn dir(self, dir: &str) -> (r: Self)
        ensures
            r@ == (Wanted { dir: dir@, ..self@ }),
    {
        PackageSpec {
            source: self.source,
            dir: dir.to_owned(),
            dest: self.dest,
            extract: self.extract,
            imports: self.imports,
            compile: self.compile,
        }
    }

    /// Extract somewhere other than `<vendor_dir>/<dir>/`, e.g. a sibling
    /// `node_modules/`. A relative path is resolved against `vendor_dir`.
    pub fn dest(self, dest: &str) -> (r: Self)
        ensures
            r@ == (Wanted { dest: Some(dest@), ..self@ }),
    {
        PackageSpec {
            source: self.source,
            dir: self.dir,
            dest: Some(dest.to_owned()),
            extract: self.extract,
            imports: self.imports,
            compile: self.compile,
        }
    }

    /// Choose the extraction mode (default [`Extract::BrowserAssets`]).
    pub fn extract(self, extract: Extract) -> (r: Self)
        ensures
            r@ == (Wanted { extract: extract@, ..self@ }),
    {
        PackageSpec {
            source: self.source,
            dir: self.dir,
            dest: self.dest,
            extract,
            imports: self.imports,
            compile: self.compile,
        }
    }

    /// Shorthand for `.extract(Extract::Filter(keep))`.
    pub fn keep(self, keep: Keep) -> (r: Self)
        ensures
            r@ == (Wanted { extract: Mode::Filter(keep), ..self@ }),
    {
        self.extract(Extract::Filter(keep))
    }

    /// Take the package's **sources** and compile them, for a package that publishes
    /// no browser-usable build.
    ///
    /// Keeps `src/` (which [`Extract::BrowserAssets`] drops) via
    /// [`keep_sources`](crate::vendor::keep::keep_sources), then compiles the
    /// TypeScript into the layout the package's own `tsconfig.json` declares, so
    /// `main`/`module`/`exports` resolve against files that are there, and the
    /// vendored tree is browser-ready like any other.
    ///
    /// A git spec derives no import-map entry by default, because a whole-repo archive
    /// has no reliable browser entry. Once compiled, this package's own
    /// `main`/`module`/`exports` do resolve, so the ordinary auto-derivation applies.
    pub fn as_source(self) -> (r: Self)
        ensures
            r@ == sourced(self@),
    {
        PackageSpec {
            source: self.source,
            dir: self.dir,
            dest: self.dest,
            extract: Extract::Filter(Keep::Sources),
            imports: Imports::Auto,
            compile: true,
        }
    }

    /// Provide explicit import-map entries: `(specifier, path)` where `path` is
    /// relative to `<mount>/<dir>/` (use `""` for a prefix specifier like
    /// `("lit/", "")`). Replaces auto-derivation.
    pub fn imports(self, entries: &[(&str, &str)]) -> (r: Self)
        ensures
            r@ == (Wanted {
                imports: Strategy::Explicit(
                    Seq::new(entries@.len(), |i: int| (entries@[i].0@, entries@[i].1@)),
                ),
                ..self@
            }),
    {
        let mut list: Vec<(String, String)> = Vec::new();
        let mut i: usize = 0;
        while i < entries.len()
            invariant
                i <= entries@.len(),
                list@.len() == i,
                forall|j: int|
                    0 <= j < i ==> text::pair_text(#[trigger] list@[j]) == (
                        entries@[j].0@,
                        entries@[j].1@,
                    ),
            decreases entries@.len() - i,
        {
            list.push((entries[i].0.to_owned(), entries[i].1.to_owned()));
            i += 1;
        }
        assert(text::pairs(list@) =~= Seq::new(
            entries@.len(),
            |i: int| (entries@[i].0@, entries@[i].1@),
        ));
        PackageSpec {
            source: self.source,
            dir: self.dir,
            dest: self.dest,
            extract: self.extract,
            imports: Imports::Explicit(list),
            compile: self.compile,
        }
    }

    /// Vend the files but add **no** import-map entry.
    pub fn no_imports(self) -> (r: Self)
        ensures
            r@ == (Wanted { imports: Strategy::Nothing, ..self@ }),
    {
        PackageSpec {
            source: self.source,
            dir: self.dir,
            dest: self.dest,
            extract: self.extract,
            imports: Imports::Nothing,
            compile: self.compile,
        }
    }

    /// The identifying name for this spec, the package or repo name unless
    /// overridden via [`dir`](Self::dir). Handy for filtering specs sourced from a
    /// `package.json` before overriding a few programmatically.
    pub fn name(&self) -> (r: &str)
        ensures
            r@ == self@.dir,
    {
        self.dir.as_str()
    }
}

/// The package/repo name a spec resolves under (used for auto import-map keys).
pub open spec fn origin_name(source: Origin) -> Seq<char> {
    match source {
        Origin::Npm { package, .. } => package,
        Origin::Git { repo, .. } => repo,
        Origin::Tarball { name, .. } => name,
    }
}

/// The package/repo name a spec resolves under (used for auto import-map keys).
pub fn source_name(source: &Source) -> (r: &str)
    ensures
        r@ == origin_name(source@),
{
    match source {
        Source::Npm { package, .. } => package.as_str(),
        Source::Git { repo, .. } => repo.as_str(),
        Source::Tarball { name, .. } => name.as_str(),
    }
}

// ---------------------------------------------------------------------------
// Laws
// ---------------------------------------------------------------------------

/// What a package is by its defaults: everything lands below its own name, browser assets are
/// taken, nothing is compiled; a registry package and a tarball derive their import-map entries and
/// a repository has none.
pub proof fn law_defaults(name: Seq<char>, range: Seq<char>, owner: Seq<char>)
    requires
        !owner.contains('/'),
    ensures
        npm_package(name, range).source == (Origin::Npm { package: name, range }),
        npm_package(name, range).dir == name,
        npm_package(name, range).dest is None,
        npm_package(name, range).extract is BrowserAssets,
        npm_package(name, range).imports is Auto,
        !npm_package(name, range).compile,
        tarball_package(name, range).source == (Origin::Tarball { name, url: range }),
        tarball_package(name, range).dir == name,
        tarball_package(name, range).dest is None,
        tarball_package(name, range).extract is BrowserAssets,
        tarball_package(name, range).imports is Auto,
        !tarball_package(name, range).compile,
        ({
            let w = git_package(owner + "/"@ + name, range);
            &&& w.source == (Origin::Git { owner, repo: name, reference: range })
            &&& w.dir == name
            &&& w.dest is None
            &&& w.extract is BrowserAssets
            &&& w.imports is Nothing
            &&& !w.compile
        }),
{
    reveal_strlit("/");
    text::law_cut_undoes_joining(owner, '/', name);
    assert(owner + "/"@ + name =~= owner.push('/') + name);
}

/// The range of a positional spec stands behind its last `@`; a name without one, and a scope
/// whose `@` leads, stand for any version.
pub proof fn law_positional(name: Seq<char>, range: Seq<char>)
    requires
        !range.contains('@'),
    ensures
        name.len() > 0 ==> positional(name + "@"@ + range) == npm_package(name, range),
        positional(range) == npm_package(range, "*"@),
        positional("@"@ + range) == npm_package("@"@ + range, "*"@),
{
    reveal_strlit("@");
    let whole = name + "@"@ + range;
    let i = name.len() as int;
    text::lemma_char_at_last(whole, '@');
    text::lemma_char_at_last(range, '@');
    text::lemma_char_at_last("@"@ + range, '@');
    assert(whole[i] == '@');
    assert forall|j: int| i < j < whole.len() implies whole[j] != '@' by {
        assert(whole[j] == range[j - i - 1]);
        assert(range.contains(range[j - i - 1]));
    }
    assert(text::char_at_last(whole, '@') == Some(i)) by {
        let k = text::char_at_last(whole, '@')->0;
        assert(whole[k] == '@');
    }
    assert(whole.take(i) =~= name);
    assert(whole.skip(i + 1) =~= range);
    assert forall|j: int| 0 <= j < range.len() implies range[j] != '@' by {
        assert(range.contains(range[j]));
    }
    let scoped = "@"@ + range;
    assert forall|j: int| 0 < j < scoped.len() implies scoped[j] != '@' by {
        assert(scoped[j] == range[j - 1]);
        assert(range.contains(range[j - 1]));
    }
    assert(scoped[0] == '@');
}

/// A package taken as sources keeps where it comes from and where it lands; its sources are kept,
/// it is compiled, and it derives its import-map entries, whatever it did before.
pub proof fn law_sourced(w: Wanted)
    ensures
        sourced(w).source == w.source,
        sourced(w).dir == w.dir,
        sourced(w).dest == w.dest,
        sourced(w).extract == Mode::Filter(Keep::Sources),
        sourced(w).imports is Auto,
        sourced(w).compile,
{
}

/// A package is known by the name it is asked for under: the package, the repository, or the name
/// that its tarball is given.
pub proof fn law_origin_name(owner: Seq<char>, name: Seq<char>, other: Seq<char>)
    ensures
        origin_name(Origin::Npm { package: name, range: other }) == name,
        origin_name(Origin::Git { owner, repo: name, reference: other }) == name,
        origin_name(Origin::Tarball { name, url: other }) == name,
{
}

} // verus!
