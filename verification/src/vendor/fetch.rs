//! Fetching one package: where it goes, what is fetched, and in what order.
//!
//! Work is cache-guarded by a per-package version/ref marker and a cross-process lock,
//! so a second build with unchanged specs does no extraction. [`Step`] is that order as
//! a state machine: each step names what to do next, and [`Step::next`] says what
//! follows from the outcome.

use vstd::prelude::*;

use npm_utils::package_json::spec::Range;

use crate::error::{Error, Failure};
use crate::npm;
use crate::path;
use crate::path::{parts, piece_parts, Part};
use crate::text;
use crate::text::{opt_text, pieces};
use crate::vendor::cache;
use crate::vendor::cache::{commit_id, current, key_of, keyed, Found};
use crate::vendor::prune;
use crate::vendor::spec::{Extract, Mode, Origin, PackageSpec, Source, Wanted};

verus! {

// ---------------------------------------------------------------------------
// Where a package goes
// ---------------------------------------------------------------------------

/// Where a package is extracted: an absolute `dest` as it is; a relative one, or else the
/// package's directory, below the vendor directory, and refused when it would leave it.
pub open spec fn placed_at(vendor_dir: Seq<char>, spec: Wanted) -> Result<Seq<char>, Failure> {
    match spec.dest {
        Some(dest) => if path::rooted(dest) {
            Ok(dest)
        } else if npm::within(dest) {
            Ok(path::under(vendor_dir, dest))
        } else {
            Err(Failure::Vendor(npm::unsafe_message(dest)))
        },
        None => if npm::within(spec.dir) {
            Ok(path::under(vendor_dir, spec.dir))
        } else {
            Err(Failure::Vendor(npm::unsafe_message(spec.dir)))
        },
    }
}

/// Where a package is extracted, confined to `vendor_dir`. `spec.dir` defaults to an npm
/// package name or a `package.json` dependency key (untrusted), and a relative
/// `spec.dest` is likewise caller-relative; a `..` in either would place the destination,
/// which is then wiped and re-extracted, outside `vendor_dir`. An absolute `spec.dest` is
/// an explicit operator choice (never derived from manifest data), so it stays honored.
pub fn destination(vendor_dir: &str, spec: &PackageSpec) -> (r: Result<String, Error>)
    ensures
        crate::error::seen(r) == placed_at(vendor_dir@, spec@),
{
    match &spec.dest {
        Some(dest) => {
            if path::is_absolute(dest.as_str()) {
                return Ok(dest.clone());
            }
            match npm::ensure_within(dest.as_str()) {
                Ok(_) => Ok(path::join(vendor_dir, dest.as_str())),
                Err(e) => Err(Error::Vendor(e)),
            }
        },
        None => match npm::ensure_within(spec.dir.as_str()) {
            Ok(_) => Ok(path::join(vendor_dir, spec.dir.as_str())),
            Err(e) => Err(Error::Vendor(e)),
        },
    }
}

/// The path of a package's cache marker.
pub fn marker_path(vendor_dir: &str, spec: &PackageSpec) -> (r: String)
    ensures
        r@ == path::under(vendor_dir@, prune::marker_file(spec.dir@)),
{
    path::join(vendor_dir, prune::marker_name(spec.dir.as_str()).as_str())
}

/// The path of a package's lock.
pub fn lock_path(vendor_dir: &str, spec: &PackageSpec) -> (r: String)
    ensures
        r@ == path::under(vendor_dir@, prune::lock_file(spec.dir@)),
{
    path::join(vendor_dir, prune::lock_name(spec.dir.as_str()).as_str())
}

/// The components that pieces after the first stand for.
spec fn later_parts(list: Seq<Seq<char>>) -> Seq<Part>
    decreases list.len(),
{
    if list.len() == 0 {
        Seq::empty()
    } else {
        let front = later_parts(list.drop_last());
        match path::piece_part(list.last(), false) {
            Some(part) => front.push(part),
            None => front,
        }
    }
}

proof fn lemma_piece_parts_concat(x: Seq<Seq<char>>, y: Seq<Seq<char>>)
    requires
        x.len() > 0,
    ensures
        piece_parts(x + y) == piece_parts(x) + later_parts(y),
    decreases y.len(),
{
    if y.len() == 0 {
        assert(x + y =~= x);
        assert(piece_parts(x) + later_parts(y) =~= piece_parts(x));
    } else {
        assert((x + y).drop_last() =~= x + y.drop_last());
        assert((x + y).last() == y.last());
        lemma_piece_parts_concat(x, y.drop_last());
        match path::piece_part(y.last(), false) {
            Some(part) => {
                assert((piece_parts(x) + later_parts(y.drop_last())).push(part) =~= piece_parts(x)
                    + later_parts(y.drop_last()).push(part));
            },
            None => {},
        }
    }
}

/// Pieces after the first stand for nothing that the whole list does not stand for.
proof fn lemma_later_parts(list: Seq<Seq<char>>)
    ensures
        forall|i: int|
            0 <= i < later_parts(list).len() ==> piece_parts(list).contains(
                #[trigger] later_parts(list)[i],
            ),
    decreases list.len(),
{
    if list.len() > 0 {
        let front = list.drop_last();
        lemma_later_parts(front);
        let all = later_parts(list);
        assert forall|i: int| 0 <= i < all.len() implies piece_parts(list).contains(
            #[trigger] all[i],
        ) by {
            let before = later_parts(front);
            if i < before.len() {
                assert(all[i] == before[i]);
                assert(piece_parts(front).contains(before[i]));
                let k = choose|k: int|
                    0 <= k < piece_parts(front).len() && piece_parts(front)[k] == before[i];
                assert(piece_parts(list)[k] == before[i]);
            } else {
                let last = piece_parts(list).len() - 1;
                assert(piece_parts(list)[last] == all[i]);
            }
        }
    }
}

/// A relative path that is accepted, read from a directory, names something in that
/// directory: it keeps the directory's components and adds no `..` and no root.
pub proof fn law_accepted_stays_below(base: Seq<char>, rel: Seq<char>)
    requires
        npm::within(rel),
    ensures
        path::below(path::under(base, rel), base) matches Some(rest) && forall|i: int|
            0 <= i < rest.len() ==> !((#[trigger] rest[i]) is Up) && !(rest[i] is Root),
{
    assert(!path::rooted(rel)) by {
        if path::rooted(rel) {
            assert(parts(rel)[0] is Root);
        }
    }
    let whole = path::under(base, rel);
    let rel_parts = piece_parts(pieces(rel, '/'));
    assert(parts(rel) == rel_parts);
    let later = later_parts(pieces(rel, '/'));
    lemma_later_parts(pieces(rel, '/'));
    assert forall|i: int| 0 <= i < later.len() implies !((#[trigger] later[i]) is Up) && !(later[i]
        is Root) by {
        assert(rel_parts.contains(later[i]));
        let k = choose|k: int| 0 <= k < rel_parts.len() && rel_parts[k] == later[i];
        assert(parts(rel)[k] == later[i]);
    }
    if base.len() == 0 {
        assert(whole =~= rel);
        reveal_with_fuel(pieces, 2);
        reveal_with_fuel(piece_parts, 3);
        assert(seq![Seq::<char>::empty()].drop_last() =~= Seq::<Seq<char>>::empty());
        assert(parts(base) =~= Seq::<Part>::empty());
        assert(parts(base) =~= parts(whole).subrange(0, 0));
        let rest = path::below(whole, base)->Some_0;
        assert(rest =~= parts(rel));
    } else {
        let c = if base.last() == '/' {
            base.drop_last()
        } else {
            base
        };
        reveal_strlit("/");
        assert("/"@ =~= seq!['/']);
        assert(whole =~= c.push('/') + rel);
        text::lemma_pieces_concat(c, rel, '/');
        text::lemma_pieces_len(c, '/');
        lemma_piece_parts_concat(pieces(c, '/'), pieces(rel, '/'));
        assert(piece_parts(pieces(base, '/')) == piece_parts(pieces(c, '/'))) by {
            if base.last() == '/' {
                let p = pieces(c, '/').push(Seq::<char>::empty());
                assert(p.drop_last() =~= pieces(c, '/'));
            }
        }
        assert(path::rooted(whole) == path::rooted(base));
        let lead = if path::rooted(base) {
            seq![Part::Root]
        } else {
            Seq::empty()
        };
        assert(parts(base) =~= lead + piece_parts(pieces(c, '/')));
        assert(parts(whole) =~= parts(base) + later);
        assert(parts(base) =~= parts(whole).subrange(0, parts(base).len() as int));
        let rest = path::below(whole, base)->Some_0;
        assert(rest =~= later);
    }
}

/// Where a package goes, unless an absolute destination says otherwise, lies below the
/// vendor directory.
pub proof fn law_destination_stays_below(vendor_dir: Seq<char>, spec: Wanted)
    requires
        spec.dest matches Some(dest) ==> !path::rooted(dest),
    ensures
        placed_at(vendor_dir, spec) matches Ok(p) ==> (path::below(p, vendor_dir) matches Some(rest)
            && forall|i: int|
            0 <= i < rest.len() ==> !((#[trigger] rest[i]) is Up) && !(rest[i] is Root)),
{
    match spec.dest {
        Some(dest) => {
            if npm::within(dest) {
                law_accepted_stays_below(vendor_dir, dest);
            }
        },
        None => {
            if npm::within(spec.dir) {
                law_accepted_stays_below(vendor_dir, spec.dir);
            }
        },
    }
}

// ---------------------------------------------------------------------------
// What is fetched
// ---------------------------------------------------------------------------

/// The archive of a package: its address, the cache key when it can be known without
/// fetching, and whether it is a GitHub source archive.
#[derive(Debug, PartialEq, Eq)]
pub struct Archive {
    pub url: String,
    pub key: Option<String>,
    pub is_git: bool,
}

/// An archive, as the contracts see it.
pub struct Parcel {
    pub url: Seq<char>,
    pub key: Option<Seq<char>>,
    pub is_git: bool,
}

impl View for Archive {
    type V = Parcel;

    open spec fn view(&self) -> Parcel {
        Parcel { url: self.url@, key: opt_text(self.key), is_git: self.is_git }
    }
}

/// The address of a repository's archive at a reference.
pub open spec fn github_url(owner: Seq<char>, repo: Seq<char>, reference: Seq<char>) -> Seq<char> {
    "https://github.com/"@ + owner + "/"@ + repo + "/archive/"@ + reference + ".zip"@
}

/// The archive of a source that needs no registry. A branch or tag keeps its name across
/// a force-push, so only a commit id is a key; a tarball's address is its own.
pub open spec fn own_archive(source: Origin, compile: bool) -> Option<Parcel> {
    match source {
        Origin::Npm { .. } => None,
        Origin::Git { owner, repo, reference } => Some(
            Parcel {
                url: github_url(owner, repo, reference),
                key: if commit_id(reference) {
                    Some(keyed(reference, compile))
                } else {
                    None
                },
                is_git: true,
            },
        ),
        Origin::Tarball { url, .. } => Some(
            Parcel { url, key: Some(keyed(url, compile)), is_git: false },
        ),
    }
}

/// The archive of a source that needs no registry, or `None` for an npm package.
pub fn known_archive(source: &Source, compile: bool) -> (r: Option<Archive>)
    ensures
        match r {
            Some(a) => own_archive(source@, compile) == Some(a@),
            None => own_archive(source@, compile) is None,
        },
{
    match source {
        Source::Npm { .. } => None,
        Source::Git { owner, repo, reference } => {
            let key = if cache::is_commit_ref(reference.as_str()) {
                Some(cache::compiled_key(reference.as_str(), compile))
            } else {
                None
            };
            Some(
                Archive {
                    url: npm::github_archive_url(
                        owner.as_str(),
                        repo.as_str(),
                        reference.as_str(),
                    ),
                    key,
                    is_git: true,
                },
            )
        },
        Source::Tarball { url, .. } => Some(
            Archive {
                url: url.clone(),
                key: Some(cache::compiled_key(url.as_str(), compile)),
                is_git: false,
            },
        ),
    }
}

/// The version range that a package is to be resolved in; what is no range is a vendor error.
pub fn registry_range(range: &str) -> (r: Result<Range, Error>)
    ensures
        match r {
            Ok(parsed) => npm::parsed_range(range@) == Ok::<Range, Seq<char>>(parsed),
            Err(e) => npm::parsed_range(range@) matches Err(m) && e@ == Failure::Vendor(m),
        },
        range@.len() == 0 || range@ == "*"@ || range@ == "x"@ || range@ == "latest"@ ==> r is Ok,
{
    match npm::parse_range(range) {
        Ok(parsed) => Ok(parsed),
        Err(e) => Err(Error::Vendor(e)),
    }
}

/// The archive of an npm package that a registry resolved: keyed by its version.
pub fn registry_archive(tarball_url: &str, version: &str, compile: bool) -> (r: Archive)
    ensures
        r@ == (Parcel {
            url: tarball_url@,
            key: Some(keyed(version@, compile)),
            is_git: false,
        }),
        r@ == packed(tarball_url@, version@, compile),
{
    Archive {
        url: tarball_url.to_owned(),
        key: Some(cache::compiled_key(version, compile)),
        is_git: false,
    }
}

// ---------------------------------------------------------------------------
// In what order
// ---------------------------------------------------------------------------

/// What to do next about one package.
#[derive(Debug, PartialEq, Eq)]
pub enum Step {
    /// See whether the tree is current for this key.
    Check(String),
    /// Take the package's lock.
    Lock(Option<String>),
    /// See again, inside the lock: a concurrent build may have just done the work.
    Recheck(String),
    /// Fetch the archive.
    Fetch(Option<String>),
    /// See whether the tree is current for what was fetched.
    Compare(String),
    /// Extract the archive.
    Extract(String),
    /// Compile the extracted sources.
    Compile(String),
    /// Write this key into the marker.
    Mark(String),
    /// Nothing: the tree is current.
    Done,
}

/// A step, as the contracts see it.
pub enum Phase {
    Check(Seq<char>),
    Lock(Option<Seq<char>>),
    Recheck(Seq<char>),
    Fetch(Option<Seq<char>>),
    Compare(Seq<char>),
    Extract(Seq<char>),
    Compile(Seq<char>),
    Mark(Seq<char>),
    Done,
}

impl View for Step {
    type V = Phase;

    open spec fn view(&self) -> Phase {
        match self {
            Step::Check(k) => Phase::Check(k@),
            Step::Lock(k) => Phase::Lock(opt_text(*k)),
            Step::Recheck(k) => Phase::Recheck(k@),
            Step::Fetch(k) => Phase::Fetch(opt_text(*k)),
            Step::Compare(k) => Phase::Compare(k@),
            Step::Extract(k) => Phase::Extract(k@),
            Step::Compile(k) => Phase::Compile(k@),
            Step::Mark(k) => Phase::Mark(k@),
            Step::Done => Phase::Done,
        }
    }
}

/// What came of a step.
#[derive(Debug, PartialEq, Eq)]
pub enum Outcome {
    /// What the tree says, for a step that asks.
    Saw(Found),
    /// The archive's bytes, for a fetch.
    Got(Vec<u8>),
    /// The step is done, for any other.
    Finished,
}

/// What came of a step, as the contracts see it.
pub enum Event {
    Saw(Found),
    Got(Seq<u8>),
    Finished,
}

impl View for Outcome {
    type V = Event;

    open spec fn view(&self) -> Event {
        match self {
            Outcome::Saw(found) => Event::Saw(*found),
            Outcome::Got(bytes) => Event::Got(bytes@),
            Outcome::Finished => Event::Finished,
        }
    }
}

/// The first phase: a known key can settle freshness without the network.
pub open spec fn first_phase(key: Option<Seq<char>>) -> Phase {
    match key {
        Some(k) => Phase::Check(k),
        None => Phase::Lock(None),
    }
}

/// What follows from the outcome of a phase; an outcome that does not belong to the phase
/// changes nothing.
pub open spec fn next_phase(phase: Phase, mode: Mode, compile: bool, event: Event) -> Phase {
    match (phase, event) {
        (Phase::Check(k), Event::Saw(found)) => if current(mode, found) {
            Phase::Done
        } else {
            Phase::Lock(Some(k))
        },
        (Phase::Lock(key), Event::Finished) => match key {
            Some(k) => Phase::Recheck(k),
            None => Phase::Fetch(None),
        },
        (Phase::Recheck(k), Event::Saw(found)) => if current(mode, found) {
            Phase::Done
        } else {
            Phase::Fetch(Some(k))
        },
        (Phase::Fetch(key), Event::Got(bytes)) => match key {
            Some(k) => Phase::Compare(k),
            None => Phase::Compare(keyed(key_of(bytes), compile)),
        },
        (Phase::Compare(k), Event::Saw(found)) => if current(mode, found) {
            Phase::Done
        } else {
            Phase::Extract(k)
        },
        (Phase::Extract(k), Event::Finished) => if compile {
            Phase::Compile(k)
        } else {
            Phase::Mark(k)
        },
        (Phase::Compile(k), Event::Finished) => Phase::Mark(k),
        (Phase::Mark(_), Event::Finished) => Phase::Done,
        _ => phase,
    }
}

impl Step {
    /// The first step for a package whose archive has this key, if it is known.
    pub fn first(key: Option<String>) -> (r: Self)
        ensures
            r@ == first_phase(opt_text(key)),
    {
        match key {
            Some(k) => Step::Check(k),
            None => Step::Lock(None),
        }
    }

    /// The step that follows from the outcome of this one.
    pub fn next(self, extract: &Extract, compile: bool, outcome: Outcome) -> (r: Self)
        ensures
            r@ == next_phase(self@, extract@, compile, outcome@),
    {
        match (self, outcome) {
            (Step::Check(k), Outcome::Saw(found)) => if cache::is_up_to_date(extract, found) {
                Step::Done
            } else {
                Step::Lock(Some(k))
            },
            (Step::Lock(key), Outcome::Finished) => match key {
                Some(k) => Step::Recheck(k),
                None => Step::Fetch(None),
            },
            (Step::Recheck(k), Outcome::Saw(found)) => if cache::is_up_to_date(extract, found) {
                Step::Done
            } else {
                Step::Fetch(Some(k))
            },
            (Step::Fetch(key), Outcome::Got(bytes)) => match key {
                Some(k) => Step::Compare(k),
                None => Step::Compare(
                    cache::compiled_key(
                        cache::content_key(bytes.as_slice()).as_str(),
                        compile,
                    ),
                ),
            },
            (Step::Compare(k), Outcome::Saw(found)) => if cache::is_up_to_date(extract, found) {
                Step::Done
            } else {
                Step::Extract(k)
            },
            (Step::Extract(k), Outcome::Finished) => if compile {
                Step::Compile(k)
            } else {
                Step::Mark(k)
            },
            (Step::Compile(k), Outcome::Finished) => Step::Mark(k),
            (Step::Mark(_), Outcome::Finished) => Step::Done,
            (step, _) => step,
        }
    }
}

/// The marker is written only over a finished tree: right after extracting, or, for a
/// compiled package, right after compiling.
pub proof fn law_marker_comes_last(phase: Phase, mode: Mode, compile: bool, event: Event)
    requires
        !(phase is Mark),
        next_phase(phase, mode, compile, event) is Mark,
    ensures
        compile ==> phase is Compile,
        !compile ==> phase is Extract || phase is Compile,
{
}

/// The key of a phase, once there is one.
pub open spec fn phase_key(phase: Phase) -> Option<Seq<char>> {
    match phase {
        Phase::Check(k) => Some(k),
        Phase::Lock(key) => key,
        Phase::Recheck(k) => Some(k),
        Phase::Fetch(key) => key,
        Phase::Compare(k) => Some(k),
        Phase::Extract(k) => Some(k),
        Phase::Compile(k) => Some(k),
        Phase::Mark(k) => Some(k),
        Phase::Done => None,
    }
}

/// A key, once there is one, is the key until the work is done.
pub proof fn law_key_is_kept(phase: Phase, mode: Mode, compile: bool, event: Event)
    requires
        phase_key(phase) is Some,
        !(next_phase(phase, mode, compile, event) is Done),
    ensures
        phase_key(next_phase(phase, mode, compile, event)) == phase_key(phase),
{
}

/// How many phases are left at most.
pub open spec fn phases_left(phase: Phase) -> nat {
    match phase {
        Phase::Check(_) => 8,
        Phase::Lock(_) => 7,
        Phase::Recheck(_) => 6,
        Phase::Fetch(_) => 5,
        Phase::Compare(_) => 4,
        Phase::Extract(_) => 3,
        Phase::Compile(_) => 2,
        Phase::Mark(_) => 1,
        Phase::Done => 0,
    }
}

/// Every outcome that belongs to a phase brings the work nearer its end.
pub proof fn law_fetching_ends(phase: Phase, mode: Mode, compile: bool, event: Event)
    requires
        next_phase(phase, mode, compile, event) != phase,
    ensures
        phases_left(next_phase(phase, mode, compile, event)) < phases_left(phase),
{
}

/// A package that is current by a known key is not fetched.
pub proof fn law_current_is_not_fetched(key: Seq<char>, mode: Mode, compile: bool, found: Found)
    requires
        current(mode, found),
    ensures
        next_phase(first_phase(Some(key)), mode, compile, Event::Saw(found)) is Done,
{
}

/// An absolute destination is taken as it is; a relative one, and without one the package's own
/// directory, is read from the vendor directory; and what would leave it is refused.
pub proof fn law_destinations(vendor_dir: Seq<char>, spec: Wanted, dest: Seq<char>)
    ensures
        spec.dest == Some(dest) && path::rooted(dest) ==> placed_at(vendor_dir, spec) == Ok::<
            Seq<char>,
            Failure,
        >(dest),
        spec.dest == Some(dest) && !path::rooted(dest) && npm::within(dest) ==> placed_at(
            vendor_dir,
            spec,
        ) == Ok::<Seq<char>, Failure>(path::under(vendor_dir, dest)),
        spec.dest == Some(dest) && !path::rooted(dest) && !npm::within(dest) ==> placed_at(
            vendor_dir,
            spec,
        ) is Err,
        spec.dest is None && npm::within(spec.dir) ==> placed_at(vendor_dir, spec) == Ok::<
            Seq<char>,
            Failure,
        >(path::under(vendor_dir, spec.dir)),
        spec.dest is None && !npm::within(spec.dir) ==> placed_at(vendor_dir, spec) is Err,
{
}

/// A repository's archive is that of its reference, kept under the reference only when it is a
/// commit id; a tarball is its own address and kept under it; an npm package needs the registry.
pub proof fn law_archives(
    owner: Seq<char>,
    repo: Seq<char>,
    reference: Seq<char>,
    source: Origin,
    compile: bool,
)
    ensures
        own_archive(Origin::Git { owner, repo, reference }, compile) matches Some(a) && a.is_git
            && a.url == "https://github.com/"@ + owner + "/"@ + repo + "/archive/"@ + reference
            + ".zip"@ && (commit_id(reference) ==> a.key == Some(keyed(reference, compile))) && (
        !commit_id(reference) ==> a.key is None),
        source is Npm <==> own_archive(source, compile) is None,
        (source matches Origin::Tarball { url, .. } ==> (own_archive(source, compile) matches Some(a)
            && !a.is_git && a.url == url && a.key == Some(keyed(url, compile)))),
{
}

/// A package that is not current goes the whole way: its lock is taken, it is looked at again, it is
/// fetched, compared, extracted, compiled if it is to be, and marked, all under one key; without a
/// known key that key is the content's.
pub proof fn law_stale_package_is_fetched(
    mode: Mode,
    compile: bool,
    found: Found,
    key: Seq<char>,
    bytes: Seq<u8>,
)
    requires
        !current(mode, found),
    ensures
        first_phase(Some(key)) == Phase::Check(key),
        first_phase(None) == Phase::Lock(None),
        next_phase(Phase::Check(key), mode, compile, Event::Saw(found)) == Phase::Lock(Some(key)),
        next_phase(Phase::Lock(Some(key)), mode, compile, Event::Finished) == Phase::Recheck(key),
        next_phase(Phase::Lock(None), mode, compile, Event::Finished) == Phase::Fetch(None),
        next_phase(Phase::Recheck(key), mode, compile, Event::Saw(found)) == Phase::Fetch(Some(key)),
        next_phase(Phase::Fetch(Some(key)), mode, compile, Event::Got(bytes)) == Phase::Compare(key),
        next_phase(Phase::Fetch(None), mode, compile, Event::Got(bytes)) == Phase::Compare(
            keyed(key_of(bytes), compile),
        ),
        next_phase(Phase::Compare(key), mode, compile, Event::Saw(found)) == Phase::Extract(key),
        next_phase(Phase::Extract(key), mode, true, Event::Finished) == Phase::Compile(key),
        next_phase(Phase::Extract(key), mode, false, Event::Finished) == Phase::Mark(key),
        next_phase(Phase::Compile(key), mode, compile, Event::Finished) == Phase::Mark(key),
        next_phase(Phase::Mark(key), mode, compile, Event::Finished) == Phase::Done,
{
}

/// A package that has become current meanwhile is left alone at each look, and nothing follows once
/// the work is done.
pub proof fn law_current_package_is_left_alone(
    mode: Mode,
    compile: bool,
    found: Found,
    key: Seq<char>,
    event: Event,
)
    requires
        current(mode, found),
    ensures
        next_phase(Phase::Check(key), mode, compile, Event::Saw(found)) is Done,
        next_phase(Phase::Recheck(key), mode, compile, Event::Saw(found)) is Done,
        next_phase(Phase::Compare(key), mode, compile, Event::Saw(found)) is Done,
        next_phase(Phase::Done, mode, compile, event) is Done,
{
}

/// The archive of a version that a registry resolved.
pub open spec fn packed(url: Seq<char>, version: Seq<char>, compile: bool) -> Parcel {
    Parcel { url, key: Some(keyed(version, compile)), is_git: false }
}

/// A registry's archive is fetched from the address it gave and kept under the version: two versions
/// never share a key, and a compiled one never an uncompiled one's.
pub proof fn law_versions_are_kept_apart(
    url: Seq<char>,
    version: Seq<char>,
    other: Seq<char>,
    compile: bool,
)
    ensures
        packed(url, version, compile).url == url,
        !packed(url, version, compile).is_git,
        packed(url, version, false).key == Some(version),
        packed(url, version, compile).key == packed(url, other, compile).key ==> version == other,
        packed(url, version, true).key != packed(url, version, false).key,
{
    cache::law_keys_stay_apart(version, other, compile);
    cache::law_compiled_key_differs(version);
}

} // verus!
