//! One walk of the source roots: what every step would emit, who wins each output path, and
//! what stands in the way.

use vstd::prelude::*;

use crate::build::steps::{rank_place, Preflight, Rank};
use crate::npm_link;
use crate::npm_link::SCHEME;
use crate::path;
use crate::path::{parts, parts_before, rest_of, views, Component};
use crate::reject::{refuses_path, Reject, Rules};
use crate::symlinks::SymlinkMode;
use crate::text;
use crate::text::texts;

verus! {

// ---------------------------------------------------------------------------
// What a walk sees
// ---------------------------------------------------------------------------

/// One thing that the walk of a root meets.
#[derive(Debug, PartialEq, Eq)]
pub enum Seen {
    /// An entry that could not be read, and why.
    Trouble { message: String },
    /// A place.
    Entry {
        path: String,
        is_file: bool,
        /// What the place holds when it is a symlink.
        link: Option<String>,
        /// Where it really lies, or why that cannot be said.
        canonical: Result<String, String>,
    },
}

/// A source root and what the walk of it meets.
#[derive(Debug, PartialEq, Eq)]
pub struct Root {
    pub path: String,
    /// Where the root really lies, or why that cannot be said.
    pub canonical: Result<String, String>,
    pub seen: Vec<Seen>,
}

/// What governs a walk: the paths that are never published, and what a symlink means.
#[derive(Debug, PartialEq, Eq)]
pub struct WalkPolicy {
    pub reject: Reject,
    pub symlinks: SymlinkMode,
}

/// A result of texts, as the contracts see it.
pub open spec fn outcome(r: Result<String, String>) -> Result<Seq<char>, Seq<char>> {
    match r {
        Ok(p) => Ok(p@),
        Err(e) => Err(e@),
    }
}

// ---------------------------------------------------------------------------
// What a walk finds
// ---------------------------------------------------------------------------

/// One recorded claim: which step, from which root, on which source file, targeting
/// which output path.
#[derive(Debug, PartialEq, Eq)]
pub struct ClaimRecord {
    pub root: usize,
    pub rel: String,
    pub step: usize,
    pub rank: Rank,
    pub tiebreak: u8,
    pub out_rel: String,
}

/// A recorded claim, as the contracts see it.
pub struct Claimed {
    pub root: usize,
    pub rel: Seq<char>,
    pub step: usize,
    pub rank: Rank,
    pub tiebreak: u8,
    pub out_rel: Seq<char>,
}

impl View for ClaimRecord {
    type V = Claimed;

    open spec fn view(&self) -> Claimed {
        Claimed {
            root: self.root,
            rel: self.rel@,
            step: self.step,
            rank: self.rank,
            tiebreak: self.tiebreak,
            out_rel: self.out_rel@,
        }
    }
}

impl Clone for ClaimRecord {
    fn clone(&self) -> (r: Self)
        ensures
            r@ == self@,
    {
        ClaimRecord {
            root: self.root,
            rel: self.rel.clone(),
            step: self.step,
            rank: self.rank,
            tiebreak: self.tiebreak,
            out_rel: self.out_rel.clone(),
        }
    }
}

/// The contents of a list of claims.
pub open spec fn records(list: Seq<ClaimRecord>) -> Seq<Claimed> {
    Seq::new(list.len(), |i: int| list[i]@)
}

/// A file below a root, with what it points at: a source that lies outside its root, a
/// symlink that a static build cannot express, or an `npm://` asset.
#[derive(Debug, PartialEq, Eq)]
pub struct Located {
    pub root: usize,
    pub rel: String,
    pub target: String,
}

/// A located file, as the contracts see it.
pub struct Spot {
    pub root: usize,
    pub rel: Seq<char>,
    pub target: Seq<char>,
}

impl View for Located {
    type V = Spot;

    open spec fn view(&self) -> Spot {
        Spot { root: self.root, rel: self.rel@, target: self.target@ }
    }
}

/// The contents of a list of located files.
pub open spec fn spots(list: Seq<Located>) -> Seq<Spot> {
    Seq::new(list.len(), |i: int| list[i]@)
}

/// Every claim from one walk of the source roots, plus every visited path, the files that
/// resolve outside their root, the symlinks that are skipped, the `npm://` assets, the
/// claims that the reject list drops, and the walk problems that would make the preflight
/// incomplete.
#[derive(Debug, PartialEq, Eq)]
pub struct PreflightReport {
    pub claims: Vec<ClaimRecord>,
    pub walked: Vec<String>,
    pub escaping_sources: Vec<Located>,
    pub skipped_symlinks: Vec<Located>,
    pub npm_assets: Vec<Located>,
    pub rejected_claims: Vec<ClaimRecord>,
    pub walk_errors: Vec<String>,
}

/// What a walk finds, as the contracts see it.
#[verifier::ext_equal]
pub struct Survey {
    pub claims: Seq<Claimed>,
    pub walked: Seq<Seq<char>>,
    pub escaping_sources: Seq<Spot>,
    pub skipped_symlinks: Seq<Spot>,
    pub npm_assets: Seq<Spot>,
    pub rejected_claims: Seq<Claimed>,
    pub walk_errors: Seq<Seq<char>>,
}

impl View for PreflightReport {
    type V = Survey;

    open spec fn view(&self) -> Survey {
        Survey {
            claims: records(self.claims@),
            walked: texts(self.walked@),
            escaping_sources: spots(self.escaping_sources@),
            skipped_symlinks: spots(self.skipped_symlinks@),
            npm_assets: spots(self.npm_assets@),
            rejected_claims: records(self.rejected_claims@),
            walk_errors: texts(self.walk_errors@),
        }
    }
}

/// Nothing found yet.
pub open spec fn blank() -> Survey {
    Survey {
        claims: Seq::empty(),
        walked: Seq::empty(),
        escaping_sources: Seq::empty(),
        skipped_symlinks: Seq::empty(),
        npm_assets: Seq::empty(),
        rejected_claims: Seq::empty(),
        walk_errors: Seq::empty(),
    }
}

/// The survey with a file offered to the first `n` steps. Rejection is by **target**: a claim
/// on a rejected output path is dropped no matter which step makes it, so a template or a
/// compiled source cannot materialize `.env` or `private.key`.
pub open spec fn offered<P: Preflight>(
    found: Survey,
    root: usize,
    rel: Seq<char>,
    steps: Seq<P>,
    rules: Rules,
    n: int,
) -> Survey
    decreases n,
{
    if n <= 0 {
        found
    } else {
        let front = offered(found, root, rel, steps, rules, n - 1);
        let step = steps[n - 1];
        match step.claims(rel) {
            Some((out_rel, tiebreak)) => {
                let record = Claimed {
                    root,
                    rel,
                    step: (n - 1) as usize,
                    rank: step.ranked(),
                    tiebreak,
                    out_rel,
                };
                if refuses_path(rules, out_rel) {
                    Survey { rejected_claims: front.rejected_claims.push(record), ..front }
                } else {
                    Survey { claims: front.claims.push(record), ..front }
                }
            },
            None => front,
        }
    }
}

/// The survey after one thing that the walk of a root meets. An `npm://` symlink is an asset
/// in every mode. In the redirect modes any other symlink is skipped. A file that cannot be
/// resolved is a walk error; under [`SymlinkMode::Follow`] one that does not resolve under
/// the root is escaping. Every other file is offered to every step.
pub open spec fn met<P: Preflight>(
    found: Survey,
    index: usize,
    root: Seq<char>,
    real_root: Seq<char>,
    seen: Seen,
    steps: Seq<P>,
    rules: Rules,
    mode: SymlinkMode,
) -> Survey {
    match seen {
        Seen::Trouble { message } => Survey {
            walk_errors: found.walk_errors.push(message@),
            ..found
        },
        Seen::Entry { path, is_file, link, canonical } => {
            let walked = Survey { walked: found.walked.push(path@), ..found };
            match rest_of(path@, root) {
                None => walked,
                Some(rel) => {
                    if link matches Some(target) && SCHEME@.is_prefix_of(target@) {
                        Survey {
                            npm_assets: walked.npm_assets.push(
                                Spot { root: index, rel, target: link->Some_0@ },
                            ),
                            ..walked
                        }
                    } else if link is Some && !(mode == SymlinkMode::Follow || mode
                        == SymlinkMode::FollowUnsafe) {
                        Survey {
                            skipped_symlinks: walked.skipped_symlinks.push(
                                Spot { root: index, rel, target: link->Some_0@ },
                            ),
                            ..walked
                        }
                    } else if !is_file {
                        walked
                    } else {
                        match outcome(canonical) {
                            Err(e) => Survey {
                                walk_errors: walked.walk_errors.push(path@ + ": "@ + e),
                                ..walked
                            },
                            Ok(reached) => if mode == SymlinkMode::Follow && !parts(
                                real_root,
                            ).is_prefix_of(parts(reached)) {
                                Survey {
                                    escaping_sources: walked.escaping_sources.push(
                                        Spot { root: index, rel, target: reached },
                                    ),
                                    ..walked
                                }
                            } else {
                                offered(
                                    walked,
                                    index,
                                    rel,
                                    steps,
                                    rules,
                                    steps.len() as int,
                                )
                            },
                        }
                    }
                },
            }
        },
    }
}

/// The survey after the first `n` things that the walk of a root meets.
pub open spec fn met_all<P: Preflight>(
    found: Survey,
    index: usize,
    root: Seq<char>,
    real_root: Seq<char>,
    seen: Seq<Seen>,
    steps: Seq<P>,
    rules: Rules,
    mode: SymlinkMode,
    n: int,
) -> Survey
    decreases n,
{
    if n <= 0 {
        found
    } else {
        met(
            met_all(found, index, root, real_root, seen, steps, rules, mode, n - 1),
            index,
            root,
            real_root,
            seen[n - 1],
            steps,
            rules,
            mode,
        )
    }
}

/// The survey after the first `n` roots, in order. A root that cannot be resolved is a walk
/// error and is not walked.
pub open spec fn surveyed<P: Preflight>(
    roots: Seq<Root>,
    steps: Seq<P>,
    rules: Rules,
    mode: SymlinkMode,
    n: int,
) -> Survey
    decreases n,
{
    if n <= 0 {
        blank()
    } else {
        let front = surveyed(roots, steps, rules, mode, n - 1);
        let root = roots[n - 1];
        match outcome(root.canonical) {
            Err(e) => Survey {
                walk_errors: front.walk_errors.push(root.path@ + ": "@ + e),
                ..front
            },
            Ok(real_root) => met_all(
                front,
                (n - 1) as usize,
                root.path@,
                real_root,
                root.seen@,
                steps,
                rules,
                mode,
                root.seen@.len() as int,
            ),
        }
    }
}

proof fn lemma_records_push(list: Seq<ClaimRecord>, one: ClaimRecord)
    ensures
        records(list.push(one)) == records(list).push(one@),
{
    assert(records(list.push(one)) =~= records(list).push(one@));
}

proof fn lemma_spots_push(list: Seq<Located>, one: Located)
    ensures
        spots(list.push(one)) == spots(list).push(one@),
{
    assert(spots(list.push(one)) =~= spots(list).push(one@));
}

impl PreflightReport {
    /// A report of nothing.
    pub fn new() -> (r: Self)
        ensures
            r@ == blank(),
    {
        let r = PreflightReport {
            claims: Vec::new(),
            walked: Vec::new(),
            escaping_sources: Vec::new(),
            skipped_symlinks: Vec::new(),
            npm_assets: Vec::new(),
            rejected_claims: Vec::new(),
            walk_errors: Vec::new(),
        };
        assert(r@ =~= blank());
        r
    }

    /// Offers a file to every step.
    fn offer<P: Preflight>(&mut self, root: usize, rel: &str, steps: &Vec<P>, reject: &Reject)
        ensures
            final(self)@ == offered(
                old(self)@,
                root,
                rel@,
                steps@,
                reject@,
                steps@.len() as int,
            ),
    {
        let ghost start = self@;
        let mut i: usize = 0;
        while i < steps.len()
            invariant
                i <= steps@.len(),
                self@ == offered(start, root, rel@, steps@, reject@, i as int),
            decreases steps@.len() - i,
        {
            let step = &steps[i];
            if let Some(claim) = step.claim(rel) {
                let dropped = reject.rejects_path(claim.out_rel.as_str());
                let record = ClaimRecord {
                    root,
                    rel: rel.to_owned(),
                    step: i,
                    rank: step.rank(),
                    tiebreak: claim.tiebreak,
                    out_rel: claim.out_rel,
                };
                proof {
                    lemma_records_push(self.claims@, record);
                    lemma_records_push(self.rejected_claims@, record);
                }
                if dropped {
                    self.rejected_claims.push(record);
                } else {
                    self.claims.push(record);
                }
            }
            i += 1;
        }
    }

    /// Takes one thing that the walk of a root meets.
    fn meet<P: Preflight>(
        &mut self,
        index: usize,
        root: &str,
        real_root: &str,
        seen: &Seen,
        steps: &Vec<P>,
        policy: &WalkPolicy,
    )
        ensures
            final(self)@ == met(
                old(self)@,
                index,
                root@,
                real_root@,
                *seen,
                steps@,
                policy.reject@,
                policy.symlinks,
            ),
    {
        match seen {
            Seen::Trouble { message } => {
                let message = message.clone();
                proof {
                    text::lemma_texts_push(self.walk_errors@, message);
                }
                self.walk_errors.push(message);
            },
            Seen::Entry { path, is_file, link, canonical } => {
                let walked = path.clone();
                proof {
                    text::lemma_texts_push(self.walked@, walked);
                }
                self.walked.push(walked);
                let rel = match path::strip_base(path.as_str(), root) {
                    Some(rel) => rel,
                    None => {
                        return;
                    },
                };
                if let Some(target) = link {
                    let reference = npm_link::is_reference(target.as_str());
                    if reference || !policy.symlinks.follows() {
                        let spot = Located { root: index, rel, target: target.clone() };
                        proof {
                            lemma_spots_push(self.npm_assets@, spot);
                            lemma_spots_push(self.skipped_symlinks@, spot);
                        }
                        if reference {
                            self.npm_assets.push(spot);
                        } else {
                            self.skipped_symlinks.push(spot);
                        }
                        return;
                    }
                }
                if !*is_file {
                    return;
                }
                let reached = match canonical {
                    Ok(reached) => reached,
                    Err(e) => {
                        let message = path.clone().concat(": ").concat(e.as_str());
                        proof {
                            text::lemma_texts_push(self.walk_errors@, message);
                        }
                        self.walk_errors.push(message);
                        return;
                    },
                };
                if policy.symlinks == SymlinkMode::Follow && !path::starts_with(
                    reached.as_str(),
                    real_root,
                ) {
                    let spot = Located { root: index, rel, target: reached.clone() };
                    proof {
                        lemma_spots_push(self.escaping_sources@, spot);
                    }
                    self.escaping_sources.push(spot);
                    return;
                }
                self.offer(index, rel.as_str(), steps, &policy.reject);
            },
        }
    }
}

/// Takes what the walk of each root meets, once, and offers every file to every step.
/// Containment is canonical: each root resolves once, every file must resolve under
/// it, and one that does not is recorded as escaping instead of being offered. In-root
/// symlinks work; a link out of the tree never publishes, unless the mode says so.
/// Unreadable entries and unresolvable links land in the walk errors rather than being
/// silently dropped: a partial preflight would otherwise pass for a complete one. The
/// `reject` list guards emission centrally, by **target**.
pub fn preflight<P: Preflight>(roots: &Vec<Root>, steps: &Vec<P>, policy: &WalkPolicy) -> (r:
    PreflightReport)
    ensures
        r@ == surveyed(
            roots@,
            steps@,
            policy.reject@,
            policy.symlinks,
            roots@.len() as int,
        ),
        indexed(r@, roots@.len(), steps@.len()),
{
    let mut report = PreflightReport::new();
    let mut i: usize = 0;
    while i < roots.len()
        invariant
            i <= roots@.len(),
            report@ == surveyed(roots@, steps@, policy.reject@, policy.symlinks, i as int),
        decreases roots@.len() - i,
    {
        let root = &roots[i];
        match &root.canonical {
            Err(e) => {
                let message = root.path.clone().concat(": ").concat(e.as_str());
                proof {
                    text::lemma_texts_push(report.walk_errors@, message);
                }
                report.walk_errors.push(message);
            },
            Ok(real_root) => {
                let ghost before = report@;
                let mut k: usize = 0;
                while k < root.seen.len()
                    invariant
                        k <= root.seen@.len(),
                        report@ == met_all(
                            before,
                            i,
                            root.path@,
                            real_root@,
                            root.seen@,
                            steps@,
                            policy.reject@,
                            policy.symlinks,
                            k as int,
                        ),
                    decreases root.seen@.len() - k,
                {
                    report.meet(
                        i,
                        root.path.as_str(),
                        real_root.as_str(),
                        &root.seen[k],
                        steps,
                        policy,
                    );
                    k += 1;
                }
            },
        }
        i += 1;
    }
    proof {
        assert(steps.len() == steps@.len());
        lemma_surveyed_indexed(
            roots@,
            steps@,
            policy.reject@,
            policy.symlinks,
            roots@.len() as int,
        );
    }
    report
}

/// Everything found names one of the roots, and every claim one of the steps.
pub open spec fn indexed(found: Survey, roots: nat, steps: nat) -> bool {
    &&& forall|i: int|
        0 <= i < found.claims.len() ==> (#[trigger] found.claims[i]).root < roots
            && found.claims[i].step < steps
    &&& forall|i: int|
        0 <= i < found.escaping_sources.len() ==> (#[trigger] found.escaping_sources[i]).root
            < roots
    &&& forall|i: int|
        0 <= i < found.skipped_symlinks.len() ==> (#[trigger] found.skipped_symlinks[i]).root
            < roots
    &&& forall|i: int|
        0 <= i < found.npm_assets.len() ==> (#[trigger] found.npm_assets[i]).root < roots
    &&& forall|i: int|
        0 <= i < found.rejected_claims.len() ==> (#[trigger] found.rejected_claims[i]).root
            < roots && found.rejected_claims[i].step < steps
}

proof fn lemma_offered_indexed<P: Preflight>(
    found: Survey,
    root: usize,
    rel: Seq<char>,
    steps: Seq<P>,
    rules: Rules,
    n: int,
    roots: nat,
)
    requires
        indexed(found, roots, steps.len()),
        root < roots,
        n <= steps.len() <= usize::MAX,
    ensures
        indexed(offered(found, root, rel, steps, rules, n), roots, steps.len()),
    decreases n,
{
    if n > 0 {
        lemma_offered_indexed(found, root, rel, steps, rules, n - 1, roots);
    }
}

proof fn lemma_met_all_indexed<P: Preflight>(
    found: Survey,
    index: usize,
    root: Seq<char>,
    real_root: Seq<char>,
    seen: Seq<Seen>,
    steps: Seq<P>,
    rules: Rules,
    mode: SymlinkMode,
    n: int,
    roots: nat,
)
    requires
        indexed(found, roots, steps.len()),
        index < roots,
        steps.len() <= usize::MAX,
    ensures
        indexed(
            met_all(found, index, root, real_root, seen, steps, rules, mode, n),
            roots,
            steps.len(),
        ),
    decreases n,
{
    if n > 0 {
        lemma_met_all_indexed(
            found,
            index,
            root,
            real_root,
            seen,
            steps,
            rules,
            mode,
            n - 1,
            roots,
        );
        let front = met_all(found, index, root, real_root, seen, steps, rules, mode, n - 1);
        if let Seen::Entry { path, .. } = seen[n - 1] {
            let walked = Survey { walked: front.walked.push(path@), ..front };
            if let Some(rest) = rest_of(path@, root) {
                lemma_offered_indexed(
                    walked,
                    index,
                    rest,
                    steps,
                    rules,
                    steps.len() as int,
                    roots,
                );
            }
        }
    }
}

proof fn lemma_surveyed_indexed<P: Preflight>(
    roots: Seq<Root>,
    steps: Seq<P>,
    rules: Rules,
    mode: SymlinkMode,
    n: int,
)
    requires
        0 <= n <= roots.len() <= usize::MAX,
        steps.len() <= usize::MAX,
    ensures
        indexed(surveyed(roots, steps, rules, mode, n), roots.len(), steps.len()),
    decreases n,
{
    if n > 0 {
        lemma_surveyed_indexed(roots, steps, rules, mode, n - 1);
        let root = roots[n - 1];
        if let Ok(real_root) = outcome(root.canonical) {
            lemma_met_all_indexed(
                surveyed(roots, steps, rules, mode, n - 1),
                (n - 1) as usize,
                root.path@,
                real_root,
                root.seen@,
                steps,
                rules,
                mode,
                root.seen@.len() as int,
                roots.len(),
            );
        }
    }
}

// ---------------------------------------------------------------------------
// Who wins
// ---------------------------------------------------------------------------

/// The precedence of claims on one output path, lowest wins: the earlier root, then the rank
/// (template, literal file, transform), then the step's own tiebreak, then the source path
/// for stability.
pub open spec fn outranks(a: Claimed, b: Claimed) -> bool {
    a.root < b.root || (a.root == b.root && (rank_place(a.rank) < rank_place(b.rank) || (
    rank_place(a.rank) == rank_place(b.rank) && (a.tiebreak < b.tiebreak || (a.tiebreak
        == b.tiebreak && parts_before(parts(a.rel), parts(b.rel)))))))
}

/// Two claims are on one output path.
pub open spec fn same_target(a: Claimed, b: Claimed) -> bool {
    parts(a.out_rel) == parts(b.out_rel)
}

/// Claims in order: by output path, and on one output path by precedence.
pub open spec fn claim_before(a: Claimed, b: Claimed) -> bool {
    parts_before(parts(a.out_rel), parts(b.out_rel)) || (same_target(a, b) && outranks(a, b))
}

/// A list of claims in order with one more, behind those that are not after it.
pub open spec fn with_claim(list: Seq<Claimed>, one: Claimed) -> Seq<Claimed>
    decreases list.len(),
{
    if list.len() == 0 || !claim_before(one, list.last()) {
        list.push(one)
    } else {
        with_claim(list.drop_last(), one).push(list.last())
    }
}

/// The claims in order.
pub open spec fn in_order(claims: Seq<Claimed>) -> Seq<Claimed>
    decreases claims.len(),
{
    if claims.len() == 0 {
        Seq::empty()
    } else {
        with_claim(in_order(claims.drop_last()), claims.last())
    }
}

/// The first claim on each output path of a list in order.
pub open spec fn firsts(list: Seq<Claimed>) -> Seq<Claimed>
    decreases list.len(),
{
    if list.len() == 0 {
        Seq::empty()
    } else {
        let front = firsts(list.drop_last());
        if front.len() > 0 && same_target(front.last(), list.last()) {
            front
        } else {
            front.push(list.last())
        }
    }
}

/// The claims on each output path of a list in order.
pub open spec fn groups(list: Seq<Claimed>) -> Seq<Seq<Claimed>>
    decreases list.len(),
{
    if list.len() == 0 {
        Seq::empty()
    } else {
        let front = groups(list.drop_last());
        if front.len() > 0 && same_target(front.last()[0], list.last()) {
            front.drop_last().push(front.last().push(list.last()))
        } else {
            front.push(seq![list.last()])
        }
    }
}

/// The groups of more than one claim.
pub open spec fn contested(list: Seq<Seq<Claimed>>) -> Seq<Seq<Claimed>>
    decreases list.len(),
{
    if list.len() == 0 {
        Seq::empty()
    } else {
        let front = contested(list.drop_last());
        if list.last().len() > 1 {
            front.push(list.last())
        } else {
            front
        }
    }
}

/// The winner of each claimed output path, in output-path order.
pub open spec fn winning(claims: Seq<Claimed>) -> Seq<Claimed> {
    firsts(in_order(claims))
}

/// An output path whose write lands in the output directory: it is not empty, and each of
/// its components is an ordinary name.
pub open spec fn lands_inside(out_rel: Seq<char>) -> bool {
    out_rel.len() > 0 && forall|i: int|
        0 <= i < parts(out_rel).len() ==> (#[trigger] parts(out_rel)[i]) is Name
}

/// The claims whose write would land outside the output directory.
pub open spec fn landing_outside(claims: Seq<Claimed>) -> Seq<Claimed>
    decreases claims.len(),
{
    if claims.len() == 0 {
        Seq::empty()
    } else {
        let front = landing_outside(claims.drop_last());
        if lands_inside(claims.last().out_rel) {
            front
        } else {
            front.push(claims.last())
        }
    }
}

/// Some source claims an output path.
pub open spec fn targeted(claims: Seq<Claimed>, out_rel: Seq<char>) -> bool {
    exists|i: int|
        0 <= i < claims.len() && parts((#[trigger] claims[i]).out_rel) == parts(out_rel)
}

fn before_on(a: &ClaimRecord, b: &ClaimRecord) -> (r: bool)
    ensures
        r == outranks(a@, b@),
{
    if a.root != b.root {
        return a.root < b.root;
    }
    let (x, y) = (a.rank.place(), b.rank.place());
    if x != y {
        return x < y;
    }
    if a.tiebreak != b.tiebreak {
        return a.tiebreak < b.tiebreak;
    }
    path::precedes(a.rel.as_str(), b.rel.as_str())
}

fn comes_before(a: &ClaimRecord, b: &ClaimRecord) -> (r: bool)
    ensures
        r == claim_before(a@, b@),
{
    path::precedes(a.out_rel.as_str(), b.out_rel.as_str()) || (path::same_path(
        a.out_rel.as_str(),
        b.out_rel.as_str(),
    ) && before_on(a, b))
}

fn put_claim(list: &mut Vec<ClaimRecord>, one: ClaimRecord)
    ensures
        records(final(list)@) == with_claim(records(old(list)@), one@),
{
    let ghost all = records(list@);
    let n = list.len();
    let mut i: usize = n;
    assert(all.take(n as int) =~= all);
    assert(with_claim(all, one@) + all.skip(n as int) =~= with_claim(all, one@));
    while i > 0 && comes_before(&one, &list[i - 1])
        invariant
            i <= n,
            n == list@.len(),
            all == records(list@),
            with_claim(all, one@) == with_claim(all.take(i as int), one@) + all.skip(i as int),
        decreases i,
    {
        proof {
            let front = all.take(i as int);
            assert(front.last() == all[i - 1]);
            assert(front.drop_last() =~= all.take(i - 1));
            let w = with_claim(all.take(i - 1), one@);
            assert(w.push(all[i - 1]) + all.skip(i as int) =~= w + all.skip(i - 1));
        }
        i -= 1;
    }
    proof {
        let front = all.take(i as int);
        if i > 0 {
            assert(front.last() == all[i - 1]);
            assert(list@[i - 1]@ == all[i - 1]);
        }
        assert(with_claim(front, one@) =~= front.push(one@));
    }
    list.insert(i, one);
    assert(records(list@) =~= all.take(i as int).push(one@) + all.skip(i as int));
}

/// Two or more sources claiming one output path.
#[derive(Debug, PartialEq, Eq)]
pub struct Conflict {
    pub out_rel: String,
    /// All claimants in precedence order: the first is what `--skip-duplicates` ships.
    pub claimants: Vec<ClaimRecord>,
}

/// The claimants of a list of conflicts.
pub open spec fn claimants(list: Seq<Conflict>) -> Seq<Seq<Claimed>> {
    Seq::new(list.len(), |i: int| records(list[i].claimants@))
}

/// The claimants of a list of groups.
spec fn group_records(list: Seq<Vec<ClaimRecord>>) -> Seq<Seq<Claimed>> {
    Seq::new(list.len(), |i: int| records(list[i]@))
}

proof fn lemma_groups_full(list: Seq<Claimed>)
    ensures
        forall|i: int| 0 <= i < groups(list).len() ==> (#[trigger] groups(list)[i]).len() > 0,
    decreases list.len(),
{
    if list.len() > 0 {
        let front = groups(list.drop_last());
        lemma_groups_full(list.drop_last());
        assert forall|i: int| 0 <= i < groups(list).len() implies (#[trigger] groups(list)[i]).len()
            > 0 by {
            if i < front.len() - 1 {
                assert(groups(list)[i] == front[i]);
            } else if i < front.len() {
                assert(front[i].len() > 0);
            }
        }
    }
}

impl PreflightReport {
    /// The claims in order: by output path, and on one output path by precedence.
    fn sorted(&self) -> (r: Vec<ClaimRecord>)
        ensures
            records(r@) == in_order(self@.claims),
    {
        let ghost all = records(self.claims@);
        let mut out: Vec<ClaimRecord> = Vec::new();
        let mut i: usize = 0;
        assert(records(out@) =~= in_order(all.take(0)));
        while i < self.claims.len()
            invariant
                i <= self.claims@.len(),
                all == records(self.claims@),
                records(out@) == in_order(all.take(i as int)),
            decreases self.claims@.len() - i,
        {
            proof {
                let grown = all.take(i + 1);
                assert(grown.drop_last() =~= all.take(i as int));
                assert(grown.last() == self.claims@[i as int]@);
            }
            put_claim(&mut out, self.claims[i].clone());
            i += 1;
        }
        assert(all.take(self.claims@.len() as int) =~= all);
        out
    }

    /// Claims grouped by output path (deterministic order), each group sorted by
    /// precedence, winner first.
    fn grouped(&self) -> (r: Vec<Vec<ClaimRecord>>)
        ensures
            group_records(r@) == groups(in_order(self@.claims)),
    {
        let sorted = self.sorted();
        let ghost all = records(sorted@);
        let mut out: Vec<Vec<ClaimRecord>> = Vec::new();
        let mut i: usize = 0;
        assert(group_records(out@) =~= groups(all.take(0)));
        while i < sorted.len()
            invariant
                i <= sorted@.len(),
                all == records(sorted@),
                group_records(out@) == groups(all.take(i as int)),
            decreases sorted@.len() - i,
        {
            let ghost front = groups(all.take(i as int));
            let ghost listed = out@;
            proof {
                let grown = all.take(i + 1);
                assert(grown.drop_last() =~= all.take(i as int));
                assert(grown.last() == sorted@[i as int]@);
                lemma_groups_full(all.take(i as int));
                if out@.len() > 0 {
                    assert(front.last() == records(out@[out@.len() - 1]@));
                    assert(front[front.len() - 1].len() > 0);
                }
            }
            let one = sorted[i].clone();
            match out.pop() {
                Some(mut last) => {
                    let ghost before = last@;
                    assert(before == listed[listed.len() - 1]@);
                    assert(records(before)[0] == before[0]@);
                    if path::same_path(last[0].out_rel.as_str(), one.out_rel.as_str()) {
                        proof {
                            lemma_records_push(before, one);
                        }
                        last.push(one);
                        out.push(last);
                        assert(group_records(out@) =~= front.drop_last().push(
                            records(before).push(one@),
                        ));
                    } else {
                        let mut fresh: Vec<ClaimRecord> = Vec::new();
                        fresh.push(one);
                        assert(records(fresh@) =~= seq![one@]);
                        out.push(last);
                        assert(group_records(out@) =~= front);
                        out.push(fresh);
                        assert(group_records(out@) =~= front.push(seq![one@]));
                    }
                },
                None => {
                    let mut fresh: Vec<ClaimRecord> = Vec::new();
                    fresh.push(one);
                    assert(records(fresh@) =~= seq![one@]);
                    out.push(fresh);
                    assert(group_records(out@) =~= front.push(seq![one@]));
                },
            }
            i += 1;
        }
        assert(all.take(sorted@.len() as int) =~= all);
        out
    }

    /// Every output path claimed more than once, with all claimants (winner first).
    pub fn conflicts(&self) -> (r: Vec<Conflict>)
        ensures
            claimants(r@) == contested(groups(in_order(self@.claims))),
            forall|i: int|
                0 <= i < r@.len() ==> (#[trigger] r@[i]).claimants@.len() > 1 && r@[i].out_rel@
                    == r@[i].claimants@[0].out_rel@,
    {
        let groups = self.grouped();
        let ghost all = group_records(groups@);
        let mut out: Vec<Conflict> = Vec::new();
        let mut i: usize = 0;
        assert(claimants(out@) =~= contested(all.take(0)));
        while i < groups.len()
            invariant
                i <= groups@.len(),
                all == group_records(groups@),
                claimants(out@) == contested(all.take(i as int)),
                forall|k: int|
                    0 <= k < out@.len() ==> (#[trigger] out@[k]).claimants@.len() > 1
                        && out@[k].out_rel@ == out@[k].claimants@[0].out_rel@,
            decreases groups@.len() - i,
        {
            proof {
                let grown = all.take(i + 1);
                assert(grown.drop_last() =~= all.take(i as int));
                assert(grown.last() == records(groups@[i as int]@));
            }
            let group = &groups[i];
            if group.len() > 1 {
                let ghost before = claimants(out@);
                let copies = copy_records(group);
                assert(records(copies@)[0] == copies@[0]@);
                assert(records(group@)[0] == group@[0]@);
                out.push(Conflict { out_rel: group[0].out_rel.clone(), claimants: copies });
                assert(claimants(out@) =~= before.push(records(group@)));
            }
            i += 1;
        }
        assert(all.take(groups@.len() as int) =~= all);
        out
    }

    /// Claims whose output path is not a purely normal relative path: a root, `.` or `..`
    /// component would let a write land outside the output directory. The bundled steps
    /// cannot produce one, but the invariant is enforced by the build rather than assumed
    /// of every step.
    pub fn escaping(&self) -> (r: Vec<ClaimRecord>)
        ensures
            records(r@) == landing_outside(self@.claims),
    {
        let ghost all = records(self.claims@);
        let mut out: Vec<ClaimRecord> = Vec::new();
        let mut i: usize = 0;
        assert(records(out@) =~= landing_outside(all.take(0)));
        while i < self.claims.len()
            invariant
                i <= self.claims@.len(),
                all == records(self.claims@),
                records(out@) == landing_outside(all.take(i as int)),
            decreases self.claims@.len() - i,
        {
            proof {
                let grown = all.take(i + 1);
                assert(grown.drop_last() =~= all.take(i as int));
                assert(grown.last() == self.claims@[i as int]@);
            }
            if !is_inside(self.claims[i].out_rel.as_str()) {
                let one = self.claims[i].clone();
                proof {
                    lemma_records_push(out@, one);
                }
                out.push(one);
            }
            i += 1;
        }
        assert(all.take(self.claims@.len() as int) =~= all);
        out
    }

    /// One claim per output path, the winner under the unified precedence, in output-path
    /// order.
    pub fn winners(&self) -> (r: Vec<ClaimRecord>)
        ensures
            records(r@) == winning(self@.claims),
    {
        let sorted = self.sorted();
        let ghost all = records(sorted@);
        let mut out: Vec<ClaimRecord> = Vec::new();
        let mut i: usize = 0;
        assert(records(out@) =~= firsts(all.take(0)));
        while i < sorted.len()
            invariant
                i <= sorted@.len(),
                all == records(sorted@),
                records(out@) == firsts(all.take(i as int)),
            decreases sorted@.len() - i,
        {
            proof {
                let grown = all.take(i + 1);
                assert(grown.drop_last() =~= all.take(i as int));
                assert(grown.last() == sorted@[i as int]@);
                if out@.len() > 0 {
                    assert(records(out@).last() == out@[out@.len() - 1]@);
                }
            }
            let n = out.len();
            if n == 0 || !path::same_path(
                out[n - 1].out_rel.as_str(),
                sorted[i].out_rel.as_str(),
            ) {
                let one = sorted[i].clone();
                proof {
                    lemma_records_push(out@, one);
                }
                out.push(one);
            }
            i += 1;
        }
        assert(all.take(sorted@.len() as int) =~= all);
        out
    }

    /// Whether any source claims `out_rel`: the condition of the fallback index.
    pub fn claims_target(&self, out_rel: &str) -> (r: bool)
        ensures
            r == targeted(self@.claims, out_rel@),
    {
        let mut i: usize = 0;
        while i < self.claims.len()
            invariant
                i <= self.claims@.len(),
                forall|k: int|
                    0 <= k < i ==> parts((#[trigger] self.claims@[k]).out_rel@) != parts(out_rel@),
            decreases self.claims@.len() - i,
        {
            if path::same_path(self.claims[i].out_rel.as_str(), out_rel) {
                assert(parts(self@.claims[i as int].out_rel) == parts(out_rel@));
                return true;
            }
            i += 1;
        }
        assert forall|k: int| 0 <= k < self@.claims.len() implies parts(
            (#[trigger] self@.claims[k]).out_rel,
        ) != parts(out_rel@) by {
            assert(self@.claims[k] == self.claims@[k]@);
        }
        false
    }

    /// Every path the scan visited, directories included.
    pub fn walked_paths(&self) -> (r: &Vec<String>)
        ensures
            texts(r@) == self@.walked,
    {
        &self.walked
    }

    /// Files whose canonical location is outside their canonical source root.
    pub fn escaping_sources(&self) -> (r: &Vec<Located>)
        ensures
            spots(r@) == self@.escaping_sources,
    {
        &self.escaping_sources
    }

    /// Walk problems: unreadable directories, unresolvable links. The preflight describes
    /// the complete output only when this is empty.
    pub fn walk_errors(&self) -> (r: &Vec<String>)
        ensures
            texts(r@) == self@.walk_errors,
    {
        &self.walk_errors
    }
}

/// A copy of a list of claims.
pub fn copy_records(list: &Vec<ClaimRecord>) -> (r: Vec<ClaimRecord>)
    ensures
        records(r@) == records(list@),
        r@.len() == list@.len(),
{
    let mut out: Vec<ClaimRecord> = Vec::new();
    let mut i: usize = 0;
    while i < list.len()
        invariant
            i <= list@.len(),
            out@.len() == i,
            forall|k: int| 0 <= k < i ==> (#[trigger] out@[k])@ == list@[k]@,
        decreases list@.len() - i,
    {
        out.push(list[i].clone());
        i += 1;
    }
    assert(records(out@) =~= records(list@));
    out
}

/// Whether a write to `out_rel` lands in the output directory.
pub fn is_inside(out_rel: &str) -> (r: bool)
    ensures
        r == lands_inside(out_rel@),
{
    if out_rel.is_empty() {
        return false;
    }
    let list = path::components(out_rel);
    assert(views(list@) == parts(out_rel@));
    let mut i: usize = 0;
    while i < list.len()
        invariant
            i <= list@.len(),
            views(list@) == parts(out_rel@),
            forall|k: int| 0 <= k < i ==> (#[trigger] parts(out_rel@)[k]) is Name,
        decreases list@.len() - i,
    {
        assert(views(list@)[i as int] == list@[i as int]@);
        match &list[i] {
            Component::Normal(_) => {},
            _ => {
                assert(!(parts(out_rel@)[i as int] is Name));
                return false;
            },
        }
        i += 1;
    }
    true
}

// ---------------------------------------------------------------------------
// Laws
// ---------------------------------------------------------------------------

proof fn lemma_outranks_transitive(a: Claimed, b: Claimed, c: Claimed)
    requires
        outranks(a, b),
        outranks(b, c),
    ensures
        outranks(a, c),
{
    if a.root == b.root && b.root == c.root && rank_place(a.rank) == rank_place(b.rank)
        && rank_place(b.rank) == rank_place(c.rank) && a.tiebreak == b.tiebreak && b.tiebreak
        == c.tiebreak {
        path::lemma_parts_transitive(parts(a.rel), parts(b.rel), parts(c.rel));
    }
}

/// What is not after something that is not after a third is not after the third.
proof fn lemma_order_carries(a: Claimed, b: Claimed, c: Claimed)
    requires
        !claim_before(b, a),
        !claim_before(c, b),
    ensures
        !claim_before(c, a),
{
    let (x, y, z) = (parts(a.out_rel), parts(b.out_rel), parts(c.out_rel));
    path::lemma_parts_total(x, y);
    path::lemma_parts_total(y, z);
    path::lemma_parts_irreflexive(x);
    if claim_before(c, a) {
        if parts_before(z, x) {
            if parts_before(x, y) {
                path::lemma_parts_transitive(z, x, y);
            }
        } else {
            assert(x == z);
            if x != y {
                path::lemma_parts_transitive(x, y, x);
            } else {
                let (p, q, r) = (parts(a.rel), parts(b.rel), parts(c.rel));
                path::lemma_parts_total(p, q);
                path::lemma_parts_total(q, r);
                if parts_before(r, p) && parts_before(p, q) {
                    path::lemma_parts_transitive(r, p, q);
                }
            }
        }
    }
}

/// The claims of a list stand in order.
pub open spec fn ordered_claims(list: Seq<Claimed>) -> bool {
    forall|i: int, j: int|
        0 <= i < j < list.len() ==> !claim_before(#[trigger] list[j], #[trigger] list[i])
}

proof fn lemma_with_claim(list: Seq<Claimed>, one: Claimed)
    requires
        ordered_claims(list),
    ensures
        ordered_claims(with_claim(list, one)),
        with_claim(list, one).to_multiset() =~= list.to_multiset().insert(one),
        with_claim(list, one).len() == list.len() + 1,
        forall|k: int|
            0 <= k < with_claim(list, one).len() ==> (#[trigger] with_claim(list, one)[k]) == one
                || list.contains(with_claim(list, one)[k]),
    decreases list.len(),
{
    let after = with_claim(list, one);
    broadcast use vstd::seq_lib::group_to_multiset_ensures;

    if list.len() == 0 || !claim_before(one, list.last()) {
        assert forall|k: int| 0 <= k < after.len() implies (#[trigger] after[k]) == one
            || list.contains(after[k]) by {
            if k < list.len() {
                assert(list[k] == after[k]);
            }
        }
        assert forall|i: int, j: int| 0 <= i < j < after.len() implies !claim_before(
            #[trigger] after[j],
            #[trigger] after[i],
        ) by {
            if j == list.len() {
                let last = list.len() - 1;
                if i < last {
                    assert(!claim_before(list[last], list[i]));
                    lemma_order_carries(list[i], list[last], one);
                }
            }
        }
    } else {
        let front = list.drop_last();
        assert forall|i: int, j: int| 0 <= i < j < front.len() implies !claim_before(
            #[trigger] front[j],
            #[trigger] front[i],
        ) by {
            assert(front[i] == list[i]);
            assert(front[j] == list[j]);
        }
        lemma_with_claim(front, one);
        let w = with_claim(front, one);
        assert(list =~= front.push(list.last()));
        assert forall|k: int| 0 <= k < after.len() implies (#[trigger] after[k]) == one
            || list.contains(after[k]) by {
            if k < w.len() {
                assert(after[k] == w[k]);
                if w[k] != one {
                    assert(front.contains(w[k]));
                    let m = choose|m: int| 0 <= m < front.len() && front[m] == w[k];
                    assert(list[m] == w[k]);
                }
            } else {
                assert(list[list.len() - 1] == after[k]);
            }
        }
        assert forall|i: int, j: int| 0 <= i < j < after.len() implies !claim_before(
            #[trigger] after[j],
            #[trigger] after[i],
        ) by {
            if j == w.len() {
                assert(after[j] == list.last());
                assert(after[i] == w[i]);
                if w[i] == one {
                    if claim_before(list.last(), one) {
                        lemma_claim_order_strict(one, list.last());
                    }
                } else {
                    let m = choose|m: int| 0 <= m < front.len() && front[m] == w[i];
                    assert(list[m] == w[i]);
                    assert(list[list.len() - 1] == list.last());
                }
            } else {
                assert(after[i] == w[i]);
                assert(after[j] == w[j]);
            }
        }
    }
}

proof fn lemma_claim_order_strict(a: Claimed, b: Claimed)
    requires
        claim_before(a, b),
    ensures
        !claim_before(b, a),
{
    let (x, y) = (parts(a.out_rel), parts(b.out_rel));
    path::lemma_parts_irreflexive(x);
    path::lemma_parts_irreflexive(parts(a.rel));
    if claim_before(b, a) {
        if parts_before(x, y) {
            if parts_before(y, x) {
                path::lemma_parts_transitive(x, y, x);
            }
        } else {
            if parts_before(y, x) {
                path::lemma_parts_irreflexive(y);
            } else {
                lemma_outranks_transitive(a, b, a);
            }
        }
    }
}

pub proof fn lemma_in_order(claims: Seq<Claimed>)
    ensures
        ordered_claims(in_order(claims)),
        in_order(claims).to_multiset() =~= claims.to_multiset(),
        in_order(claims).len() == claims.len(),
        forall|k: int| 0 <= k < claims.len() ==> in_order(claims).contains(#[trigger] claims[k]),
        forall|k: int|
            0 <= k < in_order(claims).len() ==> claims.contains(#[trigger] in_order(claims)[k]),
    decreases claims.len(),
{
    broadcast use vstd::seq_lib::group_to_multiset_ensures;

    if claims.len() > 0 {
        let front = claims.drop_last();
        lemma_in_order(front);
        lemma_with_claim(in_order(front), claims.last());
        assert(claims =~= front.push(claims.last()));
    }
    let now = in_order(claims);
    assert forall|k: int| 0 <= k < claims.len() implies now.contains(#[trigger] claims[k]) by {
        assert(claims.contains(claims[k]));
        assert(claims.to_multiset().count(claims[k]) > 0);
        assert(now.to_multiset().count(claims[k]) > 0);
    }
    assert forall|k: int| 0 <= k < now.len() implies claims.contains(#[trigger] now[k]) by {
        assert(now.contains(now[k]));
        assert(now.to_multiset().count(now[k]) > 0);
        assert(claims.to_multiset().count(now[k]) > 0);
    }
}

/// Some entry of a list in order is the winner of an output path, and nothing on that path
/// outranks it.
spec fn won_by(list: Seq<Claimed>, claim: Claimed) -> bool {
    exists|i: int|
        0 <= i < firsts(list).len() && same_target(#[trigger] firsts(list)[i], claim) && !outranks(
            claim,
            firsts(list)[i],
        )
}

proof fn lemma_firsts(list: Seq<Claimed>)
    requires
        ordered_claims(list),
    ensures
        list.len() > 0 ==> firsts(list).len() > 0 && same_target(firsts(list).last(), list.last()),
        forall|i: int| 0 <= i < firsts(list).len() ==> list.contains(#[trigger] firsts(list)[i]),
        forall|i: int, j: int|
            0 <= i < j < firsts(list).len() ==> parts_before(
                parts((#[trigger] firsts(list)[i]).out_rel),
                parts((#[trigger] firsts(list)[j]).out_rel),
            ),
        forall|k: int| 0 <= k < list.len() ==> won_by(list, #[trigger] list[k]),
    decreases list.len(),
{
    if list.len() > 0 {
        let front = list.drop_last();
        let last = list.last();
        assert forall|i: int, j: int| 0 <= i < j < front.len() implies !claim_before(
            #[trigger] front[j],
            #[trigger] front[i],
        ) by {
            assert(front[i] == list[i]);
            assert(front[j] == list[j]);
        }
        lemma_firsts(front);
        let before = firsts(front);
        let now = firsts(list);
        assert(list[list.len() - 1] == last);
        assert forall|i: int| 0 <= i < now.len() implies list.contains(#[trigger] now[i]) by {
            if i < before.len() {
                assert(now[i] == before[i]);
                assert(front.contains(before[i]));
                let m = choose|m: int| 0 <= m < front.len() && front[m] == before[i];
                assert(list[m] == before[i]);
            }
        }
        if before.len() > 0 && same_target(before.last(), last) {
            let w = before.last();
            assert(before[before.len() - 1] == w);
            assert(front.contains(w));
            let m = choose|m: int| 0 <= m < front.len() && front[m] == w;
            assert(list[m] == w);
            assert(!claim_before(list[list.len() - 1], list[m]));
            assert(!outranks(last, w));
            assert(won_by(list, last)) by {
                assert(same_target(now[before.len() - 1], last));
            }
        } else {
            if before.len() > 0 {
                let f = front.last();
                assert(front[front.len() - 1] == f);
                assert(list[front.len() - 1] == f);
                assert(!claim_before(last, f));
                path::lemma_parts_total(parts(f.out_rel), parts(last.out_rel));
                assert(parts_before(parts(f.out_rel), parts(last.out_rel)));
                assert forall|i: int, j: int| 0 <= i < j < now.len() implies parts_before(
                    parts((#[trigger] now[i]).out_rel),
                    parts((#[trigger] now[j]).out_rel),
                ) by {
                    if j == before.len() {
                        if i < before.len() - 1 {
                            assert(parts_before(
                                parts(before[i].out_rel),
                                parts(before[before.len() - 1].out_rel),
                            ));
                            path::lemma_parts_transitive(
                                parts(before[i].out_rel),
                                parts(f.out_rel),
                                parts(last.out_rel),
                            );
                        }
                    } else {
                        assert(now[i] == before[i]);
                        assert(now[j] == before[j]);
                    }
                }
            } else {
                assert(front.len() == 0);
            }
            path::lemma_parts_irreflexive(parts(last.rel));
            assert(won_by(list, last)) by {
                assert(same_target(now[now.len() - 1], last));
            }
        }
        assert forall|k: int| 0 <= k < list.len() implies won_by(list, #[trigger] list[k]) by {
            if k < front.len() {
                assert(front[k] == list[k]);
                assert(won_by(front, front[k]));
                let i = choose|i: int|
                    0 <= i < before.len() && same_target(#[trigger] before[i], front[k])
                        && !outranks(front[k], before[i]);
                assert(now[i] == before[i]);
            }
        }
    }
}

/// The winner of a claim's output path is not outranked by it.
pub open spec fn has_winner(claims: Seq<Claimed>, claim: Claimed) -> bool {
    exists|i: int|
        0 <= i < winning(claims).len() && same_target(#[trigger] winning(claims)[i], claim)
            && !outranks(claim, winning(claims)[i])
}

/// Every claimed output path has exactly one winner: the winners stand in strict path order,
/// so no path occurs twice; each is one of the claims; and for each claim there is a winner
/// on its path that it does not outrank.
pub proof fn law_one_winner_per_target(claims: Seq<Claimed>)
    ensures
        forall|i: int, j: int|
            0 <= i < j < winning(claims).len() ==> parts_before(
                parts((#[trigger] winning(claims)[i]).out_rel),
                parts((#[trigger] winning(claims)[j]).out_rel),
            ),
        forall|i: int|
            0 <= i < winning(claims).len() ==> claims.contains(#[trigger] winning(claims)[i]),
        forall|k: int| 0 <= k < claims.len() ==> has_winner(claims, #[trigger] claims[k]),
{
    let list = in_order(claims);
    lemma_in_order(claims);
    lemma_firsts(list);
    let w = winning(claims);
    assert forall|i: int| 0 <= i < w.len() implies claims.contains(#[trigger] w[i]) by {
        assert(list.contains(w[i]));
        let k = choose|k: int| 0 <= k < list.len() && list[k] == w[i];
        assert(claims.contains(list[k]));
    }
    assert forall|k: int| 0 <= k < claims.len() implies has_winner(claims, #[trigger] claims[k]) by {
        assert(list.contains(claims[k]));
        let m = choose|m: int| 0 <= m < list.len() && list[m] == claims[k];
        assert(won_by(list, list[m]));
        let i = choose|i: int|
            0 <= i < firsts(list).len() && same_target(#[trigger] firsts(list)[i], list[m])
                && !outranks(list[m], firsts(list)[i]);
        assert(same_target(w[i], claims[k]));
    }
}

/// The first claimant of each contested output path is its winner.
pub proof fn law_first_claimant_wins(list: Seq<Claimed>)
    ensures
        groups(list).len() == firsts(list).len(),
        forall|i: int|
            0 <= i < groups(list).len() ==> (#[trigger] groups(list)[i]).len() > 0 && groups(
                list,
            )[i][0] == firsts(list)[i],
    decreases list.len(),
{
    if list.len() > 0 {
        let front = list.drop_last();
        law_first_claimant_wins(front);
        let g = groups(front);
        let f = firsts(front);
        if g.len() > 0 {
            assert(g[g.len() - 1][0] == f[f.len() - 1]);
        }
        assert forall|i: int| 0 <= i < groups(list).len() implies (#[trigger] groups(
            list,
        )[i]).len() > 0 && groups(list)[i][0] == firsts(list)[i] by {
            if i < g.len() {
                assert(g[i].len() > 0);
                assert(g[i][0] == f[i]);
            }
        }
    }
}

/// No claim of a preflight is on a rejected output path, whichever step made it.
pub proof fn law_no_claim_on_rejected_target<P: Preflight>(
    roots: Seq<Root>,
    steps: Seq<P>,
    rules: Rules,
    mode: SymlinkMode,
    n: int,
)
    requires
        0 <= n <= roots.len(),
    ensures
        unrejected(surveyed(roots, steps, rules, mode, n), rules),
    decreases n,
{
    if n > 0 {
        law_no_claim_on_rejected_target(roots, steps, rules, mode, n - 1);
        let root = roots[n - 1];
        if let Ok(real_root) = outcome(root.canonical) {
            lemma_met_all_unrejected(
                surveyed(roots, steps, rules, mode, n - 1),
                (n - 1) as usize,
                root.path@,
                real_root,
                root.seen@,
                steps,
                rules,
                mode,
                root.seen@.len() as int,
            );
        }
    }
}

/// No claim is on a rejected output path.
pub open spec fn unrejected(found: Survey, rules: Rules) -> bool {
    forall|i: int|
        0 <= i < found.claims.len() ==> !refuses_path(rules, (#[trigger] found.claims[i]).out_rel)
}

proof fn lemma_offered_unrejected<P: Preflight>(
    found: Survey,
    root: usize,
    rel: Seq<char>,
    steps: Seq<P>,
    rules: Rules,
    n: int,
)
    requires
        unrejected(found, rules),
    ensures
        unrejected(offered(found, root, rel, steps, rules, n), rules),
    decreases n,
{
    if n > 0 {
        lemma_offered_unrejected(found, root, rel, steps, rules, n - 1);
    }
}

proof fn lemma_met_all_unrejected<P: Preflight>(
    found: Survey,
    index: usize,
    root: Seq<char>,
    real_root: Seq<char>,
    seen: Seq<Seen>,
    steps: Seq<P>,
    rules: Rules,
    mode: SymlinkMode,
    n: int,
)
    requires
        unrejected(found, rules),
    ensures
        unrejected(met_all(found, index, root, real_root, seen, steps, rules, mode, n), rules),
    decreases n,
{
    if n > 0 {
        lemma_met_all_unrejected(
            found,
            index,
            root,
            real_root,
            seen,
            steps,
            rules,
            mode,
            n - 1,
        );
        let front = met_all(found, index, root, real_root, seen, steps, rules, mode, n - 1);
        if let Seen::Entry { path, .. } = seen[n - 1] {
            let walked = Survey { walked: front.walked.push(path@), ..front };
            if let Some(rest) = rest_of(path@, root) {
                lemma_offered_unrejected(
                    walked,
                    index,
                    rest,
                    steps,
                    rules,
                    steps.len() as int,
                );
            }
        }
    }
}

/// Under the safe symlink mode a file that resolves outside its root is claimed by no step.
pub proof fn law_escaping_source_is_not_claimed<P: Preflight>(
    found: Survey,
    index: usize,
    root: Seq<char>,
    real_root: Seq<char>,
    seen: Seen,
    steps: Seq<P>,
    rules: Rules,
)
    requires
        seen matches Seen::Entry { canonical, .. } && (outcome(canonical) matches Ok(reached)
            && !parts(real_root).is_prefix_of(parts(reached))),
    ensures
        met(found, index, root, real_root, seen, steps, rules, SymlinkMode::Follow).claims
            == found.claims,
{
}

/// The symlink mode never applies to an `npm://` reference: it is recorded as an asset in
/// every mode, whatever stands at its place.
pub proof fn law_references_are_followed_in_every_mode<P: Preflight>(
    found: Survey,
    index: usize,
    root: Seq<char>,
    real_root: Seq<char>,
    seen: Seen,
    steps: Seq<P>,
    rules: Rules,
    mode: SymlinkMode,
    other: SymlinkMode,
)
    requires
        seen matches Seen::Entry { link: Some(target), .. } && SCHEME@.is_prefix_of(target@),
    ensures
        met(found, index, root, real_root, seen, steps, rules, mode) == met(
            found,
            index,
            root,
            real_root,
            seen,
            steps,
            rules,
            other,
        ),
        seen matches Seen::Entry { path, link: Some(target), .. } && (rest_of(path@, root) matches Some(
            rest,
        ) ==> met(found, index, root, real_root, seen, steps, rules, mode).npm_assets
            == found.npm_assets.push(Spot { root: index, rel: rest, target: target@ })),
{
}

/// Who wins an output path. For every claim and every winner on one output path, the winner is
/// from the same root or from an earlier one, whatever their ranks and tiebreaks. From the same
/// root, a Tera template loses to nothing, a markdown template to those alone, and a literal file
/// to templates alone: a transform wins only over transforms. Between claims of one rank the lower
/// tiebreak wins, and then the source path that comes first.
pub proof fn law_earlier_root_wins(claims: Seq<Claimed>, k: int, i: int)
    requires
        0 <= k < claims.len(),
        0 <= i < winning(claims).len(),
        parts(winning(claims)[i].out_rel) == parts(claims[k].out_rel),
    ensures
        winning(claims)[i].root <= claims[k].root,
        winning(claims)[i].root == claims[k].root ==> {
            let (w, c) = (winning(claims)[i], claims[k]);
            &&& c.rank == Rank::Tera ==> w.rank == Rank::Tera
            &&& c.rank == Rank::MdTmpl ==> w.rank == Rank::Tera || w.rank == Rank::MdTmpl
            &&& c.rank == Rank::Static ==> w.rank != Rank::Transform
            &&& c.rank == w.rank ==> w.tiebreak <= c.tiebreak
            &&& c.rank == w.rank && c.tiebreak == w.tiebreak ==> parts(w.rel) == parts(c.rel)
                || parts_before(parts(w.rel), parts(c.rel))
        },
{
    law_one_winner_per_target(claims);
    assert(has_winner(claims, claims[k]));
    let j = choose|j: int|
        0 <= j < winning(claims).len() && same_target(#[trigger] winning(claims)[j], claims[k])
            && !outranks(claims[k], winning(claims)[j]);
    let (w, c) = (winning(claims)[i], claims[k]);
    path::lemma_parts_irreflexive(parts(c.out_rel));
    if i < j {
        assert(parts_before(parts(winning(claims)[i].out_rel), parts(winning(claims)[j].out_rel)));
    } else if j < i {
        assert(parts_before(parts(winning(claims)[j].out_rel), parts(winning(claims)[i].out_rel)));
    }
    path::lemma_parts_total(parts(w.rel), parts(c.rel));
}

/// Every claimed output path is written, and every write is a claimed one: for each claim there is
/// a winner on its path, the winner is one of the claims, and no other winner is on that path.
pub proof fn law_every_target_is_written_once(claims: Seq<Claimed>, k: int)
    requires
        0 <= k < claims.len(),
    ensures
        exists|i: int|
            0 <= i < winning(claims).len() && parts((#[trigger] winning(claims)[i]).out_rel)
                == parts(claims[k].out_rel) && winning(claims)[i].root <= claims[k].root,
        forall|i: int|
            0 <= i < winning(claims).len() ==> claims.contains(#[trigger] winning(claims)[i]),
        forall|i: int, j: int|
            0 <= i < j < winning(claims).len() ==> parts((#[trigger] winning(claims)[i]).out_rel)
                != parts((#[trigger] winning(claims)[j]).out_rel),
{
    law_one_winner_per_target(claims);
    assert(has_winner(claims, claims[k]));
    let i = choose|i: int|
        0 <= i < winning(claims).len() && same_target(#[trigger] winning(claims)[i], claims[k])
            && !outranks(claims[k], winning(claims)[i]);
    law_earlier_root_wins(claims, k, i);
    assert forall|a: int, b: int| 0 <= a < b < winning(claims).len() implies parts(
        (#[trigger] winning(claims)[a]).out_rel,
    ) != parts((#[trigger] winning(claims)[b]).out_rel) by {
        path::lemma_parts_irreflexive(parts(winning(claims)[a].out_rel));
    }
}

/// A file is offered to every step: what a step claims is recorded, with the step's own rank and
/// place among the steps, unless the rules refuse the target, and then it is noted as refused.
/// What was found before stays, and nothing else is added.
pub proof fn law_every_step_is_asked<P: Preflight>(
    found: Survey,
    root: usize,
    rel: Seq<char>,
    steps: Seq<P>,
    rules: Rules,
    n: int,
)
    requires
        0 <= n <= steps.len() <= usize::MAX,
    ensures
        ({
            let after = offered(found, root, rel, steps, rules, n);
            &&& found.claims.is_prefix_of(after.claims)
            &&& found.rejected_claims.is_prefix_of(after.rejected_claims)
            &&& forall|k: int|
                0 <= k < n ==> ((#[trigger] steps[k]).claims(rel) matches Some((out_rel, tiebreak))
                    ==> ({
                    let record = Claimed {
                        root,
                        rel,
                        step: k as usize,
                        rank: steps[k].ranked(),
                        tiebreak,
                        out_rel,
                    };
                    if refuses_path(rules, out_rel) {
                        after.rejected_claims.contains(record)
                    } else {
                        after.claims.contains(record)
                    }
                }))
            &&& forall|i: int|
                found.claims.len() <= i < after.claims.len() ==> (#[trigger] after.claims[i]).root
                    == root && after.claims[i].rel == rel && after.claims[i].step < n
                    && steps[after.claims[i].step as int].claims(rel) == Some(
                    (after.claims[i].out_rel, after.claims[i].tiebreak),
                )
            &&& after.walked == found.walked && after.escaping_sources == found.escaping_sources
            &&& after.skipped_symlinks == found.skipped_symlinks && after.npm_assets
                == found.npm_assets && after.walk_errors == found.walk_errors
        }),
    decreases n,
{
    let after = offered(found, root, rel, steps, rules, n);
    if n <= 0 {
        assert(found.claims.subrange(0, found.claims.len() as int) =~= found.claims);
        assert(found.rejected_claims.subrange(0, found.rejected_claims.len() as int)
            =~= found.rejected_claims);
    } else {
        law_every_step_is_asked(found, root, rel, steps, rules, n - 1);
        let before = offered(found, root, rel, steps, rules, n - 1);
        assert(after.claims.subrange(0, found.claims.len() as int) =~= before.claims.subrange(
            0,
            found.claims.len() as int,
        ));
        assert(after.rejected_claims.subrange(0, found.rejected_claims.len() as int)
            =~= before.rejected_claims.subrange(0, found.rejected_claims.len() as int));
        assert forall|c: Claimed| before.claims.contains(c) implies #[trigger] after.claims.contains(
            c,
        ) by {
            let k = choose|k: int| 0 <= k < before.claims.len() && before.claims[k] == c;
            assert(after.claims[k] == c);
        }
        assert forall|c: Claimed|
            before.rejected_claims.contains(c) implies #[trigger] after.rejected_claims.contains(
            c,
        ) by {
            let k = choose|k: int|
                0 <= k < before.rejected_claims.len() && before.rejected_claims[k] == c;
            assert(after.rejected_claims[k] == c);
        }
        if let Some((out_rel, tiebreak)) = steps[n - 1].claims(rel) {
            if refuses_path(rules, out_rel) {
                assert(after.rejected_claims[before.rejected_claims.len() as int].out_rel
                    == out_rel);
            } else {
                assert(after.claims[before.claims.len() as int].out_rel == out_rel);
            }
        }
        assert forall|i: int| found.claims.len() <= i < after.claims.len() implies (
        #[trigger] after.claims[i]).root == root && after.claims[i].rel == rel
            && after.claims[i].step < n && steps[after.claims[i].step as int].claims(rel) == Some(
            (after.claims[i].out_rel, after.claims[i].tiebreak),
        ) by {
            if i < before.claims.len() {
                assert(after.claims[i] == before.claims[i]);
            }
        }
    }
}

/// What a walk meets: trouble is an error; a link that the mode does not follow is skipped; a
/// directory claims nothing; a file that cannot be resolved is an error; and any other file below
/// the root that is no link is offered to every step.
pub proof fn law_what_a_walk_meets<P: Preflight>(
    found: Survey,
    index: usize,
    root: Seq<char>,
    real_root: Seq<char>,
    seen: Seen,
    steps: Seq<P>,
    rules: Rules,
    mode: SymlinkMode,
)
    ensures
        ({
            let after = met(found, index, root, real_root, seen, steps, rules, mode);
            match seen {
                Seen::Trouble { message } => after == (Survey {
                    walk_errors: found.walk_errors.push(message@),
                    ..found
                }),
                Seen::Entry { path, is_file, link, canonical } => {
                    let walked = Survey { walked: found.walked.push(path@), ..found };
                    &&& after.walked == found.walked.push(path@)
                    &&& rest_of(path@, root) is None ==> after == walked
                    &&& !is_file && link is None ==> after == walked
                    &&& (mode == SymlinkMode::Redirect || mode == SymlinkMode::Move) && link is Some
                        ==> after.claims == found.claims && after.walk_errors == found.walk_errors
                    &&& (mode == SymlinkMode::Redirect || mode == SymlinkMode::Move) && (
                    link matches Some(target) && !"npm://"@.is_prefix_of(target@)) && rest_of(
                        path@,
                        root,
                    ) is Some ==> after.skipped_symlinks.len() == found.skipped_symlinks.len() + 1
                        && after.skipped_symlinks.last().target == link->Some_0@
                    &&& is_file && link is None && rest_of(path@, root) is Some && outcome(canonical)
                        is Err ==> after.claims == found.claims && after.walk_errors.len()
                        == found.walk_errors.len() + 1
                    &&& is_file && link is None && (rest_of(path@, root) matches Some(rel) && (
                    outcome(canonical) matches Ok(reached) && (mode != SymlinkMode::Follow || parts(
                        real_root,
                    ).is_prefix_of(parts(reached))))) ==> after == offered(
                        walked,
                        index,
                        rest_of(path@, root)->Some_0,
                        steps,
                        rules,
                        steps.len() as int,
                    )
                },
            }
        }),
{
    if let Seen::Entry { path, is_file, link, canonical } = seen {
        let walked = Survey { walked: found.walked.push(path@), ..found };
        if let Some(rel) = rest_of(path@, root) {
            lemma_offering_walks_nowhere(walked, index, rel, steps, rules, steps.len() as int);
        }
    }
}

proof fn lemma_offering_walks_nowhere<P: Preflight>(
    found: Survey,
    root: usize,
    rel: Seq<char>,
    steps: Seq<P>,
    rules: Rules,
    n: int,
)
    ensures
        offered(found, root, rel, steps, rules, n).walked == found.walked,
    decreases n,
{
    if n > 0 {
        lemma_offering_walks_nowhere(found, root, rel, steps, rules, n - 1);
    }
}

/// Each root that can be resolved is walked in order, behind those before it, under its own number;
/// one that cannot is an error, and is not walked.
pub proof fn law_roots_in_order<P: Preflight>(
    roots: Seq<Root>,
    steps: Seq<P>,
    rules: Rules,
    mode: SymlinkMode,
    n: int,
)
    requires
        0 <= n < roots.len() <= usize::MAX,
    ensures
        surveyed(roots, steps, rules, mode, 0).claims.len() == 0,
        ({
            let before = surveyed(roots, steps, rules, mode, n);
            let after = surveyed(roots, steps, rules, mode, n + 1);
            match outcome(roots[n].canonical) {
                Ok(real_root) => after == met_all(
                    before,
                    n as usize,
                    roots[n].path@,
                    real_root,
                    roots[n].seen@,
                    steps,
                    rules,
                    mode,
                    roots[n].seen@.len() as int,
                ),
                Err(e) => after.claims == before.claims && after.walk_errors.len()
                    == before.walk_errors.len() + 1,
            }
        }),
{
}

/// The sum of the lengths of a list of groups.
spec fn total(list: Seq<Seq<Claimed>>) -> nat
    decreases list.len(),
{
    if list.len() == 0 {
        0
    } else {
        total(list.drop_last()) + list.last().len()
    }
}

proof fn lemma_groups_total(list: Seq<Claimed>)
    ensures
        total(groups(list)) == list.len(),
    decreases list.len(),
{
    if list.len() > 0 {
        let rest = list.drop_last();
        lemma_groups_total(rest);
        let front = groups(rest);
        if front.len() > 0 && same_target(front.last()[0], list.last()) {
            assert(groups(list).drop_last() =~= front.drop_last());
        } else {
            assert(groups(list).drop_last() =~= front);
        }
    }
}

proof fn lemma_groups_agree(list: Seq<Claimed>)
    ensures
        forall|i: int, k: int|
            0 <= i < groups(list).len() && 0 <= k < groups(list)[i].len() ==> same_target(
                groups(list)[i][0],
                #[trigger] groups(list)[i][k],
            ) && list.contains(groups(list)[i][k]),
    decreases list.len(),
{
    if list.len() > 0 {
        let rest = list.drop_last();
        lemma_groups_agree(rest);
        lemma_groups_full(rest);
        let front = groups(rest);
        let all = groups(list);
        assert forall|i: int, k: int| 0 <= i < all.len() && 0 <= k < all[i].len() implies same_target(
            all[i][0],
            #[trigger] all[i][k],
        ) && list.contains(all[i][k]) by {
            if i < front.len() && k < front[i].len() {
                assert(all[i][k] == front[i][k]);
                assert(all[i][0] == front[i][0]);
                assert(rest.contains(front[i][k]));
                let m = choose|m: int| 0 <= m < rest.len() && rest[m] == front[i][k];
                assert(list[m] == front[i][k]);
            } else {
                assert(all[i][k] == list[list.len() - 1]);
            }
        }
    }
}

proof fn lemma_contested_iff(list: Seq<Seq<Claimed>>)
    requires
        forall|i: int| 0 <= i < list.len() ==> (#[trigger] list[i]).len() > 0,
    ensures
        total(list) >= list.len(),
        contested(list).len() == 0 <==> total(list) == list.len(),
        forall|g: Seq<Claimed>| #[trigger]
            contested(list).contains(g) <==> list.contains(g) && g.len() > 1,
    decreases list.len(),
{
    if list.len() > 0 {
        let front = list.drop_last();
        assert forall|i: int| 0 <= i < front.len() implies (#[trigger] front[i]).len() > 0 by {
            assert(front[i] == list[i]);
        }
        lemma_contested_iff(front);
        assert(list.last() == list[list.len() - 1]);
        let before = contested(front);
        let all = contested(list);
        assert forall|g: Seq<Claimed>| #[trigger] all.contains(g) <==> list.contains(g) && g.len()
            > 1 by {
            if all.contains(g) {
                let k = choose|k: int| 0 <= k < all.len() && all[k] == g;
                if k < before.len() {
                    assert(before[k] == g);
                    assert(before.contains(g));
                    let i = choose|i: int| 0 <= i < front.len() && front[i] == g;
                    assert(list[i] == g);
                }
            }
            if list.contains(g) && g.len() > 1 {
                let i = choose|i: int| 0 <= i < list.len() && list[i] == g;
                if i < front.len() {
                    assert(front[i] == g);
                    assert(before.contains(g));
                    let k = choose|k: int| 0 <= k < before.len() && before[k] == g;
                    assert(all[k] == g);
                } else {
                    assert(all[before.len() as int] == g);
                }
            }
        }
    }
}

/// There is a conflict exactly when two claims are on one output path; each conflict is of two or
/// more claims on one path.
pub proof fn law_conflicts(claims: Seq<Claimed>)
    ensures
        ({
            let list = in_order(claims);
            let conflicts = contested(groups(list));
            &&& list.to_multiset() == claims.to_multiset()
            &&& conflicts.len() == 0 <==> winning(claims).len() == claims.len()
            &&& conflicts.len() == 0 <==> forall|i: int, j: int|
                0 <= i < j < list.len() ==> parts((#[trigger] list[i]).out_rel) != parts(
                    (#[trigger] list[j]).out_rel,
                )
            &&& forall|g: Seq<Claimed>| #[trigger]
                conflicts.contains(g) ==> g.len() > 1 && forall|k: int|
                    0 <= k < g.len() ==> parts((#[trigger] g[k]).out_rel) == parts(g[0].out_rel)
                        && claims.contains(g[k])
        }),
{
    let list = in_order(claims);
    lemma_in_order(claims);
    lemma_groups_total(list);
    lemma_groups_full(list);
    lemma_groups_agree(list);
    lemma_contested_iff(groups(list));
    law_first_claimant_wins(list);
    lemma_firsts(list);
    law_one_winner_per_target(claims);
    let conflicts = contested(groups(list));
    if conflicts.len() == 0 {
        lemma_firsts_all(list);
        assert forall|i: int, j: int| 0 <= i < j < list.len() implies parts(
            (#[trigger] list[i]).out_rel,
        ) != parts((#[trigger] list[j]).out_rel) by {
            assert(firsts(list)[i] == list[i] && firsts(list)[j] == list[j]);
            path::lemma_parts_irreflexive(parts(list[i].out_rel));
        }
    }
    if forall|i: int, j: int|
        0 <= i < j < list.len() ==> parts((#[trigger] list[i]).out_rel) != parts(
            (#[trigger] list[j]).out_rel,
        ) {
        lemma_distinct_are_firsts(list);
    }
    assert forall|g: Seq<Claimed>| #[trigger] conflicts.contains(g) implies g.len() > 1 && forall|
        k: int,
    |
        0 <= k < g.len() ==> parts((#[trigger] g[k]).out_rel) == parts(g[0].out_rel)
            && claims.contains(g[k]) by {
        assert(groups(list).contains(g));
        let m = choose|m: int| 0 <= m < groups(list).len() && groups(list)[m] == g;
        assert forall|k: int| 0 <= k < g.len() implies parts((#[trigger] g[k]).out_rel) == parts(
            g[0].out_rel,
        ) && claims.contains(g[k]) by {
            assert(same_target(groups(list)[m][0], groups(list)[m][k]));
            assert(list.contains(groups(list)[m][k]));
            let x = choose|x: int| 0 <= x < list.len() && list[x] == g[k];
            assert(claims.contains(list[x]));
        }
    }
}

proof fn lemma_firsts_all(list: Seq<Claimed>)
    requires
        firsts(list).len() == list.len(),
    ensures
        firsts(list) == list,
    decreases list.len(),
{
    if list.len() > 0 {
        let front = list.drop_last();
        lemma_firsts_short(front);
        assert(firsts(front).len() == front.len());
        lemma_firsts_all(front);
        assert(front.push(list.last()) =~= list);
    } else {
        assert(list =~= Seq::<Claimed>::empty());
    }
}

proof fn lemma_firsts_short(list: Seq<Claimed>)
    ensures
        firsts(list).len() <= list.len(),
    decreases list.len(),
{
    if list.len() > 0 {
        lemma_firsts_short(list.drop_last());
    }
}

proof fn lemma_distinct_are_firsts(list: Seq<Claimed>)
    requires
        forall|i: int, j: int|
            0 <= i < j < list.len() ==> parts((#[trigger] list[i]).out_rel) != parts(
                (#[trigger] list[j]).out_rel,
            ),
    ensures
        firsts(list) == list,
    decreases list.len(),
{
    if list.len() > 0 {
        let front = list.drop_last();
        assert forall|i: int, j: int| 0 <= i < j < front.len() implies parts(
            (#[trigger] front[i]).out_rel,
        ) != parts((#[trigger] front[j]).out_rel) by {
            assert(front[i] == list[i] && front[j] == list[j]);
        }
        lemma_distinct_are_firsts(front);
        if front.len() > 0 {
            assert(list[front.len() - 1] == front.last());
            assert(list[list.len() - 1] == list.last());
            assert(parts(list[front.len() - 1].out_rel) != parts(list[list.len() - 1].out_rel));
        }
        assert(front.push(list.last()) =~= list);
    } else {
        assert(list =~= Seq::<Claimed>::empty());
    }
}

/// A claim escapes when its output path is empty or has a component that is no ordinary name, and
/// the escaping claims are exactly those.
pub proof fn law_escaping_claims(claims: Seq<Claimed>, c: Claimed)
    ensures
        landing_outside(claims).contains(c) <==> claims.contains(c) && (c.out_rel.len() == 0
            || exists|i: int|
            0 <= i < parts(c.out_rel).len() && !((#[trigger] parts(c.out_rel)[i]) is Name)),
        path::rooted(c.out_rel) ==> !lands_inside(c.out_rel),
    decreases claims.len(),
{
    if path::rooted(c.out_rel) {
        assert(parts(c.out_rel)[0] is Root);
    }
    if claims.len() > 0 {
        let front = claims.drop_last();
        law_escaping_claims(front, c);
        let before = landing_outside(front);
        let all = landing_outside(claims);
        if all.contains(c) {
            let k = choose|k: int| 0 <= k < all.len() && all[k] == c;
            if k < before.len() {
                assert(before[k] == c);
                let i = choose|i: int| 0 <= i < front.len() && front[i] == c;
                assert(claims[i] == c);
            } else {
                assert(claims[claims.len() - 1] == c);
            }
        }
        if claims.contains(c) && !lands_inside(c.out_rel) {
            let i = choose|i: int| 0 <= i < claims.len() && claims[i] == c;
            if i < front.len() {
                assert(front[i] == c);
                let k = choose|k: int| 0 <= k < before.len() && before[k] == c;
                assert(all[k] == c);
            } else {
                assert(all[before.len() as int] == c);
            }
        }
    }
}

} // verus!
