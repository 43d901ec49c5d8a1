//! What has to hold before anything is written: sources come from inside their root, writes
//! land inside the output directory, no output path is claimed twice, and none of the
//! pipeline's own writes is claimed by a source.

use vstd::prelude::*;

use crate::build::marker::OUT_MARKER;
use crate::build::options::{comment_policy, rewrites, Comments, Features, Output, Processors};
use crate::build::preflight;
use crate::build::preflight::{
    contested, groups, in_order, indexed, landing_outside, lands_inside, records, same_target,
    spots, surveyed, targeted, winning, ClaimRecord, Claimed, Conflict, Located, PreflightReport,
    Root, Spot, Survey, WalkPolicy,
};
use crate::build::steps::{enabled_steps, stages, step_list, BuildStep, Preflight, Rank};
use crate::error::{Error, Failure};
use crate::path;
use crate::path::{extended_parts, extension_of, name_of, parts, retyped, under, written, Part};
use crate::text;
use crate::text::{digits, joined, opt_text, texts, without_suffix};

verus! {

/// Whether an extension is one the gzip pass writes `.gz` sidecars for: also what the
/// sidecar reservation guards, so the two can never disagree.
pub open spec fn gzip_ext(ext: Seq<char>) -> bool {
    ||| ext == "js"@
    ||| ext == "css"@
    ||| ext == "html"@
    ||| ext == "json"@
    ||| ext == "svg"@
    ||| ext == "map"@
}

/// Whether the gzip pass writes `.gz` sidecars for files with this extension. `map` covers
/// the source-map sidecars (large JSON, well worth compressing).
pub fn is_gzip_ext(ext: &str) -> (r: bool)
    ensures
        r == gzip_ext(ext@),
{
    text::same(ext, "js") || text::same(ext, "css") || text::same(ext, "html") || text::same(
        ext,
        "json",
    ) || text::same(ext, "svg") || text::same(ext, "map")
}

/// The extensions whose files the gzip pass writes `.gz` sidecars for.
pub fn gzip_exts() -> (r: Vec<String>)
    ensures
        forall|ext: Seq<char>| texts(r@).contains(ext) <==> #[trigger] gzip_ext(ext),
{
    let mut out: Vec<String> = Vec::new();
    out.push("js".to_owned());
    out.push("css".to_owned());
    out.push("html".to_owned());
    out.push("json".to_owned());
    out.push("svg".to_owned());
    out.push("map".to_owned());
    proof {
        let all = texts(out@);
        assert(all =~= seq!["js"@, "css"@, "html"@, "json"@, "svg"@, "map"@]);
        assert forall|ext: Seq<char>| all.contains(ext) <==> #[trigger] gzip_ext(ext) by {
            assert(all[0] == "js"@ && all[1] == "css"@ && all[2] == "html"@ && all[3] == "json"@
                && all[4] == "svg"@ && all[5] == "map"@);
        }
    }
    out
}

/// What of a build decides which output paths are reserved.
#[derive(Clone, Copy, Debug, PartialEq, Eq, Structural)]
pub struct Generates {
    /// The tree is folded per entry point.
    pub bundling: bool,
    /// Source maps are written.
    pub sourcemap: bool,
    /// Already-emitted JavaScript is rewritten.
    pub rewriting: bool,
    /// Legal comments are collected into sidecars.
    pub collecting: bool,
    /// `.gz` sidecars are written.
    pub gzip: bool,
}

/// What a build generates besides what its sources claim.
pub open spec fn generated(
    bundle: bool,
    sourcemap: bool,
    output: Output,
    features: Features,
) -> Generates {
    Generates {
        bundling: features.bundle && bundle,
        sourcemap,
        rewriting: features.typescript && rewrites(output),
        collecting: comment_policy(output) == Comments::Collect,
        gzip: features.compress && output.gzip,
    }
}

impl Generates {
    /// What a build generates besides what its sources claim.
    pub fn of(processors: &Processors, output: &Output, features: &Features) -> (r: Self)
        ensures
            r == generated(processors.bundle, processors.sourcemap, *output, *features),
    {
        Generates {
            bundling: features.bundle && processors.bundle,
            sourcemap: processors.sourcemap,
            rewriting: features.typescript && output.js_rewrite(
                processors.sourcemap,
            ).is_some(),
            collecting: output.effective_comments() == Comments::Collect,
            gzip: features.compress && output.gzip,
        }
    }
}

/// An emitted file that gets sidecars of its own: compiled `.js` always; with the whole-tree
/// rewrite, every emitted `.js`/`.mjs`, whichever step wins it.
pub open spec fn bears(winner: Claimed, rewriting: bool) -> bool {
    match extension_of(winner.out_rel) {
        Some(ext) => if ext == "js"@ {
            rewriting || winner.rank == Rank::Transform
        } else {
            ext == "mjs"@ && rewriting
        },
        None => false,
    }
}

/// A file at `place` gets sidecars of its own.
pub open spec fn bearing(winners: Seq<Claimed>, rewriting: bool, place: Seq<Part>) -> bool {
    exists|i: int|
        0 <= i < winners.len() && parts((#[trigger] winners[i]).out_rel) == place && bears(
            winners[i],
            rewriting,
        )
}

/// The build writes a source map at `target`.
pub open spec fn map_emitting(winners: Seq<Claimed>, by: Generates, target: Seq<char>) -> bool {
    &&& by.sourcemap
    &&& extension_of(target) == Some("map"@)
    &&& bearing(
        winners,
        by.rewriting,
        parts(retyped(target, Seq::empty())),
    )
}

/// The emitted file whose legal comments the build collects at `target`.
pub open spec fn legal_of(winners: Seq<Claimed>, by: Generates, target: Seq<char>) -> Option<
    Seq<char>,
> {
    match without_suffix(target, ".LEGAL.txt"@) {
        Some(inner) => if by.collecting && bearing(winners, by.rewriting, parts(inner)) {
            Some(inner)
        } else {
            None
        },
        None => None,
    }
}

/// The emitted file whose gzip sidecar the build writes at `target`.
pub open spec fn gzip_of(
    claims: Seq<Claimed>,
    winners: Seq<Claimed>,
    by: Generates,
    target: Seq<char>,
) -> Option<Seq<char>> {
    if by.gzip && extension_of(target) == Some("gz"@) {
        let inner = retyped(target, Seq::empty());
        let eligible = extension_of(inner) matches Some(ext) && gzip_ext(ext);
        let emitted = targeted(claims, inner) || parts(inner) == parts("importmap.json"@)
            || parts(inner) == parts("index.html"@) || map_emitting(winners, by, inner);
        if eligible && emitted {
            Some(inner)
        } else {
            None
        }
    } else {
        None
    }
}

/// What an output path is reserved for: the standalone import map, the output marker, the
/// vendored subtree, the bundled chunks, a source map, collected legal comments, or a gzip
/// sidecar. The fallback `index.html` is the deliberate exception: it is synthesised only
/// when no source claims that target.
pub open spec fn reserved_for(
    claims: Seq<Claimed>,
    winners: Seq<Claimed>,
    by: Generates,
    target: Seq<char>,
) -> Option<Seq<char>> {
    if parts(target) == parts("importmap.json"@) {
        Some("the generated import map"@)
    } else if parts(target) == parts(OUT_MARKER@) {
        Some("the output marker"@)
    } else if parts("web_modules"@).is_prefix_of(parts(target)) {
        Some("the vendored modules directory (web_modules/)"@)
    } else if by.bundling && parts("chunks"@).is_prefix_of(parts(target)) {
        Some("the bundled chunks directory (chunks/)"@)
    } else if map_emitting(winners, by, target) {
        Some("the generated source map of "@ + retyped(target, Seq::empty()))
    } else if legal_of(winners, by, target) is Some {
        Some("the collected legal comments of "@ + legal_of(winners, by, target)->Some_0)
    } else if gzip_of(claims, winners, by, target) is Some {
        Some("the gzip sidecar of "@ + gzip_of(claims, winners, by, target)->Some_0)
    } else {
        None
    }
}

fn is_bearing(winners: &Vec<ClaimRecord>, rewriting: bool, place: &str) -> (r: bool)
    ensures
        r == bearing(records(winners@), rewriting, parts(place@)),
{
    let ghost all = records(winners@);
    let mut i: usize = 0;
    while i < winners.len()
        invariant
            i <= winners@.len(),
            all == records(winners@),
            forall|k: int|
                0 <= k < i ==> !(parts((#[trigger] all[k]).out_rel) == parts(place@) && bears(
                    all[k],
                    rewriting,
                )),
        decreases winners@.len() - i,
    {
        assert(all[i as int] == winners@[i as int]@);
        let winner = &winners[i];
        if path::same_path(winner.out_rel.as_str(), place) {
            let found = match path::extension(winner.out_rel.as_str()) {
                Some(ext) => if text::same(ext.as_str(), "js") {
                    rewriting || winner.rank == Rank::Transform
                } else {
                    text::same(ext.as_str(), "mjs") && rewriting
                },
                None => false,
            };
            if found {
                return true;
            }
        }
        i += 1;
    }
    false
}

fn has_extension(p: &str, wanted: &str) -> (r: bool)
    ensures
        r == (extension_of(p@) == Some(wanted@)),
{
    match path::extension(p) {
        Some(ext) => text::same(ext.as_str(), wanted),
        None => false,
    }
}

fn without_extension(p: &str) -> (r: String)
    ensures
        r@ == retyped(p@, Seq::empty()),
{
    proof {
        reveal_strlit("");
        assert(""@ =~= Seq::<char>::empty());
    }
    path::with_extension(p, "")
}

fn emits_map(winners: &Vec<ClaimRecord>, by: &Generates, target: &str) -> (r: bool)
    ensures
        r == map_emitting(records(winners@), *by, target@),
{
    by.sourcemap && has_extension(target, "map") && is_bearing(
        winners,
        by.rewriting,
        without_extension(target).as_str(),
    )
}

/// What the output path `target` is reserved for, if it is.
pub fn reservation(
    report: &PreflightReport,
    winners: &Vec<ClaimRecord>,
    by: &Generates,
    target: &str,
) -> (r: Option<String>)
    ensures
        opt_text(r) == reserved_for(report@.claims, records(winners@), *by, target@),
{
    if path::same_path(target, "importmap.json") {
        return Some("the generated import map".to_owned());
    }
    if path::same_path(target, OUT_MARKER) {
        return Some("the output marker".to_owned());
    }
    if path::starts_with(target, "web_modules") {
        return Some("the vendored modules directory (web_modules/)".to_owned());
    }
    if by.bundling && path::starts_with(target, "chunks") {
        return Some("the bundled chunks directory (chunks/)".to_owned());
    }
    if emits_map(winners, by, target) {
        return Some(
            "the generated source map of ".to_owned().concat(without_extension(target).as_str()),
        );
    }
    if let Some(inner) = text::strip_suffix(target, ".LEGAL.txt") {
        if by.collecting && is_bearing(winners, by.rewriting, inner.as_str()) {
            return Some(
                "the collected legal comments of ".to_owned().concat(inner.as_str()),
            );
        }
    }
    if by.gzip && has_extension(target, "gz") {
        let inner = without_extension(target);
        let inner = inner.as_str();
        let eligible = match path::extension(inner) {
            Some(ext) => is_gzip_ext(ext.as_str()),
            None => false,
        };
        let emitted = report.claims_target(inner) || path::same_path(inner, "importmap.json")
            || path::same_path(inner, "index.html") || emits_map(winners, by, inner);
        if eligible && emitted {
            return Some("the gzip sidecar of ".to_owned().concat(inner));
        }
    }
    None
}

// ---------------------------------------------------------------------------
// Refusals
// ---------------------------------------------------------------------------

/// The source file of a claim.
pub open spec fn source_of(roots: Seq<Seq<char>>, root: usize, rel: Seq<char>) -> Seq<char> {
    under(roots[root as int], rel)
}

/// The names of a list of steps.
pub open spec fn step_names<P: Preflight>(steps: Seq<P>) -> Seq<Seq<char>> {
    Seq::new(steps.len(), |i: int| steps[i].called())
}

/// What is said of a source that lies outside its root.
pub open spec fn escaping_line(roots: Seq<Seq<char>>, spot: Spot) -> Seq<char> {
    "  "@ + source_of(roots, spot.root, spot.rel) + " -> "@ + spot.target
}

/// The refusal of sources that lie outside their root.
pub open spec fn escaping_refusal(roots: Seq<Seq<char>>, list: Seq<Spot>) -> Option<Failure> {
    if list.len() == 0 {
        None
    } else {
        Some(
            Failure::Build(
                "web-modules: "@ + digits(list.len())
                    + " source path(s) resolve outside the source root - remove the symlink or move the files into the tree:\n"@
                    + joined(
                    Seq::new(list.len(), |i: int| escaping_line(roots, list[i])),
                    "\n"@,
                ),
            ),
        )
    }
}

/// What is said of a claim whose write would land outside the output directory.
pub open spec fn outside_line(roots: Seq<Seq<char>>, names: Seq<Seq<char>>, claim: Claimed) -> Seq<
    char,
> {
    "  "@ + claim.out_rel + " (from "@ + source_of(roots, claim.root, claim.rel) + ", "@
        + names[claim.step as int] + ")"@
}

/// The refusal of claims whose write would land outside the output directory.
pub open spec fn outside_refusal(
    roots: Seq<Seq<char>>,
    names: Seq<Seq<char>>,
    list: Seq<Claimed>,
) -> Option<Failure> {
    if list.len() == 0 {
        None
    } else {
        Some(
            Failure::Build(
                "web-modules: "@ + digits(list.len())
                    + " output path(s) would escape the output directory:\n"@ + joined(
                    Seq::new(list.len(), |i: int| outside_line(roots, names, list[i])),
                    "\n"@,
                ),
            ),
        )
    }
}

/// What is said of one claimant of a contested output path.
pub open spec fn claimant_line(
    roots: Seq<Seq<char>>,
    names: Seq<Seq<char>>,
    claim: Claimed,
    wins: bool,
) -> Seq<char> {
    "    "@ + source_of(roots, claim.root, claim.rel) + " ("@ + names[claim.step as int] + ")"@ + (
    if wins {
        " - wins with --skip-duplicates"@
    } else {
        ""@
    })
}

/// What is said of one contested output path: the path, then its claimants, the winner first.
pub open spec fn conflict_lines(
    roots: Seq<Seq<char>>,
    names: Seq<Seq<char>>,
    group: Seq<Claimed>,
) -> Seq<Seq<char>> {
    seq!["  "@ + group[0].out_rel + ":"@] + Seq::new(
        group.len(),
        |i: int| claimant_line(roots, names, group[i], i == 0),
    )
}

/// What is said of all contested output paths.
pub open spec fn all_conflict_lines(
    roots: Seq<Seq<char>>,
    names: Seq<Seq<char>>,
    list: Seq<Seq<Claimed>>,
) -> Seq<Seq<char>>
    decreases list.len(),
{
    if list.len() == 0 {
        Seq::empty()
    } else {
        all_conflict_lines(roots, names, list.drop_last()) + conflict_lines(
            roots,
            names,
            list.last(),
        )
    }
}

/// The refusal of contested output paths.
pub open spec fn conflict_refusal(
    roots: Seq<Seq<char>>,
    names: Seq<Seq<char>>,
    list: Seq<Seq<Claimed>>,
    skip: bool,
) -> Option<Failure> {
    if list.len() == 0 || skip {
        None
    } else {
        Some(
            Failure::Build(
                "web-modules: "@ + digits(list.len()) + " output "@ + (if list.len() == 1 {
                    "path is"@
                } else {
                    "paths are"@
                })
                    + " claimed by more than one source - remove the duplicates or pass --skip-duplicates:\n"@
                    + joined(all_conflict_lines(roots, names, list), "\n"@),
            ),
        )
    }
}

/// What is said of the winners of reserved output paths.
pub open spec fn violations(
    roots: Seq<Seq<char>>,
    names: Seq<Seq<char>>,
    claims: Seq<Claimed>,
    winners: Seq<Claimed>,
    by: Generates,
    n: int,
) -> Seq<Seq<char>>
    decreases n,
{
    if n <= 0 {
        Seq::empty()
    } else {
        let front = violations(roots, names, claims, winners, by, n - 1);
        let winner = winners[n - 1];
        match reserved_for(claims, winners, by, winner.out_rel) {
            Some(what) => front.push(
                "  "@ + source_of(roots, winner.root, winner.rel) + " ("@
                    + names[winner.step as int] + ") claims "@ + winner.out_rel
                    + " - reserved for "@ + what,
            ),
            None => front,
        }
    }
}

/// The refusal of claims on reserved output paths.
pub open spec fn reserved_refusal(lines: Seq<Seq<char>>) -> Option<Failure> {
    if lines.len() == 0 {
        None
    } else {
        Some(
            Failure::Build(
                "web-modules: "@ + digits(lines.len())
                    + " output path(s) are reserved for generated files:\n"@ + joined(
                    lines,
                    "\n"@,
                ),
            ),
        )
    }
}

/// What a preflight has to pass before the first write, in order; the winners when it does.
pub open spec fn passed(
    roots: Seq<Seq<char>>,
    names: Seq<Seq<char>>,
    found: Survey,
    skip_duplicates: bool,
    by: Generates,
) -> Result<Seq<Claimed>, Failure> {
    let winners = winning(found.claims);
    match escaping_refusal(roots, found.escaping_sources) {
        Some(e) => Err(e),
        None => match outside_refusal(roots, names, landing_outside(found.claims)) {
            Some(e) => Err(e),
            None => match conflict_refusal(
                roots,
                names,
                contested(groups(in_order(found.claims))),
                skip_duplicates,
            ) {
                Some(e) => Err(e),
                None => match reserved_refusal(
                    violations(
                        roots,
                        names,
                        found.claims,
                        winners,
                        by,
                        winners.len() as int,
                    ),
                ) {
                    Some(e) => Err(e),
                    None => Ok(winners),
                },
            },
        },
    }
}

fn source_path(roots: &Vec<String>, root: usize, rel: &str) -> (r: String)
    requires
        root < roots@.len(),
    ensures
        r@ == source_of(texts(roots@), root, rel@),
{
    path::join(roots[root].as_str(), rel)
}

fn step_name<P: Preflight>(steps: &Vec<P>, step: usize) -> (r: &'static str)
    requires
        step < steps@.len(),
    ensures
        r@ == step_names(steps@)[step as int],
{
    steps[step].name()
}

fn refuse_escaping(roots: &Vec<String>, list: &Vec<Located>) -> (r: Option<Error>)
    requires
        forall|i: int| 0 <= i < list@.len() ==> (#[trigger] list@[i]).root < roots@.len(),
    ensures
        (match r {
            Some(e) => Some(e@),
            None => None,
        }) == escaping_refusal(texts(roots@), spots(list@)),
{
    if list.len() == 0 {
        return None;
    }
    let mut lines: Vec<String> = Vec::new();
    let mut i: usize = 0;
    while i < list.len()
        invariant
            i <= list@.len(),
            forall|i: int| 0 <= i < list@.len() ==> (#[trigger] list@[i]).root < roots@.len(),
            lines@.len() == i,
            forall|k: int|
                0 <= k < i ==> (#[trigger] lines@[k])@ == escaping_line(
                    texts(roots@),
                    list@[k]@,
                ),
        decreases list@.len() - i,
    {
        let from = source_path(roots, list[i].root, list[i].rel.as_str());
        lines.push(
            "  ".to_owned().concat(from.as_str()).concat(" -> ").concat(list[i].target.as_str()),
        );
        i += 1;
    }
    assert(texts(lines@) =~= Seq::new(
        spots(list@).len(),
        |i: int| escaping_line(texts(roots@), spots(list@)[i]),
    ));
    Some(
        Error::Build(
            "web-modules: ".to_owned().concat(text::decimal(list.len()).as_str()).concat(
                " source path(s) resolve outside the source root - remove the symlink or move the files into the tree:\n",
            ).concat(text::join(&lines, "\n").as_str()),
        ),
    )
}

fn refuse_outside<P: Preflight>(roots: &Vec<String>, steps: &Vec<P>, list: &Vec<ClaimRecord>) -> (r:
    Option<Error>)
    requires
        forall|i: int|
            0 <= i < list@.len() ==> (#[trigger] list@[i]).root < roots@.len() && list@[i].step
                < steps@.len(),
    ensures
        (match r {
            Some(e) => Some(e@),
            None => None,
        }) == outside_refusal(texts(roots@), step_names(steps@), records(list@)),
{
    if list.len() == 0 {
        return None;
    }
    let mut lines: Vec<String> = Vec::new();
    let mut i: usize = 0;
    while i < list.len()
        invariant
            i <= list@.len(),
            forall|i: int|
                0 <= i < list@.len() ==> (#[trigger] list@[i]).root < roots@.len()
                    && list@[i].step < steps@.len(),
            lines@.len() == i,
            forall|k: int|
                0 <= k < i ==> (#[trigger] lines@[k])@ == outside_line(
                    texts(roots@),
                    step_names(steps@),
                    list@[k]@,
                ),
        decreases list@.len() - i,
    {
        let from = source_path(roots, list[i].root, list[i].rel.as_str());
        let name = step_name(steps, list[i].step);
        lines.push(
            "  ".to_owned().concat(list[i].out_rel.as_str()).concat(" (from ").concat(
                from.as_str(),
            ).concat(", ").concat(name).concat(")"),
        );
        i += 1;
    }
    assert(texts(lines@) =~= Seq::new(
        records(list@).len(),
        |i: int| outside_line(texts(roots@), step_names(steps@), records(list@)[i]),
    ));
    Some(
        Error::Build(
            "web-modules: ".to_owned().concat(text::decimal(list.len()).as_str()).concat(
                " output path(s) would escape the output directory:\n",
            ).concat(text::join(&lines, "\n").as_str()),
        ),
    )
}

fn refuse_conflicts<P: Preflight>(
    roots: &Vec<String>,
    steps: &Vec<P>,
    list: &Vec<Conflict>,
    skip: bool,
) -> (r: Option<Error>)
    requires
        forall|i: int, k: int|
            0 <= i < list@.len() && 0 <= k < list@[i].claimants@.len() ==> (
            #[trigger] list@[i].claimants@[k]).root < roots@.len() && list@[i].claimants@[k].step
                < steps@.len(),
        forall|i: int|
            0 <= i < list@.len() ==> (#[trigger] list@[i]).claimants@.len() > 0 && list@[i].out_rel@
                == list@[i].claimants@[0].out_rel@,
    ensures
        (match r {
            Some(e) => Some(e@),
            None => None,
        }) == conflict_refusal(
            texts(roots@),
            step_names(steps@),
            preflight::claimants(list@),
            skip,
        ),
{
    if list.len() == 0 || skip {
        return None;
    }
    let ghost all = preflight::claimants(list@);
    let ghost places = texts(roots@);
    let ghost names = step_names(steps@);
    let mut lines: Vec<String> = Vec::new();
    let mut i: usize = 0;
    assert(texts(lines@) =~= all_conflict_lines(places, names, all.take(0)));
    while i < list.len()
        invariant
            i <= list@.len(),
            all == preflight::claimants(list@),
            places == texts(roots@),
            names == step_names(steps@),
            forall|i: int, k: int|
                0 <= i < list@.len() && 0 <= k < list@[i].claimants@.len() ==> (
                #[trigger] list@[i].claimants@[k]).root < roots@.len()
                    && list@[i].claimants@[k].step < steps@.len(),
            forall|i: int|
                0 <= i < list@.len() ==> (#[trigger] list@[i]).claimants@.len() > 0
                    && list@[i].out_rel@ == list@[i].claimants@[0].out_rel@,
            texts(lines@) == all_conflict_lines(places, names, all.take(i as int)),
        decreases list@.len() - i,
    {
        let ghost earlier = texts(lines@);
        let ghost group = records(list@[i as int].claimants@);
        proof {
            let grown = all.take(i + 1);
            assert(grown.drop_last() =~= all.take(i as int));
            assert(grown.last() == group);
        }
        let head = "  ".to_owned().concat(list[i].out_rel.as_str()).concat(":");
        proof {
            text::lemma_texts_push(lines@, head);
        }
        lines.push(head);
        let claims = &list[i].claimants;
        let mut k: usize = 0;
        assert(texts(lines@) =~= earlier + conflict_lines(places, names, group).take(1));
        while k < claims.len()
            invariant
                i < list@.len(),
                claims == list@[i as int].claimants,
                k <= claims@.len(),
                group == records(claims@),
                places == texts(roots@),
                names == step_names(steps@),
                forall|k: int|
                    0 <= k < claims@.len() ==> (#[trigger] claims@[k]).root < roots@.len()
                        && claims@[k].step < steps@.len(),
                texts(lines@) == earlier + conflict_lines(places, names, group).take(k + 1),
            decreases claims@.len() - k,
        {
            let from = source_path(roots, claims[k].root, claims[k].rel.as_str());
            let name = step_name(steps, claims[k].step);
            let wins = if k == 0 {
                " - wins with --skip-duplicates"
            } else {
                ""
            };
            let line = "    ".to_owned().concat(from.as_str()).concat(" (").concat(name).concat(
                ")",
            ).concat(wins);
            proof {
                text::lemma_texts_push(lines@, line);
                let whole = conflict_lines(places, names, group);
                assert(whole[k + 1] == line@) by {
                    assert(group[k as int] == claims@[k as int]@);
                }
                assert((earlier + whole.take(k + 1)).push(line@) =~= earlier + whole.take(k + 2));
            }
            lines.push(line);
            k += 1;
        }
        proof {
            let whole = conflict_lines(places, names, group);
            assert(whole.take(k + 1) =~= whole);
        }
        i += 1;
    }
    assert(all.take(list@.len() as int) =~= all);
    let noun = if list.len() == 1 {
        "path is"
    } else {
        "paths are"
    };
    Some(
        Error::Build(
            "web-modules: ".to_owned().concat(text::decimal(list.len()).as_str()).concat(
                " output ",
            ).concat(noun).concat(
                " claimed by more than one source - remove the duplicates or pass --skip-duplicates:\n",
            ).concat(text::join(&lines, "\n").as_str()),
        ),
    )
}

fn refuse_reserved<P: Preflight>(
    roots: &Vec<String>,
    steps: &Vec<P>,
    report: &PreflightReport,
    winners: &Vec<ClaimRecord>,
    by: &Generates,
) -> (r: Option<Error>)
    requires
        forall|i: int|
            0 <= i < winners@.len() ==> (#[trigger] winners@[i]).root < roots@.len()
                && winners@[i].step < steps@.len(),
    ensures
        (match r {
            Some(e) => Some(e@),
            None => None,
        }) == reserved_refusal(
            violations(
                texts(roots@),
                step_names(steps@),
                report@.claims,
                records(winners@),
                *by,
                winners@.len() as int,
            ),
        ),
{
    let ghost places = texts(roots@);
    let ghost names = step_names(steps@);
    let mut lines: Vec<String> = Vec::new();
    let mut i: usize = 0;
    assert(texts(lines@) =~= Seq::<Seq<char>>::empty());
    while i < winners.len()
        invariant
            i <= winners@.len(),
            places == texts(roots@),
            names == step_names(steps@),
            forall|i: int|
                0 <= i < winners@.len() ==> (#[trigger] winners@[i]).root < roots@.len()
                    && winners@[i].step < steps@.len(),
            texts(lines@) == violations(
                places,
                names,
                report@.claims,
                records(winners@),
                *by,
                i as int,
            ),
        decreases winners@.len() - i,
    {
        let winner = &winners[i];
        assert(records(winners@)[i as int] == winner@);
        if let Some(what) = reservation(report, winners, by, winner.out_rel.as_str()) {
            let from = source_path(roots, winner.root, winner.rel.as_str());
            let name = step_name(steps, winner.step);
            let line = "  ".to_owned().concat(from.as_str()).concat(" (").concat(name).concat(
                ") claims ",
            ).concat(winner.out_rel.as_str()).concat(" - reserved for ").concat(what.as_str());
            proof {
                text::lemma_texts_push(lines@, line);
            }
            lines.push(line);
        }
        i += 1;
    }
    if lines.len() == 0 {
        return None;
    }
    Some(
        Error::Build(
            "web-modules: ".to_owned().concat(text::decimal(lines.len()).as_str()).concat(
                " output path(s) are reserved for generated files:\n",
            ).concat(text::join(&lines, "\n").as_str()),
        ),
    )
}

proof fn lemma_winners_indexed(claims: Seq<Claimed>, roots: nat, steps: nat)
    requires
        forall|i: int|
            0 <= i < claims.len() ==> (#[trigger] claims[i]).root < roots && claims[i].step < steps,
    ensures
        forall|i: int|
            0 <= i < winning(claims).len() ==> (#[trigger] winning(claims)[i]).root < roots
                && winning(claims)[i].step < steps,
{
    preflight::law_one_winner_per_target(claims);
    assert forall|i: int| 0 <= i < winning(claims).len() implies (#[trigger] winning(
        claims,
    )[i]).root < roots && winning(claims)[i].step < steps by {
        assert(claims.contains(winning(claims)[i]));
        let k = choose|k: int| 0 <= k < claims.len() && claims[k] == winning(claims)[i];
        assert(claims[k].root < roots);
    }
}

proof fn lemma_groups_indexed(list: Seq<Claimed>, roots: nat, steps: nat)
    requires
        forall|i: int|
            0 <= i < list.len() ==> (#[trigger] list[i]).root < roots && list[i].step < steps,
    ensures
        forall|i: int, k: int|
            0 <= i < groups(list).len() && 0 <= k < groups(list)[i].len() ==> (
            #[trigger] groups(list)[i][k]).root < roots && groups(list)[i][k].step < steps,
    decreases list.len(),
{
    if list.len() > 0 {
        let front = list.drop_last();
        assert forall|i: int| 0 <= i < front.len() implies (#[trigger] front[i]).root < roots
            && front[i].step < steps by {
            assert(front[i] == list[i]);
        }
        lemma_groups_indexed(front, roots, steps);
        assert(list[list.len() - 1] == list.last());
        let g = groups(front);
        let now = groups(list);
        assert forall|i: int, k: int| 0 <= i < now.len() && 0 <= k < now[i].len() implies (
        #[trigger] now[i][k]).root < roots && now[i][k].step < steps by {
            if i < g.len() && k < g[i].len() {
                assert(now[i][k] == g[i][k]);
                assert(g[i][k].root < roots);
            } else {
                assert(now[i][k] == list.last());
            }
        }
    }
}

proof fn lemma_contested_indexed(list: Seq<Seq<Claimed>>, roots: nat, steps: nat)
    requires
        forall|i: int, k: int|
            0 <= i < list.len() && 0 <= k < list[i].len() ==> (#[trigger] list[i][k]).root < roots
                && list[i][k].step < steps,
    ensures
        forall|i: int, k: int|
            0 <= i < contested(list).len() && 0 <= k < contested(list)[i].len() ==> (
            #[trigger] contested(list)[i][k]).root < roots && contested(list)[i][k].step < steps,
    decreases list.len(),
{
    if list.len() > 0 {
        let front = list.drop_last();
        assert forall|i: int, k: int| 0 <= i < front.len() && 0 <= k < front[i].len() implies (
        #[trigger] front[i][k]).root < roots && front[i][k].step < steps by {
            assert(front[i][k] == list[i][k]);
        }
        lemma_contested_indexed(front, roots, steps);
        let c = contested(front);
        let now = contested(list);
        assert forall|i: int, k: int| 0 <= i < now.len() && 0 <= k < now[i].len() implies (
        #[trigger] now[i][k]).root < roots && now[i][k].step < steps by {
            if i < c.len() {
                assert(now[i][k] == c[i][k]);
            } else {
                assert(now[i][k] == list[list.len() - 1][k]);
            }
        }
    }
}

proof fn lemma_outside_indexed(list: Seq<Claimed>, roots: nat, steps: nat)
    requires
        forall|i: int|
            0 <= i < list.len() ==> (#[trigger] list[i]).root < roots && list[i].step < steps,
    ensures
        forall|i: int|
            0 <= i < landing_outside(list).len() ==> (#[trigger] landing_outside(list)[i]).root
                < roots && landing_outside(list)[i].step < steps,
    decreases list.len(),
{
    if list.len() > 0 {
        let front = list.drop_last();
        assert forall|i: int| 0 <= i < front.len() implies (#[trigger] front[i]).root < roots
            && front[i].step < steps by {
            assert(front[i] == list[i]);
        }
        lemma_outside_indexed(front, roots, steps);
        assert(list[list.len() - 1] == list.last());
    }
}

/// Holds a preflight against everything that has to be so before the first write, and gives
/// the winners. Sources may only come from inside their root; writes may only land inside
/// the output directory; duplicate output paths fail the build, naming every claimant,
/// unless precedence is opted into; and the pipeline's own writes are reserved: a source
/// claiming one of those paths would corrupt a generated artifact, so it is a hard error
/// that precedence never arbitrates.
pub fn check_claims<P: Preflight>(
    roots: &Vec<String>,
    steps: &Vec<P>,
    report: &PreflightReport,
    skip_duplicates: bool,
    by: &Generates,
) -> (r: Result<Vec<ClaimRecord>, Error>)
    requires
        indexed(report@, roots@.len(), steps@.len()),
    ensures
        (match r {
            Ok(winners) => Ok::<Seq<Claimed>, Failure>(records(winners@)),
            Err(e) => Err(e@),
        }) == passed(texts(roots@), step_names(steps@), report@, skip_duplicates, *by),
{
    proof {
        assert forall|i: int| 0 <= i < report.escaping_sources@.len() implies (
        #[trigger] report.escaping_sources@[i]).root < roots@.len() by {
            assert(report@.escaping_sources[i] == report.escaping_sources@[i]@);
        }
    }
    if let Some(e) = refuse_escaping(roots, &report.escaping_sources) {
        return Err(e);
    }
    let outside = report.escaping();
    proof {
        lemma_outside_indexed(report@.claims, roots@.len(), steps@.len());
        assert forall|i: int| 0 <= i < outside@.len() implies (#[trigger] outside@[i]).root
            < roots@.len() && outside@[i].step < steps@.len() by {
            assert(records(outside@)[i] == outside@[i]@);
        }
    }
    if let Some(e) = refuse_outside(roots, steps, &outside) {
        return Err(e);
    }
    let conflicts = report.conflicts();
    proof {
        let sorted = in_order(report@.claims);
        preflight::lemma_in_order(report@.claims);
        assert forall|i: int| 0 <= i < sorted.len() implies (#[trigger] sorted[i]).root
            < roots@.len() && sorted[i].step < steps@.len() by {
            assert(report@.claims.contains(sorted[i]));
            let k = choose|k: int|
                0 <= k < report@.claims.len() && report@.claims[k] == sorted[i];
            assert(report@.claims[k].root < roots@.len());
        }
        lemma_groups_indexed(sorted, roots@.len(), steps@.len());
        lemma_contested_indexed(groups(sorted), roots@.len(), steps@.len());
        let all = preflight::claimants(conflicts@);
        assert forall|i: int, k: int|
            0 <= i < conflicts@.len() && 0 <= k < conflicts@[i].claimants@.len() implies (
        #[trigger] conflicts@[i].claimants@[k]).root < roots@.len()
            && conflicts@[i].claimants@[k].step < steps@.len() by {
            assert(all[i][k] == conflicts@[i].claimants@[k]@);
            assert(all[i][k].root < roots@.len());
        }
    }
    if let Some(e) = refuse_conflicts(roots, steps, &conflicts, skip_duplicates) {
        return Err(e);
    }
    let winners = report.winners();
    proof {
        lemma_winners_indexed(report@.claims, roots@.len(), steps@.len());
        assert forall|i: int| 0 <= i < winners@.len() implies (#[trigger] winners@[i]).root
            < roots@.len() && winners@[i].step < steps@.len() by {
            assert(records(winners@)[i] == winners@[i]@);
        }
    }
    if let Some(e) = refuse_reserved(roots, steps, report, &winners, by) {
        return Err(e);
    }
    Ok(winners)
}

// ---------------------------------------------------------------------------
// Laws
// ---------------------------------------------------------------------------

proof fn lemma_no_violation(
    roots: Seq<Seq<char>>,
    names: Seq<Seq<char>>,
    claims: Seq<Claimed>,
    winners: Seq<Claimed>,
    by: Generates,
    n: int,
    i: int,
)
    requires
        0 <= i < n <= winners.len(),
        violations(roots, names, claims, winners, by, n).len() == 0,
    ensures
        reserved_for(claims, winners, by, winners[i].out_rel) is None,
    decreases n,
{
    if i < n - 1 {
        lemma_no_violation(roots, names, claims, winners, by, n - 1, i);
    }
}

proof fn lemma_all_inside(claims: Seq<Claimed>, i: int)
    requires
        landing_outside(claims).len() == 0,
        0 <= i < claims.len(),
    ensures
        lands_inside(claims[i].out_rel),
    decreases claims.len(),
{
    if i < claims.len() - 1 {
        lemma_all_inside(claims.drop_last(), i);
        assert(claims.drop_last()[i] == claims[i]);
    }
}

/// What a build writes for its sources, once the preflight has passed, lands inside the
/// output directory and on none of the pipeline's own files, and no two sources write one
/// path.
pub proof fn law_passed_writes_are_safe(
    roots: Seq<Seq<char>>,
    names: Seq<Seq<char>>,
    found: Survey,
    skip_duplicates: bool,
    by: Generates,
)
    ensures
        passed(roots, names, found, skip_duplicates, by) matches Ok(winners) ==> {
            &&& found.escaping_sources.len() == 0
            &&& forall|i: int|
                0 <= i < winners.len() ==> lands_inside((#[trigger] winners[i]).out_rel)
            &&& forall|i: int|
                0 <= i < winners.len() ==> reserved_for(
                    found.claims,
                    winners,
                    by,
                    (#[trigger] winners[i]).out_rel,
                ) is None
            &&& forall|i: int, j: int|
                0 <= i < j < winners.len() ==> !same_target(
                    #[trigger] winners[i],
                    #[trigger] winners[j],
                )
        },
{
    if let Ok(winners) = passed(roots, names, found, skip_duplicates, by) {
        preflight::law_one_winner_per_target(found.claims);
        assert forall|i: int| 0 <= i < winners.len() implies lands_inside(
            (#[trigger] winners[i]).out_rel,
        ) by {
            assert(found.claims.contains(winners[i]));
            let k = choose|k: int| 0 <= k < found.claims.len() && found.claims[k] == winners[i];
            lemma_all_inside(found.claims, k);
        }
        assert forall|i: int| 0 <= i < winners.len() implies reserved_for(
            found.claims,
            winners,
            by,
            (#[trigger] winners[i]).out_rel,
        ) is None by {
            lemma_no_violation(
                roots,
                names,
                found.claims,
                winners,
                by,
                winners.len() as int,
                i,
            );
        }
        assert forall|i: int, j: int| 0 <= i < j < winners.len() implies !same_target(
            #[trigger] winners[i],
            #[trigger] winners[j],
        ) by {
            path::lemma_parts_irreflexive(parts(winners[i].out_rel));
        }
    }
}

/// The place of a file's sidecar: beside it, under its name and a suffix.
pub open spec fn beside(place: Seq<Part>, suffix: Seq<char>) -> Seq<Part> {
    place.drop_last().push(Part::Name(place.last()->Name_0 + suffix))
}

/// A path that lies where the sidecar of `p` with a one-dot suffix goes has that extension,
/// and `p` without it.
proof fn lemma_beside(p: Seq<char>, sidecar: Seq<char>, ext: Seq<char>)
    requires
        name_of(p) is Some,
        name_of(p)->Some_0.len() > 0,
        !ext.contains('.'),
        parts(sidecar) == beside(parts(p), "."@ + ext),
    ensures
        extension_of(sidecar) == Some(ext),
        parts(retyped(sidecar, Seq::empty())) == parts(p),
{
    reveal_strlit(".");
    let name = name_of(p)->Some_0;
    let whole = name + ("."@ + ext);
    assert(parts(sidecar).last() == Part::Name(whole));
    text::lemma_char_at_last(whole, '.');
    let at = name.len() as int;
    assert(whole[at] == '.');
    assert forall|j: int| at < j < whole.len() implies whole[j] != '.' by {
        assert(whole[j] == ext[j - at - 1]);
    }
    assert(text::char_at_last(whole, '.') == Some(at));
    assert(whole.skip(at + 1) =~= ext);
    assert(whole.take(at) =~= name);
    let place = extended_parts(sidecar, Seq::empty());
    assert(parts(sidecar).drop_last() =~= parts(p).drop_last());
    assert(place =~= parts(p));
    path::lemma_parts_proper(p);
    path::law_retyped(sidecar, Seq::empty());
}

/// A sidecar has a place of its own.
proof fn lemma_beside_is_proper(p: Seq<char>, suffix: Seq<char>)
    requires
        name_of(p) is Some,
        suffix.len() > 2,
        !suffix.contains('/'),
    ensures
        parts(written(beside(parts(p), suffix))) == beside(parts(p), suffix),
{
    path::lemma_parts_proper(p);
    reveal_strlit(".");
    reveal_strlit("..");
    let place = beside(parts(p), suffix);
    let name = name_of(p)->Some_0 + suffix;
    assert(!name.contains('/')) by {
        if name.contains('/') {
            let k = choose|k: int| 0 <= k < name.len() && name[k] == '/';
            if k >= name_of(p)->Some_0.len() {
                assert(suffix[k - name_of(p)->Some_0.len()] == '/');
            } else {
                assert(name_of(p)->Some_0[k] == '/');
            }
        }
    }
    path::law_written_parts(place);
}

/// A file name is not empty.
proof fn lemma_name_is_not_empty(p: Seq<char>)
    requires
        name_of(p) is Some,
    ensures
        name_of(p)->Some_0.len() > 0,
{
    path::lemma_parts_proper(p);
}

proof fn lemma_gzip_is_reserved(
    claims: Seq<Claimed>,
    winners: Seq<Claimed>,
    by: Generates,
    k: int,
    q: Seq<char>,
)
    requires
        by.gzip,
        0 <= k < claims.len(),
        extension_of(claims[k].out_rel) matches Some(ext) && gzip_ext(ext),
        parts(q) == beside(parts(claims[k].out_rel), ".gz"@),
    ensures
        reserved_for(claims, winners, by, q) is Some,
{
    let p = claims[k].out_rel;
    reveal_strlit(".");
    reveal_strlit(".gz");
    reveal_strlit("gz");
    assert(".gz"@ =~= "."@ + "gz"@);
    lemma_name_is_not_empty(p);
    lemma_beside(p, q, "gz"@);
    let inner = retyped(q, Seq::empty());
    assert(parts(claims[k].out_rel) == parts(inner));
    assert(targeted(claims, inner));
    assert(extension_of(inner) == extension_of(p));
}

proof fn lemma_map_is_reserved(
    claims: Seq<Claimed>,
    winners: Seq<Claimed>,
    by: Generates,
    i: int,
    q: Seq<char>,
)
    requires
        by.sourcemap,
        0 <= i < winners.len(),
        bears(winners[i], by.rewriting),
        parts(q) == beside(parts(winners[i].out_rel), ".map"@),
    ensures
        map_emitting(winners, by, q),
        reserved_for(claims, winners, by, q) is Some,
{
    let p = winners[i].out_rel;
    reveal_strlit(".");
    reveal_strlit(".map");
    reveal_strlit("map");
    assert(".map"@ =~= "."@ + "map"@);
    lemma_name_is_not_empty(p);
    lemma_beside(p, q, "map"@);
    assert(parts(winners[i].out_rel) == parts(p));
}

proof fn lemma_map_gzip_is_reserved(
    claims: Seq<Claimed>,
    winners: Seq<Claimed>,
    by: Generates,
    i: int,
    q: Seq<char>,
)
    requires
        by.gzip,
        by.sourcemap,
        0 <= i < winners.len(),
        bears(winners[i], by.rewriting),
        parts(q) == beside(beside(parts(winners[i].out_rel), ".map"@), ".gz"@),
    ensures
        reserved_for(claims, winners, by, q) is Some,
{
    let p = winners[i].out_rel;
    reveal_strlit(".");
    reveal_strlit(".map");
    reveal_strlit("map");
    reveal_strlit(".gz");
    reveal_strlit("gz");
    assert(".map"@ =~= "."@ + "map"@);
    assert(".gz"@ =~= "."@ + "gz"@);
    let map = written(beside(parts(p), ".map"@));
    lemma_name_is_not_empty(p);
    lemma_beside_is_proper(p, ".map"@);
    lemma_beside(p, map, "map"@);
    lemma_name_is_not_empty(map);
    lemma_beside(map, q, "gz"@);
    let inner = retyped(q, Seq::empty());
    assert(parts(inner) == parts(map));
    lemma_map_is_reserved(claims, winners, by, i, inner);
    assert(extension_of(inner) == Some("map"@));
}

/// Once the preflight has passed, no source writes over a sidecar that the build generates
/// for another: neither the gzip sidecar of an emitted file, nor its source map, nor the
/// gzip sidecar of that, nor its collected legal comments.
pub proof fn law_sidecars_are_unclaimed(
    roots: Seq<Seq<char>>,
    names: Seq<Seq<char>>,
    found: Survey,
    skip_duplicates: bool,
    by: Generates,
    winners: Seq<Claimed>,
    i: int,
    j: int,
)
    requires
        passed(roots, names, found, skip_duplicates, by) == Ok::<Seq<Claimed>, Failure>(winners),
        0 <= i < winners.len(),
        0 <= j < winners.len(),
    ensures
        by.gzip && (extension_of(winners[i].out_rel) matches Some(ext) && gzip_ext(ext))
            ==> parts(winners[j].out_rel) != beside(parts(winners[i].out_rel), ".gz"@),
        by.sourcemap && bears(winners[i], by.rewriting) ==> parts(winners[j].out_rel) != beside(
            parts(winners[i].out_rel),
            ".map"@,
        ),
        by.gzip && by.sourcemap && bears(winners[i], by.rewriting) ==> parts(winners[j].out_rel)
            != beside(beside(parts(winners[i].out_rel), ".map"@), ".gz"@),
        by.collecting && bears(winners[i], by.rewriting) ==> winners[j].out_rel
            != winners[i].out_rel + ".LEGAL.txt"@,
{
    law_passed_writes_are_safe(roots, names, found, skip_duplicates, by);
    preflight::law_one_winner_per_target(found.claims);
    let p = winners[i].out_rel;
    let q = winners[j].out_rel;
    assert(reserved_for(found.claims, winners, by, q) is None);
    if by.gzip && (extension_of(p) matches Some(ext) && gzip_ext(ext)) && parts(q) == beside(
        parts(p),
        ".gz"@,
    ) {
        assert(found.claims.contains(winners[i]));
        let k = choose|k: int| 0 <= k < found.claims.len() && found.claims[k] == winners[i];
        lemma_gzip_is_reserved(found.claims, winners, by, k, q);
    }
    if by.sourcemap && bears(winners[i], by.rewriting) {
        if parts(q) == beside(parts(p), ".map"@) {
            lemma_map_is_reserved(found.claims, winners, by, i, q);
        }
        if by.gzip && parts(q) == beside(beside(parts(p), ".map"@), ".gz"@) {
            lemma_map_gzip_is_reserved(found.claims, winners, by, i, q);
        }
    }
    if q == p + ".LEGAL.txt"@ {
        assert(q.take(p.len() as int) =~= p);
        assert(q.subrange(p.len() as int, q.len() as int) =~= ".LEGAL.txt"@);
        assert(parts(winners[i].out_rel) == parts(p));
    }
}

// ---------------------------------------------------------------------------
// The whole preflight of a build
// ---------------------------------------------------------------------------

/// What is said of a walk problem: it means that the preflight may be incomplete.
pub open spec fn walk_notice(error: Seq<char>) -> Seq<char> {
    "web-modules: preflight: "@ + error
}

/// What is said of a symlink that is a redirect: a static build has nothing to emit for one.
pub open spec fn skip_notice(roots: Seq<Seq<char>>, spot: Spot) -> Seq<char> {
    "web-modules: "@ + source_of(roots, spot.root, spot.rel)
        + ": symlink skipped - a static build cannot express a redirect"@
}

/// What is said of a claim that the reject list drops, so that its absence is explained.
pub open spec fn drop_notice(roots: Seq<Seq<char>>, claim: Claimed) -> Seq<char> {
    "web-modules: "@ + source_of(roots, claim.root, claim.rel) + ": dropped by the reject list"@
}

/// The warnings of a preflight: its walk problems, then the symlinks it skips.
pub open spec fn warnings_of(roots: Seq<Seq<char>>, found: Survey) -> Seq<Seq<char>> {
    Seq::new(found.walk_errors.len(), |i: int| walk_notice(found.walk_errors[i])) + Seq::new(
        found.skipped_symlinks.len(),
        |i: int| skip_notice(roots, found.skipped_symlinks[i]),
    )
}

/// The notes of a preflight: the claims that the reject list drops.
pub open spec fn notes_of(roots: Seq<Seq<char>>, found: Survey) -> Seq<Seq<char>> {
    Seq::new(found.rejected_claims.len(), |i: int| drop_notice(roots, found.rejected_claims[i]))
}

/// What a preflight warns of.
pub fn warnings(roots: &Vec<String>, report: &PreflightReport) -> (r: Vec<String>)
    requires
        forall|i: int|
            0 <= i < report@.skipped_symlinks.len() ==> (
            #[trigger] report@.skipped_symlinks[i]).root < roots@.len(),
    ensures
        texts(r@) == warnings_of(texts(roots@), report@),
{
    let ghost names = texts(roots@);
    let ghost found = report@;
    let mut out: Vec<String> = Vec::new();
    let mut i: usize = 0;
    while i < report.walk_errors.len()
        invariant
            i <= report.walk_errors@.len(),
            found == report@,
            out@.len() == i,
            forall|k: int|
                0 <= k < i ==> (#[trigger] out@[k])@ == walk_notice(found.walk_errors[k]),
        decreases report.walk_errors@.len() - i,
    {
        assert(found.walk_errors[i as int] == report.walk_errors@[i as int]@);
        out.push("web-modules: preflight: ".to_owned().concat(report.walk_errors[i].as_str()));
        i += 1;
    }
    let n = out.len();
    let mut j: usize = 0;
    while j < report.skipped_symlinks.len()
        invariant
            j <= report.skipped_symlinks@.len(),
            found == report@,
            names == texts(roots@),
            n == report.walk_errors@.len(),
            forall|i: int|
                0 <= i < found.skipped_symlinks.len() ==> (
                #[trigger] found.skipped_symlinks[i]).root < roots@.len(),
            out@.len() == n + j,
            forall|k: int|
                0 <= k < n ==> (#[trigger] out@[k])@ == walk_notice(found.walk_errors[k]),
            forall|k: int|
                n <= k < n + j ==> (#[trigger] out@[k])@ == skip_notice(
                    names,
                    found.skipped_symlinks[k - n],
                ),
        decreases report.skipped_symlinks@.len() - j,
    {
        assert(found.skipped_symlinks[j as int] == report.skipped_symlinks@[j as int]@);
        let spot = &report.skipped_symlinks[j];
        let from = source_path(roots, spot.root, spot.rel.as_str());
        out.push(
            "web-modules: ".to_owned().concat(from.as_str()).concat(
                ": symlink skipped - a static build cannot express a redirect",
            ),
        );
        j += 1;
    }
    assert(texts(out@) =~= warnings_of(names, found));
    out
}

/// What a preflight notes, beside its warnings.
pub fn notes(roots: &Vec<String>, report: &PreflightReport) -> (r: Vec<String>)
    requires
        forall|i: int|
            0 <= i < report@.rejected_claims.len() ==> (#[trigger] report@.rejected_claims[i]).root
                < roots@.len(),
    ensures
        texts(r@) == notes_of(texts(roots@), report@),
{
    let ghost names = texts(roots@);
    let ghost found = report@;
    let mut out: Vec<String> = Vec::new();
    let mut i: usize = 0;
    while i < report.rejected_claims.len()
        invariant
            i <= report.rejected_claims@.len(),
            found == report@,
            names == texts(roots@),
            forall|i: int|
                0 <= i < found.rejected_claims.len() ==> (
                #[trigger] found.rejected_claims[i]).root < roots@.len(),
            out@.len() == i,
            forall|k: int|
                0 <= k < i ==> (#[trigger] out@[k])@ == drop_notice(
                    names,
                    found.rejected_claims[k],
                ),
        decreases report.rejected_claims@.len() - i,
    {
        assert(found.rejected_claims[i as int] == report.rejected_claims@[i as int]@);
        let claim = &report.rejected_claims[i];
        let from = source_path(roots, claim.root, claim.rel.as_str());
        out.push(
            "web-modules: ".to_owned().concat(from.as_str()).concat(": dropped by the reject list"),
        );
        i += 1;
    }
    assert(texts(out@) =~= notes_of(names, found));
    out
}

/// The preflight of a build: its steps, what the walk found, what is said of it, and the
/// winners or the refusal.
#[derive(Debug)]
pub struct Surveyed {
    pub steps: Vec<BuildStep>,
    pub report: PreflightReport,
    /// Shown as warnings.
    pub warnings: Vec<String>,
    /// Shown plainly: the drops are the configured tree's normal shape.
    pub notes: Vec<String>,
    pub outcome: Result<Vec<ClaimRecord>, Error>,
}

/// The paths of a list of roots.
pub open spec fn root_paths(roots: Seq<Root>) -> Seq<Seq<char>> {
    Seq::new(roots.len(), |i: int| roots[i].path@)
}

/// The preflight of a build: one walk of the source roots, in which every enabled step states
/// what it would emit, held against everything that has to be so before the first write.
pub fn survey(
    roots: &Vec<Root>,
    processors: &Processors,
    output: &Output,
    features: &Features,
) -> (r: Surveyed)
    ensures
        stages(r.steps@) == step_list(*processors, *features),
        r.report@ == surveyed(
            roots@,
            r.steps@,
            processors.reject@,
            processors.symlinks,
            roots@.len() as int,
        ),
        texts(r.warnings@) == warnings_of(root_paths(roots@), r.report@),
        texts(r.notes@) == notes_of(root_paths(roots@), r.report@),
        (match r.outcome {
            Ok(winners) => Ok::<Seq<Claimed>, Failure>(records(winners@)),
            Err(e) => Err(e@),
        }) == passed(
            root_paths(roots@),
            step_names(r.steps@),
            r.report@,
            processors.skip_duplicates,
            generated(processors.bundle, processors.sourcemap, *output, *features),
        ),
{
    let steps = enabled_steps(processors, features);
    let policy = WalkPolicy {
        reject: processors.reject.clone(),
        symlinks: processors.symlinks,
    };
    let report = preflight::preflight(roots, &steps, &policy);
    let mut paths: Vec<String> = Vec::new();
    let mut i: usize = 0;
    while i < roots.len()
        invariant
            i <= roots@.len(),
            paths@.len() == i,
            forall|k: int| 0 <= k < i ==> (#[trigger] paths@[k])@ == roots@[k].path@,
        decreases roots@.len() - i,
    {
        paths.push(roots[i].path.clone());
        i += 1;
    }
    assert(texts(paths@) =~= root_paths(roots@));
    let by = Generates::of(processors, output, features);
    let warnings = self::warnings(&paths, &report);
    let notes = self::notes(&paths, &report);
    let outcome = check_claims(&paths, &steps, &report, processors.skip_duplicates, &by);
    Surveyed { steps, report, warnings, notes, outcome }
}

/// What is reserved whatever the build generates: the import map, the output marker and everything
/// in the vendored tree; in a bundling build everything among the chunks as well.
pub proof fn law_reserved_places(
    claims: Seq<Claimed>,
    winners: Seq<Claimed>,
    by: Generates,
    target: Seq<char>,
)
    ensures
        parts(target) == parts("importmap.json"@) ==> reserved_for(claims, winners, by, target)
            is Some,
        parts(target) == parts(".web-modules-out"@) ==> reserved_for(claims, winners, by, target)
            is Some,
        path::rest_of(target, "web_modules"@) is Some ==> reserved_for(claims, winners, by, target)
            is Some,
        by.bundling && path::rest_of(target, "chunks"@) is Some ==> reserved_for(
            claims,
            winners,
            by,
            target,
        ) is Some,
{
}

/// Where the build generates nothing beside what it always does, nothing else is reserved.
pub proof fn law_nothing_else_is_reserved(
    claims: Seq<Claimed>,
    winners: Seq<Claimed>,
    by: Generates,
    target: Seq<char>,
)
    requires
        parts(target) != parts("importmap.json"@),
        parts(target) != parts(".web-modules-out"@),
        path::rest_of(target, "web_modules"@) is None,
        !by.bundling || path::rest_of(target, "chunks"@) is None,
    ensures
        !by.sourcemap && !by.collecting && !by.gzip ==> reserved_for(claims, winners, by, target)
            is None,
        extension_of(target) != Some("map"@) && extension_of(target) != Some("gz"@)
            && !".LEGAL.txt"@.is_suffix_of(target) ==> reserved_for(claims, winners, by, target)
            is None,
{
}

/// Which files get sidecars of their own: compiled JavaScript always, and once the tree is
/// rewritten every `.js` and `.mjs`; nothing else.
pub proof fn law_what_bears_sidecars(winner: Claimed, rewriting: bool)
    ensures
        extension_of(winner.out_rel) == Some("js"@) && winner.rank == Rank::Transform ==> bears(
            winner,
            rewriting,
        ),
        extension_of(winner.out_rel) == Some("js"@) || extension_of(winner.out_rel) == Some("mjs"@)
            ==> bears(winner, true),
        extension_of(winner.out_rel) == Some("js"@) && winner.rank != Rank::Transform ==> !bears(
            winner,
            false,
        ),
        extension_of(winner.out_rel) == Some("mjs"@) ==> !bears(winner, false),
        extension_of(winner.out_rel) != Some("js"@) && extension_of(winner.out_rel) != Some("mjs"@)
            ==> !bears(winner, rewriting),
{
    reveal_strlit("js");
    reveal_strlit("mjs");
    assert("js"@.len() != "mjs"@.len());
}

/// The files that the gzip pass compresses, by their extension.
pub proof fn law_compressed_extensions(ext: Seq<char>)
    ensures
        gzip_ext(ext) <==> seq!["js"@, "css"@, "html"@, "json"@, "svg"@, "map"@].contains(ext),
{
    let list = seq!["js"@, "css"@, "html"@, "json"@, "svg"@, "map"@];
    assert(list[0] == "js"@ && list[1] == "css"@ && list[2] == "html"@ && list[3] == "json"@
        && list[4] == "svg"@ && list[5] == "map"@);
}

/// Something is generated only where it is asked for and the part of the toolchain that makes it is
/// compiled in.
pub proof fn law_generated(bundle: bool, sourcemap: bool, output: Output, features: Features)
    ensures
        ({
            let by = generated(bundle, sourcemap, output, features);
            &&& by.bundling <==> bundle && features.bundle
            &&& by.sourcemap == sourcemap
            &&& by.gzip <==> output.gzip && features.compress
            &&& by.rewriting ==> features.typescript
            &&& features.typescript && output.minify ==> by.rewriting
            &&& by.collecting <==> output.comments == Some(Comments::Collect)
        }),
{
}

/// A preflight passes exactly when no source escapes its root, no write leaves the output
/// directory, no path is contested unless duplicates are skipped, and no winner is on a reserved
/// path; and then the winners are those of the claims.
pub proof fn law_what_passes(
    roots: Seq<Seq<char>>,
    names: Seq<Seq<char>>,
    found: Survey,
    skip_duplicates: bool,
    by: Generates,
)
    ensures
        passed(roots, names, found, skip_duplicates, by) is Ok <==> ({
            let winners = winning(found.claims);
            &&& found.escaping_sources.len() == 0
            &&& landing_outside(found.claims).len() == 0
            &&& skip_duplicates || contested(groups(in_order(found.claims))).len() == 0
            &&& forall|i: int|
                0 <= i < winners.len() ==> reserved_for(
                    found.claims,
                    winners,
                    by,
                    (#[trigger] winners[i]).out_rel,
                ) is None
        }),
        passed(roots, names, found, skip_duplicates, by) matches Ok(winners) ==> winners == winning(
            found.claims,
        ),
        passed(roots, names, found, skip_duplicates, by) matches Err(e) ==> e is Build,
{
    let winners = winning(found.claims);
    lemma_no_violations(roots, names, found.claims, winners, by, winners.len() as int);
}

proof fn lemma_no_violations(
    roots: Seq<Seq<char>>,
    names: Seq<Seq<char>>,
    claims: Seq<Claimed>,
    winners: Seq<Claimed>,
    by: Generates,
    n: int,
)
    requires
        0 <= n <= winners.len(),
    ensures
        violations(roots, names, claims, winners, by, n).len() == 0 <==> forall|i: int|
            0 <= i < n ==> reserved_for(claims, winners, by, (#[trigger] winners[i]).out_rel)
                is None,
    decreases n,
{
    if n > 0 {
        lemma_no_violations(roots, names, claims, winners, by, n - 1);
        assert(winners[n - 1] == winners[n - 1]);
    }
}

/// Every walk problem and every skipped link is warned of, and every dropped claim is noted, by the
/// path of its source.
pub proof fn law_everything_is_said(roots: Seq<Seq<char>>, found: Survey, i: int)
    ensures
        warnings_of(roots, found).len() == found.walk_errors.len() + found.skipped_symlinks.len(),
        notes_of(roots, found).len() == found.rejected_claims.len(),
        0 <= i < found.walk_errors.len() ==> text::has(
            warnings_of(roots, found)[i],
            found.walk_errors[i],
        ),
        0 <= i < found.skipped_symlinks.len() ==> text::has(
            warnings_of(roots, found)[found.walk_errors.len() + i],
            under(roots[found.skipped_symlinks[i].root as int], found.skipped_symlinks[i].rel),
        ),
        0 <= i < found.rejected_claims.len() ==> text::has(
            notes_of(roots, found)[i],
            under(roots[found.rejected_claims[i].root as int], found.rejected_claims[i].rel),
        ),
{
    if 0 <= i < found.walk_errors.len() {
        let e = found.walk_errors[i];
        let n = "web-modules: preflight: "@.len() as int;
        assert(walk_notice(e).subrange(n, n + e.len()) =~= e);
        assert(text::occurs_at(walk_notice(e), e, n));
    }
    let n = "web-modules: "@.len() as int;
    if 0 <= i < found.skipped_symlinks.len() {
        let spot = found.skipped_symlinks[i];
        let p = source_of(roots, spot.root, spot.rel);
        assert(skip_notice(roots, spot).subrange(n, n + p.len()) =~= p);
        assert(text::occurs_at(skip_notice(roots, spot), p, n));
    }
    if 0 <= i < found.rejected_claims.len() {
        let claim = found.rejected_claims[i];
        let p = source_of(roots, claim.root, claim.rel);
        assert(drop_notice(roots, claim).subrange(n, n + p.len()) =~= p);
        assert(text::occurs_at(drop_notice(roots, claim), p, n));
    }
}

/// A path is reserved for a sidecar only beside what bears it: a source map stands behind an emitted
/// file that has one, collected comments likewise, and a gzip sidecar behind a compressed file that
/// is emitted; and each only where the build makes such sidecars.
pub proof fn law_reserved_sidecars(
    claims: Seq<Claimed>,
    winners: Seq<Claimed>,
    by: Generates,
    target: Seq<char>,
)
    ensures
        map_emitting(winners, by, target) ==> by.sourcemap && extension_of(target) == Some("map"@)
            && exists|i: int|
            0 <= i < winners.len() && parts((#[trigger] winners[i]).out_rel) == parts(
                retyped(target, Seq::empty()),
            ) && bears(winners[i], by.rewriting),
        legal_of(winners, by, target) matches Some(inner) ==> by.collecting && target == inner
            + ".LEGAL.txt"@ && exists|i: int|
            0 <= i < winners.len() && parts((#[trigger] winners[i]).out_rel) == parts(inner) && bears(
                winners[i],
                by.rewriting,
            ),
        gzip_of(claims, winners, by, target) matches Some(inner) ==> by.gzip && extension_of(target)
            == Some("gz"@) && inner == retyped(target, Seq::empty()) && (extension_of(inner)
            matches Some(ext) && gzip_ext(ext)) && (targeted(claims, inner) || parts(inner) == parts(
            "importmap.json"@,
        ) || parts(inner) == parts("index.html"@) || map_emitting(winners, by, inner)),
{
    if let Some(inner) = legal_of(winners, by, target) {
        text::law_taking_off(target, ".LEGAL.txt"@);
    }
}

proof fn lemma_joined_has(list: Seq<Seq<char>>, sep: Seq<char>, i: int)
    requires
        0 <= i < list.len(),
    ensures
        text::has(joined(list, sep), list[i]),
    decreases list.len(),
{
    if list.len() == 1 {
        let s = list[0];
        assert(s.subrange(0, s.len() as int) =~= s);
        assert(text::occurs_at(s, s, 0));
    } else {
        let front = list.drop_last();
        let before = joined(front, sep);
        let all = joined(list, sep);
        if i < front.len() {
            lemma_joined_has(front, sep, i);
            assert(front[i] == list[i]);
            let k = choose|k: int| text::occurs_at(before, list[i], k);
            assert(all.subrange(k, k + list[i].len()) =~= before.subrange(k, k + list[i].len()));
            assert(text::occurs_at(all, list[i], k));
        } else {
            text::law_standing_in(before + sep, list.last(), Seq::empty());
            assert(before + sep + list.last() + Seq::<char>::empty() =~= all);
        }
    }
}

proof fn lemma_has_inside(whole: Seq<char>, part: Seq<char>, needle: Seq<char>)
    requires
        text::has(whole, part),
        text::has(part, needle),
    ensures
        text::has(whole, needle),
{
    let a = choose|a: int| text::occurs_at(whole, part, a);
    let b = choose|b: int| text::occurs_at(part, needle, b);
    assert(whole.subrange(a + b, a + b + needle.len()) =~= whole.subrange(
        a,
        a + part.len(),
    ).subrange(b, b + needle.len()));
    assert(text::occurs_at(whole, needle, a + b));
}

proof fn lemma_list_in_message(head: Seq<char>, list: Seq<Seq<char>>, i: int)
    requires
        0 <= i < list.len(),
    ensures
        text::has(head + joined(list, "\n"@), list[i]),
{
    let all = joined(list, "\n"@);
    lemma_joined_has(list, "\n"@, i);
    text::law_standing_in(head, all, Seq::empty());
    assert(head + all + Seq::<char>::empty() =~= head + all);
    lemma_has_inside(head + all, all, list[i]);
}

/// Every source that escapes its root is named in the refusal, with where it leads, and so is every
/// write that would leave the output directory, with its source and its step.
pub proof fn law_refusals_name_their_cause(
    roots: Seq<Seq<char>>,
    names: Seq<Seq<char>>,
    spots: Seq<Spot>,
    claims: Seq<Claimed>,
    i: int,
)
    ensures
        spots.len() == 0 <==> escaping_refusal(roots, spots) is None,
        claims.len() == 0 <==> outside_refusal(roots, names, claims) is None,
        0 <= i < spots.len() ==> (escaping_refusal(roots, spots) matches Some(Failure::Build(m))
            && text::has(m, under(roots[spots[i].root as int], spots[i].rel)) && text::has(
            m,
            spots[i].target,
        )),
        0 <= i < claims.len() ==> (outside_refusal(roots, names, claims) matches Some(
            Failure::Build(m),
        ) && text::has(m, claims[i].out_rel) && text::has(
            m,
            under(roots[claims[i].root as int], claims[i].rel),
        ) && text::has(m, names[claims[i].step as int])),
{
    if 0 <= i < spots.len() {
        let list = Seq::new(spots.len(), |k: int| escaping_line(roots, spots[k]));
        let head = "web-modules: "@ + digits(spots.len())
            + " source path(s) resolve outside the source root - remove the symlink or move the files into the tree:\n"@;
        lemma_list_in_message(head, list, i);
        let m = head + joined(list, "\n"@);
        let p = source_of(roots, spots[i].root, spots[i].rel);
        let t = spots[i].target;
        text::law_standing_in("  "@, p, " -> "@ + t);
        assert(list[i] =~= "  "@ + p + (" -> "@ + t));
        text::law_standing_in("  "@ + p + " -> "@, t, Seq::empty());
        assert(list[i] =~= "  "@ + p + " -> "@ + t + Seq::<char>::empty());
        lemma_has_inside(m, list[i], p);
        lemma_has_inside(m, list[i], t);
    }
    if 0 <= i < claims.len() {
        let list = Seq::new(claims.len(), |k: int| outside_line(roots, names, claims[k]));
        let head = "web-modules: "@ + digits(claims.len())
            + " output path(s) would escape the output directory:\n"@;
        lemma_list_in_message(head, list, i);
        let m = head + joined(list, "\n"@);
        let o = claims[i].out_rel;
        let p = source_of(roots, claims[i].root, claims[i].rel);
        let s = names[claims[i].step as int];
        text::law_standing_in("  "@, o, " (from "@ + p + ", "@ + s + ")"@);
        assert(list[i] =~= "  "@ + o + (" (from "@ + p + ", "@ + s + ")"@));
        text::law_standing_in("  "@ + o + " (from "@, p, ", "@ + s + ")"@);
        assert(list[i] =~= "  "@ + o + " (from "@ + p + (", "@ + s + ")"@));
        text::law_standing_in("  "@ + o + " (from "@ + p + ", "@, s, ")"@);
        lemma_has_inside(m, list[i], o);
        lemma_has_inside(m, list[i], p);
        lemma_has_inside(m, list[i], s);
    }
}

/// Of a contested path every claimant is listed behind the path, in order, and the winner alone is
/// said to win.
pub proof fn law_claimants_are_listed(
    roots: Seq<Seq<char>>,
    names: Seq<Seq<char>>,
    group: Seq<Claimed>,
    i: int,
)
    requires
        0 <= i < group.len(),
    ensures
        ({
            let lines = conflict_lines(roots, names, group);
            let source = under(roots[group[i].root as int], group[i].rel);
            let step = names[group[i].step as int];
            &&& lines.len() == group.len() + 1
            &&& lines[0] == "  "@ + group[0].out_rel + ":"@
            &&& i == 0 ==> lines[1] == "    "@ + source + " ("@ + step
                + ") - wins with --skip-duplicates"@
            &&& i > 0 ==> lines[i + 1] == "    "@ + source + " ("@ + step + ")"@
        }),
{
    reveal_strlit("");
    reveal_strlit(")");
    reveal_strlit(" - wins with --skip-duplicates");
    reveal_strlit(") - wins with --skip-duplicates");
    let source = under(roots[group[i].root as int], group[i].rel);
    let step = names[group[i].step as int];
    let base = "    "@ + source + " ("@ + step;
    assert(")"@ + " - wins with --skip-duplicates"@ =~= ") - wins with --skip-duplicates"@);
    assert(base + ")"@ + " - wins with --skip-duplicates"@ =~= base
        + ") - wins with --skip-duplicates"@);
    assert(base + ")"@ + ""@ =~= base + ")"@);
}

/// Contested paths are refused unless duplicates are skipped, and each of their lines is in the
/// refusal; each winner on a reserved path is named in its refusal, with the path.
pub proof fn law_contested_paths_are_refused(
    roots: Seq<Seq<char>>,
    names: Seq<Seq<char>>,
    list: Seq<Seq<Claimed>>,
    lines: Seq<Seq<char>>,
    i: int,
)
    ensures
        conflict_refusal(roots, names, list, true) is None,
        list.len() > 0 ==> conflict_refusal(roots, names, list, false) is Some,
        conflict_refusal(roots, names, Seq::empty(), false) is None,
        0 <= i < all_conflict_lines(roots, names, list).len() ==> (conflict_refusal(
            roots,
            names,
            list,
            false,
        ) matches Some(Failure::Build(m)) && text::has(m, all_conflict_lines(roots, names, list)[i])),
        lines.len() == 0 <==> reserved_refusal(lines) is None,
        0 <= i < lines.len() ==> (reserved_refusal(lines) matches Some(Failure::Build(m))
            && text::has(m, lines[i])),
{
    let all = all_conflict_lines(roots, names, list);
    if 0 <= i < all.len() {
        let head = "web-modules: "@ + digits(list.len()) + " output "@ + (if list.len() == 1 {
            "path is"@
        } else {
            "paths are"@
        })
            + " claimed by more than one source - remove the duplicates or pass --skip-duplicates:\n"@;
        lemma_list_in_message(head, all, i);
    }
    if 0 <= i < lines.len() {
        let head = "web-modules: "@ + digits(lines.len())
            + " output path(s) are reserved for generated files:\n"@;
        lemma_list_in_message(head, lines, i);
    }
}

/// Every contested path has its lines, in order.
pub proof fn law_conflicts_in_order(
    roots: Seq<Seq<char>>,
    names: Seq<Seq<char>>,
    list: Seq<Seq<Claimed>>,
    group: Seq<Claimed>,
)
    ensures
        all_conflict_lines(roots, names, Seq::empty()).len() == 0,
        all_conflict_lines(roots, names, list.push(group)) == all_conflict_lines(roots, names, list)
            + conflict_lines(roots, names, group),
{
    assert(list.push(group).drop_last() =~= list);
}

} // verus!
