//! One staged build: what it does and in what order, once the preflight has passed.
//!
//! Two lists of actions frame it. [`first_actions`] leads up to the point where every
//! non-template source is emitted and the module graph shows whether the transform runtime
//! is needed; [`later_actions`] goes from there to the end. Near the end stands one more
//! check: every bare import of an emitted module has to resolve.

use vstd::prelude::*;

use crate::build::admission::Generates;
use crate::build::options::{
    comment_policy, rewrites, Comments, Decorators, Output, Processors, RewriteOptions,
};
use crate::build::preflight::{records, targeted, ClaimRecord, Claimed, PreflightReport};
use crate::build::steps::Rank;
use crate::error::{Error, Failure};
use crate::importmap::{document, script_tag, Importmap};
use crate::json;
use crate::module_graph;
use crate::module_graph::{
    all_dangling, references, source_reading, ModuleGraph, ModuleImport, Noted, Reference,
};
use crate::npm_link;
use crate::path;
use crate::path::{extension_of, parts, under};
use crate::sorted_map::{listing, ByPath};
use crate::static_files;
use crate::static_files::{emitted_js, ext_or_empty};
use crate::text;
use crate::text::{digits, joined, lowered, opt_text, pairs, replaced, texts};
use crate::vendor::spec::{npm_package, PackageSpec};
use crate::walk::{places, Kind, Place, Visited};

verus! {

/// The one vendored package that comes from the pipeline itself rather than from the specs:
/// the transform-helper runtime.
pub const OXC_RUNTIME_PACKAGE: &'static str = "@oxc-project/runtime";

/// The runtime version to vendor, pinned exactly and tracking the transform toolchain. An
/// exact pin keeps a decorator in an untrusted source from resolving a floating,
/// newest-published package at build time.
pub const OXC_RUNTIME_VERSION: &'static str = "0.138.0";

/// What to vendor, and where, so that the helper imports the transform injected resolve: the
/// pinned runtime, into the vendor directory of `out`.
pub fn vendor_transform_runtime(out: &str) -> (r: (String, PackageSpec))
    ensures
        r.0@ == under(out@, "web_modules"@),
        r.1@ == npm_package(OXC_RUNTIME_PACKAGE@, OXC_RUNTIME_VERSION@),
{
    (
        path::join(out, "web_modules"),
        PackageSpec::npm(OXC_RUNTIME_PACKAGE, OXC_RUNTIME_VERSION),
    )
}

// ---------------------------------------------------------------------------
// Tuning of the steps
// ---------------------------------------------------------------------------

/// How TypeScript is compiled.
#[derive(Clone, Copy, Debug, PartialEq, Eq, Structural)]
pub struct TranspileOptions {
    pub minify: bool,
    pub decorators: Decorators,
    pub source_map: bool,
    pub comments: Comments,
}

/// How TypeScript is compiled. Bundling folds the tree after emission and defers minify and
/// comments to its own single pass, so both stay off at emit.
pub fn transpile_options(processors: &Processors, output: &Output, bundling: bool) -> (r:
    TranspileOptions)
    ensures
        r == (TranspileOptions {
            minify: output.minify && !bundling,
            decorators: processors.ts_decorators,
            source_map: processors.sourcemap,
            comments: if bundling {
                Comments::Keep
            } else {
                comment_policy(*output)
            },
        }),
        r == tuned(processors.ts_decorators, processors.sourcemap, *output, bundling),
{
    TranspileOptions {
        minify: output.minify && !bundling,
        decorators: processors.ts_decorators,
        source_map: processors.sourcemap,
        comments: if bundling {
            Comments::Keep
        } else {
            output.effective_comments()
        },
    }
}

/// SCSS load paths span every source root, plus the stage (so vendored stylesheets resolve)
/// and any explicit load path.
pub fn scss_load_paths(roots: &Vec<String>, stage: &str, processors: &Processors) -> (r: Vec<
    String,
>)
    ensures
        texts(r@) == texts(roots@).push(stage@) + texts(processors.extra_scss_load_paths@),
        texts(r@) == load_paths(texts(roots@), stage@, texts(processors.extra_scss_load_paths@)),
{
    let mut out = text::copy_texts(roots);
    let own = stage.to_owned();
    proof {
        text::lemma_texts_push(out@, own);
    }
    out.push(own);
    let extra = &processors.extra_scss_load_paths;
    let ghost base = texts(out@);
    let mut i: usize = 0;
    assert(base + texts(extra@).take(0) =~= base);
    while i < extra.len()
        invariant
            i <= extra@.len(),
            texts(out@) == base + texts(extra@).take(i as int),
        decreases extra@.len() - i,
    {
        let one = extra[i].clone();
        proof {
            text::lemma_texts_push(out@, one);
            assert((base + texts(extra@).take(i as int)).push(one@) =~= base + texts(extra@).take(
                i + 1,
            ));
        }
        out.push(one);
        i += 1;
    }
    assert(texts(extra@).take(extra@.len() as int) =~= texts(extra@));
    out
}

// ---------------------------------------------------------------------------
// The order of a build
// ---------------------------------------------------------------------------

/// One thing that a build does.
#[derive(Debug, PartialEq, Eq)]
pub enum Action {
    /// Warm the vendor cache from the previous output.
    Seed,
    /// Say that the vendor cache is not reused, because the vendor profile changed.
    ReportStale,
    /// Vendor the requested packages.
    Vendor,
    /// Emit one winner through its step.
    Emit(ClaimRecord),
    /// Emit every `npm://` asset.
    EmitAssets,
    /// Vendor the transform runtime and add its entries to the import map.
    VendorRuntime,
    /// Drop vendored packages this build did not request, but keep the runtime when it was
    /// vendored.
    Prune { runtime: bool },
    /// Rewrite the vendored tree.
    RewriteVendored(RewriteOptions),
    /// Delete the source maps that packages shipped.
    SweepMaps,
    /// Write the import map as an artifact of its own.
    WriteImportmap,
    /// Write the entry page, if no source claims it.
    WritePage,
    /// Refuse a tree with an import that the import map cannot resolve.
    CheckImports,
    /// Fold the tree per entry point.
    Fold,
    /// Write the gzip sidecars.
    Compress,
}

/// One thing that a build does, as the contracts see it.
pub enum Act {
    Seed,
    ReportStale,
    Vendor,
    Emit(Claimed),
    EmitAssets,
    VendorRuntime,
    Prune { runtime: bool },
    RewriteVendored(RewriteOptions),
    SweepMaps,
    WriteImportmap,
    WritePage,
    CheckImports,
    Fold,
    Compress,
}

impl View for Action {
    type V = Act;

    open spec fn view(&self) -> Act {
        match self {
            Action::Seed => Act::Seed,
            Action::ReportStale => Act::ReportStale,
            Action::Vendor => Act::Vendor,
            Action::Emit(claim) => Act::Emit(claim@),
            Action::EmitAssets => Act::EmitAssets,
            Action::VendorRuntime => Act::VendorRuntime,
            Action::Prune { runtime } => Act::Prune { runtime: *runtime },
            Action::RewriteVendored(rewrite) => Act::RewriteVendored(*rewrite),
            Action::SweepMaps => Act::SweepMaps,
            Action::WriteImportmap => Act::WriteImportmap,
            Action::WritePage => Act::WritePage,
            Action::CheckImports => Act::CheckImports,
            Action::Fold => Act::Fold,
            Action::Compress => Act::Compress,
        }
    }
}

/// The contents of a list of actions.
pub open spec fn acts(list: Seq<Action>) -> Seq<Act> {
    Seq::new(list.len(), |i: int| list[i]@)
}

/// A template waits for the import map, which it receives.
pub open spec fn waits(rank: Rank) -> bool {
    rank == Rank::Tera || rank == Rank::MdTmpl
}

/// The emissions of the winners that wait for the import map, or of those that do not.
pub open spec fn emissions(winners: Seq<Claimed>, waiting: bool) -> Seq<Act>
    decreases winners.len(),
{
    if winners.len() == 0 {
        Seq::empty()
    } else {
        let front = emissions(winners.drop_last(), waiting);
        if waits(winners.last().rank) == waiting {
            front.push(Act::Emit(winners.last()))
        } else {
            front
        }
    }
}

/// An action when it is called for.
pub open spec fn when(on: bool, act: Act) -> Seq<Act> {
    if on {
        seq![act]
    } else {
        Seq::empty()
    }
}

/// What a build does before the module graph is complete. The cache seeds only from a tree
/// of the same shape; there is vendoring only when there are packages to vendor; and every
/// winner that is no template is emitted, in output-path order.
pub open spec fn leading(
    seeds: bool,
    stale: bool,
    vendors: bool,
    winners: Seq<Claimed>,
) -> Seq<Act> {
    (if seeds {
        seq![Act::Seed]
    } else {
        when(stale, Act::ReportStale)
    }) + when(vendors, Act::Vendor) + emissions(winners, false) + seq![Act::EmitAssets]
}

/// What a build does once the module graph shows whether the transform runtime is needed. The
/// vendored tree is rewritten after the prune, so no rewrite is spent on a package about to
/// vanish; a build without source maps sweeps those that packages shipped, unless the tree
/// is about to be folded; and templates come after that, with the final import map.
pub open spec fn trailing(
    runtime: bool,
    rewrite: Option<RewriteOptions>,
    sweeps: bool,
    winners: Seq<Claimed>,
) -> Seq<Act> {
    when(runtime, Act::VendorRuntime) + seq![Act::Prune { runtime }] + (match rewrite {
        Some(rewrite) => seq![Act::RewriteVendored(rewrite)],
        None => Seq::empty(),
    }) + when(sweeps, Act::SweepMaps) + seq![Act::WriteImportmap] + emissions(winners, true)
}

/// What a build does once every source is emitted: the entry page, the check of the imports,
/// the folding of the tree that passed it, and the compression of the final bytes.
pub open spec fn closing(folds: bool, compresses: bool) -> Seq<Act> {
    seq![Act::WritePage, Act::CheckImports] + when(folds, Act::Fold) + when(
        compresses,
        Act::Compress,
    )
}

/// How the vendored tree is rewritten, if it is: a folded tree is left pristine, because it
/// is consumed and then deleted.
pub open spec fn tree_rewrite(sourcemap: bool, output: Output, by: Generates) -> Option<
    RewriteOptions,
> {
    if by.rewriting && !by.bundling && output.minify_web_modules && rewrites(output) {
        Some(
            RewriteOptions {
                minify: output.minify,
                source_map: sourcemap,
                comments: comment_policy(output),
            },
        )
    } else {
        None
    }
}

proof fn lemma_acts_push(list: Seq<Action>, one: Action)
    ensures
        acts(list.push(one)) == acts(list).push(one@),
{
    assert(acts(list.push(one)) =~= acts(list).push(one@));
}

fn push_emissions(out: &mut Vec<Action>, winners: &Vec<ClaimRecord>, waiting: bool)
    ensures
        acts(final(out)@) == acts(old(out)@) + emissions(records(winners@), waiting),
{
    let ghost base = acts(out@);
    let ghost all = records(winners@);
    let mut i: usize = 0;
    assert(base + emissions(all.take(0), waiting) =~= base);
    while i < winners.len()
        invariant
            i <= winners@.len(),
            all == records(winners@),
            acts(out@) == base + emissions(all.take(i as int), waiting),
        decreases winners@.len() - i,
    {
        proof {
            let grown = all.take(i + 1);
            assert(grown.drop_last() =~= all.take(i as int));
            assert(grown.last() == winners@[i as int]@);
        }
        let late = winners[i].rank == Rank::Tera || winners[i].rank == Rank::MdTmpl;
        if late == waiting {
            let one = Action::Emit(winners[i].clone());
            proof {
                lemma_acts_push(out@, one);
                let e = emissions(all.take(i as int), waiting);
                assert((base + e).push(one@) =~= base + e.push(one@));
            }
            out.push(one);
        }
        i += 1;
    }
    assert(all.take(winners@.len() as int) =~= all);
}

/// What a build does before the module graph is complete. `seeds` is whether the previous
/// vendored tree has this build's shape, `stale` whether there is one, `vendors` whether
/// packages were requested.
pub fn first_actions(seeds: bool, stale: bool, vendors: bool, winners: &Vec<ClaimRecord>) -> (r:
    Vec<Action>)
    ensures
        acts(r@) == leading(seeds, stale, vendors, records(winners@)),
{
    let mut out: Vec<Action> = Vec::new();
    if seeds {
        out.push(Action::Seed);
    } else if stale {
        out.push(Action::ReportStale);
    }
    if vendors {
        out.push(Action::Vendor);
    }
    let ghost head = (if seeds {
        seq![Act::Seed]
    } else {
        when(stale, Act::ReportStale)
    }) + when(vendors, Act::Vendor);
    assert(acts(out@) =~= head);
    push_emissions(&mut out, winners, false);
    let ghost before = acts(out@);
    proof {
        lemma_acts_push(out@, Action::EmitAssets);
    }
    out.push(Action::EmitAssets);
    assert(before.push(Act::EmitAssets) =~= before + seq![Act::EmitAssets]);
    out
}

/// What a build does once the module graph shows whether the transform runtime is needed.
/// Templates render later, so a runtime import appearing only in rendered JavaScript is not
/// vendored: it surfaces in the unresolved check instead.
pub fn later_actions(
    runtime: bool,
    by: &Generates,
    processors: &Processors,
    output: &Output,
    winners: &Vec<ClaimRecord>,
) -> (r: Vec<Action>)
    ensures
        acts(r@) == trailing(
            runtime,
            tree_rewrite(processors.sourcemap, *output, *by),
            !processors.sourcemap && !by.bundling,
            records(winners@),
        ) + closing(by.bundling, by.gzip),
{
    let mut out: Vec<Action> = Vec::new();
    if runtime {
        out.push(Action::VendorRuntime);
    }
    out.push(Action::Prune { runtime });
    let rewrite = if by.rewriting && !by.bundling {
        output.vendor_rewrite(processors.sourcemap)
    } else {
        None
    };
    if let Some(rewrite) = rewrite {
        out.push(Action::RewriteVendored(rewrite));
    }
    if !processors.sourcemap && !by.bundling {
        out.push(Action::SweepMaps);
    }
    out.push(Action::WriteImportmap);
    assert(acts(out@) =~= when(runtime, Act::VendorRuntime) + seq![Act::Prune { runtime }] + (
    match rewrite {
        Some(rewrite) => seq![Act::RewriteVendored(rewrite)],
        None => Seq::empty(),
    }) + when(!processors.sourcemap && !by.bundling, Act::SweepMaps) + seq![Act::WriteImportmap]);
    push_emissions(&mut out, winners, true);
    let ghost before = acts(out@);
    out.push(Action::WritePage);
    out.push(Action::CheckImports);
    if by.bundling {
        out.push(Action::Fold);
    }
    if by.gzip {
        out.push(Action::Compress);
    }
    assert(acts(out@) =~= before + closing(by.bundling, by.gzip));
    out
}

/// What is checked is what ships: every source is emitted before the imports are checked, the
/// tree is folded only after it passed, and the bytes that are compressed are the final ones.
pub proof fn law_checked_before_folded(
    runtime: bool,
    rewrite: Option<RewriteOptions>,
    sweeps: bool,
    winners: Seq<Claimed>,
    folds: bool,
    compresses: bool,
    i: int,
    j: int,
)
    requires
        0 <= i < (trailing(runtime, rewrite, sweeps, winners) + closing(folds, compresses)).len(),
        0 <= j < (trailing(runtime, rewrite, sweeps, winners) + closing(folds, compresses)).len(),
    ensures
        ({
            let list = trailing(runtime, rewrite, sweeps, winners) + closing(folds, compresses);
            &&& (list[i] is Emit && list[j] is CheckImports ==> i < j)
            &&& (list[i] is CheckImports && list[j] is Fold ==> i < j)
            &&& (list[i] is Compress ==> j <= i)
        }),
{
    lemma_emissions_wait(winners, true);
    let front = trailing(runtime, rewrite, sweeps, winners);
    let late = emissions(winners, true);
    let n = front.len() - late.len();
    assert forall|k: int| 0 <= k < front.len() implies !((#[trigger] front[k]) is CheckImports)
        && !(front[k] is Fold) && !(front[k] is Compress) by {
        if k >= n {
            assert(front[k] == late[k - n]);
        }
    }
    let tail = closing(folds, compresses);
    let list = front + tail;
    if i < front.len() {
        assert(list[i] == front[i]);
    } else {
        assert(list[i] == tail[i - front.len()]);
    }
    if j < front.len() {
        assert(list[j] == front[j]);
    } else {
        assert(list[j] == tail[j - front.len()]);
    }
}

/// How often a list of actions emits a claim.
pub open spec fn emitted_times(list: Seq<Act>, claim: Claimed) -> nat {
    list.to_multiset().count(Act::Emit(claim))
}

proof fn lemma_emissions_split(winners: Seq<Claimed>, claim: Claimed)
    ensures
        emitted_times(emissions(winners, false), claim) + emitted_times(
            emissions(winners, true),
            claim,
        ) == winners.to_multiset().count(claim),
    decreases winners.len(),
{
    broadcast use vstd::seq_lib::group_to_multiset_ensures;

    if winners.len() > 0 {
        lemma_emissions_split(winners.drop_last(), claim);
        assert(winners =~= winners.drop_last().push(winners.last()));
    } else {
        assert(emissions(winners, false) =~= Seq::<Act>::empty());
        assert(emissions(winners, true) =~= Seq::<Act>::empty());
    }
}

proof fn lemma_times_concat(a: Seq<Act>, b: Seq<Act>, claim: Claimed)
    ensures
        emitted_times(a + b, claim) == emitted_times(a, claim) + emitted_times(b, claim),
{
    vstd::seq_lib::lemma_multiset_commutative(a, b);
}

proof fn lemma_times_single(act: Act, claim: Claimed)
    requires
        !(act is Emit),
    ensures
        emitted_times(seq![act], claim) == 0,
        emitted_times(Seq::<Act>::empty(), claim) == 0,
{
    broadcast use vstd::seq_lib::group_to_multiset_ensures;

    assert(seq![act] =~= Seq::<Act>::empty().push(act));
}

/// Over a whole build every winner is emitted exactly as often as it is a winner: nothing is
/// forgotten and nothing is written twice.
pub proof fn law_every_winner_is_emitted_once(
    seeds: bool,
    stale: bool,
    vendors: bool,
    runtime: bool,
    rewrite: Option<RewriteOptions>,
    sweeps: bool,
    winners: Seq<Claimed>,
    folds: bool,
    compresses: bool,
    claim: Claimed,
)
    ensures
        emitted_times(
            leading(seeds, stale, vendors, winners) + (trailing(runtime, rewrite, sweeps, winners)
                + closing(folds, compresses)),
            claim,
        ) == winners.to_multiset().count(claim),
{
    lemma_emissions_split(winners, claim);
    lemma_times_single(Act::Seed, claim);
    lemma_times_single(Act::ReportStale, claim);
    lemma_times_single(Act::Vendor, claim);
    lemma_times_single(Act::EmitAssets, claim);
    lemma_times_single(Act::VendorRuntime, claim);
    lemma_times_single(Act::Prune { runtime }, claim);
    lemma_times_single(Act::SweepMaps, claim);
    lemma_times_single(Act::WriteImportmap, claim);
    let a0 = if seeds {
        seq![Act::Seed]
    } else {
        when(stale, Act::ReportStale)
    };
    let a1 = when(vendors, Act::Vendor);
    let a2 = emissions(winners, false);
    let a3 = seq![Act::EmitAssets];
    lemma_times_concat(a0, a1, claim);
    lemma_times_concat(a0 + a1, a2, claim);
    lemma_times_concat(a0 + a1 + a2, a3, claim);
    let b0 = when(runtime, Act::VendorRuntime);
    let b1 = seq![Act::Prune { runtime }];
    let b2 = match rewrite {
        Some(rewrite) => seq![Act::RewriteVendored(rewrite)],
        None => Seq::empty(),
    };
    if let Some(rewrite) = rewrite {
        lemma_times_single(Act::RewriteVendored(rewrite), claim);
    }
    let b3 = when(sweeps, Act::SweepMaps);
    let b4 = seq![Act::WriteImportmap];
    let b5 = emissions(winners, true);
    lemma_times_concat(b0, b1, claim);
    lemma_times_concat(b0 + b1, b2, claim);
    lemma_times_concat(b0 + b1 + b2, b3, claim);
    lemma_times_concat(b0 + b1 + b2 + b3, b4, claim);
    lemma_times_concat(b0 + b1 + b2 + b3 + b4, b5, claim);
    lemma_times_single(Act::WritePage, claim);
    lemma_times_single(Act::CheckImports, claim);
    lemma_times_single(Act::Fold, claim);
    lemma_times_single(Act::Compress, claim);
    let c0 = seq![Act::WritePage];
    let c1 = seq![Act::CheckImports];
    let c2 = when(folds, Act::Fold);
    let c3 = when(compresses, Act::Compress);
    assert(closing(folds, compresses) =~= c0 + c1 + c2 + c3);
    lemma_times_concat(c0, c1, claim);
    lemma_times_concat(c0 + c1, c2, claim);
    lemma_times_concat(c0 + c1 + c2, c3, claim);
    lemma_times_concat(
        trailing(runtime, rewrite, sweeps, winners),
        closing(folds, compresses),
        claim,
    );
    lemma_times_concat(
        leading(seeds, stale, vendors, winners),
        trailing(runtime, rewrite, sweeps, winners) + closing(folds, compresses),
        claim,
    );
}

proof fn lemma_emissions_wait(winners: Seq<Claimed>, waiting: bool)
    ensures
        forall|i: int|
            0 <= i < emissions(winners, waiting).len() ==> (#[trigger] emissions(
                winners,
                waiting,
            )[i] matches Act::Emit(claim) && waits(claim.rank) == waiting),
    decreases winners.len(),
{
    if winners.len() > 0 {
        lemma_emissions_wait(winners.drop_last(), waiting);
    }
}

/// A template is rendered only after the import map is final and written, and after the
/// runtime was vendored if it was; nothing that waits for the map is emitted before it.
pub proof fn law_templates_follow_the_import_map(
    seeds: bool,
    stale: bool,
    vendors: bool,
    runtime: bool,
    rewrite: Option<RewriteOptions>,
    sweeps: bool,
    winners: Seq<Claimed>,
)
    ensures
        forall|i: int|
            0 <= i < leading(seeds, stale, vendors, winners).len() ==> ((
            #[trigger] leading(seeds, stale, vendors, winners)[i]) matches Act::Emit(claim)
                ==> !waits(claim.rank)),
        forall|i: int, j: int|
            0 <= i < trailing(runtime, rewrite, sweeps, winners).len() && 0 <= j < trailing(
                runtime,
                rewrite,
                sweeps,
                winners,
            ).len() && (#[trigger] trailing(runtime, rewrite, sweeps, winners)[i]) is Emit && (
            (#[trigger] trailing(runtime, rewrite, sweeps, winners)[j]) is WriteImportmap
                || trailing(runtime, rewrite, sweeps, winners)[j] is VendorRuntime) ==> j < i,
{
    lemma_emissions_wait(winners, false);
    lemma_emissions_wait(winners, true);
    let whole = leading(seeds, stale, vendors, winners);
    let head = (if seeds {
        seq![Act::Seed]
    } else {
        when(stale, Act::ReportStale)
    }) + when(vendors, Act::Vendor);
    let e = emissions(winners, false);
    assert forall|i: int| 0 <= i < whole.len() implies ((#[trigger] whole[i]) matches Act::Emit(
        claim,
    ) ==> !waits(claim.rank)) by {
        if i >= head.len() && i < head.len() + e.len() {
            assert(whole[i] == e[i - head.len()]);
        }
    }
    let rest = trailing(runtime, rewrite, sweeps, winners);
    let late = emissions(winners, true);
    let n = rest.len() - late.len();
    assert forall|i: int, j: int|
        0 <= i < rest.len() && 0 <= j < rest.len() && (#[trigger] rest[i]) is Emit && ((
        #[trigger] rest[j]) is WriteImportmap || rest[j] is VendorRuntime) implies j < i by {
        if i < n {
            assert(!(rest[i] is Emit));
        }
        if j >= n {
            assert(rest[j] == late[j - n]);
        }
    }
}

// ---------------------------------------------------------------------------
// Seeding and sweeping
// ---------------------------------------------------------------------------

/// How one entry of the previous vendored tree is carried over.
#[derive(Clone, Copy, Debug, PartialEq, Eq, Structural)]
pub enum Carry {
    /// Make the directory.
    MakeDirectory,
    /// Copy the bytes.
    Copy,
    /// Link the file, and copy it where that fails.
    Link,
    /// Leave it behind.
    Leave,
}

/// How one place of the previous vendored tree is carried over.
pub open spec fn carried_as(path: Seq<char>, kind: Kind) -> Carry {
    match kind {
        Kind::Directory => Carry::MakeDirectory,
        Kind::File => if path::name_of(path) matches Some(name) && "."@.is_prefix_of(name) {
            Carry::Copy
        } else {
            Carry::Link
        },
        _ => Carry::Leave,
    }
}

/// How one entry of the previous vendored tree is carried over. Regular files are linked
/// (vendored content is only ever replaced, never rewritten in place); the dot-named cache
/// markers are copied, because they are rewritten in place on a version change and must not
/// reach back into the retired tree. Links are not carried over: a marked output contains
/// none this tool produced.
pub fn carry(path: &str, kind: Kind) -> (r: Carry)
    ensures
        r == carried_as(path@, kind),
{
    match kind {
        Kind::Directory => Carry::MakeDirectory,
        Kind::File => match path::file_name(path) {
            Some(name) => if text::starts_with(name.as_str(), ".") {
                Carry::Copy
            } else {
                Carry::Link
            },
            None => Carry::Link,
        },
        _ => Carry::Leave,
    }
}

/// Whether a file of the vendored tree is a source map, which a build without source maps
/// sweeps: extraction keeps a package's shipped maps unconditionally.
pub fn is_vendor_map(path: &str, kind: Kind) -> (r: bool)
    ensures
        r == (kind == Kind::File && extension_of(path@) == Some("map"@)),
{
    kind == Kind::File && match path::extension(path) {
        Some(ext) => text::same(ext.as_str(), "map"),
        None => false,
    }
}

/// One entry of the previous vendored tree on its way into the stage.
#[derive(Debug, PartialEq, Eq)]
pub struct Carried {
    pub how: Carry,
    pub from: String,
    pub to: String,
}

/// The entries of the previous vendored tree that are carried over, in order: each to its
/// place below the stage's.
pub open spec fn seeding(previous: Seq<char>, stage: Seq<char>, list: Seq<Place>) -> Seq<
    (Carry, Seq<char>, Seq<char>),
>
    decreases list.len(),
{
    if list.len() == 0 {
        Seq::empty()
    } else {
        let front = seeding(previous, stage, list.drop_last());
        let place = list.last();
        let how = carried_as(place.path, place.kind);
        match path::rest_of(place.path, previous) {
            Some(rest) => if how == Carry::Leave {
                front
            } else {
                front.push((how, place.path, under(stage, rest)))
            },
            None => front,
        }
    }
}

/// The contents of a list of carried entries.
pub open spec fn carriages(list: Seq<Carried>) -> Seq<(Carry, Seq<char>, Seq<char>)> {
    Seq::new(list.len(), |i: int| (list[i].how, list[i].from@, list[i].to@))
}

/// Seed the stage's vendor directory from the previous output's, so that cache markers keep
/// matching and an unchanged package costs no download: what is carried over of the
/// `visited` places below `previous`, and where it goes below `stage`.
pub fn seed_vendor_cache(previous: &str, stage: &str, visited: &Vec<Visited>) -> (r: Vec<Carried>)
    ensures
        carriages(r@) == seeding(previous@, stage@, places(visited@)),
{
    let ghost all = places(visited@);
    let mut out: Vec<Carried> = Vec::new();
    let mut i: usize = 0;
    assert(carriages(out@) =~= seeding(previous@, stage@, all.take(0)));
    while i < visited.len()
        invariant
            i <= visited@.len(),
            all == places(visited@),
            carriages(out@) == seeding(previous@, stage@, all.take(i as int)),
        decreases visited@.len() - i,
    {
        proof {
            let grown = all.take(i + 1);
            assert(grown.drop_last() =~= all.take(i as int));
            assert(grown.last() == visited@[i as int]@);
        }
        let from = visited[i].path.as_str();
        let how = carry(from, visited[i].kind);
        if how != Carry::Leave {
            if let Some(rest) = path::strip_base(from, previous) {
                let ghost before = out@;
                let one = Carried {
                    how,
                    from: from.to_owned(),
                    to: path::join(stage, rest.as_str()),
                };
                out.push(one);
                assert(carriages(out@) =~= carriages(before).push((how, one.from@, one.to@)));
            }
        }
        i += 1;
    }
    assert(all.take(visited@.len() as int) =~= all);
    out
}

/// What is carried over of a cache marker is a copy, never a link: a marker is rewritten in
/// place and must not reach back into the previous output.
pub proof fn law_markers_are_copied(
    previous: Seq<char>,
    stage: Seq<char>,
    list: Seq<Place>,
    i: int,
)
    requires
        0 <= i < seeding(previous, stage, list).len(),
        seeding(previous, stage, list)[i].0 == Carry::Link,
    ensures
        path::name_of(seeding(previous, stage, list)[i].1) matches Some(name)
            ==> !"."@.is_prefix_of(name),
    decreases list.len(),
{
    if i < seeding(previous, stage, list.drop_last()).len() {
        law_markers_are_copied(previous, stage, list.drop_last(), i);
    }
}

/// The source maps among the places of a vendored tree, in order.
pub open spec fn vendor_maps(list: Seq<Place>) -> Seq<Seq<char>>
    decreases list.len(),
{
    if list.len() == 0 {
        Seq::empty()
    } else {
        let front = vendor_maps(list.drop_last());
        if list.last().kind == Kind::File && extension_of(list.last().path) == Some("map"@) {
            front.push(list.last().path)
        } else {
            front
        }
    }
}

/// Which of the `visited` places of a vendored tree the sweep behind the source-map toggle
/// removes: every `.map` sidecar.
pub fn remove_vendor_maps(visited: &Vec<Visited>) -> (r: Vec<String>)
    ensures
        texts(r@) == vendor_maps(places(visited@)),
{
    let ghost all = places(visited@);
    let mut out: Vec<String> = Vec::new();
    let mut i: usize = 0;
    assert(texts(out@) =~= vendor_maps(all.take(0)));
    while i < visited.len()
        invariant
            i <= visited@.len(),
            all == places(visited@),
            texts(out@) == vendor_maps(all.take(i as int)),
        decreases visited@.len() - i,
    {
        proof {
            let grown = all.take(i + 1);
            assert(grown.drop_last() =~= all.take(i as int));
            assert(grown.last() == visited@[i as int]@);
        }
        if is_vendor_map(visited[i].path.as_str(), visited[i].kind) {
            let one = visited[i].path.clone();
            proof {
                text::lemma_texts_push(out@, one);
            }
            out.push(one);
        }
        i += 1;
    }
    assert(all.take(visited@.len() as int) =~= all);
    out
}

// ---------------------------------------------------------------------------
// What rendered JavaScript imports
// ---------------------------------------------------------------------------

/// What is recorded of a rendered template, and what is said when its imports are unknown: a
/// template can render JavaScript, and the result joins the module graph like any other.
pub open spec fn rendered(rel: Seq<char>, dest: Seq<char>, code: Seq<char>) -> Result<
    (Option<Seq<Reference>>, Option<Seq<char>>),
    Failure,
> {
    if emitted_js(ext_or_empty(dest)) {
        match source_reading(code, lowered(ext_or_empty(dest)) == "mjs"@) {
            Ok(reading) => Ok(
                (
                    Some(reading.imports),
                    if reading.parsed {
                        None
                    } else {
                        Some(
                            "web-modules: "@ + rel
                                + ": renders neither a module nor a classic script; its imports are not validated"@,
                        )
                    },
                ),
            ),
            Err(reason) => Err(Failure::Build("web-modules: "@ + rel + ": "@ + reason)),
        }
    } else {
        Ok((None, None))
    }
}

/// What the module graph records of the template at `rel`, whose rendered text goes to
/// `dest`. A rendered `.mjs` must parse: the browser would fail on it.
pub fn rendered_imports(rel: &str, dest: &str, code: &str) -> (r: Result<
    (Option<Vec<ModuleImport>>, Option<String>),
    Error,
>)
    ensures
        (match r {
            Ok((imports, warning)) => Ok::<(Option<Seq<Reference>>, Option<Seq<char>>), Failure>(
                (
                    match imports {
                        Some(list) => Some(references(list@)),
                        None => None,
                    },
                    opt_text(warning),
                ),
            ),
            Err(e) => Err(e@),
        }) == rendered(rel@, dest@, code@),
{
    let ext = static_files::extension_or_empty(dest);
    if !static_files::is_emitted_js(ext.as_str()) {
        return Ok((None, None));
    }
    let module_only = text::same(text::lower(ext.as_str()).as_str(), "mjs");
    match module_graph::read_imports(code, module_only) {
        Ok(read) => {
            let warning = if read.parsed {
                None
            } else {
                Some(
                    "web-modules: ".to_owned().concat(rel).concat(
                        ": renders neither a module nor a classic script; its imports are not validated",
                    ),
                )
            };
            Ok((Some(read.imports), warning))
        },
        Err(reason) => Err(
            Error::Build(
                "web-modules: ".to_owned().concat(rel).concat(": ").concat(reason.as_str()),
            ),
        ),
    }
}

// ---------------------------------------------------------------------------
// `npm://` assets
// ---------------------------------------------------------------------------

/// The output path of one file of an `npm://` asset: the link's own, or beneath it.
pub open spec fn asset_path(rel: Seq<char>, sub: Seq<char>) -> Seq<char> {
    if sub.len() == 0 {
        rel
    } else {
        under(rel, sub)
    }
}

/// An output path that the build already produces.
pub open spec fn produced(claims: Seq<Claimed>, out_rel: Seq<char>) -> bool {
    targeted(claims, out_rel) || parts(out_rel) == parts("importmap.json"@) || parts(
        "web_modules"@,
    ).is_prefix_of(parts(out_rel))
}

/// Where one file of the `npm://` asset at `link` goes, or the refusal when the build already
/// produces that path.
pub open spec fn asset_target(
    claims: Seq<Claimed>,
    link: Seq<char>,
    package: Seq<char>,
    rel: Seq<char>,
    sub: Seq<char>,
) -> Result<Seq<char>, Failure> {
    let out_rel = asset_path(rel, sub);
    if produced(claims, out_rel) {
        Err(
            Failure::Build(
                "web-modules: "@ + link + " (npm://"@ + package + ") resolves onto "@ + out_rel
                    + ", which the build already produces"@,
            ),
        )
    } else {
        Ok(out_rel)
    }
}

/// Where the file at `sub` of the `npm://` asset at `rel` goes. A target that lands on a path
/// the build already produces is a hard error.
pub fn place_asset(report: &PreflightReport, link: &str, package: &str, rel: &str, sub: &str) -> (r:
    Result<String, Error>)
    ensures
        crate::error::seen(r) == asset_target(report@.claims, link@, package@, rel@, sub@),
{
    let out_rel = if sub.is_empty() {
        rel.to_owned()
    } else {
        path::join(rel, sub)
    };
    if report.claims_target(out_rel.as_str()) || path::same_path(
        out_rel.as_str(),
        "importmap.json",
    ) || path::starts_with(out_rel.as_str(), "web_modules") {
        return Err(
            Error::Build(
                "web-modules: ".to_owned().concat(link).concat(" (npm://").concat(package).concat(
                    ") resolves onto ",
                ).concat(out_rel.as_str()).concat(", which the build already produces"),
            ),
        );
    }
    Ok(out_rel)
}

/// The reference that the `npm://` asset at `link` holds; a malformed one is an error.
pub fn asset_reference(link: &str, target: &str) -> (r: Result<npm_link::Reference, Error>)
    ensures
        match r {
            Ok(reference) => npm_link::link_of(target@) == Some(reference@),
            Err(e) => npm_link::link_of(target@) is None && e@ == Failure::Build(
                link@ + ": malformed npm:// target "@ + text::debug_form(target@),
            ),
        },
{
    match npm_link::parse(target) {
        Some(reference) => Ok(reference),
        None => {
            let shown = text::debug_text(target);
            Err(
                Error::Build(
                    link.to_owned().concat(": malformed npm:// target ").concat(shown.as_str()),
                ),
            )
        },
    }
}

// ---------------------------------------------------------------------------
// The entry page and the import check
// ---------------------------------------------------------------------------

/// How the entry page is made when no source claims it.
#[derive(Debug, PartialEq, Eq)]
pub enum Page {
    /// Render the template with the import-map element under `importmap`.
    Template { path: String, tag: String },
    /// Write the text.
    Inline { html: String },
}

/// How the entry page is made, as the contracts see it.
pub enum Entry {
    Template { path: Seq<char>, tag: Seq<char> },
    Inline { html: Seq<char> },
}

impl View for Page {
    type V = Entry;

    open spec fn view(&self) -> Entry {
        match self {
            Page::Template { path, tag } => Entry::Template { path: path@, tag: tag@ },
            Page::Inline { html } => Entry::Inline { html: html@ },
        }
    }
}

/// The import-map element of a page: none when the tree is bundled, because every bare import
/// is then inlined.
pub open spec fn page_tag(map: Map<Seq<char>, Seq<char>>, bundling: bool) -> Seq<char> {
    if bundling {
        Seq::empty()
    } else {
        script_tag(json::markup_escaped(json::json_compact(document(map))))
    }
}

/// The entry page that a build synthesises: only when no source claims it.
pub open spec fn fallback(
    claims: Seq<Claimed>,
    map: Map<Seq<char>, Seq<char>>,
    bundling: bool,
    template: Option<Seq<char>>,
    html: Seq<char>,
) -> Option<Entry> {
    if targeted(claims, "index.html"@) {
        None
    } else {
        Some(
            match template {
                Some(path) => Entry::Template { path, tag: page_tag(map, bundling) },
                None => Entry::Inline {
                    html: replaced(html, "{importmap}"@, page_tag(map, bundling)),
                },
            },
        )
    }
}

/// The entry-page fallback: `index.html` from a template or inline text, only when no source
/// claims that target: in effect a synthetic claim at the lowest precedence, keyed off the
/// preflight rather than probing the stage.
pub fn fallback_index(
    report: &PreflightReport,
    importmap: &Importmap,
    bundling: bool,
    template: Option<&str>,
    html: &str,
) -> (r: Option<Page>)
    ensures
        (match r {
            Some(page) => Some(page@),
            None => None,
        }) == fallback(
            report@.claims,
            importmap@,
            bundling,
            match template {
                Some(path) => Some(path@),
                None => None,
            },
            html@,
        ),
{
    if report.claims_target("index.html") {
        return None;
    }
    let tag = if bundling {
        let none = String::new();
        assert(none@ =~= Seq::<char>::empty());
        none
    } else {
        importmap.to_script_tag()
    };
    match template {
        Some(path) => Some(Page::Template { path: path.to_owned(), tag }),
        None => {
            proof {
                reveal_strlit("{importmap}");
            }
            Some(Page::Inline { html: text::replace(html, "{importmap}", tag.as_str()) })
        },
    }
}

/// What is said of unresolved imports.
pub open spec fn import_lines(list: Seq<(Seq<char>, Seq<char>)>) -> Seq<Seq<char>> {
    Seq::new(list.len(), |i: int| "  "@ + list[i].0 + ": import \""@ + list[i].1 + "\""@)
}

/// The lines that name a list of imports.
pub fn import_list(list: &Vec<(String, String)>) -> (r: Vec<String>)
    ensures
        texts(r@) == import_lines(pairs(list@)),
{
    let mut lines: Vec<String> = Vec::new();
    let mut i: usize = 0;
    while i < list.len()
        invariant
            i <= list@.len(),
            lines@.len() == i,
            forall|k: int|
                0 <= k < i ==> (#[trigger] lines@[k])@ == "  "@ + list@[k].0@ + ": import \""@
                    + list@[k].1@ + "\""@,
        decreases list@.len() - i,
    {
        lines.push(
            "  ".to_owned().concat(list[i].0.as_str()).concat(": import \"").concat(
                list[i].1.as_str(),
            ).concat("\""),
        );
        i += 1;
    }
    assert(texts(lines@) =~= import_lines(pairs(list@)));
    lines
}

/// The refusal of a build that would ship imports the import map cannot resolve.
pub open spec fn unresolved_refusal(list: Seq<(Seq<char>, Seq<char>)>) -> Option<Failure> {
    if list.len() == 0 {
        None
    } else {
        Some(
            Failure::Build(
                "web-modules: "@ + digits(list.len())
                    + " unresolved bare import(s) - add them to the vendored specs / import map:\n"@
                    + joined(import_lines(list), "\n"@),
            ),
        )
    }
}

/// Fails the build if any emitted module imports a bare specifier the generated import map
/// can't resolve (a transform runtime helper, a forgotten dependency, …), so a browser-load
/// failure becomes a clear build error instead. The generated map is the only validation
/// target: a hand-authored `index.html` owns its inline map.
pub fn check_imports(graph: &ModuleGraph, importmap: &Importmap) -> (r: Result<(), Error>)
    ensures
        (match r {
            Ok(_) => None,
            Err(e) => Some(e@),
        }) == unresolved_refusal(
            all_dangling(importmap@, listing::<ByPath, Noted>(graph@)),
        ),
{
    let unresolved = graph.unresolved(importmap);
    if unresolved.len() == 0 {
        return Ok(());
    }
    let lines = import_list(&unresolved);
    Err(
        Error::Build(
            "web-modules: ".to_owned().concat(text::decimal(unresolved.len()).as_str()).concat(
                " unresolved bare import(s) - add them to the vendored specs / import map:\n",
            ).concat(text::join(&lines, "\n").as_str()),
        ),
    )
}

proof fn lemma_emissions_are_emits(winners: Seq<Claimed>, waiting: bool)
    ensures
        forall|i: int|
            0 <= i < emissions(winners, waiting).len() ==> (#[trigger] emissions(winners, waiting)[i])
                is Emit,
    decreases winners.len(),
{
    if winners.len() > 0 {
        lemma_emissions_are_emits(winners.drop_last(), waiting);
    }
}

/// A build begins with its cache: it is seeded when the previous tree has this build's shape, and
/// otherwise reported when there was one. Then the packages are vendored, if any were asked for,
/// and at the end the `npm://` assets are emitted.
pub proof fn law_beginning(seeds: bool, stale: bool, vendors: bool, winners: Seq<Claimed>)
    ensures
        ({
            let list = leading(seeds, stale, vendors, winners);
            &&& list.last() == Act::EmitAssets
            &&& seeds ==> list[0] == Act::Seed
            &&& list.contains(Act::Seed) <==> seeds
            &&& list.contains(Act::ReportStale) <==> !seeds && stale
            &&& list.contains(Act::Vendor) <==> vendors
            &&& vendors && (seeds || stale) ==> list[1] == Act::Vendor
            &&& vendors && !seeds && !stale ==> list[0] == Act::Vendor
        }),
{
    let list = leading(seeds, stale, vendors, winners);
    let a = if seeds {
        seq![Act::Seed]
    } else {
        when(stale, Act::ReportStale)
    };
    let b = when(vendors, Act::Vendor);
    let c = emissions(winners, false);
    lemma_emissions_are_emits(winners, false);
    assert(list == a + b + c + seq![Act::EmitAssets]);
    let n = a.len() as int;
    if n > 0 {
        assert(list[0] == a[0]);
    }
    if vendors {
        assert(list[n] == b[0]);
    }
    assert forall|i: int| 0 <= i < list.len() implies {
        ||| i < n && list[i] == a[i]
        ||| n <= i < n + b.len() && list[i] == Act::Vendor
        ||| list[i] is Emit
        ||| list[i] == Act::EmitAssets
    } by {
        if i < n {
        } else if i < n + b.len() {
            assert(list[i] == b[i - n]);
        } else if i < n + b.len() + c.len() {
            assert(list[i] == c[i - n - b.len()]);
        }
    }
}

/// Once the graph is known the runtime is vendored if it is needed, then what was not asked for is
/// pruned, the tree is rewritten and swept where that is called for, and the import map is written.
pub proof fn law_middle(
    runtime: bool,
    rewrite: Option<RewriteOptions>,
    sweeps: bool,
    winners: Seq<Claimed>,
)
    ensures
        ({
            let list = trailing(runtime, rewrite, sweeps, winners);
            let p: int = if runtime {
                1
            } else {
                0
            };
            let q: int = if rewrite is Some {
                p + 2
            } else {
                p + 1
            };
            let s: int = if sweeps {
                q + 1
            } else {
                q
            };
            &&& runtime ==> list[0] == Act::VendorRuntime
            &&& list[p] == (Act::Prune { runtime })
            &&& rewrite matches Some(options) ==> list[p + 1] == Act::RewriteVendored(options)
            &&& sweeps ==> list[q] == Act::SweepMaps
            &&& list[s] == Act::WriteImportmap
            &&& list.len() == s + 1 + emissions(winners, true).len()
            &&& forall|i: int| s < i < list.len() ==> (#[trigger] list[i]) is Emit
        }),
{
    lemma_emissions_are_emits(winners, true);
    let list = trailing(runtime, rewrite, sweeps, winners);
    let a = when(runtime, Act::VendorRuntime);
    let b = seq![Act::Prune { runtime }];
    let c = match rewrite {
        Some(options) => seq![Act::RewriteVendored(options)],
        None => Seq::empty(),
    };
    let d = when(sweeps, Act::SweepMaps);
    let e = seq![Act::WriteImportmap];
    let f = emissions(winners, true);
    assert(list == a + b + c + d + e + f);
    let n = (a + b + c + d + e).len() as int;
    assert forall|i: int| n <= i < list.len() implies (#[trigger] list[i]) is Emit by {
        assert(list[i] == f[i - n]);
    }
}

/// A build ends with its page and the check of its imports; then the tree is folded, if it is to be,
/// and last of all compressed, if it is to be.
pub proof fn law_end(folds: bool, compresses: bool)
    ensures
        closing(folds, compresses)[0] == Act::WritePage,
        closing(folds, compresses)[1] == Act::CheckImports,
        folds ==> closing(folds, compresses)[2] == Act::Fold,
        compresses ==> closing(folds, compresses).last() == Act::Compress,
        closing(folds, compresses).contains(Act::Fold) <==> folds,
        closing(folds, compresses).contains(Act::Compress) <==> compresses,
{
    let list = closing(folds, compresses);
    if folds {
        assert(list[2] == Act::Fold);
    }
    if compresses {
        assert(list[list.len() - 1] == Act::Compress);
    }
}

/// Only templates wait for the import map.
pub proof fn law_who_waits(rank: Rank)
    ensures
        waits(Rank::Tera) && waits(Rank::MdTmpl),
        !waits(Rank::Static) && !waits(Rank::Transform),
{
}

/// The vendored tree is rewritten with the build's own settings, unless it is folded, unless it is to
/// be left alone, and unless there is nothing to rewrite.
pub proof fn law_tree_rewrite(sourcemap: bool, output: Output, by: Generates)
    ensures
        by.bundling || !by.rewriting || !output.minify_web_modules ==> tree_rewrite(
            sourcemap,
            output,
            by,
        ) is None,
        by.rewriting && !by.bundling && output.minify_web_modules && output.minify ==> tree_rewrite(
            sourcemap,
            output,
            by,
        ) == Some(
            RewriteOptions {
                minify: true,
                source_map: sourcemap,
                comments: comment_policy(output),
            },
        ),
{
}

/// Directories are made anew, hidden files are copied, other files are linked, and nothing else is
/// carried over.
pub proof fn law_how_things_are_carried(path: Seq<char>, name: Seq<char>)
    requires
        path::name_of(path) == Some(name),
        name.len() > 0,
    ensures
        carried_as(path, Kind::Directory) == Carry::MakeDirectory,
        name[0] == '.' ==> carried_as(path, Kind::File) == Carry::Copy,
        name[0] != '.' ==> carried_as(path, Kind::File) == Carry::Link,
        carried_as(path, Kind::Link) == Carry::Leave,
        carried_as(path, Kind::Other) == Carry::Leave,
{
    reveal_strlit(".");
    assert(name.subrange(0, 1)[0] == name[0]);
    if name[0] == '.' {
        assert(name.subrange(0, 1) =~= "."@);
    }
}

/// Each directory and each file of the previous tree is carried to the same place below the stage,
/// in order; what lies elsewhere, and what is neither, is left behind.
pub proof fn law_seeding(previous: Seq<char>, stage: Seq<char>, list: Seq<Place>, place: Place)
    ensures
        seeding(previous, stage, Seq::empty()).len() == 0,
        (place.kind == Kind::File || place.kind == Kind::Directory) && path::rest_of(
            place.path,
            previous,
        ) is Some ==> seeding(previous, stage, list.push(place)) == seeding(
            previous,
            stage,
            list,
        ).push(
            (
                carried_as(place.path, place.kind),
                place.path,
                under(stage, path::rest_of(place.path, previous)->Some_0),
            ),
        ),
        place.kind == Kind::Link || place.kind == Kind::Other || path::rest_of(place.path, previous)
            is None ==> seeding(previous, stage, list.push(place)) == seeding(
            previous,
            stage,
            list,
        ),
{
    assert(list.push(place).drop_last() =~= list);
}

/// The sweep removes every file with the extension `map`, and nothing else.
pub proof fn law_swept_maps(list: Seq<Place>, p: Seq<char>)
    ensures
        vendor_maps(list).contains(p) <==> exists|i: int|
            0 <= i < list.len() && (#[trigger] list[i]).path == p && list[i].kind == Kind::File
                && extension_of(p) == Some("map"@),
    decreases list.len(),
{
    if list.len() > 0 {
        let front = list.drop_last();
        law_swept_maps(front, p);
        let before = vendor_maps(front);
        let all = vendor_maps(list);
        if all.contains(p) {
            let k = choose|k: int| 0 <= k < all.len() && all[k] == p;
            if k < before.len() {
                assert(before[k] == p);
                let i = choose|i: int|
                    0 <= i < front.len() && (#[trigger] front[i]).path == p && front[i].kind
                        == Kind::File;
                assert(list[i] == front[i]);
            } else {
                assert(list[list.len() - 1].path == p);
            }
        }
        if exists|i: int|
            0 <= i < list.len() && (#[trigger] list[i]).path == p && list[i].kind == Kind::File
                && extension_of(p) == Some("map"@) {
            let i = choose|i: int|
                0 <= i < list.len() && (#[trigger] list[i]).path == p && list[i].kind == Kind::File
                    && extension_of(p) == Some("map"@);
            if i < front.len() {
                assert(front[i] == list[i]);
                let k = choose|k: int| 0 <= k < before.len() && before[k] == p;
                assert(all[k] == p);
            } else {
                assert(all[before.len() as int] == p);
            }
        }
    }
}

/// A template that renders JavaScript has the imports of what it renders: unknown ones are warned of
/// by the template's name, and a module that does not parse is an error. Any other template has
/// none.
pub proof fn law_rendered_javascript(rel: Seq<char>, dest: Seq<char>, code: Seq<char>)
    ensures
        !emitted_js(ext_or_empty(dest)) ==> rendered(rel, dest, code) == Ok::<
            (Option<Seq<Reference>>, Option<Seq<char>>),
            Failure,
        >((None, None)),
        emitted_js(ext_or_empty(dest)) ==> ({
            let module_only = lowered(ext_or_empty(dest)) == "mjs"@;
            match source_reading(code, module_only) {
                Ok(reading) => rendered(rel, dest, code) matches Ok((imports, warning)) && imports
                    == Some(reading.imports) && (reading.parsed <==> warning is None) && (
                warning matches Some(w) ==> text::has(w, rel)),
                Err(_) => rendered(rel, dest, code) is Err,
            }
        }),
{
    let w = "web-modules: "@ + rel
        + ": renders neither a module nor a classic script; its imports are not validated"@;
    let n = "web-modules: "@.len() as int;
    assert(w.subrange(n, n + rel.len()) =~= rel);
    assert(text::occurs_at(w, rel, n));
}

/// An asset of one file goes to the link's own place and a file of a directory below it, unless the
/// build has something there already: a claimed path, the import map, or the vendored tree.
pub proof fn law_assets(
    claims: Seq<Claimed>,
    link: Seq<char>,
    package: Seq<char>,
    rel: Seq<char>,
    sub: Seq<char>,
    k: int,
)
    ensures
        asset_path(rel, Seq::empty()) == rel,
        sub.len() > 0 ==> asset_path(rel, sub) == under(rel, sub),
        asset_target(claims, link, package, rel, sub) matches Ok(out) ==> out == asset_path(rel, sub),
        0 <= k < claims.len() && parts(claims[k].out_rel) == parts(asset_path(rel, sub))
            ==> asset_target(claims, link, package, rel, sub) is Err,
        parts(asset_path(rel, sub)) == parts("importmap.json"@) ==> asset_target(
            claims,
            link,
            package,
            rel,
            sub,
        ) is Err,
        path::rest_of(asset_path(rel, sub), "web_modules"@) is Some ==> asset_target(
            claims,
            link,
            package,
            rel,
            sub,
        ) is Err,
        (forall|i: int|
            0 <= i < claims.len() ==> parts((#[trigger] claims[i]).out_rel) != parts(
                asset_path(rel, sub),
            )) && parts(asset_path(rel, sub)) != parts("importmap.json"@) && path::rest_of(
            asset_path(rel, sub),
            "web_modules"@,
        ) is None ==> asset_target(claims, link, package, rel, sub) is Ok,
{
}

/// An entry page is made only where no source claims `index.html`: from the template if there is
/// one, else from the text with the import-map element in the place of `{importmap}`.
pub proof fn law_entry_page(
    claims: Seq<Claimed>,
    map: Map<Seq<char>, Seq<char>>,
    bundling: bool,
    template: Seq<char>,
    html: Seq<char>,
)
    ensures
        targeted(claims, "index.html"@) ==> fallback(claims, map, bundling, Some(template), html)
            is None && fallback(claims, map, bundling, None, html) is None,
        !targeted(claims, "index.html"@) ==> fallback(claims, map, bundling, Some(template), html)
            == Some(Entry::Template { path: template, tag: page_tag(map, bundling) }),
        !targeted(claims, "index.html"@) && text::has(html, "{importmap}"@) ==> (fallback(
            claims,
            map,
            bundling,
            None,
            html,
        ) matches Some(Entry::Inline { html: page }) && text::has(page, page_tag(map, bundling))),
        !targeted(claims, "index.html"@) && !text::has(html, "{importmap}"@) ==> fallback(
            claims,
            map,
            bundling,
            None,
            html,
        ) == Some(Entry::Inline { html }),
        page_tag(map, true).len() == 0,
        page_tag(map, false).len() > 0,
{
    reveal_strlit("{importmap}");
    let tag = page_tag(map, bundling);
    if text::has(html, "{importmap}"@) {
        let p = choose|p: int| text::occurs_at(html, "{importmap}"@, p);
        text::law_replacement_stands(html, "{importmap}"@, tag, p);
    } else {
        text::law_nothing_to_replace(html, "{importmap}"@, tag, 0);
        assert(html.skip(0) =~= html);
    }
    crate::importmap::law_script_element(json::markup_escaped(json::json_compact(document(map))));
}

/// A build is refused when some import is unresolved, and only then.
pub proof fn law_unresolved_imports(list: Seq<(Seq<char>, Seq<char>)>, i: int)
    ensures
        unresolved_refusal(list) is None <==> list.len() == 0,
        0 <= i < list.len() ==> import_lines(list)[i] == "  "@ + list[i].0 + ": import \""@
            + list[i].1 + "\""@,
        import_lines(list).len() == list.len(),
{
}

/// How TypeScript is compiled.
pub open spec fn tuned(
    decorators: Decorators,
    source_map: bool,
    output: Output,
    bundling: bool,
) -> TranspileOptions {
    TranspileOptions {
        minify: output.minify && !bundling,
        decorators,
        source_map,
        comments: if bundling {
            Comments::Keep
        } else {
            comment_policy(output)
        },
    }
}

/// A bundling build leaves minifying and comments to the fold; any other build applies both as
/// asked, and decorators and source maps are as asked in either.
pub proof fn law_tuning(decorators: Decorators, source_map: bool, output: Output, bundling: bool)
    ensures
        tuned(decorators, source_map, output, bundling).decorators == decorators,
        tuned(decorators, source_map, output, bundling).source_map == source_map,
        !tuned(decorators, source_map, output, true).minify,
        tuned(decorators, source_map, output, true).comments == Comments::Keep,
        tuned(decorators, source_map, output, false).minify == output.minify,
        tuned(decorators, source_map, output, false).comments == comment_policy(output),
{
}

/// Where stylesheets are looked for: in the source roots, then in the stage, then where the
/// settings say.
pub open spec fn load_paths(
    roots: Seq<Seq<char>>,
    stage: Seq<char>,
    more: Seq<Seq<char>>,
) -> Seq<Seq<char>> {
    roots.push(stage) + more
}

/// Every root is looked in before the stage, in order, and every further path behind it.
pub proof fn law_load_paths(
    roots: Seq<Seq<char>>,
    stage: Seq<char>,
    more: Seq<Seq<char>>,
    i: int,
)
    ensures
        load_paths(roots, stage, more).len() == roots.len() + 1 + more.len(),
        0 <= i < roots.len() ==> load_paths(roots, stage, more)[i] == roots[i],
        load_paths(roots, stage, more)[roots.len() as int] == stage,
        0 <= i < more.len() ==> load_paths(roots, stage, more)[roots.len() + 1 + i] == more[i],
{
}

} // verus!
