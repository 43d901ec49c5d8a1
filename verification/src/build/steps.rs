//! Preflight-capable pipeline steps: every build stage states what it WOULD emit for a
//! given source file, before anything is written.
//!
//! The driver walks the source roots exactly once, offers every file to every enabled
//! step, and collects the claims: which output-relative path each step would produce.
//! The build resolves the claims up front: duplicate output paths are detected before
//! the first write, and each output path is then written by exactly one winner, so
//! precedence is an explicit policy instead of an emergent write order.
//!
//! Feature and toggle variance lives in [`enabled_steps`] alone. The same step list
//! drives the preflight and the emission, so what the preflight predicts is, by
//! construction, what the pipeline does.

use vstd::prelude::*;

use crate::build::options::{Features, Processors};
use crate::path;
use crate::path::{extension_of, name_of, refiled, retyped};
use crate::reject::{refuses_path, Reject, Rules};
use crate::static_files;
use crate::static_files::skipped;
use crate::text;
use crate::text::lowered;
use crate::vendor::keep::{declaration, is_declaration};

verus! {

/// Within-root precedence, lowest wins: a template beats a literal file, which beats a
/// transformed sibling (a copied `app.js` over the output of `app.ts`): the order the
/// dev server probes candidates in.
#[derive(Clone, Copy, Debug, PartialEq, Eq, Structural)]
pub enum Rank {
    Tera,
    MdTmpl,
    Static,
    Transform,
}

/// Where a rank stands: the lowest wins.
pub open spec fn rank_place(rank: Rank) -> int {
    match rank {
        Rank::Tera => 0,
        Rank::MdTmpl => 1,
        Rank::Static => 2,
        Rank::Transform => 3,
    }
}

impl Rank {
    /// Where the rank stands: the lowest wins.
    pub fn place(self) -> (r: u8)
        ensures
            r == rank_place(self),
    {
        match self {
            Rank::Tera => 0,
            Rank::MdTmpl => 1,
            Rank::Static => 2,
            Rank::Transform => 3,
        }
    }
}

/// What one step would emit for one source file.
#[derive(Debug, PartialEq, Eq)]
pub struct Claim {
    /// The output-relative path the emission would write.
    pub out_rel: String,
    /// Orders same-rank claims on one target (TypeScript: `ts` = 0, `tsx` = 1,
    /// `mts` = 2: the dev server's probe order). Zero for every other step.
    pub tiebreak: u8,
}

/// A claim, as the contracts see it.
pub open spec fn claimed(claim: Option<Claim>) -> Option<(Seq<char>, u8)> {
    match claim {
        Some(claim) => Some((claim.out_rel@, claim.tiebreak)),
        None => None,
    }
}

/// A stage that can say what it would emit without emitting.
pub trait Preflight {
    /// What [`name`](Self::name) gives.
    spec fn called(&self) -> Seq<char>;

    /// What [`rank`](Self::rank) gives.
    spec fn ranked(&self) -> Rank;

    /// What [`claim`](Self::claim) gives.
    spec fn claims(&self, rel: Seq<char>) -> Option<(Seq<char>, u8)>;

    /// Stable name for conflict reports (e.g. "static copy", "TypeScript transform").
    fn name(&self) -> (r: &'static str)
        ensures
            r@ == self.called(),
    ;

    fn rank(&self) -> (r: Rank)
        ensures
            r == self.ranked(),
    ;

    /// The claim this step makes on the source file at root-relative `rel`, or `None`
    /// when the file is not its input (wrong extension, `_` partial, `.d.ts`, …).
    /// Steps need not consult the reject list: the driver drops every claim whose
    /// *target* is rejected, centrally. (The static step still applies it to its
    /// sources, because a raw copy ships the source file itself.)
    fn claim(&self, rel: &str) -> (r: Option<Claim>)
        ensures
            claimed(r) == self.claims(rel@),
    ;
}

/// Renders `x.y.tera` to `x.y` with the generated import map exposed as the `importmap`
/// template variable. The `_`-partial skip is a convention, not an inheritance system.
#[derive(Debug, PartialEq, Eq)]
pub struct TeraStep;

/// The target of a template: its name without the final `.tera`.
pub open spec fn tera_target(rel: Seq<char>) -> Option<Seq<char>> {
    match (name_of(rel), extension_of(rel)) {
        (Some(name), Some(ext)) => if lowered(ext) == "tera"@ && !"_"@.is_prefix_of(name) {
            Some(retyped(rel, Seq::empty()))
        } else {
            None
        },
        _ => None,
    }
}

/// The claim that a target without a tiebreak is.
pub open spec fn plain(target: Option<Seq<char>>) -> Option<(Seq<char>, u8)> {
    match target {
        Some(out_rel) => Some((out_rel, 0)),
        None => None,
    }
}

/// `rel` with its extension replaced, when it has the extension `from` in any case and is no
/// partial.
fn replaced_extension(rel: &str, from: &str, to: &str) -> (r: Option<Claim>)
    ensures
        claimed(r) == plain(
            match (name_of(rel@), extension_of(rel@)) {
                (Some(name), Some(ext)) => if lowered(ext) == from@ && !"_"@.is_prefix_of(name) {
                    Some(retyped(rel@, to@))
                } else {
                    None
                },
                _ => None,
            },
        ),
{
    match (path::file_name(rel), path::extension(rel)) {
        (Some(name), Some(ext)) => {
            if text::same(text::lower(ext.as_str()).as_str(), from) && !text::starts_with(
                name.as_str(),
                "_",
            ) {
                Some(Claim { out_rel: path::with_extension(rel, to), tiebreak: 0 })
            } else {
                None
            }
        },
        _ => None,
    }
}

impl Preflight for TeraStep {
    open spec fn called(&self) -> Seq<char> {
        "Tera template"@
    }

    open spec fn ranked(&self) -> Rank {
        Rank::Tera
    }

    open spec fn claims(&self, rel: Seq<char>) -> Option<(Seq<char>, u8)> {
        plain(tera_target(rel))
    }

    fn name(&self) -> (r: &'static str) {
        "Tera template"
    }

    fn rank(&self) -> (r: Rank) {
        Rank::Tera
    }

    fn claim(&self, rel: &str) -> (r: Option<Claim>) {
        proof {
            reveal_strlit("");
            assert(""@ =~= Seq::<char>::empty());
        }
        replaced_extension(rel, "tera", "")
    }
}

/// Copies every file that no other step takes, byte for byte.
#[derive(Debug, PartialEq, Eq)]
pub struct StaticStep {
    pub reject: Reject,
}

/// The compound suffix of typed markdown templates.
pub const TMPL_MD_SUFFIX: &'static str = ".tmpl.md";

/// The stem of a typed markdown template's name.
pub open spec fn tmpl_stem(name: Seq<char>) -> Option<Seq<char>> {
    let split = name.len() - TMPL_MD_SUFFIX@.len();
    if split >= 0 && lowered(name.skip(split)) == TMPL_MD_SUFFIX@ {
        Some(name.take(split))
    } else {
        None
    }
}

/// The stem of a typed markdown template's name, its suffix in any case.
pub fn template_stem(name: &str) -> (r: Option<String>)
    ensures
        text::opt_text(r) == tmpl_stem(name@),
{
    proof {
        reveal_strlit(".tmpl.md");
    }
    let all = text::chars(name);
    let n = all.len();
    if n < 8 {
        return None;
    }
    let suffix = text::slice(&all, n - 8, n);
    assert(suffix@ =~= name@.skip(n - 8));
    if text::same(text::lower(suffix.as_str()).as_str(), TMPL_MD_SUFFIX) {
        let stem = text::slice(&all, 0, n - 8);
        assert(stem@ =~= name@.take(n - 8));
        Some(stem)
    } else {
        None
    }
}

/// A file that some step turns into something else, by its name.
pub open spec fn source_name(rel: Seq<char>) -> bool {
    skipped(rel) || (name_of(rel) matches Some(name) && tmpl_stem(name) is Some)
}

/// Whether some step turns the file into something else, by its name.
pub fn is_source_name(rel: &str) -> (r: bool)
    ensures
        r == source_name(rel@),
{
    static_files::is_skipped(rel) || match path::file_name(rel) {
        Some(name) => template_stem(name.as_str()).is_some(),
        None => false,
    }
}

impl Preflight for StaticStep {
    open spec fn called(&self) -> Seq<char> {
        "static copy"@
    }

    open spec fn ranked(&self) -> Rank {
        Rank::Static
    }

    open spec fn claims(&self, rel: Seq<char>) -> Option<(Seq<char>, u8)> {
        if source_name(rel) || refuses_path(self.reject@, rel) {
            None
        } else {
            Some((rel, 0))
        }
    }

    fn name(&self) -> (r: &'static str) {
        "static copy"
    }

    fn rank(&self) -> (r: Rank) {
        Rank::Static
    }

    fn claim(&self, rel: &str) -> (r: Option<Claim>) {
        if is_source_name(rel) || self.reject.rejects_path(rel) {
            None
        } else {
            Some(Claim { out_rel: rel.to_owned(), tiebreak: 0 })
        }
    }
}

/// Transforms TypeScript to JavaScript.
#[derive(Debug, PartialEq, Eq)]
pub struct TypeScriptStep;

/// Where a TypeScript extension stands in the dev server's probe order.
pub open spec fn ts_tiebreak(ext: Seq<char>) -> Option<u8> {
    if lowered(ext) == "ts"@ {
        Some(0)
    } else if lowered(ext) == "tsx"@ {
        Some(1)
    } else if lowered(ext) == "mts"@ {
        Some(2)
    } else {
        None
    }
}

impl Preflight for TypeScriptStep {
    open spec fn called(&self) -> Seq<char> {
        "TypeScript transform"@
    }

    open spec fn ranked(&self) -> Rank {
        Rank::Transform
    }

    open spec fn claims(&self, rel: Seq<char>) -> Option<(Seq<char>, u8)> {
        match (name_of(rel), extension_of(rel)) {
            (Some(name), Some(ext)) => match ts_tiebreak(ext) {
                Some(tiebreak) => if declaration(lowered(name)) {
                    None
                } else {
                    Some((retyped(rel, "js"@), tiebreak))
                },
                None => None,
            },
            _ => None,
        }
    }

    fn name(&self) -> (r: &'static str) {
        "TypeScript transform"
    }

    fn rank(&self) -> (r: Rank) {
        Rank::Transform
    }

    fn claim(&self, rel: &str) -> (r: Option<Claim>) {
        match (path::file_name(rel), path::extension(rel)) {
            (Some(name), Some(ext)) => {
                let low = text::lower(ext.as_str());
                let tiebreak: u8 = if text::same(low.as_str(), "ts") {
                    0
                } else if text::same(low.as_str(), "tsx") {
                    1
                } else if text::same(low.as_str(), "mts") {
                    2
                } else {
                    return None;
                };
                if is_declaration(text::lower(name.as_str()).as_str()) {
                    None
                } else {
                    Some(Claim { out_rel: path::with_extension(rel, "js"), tiebreak })
                }
            },
            _ => None,
        }
    }
}

/// Compiles SCSS to CSS.
#[derive(Debug, PartialEq, Eq)]
pub struct ScssStep;

impl Preflight for ScssStep {
    open spec fn called(&self) -> Seq<char> {
        "SCSS compile"@
    }

    open spec fn ranked(&self) -> Rank {
        Rank::Transform
    }

    open spec fn claims(&self, rel: Seq<char>) -> Option<(Seq<char>, u8)> {
        match (name_of(rel), extension_of(rel)) {
            (Some(name), Some(ext)) => if lowered(ext) == "scss"@ && !"_"@.is_prefix_of(name) {
                Some((retyped(rel, "css"@), 0))
            } else {
                None
            },
            _ => None,
        }
    }

    fn name(&self) -> (r: &'static str) {
        "SCSS compile"
    }

    fn rank(&self) -> (r: Rank) {
        Rank::Transform
    }

    fn claim(&self, rel: &str) -> (r: Option<Claim>) {
        replaced_extension(rel, "scss", "css")
    }
}

/// Renders `x.tmpl.md` to `x.md` with the generated import map offered as the `importmap`
/// env var. `_`-prefixed files are include-only partials.
#[derive(Debug, PartialEq, Eq)]
pub struct MdTmplStep;

/// The target of a typed markdown template. A bare `.tmpl.md` has no stem, and so nothing to
/// name the target.
pub open spec fn tmpl_target(rel: Seq<char>) -> Option<Seq<char>> {
    match name_of(rel) {
        Some(name) => match tmpl_stem(name) {
            Some(stem) => if stem.len() == 0 || "_"@.is_prefix_of(name) {
                None
            } else {
                Some(refiled(rel, stem + ".md"@))
            },
            None => None,
        },
        None => None,
    }
}

impl Preflight for MdTmplStep {
    open spec fn called(&self) -> Seq<char> {
        "md-tmpl template"@
    }

    open spec fn ranked(&self) -> Rank {
        Rank::MdTmpl
    }

    open spec fn claims(&self, rel: Seq<char>) -> Option<(Seq<char>, u8)> {
        plain(tmpl_target(rel))
    }

    fn name(&self) -> (r: &'static str) {
        "md-tmpl template"
    }

    fn rank(&self) -> (r: Rank) {
        Rank::MdTmpl
    }

    fn claim(&self, rel: &str) -> (r: Option<Claim>) {
        let name = match path::file_name(rel) {
            Some(name) => name,
            None => {
                return None;
            },
        };
        match template_stem(name.as_str()) {
            Some(stem) => {
                if stem.as_str().is_empty() || text::starts_with(name.as_str(), "_") {
                    None
                } else {
                    let fresh = stem.concat(".md");
                    Some(
                        Claim {
                            out_rel: path::with_file_name(rel, fresh.as_str()),
                            tiebreak: 0,
                        },
                    )
                }
            },
            None => None,
        }
    }
}

/// One step of the pipeline.
#[derive(Debug, PartialEq, Eq)]
pub enum BuildStep {
    Tera(TeraStep),
    MdTmpl(MdTmplStep),
    Static(StaticStep),
    TypeScript(TypeScriptStep),
    Scss(ScssStep),
}

impl Preflight for BuildStep {
    open spec fn called(&self) -> Seq<char> {
        match self {
            BuildStep::Tera(step) => step.called(),
            BuildStep::MdTmpl(step) => step.called(),
            BuildStep::Static(step) => step.called(),
            BuildStep::TypeScript(step) => step.called(),
            BuildStep::Scss(step) => step.called(),
        }
    }

    open spec fn ranked(&self) -> Rank {
        match self {
            BuildStep::Tera(step) => step.ranked(),
            BuildStep::MdTmpl(step) => step.ranked(),
            BuildStep::Static(step) => step.ranked(),
            BuildStep::TypeScript(step) => step.ranked(),
            BuildStep::Scss(step) => step.ranked(),
        }
    }

    open spec fn claims(&self, rel: Seq<char>) -> Option<(Seq<char>, u8)> {
        match self {
            BuildStep::Tera(step) => step.claims(rel),
            BuildStep::MdTmpl(step) => step.claims(rel),
            BuildStep::Static(step) => step.claims(rel),
            BuildStep::TypeScript(step) => step.claims(rel),
            BuildStep::Scss(step) => step.claims(rel),
        }
    }

    fn name(&self) -> (r: &'static str) {
        match self {
            BuildStep::Tera(step) => step.name(),
            BuildStep::MdTmpl(step) => step.name(),
            BuildStep::Static(step) => step.name(),
            BuildStep::TypeScript(step) => step.name(),
            BuildStep::Scss(step) => step.name(),
        }
    }

    fn rank(&self) -> (r: Rank) {
        match self {
            BuildStep::Tera(step) => step.rank(),
            BuildStep::MdTmpl(step) => step.rank(),
            BuildStep::Static(step) => step.rank(),
            BuildStep::TypeScript(step) => step.rank(),
            BuildStep::Scss(step) => step.rank(),
        }
    }

    fn claim(&self, rel: &str) -> (r: Option<Claim>) {
        match self {
            BuildStep::Tera(step) => step.claim(rel),
            BuildStep::MdTmpl(step) => step.claim(rel),
            BuildStep::Static(step) => step.claim(rel),
            BuildStep::TypeScript(step) => step.claim(rel),
            BuildStep::Scss(step) => step.claim(rel),
        }
    }
}

/// A step, as the contracts see it.
pub enum Stage {
    Tera,
    MdTmpl,
    Static(Rules),
    TypeScript,
    Scss,
}

impl View for BuildStep {
    type V = Stage;

    open spec fn view(&self) -> Stage {
        match self {
            BuildStep::Tera(_) => Stage::Tera,
            BuildStep::MdTmpl(_) => Stage::MdTmpl,
            BuildStep::Static(step) => Stage::Static(step.reject@),
            BuildStep::TypeScript(_) => Stage::TypeScript,
            BuildStep::Scss(_) => Stage::Scss,
        }
    }
}

/// The contents of a list of steps.
pub open spec fn stages(steps: Seq<BuildStep>) -> Seq<Stage> {
    Seq::new(steps.len(), |i: int| steps[i]@)
}

/// A step when it is on.
pub open spec fn when(on: bool, stage: Stage) -> Seq<Stage> {
    if on {
        seq![stage]
    } else {
        Seq::empty()
    }
}

/// The steps of a build: compiled-in features and toggles both. The static step always runs.
pub open spec fn step_list(processors: Processors, features: Features) -> Seq<Stage> {
    when(features.tera && processors.tera, Stage::Tera) + when(features.md_tmpl, Stage::MdTmpl)
        + seq![Stage::Static(processors.reject@)] + when(
        features.typescript && processors.typescript,
        Stage::TypeScript,
    ) + when(features.scss && processors.scss, Stage::Scss)
}

/// The enabled steps: compiled-in features and toggles both, the one place that variance
/// lives. The static step always runs.
pub fn enabled_steps(processors: &Processors, features: &Features) -> (r: Vec<BuildStep>)
    ensures
        stages(r@) == step_list(*processors, *features),
{
    let mut steps: Vec<BuildStep> = Vec::new();
    if features.tera && processors.tera {
        steps.push(BuildStep::Tera(TeraStep));
    }
    if features.md_tmpl {
        steps.push(BuildStep::MdTmpl(MdTmplStep));
    }
    steps.push(BuildStep::Static(StaticStep { reject: processors.reject.clone() }));
    if features.typescript && processors.typescript {
        steps.push(BuildStep::TypeScript(TypeScriptStep));
    }
    if features.scss && processors.scss {
        steps.push(BuildStep::Scss(ScssStep));
    }
    assert(stages(steps@) =~= step_list(*processors, *features));
    steps
}

proof fn lemma_lowered_name(stem: Seq<char>, ext: Seq<char>)
    ensures
        lowered(stem + "."@ + ext) == lowered(stem) + "."@ + lowered(ext),
        "_"@.is_prefix_of(stem + "."@ + ext) == (stem.len() > 0 && stem[0] == '_'),
{
    reveal_strlit(".");
    reveal_strlit("_");
    let name = stem + "."@ + ext;
    text::law_case(name);
    text::law_case(stem);
    text::law_case(ext);
    assert forall|i: int| 0 <= i < name.len() implies lowered(name)[i] == (lowered(stem) + "."@
        + lowered(ext))[i] by {
        if i < stem.len() {
            assert(name[i] == stem[i]);
        } else if i > stem.len() {
            assert(name[i] == ext[i - stem.len() - 1]);
        }
    }
    assert(lowered(name) =~= lowered(stem) + "."@ + lowered(ext));
    assert(name.subrange(0, 1)[0] == name[0]);
    if name[0] == '_' {
        assert(name.subrange(0, 1) =~= "_"@);
    }
}

/// TypeScript, in any case, becomes JavaScript under its own stem: `x.ts` before `x.tsx` before
/// `x.mts`. A declaration file becomes nothing, and nothing else is taken for TypeScript.
pub proof fn law_typescript_becomes_javascript(rel: Seq<char>, stem: Seq<char>, ext: Seq<char>)
    requires
        name_of(rel) == Some(stem + "."@ + ext),
        stem.len() > 0,
        !ext.contains('.'),
    ensures
        ({
            let claim = TypeScriptStep.claims(rel);
            let low = lowered(ext);
            let declares = ".d"@.is_suffix_of(lowered(stem));
            &&& low == "ts"@ && !declares ==> claim == Some((retyped(rel, "js"@), 0u8))
            &&& low == "tsx"@ ==> claim == Some((retyped(rel, "js"@), 1u8))
            &&& low == "mts"@ && !declares ==> claim == Some((retyped(rel, "js"@), 2u8))
            &&& (low == "ts"@ || low == "mts"@) && declares ==> claim is None
            &&& low != "ts"@ && low != "tsx"@ && low != "mts"@ ==> claim is None
        }),
{
    reveal_strlit("ts");
    reveal_strlit("tsx");
    reveal_strlit("mts");
    reveal_strlit(".");
    reveal_strlit(".d");
    reveal_strlit(".d.ts");
    reveal_strlit(".d.mts");
    reveal_strlit(".d.cts");
    reveal_strlit("js");
    path::law_extension(stem, ext, "js"@);
    lemma_lowered_name(stem, ext);
    let low = lowered(ext);
    let name = lowered(stem) + "."@ + low;
    let n = stem.len() as int;
    assert(lowered(stem + "."@ + ext) == name);
    text::lemma_suffix_chars(lowered(stem), ".d"@);
    text::lemma_suffix_chars(name, ".d.ts"@);
    text::lemma_suffix_chars(name, ".d.mts"@);
    text::lemma_suffix_chars(name, ".d.cts"@);
    assert(".d"@[0] == '.' && ".d"@[1] == 'd');
    assert(".d.ts"@[0] == '.' && ".d.ts"@[1] == 'd' && ".d.ts"@[2] == '.' && ".d.ts"@[3] == 't'
        && ".d.ts"@[4] == 's');
    assert(".d.mts"@[0] == '.' && ".d.mts"@[1] == 'd' && ".d.mts"@[2] == '.' && ".d.mts"@[3] == 'm'
        && ".d.mts"@[4] == 't' && ".d.mts"@[5] == 's');
    assert(".d.cts"@[3] == 'c');
    assert("ts"@[0] == 't' && "tsx"@[2] == 'x' && "mts"@[0] == 'm');
    text::law_case(stem);
    text::law_case(ext);
    if low == "ts"@ {
        assert(name.len() == stem.len() + 3);
        assert(name[stem.len() as int] == '.');
        assert(name[n + 1] == 't' && name[n + 2] == 's');
        if stem.len() >= 2 {
            assert(name[stem.len() - 1] == lowered(stem)[stem.len() - 1]);
            assert(name[stem.len() - 2] == lowered(stem)[stem.len() - 2]);
        }
        assert(declaration(name) == ".d"@.is_suffix_of(lowered(stem)));
    }
    if low == "tsx"@ {
        assert(name.len() == stem.len() + 4);
        assert(name[n + 3] == 'x');
        assert(!declaration(name));
    }
    if low == "mts"@ {
        assert(name.len() == stem.len() + 4);
        assert(name[stem.len() as int] == '.');
        assert(name[n + 1] == 'm' && name[n + 2] == 't' && name[n + 3]
            == 's');
        if stem.len() >= 2 {
            assert(name[stem.len() - 1] == lowered(stem)[stem.len() - 1]);
            assert(name[stem.len() - 2] == lowered(stem)[stem.len() - 2]);
        }
        assert(declaration(name) == ".d"@.is_suffix_of(lowered(stem)));
    }
}

/// SCSS, in any case, becomes CSS under its own stem, and a template loses its `.tera`; a file whose
/// name begins with `_` is a partial and becomes nothing, and nothing else is taken for either.
pub proof fn law_scss_and_templates(rel: Seq<char>, stem: Seq<char>, ext: Seq<char>)
    requires
        name_of(rel) == Some(stem + "."@ + ext),
        stem.len() > 0,
        !ext.contains('.'),
    ensures
        lowered(ext) == "scss"@ && stem[0] != '_' ==> ScssStep.claims(rel) == Some(
            (retyped(rel, "css"@), 0u8),
        ),
        lowered(ext) != "scss"@ || stem[0] == '_' ==> ScssStep.claims(rel) is None,
        lowered(ext) == "tera"@ && stem[0] != '_' ==> TeraStep.claims(rel) == Some(
            (retyped(rel, Seq::empty()), 0u8),
        ),
        lowered(ext) != "tera"@ || stem[0] == '_' ==> TeraStep.claims(rel) is None,
{
    reveal_strlit("css");
    path::law_extension(stem, ext, "css"@);
    lemma_lowered_name(stem, ext);
}

proof fn lemma_tmpl_split(name: Seq<char>, stem: Seq<char>, suffix: Seq<char>)
    requires
        name == stem + suffix,
        suffix.len() == TMPL_MD_SUFFIX@.len(),
    ensures
        name.skip(name.len() - TMPL_MD_SUFFIX@.len()) == suffix,
        name.take(name.len() - TMPL_MD_SUFFIX@.len()) == stem,
{
    assert(name.skip(name.len() - TMPL_MD_SUFFIX@.len()) =~= suffix);
    assert(name.take(name.len() - TMPL_MD_SUFFIX@.len()) =~= stem);
}

/// `x.tmpl.md`, its suffix in any case, becomes `x.md` beside it; a partial and a bare `.tmpl.md`
/// become nothing.
pub proof fn law_typed_markdown(rel: Seq<char>, stem: Seq<char>, suffix: Seq<char>)
    requires
        name_of(rel) == Some(stem + suffix),
        lowered(suffix) == ".tmpl.md"@,
    ensures
        stem.len() > 0 && stem[0] != '_' ==> MdTmplStep.claims(rel) == Some(
            (refiled(rel, stem + ".md"@), 0u8),
        ),
        stem.len() == 0 || stem[0] == '_' ==> MdTmplStep.claims(rel) is None,
{
    reveal_strlit("_");
    reveal_strlit(".tmpl.md");
    text::law_case(suffix);
    let name = stem + suffix;
    lemma_tmpl_split(name, stem, suffix);
    if stem.len() > 0 {
        assert(name.subrange(0, 1)[0] == stem[0]);
        if stem[0] == '_' {
            assert(name.subrange(0, 1) =~= "_"@);
        }
    }
}

/// A file is copied byte for byte under its own path when no step takes it by its name, it is no
/// partial, and the reject rules let it; and only then.
pub proof fn law_everything_else_is_copied(
    step: StaticStep,
    rel: Seq<char>,
    stem: Seq<char>,
    ext: Seq<char>,
)
    requires
        name_of(rel) == Some(stem + "."@ + ext),
        stem.len() > 0,
        !ext.contains('.'),
    ensures
        ({
            let low = lowered(ext);
            let source = low == "ts"@ || low == "tsx"@ || low == "mts"@ || low == "scss"@ || low
                == "tera"@;
            let markdown = ".tmpl.md"@.is_suffix_of(lowered(stem + "."@ + ext));
            let plain = !source && !markdown && stem[0] != '_' && !refuses_path(step.reject@, rel);
            &&& plain ==> step.claims(rel) == Some((rel, 0u8))
            &&& !plain ==> step.claims(rel) is None
        }),
{
    reveal_strlit("css");
    path::law_extension(stem, ext, "css"@);
    lemma_lowered_name(stem, ext);
    let name = stem + "."@ + ext;
    let split = name.len() - TMPL_MD_SUFFIX@.len();
    text::law_case(name);
    if split >= 0 {
        text::law_case(name.skip(split));
        assert(lowered(name.skip(split)) =~= lowered(name).skip(split)) by {
            assert forall|i: int| 0 <= i < name.len() - split implies #[trigger] lowered(
                name.skip(split),
            )[i] == lowered(name).skip(split)[i] by {
                assert(name.skip(split)[i] == name[split + i]);
            }
        }
    }
    text::lemma_suffix_chars(lowered(name), TMPL_MD_SUFFIX@);
    if split >= 0 {
        assert(TMPL_MD_SUFFIX@.is_suffix_of(lowered(name)) <==> lowered(name).skip(split)
            == TMPL_MD_SUFFIX@) by {
            if lowered(name).skip(split) == TMPL_MD_SUFFIX@ {
                assert forall|k: int| 0 <= k < TMPL_MD_SUFFIX@.len() implies lowered(
                    name,
                )[lowered(name).len() - TMPL_MD_SUFFIX@.len() + k] == #[trigger] TMPL_MD_SUFFIX@[k] by {
                    assert(lowered(name).skip(split)[k] == TMPL_MD_SUFFIX@[k]);
                }
            }
            if TMPL_MD_SUFFIX@.is_suffix_of(lowered(name)) {
                assert(lowered(name).skip(split) =~= TMPL_MD_SUFFIX@);
            }
        }
    }
}

/// What another step takes is not copied as well.
pub proof fn law_sources_are_not_copied(step: StaticStep, rel: Seq<char>)
    ensures
        TeraStep.claims(rel) is Some || MdTmplStep.claims(rel) is Some || TypeScriptStep.claims(rel)
            is Some || ScssStep.claims(rel) is Some ==> step.claims(rel) is None,
        refuses_path(step.reject@, rel) ==> step.claims(rel) is None,
{
}

/// Within a root a template wins over a typed markdown template, that over a literal file, and
/// that over what a transform makes.
pub proof fn law_ranks_in_order(step: StaticStep)
    ensures
        rank_place(TeraStep.ranked()) < rank_place(MdTmplStep.ranked()),
        rank_place(MdTmplStep.ranked()) < rank_place(step.ranked()),
        rank_place(step.ranked()) < rank_place(TypeScriptStep.ranked()),
        rank_place(ScssStep.ranked()) == rank_place(TypeScriptStep.ranked()),
{
}

/// A step runs when its feature is compiled in and its toggle is on; typed markdown has no toggle,
/// and the static step always runs, with the build's own reject rules.
pub proof fn law_enabled_steps(processors: Processors, features: Features, rules: Rules)
    ensures
        ({
            let list = step_list(processors, features);
            &&& list.contains(Stage::Tera) <==> features.tera && processors.tera
            &&& list.contains(Stage::MdTmpl) <==> features.md_tmpl
            &&& list.contains(Stage::Static(rules)) <==> rules == processors.reject@
            &&& list.contains(Stage::TypeScript) <==> features.typescript && processors.typescript
            &&& list.contains(Stage::Scss) <==> features.scss && processors.scss
            &&& forall|i: int, j: int| 0 <= i < j < list.len() ==> #[trigger] list[i] != #[trigger] list[j]
        }),
{
    let a = when(features.tera && processors.tera, Stage::Tera);
    let b = when(features.md_tmpl, Stage::MdTmpl);
    let c = seq![Stage::Static(processors.reject@)];
    let d = when(features.typescript && processors.typescript, Stage::TypeScript);
    let e = when(features.scss && processors.scss, Stage::Scss);
    let list = step_list(processors, features);
    assert(list == a + b + c + d + e);
    let n = a.len() as int;
    let m = n + b.len() as int;
    assert(list[m] == Stage::Static(processors.reject@));
    if a.len() > 0 {
        assert(list[0] == Stage::Tera);
    }
    if b.len() > 0 {
        assert(list[n] == Stage::MdTmpl);
    }
    if d.len() > 0 {
        assert(list[m + 1] == Stage::TypeScript);
    }
    if e.len() > 0 {
        assert(list[m + 1 + d.len()] == Stage::Scss);
    }
}

} // verus!
