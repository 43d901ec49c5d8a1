//! [`Build`]: a fluent builder for a static build.
//!
//! The owned, chainable way to [`BuildOptions`]: accumulate roots, vendor specs, the output
//! dir and processor/output toggles, then [`run`](Build::run).

use vstd::prelude::*;

use crate::build::options::{
    default_processors, BuildOptions, Chosen, Decorators, Output, Processors, DEFAULT_HTML,
    DEFAULT_MOUNT,
};
use crate::error::{Error, Failure};
use crate::reject::{added, preset_rules, Presets, Reject};
use crate::text;
use crate::text::{opt_text, texts};
use crate::vendor::select;
use crate::vendor::select::{first_named, gathered, Manifest};
use crate::vendor::spec::{lemma_wanted_push, positional, wanted, PackageSpec, Wanted};

verus! {

/// Fluent builder for a static build. Defaults mirror the toolchain's (TypeScript, SCSS, Tera
/// on; minify/gzip off), `mount` is `/web_modules`, and `out` is required.
#[derive(Debug, PartialEq, Eq)]
pub struct Build {
    pub roots: Vec<String>,
    pub out: Option<String>,
    pub mount: Option<String>,
    pub html: Option<String>,
    pub template: Option<String>,
    pub specs: Vec<PackageSpec>,
    pub manifests: Vec<String>,
    pub processors: Processors,
    pub output: Output,
}

/// What a builder has accumulated, as the contracts see it.
#[verifier::ext_equal]
pub struct Asked {
    pub roots: Seq<Seq<char>>,
    pub out: Option<Seq<char>>,
    pub mount: Option<Seq<char>>,
    pub html: Option<Seq<char>>,
    pub template: Option<Seq<char>>,
    pub specs: Seq<Wanted>,
    pub manifests: Seq<Seq<char>>,
    pub processors: Chosen,
    pub output: Output,
}

impl View for Build {
    type V = Asked;

    open spec fn view(&self) -> Asked {
        Asked {
            roots: texts(self.roots@),
            out: opt_text(self.out),
            mount: opt_text(self.mount),
            html: opt_text(self.html),
            template: opt_text(self.template),
            specs: wanted(self.specs@),
            manifests: texts(self.manifests@),
            processors: self.processors@,
            output: self.output,
        }
    }
}

/// A build's inputs, as the contracts see them.
#[verifier::ext_equal]
pub struct Request {
    pub specs: Seq<Wanted>,
    pub roots: Seq<Seq<char>>,
    pub out: Seq<char>,
    pub mount: Seq<char>,
    pub html: Seq<char>,
    pub template: Option<Seq<char>>,
    pub processors: Chosen,
    pub output: Output,
}

impl View for BuildOptions {
    type V = Request;

    open spec fn view(&self) -> Request {
        Request {
            specs: wanted(self.specs@),
            roots: texts(self.roots@),
            out: self.out@,
            mount: self.mount@,
            html: self.html@,
            template: opt_text(self.template),
            processors: self.processors@,
            output: self.output,
        }
    }
}

/// Nothing asked for yet.
pub open spec fn unasked() -> Asked {
    Asked {
        roots: Seq::empty(),
        out: None,
        mount: None,
        html: None,
        template: None,
        specs: Seq::empty(),
        manifests: Seq::empty(),
        processors: default_processors(),
        output: Output { minify: false, gzip: false, minify_web_modules: true, comments: None },
    }
}

/// What a builder has accumulated, with minification switched on or off.
pub open spec fn minified(asked: Asked, on: bool) -> Asked {
    Asked { output: Output { minify: on, ..asked.output }, ..asked }
}

/// What a builder has accumulated, with `.gz` sidecars switched on or off.
pub open spec fn gzipped(asked: Asked, on: bool) -> Asked {
    Asked { output: Output { gzip: on, ..asked.output }, ..asked }
}

/// What a builder has accumulated, with the production preset for its output.
pub open spec fn preset(asked: Asked) -> Asked {
    Asked {
        output: Output { minify: true, gzip: true, minify_web_modules: true, comments: None },
        ..asked
    }
}

/// The output of a builder that its own methods made: they set minification and sidecars, and
/// nothing else of it.
pub open spec fn own_output(asked: Asked) -> bool {
    asked.output.minify_web_modules && asked.output.comments is None
}

/// A new builder has an output that its own methods made, and each method that sets something of
/// it leaves such a one.
pub proof fn law_output_stays_own(asked: Asked, on: bool)
    ensures
        own_output(unasked()),
        own_output(asked) ==> own_output(minified(asked, on)),
        own_output(asked) ==> own_output(gzipped(asked, on)),
        own_output(preset(asked)),
{
}

/// The production preset is minification and sidecars, both on, and leaves all else as it was.
pub proof fn law_preset_is_minified_and_gzipped(asked: Asked)
    requires
        own_output(asked),
    ensures
        preset(asked) == gzipped(minified(asked, true), true),
        preset(asked).output.minify,
        preset(asked).output.gzip,
        preset(asked) == (Asked { output: preset(asked).output, ..asked }),
{
}

/// A text, or a default.
pub open spec fn text_or(value: Option<Seq<char>>, default: Seq<char>) -> Seq<char> {
    match value {
        Some(value) => value,
        None => default,
    }
}

/// What a builder asks for, once the manifests it names have been read.
pub open spec fn requested(asked: Asked, manifests: Seq<Manifest>) -> Result<Request, Failure> {
    match asked.out {
        None => Err(
            Failure::Build("Build::out is required — set the output directory with .out(…)"@),
        ),
        Some(out) => match gathered(asked.specs, manifests) {
            Ok(list) => Ok(
                Request {
                    specs: first_named(list),
                    roots: asked.roots,
                    out,
                    mount: text_or(asked.mount, DEFAULT_MOUNT@),
                    html: text_or(asked.html, DEFAULT_HTML@),
                    template: asked.template,
                    processors: asked.processors,
                    output: asked.output,
                },
            ),
            Err(e) => Err(e),
        },
    }
}

/// The manifests that were read are those that a builder names.
pub open spec fn read_from(paths: Seq<Seq<char>>, manifests: Seq<Manifest>) -> bool {
    paths == Seq::new(manifests.len(), |i: int| manifests[i].path@)
}

fn append_texts(list: &mut Vec<String>, more: &Vec<String>)
    ensures
        texts(final(list)@) == texts(old(list)@) + texts(more@),
{
    let ghost before = texts(list@);
    let mut i: usize = 0;
    assert(before + texts(more@).take(0) =~= before);
    while i < more.len()
        invariant
            i <= more@.len(),
            texts(list@) == before + texts(more@).take(i as int),
        decreases more@.len() - i,
    {
        let one = more[i].clone();
        proof {
            text::lemma_texts_push(list@, one);
            assert((before + texts(more@).take(i as int)).push(one@) =~= before + texts(more@).take(
                i + 1,
            ));
        }
        list.push(one);
        i += 1;
    }
    assert(texts(more@).take(more@.len() as int) =~= texts(more@));
}

fn owned_or(value: Option<String>, default: &str) -> (r: String)
    ensures
        r@ == text_or(opt_text(value), default@),
{
    match value {
        Some(value) => value,
        None => default.to_owned(),
    }
}

impl Build {
    /// A new builder with no roots and the default processor/output set. Set at least
    /// [`out`](Self::out) before [`run`](Self::run).
    pub fn new() -> (r: Self)
        ensures
            r@ == unasked(),
    {
        let r = Build {
            roots: Vec::new(),
            out: None,
            mount: None,
            html: None,
            template: None,
            specs: Vec::new(),
            manifests: Vec::new(),
            processors: Processors::default(),
            output: Output::default(),
        };
        assert(r@ =~= unasked());
        r
    }

    /// Add a source root. Roots are merged first-match-wins (the first root added wins a
    /// path conflict). Repeatable.
    pub fn root(self, root: &str) -> (r: Self)
        ensures
            r@ == (Asked { roots: self@.roots.push(root@), ..self@ }),
    {
        let mut next = self;
        let one = root.to_owned();
        proof {
            text::lemma_texts_push(next.roots@, one);
        }
        next.roots.push(one);
        next
    }

    /// Add several source roots at once (see [`root`](Self::root)). Repeatable.
    pub fn roots(self, roots: &Vec<String>) -> (r: Self)
        ensures
            r@ == (Asked { roots: self@.roots + texts(roots@), ..self@ }),
    {
        let mut next = self;
        append_texts(&mut next.roots, roots);
        next
    }

    /// Enable or disable the TypeScript / modern-JS transform (default on).
    pub fn typescript(self, on: bool) -> (r: Self)
        ensures
            r@ == (Asked { processors: Chosen { typescript: on, ..self@.processors }, ..self@ }),
    {
        let mut next = self;
        next.processors.typescript = on;
        next
    }

    /// Enable or disable SCSS compilation (default on).
    pub fn scss(self, on: bool) -> (r: Self)
        ensures
            r@ == (Asked { processors: Chosen { scss: on, ..self@.processors }, ..self@ }),
    {
        let mut next = self;
        next.processors.scss = on;
        next
    }

    /// Enable or disable `*.tera` rendering (default on).
    pub fn tera(self, on: bool) -> (r: Self)
        ensures
            r@ == (Asked { processors: Chosen { tera: on, ..self@.processors }, ..self@ }),
    {
        let mut next = self;
        next.processors.tera = on;
        next
    }

    /// Decorator lowering for the TypeScript transform.
    pub fn decorators(self, decorators: Decorators) -> (r: Self)
        ensures
            r@ == (Asked {
                processors: Chosen { ts_decorators: decorators, ..self@.processors },
                ..self@
            }),
    {
        let mut next = self;
        next.processors.ts_decorators = decorators;
        next
    }

    /// Add an extra SCSS load path, on top of the source roots. Repeatable.
    pub fn scss_load_path(self, path: &str) -> (r: Self)
        ensures
            r@ == (Asked {
                processors: Chosen {
                    extra_scss_load_paths: self@.processors.extra_scss_load_paths.push(path@),
                    ..self@.processors
                },
                ..self@
            }),
    {
        let mut next = self;
        let one = path.to_owned();
        proof {
            text::lemma_texts_push(next.processors.extra_scss_load_paths@, one);
        }
        next.processors.extra_scss_load_paths.push(one);
        next
    }

    /// Add several extra SCSS load paths at once. Repeatable.
    pub fn scss_load_paths(self, paths: &Vec<String>) -> (r: Self)
        ensures
            r@ == (Asked {
                processors: Chosen {
                    extra_scss_load_paths: self@.processors.extra_scss_load_paths + texts(paths@),
                    ..self@.processors
                },
                ..self@
            }),
    {
        let mut next = self;
        append_texts(&mut next.processors.extra_scss_load_paths, paths);
        next
    }

    /// Select which reject [`Presets`] keep paths out of the output and out of serving.
    /// Replaces the current selection; add individual patterns on top with
    /// [`reject`](Self::reject).
    pub fn reject_preset(self, presets: Presets) -> (r: Self)
        ensures
            r@ == (Asked {
                processors: Chosen { reject: preset_rules(presets), ..self@.processors },
                ..self@
            }),
    {
        let mut next = self;
        next.processors.reject = Reject::from(presets);
        next
    }

    /// Reject one extra pattern (`*.ext`, `name/`, or an exact `name`) on top of the selected
    /// presets. Case-insensitive. Repeatable.
    pub fn reject(self, pattern: &str) -> (r: Self)
        ensures
            r@ == (Asked {
                processors: Chosen {
                    reject: added(self@.processors.reject, pattern@),
                    ..self@.processors
                },
                ..self@
            }),
    {
        let mut next = self;
        next.processors.reject.add(pattern);
        next
    }

    /// The output directory (e.g. `dist`). **Required**: [`run`](Self::run) errors if unset.
    pub fn out(self, out: &str) -> (r: Self)
        ensures
            r@ == (Asked { out: Some(out@), ..self@ }),
    {
        let mut next = self;
        next.out = Some(out.to_owned());
        next
    }

    /// URL prefix the vendored modules are served at (default `/web_modules`).
    pub fn mount(self, mount: &str) -> (r: Self)
        ensures
            r@ == (Asked { mount: Some(mount@), ..self@ }),
    {
        let mut next = self;
        next.mount = Some(mount.to_owned());
        next
    }

    /// Fallback inline `index.html` (used only when the tree has no `index.html`);
    /// `{importmap}` is replaced with the import-map element. Ignored when
    /// [`template`](Self::template) is set.
    pub fn html(self, html: &str) -> (r: Self)
        ensures
            r@ == (Asked { html: Some(html@), ..self@ }),
    {
        let mut next = self;
        next.html = Some(html.to_owned());
        next
    }

    /// Fallback Tera template file for `index.html` (rendered with an `importmap` variable),
    /// used instead of [`html`](Self::html).
    pub fn template(self, template: &str) -> (r: Self)
        ensures
            r@ == (Asked { template: Some(template@), ..self@ }),
    {
        let mut next = self;
        next.template = Some(template.to_owned());
        next
    }

    /// Vendor an npm package, as `name` or `name@range` (e.g. `lit@^3`). Repeatable.
    pub fn vendor(self, spec: &str) -> (r: Self)
        ensures
            r@ == (Asked { specs: self@.specs.push(positional(spec@)), ..self@ }),
    {
        let mut next = self;
        let one = PackageSpec::parse(spec);
        proof {
            lemma_wanted_push(next.specs@, one);
        }
        next.specs.push(one);
        next
    }

    /// Vendor pre-built [`PackageSpec`]s (for specs that need more than `name@range`, or an
    /// already-resolved set). Repeatable.
    pub fn vendor_specs(self, specs: Vec<PackageSpec>) -> (r: Self)
        ensures
            r@ == (Asked { specs: self@.specs + wanted(specs@), ..self@ }),
    {
        let mut next = self;
        let ghost before = next.specs@;
        let ghost given = specs@;
        let mut specs = specs;
        next.specs.append(&mut specs);
        assert(wanted(next.specs@) =~= wanted(before) + wanted(given));
        next
    }

    /// Also vendor the `dependencies` of this `package.json`, read for [`run`](Self::run).
    /// Repeatable.
    pub fn manifest(self, manifest: &str) -> (r: Self)
        ensures
            r@ == (Asked { manifests: self@.manifests.push(manifest@), ..self@ }),
    {
        let mut next = self;
        let one = manifest.to_owned();
        proof {
            text::lemma_texts_push(next.manifests@, one);
        }
        next.manifests.push(one);
        next
    }

    /// Minify the emitted JS (default off).
    pub fn minify(self, on: bool) -> (r: Self)
        ensures
            r@ == minified(self@, on),
    {
        let mut next = self;
        next.output.minify = on;
        next
    }

    /// Write `<file>.gz` sidecars for servable assets (default off).
    pub fn gzip(self, on: bool) -> (r: Self)
        ensures
            r@ == gzipped(self@, on),
    {
        let mut next = self;
        next.output.gzip = on;
        next
    }

    /// The production preset: minify **and** gzip (equivalent to `.minify(true).gzip(true)`).
    pub fn optimized(self) -> (r: Self)
        ensures
            r@ == preset(self@),
            own_output(self@) ==> r@ == gzipped(minified(self@, true), true),
    {
        let mut next = self;
        next.output = Output::optimized();
        next
    }

    /// Resolve vendor specs (explicit ones and each manifest's dependencies, deduped by name,
    /// first wins) and give the build's inputs. `manifests` are the files that the builder
    /// names, in order. Errors if [`out`](Self::out) was never set.
    pub fn run(self, manifests: &Vec<Manifest>) -> (r: Result<BuildOptions, Error>)
        requires
            read_from(self@.manifests, manifests@),
        ensures
            crate::error::seen(r) == requested(self@, manifests@),
    {
        let out = match self.out {
            Some(out) => out,
            None => {
                return Err(
                    Error::Build(
                        "Build::out is required — set the output directory with .out(…)".to_owned(),
                    ),
                );
            },
        };
        let specs = match select::gather(self.specs, manifests) {
            Ok(list) => select::dedupe(list),
            Err(e) => {
                return Err(e);
            },
        };
        Ok(
            BuildOptions {
                specs,
                roots: self.roots,
                out,
                mount: owned_or(self.mount, DEFAULT_MOUNT),
                html: owned_or(self.html, DEFAULT_HTML),
                template: self.template,
                processors: self.processors,
                output: self.output,
            },
        )
    }
}

impl Default for Build {
    fn default() -> (r: Self)
        ensures
            r@ == unasked(),
    {
        Build::new()
    }
}

/// A build needs an output directory; given one it is what the builder accumulated, with the default
/// mount and the default page where none was set, and each package once, the first of its name.
pub proof fn law_what_is_requested(asked: Asked, manifests: Seq<Manifest>)
    ensures
        asked.out is None ==> requested(asked, manifests) is Err,
        asked.out is Some ==> (requested(asked, manifests) is Ok <==> gathered(asked.specs, manifests)
            is Ok),
        requested(asked, manifests) matches Ok(request) ==> {
            &&& asked.out == Some(request.out)
            &&& request.roots == asked.roots
            &&& asked.mount matches Some(mount) ==> request.mount == mount
            &&& asked.mount is None ==> request.mount == "/web_modules"@
            &&& asked.html matches Some(html) ==> request.html == html
            &&& request.template == asked.template
            &&& request.processors == asked.processors
            &&& request.output == asked.output
            &&& gathered(asked.specs, manifests) matches Ok(list) && request.specs == first_named(
                list,
            )
        },
{
}

/// Switching one thing of the output leaves all else as it was.
pub proof fn law_switches(asked: Asked, on: bool)
    ensures
        minified(asked, on).output.minify == on,
        minified(asked, on).output.gzip == asked.output.gzip,
        minified(asked, on) == (Asked { output: minified(asked, on).output, ..asked }),
        gzipped(asked, on).output.gzip == on,
        gzipped(asked, on).output.minify == asked.output.minify,
        gzipped(asked, on) == (Asked { output: gzipped(asked, on).output, ..asked }),
{
}

/// A new builder asks for nothing: no roots, no packages, no output, and neither minified nor
/// compressed.
pub proof fn law_new_builder_asks_for_nothing()
    ensures
        unasked().roots.len() == 0 && unasked().specs.len() == 0 && unasked().manifests.len() == 0,
        unasked().out is None && unasked().mount is None && unasked().html is None
            && unasked().template is None,
        !unasked().output.minify && !unasked().output.gzip,
        unasked().processors == default_processors(),
{
}

} // verus!
