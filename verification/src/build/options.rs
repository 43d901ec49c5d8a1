//! What a build is asked to do: its inputs, which source processors run, and how the output
//! is optimized.

use vstd::prelude::*;

use crate::reject::{preset_rules, Presets, Reject, Rules};
use crate::symlinks::SymlinkMode;
use crate::text;
use crate::text::texts;
use crate::vendor::spec::PackageSpec;

verus! {

/// The default fallback `index.html`, used only when the source tree produces no
/// `index.html` of its own. The entry script is RELATIVE (`./app.js`) so the page also
/// loads under a subpath; the literal `{importmap}` is replaced with the generated
/// import-map `<script>`.
pub const DEFAULT_HTML: &'static str =
    "<!doctype html>{importmap}<script type=module src=./app.js></script>";

/// The default URL prefix of the vendored modules.
pub const DEFAULT_MOUNT: &'static str = "/web_modules";

/// How the TypeScript transform lowers decorators.
#[derive(Clone, Copy, Debug, PartialEq, Eq, Structural)]
pub enum Decorators {
    /// The legacy semantics that Lit's decorators are written for.
    Lit,
    /// The standard semantics.
    Standard,
}

impl Default for Decorators {
    fn default() -> (r: Self)
        ensures
            r == Decorators::Lit,
    {
        Decorators::Lit
    }
}

/// Comment policy for emitted JavaScript.
#[derive(Clone, Copy, Debug, PartialEq, Eq, Structural)]
#[non_exhaustive]
pub enum Comments {
    /// Keep every comment.
    Keep,
    /// Drop comments, but keep legal ones inline.
    Strip,
    /// Drop comments and collect the legal ones into a `.LEGAL.txt` sidecar.
    Collect,
    /// Drop every comment, legal ones too.
    Nothing,
}

/// Which parts of the toolchain are compiled in.
#[derive(Clone, Copy, Debug, PartialEq, Eq, Structural)]
pub struct Features {
    pub typescript: bool,
    pub scss: bool,
    pub tera: bool,
    pub md_tmpl: bool,
    pub compress: bool,
    pub bundle: bool,
}

/// Which source processors run, and their tuning: the static-build counterpart of the dev
/// server's processor set, so a build and the dev server stay in lock-step. A field has
/// effect only when its part of the toolchain is compiled in.
#[derive(Debug, PartialEq, Eq)]
#[non_exhaustive]
pub struct Processors {
    /// Transform TypeScript / modern JS to browser JS. Default on.
    pub typescript: bool,
    /// Compile SCSS to CSS. Default on.
    pub scss: bool,
    /// Render `*.tera` to their stripped targets. Default on.
    pub tera: bool,
    /// Decorator lowering for the TypeScript transform.
    pub ts_decorators: Decorators,
    /// Extra SCSS load paths, on top of the source roots and the output.
    pub extra_scss_load_paths: Vec<String>,
    /// Paths to keep out of the output and out of serving. Defaults to all presets.
    pub reject: Reject,
    /// What a symlink in a source tree means.
    pub symlinks: SymlinkMode,
    /// Allow duplicate output paths (default off): each contested path then keeps its
    /// highest-precedence source instead of failing the build.
    pub skip_duplicates: bool,
    /// Emit source maps for compiled JavaScript (default off).
    pub sourcemap: bool,
    /// Bundle the built tree per entry point (default off).
    pub bundle: bool,
    /// Bundle entry points, output-relative (empty means `app.js`).
    pub bundle_entries: Vec<String>,
}

/// A processor set, as the contracts see it.
#[verifier::ext_equal]
pub struct Chosen {
    pub typescript: bool,
    pub scss: bool,
    pub tera: bool,
    pub ts_decorators: Decorators,
    pub extra_scss_load_paths: Seq<Seq<char>>,
    pub reject: Rules,
    pub symlinks: SymlinkMode,
    pub skip_duplicates: bool,
    pub sourcemap: bool,
    pub bundle: bool,
    pub bundle_entries: Seq<Seq<char>>,
}

impl View for Processors {
    type V = Chosen;

    open spec fn view(&self) -> Chosen {
        Chosen {
            typescript: self.typescript,
            scss: self.scss,
            tera: self.tera,
            ts_decorators: self.ts_decorators,
            extra_scss_load_paths: texts(self.extra_scss_load_paths@),
            reject: self.reject@,
            symlinks: self.symlinks,
            skip_duplicates: self.skip_duplicates,
            sourcemap: self.sourcemap,
            bundle: self.bundle,
            bundle_entries: texts(self.bundle_entries@),
        }
    }
}

/// The default processor set: TypeScript, SCSS and Tera on, every reject preset, the safe
/// symlink mode, and nothing else.
pub open spec fn default_processors() -> Chosen {
    Chosen {
        typescript: true,
        scss: true,
        tera: true,
        ts_decorators: Decorators::Lit,
        extra_scss_load_paths: Seq::empty(),
        reject: preset_rules(Presets::ALL),
        symlinks: SymlinkMode::Follow,
        skip_duplicates: false,
        sourcemap: false,
        bundle: false,
        bundle_entries: Seq::empty(),
    }
}

impl Default for Processors {
    fn default() -> (r: Self)
        ensures
            r@ == default_processors(),
    {
        let r = Processors {
            typescript: true,
            scss: true,
            tera: true,
            ts_decorators: Decorators::Lit,
            extra_scss_load_paths: Vec::new(),
            reject: Reject::all(),
            symlinks: SymlinkMode::Follow,
            skip_duplicates: false,
            sourcemap: false,
            bundle: false,
            bundle_entries: Vec::new(),
        };
        assert(texts(r.extra_scss_load_paths@) =~= Seq::<Seq<char>>::empty());
        assert(texts(r.bundle_entries@) =~= Seq::<Seq<char>>::empty());
        r
    }
}

impl Clone for Processors {
    fn clone(&self) -> (r: Self)
        ensures
            r@ == self@,
    {
        Processors {
            typescript: self.typescript,
            scss: self.scss,
            tera: self.tera,
            ts_decorators: self.ts_decorators,
            extra_scss_load_paths: text::copy_texts(&self.extra_scss_load_paths),
            reject: self.reject.clone(),
            symlinks: self.symlinks,
            skip_duplicates: self.skip_duplicates,
            sourcemap: self.sourcemap,
            bundle: self.bundle,
            bundle_entries: text::copy_texts(&self.bundle_entries),
        }
    }
}

/// Output-optimization toggles. With `minify` on the whole tree minifies: compiled
/// TypeScript, copied and rendered JavaScript, `npm://` assets, and (unless
/// `minify_web_modules` opts out) the vendored tree.
#[derive(Clone, Copy, Debug, PartialEq, Eq, Structural)]
#[non_exhaustive]
pub struct Output {
    /// Minify the emitted JS.
    pub minify: bool,
    /// Write `<file>.gz` sidecars for servable assets.
    pub gzip: bool,
    /// With an active rewrite: also rewrite the vendored tree and `npm://` assets (default
    /// on). Off keeps npm content byte-identical to what the packages shipped.
    pub minify_web_modules: bool,
    /// Comment policy for emitted JS; unset, `minify` decides.
    pub comments: Option<Comments>,
}

/// How already-emitted JavaScript is rewritten.
#[derive(Clone, Copy, Debug, PartialEq, Eq, Structural)]
pub struct RewriteOptions {
    pub minify: bool,
    pub source_map: bool,
    pub comments: Comments,
}

/// The comment policy in effect: an explicit choice wins; otherwise minified output strips
/// comments and plain output keeps them.
pub open spec fn comment_policy(output: Output) -> Comments {
    match output.comments {
        Some(choice) => choice,
        None => if output.minify {
            Comments::Strip
        } else {
            Comments::Keep
        },
    }
}

/// Emitted JavaScript is rewritten: it minifies, or drops comments.
pub open spec fn rewrites(output: Output) -> bool {
    output.minify || comment_policy(output) != Comments::Keep
}

impl Default for Output {
    fn default() -> (r: Self)
        ensures
            r == (Output { minify: false, gzip: false, minify_web_modules: true, comments: None }),
    {
        Output { minify: false, gzip: false, minify_web_modules: true, comments: None }
    }
}

impl Output {
    /// Construct from explicit toggles.
    pub fn new(minify: bool, gzip: bool) -> (r: Self)
        ensures
            r == (Output { minify, gzip, minify_web_modules: true, comments: None }),
    {
        Output { minify, gzip, minify_web_modules: true, comments: None }
    }

    /// The production preset: minify the emitted JS **and** write `.gz` sidecars.
    pub fn optimized() -> (r: Self)
        ensures
            r == (Output { minify: true, gzip: true, minify_web_modules: true, comments: None }),
    {
        Output::new(true, true)
    }

    /// Set whether the vendored tree (and `npm://` assets) minify too (default on).
    pub fn minify_web_modules(self, on: bool) -> (r: Self)
        ensures
            r == (Output { minify_web_modules: on, ..self }),
    {
        Output { minify_web_modules: on, ..self }
    }

    /// Set the comment policy explicitly; unset, `minify` implies `Strip`.
    pub fn comments(self, comments: Comments) -> (r: Self)
        ensures
            r == (Output { comments: Some(comments), ..self }),
    {
        Output { comments: Some(comments), ..self }
    }

    /// The effective comment policy: an explicit choice wins; otherwise minification
    /// implies [`Strip`](Comments::Strip), which keeps legal comments inline, and plain
    /// output keeps everything.
    pub fn effective_comments(&self) -> (r: Comments)
        ensures
            r == comment_policy(*self),
    {
        match self.comments {
            Some(choice) => choice,
            None => if self.minify {
                Comments::Strip
            } else {
                Comments::Keep
            },
        }
    }

    /// The rewrite policy for already-emitted first-party JS (copied, rendered): some when
    /// minification or a non-default comment policy is on.
    pub fn js_rewrite(&self, source_map: bool) -> (r: Option<RewriteOptions>)
        ensures
            r == (if rewrites(*self) {
                Some(
                    RewriteOptions {
                        minify: self.minify,
                        source_map,
                        comments: comment_policy(*self),
                    },
                )
            } else {
                None
            }),
            r == rewrite_for(*self, source_map),
    {
        let comments = self.effective_comments();
        if self.minify || comments != Comments::Keep {
            Some(RewriteOptions { minify: self.minify, source_map, comments })
        } else {
            None
        }
    }

    /// The rewrite policy for vendored npm content (`web_modules/`, `npm://` assets):
    /// [`js_rewrite`](Self::js_rewrite) gated by the vendor knob.
    pub fn vendor_rewrite(&self, source_map: bool) -> (r: Option<RewriteOptions>)
        ensures
            r == (if self.minify_web_modules && rewrites(*self) {
                Some(
                    RewriteOptions {
                        minify: self.minify,
                        source_map,
                        comments: comment_policy(*self),
                    },
                )
            } else {
                None
            }),
            r == npm_rewrite_for(*self, source_map),
    {
        if self.minify_web_modules {
            self.js_rewrite(source_map)
        } else {
            None
        }
    }
}

/// Inputs for a build.
#[derive(Debug, PartialEq, Eq)]
pub struct BuildOptions {
    /// Packages to vendor into `<out>/web_modules/`. **Empty means no vendoring**.
    pub specs: Vec<PackageSpec>,
    /// Source root(s). Two sources claiming one output path fail the build unless
    /// `skip_duplicates` is set, which keeps the first root's file.
    pub roots: Vec<String>,
    /// Output directory, **replaced atomically** by each build.
    pub out: String,
    /// URL prefix the vendored modules are served at (e.g. `"/web_modules"`).
    pub mount: String,
    /// `index.html` template; the literal `{importmap}` is replaced with the generated
    /// import-map element. Used **only as a fallback**, when the source tree produces no
    /// `index.html` of its own.
    pub html: String,
    /// Optional Tera template file for `index.html`, rendered with an `importmap`
    /// variable instead of `html` (same fallback rule).
    pub template: Option<String>,
    /// Which source processors run and their tuning.
    pub processors: Processors,
    /// Output optimization: minify the emitted JS and/or write `.gz` sidecars.
    pub output: Output,
}

/// A stated comment policy is in effect, whatever else is set; without one minified output strips
/// comments and other output keeps them.
pub proof fn law_comment_policy(output: Output, choice: Comments)
    ensures
        output.comments == Some(choice) ==> comment_policy(output) == choice,
        output.comments is None && output.minify ==> comment_policy(output) == Comments::Strip,
        output.comments is None && !output.minify ==> comment_policy(output) == Comments::Keep,
{
}

/// JavaScript is rewritten when it is minified or when comments go, and left alone otherwise.
pub proof fn law_when_javascript_is_rewritten(output: Output)
    ensures
        output.minify ==> rewrites(output),
        !output.minify && (output.comments is None || output.comments == Some(Comments::Keep))
            ==> !rewrites(output),
        output.comments == Some(Comments::Strip) || output.comments == Some(Comments::Collect)
            || output.comments == Some(Comments::Nothing) ==> rewrites(output),
{
}

/// The defaults: the three processors run, everything that should not be published is refused,
/// links are followed within their root, duplicates fail the build, and nothing is bundled.
pub proof fn law_default_processors()
    ensures
        default_processors().typescript && default_processors().scss && default_processors().tera,
        default_processors().reject.hidden,
        default_processors().reject.exts.len() > 0 && default_processors().reject.names.len() > 0,
        default_processors().symlinks == SymlinkMode::Follow,
        default_processors().ts_decorators == Decorators::Lit,
        !default_processors().skip_duplicates && !default_processors().sourcemap
            && !default_processors().bundle,
        default_processors().extra_scss_load_paths.len() == 0
            && default_processors().bundle_entries.len() == 0,
{
}

/// How emitted JavaScript is rewritten, if it is.
pub open spec fn rewrite_for(output: Output, source_map: bool) -> Option<RewriteOptions> {
    if rewrites(output) {
        Some(RewriteOptions { minify: output.minify, source_map, comments: comment_policy(output) })
    } else {
        None
    }
}

/// How npm content is rewritten, if it is.
pub open spec fn npm_rewrite_for(output: Output, source_map: bool) -> Option<RewriteOptions> {
    if output.minify_web_modules {
        rewrite_for(output, source_map)
    } else {
        None
    }
}

/// A rewrite minifies when the output is minified, maps when maps are asked for, and treats comments
/// by the policy in effect; npm content is rewritten alike, unless it is to be left alone.
pub proof fn law_rewrites(output: Output, source_map: bool)
    ensures
        rewrite_for(output, source_map) is Some <==> rewrites(output),
        rewrite_for(output, source_map) matches Some(r) ==> r.minify == output.minify && r.source_map
            == source_map && r.comments == comment_policy(output),
        !output.minify_web_modules ==> npm_rewrite_for(output, source_map) is None,
        output.minify_web_modules ==> npm_rewrite_for(output, source_map) == rewrite_for(
            output,
            source_map,
        ),
{
}

} // verus!
