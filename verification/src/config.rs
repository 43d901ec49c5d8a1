//! How a command is configured: its flags, layered over the `web_modules` block of the
//! project's `package.json`, layered over the built-in defaults.

use vstd::prelude::*;

use crate::build::builder::Request;
use crate::build::options::{
    default_processors, BuildOptions, Chosen, Decorators, Output, Processors, DEFAULT_HTML,
    DEFAULT_MOUNT,
};
use crate::error::{Error, Failure};
use crate::json;
use crate::json::{field, Json, Tree};
use crate::text;
use crate::text::{digits, opt_text, texts};
use crate::vendor::select;
use crate::vendor::select::{selected, Manifest};
use crate::vendor::spec::Wanted;

verus! {

// ---------------------------------------------------------------------------
// Toggles
// ---------------------------------------------------------------------------

/// Placeholder config for a processor with no flags of its own (e.g. `minify`, `gzip`,
/// `tera`): it contributes nothing, leaving just the processor's toggle.
#[derive(Clone, Copy, Debug, PartialEq, Eq, Structural)]
pub struct NoConfig {}

/// A processor's `--<name>` / `--no-<name>` flags.
#[derive(Clone, Copy, Debug, PartialEq, Eq, Structural)]
pub struct Toggle {
    /// `--<name>` was given.
    pub on: bool,
    /// `--no-<name>` was given.
    pub off: bool,
}

/// A processor runs: `--no-<name>` wins, then `--<name>`, then the block, then the built-in
/// default, which `--no-default-features` suppresses.
pub open spec fn runs(
    toggle: Toggle,
    block: Option<bool>,
    default_on: bool,
    no_default_features: bool,
) -> bool {
    if toggle.off {
        false
    } else if toggle.on {
        true
    } else {
        match block {
            Some(b) => b,
            None => default_on && !no_default_features,
        }
    }
}

impl Toggle {
    /// Resolve whether this processor runs: `--no-<name>` wins, then `--<name>`, then
    /// `default_on` (which `--no-default-features` suppresses).
    pub fn enabled(&self, default_on: bool, no_default_features: bool) -> (r: bool)
        ensures
            r == runs(*self, None, default_on, no_default_features),
    {
        self.enabled_with(None, default_on, no_default_features)
    }

    /// Like [`enabled`](Self::enabled), but a `block` override sits between the flags and the
    /// built-in default: an explicit flag still wins, but the block beats the (possibly
    /// suppressed) default.
    pub fn enabled_with(
        &self,
        block: Option<bool>,
        default_on: bool,
        no_default_features: bool,
    ) -> (r: bool)
        ensures
            r == runs(*self, block, default_on, no_default_features),
    {
        if self.off {
            false
        } else if self.on {
            true
        } else {
            match block {
                Some(b) => b,
                None => default_on && !no_default_features,
            }
        }
    }
}

/// The compiler processors' flags. A build and the dev server share them.
#[derive(Debug, PartialEq, Eq)]
pub struct CompilerConfig {
    /// Disable every default-on processor; each can be re-enabled individually.
    pub no_default_features: bool,
    pub typescript: Toggle,
    pub decorators: Decorators,
    pub scss: Toggle,
    pub scss_load_paths: Vec<String>,
    pub tera: Toggle,
    pub minify: Toggle,
    pub gzip: Toggle,
}

/// The resolved toggles and tuning: what a build and the dev server actually consume.
#[derive(Debug, PartialEq, Eq)]
pub struct ResolvedCompiler {
    pub typescript: bool,
    pub scss: bool,
    pub tera: bool,
    pub minify: bool,
    pub gzip: bool,
    pub ts_decorators: Decorators,
    pub extra_scss_load_paths: Vec<String>,
}

/// Resolved toggles and tuning, as the contracts see them.
#[verifier::ext_equal]
pub struct Resolved {
    pub typescript: bool,
    pub scss: bool,
    pub tera: bool,
    pub minify: bool,
    pub gzip: bool,
    pub ts_decorators: Decorators,
    pub extra_scss_load_paths: Seq<Seq<char>>,
}

impl View for ResolvedCompiler {
    type V = Resolved;

    open spec fn view(&self) -> Resolved {
        Resolved {
            typescript: self.typescript,
            scss: self.scss,
            tera: self.tera,
            minify: self.minify,
            gzip: self.gzip,
            ts_decorators: self.ts_decorators,
            extra_scss_load_paths: texts(self.extra_scss_load_paths@),
        }
    }
}

/// Flags layered over a block: TypeScript, SCSS and Tera default on, minify and gzip default
/// off, and gzip needs to be compiled in. Load paths add up: the flags' first, then the
/// block's.
pub open spec fn resolved(c: CompilerConfig, block: Settings, compress: bool) -> Resolved {
    let nd = c.no_default_features;
    Resolved {
        typescript: runs(c.typescript, block.typescript, true, nd),
        scss: runs(c.scss, block.scss, true, nd),
        tera: runs(c.tera, block.tera, true, nd),
        minify: runs(c.minify, block.minify, false, nd),
        gzip: compress && runs(c.gzip, block.gzip, false, nd),
        ts_decorators: c.decorators,
        extra_scss_load_paths: texts(c.scss_load_paths@) + block.scss_load_paths,
    }
}

impl CompilerConfig {
    /// Resolve each processor toggle and its config, layering a `package.json` `web_modules`
    /// block under the flags. `compress` is whether gzip is compiled in.
    pub fn resolve_with(&self, cfg: &PkgConfig, compress: bool) -> (r: ResolvedCompiler)
        ensures
            r@ == resolved(*self, cfg@, compress),
    {
        let nd = self.no_default_features;
        let mut paths = text::copy_texts(&self.scss_load_paths);
        let more = &cfg.scss_load_paths;
        let ghost base = texts(self.scss_load_paths@);
        let mut i: usize = 0;
        assert(base + texts(more@).take(0) =~= base);
        while i < more.len()
            invariant
                i <= more@.len(),
                texts(paths@) == base + texts(more@).take(i as int),
            decreases more@.len() - i,
        {
            let one = more[i].clone();
            proof {
                text::lemma_texts_push(paths@, one);
                assert((base + texts(more@).take(i as int)).push(one@) =~= base + texts(
                    more@,
                ).take(i + 1));
            }
            paths.push(one);
            i += 1;
        }
        assert(texts(more@).take(more@.len() as int) =~= texts(more@));
        ResolvedCompiler {
            typescript: self.typescript.enabled_with(cfg.typescript, true, nd),
            scss: self.scss.enabled_with(cfg.scss, true, nd),
            tera: self.tera.enabled_with(cfg.tera, true, nd),
            minify: self.minify.enabled_with(cfg.minify, false, nd),
            gzip: compress && self.gzip.enabled_with(cfg.gzip, false, nd),
            ts_decorators: self.decorators,
            extra_scss_load_paths: paths,
        }
    }
}

/// The processor set that resolved toggles select; minify and gzip are about the output.
pub open spec fn processors_of(r: Resolved) -> Chosen {
    Chosen {
        typescript: r.typescript,
        scss: r.scss,
        tera: r.tera,
        ts_decorators: r.ts_decorators,
        extra_scss_load_paths: r.extra_scss_load_paths,
        ..default_processors()
    }
}

impl ResolvedCompiler {
    /// The build pipeline's [`Processors`], also the dev server's.
    pub fn into_processors(self) -> (r: Processors)
        ensures
            r@ == processors_of(self@),
    {
        let mut p = Processors::default();
        p.typescript = self.typescript;
        p.scss = self.scss;
        p.tera = self.tera;
        p.ts_decorators = self.ts_decorators;
        p.extra_scss_load_paths = self.extra_scss_load_paths;
        p
    }
}

// ---------------------------------------------------------------------------
// The `web_modules` block
// ---------------------------------------------------------------------------

/// The decoded `web_modules` block from a project's `package.json`. Every field is optional so
/// that resolution can layer it **under** the flags and **over** the built-in defaults. A list
/// is empty when the key is absent.
#[derive(Debug, PartialEq, Eq)]
pub struct PkgConfig {
    pub roots: Vec<String>,
    pub out: Option<String>,
    pub mount: Option<String>,
    pub html: Option<String>,
    pub template: Option<String>,
    pub packages: Vec<String>,
    pub minify: Option<bool>,
    pub gzip: Option<bool>,
    pub typescript: Option<bool>,
    pub scss: Option<bool>,
    pub tera: Option<bool>,
    pub scss_load_paths: Vec<String>,
}

/// A decoded block, as the contracts see it.
#[verifier::ext_equal]
pub struct Settings {
    pub roots: Seq<Seq<char>>,
    pub out: Option<Seq<char>>,
    pub mount: Option<Seq<char>>,
    pub html: Option<Seq<char>>,
    pub template: Option<Seq<char>>,
    pub packages: Seq<Seq<char>>,
    pub minify: Option<bool>,
    pub gzip: Option<bool>,
    pub typescript: Option<bool>,
    pub scss: Option<bool>,
    pub tera: Option<bool>,
    pub scss_load_paths: Seq<Seq<char>>,
}

impl View for PkgConfig {
    type V = Settings;

    open spec fn view(&self) -> Settings {
        Settings {
            roots: texts(self.roots@),
            out: opt_text(self.out),
            mount: opt_text(self.mount),
            html: opt_text(self.html),
            template: opt_text(self.template),
            packages: texts(self.packages@),
            minify: self.minify,
            gzip: self.gzip,
            typescript: self.typescript,
            scss: self.scss,
            tera: self.tera,
            scss_load_paths: texts(self.scss_load_paths@),
        }
    }
}

/// A block that sets nothing.
pub open spec fn unset() -> Settings {
    Settings {
        roots: Seq::empty(),
        out: None,
        mount: None,
        html: None,
        template: None,
        packages: Seq::empty(),
        minify: None,
        gzip: None,
        typescript: None,
        scss: None,
        tera: None,
        scss_load_paths: Seq::empty(),
    }
}

impl Default for PkgConfig {
    fn default() -> (r: Self)
        ensures
            r@ == unset(),
    {
        let r = PkgConfig {
            roots: Vec::new(),
            out: None,
            mount: None,
            html: None,
            template: None,
            packages: Vec::new(),
            minify: None,
            gzip: None,
            typescript: None,
            scss: None,
            tera: None,
            scss_load_paths: Vec::new(),
        };
        assert(r@ =~= unset());
        r
    }
}

/// A text value.
pub open spec fn text_value(val: Tree, ctx: Seq<char>) -> Result<Seq<char>, Seq<char>> {
    match val {
        Tree::Text(s) => Ok(s),
        _ => Err(ctx + " must be a string"@),
    }
}

/// A boolean value.
pub open spec fn bool_value(val: Tree, ctx: Seq<char>) -> Result<bool, Seq<char>> {
    match val {
        Tree::Bool(b) => Ok(b),
        _ => Err(ctx + " must be a boolean"@),
    }
}

/// A processor value: a boolean disables or enables, an object's presence enables.
pub open spec fn processor_value(val: Tree, ctx: Seq<char>) -> Result<bool, Seq<char>> {
    match val {
        Tree::Bool(b) => Ok(b),
        Tree::Object(_) => Ok(true),
        _ => Err(ctx + " must be a boolean or an object"@),
    }
}

/// The texts of the first `n` items of an array; the first that is none ends it.
pub open spec fn item_texts(items: Seq<Tree>, ctx: Seq<char>, n: int) -> Result<
    Seq<Seq<char>>,
    Seq<char>,
>
    decreases n,
{
    if n <= 0 {
        Ok(Seq::empty())
    } else {
        match item_texts(items, ctx, n - 1) {
            Ok(front) => match items[n - 1] {
                Tree::Text(s) => Ok(front.push(s)),
                _ => Err(ctx + " entries must be strings"@),
            },
            Err(e) => Err(e),
        }
    }
}

/// An array of texts.
pub open spec fn array_value(val: Tree, ctx: Seq<char>) -> Result<Seq<Seq<char>>, Seq<char>> {
    match val {
        Tree::Array(items) => item_texts(items, ctx, items.len() as int),
        _ => Err(ctx + " must be an array of strings"@),
    }
}

/// The settings after one key of the block. Unknown keys are ignored so a newer config file
/// stays loadable; `webDependencies` and `root` are read elsewhere.
pub open spec fn with_key(s: Settings, key: Seq<char>, val: Tree) -> Result<Settings, Seq<char>> {
    if key == "roots"@ {
        match array_value(val, "web_modules.roots"@) {
            Ok(v) => Ok(Settings { roots: v, ..s }),
            Err(e) => Err(e),
        }
    } else if key == "out"@ {
        match text_value(val, "web_modules.out"@) {
            Ok(v) => Ok(Settings { out: Some(v), ..s }),
            Err(e) => Err(e),
        }
    } else if key == "mount"@ {
        match text_value(val, "web_modules.mount"@) {
            Ok(v) => Ok(Settings { mount: Some(v), ..s }),
            Err(e) => Err(e),
        }
    } else if key == "html"@ {
        match text_value(val, "web_modules.html"@) {
            Ok(v) => Ok(Settings { html: Some(v), ..s }),
            Err(e) => Err(e),
        }
    } else if key == "template"@ {
        match text_value(val, "web_modules.template"@) {
            Ok(v) => Ok(Settings { template: Some(v), ..s }),
            Err(e) => Err(e),
        }
    } else if key == "packages"@ {
        match array_value(val, "web_modules.packages"@) {
            Ok(v) => Ok(Settings { packages: v, ..s }),
            Err(e) => Err(e),
        }
    } else if key == "minify"@ {
        match bool_value(val, "web_modules.minify"@) {
            Ok(v) => Ok(Settings { minify: Some(v), ..s }),
            Err(e) => Err(e),
        }
    } else if key == "gzip"@ {
        match bool_value(val, "web_modules.gzip"@) {
            Ok(v) => Ok(Settings { gzip: Some(v), ..s }),
            Err(e) => Err(e),
        }
    } else if key == "typescript"@ {
        match processor_value(val, "web_modules.typescript"@) {
            Ok(v) => Ok(Settings { typescript: Some(v), ..s }),
            Err(e) => Err(e),
        }
    } else if key == "scss"@ {
        match processor_value(val, "web_modules.scss"@) {
            Ok(v) => match field(val, "loadPaths"@) {
                Some(paths) => match array_value(paths, "web_modules.scss.loadPaths"@) {
                    Ok(p) => Ok(Settings { scss: Some(v), scss_load_paths: p, ..s }),
                    Err(e) => Err(e),
                },
                None => Ok(Settings { scss: Some(v), ..s }),
            },
            Err(e) => Err(e),
        }
    } else if key == "tera"@ {
        match processor_value(val, "web_modules.tera"@) {
            Ok(v) => Ok(Settings { tera: Some(v), ..s }),
            Err(e) => Err(e),
        }
    } else {
        Ok(s)
    }
}

/// The settings of the first `n` keys of the block, in order; the first that is malformed
/// ends it.
pub open spec fn with_keys(fields: Seq<(Seq<char>, Tree)>, n: int) -> Result<Settings, Seq<char>>
    decreases n,
{
    if n <= 0 {
        Ok(unset())
    } else {
        match with_keys(fields, n - 1) {
            Ok(s) => with_key(s, fields[n - 1].0, fields[n - 1].1),
            Err(e) => Err(e),
        }
    }
}

/// The settings of a block.
pub open spec fn block_settings(block: Tree) -> Result<Settings, Seq<char>> {
    match block {
        Tree::Object(fields) => with_keys(fields, fields.len() as int),
        _ => Err("package.json: `web_modules` must be an object"@),
    }
}

fn as_string(val: &Json, ctx: &str) -> (r: Result<String, String>)
    ensures
        crate::build::preflight::outcome(r) == text_value(val.tree(), ctx@),
{
    match val.as_str() {
        Some(s) => Ok(s.to_owned()),
        None => Err(ctx.to_owned().concat(" must be a string")),
    }
}

/// A result, as the contracts see it.
pub open spec fn bool_outcome(r: Result<bool, String>) -> Result<bool, Seq<char>> {
    match r {
        Ok(b) => Ok(b),
        Err(e) => Err(e@),
    }
}

/// A result, as the contracts see it.
pub open spec fn list_outcome(r: Result<Vec<String>, String>) -> Result<Seq<Seq<char>>, Seq<char>> {
    match r {
        Ok(list) => Ok(texts(list@)),
        Err(e) => Err(e@),
    }
}

fn as_bool(val: &Json, ctx: &str) -> (r: Result<bool, String>)
    ensures
        bool_outcome(r) == bool_value(val.tree(), ctx@),
{
    match val.as_bool() {
        Some(b) => Ok(b),
        None => Err(ctx.to_owned().concat(" must be a boolean")),
    }
}

/// A processor key is `false`/`true` (disable/enable) or an object (presence enables and
/// configures).
fn processor_enabled(val: &Json, ctx: &str) -> (r: Result<bool, String>)
    ensures
        bool_outcome(r) == processor_value(val.tree(), ctx@),
{
    match val.as_bool() {
        Some(b) => Ok(b),
        None => match val.as_object() {
            Some(_) => Ok(true),
            None => Err(ctx.to_owned().concat(" must be a boolean or an object")),
        },
    }
}

fn string_array(val: &Json, ctx: &str) -> (r: Result<Vec<String>, String>)
    ensures
        list_outcome(r) == array_value(val.tree(), ctx@),
{
    let items = match val.as_array() {
        Some(items) => items,
        None => {
            return Err(ctx.to_owned().concat(" must be an array of strings"));
        },
    };
    let ghost all = json::trees(items@);
    proof {
        json::lemma_trees(items@);
    }
    let mut out: Vec<String> = Vec::new();
    let mut i: usize = 0;
    assert(texts(out@) =~= Seq::<Seq<char>>::empty());
    while i < items.len()
        invariant
            i <= items@.len(),
            val.tree() == Tree::Array(all),
            all.len() == items@.len(),
            forall|k: int| 0 <= k < items@.len() ==> all[k] == (#[trigger] items@[k]).tree(),
            item_texts(all, ctx@, i as int) == Ok::<Seq<Seq<char>>, Seq<char>>(texts(out@)),
        decreases items@.len() - i,
    {
        assert(all[i as int] == items@[i as int].tree());
        match items[i].as_str() {
            Some(s) => {
                let one = s.to_owned();
                proof {
                    text::lemma_texts_push(out@, one);
                }
                out.push(one);
            },
            None => {
                let e = ctx.to_owned().concat(" entries must be strings");
                proof {
                    lemma_items_fail(all, ctx@, i + 1, all.len() as int, e@);
                }
                return Err(e);
            },
        }
        i += 1;
    }
    Ok(out)
}

proof fn lemma_items_fail(items: Seq<Tree>, ctx: Seq<char>, i: int, n: int, e: Seq<char>)
    requires
        0 <= i <= n <= items.len(),
        item_texts(items, ctx, i) == Err::<Seq<Seq<char>>, Seq<char>>(e),
    ensures
        item_texts(items, ctx, n) == Err::<Seq<Seq<char>>, Seq<char>>(e),
    decreases n - i,
{
    if i < n {
        lemma_items_fail(items, ctx, i + 1, n, e);
    }
}

proof fn lemma_keys_fail(fields: Seq<(Seq<char>, Tree)>, i: int, n: int, e: Seq<char>)
    requires
        0 <= i <= n <= fields.len(),
        with_keys(fields, i) == Err::<Settings, Seq<char>>(e),
    ensures
        with_keys(fields, n) == Err::<Settings, Seq<char>>(e),
    decreases n - i,
{
    if i < n {
        lemma_keys_fail(fields, i + 1, n, e);
    }
}

impl PkgConfig {
    /// Takes one key of the block.
    fn take(&mut self, key: &str, val: &Json) -> (r: Result<(), String>)
        ensures
            match r {
                Ok(_) => with_key(old(self)@, key@, val.tree()) == Ok::<Settings, Seq<char>>(
                    final(self)@,
                ),
                Err(e) => with_key(old(self)@, key@, val.tree()) == Err::<Settings, Seq<char>>(
                    e@,
                ),
            },
    {
        if text::same(key, "roots") {
            match string_array(val, "web_modules.roots") {
                Ok(v) => self.roots = v,
                Err(e) => return Err(e),
            }
        } else if text::same(key, "out") {
            match as_string(val, "web_modules.out") {
                Ok(v) => self.out = Some(v),
                Err(e) => return Err(e),
            }
        } else if text::same(key, "mount") {
            match as_string(val, "web_modules.mount") {
                Ok(v) => self.mount = Some(v),
                Err(e) => return Err(e),
            }
        } else if text::same(key, "html") {
            match as_string(val, "web_modules.html") {
                Ok(v) => self.html = Some(v),
                Err(e) => return Err(e),
            }
        } else if text::same(key, "template") {
            match as_string(val, "web_modules.template") {
                Ok(v) => self.template = Some(v),
                Err(e) => return Err(e),
            }
        } else if text::same(key, "packages") {
            match string_array(val, "web_modules.packages") {
                Ok(v) => self.packages = v,
                Err(e) => return Err(e),
            }
        } else if text::same(key, "minify") {
            match as_bool(val, "web_modules.minify") {
                Ok(v) => self.minify = Some(v),
                Err(e) => return Err(e),
            }
        } else if text::same(key, "gzip") {
            match as_bool(val, "web_modules.gzip") {
                Ok(v) => self.gzip = Some(v),
                Err(e) => return Err(e),
            }
        } else if text::same(key, "typescript") {
            match processor_enabled(val, "web_modules.typescript") {
                Ok(v) => self.typescript = Some(v),
                Err(e) => return Err(e),
            }
        } else if text::same(key, "scss") {
            match processor_enabled(val, "web_modules.scss") {
                Ok(v) => {
                    if let Some(paths) = val.get("loadPaths") {
                        match string_array(paths, "web_modules.scss.loadPaths") {
                            Ok(p) => self.scss_load_paths = p,
                            Err(e) => return Err(e),
                        }
                    }
                    self.scss = Some(v);
                },
                Err(e) => return Err(e),
            }
        } else if text::same(key, "tera") {
            match processor_enabled(val, "web_modules.tera") {
                Ok(v) => self.tera = Some(v),
                Err(e) => return Err(e),
            }
        }
        Ok(())
    }
}

/// A parsed block, as the contracts see it.
pub open spec fn settings_outcome(r: Result<PkgConfig, String>) -> Result<Settings, Seq<char>> {
    match r {
        Ok(cfg) => Ok(cfg@),
        Err(e) => Err(e@),
    }
}

/// Parses the `web_modules` object of a `package.json`.
pub fn parse_block(block: &Json) -> (r: Result<PkgConfig, String>)
    ensures
        settings_outcome(r) == block_settings(block.tree()),
{
    let fields = match block.as_object() {
        Some(fields) => fields,
        None => {
            return Err("package.json: `web_modules` must be an object".to_owned());
        },
    };
    let ghost all = json::field_trees(fields@);
    proof {
        json::lemma_field_trees(fields@);
    }
    let mut cfg = PkgConfig::default();
    let mut i: usize = 0;
    while i < fields.len()
        invariant
            i <= fields@.len(),
            block.tree() == Tree::Object(all),
            all.len() == fields@.len(),
            forall|k: int|
                0 <= k < fields@.len() ==> all[k] == (
                    (#[trigger] fields@[k]).0@,
                    fields@[k].1.tree(),
                ),
            with_keys(all, i as int) == Ok::<Settings, Seq<char>>(cfg@),
        decreases fields@.len() - i,
    {
        assert(all[i as int] == (fields@[i as int].0@, fields@[i as int].1.tree()));
        if let Err(e) = cfg.take(fields[i].0.as_str(), &fields[i].1) {
            proof {
                lemma_keys_fail(all, i + 1, all.len() as int, e@);
            }
            return Err(e);
        }
        i += 1;
    }
    Ok(cfg)
}

/// What a `package.json` configures: nothing at all, and no manifest, when there is no file;
/// nothing, but still a manifest, when it has no block.
pub open spec fn configured(path: Seq<char>, content: Option<Seq<u8>>) -> Result<
    (Settings, Option<Seq<char>>),
    Seq<char>,
> {
    match content {
        None => Ok((unset(), None)),
        Some(bytes) => match json::json_document(bytes) {
            Err(e) => Err(path + ": "@ + e),
            Ok(doc) => match field(doc, "web_modules"@) {
                Some(block) => match block_settings(block) {
                    Ok(s) => Ok((s, Some(path))),
                    Err(e) => Err(e),
                },
                None => Ok((unset(), Some(path))),
            },
        },
    }
}

/// Reads the `web_modules` config block of the `package.json` at `path`, given its content if
/// there is such a file. Gives the parsed config, and the path when the file is there, which a
/// build uses to vendor the project's `dependencies`. No file is zero-config, not an error;
/// malformed JSON and a wrong-typed key are, naming the offending key.
pub fn load_pkg_config(path: &str, content: Option<&[u8]>) -> (r: Result<
    (PkgConfig, Option<String>),
    String,
>)
    ensures
        (match r {
            Ok((cfg, manifest)) => Ok::<(Settings, Option<Seq<char>>), Seq<char>>(
                (cfg@, opt_text(manifest)),
            ),
            Err(e) => Err(e@),
        }) == configured(
            path@,
            match content {
                Some(bytes) => Some(bytes@),
                None => None,
            },
        ),
{
    let bytes = match content {
        Some(bytes) => bytes,
        None => {
            return Ok((PkgConfig::default(), None));
        },
    };
    match json::parse(bytes) {
        Err(e) => Err(path.to_owned().concat(": ").concat(e.as_str())),
        Ok(doc) => match doc.get("web_modules") {
            Some(block) => match parse_block(block) {
                Ok(cfg) => Ok((cfg, Some(path.to_owned()))),
                Err(e) => Err(e),
            },
            None => Ok((PkgConfig::default(), Some(path.to_owned()))),
        },
    }
}

// ---------------------------------------------------------------------------
// Layering
// ---------------------------------------------------------------------------

/// The flag's value wins, else the block's, else the built-in default.
pub open spec fn picked<T>(cli: Option<T>, block: Option<T>, default: T) -> T {
    match cli {
        Some(v) => v,
        None => match block {
            Some(v) => v,
            None => default,
        },
    }
}

/// The flag's value wins, else the block's, else the built-in default.
pub fn pick<T>(cli: Option<T>, block: Option<T>, default: T) -> (r: T)
    ensures
        r == picked(cli, block, default),
{
    match cli {
        Some(v) => v,
        None => match block {
            Some(v) => v,
            None => default,
        },
    }
}

/// A non-empty list of flags wins, else the block's: an empty one means "unset".
pub fn pick_vec<T>(cli: Vec<T>, block: Vec<T>) -> (r: Vec<T>)
    ensures
        r == (if cli@.len() == 0 {
            block
        } else {
            cli
        }),
{
    if cli.len() == 0 {
        block
    } else {
        cli
    }
}

/// The current directory when no roots were given.
pub open spec fn rooted_or_cwd(roots: Seq<Seq<char>>) -> Seq<Seq<char>> {
    if roots.len() == 0 {
        seq!["."@]
    } else {
        roots
    }
}

/// Default `roots` to the current dir when none were given.
pub fn roots_or_cwd(roots: Vec<String>) -> (r: Vec<String>)
    ensures
        texts(r@) == rooted_or_cwd(texts(roots@)),
{
    let mut roots = roots;
    if roots.len() == 0 {
        roots.push(".".to_owned());
        assert(texts(roots@) =~= seq!["."@]);
    }
    roots
}

/// The flags of a build.
#[derive(Debug, PartialEq, Eq)]
pub struct BuildArgs {
    pub roots: Vec<String>,
    pub out: Option<String>,
    pub mount: Option<String>,
    pub html: Option<String>,
    pub template: Option<String>,
    pub packages: Vec<String>,
    pub compiler: CompilerConfig,
}

/// A non-empty list wins over another.
pub open spec fn listed_or(cli: Seq<Seq<char>>, block: Seq<Seq<char>>) -> Seq<Seq<char>> {
    if cli.len() == 0 {
        block
    } else {
        cli
    }
}

/// The build that flags, a block and manifests ask for.
pub open spec fn build_request(
    args: BuildArgs,
    block: Settings,
    manifests: Seq<Manifest>,
    compress: bool,
) -> Result<Request, Failure> {
    let r = resolved(args.compiler, block, compress);
    match selected(listed_or(texts(args.packages@), block.packages), manifests, false) {
        Ok(specs) => Ok(
            Request {
                specs,
                roots: rooted_or_cwd(listed_or(texts(args.roots@), block.roots)),
                out: picked(opt_text(args.out), block.out, "dist"@),
                mount: picked(opt_text(args.mount), block.mount, DEFAULT_MOUNT@),
                html: picked(opt_text(args.html), block.html, DEFAULT_HTML@),
                template: match opt_text(args.template) {
                    Some(t) => Some(t),
                    None => block.template,
                },
                processors: processors_of(r),
                output: Output {
                    minify: r.minify,
                    gzip: r.gzip,
                    minify_web_modules: true,
                    comments: None,
                },
            },
        ),
        Err(e) => Err(e),
    }
}

/// The build that flags and a block ask for. `manifests` are the explicit ones and then the
/// project's own, whose `dependencies` are vendored too; explicit ones come first and win on a
/// name clash. With nothing to vendor, the build stays static-only.
pub fn build_options(
    args: BuildArgs,
    cfg: PkgConfig,
    manifests: &Vec<Manifest>,
    compress: bool,
) -> (r: Result<BuildOptions, Error>)
    ensures
        crate::error::seen(r) == build_request(args, cfg@, manifests@, compress),
{
    let compiler = args.compiler.resolve_with(&cfg, compress);
    let output = Output::new(compiler.minify, compiler.gzip);
    let processors = compiler.into_processors();
    let packages = pick_vec(args.packages, cfg.packages);
    let specs = match select::build_vendor_specs(&packages, manifests, false) {
        Ok(specs) => specs,
        Err(e) => {
            return Err(e);
        },
    };
    Ok(
        BuildOptions {
            specs,
            roots: roots_or_cwd(pick_vec(args.roots, cfg.roots)),
            out: pick(args.out, cfg.out, "dist".to_owned()),
            mount: pick(args.mount, cfg.mount, DEFAULT_MOUNT.to_owned()),
            html: pick(args.html, cfg.html, DEFAULT_HTML.to_owned()),
            template: match args.template {
                Some(t) => Some(t),
                None => cfg.template,
            },
            processors,
            output,
        },
    )
}

/// What a build says once it is done.
pub open spec fn build_summary(request: Request) -> Seq<char> {
    "built "@ + digits(request.roots.len()) + " root(s) → "@ + request.out + " ("@ + digits(
        request.specs.len(),
    ) + " package spec(s), mount "@ + request.mount + (if request.output.minify {
        ", minified"@
    } else {
        ""@
    }) + (if request.output.gzip {
        ", gzipped"@
    } else {
        ""@
    }) + ")"@
}

/// What a build says once it is done.
pub fn summary(options: &BuildOptions) -> (r: String)
    ensures
        r@ == build_summary(options@),
{
    let minified = if options.output.minify {
        ", minified"
    } else {
        ""
    };
    let gzipped = if options.output.gzip {
        ", gzipped"
    } else {
        ""
    };
    "built ".to_owned().concat(text::decimal(options.roots.len()).as_str()).concat(
        " root(s) → ",
    ).concat(options.out.as_str()).concat(" (").concat(
        text::decimal(options.specs.len()).as_str(),
    ).concat(" package spec(s), mount ").concat(options.mount.as_str()).concat(minified).concat(
        gzipped,
    ).concat(")")
}

/// Each text of the block is read from the key of its own name, and nothing else is touched; what is
/// no text is an error.
pub proof fn law_text_keys(s: Settings, v: Seq<char>, val: Tree)
    ensures
        with_key(s, "out"@, Tree::Text(v)) == Ok::<Settings, Seq<char>>(
            Settings { out: Some(v), ..s },
        ),
        !(val is Text) ==> with_key(s, "out"@, val) is Err,
        with_key(s, "mount"@, Tree::Text(v)) == Ok::<Settings, Seq<char>>(
            Settings { mount: Some(v), ..s },
        ),
        !(val is Text) ==> with_key(s, "mount"@, val) is Err,
        with_key(s, "html"@, Tree::Text(v)) == Ok::<Settings, Seq<char>>(
            Settings { html: Some(v), ..s },
        ),
        !(val is Text) ==> with_key(s, "html"@, val) is Err,
        with_key(s, "template"@, Tree::Text(v)) == Ok::<Settings, Seq<char>>(
            Settings { template: Some(v), ..s },
        ),
        !(val is Text) ==> with_key(s, "template"@, val) is Err,
{
    lemma_key_names();
}

/// Each switch is read from the key of its own name, and nothing else is touched: minifying and
/// compressing are booleans, and a processor is a boolean or an object whose presence turns it on.
pub proof fn law_switch_keys(s: Settings, b: bool, fields: Seq<(Seq<char>, Tree)>, v: Seq<char>)
    ensures
        with_key(s, "minify"@, Tree::Bool(b)) == Ok::<Settings, Seq<char>>(
            Settings { minify: Some(b), ..s },
        ),
        with_key(s, "minify"@, Tree::Object(fields)) is Err,
        with_key(s, "minify"@, Tree::Text(v)) is Err,
        with_key(s, "gzip"@, Tree::Bool(b)) == Ok::<Settings, Seq<char>>(
            Settings { gzip: Some(b), ..s },
        ),
        with_key(s, "gzip"@, Tree::Object(fields)) is Err,
        with_key(s, "gzip"@, Tree::Text(v)) is Err,
        with_key(s, "typescript"@, Tree::Bool(b)) == Ok::<Settings, Seq<char>>(
            Settings { typescript: Some(b), ..s },
        ),
        with_key(s, "typescript"@, Tree::Object(fields)) == Ok::<Settings, Seq<char>>(
            Settings { typescript: Some(true), ..s },
        ),
        with_key(s, "typescript"@, Tree::Text(v)) is Err,
        with_key(s, "tera"@, Tree::Bool(b)) == Ok::<Settings, Seq<char>>(
            Settings { tera: Some(b), ..s },
        ),
        with_key(s, "tera"@, Tree::Object(fields)) == Ok::<Settings, Seq<char>>(
            Settings { tera: Some(true), ..s },
        ),
        with_key(s, "tera"@, Tree::Text(v)) is Err,
        with_key(s, "scss"@, Tree::Bool(b)) == Ok::<Settings, Seq<char>>(
            Settings { scss: Some(b), ..s },
        ),
        with_key(s, "scss"@, Tree::Text(v)) is Err,
        field(Tree::Object(fields), "loadPaths"@) is None ==> with_key(
            s,
            "scss"@,
            Tree::Object(fields),
        ) == Ok::<Settings, Seq<char>>(Settings { scss: Some(true), ..s }),
{
    lemma_key_names();
}

/// Each list of the block is read from the key of its own name, its texts in order, and the load
/// paths from the SCSS object; a key of another name is passed over.
pub proof fn law_list_keys(
    s: Settings,
    items: Seq<Tree>,
    list: Seq<Seq<char>>,
    fields: Seq<(Seq<char>, Tree)>,
    key: Seq<char>,
    val: Tree,
)
    requires
        items.len() == list.len(),
        forall|i: int| 0 <= i < items.len() ==> #[trigger] items[i] == Tree::Text(list[i]),
    ensures
        with_key(s, "roots"@, Tree::Array(items)) == Ok::<Settings, Seq<char>>(
            Settings { roots: list, ..s },
        ),
        !(val is Array) ==> with_key(s, "roots"@, val) is Err,
        with_key(s, "packages"@, Tree::Array(items)) == Ok::<Settings, Seq<char>>(
            Settings { packages: list, ..s },
        ),
        !(val is Array) ==> with_key(s, "packages"@, val) is Err,
        field(Tree::Object(fields), "loadPaths"@) == Some(Tree::Array(items)) ==> with_key(
            s,
            "scss"@,
            Tree::Object(fields),
        ) == Ok::<Settings, Seq<char>>(
            Settings { scss: Some(true), scss_load_paths: list, ..s },
        ),
        key != "roots"@ && key != "out"@ && key != "mount"@ && key != "html"@ && key != "template"@
            && key != "packages"@ && key != "minify"@ && key != "gzip"@ && key != "typescript"@
            && key != "scss"@ && key != "tera"@ ==> with_key(
            s,
            key,
            val,
        ) == Ok::<Settings, Seq<char>>(s),
{
    lemma_key_names();
    lemma_items(items, "web_modules.roots"@, list, items.len() as int);
    lemma_items(items, "web_modules.packages"@, list, items.len() as int);
    lemma_items(items, "web_modules.scss.loadPaths"@, list, items.len() as int);
    assert(list.take(items.len() as int) =~= list);
}

proof fn lemma_items(items: Seq<Tree>, ctx: Seq<char>, list: Seq<Seq<char>>, n: int)
    requires
        items.len() == list.len(),
        0 <= n <= items.len(),
        forall|i: int| 0 <= i < items.len() ==> #[trigger] items[i] == Tree::Text(list[i]),
    ensures
        item_texts(items, ctx, n) == Ok::<Seq<Seq<char>>, Seq<char>>(list.take(n)),
    decreases n,
{
    if n > 0 {
        lemma_items(items, ctx, list, n - 1);
        assert(list.take(n - 1).push(list[n - 1]) =~= list.take(n));
    } else {
        assert(list.take(0) =~= Seq::<Seq<char>>::empty());
    }
}

proof fn lemma_key_names()
    ensures
        "out"@ != "roots"@,
        "mount"@ != "roots"@,
        "mount"@ != "out"@,
        "html"@ != "roots"@,
        "html"@ != "out"@,
        "html"@ != "mount"@,
        "template"@ != "roots"@,
        "template"@ != "out"@,
        "template"@ != "mount"@,
        "template"@ != "html"@,
        "packages"@ != "roots"@,
        "packages"@ != "out"@,
        "packages"@ != "mount"@,
        "packages"@ != "html"@,
        "packages"@ != "template"@,
        "minify"@ != "roots"@,
        "minify"@ != "out"@,
        "minify"@ != "mount"@,
        "minify"@ != "html"@,
        "minify"@ != "template"@,
        "minify"@ != "packages"@,
        "gzip"@ != "roots"@,
        "gzip"@ != "out"@,
        "gzip"@ != "mount"@,
        "gzip"@ != "html"@,
        "gzip"@ != "template"@,
        "gzip"@ != "packages"@,
        "gzip"@ != "minify"@,
        "typescript"@ != "roots"@,
        "typescript"@ != "out"@,
        "typescript"@ != "mount"@,
        "typescript"@ != "html"@,
        "typescript"@ != "template"@,
        "typescript"@ != "packages"@,
        "typescript"@ != "minify"@,
        "typescript"@ != "gzip"@,
        "scss"@ != "roots"@,
        "scss"@ != "out"@,
        "scss"@ != "mount"@,
        "scss"@ != "html"@,
        "scss"@ != "template"@,
        "scss"@ != "packages"@,
        "scss"@ != "minify"@,
        "scss"@ != "gzip"@,
        "scss"@ != "typescript"@,
        "tera"@ != "roots"@,
        "tera"@ != "out"@,
        "tera"@ != "mount"@,
        "tera"@ != "html"@,
        "tera"@ != "template"@,
        "tera"@ != "packages"@,
        "tera"@ != "minify"@,
        "tera"@ != "gzip"@,
        "tera"@ != "typescript"@,
        "tera"@ != "scss"@,
{
    reveal_strlit("roots");
    reveal_strlit("out");
    reveal_strlit("mount");
    reveal_strlit("html");
    reveal_strlit("template");
    reveal_strlit("packages");
    reveal_strlit("minify");
    reveal_strlit("gzip");
    reveal_strlit("typescript");
    reveal_strlit("scss");
    reveal_strlit("tera");
    assert("roots"@[0] == 'r');
    assert("mount"@[0] == 'm');
    assert("html"@[0] == 'h');
    assert("gzip"@[0] == 'g');
    assert("scss"@[0] == 's');
    assert("tera"@[0] == 't');
    assert("template"@[0] == 't');
    assert("packages"@[0] == 'p');
    assert("out"@.len() != "roots"@.len());
    assert("mount"@.len() != "out"@.len());
    assert("html"@.len() != "roots"@.len());
    assert("html"@.len() != "out"@.len());
    assert("html"@.len() != "mount"@.len());
    assert("template"@.len() != "roots"@.len());
    assert("template"@.len() != "out"@.len());
    assert("template"@.len() != "mount"@.len());
    assert("template"@.len() != "html"@.len());
    assert("packages"@.len() != "roots"@.len());
    assert("packages"@.len() != "out"@.len());
    assert("packages"@.len() != "mount"@.len());
    assert("packages"@.len() != "html"@.len());
    assert("minify"@.len() != "roots"@.len());
    assert("minify"@.len() != "out"@.len());
    assert("minify"@.len() != "mount"@.len());
    assert("minify"@.len() != "html"@.len());
    assert("minify"@.len() != "template"@.len());
    assert("minify"@.len() != "packages"@.len());
    assert("gzip"@.len() != "roots"@.len());
    assert("gzip"@.len() != "out"@.len());
    assert("gzip"@.len() != "mount"@.len());
    assert("gzip"@.len() != "template"@.len());
    assert("gzip"@.len() != "packages"@.len());
    assert("gzip"@.len() != "minify"@.len());
    assert("typescript"@.len() != "roots"@.len());
    assert("typescript"@.len() != "out"@.len());
    assert("typescript"@.len() != "mount"@.len());
    assert("typescript"@.len() != "html"@.len());
    assert("typescript"@.len() != "template"@.len());
    assert("typescript"@.len() != "packages"@.len());
    assert("typescript"@.len() != "minify"@.len());
    assert("typescript"@.len() != "gzip"@.len());
    assert("scss"@.len() != "roots"@.len());
    assert("scss"@.len() != "out"@.len());
    assert("scss"@.len() != "mount"@.len());
    assert("scss"@.len() != "template"@.len());
    assert("scss"@.len() != "packages"@.len());
    assert("scss"@.len() != "minify"@.len());
    assert("scss"@.len() != "typescript"@.len());
    assert("tera"@.len() != "roots"@.len());
    assert("tera"@.len() != "out"@.len());
    assert("tera"@.len() != "mount"@.len());
    assert("tera"@.len() != "template"@.len());
    assert("tera"@.len() != "packages"@.len());
    assert("tera"@.len() != "minify"@.len());
    assert("tera"@.len() != "typescript"@.len());
}

/// A list with anything but texts in it is refused.
pub proof fn law_arrays_hold_texts(items: Seq<Tree>, ctx: Seq<char>, i: int)
    requires
        0 <= i < items.len(),
        !(items[i] is Text),
    ensures
        array_value(Tree::Array(items), ctx) is Err,
{
    lemma_odd_item(items, ctx, items.len() as int, i);
}

proof fn lemma_odd_item(items: Seq<Tree>, ctx: Seq<char>, n: int, i: int)
    requires
        0 <= i < n <= items.len(),
        !(items[i] is Text),
    ensures
        item_texts(items, ctx, n) is Err,
    decreases n,
{
    if i < n - 1 {
        lemma_odd_item(items, ctx, n - 1, i);
    }
}

/// Keys are read in order, from a block that sets nothing; the first that is malformed ends it. A
/// block that is no object is an error.
pub proof fn law_keys_in_order(fields: Seq<(Seq<char>, Tree)>, n: int, block: Tree)
    requires
        0 <= n < fields.len(),
    ensures
        with_keys(fields, 0) == Ok::<Settings, Seq<char>>(unset()),
        with_keys(fields, n) matches Ok(s) ==> with_keys(fields, n + 1) == with_key(
            s,
            fields[n].0,
            fields[n].1,
        ),
        with_keys(fields, n) is Err ==> with_keys(fields, n + 1) == with_keys(fields, n),
        !(block is Object) ==> block_settings(block) is Err,
        block_settings(Tree::Object(fields)) == with_keys(fields, fields.len() as int),
{
}

/// `--no-<name>` turns a processor off whatever else is said; then `--<name>` turns it on; then the
/// block decides; and the built-in default only where `--no-default-features` lets it.
pub proof fn law_toggles(toggle: Toggle, block: Option<bool>, default_on: bool, suppressed: bool)
    ensures
        toggle.off ==> !runs(toggle, block, default_on, suppressed),
        !toggle.off && toggle.on ==> runs(toggle, block, default_on, suppressed),
        !toggle.off && !toggle.on && block is Some ==> runs(toggle, block, default_on, suppressed)
            == block->Some_0,
        !toggle.off && !toggle.on && block is None && suppressed ==> !runs(
            toggle,
            block,
            default_on,
            suppressed,
        ),
        !toggle.off && !toggle.on && block is None && !suppressed ==> runs(
            toggle,
            block,
            default_on,
            suppressed,
        ) == default_on,
{
}

/// Each processor goes by its own flags and its own key: TypeScript, SCSS and Tera run unless they
/// are turned off, minifying and compressing do not unless they are turned on, and compressing only
/// where it is compiled in. The load paths of the flags come before those of the block.
pub proof fn law_resolved_processors(c: CompilerConfig, block: Settings, compress: bool)
    ensures
        ({
            let r = resolved(c, block, compress);
            let quiet = Toggle { on: false, off: false };
            &&& c.typescript.off ==> !r.typescript
            &&& c.scss.off ==> !r.scss
            &&& c.tera.off ==> !r.tera
            &&& c.minify.off ==> !r.minify
            &&& c.gzip.off ==> !r.gzip
            &&& c.typescript == quiet && block.typescript is None ==> r.typescript
                == !c.no_default_features
            &&& c.scss == quiet && block.scss is None ==> r.scss == !c.no_default_features
            &&& c.tera == quiet && block.tera is None ==> r.tera == !c.no_default_features
            &&& c.minify == quiet && block.minify is None ==> !r.minify
            &&& c.gzip == quiet && block.gzip is None ==> !r.gzip
            &&& c.typescript == quiet && block.typescript is Some ==> r.typescript
                == block.typescript->Some_0
            &&& c.scss == quiet && block.scss is Some ==> r.scss == block.scss->Some_0
            &&& c.tera == quiet && block.tera is Some ==> r.tera == block.tera->Some_0
            &&& c.minify == quiet && block.minify is Some ==> r.minify == block.minify->Some_0
            &&& c.minify.on && !c.minify.off ==> r.minify
            &&& c.gzip.on && !c.gzip.off ==> r.gzip == compress
            &&& !compress ==> !r.gzip
            &&& r.ts_decorators == c.decorators
            &&& r.extra_scss_load_paths == texts(c.scss_load_paths@) + block.scss_load_paths
        }),
{
}

/// The processors of a build are the resolved ones, and everything else about them is the default.
pub proof fn law_processors_of(r: Resolved)
    ensures
        ({
            let p = processors_of(r);
            &&& p.typescript == r.typescript && p.scss == r.scss && p.tera == r.tera
            &&& p.ts_decorators == r.ts_decorators && p.extra_scss_load_paths
                == r.extra_scss_load_paths
            &&& p.reject == default_processors().reject && p.symlinks
                == default_processors().symlinks
            &&& !p.skip_duplicates && !p.sourcemap && !p.bundle && p.bundle_entries.len() == 0
        }),
{
}

/// A flag's value wins over the block's, and that over the default; a list of flags that is not
/// empty wins over the block's; and without roots the current directory is the root.
pub proof fn law_layers<T>(
    flag: T,
    block: Option<T>,
    default: T,
    list: Seq<Seq<char>>,
    other: Seq<Seq<char>>,
)
    ensures
        picked(Some(flag), block, default) == flag,
        picked(None, Some(flag), default) == flag,
        picked(None, None, default) == default,
        list.len() > 0 ==> listed_or(list, other) == list && rooted_or_cwd(list) == list,
        listed_or(Seq::empty(), other) == other,
        rooted_or_cwd(Seq::empty()) == seq!["."@],
{
}

/// What a build is asked for is what the flags say, else the block, else the defaults: the output
/// goes to `dist`, the mount is `/web_modules`, and each part is taken from its own place.
pub proof fn law_build_request(
    args: BuildArgs,
    block: Settings,
    manifests: Seq<Manifest>,
    compress: bool,
)
    ensures
        build_request(args, block, manifests, compress) matches Ok(request) ==> {
            let r = resolved(args.compiler, block, compress);
            &&& request.output.minify == r.minify && request.output.gzip == r.gzip
            &&& request.output.minify_web_modules && request.output.comments is None
            &&& opt_text(args.out) matches Some(out) ==> request.out == out
            &&& args.out is None && block.out is Some ==> request.out == block.out->Some_0
            &&& args.out is None && block.out is None ==> request.out == "dist"@
            &&& opt_text(args.mount) matches Some(mount) ==> request.mount == mount
            &&& args.mount is None && block.mount is Some ==> request.mount == block.mount->Some_0
            &&& args.mount is None && block.mount is None ==> request.mount == "/web_modules"@
            &&& opt_text(args.html) matches Some(html) ==> request.html == html
            &&& args.html is None && block.html is Some ==> request.html == block.html->Some_0
            &&& opt_text(args.template) matches Some(t) ==> request.template == Some(t)
            &&& args.template is None ==> request.template == block.template
            &&& args.roots@.len() > 0 ==> request.roots == texts(args.roots@)
            &&& args.roots@.len() == 0 && block.roots.len() > 0 ==> request.roots == block.roots
            &&& args.roots@.len() == 0 && block.roots.len() == 0 ==> request.roots == seq!["."@]
            &&& request.processors == processors_of(r)
            &&& args.packages@.len() > 0 ==> selected(texts(args.packages@), manifests, false)
                == Ok::<Seq<Wanted>, Failure>(request.specs)
            &&& args.packages@.len() == 0 ==> selected(block.packages, manifests, false) == Ok::<
                Seq<Wanted>,
                Failure,
            >(request.specs)
        },
        build_request(args, block, manifests, compress) is Err <==> selected(
            if args.packages@.len() > 0 {
                texts(args.packages@)
            } else {
                block.packages
            },
            manifests,
            false,
        ) is Err,
{
}

/// Without a `package.json` nothing is configured and there is no manifest; with one that has no
/// block nothing is configured, but it is a manifest; with a block, the block decides.
pub proof fn law_configured(path: Seq<char>, bytes: Seq<u8>, doc: Tree)
    requires
        json::json_document(bytes) == Ok::<Tree, Seq<char>>(doc),
    ensures
        configured(path, None) == Ok::<(Settings, Option<Seq<char>>), Seq<char>>((unset(), None)),
        field(doc, "web_modules"@) is None ==> configured(path, Some(bytes)) == Ok::<
            (Settings, Option<Seq<char>>),
            Seq<char>,
        >((unset(), Some(path))),
        field(doc, "web_modules"@) matches Some(block) ==> (configured(path, Some(bytes)) is Ok
            <==> block_settings(block) is Ok),
        field(doc, "web_modules"@) matches Some(block) ==> (block_settings(block) matches Ok(s)
            ==> configured(path, Some(bytes)) == Ok::<(Settings, Option<Seq<char>>), Seq<char>>(
            (s, Some(path)),
        )),
{
}

} // verus!
