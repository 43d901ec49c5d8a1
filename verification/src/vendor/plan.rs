//! How a source dependency is compiled: the layout and the emit semantics of the
//! `tsconfig.json` it brought with it.
//!
//! Reproducing them is what lets a source-built package keep the entry its manifest
//! already declares. Emit-affecting options beyond those are refused rather than
//! approximated, so the gap between this and the package's own `tsc` run is an error and
//! not a surprise: `paths`/`baseUrl` aliases (the emitted specifiers would not resolve in
//! a browser), `extends` (the real options live in a file that is not there),
//! `emitDecoratorMetadata` (the metadata needs a decorator runtime), JSX modes and
//! factories, and CommonJS output. Each refusal names the package, because the failure is
//! a property of the dependency and not of the project vendoring it.

use vstd::prelude::*;

use crate::error::{shown, Error, Failure};
use crate::path;
use crate::text;
use crate::text::opt_text;
use crate::tsconfig::{
    class_fields_defined, commonjs_declared, declared_layout, unset, CompilerOptions, LayoutSpec,
    SourceLayout, TsConfig,
};
use crate::tsconfig_read::parsed_config;

verus! {

/// How a source dependency is compiled.
#[derive(Debug, PartialEq, Eq)]
pub struct SourcePlan {
    /// Where its sources are rooted and its output goes.
    pub layout: SourceLayout,
    /// The config itself, which also says which files are inputs.
    pub config: TsConfig,
    /// `useDefineForClassFields`, or what the target implies.
    pub defines_class_fields: bool,
    /// `experimentalDecorators`.
    pub legacy_decorators: bool,
    /// `rewriteRelativeImportExtensions`.
    pub rewrite_import_extensions: bool,
}

/// The option that makes a config impossible to reproduce, with what is said of it: the
/// first of them, in the order in which they are looked at.
pub open spec fn refusal(c: TsConfig) -> Option<Seq<char>> {
    let o = c.compiler_options;
    if c.extends is Some {
        Some(
            ": tsconfig.json `extends` another config, which is not in the package \u{2014} its real compiler options cannot be known from here"@,
        )
    } else if o.paths is Some {
        Some(alias_refusal("paths"@))
    } else if o.base_url is Some {
        Some(alias_refusal("baseUrl"@))
    } else if o.emit_decorator_metadata == Some(true) {
        Some(
            ": tsconfig.json sets `emitDecoratorMetadata`, which needs a decorator runtime this compiler does not emit"@,
        )
    } else if o.jsx is Some {
        Some(jsx_refusal("jsx"@))
    } else if o.jsx_import_source is Some {
        Some(jsx_refusal("jsxImportSource"@))
    } else if o.jsx_factory is Some {
        Some(jsx_refusal("jsxFactory"@))
    } else if o.jsx_fragment_factory is Some {
        Some(jsx_refusal("jsxFragmentFactory"@))
    } else if commonjs_declared(o) {
        Some(
            ": tsconfig.json emits CommonJS ("@ + commonjs_reason(o)
                + "), which this compiler does not produce — a browser-ready package has to be ES modules"@,
        )
    } else {
        None
    }
}

/// What is said of an alias option.
pub open spec fn alias_refusal(option: Seq<char>) -> Seq<char> {
    ": tsconfig.json sets `"@ + option
        + "`, so its imports resolve through aliases a browser cannot follow"@
}

/// What is said of a JSX option.
pub open spec fn jsx_refusal(option: Seq<char>) -> Seq<char> {
    ": tsconfig.json sets `"@ + option + "`, which this compiler does not reproduce"@
}

/// Why a config is read as emitting CommonJS.
pub open spec fn commonjs_reason(o: CompilerOptions) -> Seq<char> {
    match opt_text(o.module) {
        Some(module) => "module "@ + module,
        None => match opt_text(o.target) {
            Some(target) => "implied by target Some("@ + text::debug_form(target) + ")"@,
            None => "implied by target None"@,
        },
    }
}

/// The plan of a package: nothing to reproduce without a config; refused when its config
/// cannot be reproduced or its layout leaves the package.
pub open spec fn planned(
    config: Option<TsConfig>,
    package: Seq<char>,
    r: Result<SourcePlan, Error>,
) -> bool {
    match config {
        None => r matches Ok(plan) && plan.layout@ == (LayoutSpec { root: None, out: Seq::empty() })
            && unset(plan.config.compiler_options) && plan.config.files@.len() == 0
            && plan.config.included@.len() == 0 && plan.config.exclude@.len() == 0
            && plan.config.extends is None && !plan.defines_class_fields && !plan.legacy_decorators
            && !plan.rewrite_import_extensions,
        Some(c) => match refusal(c) {
            Some(why) => r matches Err(e) && e@ == Failure::Vendor(package + why),
            None => match declared_layout(c.compiler_options) {
                Err(e) => r matches Err(f) && f@ == Failure::Vendor(
                    package + ": "@ + shown(e)->Some_0,
                ),
                Ok(layout) => r matches Ok(plan) && plan.layout@ == layout && plan.config == c
                    && plan.defines_class_fields == class_fields_defined(c.compiler_options)
                    && plan.legacy_decorators == (c.compiler_options.experimental_decorators
                    == Some(true)) && plan.rewrite_import_extensions == (
                c.compiler_options.rewrite_relative_import_extensions == Some(true)),
            },
        },
    }
}

fn aliased(option: &str) -> (r: String)
    ensures
        r@ == alias_refusal(option@),
{
    ": tsconfig.json sets `".to_owned().concat(option).concat(
        "`, so its imports resolve through aliases a browser cannot follow",
    )
}

fn jsx_set(option: &str) -> (r: String)
    ensures
        r@ == jsx_refusal(option@),
{
    ": tsconfig.json sets `".to_owned().concat(option).concat(
        "`, which this compiler does not reproduce",
    )
}

/// Whether an optional switch is on.
fn is_on(o: Option<bool>) -> (r: bool)
    ensures
        r == (o == Some(true)),
{
    match o {
        Some(b) => b,
        None => false,
    }
}

/// Why a config cannot be reproduced, if it cannot.
fn refused(c: &TsConfig) -> (r: Option<String>)
    ensures
        opt_text(r) == refusal(*c),
{
    let o = &c.compiler_options;
    if c.extends.is_some() {
        Some(
            ": tsconfig.json `extends` another config, which is not in the package \u{2014} its real compiler options cannot be known from here".to_owned(),
        )
    } else if o.paths.is_some() {
        Some(aliased("paths"))
    } else if o.base_url.is_some() {
        Some(aliased("baseUrl"))
    } else if is_on(o.emit_decorator_metadata) {
        Some(
            ": tsconfig.json sets `emitDecoratorMetadata`, which needs a decorator runtime this compiler does not emit".to_owned(),
        )
    } else if o.jsx.is_some() {
        Some(jsx_set("jsx"))
    } else if o.jsx_import_source.is_some() {
        Some(jsx_set("jsxImportSource"))
    } else if o.jsx_factory.is_some() {
        Some(jsx_set("jsxFactory"))
    } else if o.jsx_fragment_factory.is_some() {
        Some(jsx_set("jsxFragmentFactory"))
    } else if c.emits_commonjs() {
        let reason = match &o.module {
            Some(module) => "module ".to_owned().concat(module.as_str()),
            None => match &o.target {
                Some(target) => "implied by target Some(".to_owned().concat(
                    text::debug_text(target.as_str()).as_str(),
                ).concat(")"),
                None => "implied by target None".to_owned(),
            },
        };
        Some(
            ": tsconfig.json emits CommonJS (".to_owned().concat(reason.as_str()).concat(
                "), which this compiler does not produce — a browser-ready package has to be ES modules",
            ),
        )
    } else {
        None
    }
}

/// The plan for a source dependency with this config, or none: without a config it is
/// compiled in place, which is what `tsc` does with no `outDir`, with its defaults for
/// the rest.
pub fn source_plan(config: Option<TsConfig>, package: &str) -> (r: Result<SourcePlan, Error>)
    ensures
        planned(config, package@, r),
{
    let config = match config {
        Some(c) => c,
        None => {
            return Ok(
                SourcePlan {
                    layout: SourceLayout::default(),
                    config: TsConfig::default(),
                    defines_class_fields: false,
                    legacy_decorators: false,
                    rewrite_import_extensions: false,
                },
            );
        },
    };
    if let Some(why) = refused(&config) {
        return Err(Error::Vendor(package.to_owned().concat(why.as_str())));
    }
    match config.layout() {
        Err(e) => Err(
            Error::Vendor(package.to_owned().concat(": ").concat(e.to_string().as_str())),
        ),
        Ok(layout) => {
            let defines_class_fields = config.defines_class_fields();
            let legacy_decorators = is_on(config.compiler_options.experimental_decorators);
            let rewrite_import_extensions = is_on(
                config.compiler_options.rewrite_relative_import_extensions,
            );
            Ok(
                SourcePlan {
                    layout,
                    config,
                    defines_class_fields,
                    legacy_decorators,
                    rewrite_import_extensions,
                },
            )
        },
    }
}

/// The plan for the source dependency in `dir`, given the text of its `tsconfig.json` if it
/// has one: the [`source_plan`] of what that text says, or the package's name before what is
/// wrong with it.
pub fn plan_in(dir: &str, raw: Option<&str>, package: &str) -> (r: Result<SourcePlan, Error>)
    ensures
        match raw {
            None => planned(None, package@, r),
            Some(raw) => match parsed_config(raw@) {
                Ok(c) => exists|config: TsConfig|
                    config@ == c && #[trigger] planned(Some(config), package@, r),
                Err(e) => r matches Err(f) && f@ == Failure::Vendor(
                    package@ + ": vendor: "@ + path::under(dir@, "tsconfig.json"@) + ": "@
                        + shown(e)->Some_0,
                ),
            },
        },
{
    match TsConfig::load(dir, raw) {
        Ok(config) => source_plan(config, package),
        Err(e) => {
            let message = package.to_owned().concat(": ").concat(e.to_string().as_str());
            proof {
                reveal_strlit(": ");
                reveal_strlit("vendor: ");
                reveal_strlit(": vendor: ");
                assert(": vendor: "@ =~= ": "@ + "vendor: "@);
                let place = path::under(dir@, "tsconfig.json"@);
                let inner = shown(parsed_config(raw->Some_0@)->Err_0)->Some_0;
                assert(message@ =~= package@ + ": vendor: "@ + place + ": "@ + inner);
            }
            Err(Error::Vendor(message))
        },
    }
}

/// A config is reproduced unless it extends another, aliases its imports, asks for decorator
/// metadata or JSX, or emits CommonJS; each of these alone is enough to refuse it.
pub proof fn law_what_is_refused(c: TsConfig)
    ensures
        refusal(c) is None <==> ({
            let o = c.compiler_options;
            &&& c.extends is None
            &&& o.paths is None
            &&& o.base_url is None
            &&& o.emit_decorator_metadata != Some(true)
            &&& o.jsx is None
            &&& o.jsx_import_source is None
            &&& o.jsx_factory is None
            &&& o.jsx_fragment_factory is None
            &&& !commonjs_declared(o)
        }),
{
}

/// A plan is made when the config is not refused and its layout stays in the package, and it says
/// what the config says; a refusal begins with the package's name.
pub proof fn law_plan_follows_the_config(c: TsConfig, package: Seq<char>, r: Result<
    SourcePlan,
    Error,
>)
    requires
        planned(Some(c), package, r),
    ensures
        r is Ok <==> refusal(c) is None && declared_layout(c.compiler_options) is Ok,
        r matches Ok(plan) ==> {
            &&& plan.config == c
            &&& declared_layout(c.compiler_options) == Ok::<LayoutSpec, Failure>(plan.layout@)
            &&& plan.defines_class_fields == class_fields_defined(c.compiler_options)
            &&& plan.legacy_decorators <==> c.compiler_options.experimental_decorators == Some(true)
            &&& plan.rewrite_import_extensions
                <==> c.compiler_options.rewrite_relative_import_extensions == Some(true)
        },
        r matches Err(e) ==> (e@ matches Failure::Vendor(m) && package.is_prefix_of(m)),
{
    if let Err(e) = r {
        match refusal(c) {
            Some(why) => {
                assert((package + why).subrange(0, package.len() as int) =~= package);
            },
            None => {
                let f = declared_layout(c.compiler_options)->Err_0;
                let m = package + ": "@ + shown(f)->Some_0;
                assert(m.subrange(0, package.len() as int) =~= package);
            },
        }
    }
}

/// Without a config the package is compiled in place, with every option off.
pub proof fn law_plan_without_a_config(package: Seq<char>, r: Result<SourcePlan, Error>)
    requires
        planned(None, package, r),
    ensures
        r matches Ok(plan) && plan.layout@.root is None && plan.layout@.out.len() == 0
            && !plan.defines_class_fields && !plan.legacy_decorators
            && !plan.rewrite_import_extensions && plan.config.included@.len() == 0
            && plan.config.files@.len() == 0 && plan.config.exclude@.len() == 0,
{
}

} // verus!
