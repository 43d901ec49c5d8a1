use web_modules::build::builder::Build;
use web_modules::build::options::{Decorators, Output, DEFAULT_HTML, DEFAULT_MOUNT};
use web_modules::config::{
    build_options, load_pkg_config, parse_block, pick, pick_vec, roots_or_cwd, summary, BuildArgs,
    CompilerConfig, PkgConfig, ResolvedCompiler, Toggle,
};
use web_modules::error::Error;
use web_modules::json::parse;
use web_modules::reject::Presets;
use web_modules::vendor::select::Manifest;
use web_modules::vendor::spec::PackageSpec;

#[test]
fn toggles_and_output_map_to_processors() {
    let b = Build::new()
        .root("web")
        .scss(false)
        .tera(false)
        .minify(true)
        .gzip(true)
        .scss_load_path("styles");
    assert_eq!(b.roots, ["web".to_string()]);
    assert!(b.processors.typescript, "typescript stays default-on");
    assert!(!b.processors.scss && !b.processors.tera, "explicit off");
    assert!(b.output.minify && b.output.gzip);
    assert_eq!(b.processors.extra_scss_load_paths, ["styles".to_string()]);
}

#[test]
fn optimized_is_minify_and_gzip() {
    let made = || {
        Build::new()
            .root("web")
            .root("shared")
            .out("dist")
            .mount("/m")
            .html("<p>")
            .template("t.html")
            .vendor("lit@^3")
            .manifest("package.json")
            .scss(false)
    };
    assert_eq!(made().optimized(), made().minify(true).gzip(true));
    assert_eq!(
        made().minify(false).optimized(),
        made().gzip(true).minify(true)
    );
    assert_ne!(made().optimized(), made().minify(true));
}

#[test]
fn optimized_sets_both_outputs() {
    let b = Build::new().optimized();
    assert!(b.output.minify && b.output.gzip);
}

#[test]
fn reject_preset_and_pattern_compose_on_processors() {
    let b = Build::new()
        .root("web")
        .reject_preset(Presets::ALL & !Presets::CONFIG)
        .reject(".htpasswd");
    let r = &b.processors.reject;
    assert!(r.rejects("app.ts"), "source preset still on");
    assert!(r.rejects(".env"), "hidden preset still on");
    assert!(!r.rejects("package.json"), "config preset dropped");
    assert!(r.rejects(".htpasswd"), "extra pattern added on top");
}

#[test]
fn vendor_parses_specs() {
    let b = Build::new().vendor("lit@^3").vendor("@lit/context@^1");
    let names: Vec<&str> = b.specs.iter().map(PackageSpec::name).collect();
    assert_eq!(names, ["lit", "@lit/context"]);
}

#[test]
fn run_requires_out() {
    let err = Build::new().root("web").run(&vec![]).unwrap_err();
    assert!(
        matches!(err, Error::Build(_)),
        "missing out is a build error"
    );
}

#[test]
fn run_builds_a_non_vendored_tree() {
    let options = Build::new().root("src").out("out").run(&vec![]).unwrap();
    assert_eq!(options.roots, ["src".to_string()]);
    assert_eq!(options.out, "out");
    assert_eq!(options.mount, DEFAULT_MOUNT);
    assert_eq!(options.html, DEFAULT_HTML);
    assert!(options.specs.is_empty(), "no specs, so no vendoring");
}

#[test]
fn a_builder_takes_the_dependencies_of_its_manifests() {
    let manifest = Manifest {
        path: "package.json".to_string(),
        bytes: br#"{"dependencies":{"lit":"^2","ms":"^2"}}"#.to_vec(),
    };
    let options = Build::default()
        .roots(&vec!["a".to_string(), "b".to_string()])
        .out("out")
        .mount("/m")
        .html("<x>")
        .template("shell.tera")
        .typescript(false)
        .decorators(Decorators::Standard)
        .scss_load_paths(&vec!["s".to_string()])
        .vendor("lit@^3")
        .vendor_specs(vec![PackageSpec::npm("jose", "^5")])
        .manifest("package.json")
        .run(&vec![manifest])
        .unwrap();
    let names: Vec<&str> = options.specs.iter().map(PackageSpec::name).collect();
    assert!(names.contains(&"jose") && names.contains(&"ms"));
    assert_eq!(options.template.as_deref(), Some("shell.tera"));
    assert!(!options.processors.typescript);
    assert_eq!(options.processors.ts_decorators, Decorators::Standard);
}

const UNSET: Toggle = Toggle {
    on: false,
    off: false,
};
const ON: Toggle = Toggle {
    on: true,
    off: false,
};
const OFF: Toggle = Toggle {
    on: false,
    off: true,
};
const BOTH: Toggle = Toggle {
    on: true,
    off: true,
};

fn compiler() -> CompilerConfig {
    CompilerConfig {
        no_default_features: false,
        typescript: UNSET,
        decorators: Decorators::Lit,
        scss: UNSET,
        scss_load_paths: vec![],
        tera: UNSET,
        minify: UNSET,
        gzip: UNSET,
    }
}

fn resolve(config: &CompilerConfig) -> ResolvedCompiler {
    config.resolve_with(&PkgConfig::default(), true)
}

fn args() -> BuildArgs {
    BuildArgs {
        roots: vec![],
        out: None,
        mount: None,
        html: None,
        template: None,
        packages: vec![],
        compiler: compiler(),
    }
}

#[test]
fn build_out_defaults_to_dist() {
    // `--out` wins, then `web_modules.out`, then the `dist` convention.
    let dist = "dist".to_string();
    assert_eq!(pick(None::<String>, None, dist.clone()), dist);
    assert_eq!(
        pick(None, Some("b".to_string()), dist.clone()),
        "b".to_string()
    );
    assert_eq!(
        pick(Some("a".to_string()), Some("b".to_string()), dist),
        "a".to_string()
    );
    let options = build_options(args(), PkgConfig::default(), &vec![], true).unwrap();
    assert_eq!(options.out, "dist");
}

#[test]
fn build_defaults_roots_to_cwd() {
    assert_eq!(roots_or_cwd(vec![]), [".".to_string()]);
    let options = build_options(args(), PkgConfig::default(), &vec![], true).unwrap();
    assert_eq!(options.roots, [".".to_string()]);
}

#[test]
fn build_parses_positional_roots_and_packages() {
    let mut args = args();
    args.roots = vec!["web".to_string(), "shared".to_string()];
    args.out = Some("dist".to_string());
    args.mount = Some("/repo/web_modules".to_string());
    args.packages = vec!["lit@^3".to_string(), "@lit/context@^1".to_string()];
    args.compiler.minify = ON;
    let options = build_options(args, PkgConfig::default(), &vec![], true).unwrap();
    assert_eq!(options.roots, ["web".to_string(), "shared".to_string()]);
    assert_eq!(options.out, "dist");
    assert_eq!(options.mount, "/repo/web_modules");
    let names: Vec<&str> = options.specs.iter().map(PackageSpec::name).collect();
    assert_eq!(names, ["lit", "@lit/context"]);
    assert!(options.output.minify, "--minify opts in");
}

#[test]
fn toggles_default_on_set_and_opt_in() {
    let d = resolve(&compiler());
    assert!(d.typescript && d.scss && d.tera, "ts/scss/tera default on");
    assert!(!d.minify && !d.gzip, "minify/gzip default off");
    let mut minified = compiler();
    minified.minify = ON;
    assert!(resolve(&minified).minify, "--minify opts in");
}

#[test]
fn toggles_no_scss_disables_regardless_of_order() {
    let scss = |toggle: Toggle| {
        let mut config = compiler();
        config.scss = toggle;
        resolve(&config).scss
    };
    assert!(!scss(OFF));
    // `--no-<name>` wins over `--<name>`, in either order.
    assert!(!scss(BOTH));
    assert!(scss(ON));
}

#[test]
fn no_default_features_disables_then_reenables() {
    let mut config = compiler();
    config.no_default_features = true;
    let nd = resolve(&config);
    assert!(
        !nd.typescript && !nd.scss && !nd.tera,
        "--no-default-features turns the default-on set off"
    );
    config.scss = ON;
    let one = resolve(&config);
    assert!(one.scss, "--scss re-enables after --no-default-features");
    assert!(!one.typescript && !one.tera, "the others stay off");
}

#[test]
fn typescript_decorators_default_lit() {
    assert_eq!(Decorators::default(), Decorators::Lit);
    assert_eq!(resolve(&compiler()).ts_decorators, Decorators::Lit);
    let mut standard = compiler();
    standard.decorators = Decorators::Standard;
    assert_eq!(resolve(&standard).ts_decorators, Decorators::Standard);
    assert_eq!(
        resolve(&standard).into_processors().ts_decorators,
        Decorators::Standard
    );
}

#[test]
fn loads_absent_file_as_empty() {
    let (cfg, path) = load_pkg_config("package.json", None).unwrap();
    assert!(path.is_none());
    assert!(cfg.out.is_none() && cfg.roots.is_empty() && cfg.scss.is_none());
}

fn load(json: &str) -> Result<(PkgConfig, Option<String>), String> {
    load_pkg_config("package.json", Some(json.as_bytes()))
}

#[test]
fn parses_full_block() {
    let (cfg, path) = load(
        r#"{ "web_modules": {
                "roots": ["web", "shared"], "out": "dist", "mount": "/m",
                "html": "<x>", "template": "shell.html.tera", "packages": ["lit@^3"],
                "minify": true, "gzip": false,
                "typescript": true,
                "scss": { "loadPaths": ["styles"] },
                "tera": false
            } }"#,
    )
    .unwrap();
    assert!(path.is_some());
    assert_eq!(cfg.roots, ["web".to_string(), "shared".to_string()]);
    assert_eq!(cfg.out.as_deref(), Some("dist"));
    assert_eq!(cfg.mount.as_deref(), Some("/m"));
    assert_eq!(cfg.html.as_deref(), Some("<x>"));
    assert_eq!(cfg.template.as_deref(), Some("shell.html.tera"));
    assert_eq!(cfg.packages, ["lit@^3".to_string()]);
    assert_eq!(cfg.minify, Some(true));
    assert_eq!(cfg.gzip, Some(false));
    assert_eq!(cfg.typescript, Some(true)); // bool form enables
    assert_eq!(cfg.scss, Some(true));
    assert_eq!(cfg.scss_load_paths, ["styles".to_string()]);
    assert_eq!(cfg.tera, Some(false)); // bool form disables
}

#[test]
fn processor_bool_disables_object_enables() {
    let (cfg, _) = load(r#"{"web_modules":{"scss":false}}"#).unwrap();
    assert_eq!(cfg.scss, Some(false));
    assert!(cfg.scss_load_paths.is_empty());

    let (cfg, _) = load(r#"{"web_modules":{"scss":{"loadPaths":["a","b"]}}}"#).unwrap();
    assert_eq!(cfg.scss, Some(true));
    assert_eq!(cfg.scss_load_paths, ["a".to_string(), "b".to_string()]);
}

#[test]
fn malformed_block_errors() {
    for bad in [
        r#"{"web_modules": []}"#,           // not an object
        r#"{"web_modules": {"mount": 5}}"#, // wrong scalar type
        r#"{"web_modules": {"scss": 3}}"#,  // processor not bool/object
        r#"{ not json "#,                   // malformed JSON
    ] {
        assert!(load(bad).is_err(), "should reject: {bad}");
    }
}

#[test]
fn ignores_webdeps_and_root_returns_path() {
    // The block's vendoring/mount keys are owned elsewhere: the loader skips them, and a
    // package.json with no flag keys still yields its path (so a build can auto-vendor deps).
    let (cfg, path) = load(
        r#"{ "dependencies": {"lit": "^3"},
                 "web_modules": { "webDependencies": ["lit"], "root": "./src" } }"#,
    )
    .unwrap();
    assert!(path.is_some());
    assert!(cfg.roots.is_empty() && cfg.out.is_none() && cfg.scss.is_none());
}

#[test]
fn pick_and_pick_vec_precedence() {
    assert_eq!(pick(Some("a"), Some("b"), "c"), "a");
    assert_eq!(pick(None, Some("b"), "c"), "b");
    assert_eq!(pick(None::<&str>, None, "c"), "c");
    assert_eq!(pick_vec(vec!["a"], vec!["b"]), ["a"]);
    assert_eq!(pick_vec(Vec::<&str>::new(), vec!["b"]), ["b"]);
}

#[test]
fn toggle_folds_block_under_cli() {
    let block = |scss: Option<bool>| {
        let mut cfg = PkgConfig::default();
        cfg.scss = scss;
        cfg
    };
    let scss = |toggle: Toggle, no_default_features: bool, scss: Option<bool>| {
        let mut config = compiler();
        config.scss = toggle;
        config.no_default_features = no_default_features;
        config.resolve_with(&block(scss), true).scss
    };
    // block disables, no flag: off; `--scss` beats block-off.
    assert!(!scss(UNSET, false, Some(false)));
    assert!(scss(ON, false, Some(false)));
    // block enables, `--no-scss` beats block-on.
    assert!(!scss(OFF, false, Some(true)));
    // `--no-default-features` suppresses the default, but a block `scss:true` re-enables;
    // `--no-default-features` alone leaves scss off.
    assert!(scss(UNSET, true, Some(true)));
    assert!(!scss(UNSET, true, None));
    assert!(ON.enabled(false, true) && !OFF.enabled(true, false) && UNSET.enabled(true, false));
}

#[test]
fn scss_load_paths_concat_cli_then_block() {
    let mut block = PkgConfig::default();
    block.scss_load_paths = vec!["b".to_string()];
    let mut config = compiler();
    config.scss_load_paths = vec!["a".to_string()];
    let r = config.resolve_with(&block, true);
    assert_eq!(
        r.extra_scss_load_paths,
        ["a".to_string(), "b".to_string()]
    );
}

#[test]
fn a_block_is_layered_under_the_flags() {
    let block = parse(br#"{"out":"b","mount":"/b","packages":["ms"],"gzip":true}"#).unwrap();
    let cfg = parse_block(&block).unwrap();
    let mut args = args();
    args.mount = Some("/a".to_string());
    let options = build_options(args, cfg, &vec![], true).unwrap();
    assert_eq!(options.out, "b");
    assert_eq!(options.mount, "/a");
    assert_eq!(options.specs.len(), 1);
    assert!(options.output.gzip);
    assert!(summary(&options).contains('b'));
}

#[test]
fn without_compression_gzip_stays_off() {
    let mut config = compiler();
    config.gzip = ON;
    assert!(config.resolve_with(&PkgConfig::default(), true).gzip);
    assert!(!config.resolve_with(&PkgConfig::default(), false).gzip);
    assert_eq!(Output::new(true, true).comments, None);
}
