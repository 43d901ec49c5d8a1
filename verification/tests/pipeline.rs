use web_modules::build::admission::{
    self, check_claims, gzip_exts, is_gzip_ext, reservation, Generates,
};
use web_modules::build::marker::{
    build_profile, ensure_replaceable, marker, marker_profile, seeds, sibling, vendor_profile, Occupant,
    OUT_MARKER, VERSION,
};
use web_modules::build::optimize::{
    emit_asset, is_asset_rewritten, rewrite_vendor_tree, Attempt, Emission,
};
use web_modules::build::options::{Comments, Features, Output, Processors};
use web_modules::build::preflight::{preflight, PreflightReport, Root, Seen, WalkPolicy};
use web_modules::build::run::{
    asset_reference, carry, check_imports, fallback_index, first_actions, import_list,
    is_vendor_map, later_actions, place_asset, remove_vendor_maps, rendered_imports,
    scss_load_paths, seed_vendor_cache, transpile_options, vendor_transform_runtime, Action,
    Carry, Page,
};
use web_modules::build::steps::enabled_steps;
use web_modules::build::swap::{Swap, Went};
use web_modules::build::templates::{importmap_context, render_str, tag_context};
use web_modules::error::Error;
use web_modules::importmap::Importmap;
use web_modules::module_graph::{imports_from_source, ModuleGraph};
use web_modules::reject::Reject;
use web_modules::static_files::record;
use web_modules::symlinks::SymlinkMode;
use web_modules::walk::{Kind, Visited};

const ALL: Features = Features {
    typescript: true,
    scss: true,
    tera: true,
    md_tmpl: true,
    compress: true,
    bundle: true,
};

fn survey(roots: &[(&str, &[&str])], processors: &Processors) -> PreflightReport {
    let roots: Vec<Root> = roots
        .iter()
        .map(|(path, names)| Root {
            path: path.to_string(),
            canonical: Ok(path.to_string()),
            seen: names
                .iter()
                .map(|name| Seen::Entry {
                    path: format!("{path}/{name}"),
                    is_file: true,
                    link: None,
                    canonical: Ok(format!("{path}/{name}")),
                })
                .collect(),
        })
        .collect();
    let policy = WalkPolicy {
        reject: processors.reject.clone(),
        symlinks: processors.symlinks,
    };
    preflight(&roots, &enabled_steps(processors, &ALL), &policy)
}

/// Check the claims of a tree: the winning sources by target, or why it is refused.
fn admitted(
    roots: &[(&str, &[&str])],
    processors: &Processors,
    output: &Output,
) -> Result<Vec<(String, String)>, Error> {
    let report = survey(roots, processors);
    let names: Vec<String> = roots.iter().map(|(path, _)| path.to_string()).collect();
    let winners = check_claims(
        &names,
        &enabled_steps(processors, &ALL),
        &report,
        processors.skip_duplicates,
        &Generates::of(processors, output, &ALL),
    )?;
    Ok(winners
        .into_iter()
        .map(|w| (w.out_rel, format!("{}/{}", names[w.root], w.rel)))
        .collect())
}

fn refused(roots: &[(&str, &[&str])], processors: &Processors, output: &Output) -> String {
    admitted(roots, processors, output).unwrap_err().to_string()
}

fn skipping() -> Processors {
    let mut processors = Processors::default();
    processors.skip_duplicates = true;
    processors
}

fn source_of(winners: &[(String, String)], target: &str) -> String {
    winners
        .iter()
        .find(|(out, _)| out == target)
        .map(|(_, source)| source.clone())
        .unwrap()
}

#[test]
fn output_optimized_enables_both() {
    let o = Output::optimized();
    assert!(o.minify && o.gzip, "the production preset turns both on");
}

#[test]
fn vendor_profile_names_every_tree_shaping_toggle() {
    let mut p = Processors::default();
    let mut o = Output::default();
    assert_eq!(vendor_profile(&p, &o), "", "pristine by default");
    p.sourcemap = true;
    assert_eq!(vendor_profile(&p, &o), "vendor-profile: sourcemaps");
    o.minify = true;
    assert_eq!(
        vendor_profile(&p, &o),
        "vendor-profile: sourcemaps,minify,comments=strip",
        "minify implies the strip policy"
    );
    p.sourcemap = false;
    o = o.comments(Comments::Keep);
    assert_eq!(
        vendor_profile(&p, &o),
        "vendor-profile: minify",
        "an explicit keep leaves only the minify shaping"
    );
    o = o.comments(Comments::Collect);
    o.minify = false;
    assert_eq!(
        vendor_profile(&p, &o),
        "vendor-profile: comments=collect",
        "a comment policy alone shapes the tree"
    );
    o = o.minify_web_modules(false);
    assert_eq!(
        vendor_profile(&p, &o),
        "",
        "the vendor knob keeps the tree pristine"
    );
}

#[test]
fn effective_comments_resolution() {
    let mut o = Output::default();
    assert_eq!(o.effective_comments(), Comments::Keep);
    o.minify = true;
    assert_eq!(
        o.effective_comments(),
        Comments::Strip,
        "minify implies strip"
    );
    assert_eq!(
        o.comments(Comments::Keep).effective_comments(),
        Comments::Keep,
        "an explicit choice wins"
    );
}

#[test]
fn marker_profile_reads_previous_outputs() {
    // An absent marker and a bare pre-profile marker both read as pristine.
    assert_eq!(marker_profile(None), "");
    assert_eq!(marker_profile(Some("0.7.0\n")), "");
    assert_eq!(
        marker_profile(Some("0.8.0\nvendor-profile: sourcemaps\n")),
        "vendor-profile: sourcemaps"
    );
}

#[test]
fn a_marker_gives_back_the_profile_written_to_it() {
    let profile = "vendor-profile: sourcemaps,minify";
    let written = marker(profile);
    assert_eq!(written, format!("{VERSION}\n{profile}\n"));
    assert_eq!(marker_profile(Some(&written)), profile);
    assert_eq!(marker(""), format!("{VERSION}\n"));
    assert!(seeds(Some(&written), profile));
    assert!(!seeds(Some(&written), ""), "a changed profile is stale");
}

#[test]
fn template_renders_importmap_variable() {
    let mut map = Importmap::new();
    map.insert("lit", "/web_modules/lit/index.js");
    let html = render_str(
        "<head>{{ importmap | safe }}</head>",
        &tag_context(&map.to_script_tag()),
    )
    .unwrap();
    assert!(html.contains("<script type=\"importmap\">"));
    assert!(html.contains("/web_modules/lit/index.js"));
    assert_eq!(
        render_str("{{ importmap | safe }}", &importmap_context(&map)).unwrap(),
        map.to_script_tag()
    );
}

#[test]
fn source_map_target_is_reserved() {
    // A source shipping `app.js.map` beside `app.ts` would collide with the
    // generated map: refused up front, like the gzip sidecars.
    let tree: &[(&str, &[&str])] = &[("web", &["app.js.map", "app.ts"])];
    let mut p = Processors::default();
    p.sourcemap = true;
    let err = refused(tree, &p, &Output::default());
    assert!(
        err.contains("reserved") && err.contains("source map") && err.contains("app.js.map"),
        "got {err}"
    );
    // Without the flag the literal `.map` ships untouched: the user owns it.
    p.sourcemap = false;
    let winners = admitted(tree, &p, &Output::default()).unwrap();
    assert_eq!(source_of(&winners, "app.js.map"), "web/app.js.map");
}

#[test]
fn collect_writes_legal_sidecars_and_reserves_them() {
    let tree: &[(&str, &[&str])] = &[("web", &["app.js.LEGAL.txt", "app.ts"])];
    let o = Output::default().comments(Comments::Collect);
    let err = refused(tree, &Processors::default(), &o);
    assert!(
        err.contains("reserved") && err.contains("legal"),
        "got {err}"
    );
    assert!(admitted(tree, &Processors::default(), &Output::default()).is_ok());
}

#[test]
fn build_refuses_a_foreign_output_directory() {
    // A non-empty directory without the marker is not a build's own and must not be replaced.
    let err = ensure_replaceable(
        "out",
        &Occupant::Directory {
            marked: false,
            empty: false,
        },
    )
    .unwrap_err()
    .to_string();
    assert!(
        err.contains("refusing to replace") && err.contains(OUT_MARKER),
        "got {err}"
    );
    assert!(ensure_replaceable("out", &Occupant::NotDirectory).is_err());
}

#[test]
fn build_accepts_empty_and_previously_built_outputs() {
    assert!(ensure_replaceable("out", &Occupant::Absent).is_ok());
    for (marked, empty) in [(false, true), (true, false), (true, true)] {
        assert!(ensure_replaceable("out", &Occupant::Directory { marked, empty }).is_ok());
    }
}

/// Run the swap, with the outcome of each of its steps.
fn swap(outcomes: &[Went]) -> Vec<Swap> {
    let mut step = Swap::first();
    let mut list = vec![step];
    for went in outcomes {
        step = step.next(*went);
        list.push(step);
    }
    list
}

#[test]
fn build_failure_leaves_the_previous_output_intact() {
    // A build that fails never comes to the retiring of the previous output.
    let steps = swap(&[Went::Well, Went::Well, Went::Well, Went::Badly, Went::Well]);
    assert!(steps.contains(&Swap::DropStage), "no stage residue: {steps:?}");
    assert!(!steps.contains(&Swap::Retire), "{steps:?}");
    assert!(!steps.contains(&Swap::Promote), "{steps:?}");
    assert_eq!(steps.last(), Some(&Swap::Failed));
    // One that goes well retires it, and removes it only once the new one stands.
    let done = swap(&[
        Went::Well,
        Went::Well,
        Went::Well,
        Went::Well,
        Went::Found(true),
        Went::Well,
        Went::Well,
        Went::Well,
    ]);
    assert_eq!(
        done[5..],
        [Swap::Retire, Swap::Promote, Swap::ClearRetired, Swap::Done]
    );
}

#[test]
fn build_reserves_the_generated_import_map() {
    // `importmap.json.tera` would overwrite the generated map after it is written;
    // a literal `importmap.json` would be overwritten by it. Both are hard errors,
    // and allowing duplicates does not bypass them.
    for name in ["importmap.json.tera", "importmap.json"] {
        let mut p = skipping();
        p.reject = Reject::none();
        let err = refused(&[("web", &[name])], &p, &Output::default());
        assert!(
            err.contains("reserved") && err.contains("importmap.json"),
            "{name}: got {err}"
        );
    }
}

#[test]
fn build_reserves_the_vendor_directory() {
    // `web_modules/` belongs to vendoring even in a build that vendors nothing this run.
    let err = refused(
        &[("web", &["web_modules/shim.js"])],
        &Processors::default(),
        &Output::default(),
    );
    assert!(
        err.contains("reserved") && err.contains("web_modules"),
        "got {err}"
    );
}

#[test]
fn build_reserves_gzip_sidecars() {
    // A shipped `app.js.gz` collides with the sidecar the gzip pass writes for the
    // emitted `app.js`; without gzip the precompressed file ships untouched.
    let tree: &[(&str, &[&str])] = &[("web", &["app.js", "app.js.gz"])];
    let err = refused(tree, &Processors::default(), &Output::new(false, true));
    assert!(
        err.contains("reserved") && err.contains("gzip sidecar") && err.contains("app.js"),
        "got {err}"
    );
    let plain = admitted(tree, &Processors::default(), &Output::default()).unwrap();
    assert_eq!(
        source_of(&plain, "app.js.gz"),
        "web/app.js.gz",
        "without gzip the shipped .gz is just a static file"
    );
    assert!(is_gzip_ext("svg") && !is_gzip_ext("png"));
}

#[test]
fn build_rejects_secret_targets_from_every_step() {
    // The reject list guards what may be *emitted*, no matter which step produces
    // it: a template or a compiled source cannot materialize `.env` or `private.key`.
    let winners = admitted(
        &[(
            "web",
            &[
                ".env.scss",
                ".env.tera",
                ".env.ts",
                "page.html",
                "private.key.tera",
            ],
        )],
        &Processors::default(),
        &Output::default(),
    )
    .unwrap();
    for target in [".env", ".env.js", ".env.css", "private.key"] {
        assert!(
            !winners.iter().any(|(out, _)| out == target),
            "{target} must not be emitted"
        );
    }
    assert_eq!(source_of(&winners, "page.html"), "web/page.html");
}

#[test]
fn reject_none_opts_rejected_targets_back_in() {
    let mut p = Processors::default();
    p.reject = Reject::none();
    let winners = admitted(&[("web", &["private.key.tera"])], &p, &Output::default()).unwrap();
    assert_eq!(
        source_of(&winners, "private.key"),
        "web/private.key.tera",
        "an explicit `none` reject list opts the target back in"
    );
    assert_eq!(
        render_str("key: {{ 40 + 2 }}", &tag_context("")).unwrap(),
        "key: 42"
    );
}

#[test]
fn build_refuses_a_symlink_escaping_the_source_root() {
    // `web/exposed` leading to `private` must not publish `private/credentials.txt`,
    // and the error names the path and its target.
    let p = Processors::default();
    let roots = vec![Root {
        path: "/work/web".to_string(),
        canonical: Ok("/work/web".to_string()),
        seen: vec![
            Seen::Entry {
                path: "/work/web/page.html".to_string(),
                is_file: true,
                link: None,
                canonical: Ok("/work/web/page.html".to_string()),
            },
            Seen::Entry {
                path: "/work/web/exposed/credentials.txt".to_string(),
                is_file: true,
                link: None,
                canonical: Ok("/work/private/credentials.txt".to_string()),
            },
        ],
    }];
    let policy = WalkPolicy {
        reject: p.reject.clone(),
        symlinks: p.symlinks,
    };
    let steps = enabled_steps(&p, &ALL);
    let report = preflight(&roots, &steps, &policy);
    let err = check_claims(
        &vec!["/work/web".to_string()],
        &steps,
        &report,
        false,
        &Generates::of(&p, &Output::default(), &ALL),
    )
    .unwrap_err()
    .to_string();
    assert!(
        err.contains("resolve outside the source root")
            && err.contains("exposed/credentials.txt")
            && err.contains("private"),
        "got: {err}"
    );
}

#[test]
fn build_first_root_wins_under_skip_duplicates() {
    // A cross-root conflict is an error by default; with duplicates allowed the
    // first root wins, the order the dev server overlays roots in.
    let tree: &[(&str, &[&str])] = &[("a", &["index.html.tera"]), ("b", &["index.html.tera"])];
    let err = refused(tree, &Processors::default(), &Output::default());
    assert!(
        err.contains("--skip-duplicates"),
        "strict by default; got: {err}"
    );
    let winners = admitted(tree, &skipping(), &Output::default()).unwrap();
    assert_eq!(source_of(&winners, "index.html"), "a/index.html.tera");
}

#[test]
fn build_conflict_error_lists_every_conflict() {
    // Every contested output path is reported at once, each claimant named with its step.
    let message = refused(
        &[(
            "src",
            &["app.js", "app.ts", "index.html", "index.html.tera"],
        )],
        &Processors::default(),
        &Output::default(),
    );
    for expected in [
        "index.html",
        "app.js",
        "Tera template",
        "static copy",
        "TypeScript transform",
        "--skip-duplicates",
    ] {
        assert!(
            message.contains(expected),
            "missing {expected:?} in: {message}"
        );
    }
}

#[test]
fn build_cross_root_same_relative_path_errors() {
    let message = refused(
        &[("a", &["logo.svg"]), ("b", &["logo.svg"])],
        &Processors::default(),
        &Output::default(),
    );
    assert!(
        message.contains("logo.svg") && message.contains("--skip-duplicates"),
        "got: {message}"
    );
}

#[test]
fn build_analyzes_tera_rendered_js() {
    // JavaScript rendered from a template joins the graph: its unresolvable bare
    // import fails the build like any other emitted module's would.
    let (imports, warning) =
        rendered_imports("app.js.tera", "app.js", "import \"missing-package\";").unwrap();
    assert_eq!(warning, None);
    let mut graph = ModuleGraph::new();
    graph.insert("app.js", imports.unwrap());
    let message = check_imports(&graph, &Importmap::new())
        .unwrap_err()
        .to_string();
    assert!(
        message.contains("missing-package"),
        "the rendered module's import is validated; got: {message}"
    );
    // What is no JavaScript has no record.
    assert!(rendered_imports("a.html.tera", "a.html", "<p>")
        .unwrap()
        .0
        .is_none());
}

#[test]
fn build_tera_rendered_mjs_must_parse() {
    // A rendered `.mjs` is unambiguously a module; when the rendered text does not
    // parse, the build fails naming the template.
    let message = rendered_imports("worker.mjs.tera", "worker.mjs", "var await = 1;")
        .unwrap_err()
        .to_string();
    assert!(
        message.contains("worker.mjs.tera") && message.contains("does not parse as an ES module"),
        "got: {message}"
    );
}

#[test]
fn build_tera_does_not_override_earlier_roots_under_skip() {
    // Root order dominates the within-root ranks.
    let winners = admitted(
        &[("a", &["index.html"]), ("b", &["index.html.tera"])],
        &skipping(),
        &Output::default(),
    )
    .unwrap();
    assert_eq!(
        source_of(&winners, "index.html"),
        "a/index.html",
        "the earlier root's literal wins over a later root's template"
    );
}

/// The import check, on the records of the winning files alone.
fn resolved(files: &[(&str, Option<&str>)]) -> Result<(), Error> {
    let mut graph = ModuleGraph::new();
    for (path, contents) in files {
        let (imports, _) = record(path, *contents)?;
        graph.insert(path, imports);
    }
    check_imports(&graph, &Importmap::new())
}

#[test]
fn build_graph_follows_root_precedence() {
    let tree: &[(&str, &[&str])] = &[("primary", &["app.js"]), ("fallback", &["app.js"])];
    let winners = admitted(tree, &skipping(), &Output::default()).unwrap();
    assert_eq!(source_of(&winners, "app.js"), "primary/app.js");
    assert!(resolved(&[("app.js", Some("export const ok = true;"))]).is_ok());
    // Inverse: the winner itself carries the unresolvable import: that is an error.
    let err = resolved(&[("app.js", Some("import \"missing-package\";"))]).unwrap_err();
    assert!(matches!(err, Error::Build(_)), "got {err:?}");
}

#[test]
fn build_graph_follows_literal_over_transform_precedence() {
    // Within one root a literal `app.js` outranks the `app.js` a sibling `app.ts` would emit.
    let winners = admitted(
        &[("src", &["app.js", "app.ts"])],
        &skipping(),
        &Output::default(),
    )
    .unwrap();
    assert_eq!(winners.len(), 1);
    assert_eq!(source_of(&winners, "app.js"), "src/app.js");
}

#[test]
fn build_non_utf8_winner_replaces_shadowed_record() {
    // A non-UTF-8 winning file still records its write, without imports.
    let mut graph = ModuleGraph::new();
    graph.insert(
        "app.js",
        imports_from_source("import \"missing-package\";", false).unwrap(),
    );
    let (imports, _) = record("app.js", None).unwrap();
    graph.insert("app.js", imports);
    assert!(check_imports(&graph, &Importmap::new()).is_ok());
}

#[test]
fn build_checks_classic_script_dynamic_imports() {
    let err = resolved(&[(
        "legacy.js",
        Some("var await = 1;\nimport(\"missing-package\");"),
    )])
    .unwrap_err();
    assert!(matches!(err, Error::Build(_)), "got {err:?}");
}

#[test]
fn unresolved_bare_import_errors_without_vendoring() {
    // A non-vendored build that imports a bare specifier it never vendored is still a
    // real error (the import map can't resolve it).
    let mut graph = ModuleGraph::new();
    graph.insert(
        "app.js",
        imports_from_source(
            "import { LitElement } from \"lit\";\nexport class X extends LitElement {}",
            false,
        )
        .unwrap(),
    );
    let err = check_imports(&graph, &Importmap::new()).unwrap_err();
    assert!(
        matches!(err, Error::Build(_)),
        "an unvendored bare import is a build error; got {err:?}"
    );
    assert_eq!(
        err.to_string(),
        "web-modules: 1 unresolved bare import(s) - add them to the vendored specs / import map:\n  app.js: import \"lit\""
    );
    assert_eq!(
        import_list(&vec![("a.js".to_string(), "x".to_string())]),
        vec!["  a.js: import \"x\"".to_string()]
    );
}

#[test]
fn build_fallback_index_refreshes_on_rebuild() {
    // The fallback is decided by the source tree, never by what a previous build left.
    let report = survey(&[("src", &["data.json"])], &Processors::default());
    for text in ["<!doctype html>ONE", "<!doctype html>TWO"] {
        assert_eq!(
            fallback_index(&report, &Importmap::new(), false, None, text),
            Some(Page::Inline {
                html: text.to_string()
            })
        );
    }
    let own = survey(&[("src", &["index.html"])], &Processors::default());
    assert_eq!(
        fallback_index(&own, &Importmap::new(), false, None, "x"),
        None,
        "a tree with an entry page of its own keeps it"
    );
}

#[test]
fn the_fallback_page_carries_the_import_map() {
    let report = survey(&[("src", &["data.json"])], &Processors::default());
    let mut map = Importmap::new();
    map.insert("lit", "/m/lit.js");
    assert_eq!(
        fallback_index(&report, &map, false, None, "<head>{importmap}</head>"),
        Some(Page::Inline {
            html: format!("<head>{}</head>", map.to_script_tag())
        })
    );
    assert_eq!(
        fallback_index(&report, &map, true, None, "<head>{importmap}</head>"),
        Some(Page::Inline {
            html: "<head></head>".to_string()
        }),
        "a bundled tree has nothing to map"
    );
    assert_eq!(
        fallback_index(&report, &map, false, Some("shell.tera"), "unused"),
        Some(Page::Template {
            path: "shell.tera".to_string(),
            tag: map.to_script_tag()
        })
    );
}

#[test]
fn build_tera_wins_over_literal_same_target_under_skip() {
    let tree: &[(&str, &[&str])] = &[("src", &["index.html", "index.html.tera"])];
    let err = refused(tree, &Processors::default(), &Output::default());
    assert!(
        err.contains("index.html"),
        "the double assignment is named; got: {err}"
    );
    let winners = admitted(tree, &skipping(), &Output::default()).unwrap();
    assert_eq!(source_of(&winners, "index.html"), "src/index.html.tera");
}

#[test]
fn build_without_typescript_skips_ts_and_compiles_scss() {
    let mut p = Processors::default();
    p.typescript = false;
    let winners = admitted(
        &[("src", &["app.ts", "theme.scss"])],
        &p,
        &Output::default(),
    )
    .unwrap();
    assert_eq!(
        winners,
        vec![("theme.css".to_string(), "src/theme.scss".to_string())]
    );
}

#[test]
fn every_winner_is_emitted_and_templates_come_after_the_import_map() {
    let p = Processors::default();
    let report = survey(&[("src", &["a.svg", "page.html.tera"])], &p);
    let winners = report.winners();
    let first = first_actions(true, false, true, &winners);
    assert_eq!(first[0], Action::Seed);
    assert_eq!(first[1], Action::Vendor);
    let mut output = Output::default();
    output.minify = true;
    let later = later_actions(
        true,
        &Generates::of(&p, &output, &ALL),
        &p,
        &output,
        &winners,
    );
    let emitted = |list: &[Action]| -> Vec<String> {
        list.iter()
            .filter_map(|a| match a {
                Action::Emit(w) => Some(w.out_rel.clone()),
                _ => None,
            })
            .collect()
    };
    assert_eq!(emitted(&first), vec!["a.svg".to_string()]);
    assert_eq!(emitted(&later), vec!["page.html".to_string()]);
    let written = later
        .iter()
        .position(|a| *a == Action::WriteImportmap)
        .unwrap();
    let rendered = later
        .iter()
        .position(|a| matches!(a, Action::Emit(_)))
        .unwrap();
    assert!(written < rendered, "{later:?}");
    assert!(later.contains(&Action::VendorRuntime));
    assert!(later.contains(&Action::Prune { runtime: true }));
    assert!(first_actions(false, true, false, &vec![]).contains(&Action::ReportStale));
}

#[test]
fn an_asset_may_not_land_on_a_produced_path() {
    let report = survey(&[("src", &["logo.svg"])], &Processors::default());
    assert_eq!(
        place_asset(&report, "src/icons", "pkg", "icons", "a.svg").unwrap(),
        "icons/a.svg"
    );
    assert_eq!(
        place_asset(&report, "src/eye.svg", "pkg", "eye.svg", "").unwrap(),
        "eye.svg"
    );
    for rel in ["logo.svg", "importmap.json", "web_modules/x.js"] {
        let err = place_asset(&report, "link", "pkg", rel, "").unwrap_err();
        assert!(err.to_string().contains("already produces"), "{rel}");
    }
    assert_eq!(
        asset_reference("link", "npm://pkg/a.svg").unwrap().package,
        "pkg"
    );
    let err = asset_reference("link", "npm://").unwrap_err();
    assert_eq!(err.to_string(), "link: malformed npm:// target \"npm://\"");
}

#[test]
fn seeding_links_files_and_copies_markers() {
    assert_eq!(carry("a/b.js", Kind::File), Carry::Link);
    assert_eq!(carry(".lit.version", Kind::File), Carry::Copy);
    assert_eq!(carry("a", Kind::Directory), Carry::MakeDirectory);
    assert_eq!(carry("a", Kind::Link), Carry::Leave);
    assert!(is_vendor_map("lit/index.js.map", Kind::File));
    assert!(!is_vendor_map("lit/index.js", Kind::File));
}

#[test]
fn the_runtime_goes_into_the_vendor_directory() {
    let (dir, spec) = vendor_transform_runtime("dist");
    assert_eq!(dir, "dist/web_modules");
    assert_eq!(spec.name(), "@oxc-project/runtime");
}

#[test]
fn a_bundled_build_leaves_minifying_to_the_bundler() {
    let mut p = Processors::default();
    p.sourcemap = true;
    p.extra_scss_load_paths.push("styles".to_string());
    let output = Output::new(true, false);
    assert!(transpile_options(&p, &output, false).minify);
    assert!(!transpile_options(&p, &output, true).minify);
    assert!(transpile_options(&p, &output, true).source_map);
    let paths = scss_load_paths(&vec!["web".to_string()], "stage", &p);
    assert!(paths.contains(&"web".to_string()) && paths.contains(&"styles".to_string()));
}

#[test]
fn a_free_path_is_reserved_for_nothing() {
    let report = survey(&[("src", &["a.svg"])], &Processors::default());
    let by = Generates::of(&Processors::default(), &Output::default(), &ALL);
    let winners = report.winners();
    assert_eq!(reservation(&report, &winners, &by, "a.svg"), None);
    assert_eq!(
        reservation(&report, &winners, &by, OUT_MARKER).as_deref(),
        Some("the output marker")
    );
}

#[test]
fn a_sibling_lies_beside_its_directory() {
    assert_eq!(sibling("build/dist", "stage").unwrap(), "build/.dist.web-modules-stage");
    assert!(sibling("/", "stage").is_err());
}

#[test]
fn a_survey_gives_warnings_notes_and_the_outcome() {
    let entry = |name: &str, link: Option<&str>| Seen::Entry {
        path: format!("src/{name}"),
        is_file: true,
        link: link.map(str::to_string),
        canonical: Ok(format!("src/{name}")),
    };
    let roots = vec![Root {
        path: "src".to_string(),
        canonical: Ok("src".to_string()),
        seen: vec![
            Seen::Trouble {
                message: "loop".to_string(),
            },
            entry("a.svg", None),
            entry(".env.tera", None),
            entry("old.html", Some("new.html")),
        ],
    }];
    let mut p = Processors::default();
    p.symlinks = SymlinkMode::Redirect;
    let surveyed = admission::survey(&roots, &p, &Output::default(), &ALL);
    assert_eq!(
        surveyed.warnings,
        vec![
            "web-modules: preflight: loop".to_string(),
            "web-modules: src/old.html: symlink skipped - a static build cannot express a \
             redirect"
                .to_string(),
        ]
    );
    assert_eq!(
        surveyed.notes,
        vec!["web-modules: src/.env.tera: dropped by the reject list".to_string()]
    );
    let winners = surveyed.outcome.unwrap();
    assert_eq!(winners.len(), 1);
    assert_eq!(winners[0].out_rel, "a.svg");
    assert_eq!(surveyed.steps.len(), 5);
    assert_eq!(surveyed.report.claims.len(), 1);
}

#[test]
fn a_survey_refuses_a_contested_target() {
    let root = |path: &str| Root {
        path: path.to_string(),
        canonical: Ok(path.to_string()),
        seen: vec![Seen::Entry {
            path: format!("{path}/a.svg"),
            is_file: true,
            link: None,
            canonical: Ok(format!("{path}/a.svg")),
        }],
    };
    let roots = vec![root("one"), root("two")];
    let surveyed = admission::survey(&roots, &Processors::default(), &Output::default(), &ALL);
    let message = surveyed.outcome.unwrap_err().to_string();
    assert!(message.contains("one/a.svg"), "{message}");
    assert!(message.contains("two/a.svg"), "{message}");
    assert!(admission::survey(&roots, &skipping(), &Output::default(), &ALL)
        .outcome
        .is_ok());
}

#[test]
fn a_folded_build_has_the_empty_profile() {
    let mut p = Processors::default();
    p.sourcemap = true;
    let o = Output::default();
    assert_eq!(build_profile(&p, &o, false), "vendor-profile: sourcemaps");
    assert_eq!(build_profile(&p, &o, true), "");
    // So a folded build reuses only a pristine vendor tree.
    assert!(seeds(Some(&marker("")), &build_profile(&p, &o, true)));
    assert!(!seeds(
        Some(&marker("vendor-profile: sourcemaps")),
        &build_profile(&p, &o, true)
    ));
}

#[test]
fn imports_are_checked_before_the_tree_is_folded_and_compressed_last() {
    let mut p = Processors::default();
    p.bundle = true;
    let mut output = Output::default();
    output.gzip = true;
    let winners = survey(&[("src", &["a.svg"])], &p).winners();
    let later = later_actions(
        false,
        &Generates::of(&p, &output, &ALL),
        &p,
        &output,
        &winners,
    );
    let place = |wanted: &Action| later.iter().position(|a| a == wanted).unwrap();
    assert!(place(&Action::CheckImports) < place(&Action::Fold));
    assert!(place(&Action::Fold) < place(&Action::Compress));
    assert_eq!(later.last(), Some(&Action::Compress));
    assert!(!later.contains(&Action::SweepMaps) || !later.contains(&Action::VendorRuntime));

    p.bundle = false;
    output.gzip = false;
    let plain = later_actions(
        false,
        &Generates::of(&p, &output, &ALL),
        &p,
        &output,
        &winners,
    );
    assert!(!plain.contains(&Action::Fold));
    assert!(!plain.contains(&Action::Compress));
    assert_eq!(plain.last(), Some(&Action::CheckImports));
}

#[test]
fn an_asset_is_rewritten_only_when_npm_content_is() {
    let mut o = Output::default();
    assert!(!is_asset_rewritten("vendor/x.js", o.vendor_rewrite(false)));
    o.minify = true;
    assert!(is_asset_rewritten("vendor/x.js", o.vendor_rewrite(false)));
    assert!(is_asset_rewritten("vendor/x.mjs", o.vendor_rewrite(false)));
    assert!(!is_asset_rewritten("vendor/x.css", o.vendor_rewrite(false)));
    o.minify_web_modules = false;
    assert!(!is_asset_rewritten("vendor/x.js", o.vendor_rewrite(false)));

    assert_eq!(
        emit_asset("x.js", None),
        Emission::Copied { warning: None }
    );
    assert_eq!(
        emit_asset("x.js", Some(Attempt::NotText)),
        Emission::Copied {
            warning: Some("web-modules: x.js: not UTF-8 text; copied as shipped".to_string())
        }
    );
    assert_eq!(
        emit_asset(
            "x.js",
            Some(Attempt::Failed {
                message: "bad".to_string()
            })
        ),
        Emission::Copied {
            warning: Some("web-modules: x.js: copied as shipped (bad)".to_string())
        }
    );
    assert_eq!(
        emit_asset(
            "x.js",
            Some(Attempt::Rewritten {
                code: "c".to_string(),
                map: None
            })
        ),
        Emission::Written {
            code: "c".to_string(),
            map: None
        }
    );
}

#[test]
fn the_gzip_pass_and_its_reservations_share_one_list() {
    assert_eq!(gzip_exts(), vec!["js", "css", "html", "json", "svg", "map"]);
    assert!(gzip_exts().iter().all(|ext| is_gzip_ext(ext)));
    assert!(!is_gzip_ext("png"));
    assert!(!is_gzip_ext("gz"));
}

#[test]
fn no_source_may_claim_a_generated_sidecar() {
    let mut p = skipping();
    p.sourcemap = true;
    let mut output = Output::default();
    output.gzip = true;
    output.comments = Some(Comments::Collect);
    for sidecar in ["app.js.gz", "app.js.map", "app.js.map.gz", "app.js.LEGAL.txt"] {
        let message = refused(&[("src", &["app.ts", sidecar])], &p, &output);
        assert!(message.contains(sidecar), "{message}");
        assert!(message.contains("reserved"), "{message}");
    }
    // What is not compressed has no sidecar to protect.
    assert!(admitted(&[("src", &["logo.png", "logo.png.gz"])], &p, &output).is_ok());
}

fn visited(places: &[(&str, Kind)]) -> Vec<Visited> {
    places
        .iter()
        .map(|(path, kind)| Visited {
            path: path.to_string(),
            kind: *kind,
        })
        .collect()
}

#[test]
fn the_vendor_cache_is_seeded_below_the_stage() {
    let tree = visited(&[
        ("/out/web_modules", Kind::Directory),
        ("/out/web_modules/.lit.version", Kind::File),
        ("/out/web_modules/lit", Kind::Directory),
        ("/out/web_modules/lit/index.js", Kind::File),
        ("/out/web_modules/evil", Kind::Link),
        ("/elsewhere/x.js", Kind::File),
    ]);
    let seeded: Vec<(Carry, String)> =
        seed_vendor_cache("/out/web_modules", "/stage/web_modules", &tree)
            .into_iter()
            .map(|one| (one.how, one.to))
            .collect();
    assert_eq!(
        seeded,
        vec![
            (Carry::MakeDirectory, "/stage/web_modules/".to_string()),
            (
                Carry::Copy,
                "/stage/web_modules/.lit.version".to_string()
            ),
            (Carry::MakeDirectory, "/stage/web_modules/lit".to_string()),
            (
                Carry::Link,
                "/stage/web_modules/lit/index.js".to_string()
            ),
        ]
    );
}

#[test]
fn sweeping_and_rewriting_pick_their_files() {
    let tree = visited(&[
        ("/w/a.js", Kind::File),
        ("/w/a.js.map", Kind::File),
        ("/w/b.mjs", Kind::File),
        ("/w/c.css", Kind::File),
        ("/w/d.js", Kind::Link),
        ("/w/e.map", Kind::Directory),
    ]);
    assert_eq!(remove_vendor_maps(&tree), vec!["/w/a.js.map"]);
    assert_eq!(rewrite_vendor_tree(&tree), vec!["/w/a.js", "/w/b.mjs"]);
}
