use web_modules::error::Error;
use web_modules::module_graph::imports_from_source;
use web_modules::npm::manifest_entries;
use web_modules::tsconfig::{SourceLayout, TsConfig};
use web_modules::vendor::archive::{
    clears_destination, extracted_path, inner_path, placed_path, reads_manifest_first,
};
use web_modules::vendor::cache::{
    compiled_key, content_key, is_commit_ref, is_up_to_date, Found, COMPILE_SCHEMA,
};
use web_modules::vendor::emit::{
    asset_path, check_layout, check_manifest, emissions, emitted_path, is_root_removable, leftovers,
    source_root, Ground,
};
use web_modules::vendor::fetch::{
    destination, known_archive, lock_path, marker_path, registry_archive, registry_range, Outcome,
    Step,
};
use web_modules::vendor::plan::{plan_in, source_plan, SourcePlan};
use web_modules::vendor::program::{
    candidates, lexically_normalize, resolve_relative_import, Program,
};
use web_modules::vendor::prune::{keep_dirs, lock_name, marker_name, prune_entry, Fate};
use web_modules::vendor::spec::{Extract, Keep, PackageSpec};

fn plan(body: &str) -> Result<SourcePlan, Error> {
    source_plan(TsConfig::load("pkg", Some(body))?, "acme-ui")
}

#[test]
fn a_version_range_is_parsed_or_refused() {
    for range in ["", "*", "x", "latest", "^3", ">=1 <2", "1.2.3 || ~2.0"] {
        assert!(registry_range(range).is_ok(), "{range}");
    }
    assert!(matches!(registry_range("not a range"), Err(Error::Vendor(_))));
    // The range is the one that was asked for.
    let shown = |range: &str| format!("{:?}", registry_range(range).unwrap());
    assert_eq!(shown("^3.1"), shown(" ^3.1 "));
    assert_ne!(shown("^3.1"), shown("^2"));
    assert_eq!(shown("latest"), shown("*"));
}

#[test]
fn the_plan_carries_the_layout_to_reproduce() {
    let plan = plan(r#"{"compilerOptions":{"outDir":"./lib"},"include":["src/**/*"]}"#).unwrap();
    assert_eq!(
        plan.layout.root, None,
        "inferred from the inputs, not the globs"
    );
    assert_eq!(plan.layout.out, "lib");
}

#[test]
fn without_a_tsconfig_a_package_compiles_in_place() {
    let plan = source_plan(None, "pkg").unwrap();
    assert_eq!(plan.layout.root, None);
    assert_eq!(plan.layout.out, "");
    assert!(
        !plan.defines_class_fields,
        "tsc's own default below ES 2022"
    );
    assert!(!plan.legacy_decorators);
}

#[test]
fn the_plan_takes_emit_semantics_from_the_dependency() {
    let plan = |body: &str| plan(body).unwrap();

    let es2019 = plan(r#"{"compilerOptions":{"target":"ES2019"}}"#);
    assert!(!es2019.defines_class_fields);
    assert!(!es2019.legacy_decorators);

    let es2022 = plan(r#"{"compilerOptions":{"target":"ES2022"}}"#);
    assert!(es2022.defines_class_fields);

    let lit = plan(r#"{"compilerOptions":{"experimentalDecorators":true,"target":"ES2019"}}"#);
    assert!(lit.legacy_decorators);
    assert!(!lit.defines_class_fields);

    // Standard decorators with define semantics: neither of the two old presets.
    let modern = plan(r#"{"compilerOptions":{"target":"ESNext"}}"#);
    assert!(modern.defines_class_fields);
    assert!(!modern.legacy_decorators);
}

#[test]
fn the_plan_refuses_what_it_cannot_honour() {
    for body in [
        r#"{"compilerOptions":{"paths":{"@/*":["src/*"]}}}"#,
        r#"{"compilerOptions":{"baseUrl":"."}}"#,
        r#"{"compilerOptions":{"emitDecoratorMetadata":true}}"#,
        r#"{"extends":"../base.json"}"#,
        r#"{"extends":["../base.json","../more.json"]}"#,
    ] {
        let Err(err) = plan(body) else {
            panic!("expected a refusal for {body}");
        };
        assert!(
            err.to_string().contains("acme-ui"),
            "names the package: {}",
            err.to_string()
        );
    }
}

#[test]
fn a_commonjs_config_is_refused() {
    for body in [
        r#"{"compilerOptions":{"module":"CommonJS"}}"#,
        r#"{"compilerOptions":{"module":"NodeNext"}}"#,
        r#"{"compilerOptions":{"target":"ES5"}}"#,
    ] {
        let Err(err) = plan(body) else {
            panic!("expected a refusal for {body}");
        };
        assert!(
            err.to_string().contains("CommonJS"),
            "says why: {}",
            err.to_string()
        );
    }
}

#[test]
fn jsx_settings_are_refused_rather_than_ignored() {
    for body in [
        r#"{"compilerOptions":{"jsx":"react-jsx"}}"#,
        r#"{"compilerOptions":{"jsxImportSource":"preact"}}"#,
        r#"{"compilerOptions":{"jsxFactory":"h"}}"#,
        r#"{"compilerOptions":{"jsxFragmentFactory":"Fragment"}}"#,
    ] {
        let Err(err) = plan(body) else {
            panic!("expected a refusal for {body}");
        };
        assert!(
            err.to_string().contains("acme-ui"),
            "names the package: {}",
            err.to_string()
        );
    }
}

#[test]
fn a_compiled_destination_keys_on_the_compiler_too() {
    let commit = "433170bc68fe2339a2f5b465f8839ae2370f96a0".to_string();
    assert_eq!(
        compiled_key(&commit, false),
        commit,
        "an uncompiled tree is the archive and nothing else"
    );
    let compiled = compiled_key(&commit, true);
    assert_ne!(compiled, commit);
    assert!(compiled.starts_with(&commit), "the source is still named");
    assert!(
        compiled.contains("0.1.0"),
        "and the compiler with it: {compiled}"
    );
    assert!(compiled.ends_with(COMPILE_SCHEMA));
}

#[test]
fn only_a_commit_id_counts_as_immutable() {
    assert!(is_commit_ref("433170bc68fe2339a2f5b465f8839ae2370f96a0"));
    assert!(is_commit_ref(&"a".repeat(40)));

    assert!(!is_commit_ref("gronke"), "a branch moves");
    assert!(!is_commit_ref("v0.6.1"), "a tag can be repointed");
    assert!(!is_commit_ref("HEAD"));
    assert!(!is_commit_ref("main"));
    // An abbreviated id is not enough to be sure, so it is treated as mutable.
    assert!(!is_commit_ref("433170b"));
    // Right length, wrong alphabet.
    assert!(!is_commit_ref(&"z".repeat(40)));
}

#[test]
fn content_key_tracks_the_bytes() {
    assert_eq!(content_key(b"abc"), content_key(b"abc"));
    assert_ne!(content_key(b"abc"), content_key(b"abd"));
    // Position-weighted, so a reordering is not a collision.
    assert_ne!(content_key(b"ab"), content_key(b"ba"));
    assert_eq!(content_key(b"").len(), 16, "fixed-width hex");
}

#[test]
fn content_key_weighs_each_byte_by_its_place() {
    assert_eq!(content_key(b""), "0000000000000000");
    // 97 * 1 + 98 * 2 + 99 * 3
    assert_eq!(content_key(b"abc"), "000000000000024e");
}

#[test]
fn missing_destination_invalidates_cache() {
    // A vendored asset whose marker still records the right version but whose
    // destination was deleted must be treated as stale, so that the next run
    // extracts it again.
    let found = Found {
        marker_matches: true,
        file_present: false,
        dir_filled: false,
    };
    assert!(
        !is_up_to_date(&Extract::Full, found),
        "a missing destination must invalidate the cache even when the marker matches",
    );
    let whole = Found {
        marker_matches: true,
        file_present: false,
        dir_filled: true,
    };
    assert!(is_up_to_date(&Extract::Full, whole));
    let file = Extract::File {
        from: "a".to_string(),
        to: "b".to_string(),
    };
    assert!(!is_up_to_date(&file, whole), "a single file is looked for");
}

/// What compiling a tree comes to: the emitted files, and the assets copied along.
struct Compiled {
    root: String,
    out: String,
    files: Vec<String>,
    written: Vec<String>,
}

/// Compile a tree of plain JavaScript bodies under TypeScript names.
fn compile(tsconfig: &str, files: &[(&str, &str)]) -> Result<Compiled, Error> {
    let plan = source_plan(TsConfig::load("acme", Some(tsconfig))?, "acme")?;
    let carried: Vec<String> = files.iter().map(|(p, _)| p.to_string()).collect();
    let mut program = Program::start(&plan.config, &carried);
    loop {
        program = program.advance("acme")?;
        let Some(rel) = program.pending().map(str::to_string) else {
            break;
        };
        let code = files.iter().find(|(p, _)| *p == rel).unwrap().1.to_string();
        let imports: Vec<String> = imports_from_source(&code, false)
            .unwrap()
            .into_iter()
            .map(|i| i.specifier)
            .collect();
        let found: Vec<Option<String>> = imports
            .iter()
            .map(|s| {
                let list = candidates(&rel, s);
                let present = list.iter().map(|c| carried.contains(c)).collect();
                resolve_relative_import(&list, &present)
            })
            .collect();
        program = program.record("acme", code, &imports, &found)?;
    }
    assert!(program.is_closed());
    let inputs: Vec<String> = program.outputs().iter().map(|(p, _)| p.clone()).collect();
    let root = source_root(&plan.layout, &inputs);
    let ground = Ground {
        root_is_dir: root.is_empty()
            || carried.iter().any(|p| p.starts_with(&format!("{root}/"))),
        root_escapes: false,
        out_escapes: false,
    };
    check_layout("acme", &plan.layout, &inputs, ground)?;
    let out = plan.layout.out.clone();
    let mut written: Vec<String> = inputs
        .iter()
        .map(|p| emitted_path(&root, &out, p).unwrap())
        .collect();
    for (asset, _) in program.assets() {
        written.extend(asset_path(&root, &out, asset));
    }
    Ok(Compiled {
        root,
        out,
        files: carried,
        written,
    })
}

fn has(compiled: &Compiled, path: &str) -> bool {
    compiled.written.iter().any(|p| p == path)
}

#[test]
fn compiling_a_tree_preserves_the_module_format() {
    let tree = compile(
        r#"{"compilerOptions":{"outDir":"lib","rootDir":"src","target":"ES2019"}}"#,
        &[
            ("src/index.mts", "export const a = 1;"),
            ("src/plain.ts", "export const c = true;"),
            ("src/data.json", "{}"),
        ],
    )
    .unwrap();
    assert!(has(&tree, "lib/index.mjs"), "an .mts emits .mjs");
    assert!(has(&tree, "lib/plain.js"));
    assert!(has(&tree, "lib/data.json"), "assets travel along");
    assert!(!has(&tree, "lib/index.js"), "and not under the wrong name");
    assert!(
        is_root_removable(&tree.root, &tree.out, true, &tree.written),
        "the TypeScript was an intermediate"
    );
}

#[test]
fn an_imported_source_joins_the_program() {
    let tree = compile(
        r#"{"compilerOptions":{"rootDir":"src","outDir":"lib","target":"ES2019"},
                "files":["src/index.ts"],"exclude":["src/deep/**"]}"#,
        &[
            // The one root, importing a sibling `files` does not name and a file `exclude` does.
            (
                "src/index.ts",
                "export { util } from \"./util.js\";\nexport { deep } from \"./deep/inner.js\";",
            ),
            ("src/util.ts", "export const util = 1;"),
            ("src/deep/inner.ts", "export const deep = 2;"),
            // And one nobody imports, which the exclude keeps out.
            ("src/deep/scratch.ts", "export const s = 3;"),
        ],
    )
    .unwrap();
    assert!(has(&tree, "lib/index.js"), "the root");
    assert!(
        has(&tree, "lib/util.js"),
        "a sibling `files` does not name, reached by import"
    );
    assert!(
        has(&tree, "lib/deep/inner.js"),
        "and one `exclude` names, reached the same way"
    );
    assert!(
        !has(&tree, "lib/deep/scratch.js"),
        "while an excluded file nobody imports stays out"
    );
}

#[test]
fn the_inferred_root_follows_the_inputs_not_the_pattern() {
    let tree = compile(
        r#"{"compilerOptions":{"outDir":"lib","target":"ES2019"},"include":["src/**/*.ts"]}"#,
        &[
            ("src/deep/index.ts", "export const a = 1;"),
            ("src/deep/util.ts", "export const b = 2;"),
        ],
    )
    .unwrap();
    assert!(has(&tree, "lib/index.js"), "rooted at src/deep");
    assert!(has(&tree, "lib/util.js"));
    assert!(
        !has(&tree, "lib/deep/index.js"),
        "and not at the glob's prefix"
    );
}

#[test]
fn a_reachable_source_outside_an_explicit_root_is_refused() {
    let Err(err) = compile(
        r#"{"compilerOptions":{"rootDir":"src","outDir":"lib","target":"ES2022"},
                "files":["src/index.ts"]}"#,
        &[
            (
                "src/index.ts",
                "export { util } from \"../shared/util.js\";",
            ),
            ("shared/util.ts", "export const util = 1;"),
        ],
    ) else {
        panic!("expected a refusal");
    };
    let message = err.to_string();
    assert!(
        message.contains("shared/util.ts"),
        "names the file: {message}"
    );
    assert!(message.contains("rootDir"), "and why: {message}");
}

#[test]
fn a_typescript_specifier_is_rewritten_when_the_config_says_so() {
    let body = |rewrite: bool| {
        format!(
            r#"{{"compilerOptions":{{"rootDir":"src","outDir":"lib","target":"ES2022",
                        "rewriteRelativeImportExtensions":{rewrite}}}}}"#
        )
    };
    assert!(plan(&body(true)).unwrap().rewrite_import_extensions);
    assert!(!plan(&body(false)).unwrap().rewrite_import_extensions);

    // With the extension rewritten the emitted specifier names what was emitted.
    let tree = compile(
        &body(true),
        &[
            ("src/index.ts", "export { util } from \"./util.js\";"),
            ("src/util.ts", "export const util = 1;"),
        ],
    )
    .unwrap();
    assert!(has(&tree, "lib/util.js"), "and it is there");

    // Without it, the specifier would survive into output that cannot load, so the
    // package is refused while the reason is still visible.
    let Err(err) = compile(
        &body(false),
        &[
            ("src/index.ts", "export { util } from \"./util.ts\";"),
            ("src/util.ts", "export const util = 1;"),
        ],
    ) else {
        panic!("expected a refusal");
    };
    assert!(
        err.to_string().contains("rewriteRelativeImportExtensions"),
        "says what the package needs: {}",
        err.to_string()
    );
}

#[test]
fn an_import_resolves_to_the_source_of_its_own_format() {
    let tree = compile(
        r#"{"compilerOptions":{"rootDir":"src","outDir":"lib","target":"ES2022"},
                "files":["src/index.mts"]}"#,
        &[
            ("src/index.mts", "export { pick } from \"./foo.mjs\";"),
            // Both spellings exist; only the `.mts` one is what `./foo.mjs` names.
            ("src/foo.mts", "export const pick = \"mts\";"),
            ("src/foo.ts", "export const pick = \"ts\";"),
        ],
    )
    .unwrap();
    assert!(has(&tree, "lib/foo.mjs"), "the .mts was compiled");
    assert!(
        !has(&tree, "lib/foo.js"),
        "and the .ts sibling was never in the program"
    );
}

#[test]
fn a_manifest_pointing_at_nothing_is_reported() {
    // `rootDir: "."` puts the output a level deeper than the manifest says.
    let tree = compile(
        r#"{"compilerOptions":{"rootDir":".","outDir":"lib","target":"ES2022"}}"#,
        &[("src/index.ts", "export const a = 1;")],
    )
    .unwrap();
    let entries = manifest_entries(r#"{"name":"acme","module":"lib/index.js"}"#).unwrap();
    let present: Vec<bool> = entries.iter().map(|_| has(&tree, "lib/index.js")).collect();
    let Err(err) = check_manifest("acme", &tree.out, &entries, &present) else {
        panic!("expected the mismatch to be reported");
    };
    let message = err.to_string();
    assert!(
        message.contains("lib/index.js"),
        "names the target: {message}"
    );
    assert!(message.contains("rootDir"), "and the way out: {message}");
    assert!(
        has(&tree, "lib/src/index.js"),
        "the output it did produce is still there to look at"
    );
}

#[test]
fn commonjs_source_is_refused_rather_than_renamed() {
    let Err(err) = compile(
        r#"{"compilerOptions":{"rootDir":"src","outDir":"lib","target":"ES2019"}}"#,
        &[
            ("src/index.ts", "export const a = 1;"),
            ("src/legacy.cts", "export const b = 2;"),
        ],
    ) else {
        panic!("expected a refusal");
    };
    let message = err.to_string();
    assert!(message.contains("acme"), "names the package: {message}");
    assert!(message.contains("legacy.cts"), "and the file: {message}");
}

#[test]
fn a_root_outside_the_package_is_refused_before_anything_is_touched() {
    let Err(err) = plan(r#"{"compilerOptions":{"rootDir":"..","outDir":"lib"}}"#) else {
        panic!("expected a refusal");
    };
    assert!(
        err.to_string().contains("acme"),
        "names the package: {}",
        err.to_string()
    );
}

#[test]
fn output_nested_in_the_source_root_survives_the_cleanup() {
    let tree = compile(
        r#"{"compilerOptions":{"rootDir":"src","outDir":"src/out"}}"#,
        &[("src/index.ts", "export const a = 1;")],
    )
    .unwrap();
    assert!(has(&tree, "src/out/index.js"));
    assert!(
        !is_root_removable(&tree.root, &tree.out, true, &tree.written),
        "the output is kept"
    );
    let mut remaining = tree.files.clone();
    remaining.extend(tree.written.clone());
    assert_eq!(
        leftovers(&remaining),
        vec!["src/index.ts".to_string()],
        "and the source it came from is gone"
    );
}

#[test]
fn only_the_declared_inputs_are_compiled() {
    let tree = compile(
        r#"{"compilerOptions":{"rootDir":"src","outDir":"lib"},
                "include":["src/**/*"],"exclude":["src/dev/**"]}"#,
        &[
            ("src/index.ts", "export const a = 1;"),
            ("src/dev/scratch.ts", "export const b = 2;"),
        ],
    )
    .unwrap();
    assert!(has(&tree, "lib/index.js"));
    assert!(
        !has(&tree, "lib/dev/scratch.js"),
        "an excluded source is not an input"
    );
}

#[test]
fn a_tree_with_nowhere_to_go_is_refused() {
    let plan = plan(r#"{"compilerOptions":{"rootDir":"src","outDir":"lib"}}"#).unwrap();
    let fine = Ground {
        root_is_dir: true,
        root_escapes: false,
        out_escapes: false,
    };
    let inputs = vec!["src/a.ts".to_string()];
    assert!(check_layout("acme", &plan.layout, &inputs, fine).is_ok());
    for (ground, inputs, says) in [
        (fine, vec![], "carries no TypeScript"),
        (
            Ground {
                root_is_dir: false,
                ..fine
            },
            inputs.clone(),
            "carried no sources",
        ),
        (
            Ground {
                root_escapes: true,
                ..fine
            },
            inputs.clone(),
            "`src` resolves outside the package",
        ),
        (
            Ground {
                out_escapes: true,
                ..fine
            },
            inputs.clone(),
            "`lib` resolves outside the package",
        ),
    ] {
        let err = check_layout("acme", &plan.layout, &inputs, ground).unwrap_err();
        assert!(err.to_string().contains(says), "{}", err.to_string());
    }
}

#[test]
fn an_import_is_looked_for_under_every_source_spelling() {
    assert_eq!(
        candidates("src/index.ts", "./util.js"),
        vec![
            "src/util.ts",
            "src/util.tsx",
            "src/util.js.ts",
            "src/util.js.tsx",
            "src/util.js/index.ts",
            "src/util.js/index.tsx",
            "src/util.js",
        ]
    );
    assert!(candidates("src/index.ts", "lit").is_empty(), "not relative");
    assert!(
        candidates("src/index.ts", "../../other.js").is_empty(),
        "leaves the package"
    );
    assert_eq!(lexically_normalize("a/./b/../c").as_deref(), Some("a/c"));
    assert_eq!(lexically_normalize("a/../.."), None);
}

#[test]
fn archive_entries_lose_their_wrapping_directory() {
    assert_eq!(inner_path(false, "dist/a.js").as_deref(), Some("dist/a.js"));
    assert_eq!(inner_path(true, "repo-v1/"), None);
    assert_eq!(
        inner_path(true, "repo-v1/src/a.ts").as_deref(),
        Some("src/a.ts")
    );
    let file = Extract::File {
        from: "dist/a.js".to_string(),
        to: "a.js".to_string(),
    };
    assert_eq!(
        extracted_path(&file, true, None, "repo-v1/dist/a.js", None).as_deref(),
        Some("a.js")
    );
    assert_eq!(
        extracted_path(&file, true, None, "repo-v1/dist/b.js", None),
        None
    );
    assert_eq!(
        placed_path(&Extract::Full, None, "any/thing.bin", None).as_deref(),
        Some("any/thing.bin")
    );
    let caller = Extract::Filter(Keep::Caller);
    assert_eq!(
        placed_path(&caller, None, "x", Some("y".to_string())).as_deref(),
        Some("y")
    );
    assert!(clears_destination(&Extract::Full) && !clears_destination(&file));
    assert!(reads_manifest_first(&Extract::BrowserAssets, false));
    assert!(!reads_manifest_first(&Extract::BrowserAssets, true));
}

#[test]
fn a_destination_stays_below_the_vendor_directory() {
    let spec = PackageSpec::npm("lit", "^3");
    assert_eq!(destination("out/web_modules", &spec).unwrap(), "out/web_modules/lit");
    assert!(matches!(
        destination("out/web_modules", &spec.dir("../evil")),
        Err(Error::Vendor(_))
    ));
    // An absolute destination is the operator's own choice, so it is taken as it is; a
    // relative one is confined like any other.
    let moved = PackageSpec::npm("lit", "^3").dest("/elsewhere/lit");
    assert_eq!(destination("out/web_modules", &moved).unwrap(), "/elsewhere/lit");
    let below = PackageSpec::npm("lit", "^3").dest("sub/lit");
    assert_eq!(
        destination("out/web_modules", &below).unwrap(),
        "out/web_modules/sub/lit"
    );
    let escaping = PackageSpec::npm("lit", "^3").dest("../lit");
    assert!(destination("out/web_modules", &escaping).is_err());
    let scoped = PackageSpec::npm("@lit/context", "^1");
    assert_eq!(marker_path("v", &scoped), "v/.@lit_context.version");
    assert_eq!(lock_path("v", &scoped), "v/.@lit_context.lock");
}

#[test]
fn an_archive_is_known_from_its_source() {
    let commit = "433170bc68fe2339a2f5b465f8839ae2370f96a0";
    let pinned = known_archive(&PackageSpec::git("acme/ui", commit).source, false).unwrap();
    assert_eq!(
        pinned.url,
        format!("https://github.com/acme/ui/archive/{commit}.zip")
    );
    assert_eq!(pinned.key.as_deref(), Some(commit));
    assert!(pinned.is_git);
    let moving = known_archive(&PackageSpec::git("acme/ui", "main").source, false).unwrap();
    assert_eq!(moving.key, None, "a branch can be repointed");
    assert!(known_archive(&PackageSpec::npm("lit", "^3").source, false).is_none());
    let resolved = registry_archive("https://r/lit-3.1.0.tgz", "3.1.0", false);
    assert_eq!(resolved.key.as_deref(), Some("3.1.0"));
    assert!(!resolved.is_git);
}

/// Run the steps of fetching, answering each from what the tree holds.
fn fetch_steps(key: Option<&str>, compile: bool, current: bool) -> Vec<Step> {
    let found = Found {
        marker_matches: current,
        file_present: current,
        dir_filled: current,
    };
    let mut step = Step::first(key.map(str::to_string));
    let mut list = Vec::new();
    loop {
        let outcome = match &step {
            Step::Check(_) | Step::Recheck(_) | Step::Compare(_) => Outcome::Saw(found),
            Step::Fetch(_) => Outcome::Got(b"abc".to_vec()),
            Step::Done => {
                list.push(Step::Done);
                return list;
            }
            _ => Outcome::Finished,
        };
        let next = match &step {
            Step::Check(k) => Step::Check(k.clone()),
            Step::Lock(k) => Step::Lock(k.clone()),
            Step::Recheck(k) => Step::Recheck(k.clone()),
            Step::Fetch(k) => Step::Fetch(k.clone()),
            Step::Compare(k) => Step::Compare(k.clone()),
            Step::Extract(k) => Step::Extract(k.clone()),
            Step::Compile(k) => Step::Compile(k.clone()),
            Step::Mark(k) => Step::Mark(k.clone()),
            Step::Done => Step::Done,
        };
        list.push(next);
        step = step.next(&Extract::Full, compile, outcome);
    }
}

#[test]
fn the_marker_is_written_last() {
    let key = || "3.1.0".to_string();
    assert_eq!(
        fetch_steps(Some("3.1.0"), true, false),
        vec![
            Step::Check(key()),
            Step::Lock(Some(key())),
            Step::Recheck(key()),
            Step::Fetch(Some(key())),
            Step::Compare(key()),
            Step::Extract(key()),
            Step::Compile(key()),
            Step::Mark(key()),
            Step::Done,
        ]
    );
}

#[test]
fn a_current_package_is_not_fetched() {
    assert_eq!(
        fetch_steps(Some("3.1.0"), false, true),
        vec![Step::Check("3.1.0".to_string()), Step::Done]
    );
}

#[test]
fn a_source_that_can_move_is_keyed_by_its_content() {
    let key = content_key(b"abc");
    assert_eq!(
        fetch_steps(None, false, true),
        vec![
            Step::Lock(None),
            Step::Fetch(None),
            Step::Compare(key),
            Step::Done,
        ]
    );
}

/// Prune a tree of top-level names and the members of its scopes; what is left.
fn pruned(keep: &Vec<String>, tree: &[(&str, bool, &[&str])]) -> Vec<String> {
    let mut left = Vec::new();
    for (name, is_dir, members) in tree {
        match prune_entry(keep, "", name, *is_dir) {
            Fate::Keep => left.push(name.to_string()),
            Fate::Descend(prefix) => {
                for member in *members {
                    if prune_entry(keep, &prefix, member, true) == Fate::Keep {
                        left.push(format!("{name}/{member}"));
                    }
                }
            }
            Fate::RemoveTree | Fate::RemoveFile => {}
        }
    }
    left
}

#[test]
fn prune_removes_dropped_packages_and_keeps_current_ones() {
    let specs = vec![
        PackageSpec::npm("lit", "^3"),
        PackageSpec::npm("@scope/keep", "^1"),
    ];
    let keep = keep_dirs(&specs, &vec!["@oxc-project/runtime".to_string()]);
    let left = pruned(
        &keep,
        &[
            ("lit", true, &[]),
            ("dropped", true, &[]),
            ("@scope", true, &["keep", "drop"]),
            ("@gone", true, &["only"]),
            ("@oxc-project", true, &["runtime"]),
            (".lit.version", false, &[]),
            (".dropped.version", false, &[]),
            (".@scope_keep.version", false, &[]),
            (".@scope_drop.version", false, &[]),
            (".@oxc-project_runtime.version", false, &[]),
            (".lit.lock", false, &[]),
            ("stray.txt", false, &[]),
        ],
    );
    assert_eq!(
        left,
        vec![
            "lit",
            "@scope/keep",
            "@oxc-project/runtime",
            ".lit.version",
            ".@scope_keep.version",
            ".@oxc-project_runtime.version",
        ]
    );
}

#[test]
fn prune_removes_an_emptied_vendor_dir() {
    let keep = keep_dirs(&vec![], &vec![]);
    assert_eq!(
        prune_entry(&keep, "", "dropped", true),
        Fate::RemoveTree,
        "an emptied vendor dir does not ship"
    );
    assert!(pruned(&keep, &[("dropped", true, &[])]).is_empty());
    assert_eq!(marker_name("@a/b"), ".@a_b.version");
    assert_eq!(lock_name("@a/b"), ".@a_b.lock");
}

#[test]
fn a_plan_is_read_from_the_text_of_its_config() {
    let plan = plan_in("/v/acme", None, "acme").unwrap();
    assert!(!plan.defines_class_fields);
    let raw = r#"{ "compilerOptions": { "target": "ES2022", "outDir": "lib" } }"#;
    let plan = plan_in("/v/acme", Some(raw), "acme").unwrap();
    assert!(plan.defines_class_fields);
    assert_eq!(plan.layout.out, "lib");
    let broken = plan_in("/v/acme", Some("{ nonsense"), "acme")
        .unwrap_err()
        .to_string();
    assert!(
        broken.starts_with(
            "vendor: acme: vendor: /v/acme/tsconfig.json: vendor: tsconfig.json does not parse: "
        ),
        "{broken}"
    );
}

#[test]
fn a_compiled_package_comes_to_its_writes_and_copies() {
    let outputs = vec![
        ("src/index.ts".to_string(), "export {};".to_string()),
        ("src/deep/worker.mts".to_string(), "self;".to_string()),
        ("elsewhere/x.ts".to_string(), "lost".to_string()),
    ];
    let assets = vec![
        ("src/data.json".to_string(), ()),
        ("README.css".to_string(), ()),
    ];
    let done = emissions("src", "lib", &outputs, &assets);
    assert_eq!(
        done.writes,
        vec![
            ("lib/index.js".to_string(), "export {};".to_string()),
            ("lib/deep/worker.mjs".to_string(), "self;".to_string()),
        ]
    );
    assert_eq!(
        done.copies,
        vec![("src/data.json".to_string(), "lib/data.json".to_string())]
    );
    // In place, only the code is written.
    let done = emissions("", "", &outputs[..1].to_vec(), &assets);
    assert_eq!(done.writes[0].0, "src/index.js");
    assert!(done.copies.is_empty());
}

#[test]
fn every_compiled_file_lies_under_the_directory_they_share() {
    let layout = SourceLayout::default();
    let inputs: Vec<String> = ["src/a/x.ts", "src/b.ts", "src/a/y/z.ts"]
        .iter()
        .map(|p| p.to_string())
        .collect();
    let root = source_root(&layout, &inputs);
    assert_eq!(root, "src");
    for input in &inputs {
        assert!(emitted_path(&root, "lib", input).is_some(), "{input}");
    }
}
