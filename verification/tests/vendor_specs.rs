use web_modules::error::Error;
use web_modules::importmap::Importmap;
use web_modules::mount::Mount;
use web_modules::npm::{manifest_entries, Entry};
use web_modules::vendor::entries::{auto_entries, import_entries, Target};
use web_modules::vendor::keep::{
    compiled_extension, is_commonjs_source, is_declaration, is_legal_notice, is_typescript_source,
    keep_browser_assets, keep_for, keep_sources, keep_with_manifest, path_covered,
};
use web_modules::vendor::manifest::{
    dep_to_spec, is_local_protocol, is_tarball_url, is_unsupported_protocol, local_path_dep,
    parse_github_dep, read_package_json, source_specs_from_package_json, specs_from_package_json,
    specs_from_package_json_sections,
};
use web_modules::vendor::select::{build_vendor_specs, dedupe, gather, vendor, Manifest, Vendored};
use web_modules::vendor::spec::{source_name, Extract, Imports, Keep, PackageSpec, Source};
use web_modules::vendor::wrapper::{
    esm_wrapper, esm_wrapper_source, has_commonjs_exports, has_esm_syntax, Wrap,
    ESM_WRAPPER_SUFFIX,
};

fn names(specs: &[PackageSpec]) -> Vec<&str> {
    specs.iter().map(PackageSpec::name).collect()
}

/// Every target present, none of them wrapped.
fn all_present(entries: &[Entry]) -> Vec<Target> {
    entries
        .iter()
        .map(|_| Target { present: true, wrapper: None })
        .collect()
}

#[test]
fn parse_handles_bare_scoped_and_ranged() {
    assert_eq!(PackageSpec::parse("lit").name(), "lit");
    assert_eq!(PackageSpec::parse("lit@^3").name(), "lit");
    assert_eq!(PackageSpec::parse("@lit/context").name(), "@lit/context");
    assert_eq!(PackageSpec::parse("@lit/context@^1").name(), "@lit/context");
    // The range is taken from after the last `@`; a bare name defaults to `*`.
    assert!(matches!(
        PackageSpec::parse("lit@^3").source,
        Source::Npm { ref range, .. } if range == "^3"
    ));
    assert!(matches!(
        PackageSpec::parse("lit").source,
        Source::Npm { ref range, .. } if range == "*"
    ));
}

#[test]
fn commonjs_entry_is_detected_and_esm_is_left_alone() {
    let cjs = "module.exports = function _atob(str) {\n  return atob(str)\n}\n";
    assert!(has_commonjs_exports(cjs));
    assert!(!has_esm_syntax(cjs));

    let esm = "export default function _atob(str) {\n  return atob(str);\n}\n";
    assert!(has_esm_syntax(esm));

    // A named-export ESM module must not be mistaken for CommonJS.
    let named = "const x = 1;\nexport { x };\n";
    assert!(has_esm_syntax(named));
}

#[test]
fn wrapper_scaffolds_the_body_and_reexports_it() {
    let src = esm_wrapper_source("atob-browser.js", "module.exports = 42;");
    assert!(src.contains("const module = { exports: {} };"));
    assert!(src.contains("const exports = module.exports;"));
    assert!(src.contains("module.exports = 42;"));
    assert!(src.trim_end().ends_with("export default module.exports;"));
    // The comment names the file it stands in for.
    assert!(src.contains("atob-browser.js"));
}

#[test]
fn wrapping_writes_a_sibling_and_is_idempotent() {
    let first = esm_wrapper("cjs.js", Some("module.exports = 1;\n"));
    let Wrap::Wrapper { path, contents } = &first else {
        panic!("expected a wrapper");
    };
    assert_eq!(path, &format!("cjs.js{ESM_WRAPPER_SUFFIX}"));
    assert_eq!(
        esm_wrapper("cjs.js", Some("module.exports = 1;\n")),
        first,
        "the same body gives the same wrapper"
    );
    // Wrapping a wrapper would recurse; it must not happen.
    assert_eq!(esm_wrapper(path, Some(contents)), Wrap::Leave);
}

#[test]
fn an_esm_entry_is_not_wrapped() {
    assert_eq!(
        esm_wrapper("esm.js", Some("export default 1;\n")),
        Wrap::Leave
    );
}

#[test]
fn a_commonjs_body_needing_node_is_refused() {
    for (name, body, needs) in [
        (
            "req.js",
            "const p = require('path');\nmodule.exports = p;\n",
            "require",
        ),
        ("dir.js", "module.exports = __dirname;\n", "__dirname"),
        ("proc.js", "module.exports = process.platform;\n", "process."),
    ] {
        assert_eq!(
            esm_wrapper(name, Some(body)),
            Wrap::Unwrappable(needs.to_string()),
            "{name}"
        );
    }
}

#[test]
fn a_file_that_exports_nothing_is_not_wrapped() {
    assert_eq!(esm_wrapper("plain.js", Some("const x = 1;\n")), Wrap::Leave);
    assert_eq!(esm_wrapper("missing.js", None), Wrap::Leave);
}

#[test]
fn keep_filter_picks_browser_assets() {
    assert_eq!(keep_browser_assets("index.js").as_deref(), Some("index.js"));
    assert_eq!(
        keep_browser_assets("dist/foo.mjs").as_deref(),
        Some("dist/foo.mjs")
    );
    assert_eq!(
        keep_browser_assets("scss/bootstrap.scss").as_deref(),
        Some("scss/bootstrap.scss")
    );
    assert!(keep_browser_assets("src/index.ts").is_none());
    assert!(keep_browser_assets("development/dev.js").is_none());
    assert!(keep_browser_assets("README.md").is_none());
}

#[test]
fn keep_for_keeps_exports_targets_even_under_src() {
    // A CommonJS package whose ESM helper exports live under src/helpers/esm/.
    let manifest = r#"{"type":"commonjs","exports":{
                "./helpers/decorate":{"import":"./src/helpers/esm/decorate.js"},
                "./helpers/extends":{"import":"./src/helpers/esm/extends.js"}
            }}"#;
    let pkg = manifest_entries(manifest).unwrap();
    let keep = |rel: &str| keep_for(Some(&pkg), rel);
    assert_eq!(
        keep("src/helpers/esm/decorate.js").as_deref(),
        Some("src/helpers/esm/decorate.js")
    );
    assert_eq!(keep("package.json").as_deref(), Some("package.json"));
    // A non-exported source file is still dropped by the heuristic.
    assert!(keep("src/index.ts").is_none());
    // The same, straight from the manifest's text.
    assert_eq!(
        keep_with_manifest(Some(manifest), "src/helpers/esm/extends.js").as_deref(),
        Some("src/helpers/esm/extends.js")
    );
    assert!(keep_with_manifest(None, "src/helpers/esm/extends.js").is_none());
}

#[test]
fn auto_entries_lit_like_is_bare_plus_prefix() {
    let pkg = manifest_entries(
        r#"{"exports":{".":{"default":"./index.js"},"./decorators.js":{"default":"./decorators.js"}}}"#,
    )
    .unwrap();
    // Only the entry file exists.
    let targets: Vec<Target> = pkg
        .iter()
        .map(|e| Target {
            present: matches!(e, Entry::Bare(_)),
            wrapper: None,
        })
        .collect();
    let entries = auto_entries(&pkg, &targets, "lit", "lit", "/web_modules");
    assert!(entries.contains(&("lit".into(), "/web_modules/lit/index.js".into())));
    assert!(entries.contains(&("lit/".into(), "/web_modules/lit/".into())));
    // The identity subpath `./decorators.js` is covered by the prefix, not listed.
    assert!(!entries.iter().any(|(s, _)| s == "lit/decorators.js"));
}

#[test]
fn auto_entries_maps_remapped_subpaths() {
    let pkg = manifest_entries(
        r#"{"type":"commonjs","exports":{"./helpers/decorate":{"import":"./src/helpers/esm/decorate.js"}}}"#,
    )
    .unwrap();
    let entries = auto_entries(
        &pkg,
        &all_present(&pkg),
        "@oxc-project/runtime",
        "@oxc-project/runtime",
        "/web_modules",
    );
    assert!(entries.contains(&(
        "@oxc-project/runtime/helpers/decorate".into(),
        "/web_modules/@oxc-project/runtime/src/helpers/esm/decorate.js".into(),
    )));
    // No bare entry and no convenience prefix for a `.`-less package.
    assert!(!entries.iter().any(|(s, _)| s == "@oxc-project/runtime"));
    assert!(!entries.iter().any(|(s, _)| s == "@oxc-project/runtime/"));
}

#[test]
fn auto_entries_none_is_empty() {
    let spec = PackageSpec::npm("d3", "^7");
    assert!(import_entries(&spec, "/web_modules", None, &vec![]).is_empty());
}

#[test]
fn explicit_imports_are_rooted_at_mount_dir() {
    let spec = PackageSpec::npm("jose", "^5").imports(&[("jose", "index.js"), ("jose/", "")]);
    let entries = import_entries(&spec, "/web_modules", None, &vec![]);
    assert!(entries.contains(&("jose".into(), "/web_modules/jose/index.js".into())));
    assert!(entries.contains(&("jose/".into(), "/web_modules/jose/".into())));
}

#[test]
fn no_imports_yields_no_entries() {
    let spec = PackageSpec::npm("bootstrap", "^5")
        .extract(Extract::Full)
        .no_imports();
    assert!(import_entries(&spec, "/web_modules", None, &vec![]).is_empty());
}

#[test]
fn git_spec_defaults() {
    let spec = PackageSpec::git("feathericons/feather", "v4.29.2");
    assert_eq!(spec.dir, "feather");
    assert!(matches!(spec.imports, Imports::Nothing));
    match spec.source {
        Source::Git {
            owner,
            repo,
            reference,
        } => {
            assert_eq!(
                (owner.as_str(), repo.as_str(), reference.as_str()),
                ("feathericons", "feather", "v4.29.2")
            );
        }
        _ => panic!("expected git source"),
    }
}

#[test]
fn tarball_spec_defaults() {
    let spec = PackageSpec::tarball(
        "@gronke/ui-components",
        "https://github.com/gronke/ui-components/releases/download/v0.1.0/gronke-ui-components-0.1.0.tgz",
    );
    assert_eq!(spec.dir, "@gronke/ui-components");
    assert!(matches!(spec.imports, Imports::Auto));
    assert!(matches!(spec.extract, Extract::BrowserAssets));
    assert_eq!(source_name(&spec.source), "@gronke/ui-components");
    match &spec.source {
        Source::Tarball { name, url } => {
            assert_eq!(name, "@gronke/ui-components");
            assert!(url.ends_with("gronke-ui-components-0.1.0.tgz"));
        }
        _ => panic!("expected a tarball source"),
    }
}

#[test]
fn tarball_url_routes_before_github() {
    // A GitHub Release-asset URL must vend as the packed tarball, not as a repo
    // source archive: the `github.com` branch would otherwise capture it.
    let asset = "https://github.com/gronke/ui-components/releases/download/v0.1.0/gronke-ui-components-0.1.0.tgz";
    assert!(matches!(
        dep_to_spec("@gronke/ui-components", asset).unwrap().source,
        Source::Tarball { .. }
    ));
    // A non-GitHub tarball host still routes to a tarball.
    assert!(matches!(
        dep_to_spec("pkg", "https://cdn.example.com/pkg-1.0.0.tgz")
            .unwrap()
            .source,
        Source::Tarball { .. }
    ));
    // The plain `github:` shorthand still routes to a git source.
    assert!(matches!(
        dep_to_spec("feather", "github:feathericons/feather#v4.29.2")
            .unwrap()
            .source,
        Source::Git { .. }
    ));
}

#[test]
fn auto_entries_tarball_dist_shape() {
    // The published dist has subpath exports and no `.` entry, so the specifier
    // is the exact `@scope/pkg/<subpath>` with no bare / no `name/` prefix.
    let pkg = manifest_entries(
        r#"{"exports":{"./input-secret.js":{"default":"./components/input-secret.js"}}}"#,
    )
    .unwrap();
    let entries = auto_entries(
        &pkg,
        &all_present(&pkg),
        "@gronke/ui-components",
        "@gronke/ui-components",
        "/web_modules",
    );
    assert!(entries.contains(&(
        "@gronke/ui-components/input-secret.js".into(),
        "/web_modules/@gronke/ui-components/components/input-secret.js".into(),
    )));
    assert!(!entries.iter().any(|(s, _)| s == "@gronke/ui-components"));
    assert!(!entries.iter().any(|(s, _)| s == "@gronke/ui-components/"));
}

#[test]
fn specs_from_package_json_reads_dependencies_only() {
    let manifest = br#"{
                "dependencies": {
                    "lit": "^3",
                    "feather": "github:feathericons/feather#v4.29.2",
                    "local": "file:../x"
                },
                "devDependencies": { "typescript": "^5" }
            }"#;
    let specs = specs_from_package_json("package.json", manifest).unwrap();
    let names = names(&specs);
    assert!(names.contains(&"lit"));
    assert!(names.contains(&"feather"));
    assert!(!names.contains(&"local"), "file: protocol skipped");
    assert!(!names.contains(&"typescript"), "devDependencies not vended");

    let lit = specs.iter().find(|s| s.name() == "lit").unwrap();
    match &lit.source {
        Source::Npm { range, .. } => assert_eq!(range, "^3", "range preserved verbatim"),
        _ => panic!("lit should be an npm source"),
    }
    let feather = specs.iter().find(|s| s.name() == "feather").unwrap();
    assert!(matches!(feather.source, Source::Git { .. }));
}

#[test]
fn sections_can_opt_into_devdependencies() {
    let manifest = br#"{"dependencies":{"lit":"^3"},"devDependencies":{"typescript":"^5"}}"#;
    let specs = specs_from_package_json_sections(
        "package.json",
        manifest,
        &["dependencies", "devDependencies"],
    )
    .unwrap();
    let names = names(&specs);
    assert!(names.contains(&"lit") && names.contains(&"typescript"));
}

#[test]
fn web_dependencies_whitelist_narrows_to_named_subset() {
    let manifest = br#"{
                "dependencies": { "lit": "^3", "lit-html": "^3", "pg": "^8" },
                "web_modules": { "webDependencies": ["lit", "lit-html"] }
            }"#;
    let specs = specs_from_package_json("package.json", manifest).unwrap();
    let names = names(&specs);
    assert_eq!(names, vec!["lit", "lit-html"], "whitelist order preserved");
    assert!(
        !names.contains(&"pg"),
        "server-only dep left out of the browser vend"
    );
}

#[test]
fn the_module_format_travels_with_the_extension() {
    for (source, emitted) in [
        ("src/index.ts", Some("js")),
        ("src/app.tsx", Some("js")),
        ("src/index.mts", Some("mjs")),
        // CommonJS source, refused rather than renamed.
        ("src/index.cts", None),
        // A declaration has no runtime form, in any of its three module spellings.
        ("src/index.d.ts", None),
        ("src/index.d.mts", None),
        ("src/index.d.cts", None),
        ("src/data.json", None),
        ("src/style.css", None),
    ] {
        assert_eq!(compiled_extension(source), emitted, "{source}");
    }
    // A declaration is not a source, whichever module form it declares.
    for name in ["index.d.ts", "index.d.mts", "index.d.cts"] {
        assert_eq!(keep_sources(&format!("src/{name}")), None, "{name}");
    }
    // The filter carries every source form through, so an unsupported one is refused
    // with a message rather than vanishing from the tree.
    for ext in ["ts", "tsx", "mts", "cts"] {
        assert!(
            keep_sources(&format!("src/index.{ext}")).is_some(),
            ".{ext} reaches the compiler"
        );
    }
}

#[test]
fn keep_sources_drops_repo_furniture() {
    for path in [
        "examples/typescript/src/index.ts",
        "test/spec.ts",
        "tests/spec.ts",
        "docs/guide.js",
        ".github/workflows/ci.yml",
        ".vscode/settings.json",
        ".devcontainer/devcontainer.json",
        "package-lock.json",
    ] {
        assert_eq!(
            keep_sources(path),
            None,
            "{path} is not part of the package"
        );
    }
    // The package's own sources still come through.
    assert!(keep_sources("src/index.ts").is_some());
    assert!(keep_sources("package.json").is_some());
}

#[test]
fn keep_sources_keeps_the_src_tree_that_browser_assets_drops() {
    assert_eq!(keep_browser_assets("src/esploader.ts"), None);
    assert_eq!(
        keep_sources("src/esploader.ts").as_deref(),
        Some("src/esploader.ts")
    );
    assert_eq!(
        keep_sources("src/targets/stub_flasher/stub_flasher_32s3.json").as_deref(),
        Some("src/targets/stub_flasher/stub_flasher_32s3.json")
    );
    assert_eq!(
        keep_sources("package.json").as_deref(),
        Some("package.json")
    );
    assert_eq!(
        keep_sources("src/app.scss").as_deref(),
        Some("src/app.scss")
    );

    // A declaration has no runtime form, and nothing under these trees is shipped.
    assert_eq!(keep_sources("src/index.d.ts"), None);
    assert_eq!(keep_sources("node_modules/lit/index.js"), None);
    assert_eq!(keep_sources("development/debug.js"), None);
    // Not part of a module graph.
    assert_eq!(keep_sources("README.md"), None);
    // A licence covers the sources beside it, so it travels with them.
    assert_eq!(keep_sources("LICENSE").as_deref(), Some("LICENSE"));
    assert_eq!(keep_sources("LICENSE-MIT").as_deref(), Some("LICENSE-MIT"));
    assert_eq!(keep_sources("NOTICE").as_deref(), Some("NOTICE"));
}

#[test]
fn keep_browser_assets_keeps_licences_and_notices() {
    for path in [
        "LICENSE",
        "LICENSE.md",
        "LICENCE.txt",
        "license",
        "LICENSE-MIT",
        "LICENSE-APACHE",
        "NOTICE",
        "COPYING",
        "AUTHORS",
        "dist/LICENSE",
    ] {
        assert_eq!(
            keep_browser_assets(path).as_deref(),
            Some(path),
            "{path} covers the code beside it"
        );
    }
    // Prose and metadata are still not part of the package.
    assert_eq!(keep_browser_assets("README.md"), None);
    assert_eq!(keep_browser_assets("CHANGELOG.md"), None);
    // The excluded trees stay excluded, licence or not.
    assert_eq!(keep_browser_assets("src/LICENSE"), None);
}

#[test]
fn source_dependencies_take_the_dependency_key_as_their_dir() {
    let manifest = br#"{"dependencies":{"acme-ui":"github:acme/ui#v2","pako":"^2"},
                "web_modules":{"sourceDependencies":["acme-ui"]}}"#;
    let specs = source_specs_from_package_json("package.json", manifest).unwrap();
    assert_eq!(specs.len(), 1);
    // The dependency key names the directory and the specifier, not the repo.
    assert_eq!(specs[0].dir, "acme-ui");
    assert!(specs[0].compile, "its TypeScript is compiled by vendoring");
    assert!(matches!(specs[0].extract, Extract::Filter(_)));
    // A git spec derives no entries by default; compiling into the layout the manifest
    // declares is what makes the ordinary auto-derivation correct here.
    assert!(matches!(specs[0].imports, Imports::Auto));
}

#[test]
fn the_vend_list_skips_a_source_dependency_in_both_forms() {
    let manifest = br#"{"dependencies":{"esptool-js":"github:gronke/fork-esptool-js#v1","pako":"^2"},
                "web_modules":{"sourceDependencies":["esptool-js"]}}"#;
    assert_eq!(
        names(&specs_from_package_json("package.json", manifest).unwrap()),
        vec!["pako"],
        "the git dep is the source dep, vendored from its own spec"
    );

    // The same rule under a webDependencies whitelist that names it too.
    let whitelisted = br#"{"dependencies":{"esptool-js":"github:gronke/fork-esptool-js#v1","pako":"^2"},
                "web_modules":{"sourceDependencies":["esptool-js"],
                               "webDependencies":["esptool-js","pako"]}}"#;
    assert_eq!(
        names(&specs_from_package_json("whitelisted.json", whitelisted).unwrap()),
        vec!["pako"]
    );
}

#[test]
fn a_source_dependency_is_not_also_vended() {
    let manifest = br#"{"dependencies":{"acme-ui":"github:acme/ui#v2","pako":"^2"},
                "web_modules":{"sourceDependencies":["acme-ui"]}}"#;
    let (specs, _dirs) = read_package_json("package.json", manifest).unwrap();
    assert_eq!(
        names(&specs),
        vec!["pako"],
        "a source dependency is vendored from its own spec"
    );
}

#[test]
fn source_dependencies_without_the_key_are_none() {
    let manifest = br#"{"dependencies":{"pako":"^2"}}"#;
    assert!(source_specs_from_package_json("package.json", manifest)
        .unwrap()
        .is_empty());
}

#[test]
fn source_dependencies_naming_a_missing_dep_errors() {
    let manifest =
        br#"{"dependencies":{"pako":"^2"},"web_modules":{"sourceDependencies":["nope"]}}"#;
    let Err(err) = source_specs_from_package_json("package.json", manifest) else {
        panic!("expected an error for the missing dep");
    };
    assert!(
        err.to_string().contains("nope"),
        "error names it: {}",
        err.to_string()
    );
}

#[test]
fn a_source_dependency_that_is_not_a_git_reference_errors() {
    let manifest =
        br#"{"dependencies":{"pako":"^2"},"web_modules":{"sourceDependencies":["pako"]}}"#;
    let Err(err) = source_specs_from_package_json("package.json", manifest) else {
        panic!("expected an error for the registry range");
    };
    let msg = err.to_string();
    assert!(msg.contains("pako") && msg.contains("git"), "{msg}");
}

#[test]
fn source_dependencies_must_be_an_array() {
    let manifest =
        br#"{"dependencies":{"a":"github:o/r#v1"},"web_modules":{"sourceDependencies":"a"}}"#;
    assert!(source_specs_from_package_json("package.json", manifest).is_err());
}

#[test]
fn web_dependencies_whitelist_naming_a_missing_dep_errors() {
    let manifest =
        br#"{"dependencies":{"lit":"^3"},"web_modules":{"webDependencies":["lit","nope"]}}"#;
    let Err(err) = specs_from_package_json("package.json", manifest) else {
        panic!("expected an error for the missing dep");
    };
    assert!(
        err.to_string().contains("nope"),
        "error names the missing dep: {}",
        err.to_string()
    );
}

#[test]
fn empty_web_dependencies_vends_nothing() {
    let manifest = br#"{"dependencies":{"lit":"^3"},"web_modules":{"webDependencies":[]}}"#;
    assert!(specs_from_package_json("package.json", manifest)
        .unwrap()
        .is_empty());
}

#[test]
fn web_dependencies_must_be_an_array() {
    let manifest =
        br#"{"dependencies":{"lit":"^3"},"web_modules":{"webDependencies":{"lit":"^3"}}}"#;
    assert!(
        specs_from_package_json("package.json", manifest).is_err(),
        "object form rejected"
    );
}

#[test]
fn parse_github_dep_handles_shorthand_and_urls() {
    assert_eq!(
        parse_github_dep("github:owner/repo#v1").unwrap(),
        ("owner/repo".to_string(), "v1".to_string())
    );
    assert_eq!(
        parse_github_dep("git+https://github.com/owner/repo.git#abc123").unwrap(),
        ("owner/repo".to_string(), "abc123".to_string())
    );
    assert_eq!(
        parse_github_dep("github:owner/repo").unwrap(),
        ("owner/repo".to_string(), "HEAD".to_string())
    );
    assert!(parse_github_dep("^3").is_none());
}

#[test]
fn read_package_json_splits_registry_and_path_deps() {
    let manifest = br#"{"dependencies":{"lit":"^3","sib":"file:./sib","ws":"workspace:*"}}"#;
    let (specs, dirs) = read_package_json("/work/package.json", manifest).unwrap();
    // registry dep vended; `workspace:` skipped; path-dep: key-named mount at the target root.
    assert_eq!(names(&specs), vec!["lit"]);
    assert_eq!(dirs.len(), 1);
    let mount: Mount = dirs[0].mount(Some(
        br#"{"name":"sibling","web_modules":{"root":"./pub"}}"#,
    ));
    assert_eq!(mount.specifier_prefix(), "sib/");
    assert_eq!(mount.url_prefix(), "/sib/");
    assert_eq!(
        std::path::Path::new(mount.dir()),
        std::path::Path::new("/work/sib/pub")
    );
}

#[test]
fn vendor_specs_requires_a_source_when_asked() {
    // A command that only vendors needs at least one package; a build may have none.
    assert!(build_vendor_specs(&vec![], &vec![], true).is_err());
    assert!(build_vendor_specs(&vec![], &vec![], false)
        .unwrap()
        .is_empty());
}

#[test]
fn vendor_specs_from_positional_specs() {
    let given = vec!["lit@^3".to_string(), "@lit/context@^1".to_string()];
    let specs = build_vendor_specs(&given, &vec![], true).unwrap();
    assert_eq!(names(&specs), ["lit", "@lit/context"]);
}

fn manifest(bytes: &[u8]) -> Manifest {
    Manifest {
        path: "package.json".to_string(),
        bytes: bytes.to_vec(),
    }
}

#[test]
fn vendor_specs_reads_a_manifest() {
    let list = vec![manifest(br#"{"dependencies":{"ms":"^2.1.3"}}"#)];
    let specs = build_vendor_specs(&vec![], &list, true).unwrap();
    assert_eq!(names(&specs), ["ms"]);
}

#[test]
fn vendor_specs_positional_wins_over_manifest_duplicate() {
    let list = vec![manifest(br#"{"dependencies":{"lit":"^2","ms":"^2"}}"#)];
    let specs = build_vendor_specs(&vec!["lit@^3".to_string()], &list, true).unwrap();
    // lit (positional, first) then ms (manifest); the manifest's lit is deduped out.
    assert_eq!(names(&specs), ["lit", "ms"]);
    assert!(matches!(
        &specs[0].source,
        Source::Npm { range, .. } if range == "^3"
    ));
}

#[test]
fn the_first_spec_of_a_name_stays() {
    let kept = dedupe(vec![
        PackageSpec::npm("a", "1"),
        PackageSpec::npm("b", "1"),
        PackageSpec::npm("a", "2"),
    ]);
    assert_eq!(
        kept,
        vec![PackageSpec::npm("a", "1"), PackageSpec::npm("b", "1")]
    );
}

#[test]
fn gathering_stops_at_a_manifest_that_does_not_parse() {
    let list = vec![manifest(b"{")];
    let err = gather(vec![], &list).unwrap_err();
    assert!(
        err.to_string().contains("package.json"),
        "{}",
        err.to_string()
    );
    assert!(matches!(err, Error::Vendor(_)));
}

#[test]
fn vendored_packages_compose_one_import_map() {
    let lit = manifest_entries(r#"{"exports":{".":"./index.js"}}"#).unwrap();
    let targets = all_present(&lit);
    let packages = vec![
        Vendored {
            spec: PackageSpec::npm("lit", "^3"),
            manifest: Some(lit),
            targets,
        },
        Vendored {
            spec: PackageSpec::npm("jose", "^5").imports(&[("jose", "index.js")]),
            manifest: None,
            targets: vec![],
        },
    ];
    let map: Importmap = vendor("/web_modules/", &packages);
    assert_eq!(
        map.iter(),
        vec![
            ("jose".to_string(), "/web_modules/jose/index.js".to_string()),
            ("lit".to_string(), "/web_modules/lit/index.js".to_string()),
            ("lit/".to_string(), "/web_modules/lit/".to_string()),
        ]
    );
}

#[test]
fn a_wrapped_target_is_imported_through_its_wrapper() {
    let pkg = manifest_entries(r#"{"exports":{".":"./cjs.js"}}"#).unwrap();
    let targets = vec![Target {
        present: true,
        wrapper: Some(format!("cjs.js{ESM_WRAPPER_SUFFIX}")),
    }];
    let entries = auto_entries(&pkg, &targets, "old", "old", "/m");
    assert!(entries.contains(&(
        "old".to_string(),
        format!("/m/old/cjs.js{ESM_WRAPPER_SUFFIX}")
    )));
}

#[test]
fn a_spec_builder_sets_one_thing_at_a_time() {
    let spec = PackageSpec::git("acme/ui", "main")
        .dir("acme-ui")
        .dest("elsewhere/ui");
    assert_eq!(spec.dest.as_deref(), Some("elsewhere/ui"));
    let source = PackageSpec::git("acme/ui", "main").dir("acme-ui").as_source();
    assert!(source.compile);
    assert!(matches!(source.extract, Extract::Filter(Keep::Sources)));
    assert!(matches!(source.imports, Imports::Auto));
    let kept = PackageSpec::npm("lit", "^3").keep(Keep::Caller);
    assert!(matches!(kept.extract, Extract::Filter(Keep::Caller)));
}

#[test]
fn dependency_values_are_told_apart() {
    assert!(is_local_protocol("file:../x") && is_local_protocol("workspace:*"));
    assert!(!is_local_protocol("^3"));
    assert_eq!(local_path_dep("file:../x").as_deref(), Some("../x"));
    assert_eq!(local_path_dep("workspace:*"), None);
    assert!(is_tarball_url("https://cdn.example.com/pkg-1.0.0.tgz"));
    assert!(!is_tarball_url("https://cdn.example.com/pkg"));
    assert!(is_unsupported_protocol("npm:other@1"));
    assert!(!is_unsupported_protocol("^3"));
}

#[test]
fn covered_paths_are_the_target_and_what_lies_below() {
    assert!(path_covered("src/a.js", "src/a.js"));
    assert!(path_covered("src/a.js", "src/"));
    assert!(!path_covered("lib/a.js", "src/"));
    assert!(is_legal_notice("docs/NOTICE.txt"));
    assert!(is_declaration("index.d.ts") && !is_declaration("index.ts"));
    assert!(is_commonjs_source("a.cts") && !is_commonjs_source("a.ts"));
    assert!(is_typescript_source("a.tsx") && !is_typescript_source("a.js"));
}

#[test]
fn a_declaration_is_dropped_whatever_it_is_called() {
    for rel in ["license.d.ts", "NOTICE.d.mts", "lib/LICENSE-MIT.d.cts"] {
        assert_eq!(keep_sources(rel), None, "{rel}");
    }
    assert_eq!(keep_sources("license.ts").as_deref(), Some("license.ts"));
    assert_eq!(keep_sources("LICENSE").as_deref(), Some("LICENSE"));
}

#[test]
fn a_source_dependency_is_fetched_as_sources_only() {
    let manifest = br#"{
        "dependencies": { "lit": "^3", "src-a": "github:o/a#v1", "src-b": "github:o/b" },
        "web_modules": {
            "sourceDependencies": ["src-b", "src-a"],
            "webDependencies": ["src-a", "lit"]
        } }"#;
    let dirs = |specs: Vec<PackageSpec>| -> Vec<String> {
        specs.into_iter().map(|spec| spec.dir).collect()
    };
    assert_eq!(
        dirs(source_specs_from_package_json("package.json", manifest).unwrap()),
        ["src-b", "src-a"]
    );
    assert_eq!(
        dirs(specs_from_package_json("package.json", manifest).unwrap()),
        ["lit"]
    );
    assert_eq!(
        dirs(specs_from_package_json_sections("package.json", manifest, &["dependencies"]).unwrap()),
        ["lit"]
    );
    let (specs, local) = read_package_json("package.json", manifest).unwrap();
    assert_eq!(dirs(specs), ["lit"]);
    assert!(local.is_empty());
}

#[test]
fn typescript_is_no_browser_asset_whatever_it_is_called() {
    for rel in ["license.ts", "LICENSE.d.ts", "notice.mts", "copying.tsx", "index.cts"] {
        assert_eq!(keep_browser_assets(rel), None, "{rel}");
    }
    assert_eq!(keep_browser_assets("LICENSE.md").as_deref(), Some("LICENSE.md"));
    assert_eq!(keep_browser_assets("license.js").as_deref(), Some("license.js"));
}

#[test]
fn the_first_section_to_name_a_package_wins() {
    let manifest = br#"{
        "dependencies": { "lit": "^3", "ui": "file:../ui" },
        "devDependencies": { "lit": "^2", "ui": "^1", "typescript": "^5" } }"#;
    let names: Vec<String> = specs_from_package_json_sections(
        "package.json",
        manifest,
        &["dependencies", "devDependencies"],
    )
    .unwrap()
    .into_iter()
    .map(|spec| spec.dir)
    .collect();
    assert_eq!(names, ["lit", "typescript"]);
}

#[test]
fn a_whitelisted_name_must_be_a_dependency_even_when_it_is_a_source() {
    let manifest = br#"{ "dependencies": { "lit": "^3" },
        "web_modules": { "sourceDependencies": ["gone"], "webDependencies": ["lit", "gone"] } }"#;
    let said = specs_from_package_json("package.json", manifest).unwrap_err().to_string();
    assert!(said.contains("webDependencies lists `gone`, not found in dependencies"), "{said}");
}
