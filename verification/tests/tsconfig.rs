use std::path::Path;

use web_modules::error::Error;
use web_modules::glob::{glob_matches, matches_segments, segment_matches};
use web_modules::importmap::Importmap;
use web_modules::json::{parse, Json};
use web_modules::mount::Mount;
use web_modules::path;
use web_modules::tsconfig_read::find_repeated_field;
use web_modules::tsconfig::{
    common_input_dir, relative_dir, tsconfig_base, tsconfig_node_modules_paths, tsconfig_paths,
    SourceLayout, TsConfig,
};

fn only(entry: &Json) -> &str {
    let list = entry.as_array().unwrap();
    assert_eq!(list.len(), 1);
    list[0].as_str().unwrap()
}

#[test]
fn paths_from_mounts_are_specifier_to_relative_dir() {
    let mounts = vec![
        Mount::new("contacts", "/work/modules/contacts/web/src")
            .specifier("@module/contacts/")
            .url("/modules/contacts/"),
        Mount::new("lib", "/work/packages/frontend/web/src/lib"),
        // root mount contributes nothing
        Mount::root("/work/packages/frontend/web/src"),
    ];
    let paths = tsconfig_paths(&mounts, "/work");
    assert_eq!(
        only(paths.get("@module/contacts/*").unwrap()),
        "./modules/contacts/web/src/*"
    );
    assert_eq!(
        only(paths.get("lib/*").unwrap()),
        "./packages/frontend/web/src/lib/*"
    );
    assert_eq!(
        paths.as_object().unwrap().len(),
        2,
        "root mount has no specifier, so no path entry"
    );
}

#[test]
fn write_base_roundtrips() {
    let mounts = vec![Mount::new("ui", "/work/ui/src")];
    let written = parse(tsconfig_base(&mounts, "/work").as_bytes()).unwrap();
    let paths = written.get2("compilerOptions", "paths").unwrap();
    assert_eq!(only(paths.get("ui/*").unwrap()), "./ui/src/*");
}

#[test]
fn node_modules_paths_from_dependencies() {
    let manifest =
        br#"{ "dependencies": { "lit": "^3", "@lit/context": "1.1.6", "jose": "6.2.3" } }"#;
    let paths = tsconfig_node_modules_paths("package.json", manifest).unwrap();
    assert_eq!(only(paths.get("lit").unwrap()), "./node_modules/lit");
    assert_eq!(only(paths.get("lit/*").unwrap()), "./node_modules/lit/*");
    // Scoped packages are emitted verbatim.
    assert_eq!(
        only(paths.get("@lit/context").unwrap()),
        "./node_modules/@lit/context"
    );
    assert_eq!(
        only(paths.get("@lit/context/*").unwrap()),
        "./node_modules/@lit/context/*"
    );
    assert_eq!(only(paths.get("jose").unwrap()), "./node_modules/jose");
    assert_eq!(paths.as_object().unwrap().len(), 6, "3 packages, bare and /*");
}

#[test]
fn node_modules_paths_honor_webdependencies_whitelist() {
    // `pg` is server-only; the webDependencies whitelist keeps it out of the editor set.
    let manifest = br#"{ "dependencies": { "lit": "^3", "pg": "^8" },
                "web_modules": { "webDependencies": ["lit"] } }"#;
    let paths = tsconfig_node_modules_paths("package.json", manifest).unwrap();
    assert!(paths.get("lit").is_some());
    assert!(
        paths.get("pg").is_none(),
        "pg is not in webDependencies, so no tsconfig path"
    );
    assert_eq!(paths.as_object().unwrap().len(), 2, "only lit (bare + /*)");
}

#[test]
fn parses_the_jsonc_a_tsconfig_really_is() {
    let raw = r#"{
            // where the build goes
            "compilerOptions": {
                "outDir": "lib",   /* beside the sources */
                "rootDir": "src",
                "target": "ES2019",
            },
            "include": ["src/**/*"],
        }"#;
    let cfg = TsConfig::parse(raw).unwrap();
    assert_eq!(cfg.compiler_options.out_dir.as_deref(), Some("lib"));
    assert_eq!(cfg.compiler_options.root_dir.as_deref(), Some("src"));
    assert_eq!(cfg.included, vec!["src/**/*"]);

    // An escaped quote does not end the string it is in.
    let cfg = TsConfig::parse(r#"{ "compilerOptions": { "outDir": "a\"b" } } // tail"#).unwrap();
    assert_eq!(cfg.compiler_options.out_dir.as_deref(), Some("a\"b"));
}

#[test]
fn an_empty_or_absent_config_is_all_defaults() {
    assert_eq!(TsConfig::parse("{}").unwrap(), TsConfig::default());
    assert_eq!(TsConfig::parse("").unwrap(), TsConfig::default());
    assert_eq!(TsConfig::load("pkg", None).unwrap(), None);
    assert_eq!(
        TsConfig::load("pkg", Some("{}")).unwrap(),
        Some(TsConfig::default())
    );
}

#[test]
fn class_field_semantics_follow_the_target_unless_stated() {
    let define = |raw: &str| TsConfig::parse(raw).unwrap().defines_class_fields();
    assert!(!define("{}"), "no target: assignment, as tsc does");
    assert!(!define(r#"{"compilerOptions":{"target":"ES2019"}}"#));
    assert!(!define(r#"{"compilerOptions":{"target":"es2021"}}"#));
    assert!(define(r#"{"compilerOptions":{"target":"ES2022"}}"#));
    assert!(define(r#"{"compilerOptions":{"target":"ESNext"}}"#));
    // An explicit setting wins over the target either way.
    assert!(define(
        r#"{"compilerOptions":{"target":"ES2019","useDefineForClassFields":true}}"#
    ));
    assert!(!define(
        r#"{"compilerOptions":{"target":"ESNext","useDefineForClassFields":false}}"#
    ));
}

#[test]
fn root_dir_and_out_dir_are_taken_as_given() {
    let cfg =
        TsConfig::parse(r#"{"compilerOptions":{"rootDir":"./src/","outDir":"./lib"}}"#).unwrap();
    assert_eq!(
        cfg.layout().unwrap(),
        SourceLayout {
            root: Some("src".into()),
            out: "lib".into()
        }
    );
    // Every spelling of the package root is the empty prefix.
    for root in [".", "./", "", "./."] {
        let cfg = TsConfig::parse(&format!(
            r#"{{"compilerOptions":{{"rootDir":"{root}","outDir":"lib"}}}}"#
        ))
        .unwrap();
        assert_eq!(cfg.layout().unwrap().root, Some(String::new()), "{root:?}");
    }
    // No `rootDir` is not the package root: it is inferred from the program's inputs.
    let cfg = TsConfig::parse(r#"{"compilerOptions":{"outDir":"lib"},"include":["src/**/*"]}"#)
        .unwrap();
    assert_eq!(cfg.layout().unwrap().root, None);
}

#[test]
fn the_inferred_root_is_the_directory_the_inputs_share() {
    let dir = |paths: &[&str]| {
        common_input_dir(&paths.iter().map(|p| p.to_string()).collect::<Vec<_>>())
    };
    assert_eq!(dir(&["src/deep/index.ts", "src/deep/util.ts"]), "src/deep");
    assert_eq!(dir(&["src/index.ts", "src/deep/util.ts"]), "src");
    assert_eq!(dir(&["src/index.ts", "lib/other.ts"]), "");
    assert_eq!(dir(&["index.ts"]), "");
    assert_eq!(dir(&[]), "");
}

#[test]
fn a_layout_component_that_leaves_the_package_is_refused() {
    for body in [
        r#"{"compilerOptions":{"rootDir":".."}}"#,
        r#"{"compilerOptions":{"rootDir":"../../elsewhere"}}"#,
        r#"{"compilerOptions":{"rootDir":"src/../.."}}"#,
        r#"{"compilerOptions":{"outDir":"../lib"}}"#,
        r#"{"compilerOptions":{"outDir":"../../../etc"}}"#,
        r#"{"compilerOptions":{"rootDir":"src","outDir":"../out"}}"#,
    ] {
        let Err(err) = TsConfig::parse(body).unwrap().layout() else {
            panic!("expected a refusal for {body}");
        };
        assert!(
            err.to_string().contains("leaves the package"),
            "says why: {}",
            err.to_string()
        );
    }
}

#[test]
fn an_absolute_layout_component_is_refused() {
    for body in [
        r#"{"compilerOptions":{"rootDir":"/etc"}}"#,
        r#"{"compilerOptions":{"outDir":"/tmp/out"}}"#,
    ] {
        let Err(err) = TsConfig::parse(body).unwrap().layout() else {
            panic!("expected a refusal for {body}");
        };
        assert!(
            err.to_string().contains("absolute"),
            "says why: {}",
            err.to_string()
        );
    }
}

#[test]
fn root_files_are_discovered_not_filtered() {
    let root = |body: &str, path: &str| TsConfig::parse(body).unwrap().is_root_file(path);

    // Neither field: everything is a root, as tsc does.
    assert!(root("{}", "src/index.ts"));
    assert!(root("{}", "src/dev/scratch.ts"));

    // `files` is exact, and `exclude` does not take it away.
    let files = r#"{"files":["src/index.ts"]}"#;
    assert!(root(files, "src/index.ts"));
    assert!(!root(files, "src/dev.ts"));
    assert!(
        root(
            r#"{"files":["src/index.ts"],"exclude":["src/index.ts"]}"#,
            "src/index.ts"
        ),
        "exclude only filters what the globs find"
    );

    // Globs match, and a plain entry stands for its whole subtree.
    let listed = r#"{"include":["src/index.ts"]}"#;
    assert!(root(listed, "src/index.ts"));
    assert!(!root(listed, "src/sibling.ts"));
    assert!(root(r#"{"include":["src"]}"#, "src/deep/inner.ts"));
    assert!(root(r#"{"include":["src/**/*"]}"#, "src/deep/inner.ts"));
    assert!(root(r#"{"include":["src/*.ts"]}"#, "src/top.ts"));
    assert!(!root(r#"{"include":["src/*.ts"]}"#, "src/deep/inner.ts"));

    // `exclude` subtracts, and several globs are a union.
    let excluded = r#"{"include":["src/**/*"],"exclude":["src/dev/**"]}"#;
    assert!(root(excluded, "src/index.ts"));
    assert!(!root(excluded, "src/dev/scratch.ts"));
    let union = r#"{"include":["lib/a/**","lib/b/**"]}"#;
    assert!(root(union, "lib/a/one.ts"));
    assert!(root(union, "lib/b/two.ts"));
    assert!(!root(union, "lib/c/three.ts"), "not their ancestor");

    // What tsc excludes whether or not the config says so, plus the output itself.
    assert!(!root("{}", "node_modules/dep/index.ts"));
    assert!(!root("{}", "jspm_packages/dep/index.ts"));
    assert!(!root(
        r#"{"compilerOptions":{"outDir":"lib"}}"#,
        "lib/index.js"
    ));
}

#[test]
fn the_module_format_follows_module_then_target() {
    let cjs = |body: &str| TsConfig::parse(body).unwrap().emits_commonjs();
    assert!(
        !cjs("{}"),
        "a config stating neither is not read as CommonJS"
    );
    assert!(cjs(r#"{"compilerOptions":{"target":"ES5"}}"#));
    assert!(cjs(r#"{"compilerOptions":{"target":"ES3"}}"#));
    assert!(!cjs(r#"{"compilerOptions":{"target":"ES2019"}}"#));
    assert!(!cjs(r#"{"compilerOptions":{"target":"ESNext"}}"#));
    // An explicit module wins either way.
    assert!(cjs(
        r#"{"compilerOptions":{"target":"ESNext","module":"CommonJS"}}"#
    ));
    assert!(!cjs(
        r#"{"compilerOptions":{"target":"ES5","module":"ES2020"}}"#
    ));
    assert!(!cjs(r#"{"compilerOptions":{"module":"Preserve"}}"#));
    // Per-file formats cannot be settled from the config alone.
    for module in ["node16", "node18", "NodeNext", "umd", "amd", "system"] {
        assert!(
            cjs(&format!(
                r#"{{"compilerOptions":{{"target":"ESNext","module":"{module}"}}}}"#
            )),
            "{module}"
        );
    }
}

#[test]
fn globs_match_the_forms_a_tsconfig_uses() {
    assert!(glob_matches("src/**/*", "src/a/b/c.ts"));
    assert!(glob_matches("./src/**/*.ts", "src/a.ts"));
    assert!(glob_matches("**/*.ts", "deep/nested/a.ts"));
    assert!(glob_matches("src/?.ts", "src/a.ts"));
    assert!(!glob_matches("src/?.ts", "src/ab.ts"));
    assert!(!glob_matches("src/*", "other/a.ts"));
    assert!(glob_matches("src/*.spec.ts", "src/a.spec.ts"));
    assert!(!glob_matches("src/*.spec.ts", "src/a.ts"));
}

#[test]
fn a_star_in_a_name_is_still_a_run() {
    assert!(segment_matches("*a", "*ba"));
    assert!(segment_matches("a*b*c", "axxbyyc"));
    assert!(!segment_matches("a*b", "axc"));
    let list = |names: &[&str]| names.iter().map(|n| n.to_string()).collect::<Vec<String>>();
    assert!(matches_segments(&list(&["**", "x"]), &list(&["a", "b", "x"])));
    assert!(matches_segments(&list(&["**"]), &list(&[])));
    assert!(!matches_segments(&list(&["x"]), &list(&[])));
}

#[test]
fn a_config_that_does_not_parse_names_its_file() {
    let err = TsConfig::load("pkg", Some("{")).unwrap_err();
    assert!(matches!(err, Error::Vendor(_)));
    assert!(
        err.to_string().contains("pkg/tsconfig.json"),
        "{}",
        err.to_string()
    );
    assert!(TsConfig::parse(r#"{"compilerOptions":{"outDir":3}}"#).is_err());
    assert!(TsConfig::parse(r#"{"files":"src/index.ts"}"#).is_err());
}

#[test]
fn a_relative_dir_starts_at_the_base() {
    assert_eq!(relative_dir("/work", "/work/a/b"), "./a/b");
    assert_eq!(relative_dir("/work", "/work"), ".");
    assert_eq!(relative_dir("/work", "/other/a"), "/other/a");
}

#[test]
fn the_output_directory_spelled_as_the_root_excludes_nothing() {
    let cfg = TsConfig::parse(r#"{"compilerOptions":{"outDir":"/"}}"#).unwrap();
    assert!(cfg.is_root_file("src/index.ts"));
    assert!(cfg.is_root_file("./src/index.ts"));
}

#[test]
fn the_paths_and_the_import_map_name_the_same_specifiers() {
    let mounts = vec![
        Mount::root("/app/web"),
        Mount::new("lib", "/app/lib/old"),
        Mount::new("@module/contacts", "/app/modules/contacts"),
        Mount::new("lib", "/app/lib/new").url("/v2/"),
    ];
    let paths = tsconfig_paths(&mounts, "/app");
    let keys: Vec<String> = paths
        .as_object()
        .unwrap()
        .iter()
        .map(|(key, _)| key.clone())
        .collect();
    let map = Importmap::from_mounts(&mounts);
    let starred: Vec<String> = map.iter().iter().map(|(key, _)| format!("{key}*")).collect();
    assert_eq!(keys, starred);
    // Both are those of the last mount under the name.
    assert_eq!(only(paths.get("lib/*").unwrap()), "./lib/new/*");
    assert!(map.iter().contains(&("lib/".to_string(), "/v2/".to_string())));
}

#[test]
fn a_list_states_the_fields_by_their_places() {
    assert_eq!(TsConfig::parse("[]").unwrap(), TsConfig::default());
    let config = TsConfig::parse(r#"[["out", "src"], ["a/**"], [], ["b"], null, 5, {}]"#).unwrap();
    assert_eq!(config.compiler_options.out_dir.as_deref(), Some("out"));
    assert_eq!(config.compiler_options.root_dir.as_deref(), Some("src"));
    assert_eq!(config.compiler_options.target, None);
    assert_eq!(config.included, ["a/**"]);
    assert!(config.files.is_empty());
    assert_eq!(config.exclude, ["b"]);
    assert_eq!(config.extends, None);
    assert_eq!(
        TsConfig::parse(r#"{ "compilerOptions": [] }"#).unwrap(),
        TsConfig::default()
    );
    assert!(TsConfig::parse(r#"[null]"#).is_err());
    assert!(TsConfig::parse(r#"[{}, "a"]"#).is_err());
    assert!(TsConfig::parse(r#"{ "compilerOptions": [1] }"#).is_err());
}

#[test]
fn a_field_that_is_stated_twice_is_an_error() {
    let said = |raw: &str| TsConfig::parse(raw).unwrap_err().to_string();
    assert!(said(r#"{ "files": ["a"], "files": ["b"] }"#).contains("duplicate field `files`"));
    assert!(said(r#"{ "compilerOptions": { "jsx": "a", /* again */ "jsx": "b" } }"#)
        .contains("duplicate field `jsx`"));
    // A field that is not read may be repeated, and so may what is kept as it is.
    assert!(TsConfig::parse(r#"{ "note": 1, "note": 2, "paths": 1, "paths": 2 }"#).is_ok());
    assert!(
        TsConfig::parse(r#"{ "compilerOptions": { "paths": { "a": [], "a": [] } } }"#).is_ok()
    );
    assert_eq!(
        find_repeated_field(&vec![
            ("files".to_string(), vec![]),
            ("compilerOptions".to_string(), vec!["x".to_string(), "x".to_string()]),
        ]),
        None
    );
}

#[test]
fn a_repeated_field_is_found_however_deep_the_rest_goes() {
    let deep = |fields: &str, levels: usize| {
        let mut raw = format!("{{ {fields} \"note\": ");
        for _ in 0..levels {
            raw.push_str("{ \"files\": ");
        }
        raw.push('1');
        for _ in 0..levels {
            raw.push('}');
        }
        raw.push('}');
        TsConfig::parse(&raw)
    };
    assert!(deep("\"files\": [],", 400).is_ok());
    assert!(deep("\"files\": [], \"files\": [],", 400)
        .unwrap_err()
        .to_string()
        .contains("duplicate field `files`"));
    // Deeper than the parser goes.
    assert!(deep("", 600).is_err());
}

#[test]
fn names_are_told_from_values_and_comments() {
    let said = |raw: &str| TsConfig::parse(raw).unwrap_err().to_string();
    // A name needs no quotes, and a comment may stand before its colon.
    assert!(said("{ files: [], files /* again */ : [] }").contains("duplicate field `files`"));
    assert!(said("{ compilerOptions: { outDir: 'a', 'outDir' // again\n : 'b' } }")
        .contains("duplicate field `outDir`"));
    // A value that reads like a name is none, nor is what stands in another member or in a list.
    assert!(TsConfig::parse(r#"{ "extends": "files", "files": ["files", "files"] }"#).is_ok());
    assert!(TsConfig::parse("{ compilerOptions: { outDir: 'a' }, 5: { outDir: 1, outDir: 2 } }").is_ok());
    assert!(TsConfig::parse("{ note: [{ files: 1 }, { files: 2 }], files: [] }").is_ok());
}

#[test]
fn an_input_directory_keeps_its_spelling() {
    let dir = |paths: &[&str]| {
        common_input_dir(&paths.iter().map(|p| p.to_string()).collect::<Vec<_>>())
    };
    assert_eq!(dir(&["a/./b/c.ts"]), "a/./b");
    assert_eq!(dir(&["a//b/c.ts", "a/b/d.ts"]), "a/b");
    assert_eq!(relative_dir("/work", "/work/a/./b"), "./a/./b");
}

#[test]
fn a_path_is_taken_apart_as_std_takes_it_apart() {
    let seen = |p: Option<&Path>| p.map(|p| p.to_str().unwrap().to_string());
    let paths = [
        "", "/", "//", ".", "..", "a", "/a", "//a", "a/", "a//b", "a/./b", "./a", "a/.", "a/..",
        "../a", "a/b/./", "/a//b/../c.ts", "a/b.c.d", "a/.b", "./.", "/./a", "a//.//b.ts//",
        "a/..b.x", "x/y/z",
    ];
    for text in paths {
        let p = Path::new(text);
        assert_eq!(path::parent(text), seen(p.parent()), "parent of {text:?}");
        assert_eq!(
            path::file_name(text),
            p.file_name().map(|n| n.to_str().unwrap().to_string()),
            "name of {text:?}"
        );
        assert_eq!(
            path::extension(text),
            p.extension().map(|n| n.to_str().unwrap().to_string()),
            "extension of {text:?}"
        );
        for ext in ["js", ""] {
            assert_eq!(
                path::with_extension(text, ext),
                p.with_extension(ext).to_str().unwrap(),
                "{text:?} with {ext:?}"
            );
        }
        assert_eq!(
            path::with_file_name(text, "n.x"),
            p.with_file_name("n.x").to_str().unwrap(),
            "{text:?} renamed"
        );
        for base in ["", "/", "a", "a/", ".", "/a", "a/b", "..", "a/./b"] {
            assert_eq!(
                path::strip_base(text, base),
                seen(p.strip_prefix(base).ok()),
                "{text:?} below {base:?}"
            );
            assert_eq!(path::join(base, text), Path::new(base).join(p).to_str().unwrap());
        }
    }
}
