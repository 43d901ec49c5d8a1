use web_modules::importmap::Importmap;
use web_modules::module_graph::{
    dynamic_lexical, imports_from_source, imports_from_text, is_bare, is_runtime_import,
    merge_imports, read_imports, static_lexical, DynamicImport, ModuleGraph, ModuleImport,
    ModuleNode, SpecifierKind,
};

fn specs(imports: &[ModuleImport]) -> Vec<&str> {
    imports.iter().map(|i| i.specifier.as_str()).collect()
}

#[test]
fn is_bare_classification() {
    assert!(is_bare("lit") && is_bare("@oxc-project/runtime/helpers/decorate"));
    assert!(!is_bare("./local.js") && !is_bare("/x.js") && !is_bare("https://h/y.js"));
    assert!(!is_bare("data:text/javascript,0"));
}

#[test]
fn source_imports_static_dynamic_and_runtime_kinds() {
    let js = "import { a } from \"lit\";\n\
              import _d from \"@oxc-project/runtime/helpers/decorate\";\n\
              import \"./local.js\";\n\
              const m = import(\"bootstrap\");";
    let imports = imports_from_source(js, false).unwrap();
    let found = specs(&imports);
    for want in [
        "lit",
        "@oxc-project/runtime/helpers/decorate",
        "./local.js",
        "bootstrap",
    ] {
        assert!(found.contains(&want), "missing {want:?} in {found:?}");
    }
    let kind = |s: &str| imports.iter().find(|i| i.specifier == s).unwrap().kind;
    assert_eq!(kind("lit"), SpecifierKind::Static);
    assert_eq!(
        kind("@oxc-project/runtime/helpers/decorate"),
        SpecifierKind::OxcRuntime
    );
    assert_eq!(kind("bootstrap"), SpecifierKind::Dynamic);
}

#[test]
fn finds_minified_space_less_forms() {
    // What the minifier emits: no space after `import`/`from`, plus a re-export.
    // The specifiers come from the AST, so spacing is irrelevant.
    let js = "import\"@oxc-project/runtime/helpers/decorate\";\
              import{a as b}from\"lit\";\
              export{x}from\"bootstrap\";\
              const m=import(\"lit-html\");";
    let imports = imports_from_source(js, false).unwrap();
    let found = specs(&imports);
    for want in [
        "@oxc-project/runtime/helpers/decorate",
        "lit",
        "bootstrap",
        "lit-html",
    ] {
        assert!(found.contains(&want), "missing {want:?} in {found:?}");
    }
}

#[test]
fn ignores_imports_in_comments_and_strings() {
    // A shim documenting the import it replaces, and a log line quoting one.
    let js = "// Satisfies `import nodeCrypto from \"crypto\"` in the browser.\n\
              const msg = 'import \"nope\" failed';\n\
              export default {};";
    let imports = imports_from_source(js, false).unwrap();
    let found = specs(&imports);
    assert!(
        !found.contains(&"crypto") && !found.contains(&"nope"),
        "comment/string text must not register as imports; got {found:?}"
    );
}

#[test]
fn finds_nested_and_minified_dynamic_import_from_ast() {
    // A dynamic import buried in a callback, minified (no spaces), plus a computed one.
    let js = "document.addEventListener(\"click\",()=>{import(\"./lazy.js\").then(m=>m.run())});\
              const load=(n)=>import(n);";
    let imports = imports_from_source(js, false).unwrap();
    let dynamic: Vec<&str> = imports
        .iter()
        .filter(|i| i.kind == SpecifierKind::Dynamic)
        .map(|i| i.specifier.as_str())
        .collect();
    // The computed `import(n)` names no static module, so only the literal is recorded.
    assert_eq!(dynamic, ["./lazy.js"], "got {dynamic:?}");
}

#[test]
fn graph_flags_unresolved_but_agrees_on_resolved() {
    let mut graph = ModuleGraph::new();
    graph.insert(
        "app.js",
        vec![
            ModuleImport::new("lit", false),
            ModuleImport::new("@oxc-project/runtime/helpers/decorate", false),
            ModuleImport::new("./local.js", false),
        ],
    );
    assert!(graph.uses_runtime_helpers());

    let mut map = Importmap::new();
    map.insert("lit", "/web_modules/lit/index.js");
    let unresolved = graph.unresolved(&map);
    // `lit` resolves, `./local.js` is not bare, the runtime import is unresolved.
    assert_eq!(unresolved.len(), 1, "got {unresolved:?}");
    assert_eq!(unresolved[0].0, "app.js");
    assert!(unresolved[0].1.starts_with("@oxc-project/runtime"));
}

#[test]
fn graph_without_helpers_needs_no_runtime() {
    let mut graph = ModuleGraph::new();
    graph.insert("app.js", vec![ModuleImport::new("lit", false)]);
    assert!(!graph.uses_runtime_helpers());
}

#[test]
fn insert_replaces_same_path_last_write_wins() {
    // A shadowed file's record must not linger: neither its unresolved import nor
    // its helper usage may outlive the overwrite that removed the file's content.
    let mut graph = ModuleGraph::new();
    graph.insert(
        "app.js",
        vec![
            ModuleImport::new("missing-package", false),
            ModuleImport::new("@oxc-project/runtime/helpers/decorate", false),
        ],
    );
    graph.insert("other.js", vec![ModuleImport::new("lit", false)]);
    // The same output path written again, e.g. the first root overwriting a
    // fallback root's file, or a copied `.js` overwriting a transformed sibling.
    graph.insert("app.js", vec![]);

    assert!(
        !graph.uses_runtime_helpers(),
        "the replaced record's helper must not trigger vendoring"
    );
    let unresolved = graph.unresolved(&Importmap::new());
    assert_eq!(
        unresolved,
        vec![("other.js".to_string(), "lit".to_string())],
        "only the shipped files' imports count; got {unresolved:?}"
    );
}

#[test]
fn unparsable_source_contributes_no_imports() {
    // A file that fails both parse goals (broken under the module AND the script
    // grammar) is copied unchanged but adds nothing to the graph.
    let js = "import { broken from \"lit\";";
    assert!(imports_from_source(js, false).unwrap().is_empty());
}

#[test]
fn classic_script_dynamic_import_is_captured() {
    // `await` is a reserved word in modules but a legal identifier in a classic
    // script, so the module goal fails at parse time, but dynamic `import()` is
    // legal in a classic script and resolves through the document's import map.
    let js = "var await = 1;\nimport(\"missing-package\");";
    let imports = imports_from_source(js, false).unwrap();
    assert_eq!(imports.len(), 1, "got {imports:?}");
    assert_eq!(imports[0].specifier, "missing-package");
    assert_eq!(imports[0].kind, SpecifierKind::Dynamic);
}

#[test]
fn module_only_source_fails_on_module_syntax_error() {
    // An `.mjs` is unambiguously a module: a parse failure is an error for the
    // caller to surface, not a silent empty import set. (`await` cannot be an
    // identifier in module code.)
    let err = imports_from_source("var await = 1;", true).unwrap_err();
    assert!(err.contains("does not parse as an ES module"), "got: {err}");
}

#[test]
fn no_substitution_template_dynamic_imports_are_captured() {
    // `import(`lit`)` names its module as statically as `import("lit")`: the
    // browser resolves both identically. A substituted template names none.
    let js = "const a = import(`lit`);\n\
              const b = import(`./local.js`);\n\
              const c = (name) => import(`pkg/${name}`);";
    let imports = imports_from_source(js, false).unwrap();
    let dynamic: Vec<&str> = imports
        .iter()
        .filter(|i| i.kind == SpecifierKind::Dynamic)
        .map(|i| i.specifier.as_str())
        .collect();
    assert_eq!(dynamic, ["lit", "./local.js"], "got {dynamic:?}");
}

#[test]
fn an_extended_graph_keeps_the_last_record_of_a_path() {
    let mut graph = ModuleGraph::new();
    graph.extend(vec![
        ModuleNode {
            path: "a.js".to_string(),
            imports: vec![ModuleImport::new("gone", false)],
        },
        ModuleNode {
            path: "a.js".to_string(),
            imports: vec![ModuleImport::new("kept", true)],
        },
        ModuleNode {
            path: "b/./c.js".to_string(),
            imports: vec![ModuleImport::new("other", false)],
        },
    ]);
    assert_eq!(
        graph.unresolved(&Importmap::new()),
        vec![
            ("a.js".to_string(), "kept".to_string()),
            ("b/./c.js".to_string(), "other".to_string()),
        ]
    );
}

#[test]
fn runtime_imports_are_the_package_and_what_lies_below() {
    assert!(is_runtime_import("@oxc-project/runtime"));
    assert!(is_runtime_import("@oxc-project/runtime/helpers/decorate"));
    assert!(!is_runtime_import("@oxc-project/runtime-extra"));
    // A dynamic import of a helper is still a runtime import only when it is static.
    assert_eq!(
        ModuleImport::new("@oxc-project/runtime/helpers/x", true).kind,
        SpecifierKind::Dynamic
    );
}

#[test]
fn merging_puts_static_imports_first_and_orders_the_rest_by_place() {
    let imports = merge_imports(
        &vec![Some("a".to_string()), None, Some("b".to_string())],
        vec![
            DynamicImport { start: 9, specifier: Some("late".to_string()) },
            DynamicImport { start: 3, specifier: Some("early".to_string()) },
            DynamicImport { start: 5, specifier: None },
        ],
    );
    assert_eq!(specs(&imports), vec!["a", "b", "early", "late"]);
    assert_eq!(imports[2].kind, SpecifierKind::Dynamic);
}

#[test]
fn a_reading_tells_whether_the_source_parsed() {
    assert!(read_imports("export const a = 1;", false).unwrap().parsed);
    let broken = read_imports("import { broken from \"lit\";", false).unwrap();
    assert!(!broken.parsed && broken.imports.is_empty());
    assert!(read_imports("import { broken from \"lit\";", true).is_err());
}

#[test]
fn the_lexical_scan_reads_the_quoted_forms() {
    let js = "import { a } from \"lit\";\nimport './side.js';\nconst m = import('lazy');";
    let mut statics = Vec::new();
    static_lexical(js, &mut statics);
    assert!(specs(&statics).contains(&"lit") && specs(&statics).contains(&"./side.js"));
    let mut dynamics = Vec::new();
    dynamic_lexical(js, &mut dynamics);
    assert_eq!(specs(&dynamics), vec!["lazy"]);
    let mut both = statics;
    both.extend(dynamics);
    assert_eq!(imports_from_text(js), both);
}

#[test]
fn an_unresolved_import_is_reported_under_the_path_as_recorded() {
    let mut graph = ModuleGraph::new();
    graph.insert("b//c.js", vec![ModuleImport::new("gone", false)]);
    graph.insert("a/./b.js", vec![ModuleImport::new("lit", false), ModuleImport::new("lit", true)]);
    // The same file under another spelling: its record is replaced, its name stays.
    graph.insert("b/c.js", vec![ModuleImport::new("pg", false)]);
    assert_eq!(
        graph.unresolved(&Importmap::new()),
        vec![
            ("a/./b.js".to_string(), "lit".to_string()),
            ("a/./b.js".to_string(), "lit".to_string()),
            ("b//c.js".to_string(), "pg".to_string()),
        ]
    );
    assert!(!graph.uses_runtime_helpers());
}
