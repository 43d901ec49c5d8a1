use web_modules::build::bundle::{
    alias_list, bundled_modules, check_entries, check_orphans, check_resolved, entries_or_default,
    external_location, fold_options, importmap_resolve, input_item, is_raw_external, leaves_tree,
    matches_external, removals, sidecars, staged_importmap, ModuleId,
};
use web_modules::build::options::{Comments, Output, Processors};
use web_modules::importmap::Importmap;

fn list(items: &[&str]) -> Vec<String> {
    items.iter().map(|item| item.to_string()).collect()
}

fn pairs(items: &[(&str, &str)]) -> Vec<(String, String)> {
    items
        .iter()
        .map(|(a, b)| (a.to_string(), b.to_string()))
        .collect()
}

#[test]
fn an_external_entry_matches_exactly_or_by_prefix() {
    let external = list(&["lit", "/web_modules/"]);
    assert!(matches_external(&external, "lit"));
    assert!(!matches_external(&external, "lit/decorators.js"));
    assert!(matches_external(&external, "/web_modules"));
    assert!(matches_external(&external, "/web_modules/lit/index.js"));
    assert!(!matches_external(&external, "/web_modules2/x.js"));
    assert!(!matches_external(&list(&[]), "lit"));
}

#[test]
fn a_specifier_resolves_exactly_before_by_the_longest_prefix() {
    let map = pairs(&[
        ("a/", "/short/"),
        ("a/b/", "/long/"),
        ("a/b/exact.js", "/exact.js"),
    ]);
    assert_eq!(
        importmap_resolve(&map, "a/b/exact.js").as_deref(),
        Some("/exact.js")
    );
    assert_eq!(
        importmap_resolve(&map, "a/b/c.js").as_deref(),
        Some("/long/c.js")
    );
    assert_eq!(
        importmap_resolve(&map, "a/c.js").as_deref(),
        Some("/short/c.js")
    );
    assert_eq!(importmap_resolve(&map, "ab/c.js"), None);
    assert_eq!(importmap_resolve(&map, "a"), None);
}

#[test]
fn a_raw_specifier_is_external_by_itself_or_by_its_url() {
    let external = list(&["/web_modules/", "react"]);
    let map = pairs(&[("lit", "/web_modules/lit/index.js"), ("own", "/own.js")]);
    assert!(!is_raw_external(&external, &map, "./x.js", false));
    assert!(!is_raw_external(&external, &map, "../x.js", false));
    assert!(is_raw_external(&external, &map, "/web_modules/x.js", true));
    assert!(is_raw_external(&external, &map, "/gone.js", false));
    assert!(!is_raw_external(&external, &map, "/here.js", true));
    assert!(is_raw_external(&external, &map, "react", false));
    assert!(is_raw_external(&external, &map, "lit", false));
    assert!(!is_raw_external(&external, &map, "own", false));
    assert!(!is_raw_external(&external, &map, "unknown", false));
}

#[test]
fn an_external_entry_has_a_place_below_the_root() {
    assert_eq!(
        external_location("/dist", "/config.js"),
        ("/dist/config.js".to_string(), false)
    );
    assert_eq!(
        external_location("/dist", "/web_modules/"),
        ("/dist/web_modules".to_string(), true)
    );
}

#[test]
fn a_resolved_module_is_external_folded_or_refused() {
    let places = vec![
        ("/dist/config.js".to_string(), false),
        ("/dist/web_modules".to_string(), true),
    ];
    let ask = |p: &str, real: Option<&str>| check_resolved(&places, "root", "/dist", p, real);
    assert!(ask("/dist/config.js", Some("/dist/config.js")).unwrap());
    assert!(ask("/dist/web_modules/a/b.js", None).unwrap());
    assert!(!ask("/dist/app.js", Some("/dist/app.js")).unwrap());
    assert!(!ask("virtual:thing", None).unwrap());
    assert!(!ask("/dist/config.js/x", Some("/dist/config.js/x")).unwrap());
    assert_eq!(
        ask("/dist/../etc/x.js", Some("/etc/x.js"))
            .unwrap_err()
            .to_string(),
        "bundle: module /dist/../etc/x.js resolves outside the bundle root /dist"
    );
    // A sibling whose name starts the same is outside.
    assert!(ask("/dist2/app.js", Some("/dist2/app.js")).is_err());
}

#[test]
fn an_entry_keeps_its_path_as_its_name() {
    assert_eq!(
        input_item("/dist", "pages/home.js"),
        ("pages/home".to_string(), "/dist/pages/home.js".to_string())
    );
    assert_eq!(input_item("/dist", "pages\\home.js").0, "pages/home");
    assert_eq!(input_item("/dist", "worker.mjs").0, "worker.mjs");
}

#[test]
fn aliases_name_the_file_that_the_browser_would_fetch() {
    let external = list(&["react"]);
    let map = pairs(&[
        ("lit", "/web_modules/lit/index.js"),
        ("lit/", "/web_modules/lit/"),
        ("react", "/web_modules/react/index.js"),
        ("remote", "https://example.org/x.js"),
    ]);
    assert_eq!(
        alias_list(&external, "/dist", &map),
        pairs(&[
            ("lit", "/dist/web_modules/lit/index.js"),
            ("lit", "/dist/web_modules/lit/"),
        ])
    );
}

#[test]
fn folded_modules_are_existing_files_sorted_and_distinct() {
    let id = |id: &str, exists: bool| ModuleId {
        id: id.to_string(),
        exists,
    };
    let ids = vec![
        id("/d/b.js", true),
        id("/d/a.js", true),
        id("/d/b.js", true),
        id("virtual:x", true),
        id("/d/gone.js", false),
        id("/d/a/z.js", true),
    ];
    // In path order, the directory `a` comes before the file `a.js`.
    assert_eq!(
        bundled_modules(&ids),
        list(&["/d/a/z.js", "/d/a.js", "/d/b.js"])
    );
}

#[test]
fn the_entry_is_the_page_script_unless_others_are_named() {
    let mut p = Processors::default();
    assert_eq!(entries_or_default(&p), list(&["app.js"]));
    p.bundle_entries = list(&["main.js", "admin.js"]);
    assert_eq!(entries_or_default(&p), list(&["main.js", "admin.js"]));
}

#[test]
fn a_missing_entry_is_named() {
    let entries = list(&["app.js", "admin.js"]);
    assert!(check_entries(&entries, &vec![true, true]).is_ok());
    assert_eq!(
        check_entries(&entries, &vec![true, false])
            .unwrap_err()
            .to_string(),
        "web-modules: bundle entry admin.js does not exist in the output - name an \
         emitted module with --bundle-entry (without one, the entry is app.js)"
    );
}

#[test]
fn the_mount_is_replaced_by_where_packages_are_staged() {
    let mut map = Importmap::new();
    map.insert("lit", "/repo/web_modules/lit/index.js");
    map.insert("own", "/own.js");
    let staged = staged_importmap(&map, "/repo/web_modules");
    assert_eq!(
        staged.iter(),
        pairs(&[("lit", "/web_modules/lit/index.js"), ("own", "/own.js")])
    );
}

#[test]
fn folding_keeps_entries_and_what_lies_elsewhere() {
    let entries = list(&["/d/app.js"]);
    assert!(!leaves_tree(&entries, "/d", "/d/app.js"));
    assert!(leaves_tree(&entries, "/d", "/d/lib/x.js"));
    assert!(!leaves_tree(&entries, "/d", "/elsewhere/x.js"));
    assert_eq!(
        sidecars("/d/x.js"),
        (
            "/d/x.js.map".to_string(),
            "/d/x.js.LEGAL.txt".to_string()
        )
    );
    assert_eq!(
        removals(
            &entries,
            "/d",
            &list(&["/d/app.js", "/d/lib/x.js", "/elsewhere/x.js"])
        ),
        list(&[
            "/d/lib/x.js",
            "/d/lib/x.js.map",
            "/d/lib/x.js.LEGAL.txt"
        ])
    );
}

#[test]
fn a_tree_is_folded_in_place() {
    let mut map = Importmap::new();
    map.insert("lit", "/m/lit.js");
    let mut p = Processors::default();
    p.sourcemap = true;
    let mut o = Output::default();
    o.minify = true;
    let options = fold_options(&list(&["app.js"]), "/stage", &map, "/m", &p, &o);
    assert_eq!(options.entries, list(&["app.js"]));
    assert_eq!(options.root, "/stage");
    assert_eq!(options.out_dir, "/stage");
    assert_eq!(
        options.importmap.as_ref().unwrap().iter(),
        pairs(&[("lit", "/web_modules/lit.js")])
    );
    assert!(options.external.is_empty());
    assert_eq!(options.chunk_filenames, "chunks/[name]-[hash].js");
    assert!(options.minify);
    assert!(options.sourcemap);
    assert_eq!(options.comments, Comments::Strip);
}

#[test]
fn a_surviving_bare_import_is_reported() {
    let unresolved = pairs(&[
        ("app.js", "lit"),
        ("worker.js", "lit"),
        ("gone.js", "lit"),
    ]);
    let emitted = list(&["app.js"]);
    assert!(check_orphans(&unresolved, &emitted, &vec![true, false, false]).is_ok());
    assert_eq!(
        check_orphans(&unresolved, &emitted, &vec![true, true, false])
            .unwrap_err()
            .to_string(),
        "web-modules: --bundle removes the import map, but 1 surviving module(s) still \
         import bare specifiers - add each as a --bundle-entry so its imports inline too:\n  \
         worker.js: import \"lit\""
    );
}
