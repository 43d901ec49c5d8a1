use web_modules::reject::{Presets, Reject};

#[test]
fn all_presets_reject_config_secrets_and_source() {
    let r = Reject::all();
    assert!(r.rejects("package.json"));
    assert!(r.rejects(".env"));
    assert!(r.rejects("web/.git/config"));
    assert!(r.rejects("api/secret.php"));
    assert!(r.rejects("app.ts"));
    // Legitimate web assets are kept.
    assert!(!r.rejects("app.js"));
    assert!(!r.rejects("styles.css"));
    assert!(!r.rejects("logo.svg"));
    assert!(!r.rejects("index.html"));
}

#[test]
fn well_known_is_allowed_even_under_hidden() {
    let r = Reject::all();
    assert!(!r.rejects(".well-known/security.txt"));
    assert!(!r.rejects(".well-known/acme-challenge/abc"));
    // but other dotdirs are still rejected
    assert!(r.rejects(".ssh/id_rsa"));
}

#[test]
fn matching_is_case_insensitive() {
    let r = Reject::all();
    assert!(r.rejects(".ENV"));
    assert!(r.rejects("web/.Git/config"));
    assert!(r.rejects("API/SECRET.PHP"));
    assert!(r.rejects("Package.JSON"));
    assert!(!r.rejects(".WELL-KNOWN/x"));
}

#[test]
fn presets_compose_with_all_and_negation() {
    let no_config = Reject::parse_presets("all,!config").unwrap();
    assert!(!no_config.rejects("package.json")); // config allowed
    assert!(no_config.rejects(".env")); // hidden still on
    assert!(no_config.rejects("x.php")); // source still on

    let only = Reject::parse_presets("source,hidden").unwrap();
    assert!(only.rejects("x.php") && only.rejects(".env"));
    assert!(!only.rejects("package.json"));

    let none = Reject::parse_presets("none").unwrap();
    assert!(none.is_empty());
    assert!(!none.rejects(".env") && !none.rejects("package.json"));

    assert!(Reject::parse_presets("all,!bogus").is_err());
}

#[test]
fn from_list_is_a_full_replace() {
    let r = Reject::from_list(&["*.php", ".git/", "package.json", ".env"]);
    assert!(r.rejects("x.php"));
    assert!(r.rejects("a/.git/b"));
    assert!(r.rejects("package.json"));
    assert!(r.rejects(".env"));
    // Not in the explicit list (presets are ignored): a `.ts` source and other dotfiles.
    assert!(!r.rejects("app.ts"));
    assert!(!r.rejects(".sops"));
}

#[test]
fn rejects_path_matches_resolved_components() {
    let r = Reject::all();
    assert!(r.rejects_path("/abs/web/.git/config"));
    assert!(r.rejects_path("/abs/web/secret.PHP"));
    assert!(!r.rejects_path("/abs/web/app.js"));
    assert!(!r.rejects_path("/abs/web/.well-known/security.txt"));
}

#[test]
fn presets_bitwise_ops_select_rules() {
    // Complement within ALL: everything except config.
    let all_but_config: Reject = (Presets::ALL & !Presets::CONFIG).into();
    assert!(all_but_config.rejects("x.php")); // source on
    assert!(all_but_config.rejects(".env")); // hidden on
    assert!(!all_but_config.rejects("package.json")); // config off

    // Union of two groups, the third left out.
    let cfg_or_src: Reject = (Presets::CONFIG | Presets::SOURCE).into();
    assert!(cfg_or_src.rejects("package.json") && cfg_or_src.rejects("app.ts"));
    assert!(!cfg_or_src.rejects(".env")); // hidden not selected

    // contains() reflects membership; NONE is ALL's complement of itself.
    let sel = Presets::ALL & !Presets::CONFIG;
    assert!(sel.contains(Presets::SOURCE) && sel.contains(Presets::HIDDEN));
    assert!(!sel.contains(Presets::CONFIG));
    assert!(Presets::ALL.contains(Presets::CONFIG));
    assert_eq!(Presets::NONE, Presets::ALL & !Presets::ALL);
}

#[test]
fn add_layers_extra_patterns_onto_a_selection() {
    // The builders' `reject(pattern)` is additive on top of `reject_preset`.
    let mut r: Reject = Presets::NONE.into();
    r.add(".htpasswd");
    r.add("*.bak");
    assert!(r.rejects(".htpasswd"));
    assert!(r.rejects("dir/notes.BAK")); // case-insensitive extension
    assert!(!r.rejects("index.html"));
}

#[test]
fn an_unknown_preset_is_named() {
    let message = Reject::parse_presets("all,!bogus").unwrap_err();
    assert!(message.contains("bogus"), "{}", message);
}

#[test]
fn the_empty_selection_rejects_nothing() {
    let r = Reject::none();
    assert!(r.is_empty());
    assert!(!r.rejects(".git/config"));
    assert!(!Reject::default().is_empty());
    assert_eq!(Reject::default(), Reject::all());
}

#[test]
fn a_pattern_that_no_component_matches_leaves_the_set_empty() {
    for pattern in ["/", "a/b", "//", "*.d.ts", "*.a/b", "  ", "a/b/"] {
        let mut rules = Reject::none();
        rules.add(pattern);
        assert!(rules.is_empty(), "{pattern}");
        assert!(Reject::from_list(&[pattern]).is_empty(), "{pattern}");
    }
    for (pattern, victim) in [
        ("a", "x/A"),
        ("a/", "a/b"),
        ("*.ts", "x.TS"),
        ("*.", "x/*."),
        (".", "x/./y"),
        ("..", "../x"),
    ] {
        let rules = Reject::from_list(&[pattern]);
        assert!(!rules.is_empty(), "{pattern}");
        assert!(rules.rejects(victim), "{pattern}");
    }
    // A backslash separates the pieces of a request, and is a letter of a path.
    let rules = Reject::from_list(&["a\\b"]);
    assert!(!rules.is_empty());
    assert!(rules.rejects_path("x/a\\b"));
    assert!(!rules.rejects("x/a\\b"));
}
