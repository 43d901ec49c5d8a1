use web_modules::build::options::{Features, Processors};
use web_modules::build::preflight::{
    copy_records, is_inside, preflight, ClaimRecord, PreflightReport, Root, Seen, WalkPolicy,
};
use web_modules::build::steps::{
    enabled_steps, is_source_name, template_stem, BuildStep, Claim, MdTmplStep, Preflight, Rank, ScssStep,
    StaticStep, TeraStep, TypeScriptStep,
};
use web_modules::reject::Reject;
use web_modules::symlinks::SymlinkMode;

/// A literal copy and a transform.
fn steps(reject: Reject) -> Vec<BuildStep> {
    vec![
        BuildStep::Static(StaticStep { reject }),
        BuildStep::TypeScript(TypeScriptStep),
    ]
}

fn file(path: &str) -> Seen {
    Seen::Entry {
        path: path.to_string(),
        is_file: true,
        link: None,
        canonical: Ok(path.to_string()),
    }
}

fn directory(path: &str) -> Seen {
    Seen::Entry {
        path: path.to_string(),
        is_file: false,
        link: None,
        canonical: Ok(path.to_string()),
    }
}

fn root(path: &str, seen: Vec<Seen>) -> Root {
    let mut all = vec![directory(path)];
    all.extend(seen);
    Root {
        path: path.to_string(),
        canonical: Ok(path.to_string()),
        seen: all,
    }
}

fn policy(reject: Reject) -> WalkPolicy {
    WalkPolicy {
        reject,
        symlinks: SymlinkMode::Follow,
    }
}

fn scan(roots: Vec<Root>) -> PreflightReport {
    preflight(&roots, &steps(Reject::none()), &policy(Reject::none()))
}

#[test]
fn preflight_detects_a_within_root_conflict_and_ranks_the_winner() {
    // `a.js` (copy) and `a.ts` (transform to a.js) claim one target; the literal copy
    // outranks the transform.
    let report = scan(vec![root(
        "/root",
        vec![file("/root/a.js"), file("/root/a.ts"), file("/root/b.md")],
    )]);
    let conflicts = report.conflicts();
    assert_eq!(conflicts.len(), 1, "one contested target");
    assert_eq!(conflicts[0].out_rel, "a.js");
    assert_eq!(conflicts[0].claimants.len(), 2);
    assert_eq!(
        conflicts[0].claimants[0].rel, "a.js",
        "the literal file wins"
    );

    let winners = report.winners();
    assert_eq!(winners.len(), 2, "one winner per target: a.js and b.md");
    assert!(winners.iter().any(|w| w.out_rel == "b.md"));
    assert_eq!(copy_records(&winners), winners);
}

#[test]
fn preflight_detects_a_cross_root_conflict_and_the_first_root_wins() {
    let report = scan(vec![
        root("/first", vec![file("/first/app.txt")]),
        root("/second", vec![file("/second/app.txt")]),
    ]);
    let conflicts = report.conflicts();
    assert_eq!(conflicts.len(), 1);
    assert_eq!(
        conflicts[0].claimants[0].root, 0,
        "the earlier root outranks the later one"
    );
    assert_eq!(report.winners().len(), 1);
}

#[test]
fn tiebreak_orders_same_rank_claims() {
    // Two same-rank claims on one target differ only by tiebreak: the probe
    // order dev uses for ts/tsx/mts.
    let report = scan(vec![root(
        "/root",
        vec![file("/root/x.tsx"), file("/root/x.ts")],
    )]);
    let conflicts = report.conflicts();
    assert_eq!(conflicts.len(), 1);
    assert_eq!(
        conflicts[0].claimants[0].rel, "x.ts",
        "the lower tiebreak wins"
    );
}

#[test]
fn escaping_claims_are_flagged_and_honest_ones_are_not() {
    // The real steps never derive a traversing or absolute target; a claim that does is
    // flagged, so the build can refuse it before any write.
    let honest = scan(vec![root("/root", vec![file("/root/fine.txt")])]);
    assert!(honest.escaping().is_empty());

    let mut report = honest;
    for out_rel in ["../evil.txt", "/etc/evil.txt"] {
        report.claims.push(ClaimRecord {
            root: 0,
            rel: "a.up".to_string(),
            step: 0,
            rank: Rank::Static,
            tiebreak: 0,
            out_rel: out_rel.to_string(),
        });
    }
    let escaping = report.escaping();
    assert_eq!(escaping.len(), 2, "got {escaping:?}");
    assert!(escaping
        .iter()
        .all(|claim| claim.out_rel.starts_with("..") || claim.out_rel.starts_with('/')));
    assert!(is_inside("a/b.js") && !is_inside("../b.js") && !is_inside("/b.js"));
}

#[test]
fn claims_target_gates_on_any_claim_and_walk_records_every_entry() {
    let report = scan(vec![root(
        "/root",
        vec![directory("/root/sub"), file("/root/sub/page.ts")],
    )]);
    assert!(
        report.claims_target("sub/page.js"),
        "the transform's target counts as claimed"
    );
    assert!(!report.claims_target("index.html"));
    // The walk records the root, the subdirectory and the file: directory mtimes
    // catch add/remove for rerun-if-changed.
    assert!(report.walked_paths().len() >= 3);
}

#[test]
fn preflight_drops_claims_with_rejected_targets() {
    // Rejection is by target, centrally: the transform's `.js` output dies even
    // though its `.ts` source matches no pattern, and it dies for every step.
    let report = preflight(
        &vec![root("/root", vec![file("/root/a.ts"), file("/root/b.md")])],
        &steps(Reject::none()),
        &policy(Reject::from_list(&["*.js"])),
    );
    assert!(
        !report.claims_target("a.js"),
        "the rejected target is not claimed"
    );
    assert!(report.claims_target("b.md"), "unrejected claims survive");
    assert_eq!(report.rejected_claims.len(), 1);
}

#[test]
fn preflight_flags_files_resolving_outside_the_root() {
    // `root/exposed` leads to `private`: reachable through the root lexically, but
    // canonically outside it, so it is recorded as escaping, never offered to a step.
    let report = scan(vec![root(
        "/work/root",
        vec![Seen::Entry {
            path: "/work/root/exposed/credentials.txt".to_string(),
            is_file: true,
            link: None,
            canonical: Ok("/work/private/credentials.txt".to_string()),
        }],
    )]);
    let escaping = report.escaping_sources();
    assert_eq!(escaping.len(), 1, "one file resolves outside the root");
    assert_eq!(escaping[0].rel, "exposed/credentials.txt");
    assert!(escaping[0].target.ends_with("private/credentials.txt"));
    assert!(
        !report.claims_target("exposed/credentials.txt"),
        "no step may claim an escaping file"
    );
}

#[test]
fn preflight_allows_symlinks_resolving_inside_the_root() {
    // In-root links are legitimate tree layout: the linked file and the file
    // inside the linked dir both claim normally.
    let linked = |path: &str| Seen::Entry {
        path: path.to_string(),
        is_file: true,
        link: None,
        canonical: Ok("/root/real/a.txt".to_string()),
    };
    let report = scan(vec![root(
        "/root",
        vec![
            linked("/root/alias.txt"),
            linked("/root/linked/a.txt"),
            file("/root/real/a.txt"),
        ],
    )]);
    assert!(report.escaping_sources().is_empty(), "nothing escapes");
    assert!(report.walk_errors().is_empty(), "no walk problems");
    assert!(report.claims_target("alias.txt"), "linked file claims");
    assert!(
        report.claims_target("linked/a.txt"),
        "file in a linked dir claims"
    );
}

#[test]
fn preflight_surfaces_a_dangling_link_as_a_walk_error() {
    let report = scan(vec![root(
        "/root",
        vec![Seen::Trouble {
            message: "/root/dangling: no such file".to_string(),
        }],
    )]);
    assert_eq!(
        report.walk_errors().len(),
        1,
        "got {:?}",
        report.walk_errors()
    );
    assert!(report.escaping_sources().is_empty());
    assert!(report.conflicts().is_empty(), "the tree still preflights");
}

fn claimed(rel: &str) -> Option<String> {
    MdTmplStep.claim(rel).map(|c| c.out_rel)
}

#[test]
fn claims_tmpl_md_to_md_target() {
    assert_eq!(claimed("guide.tmpl.md"), Some("guide.md".to_string()));
    assert_eq!(
        claimed("docs/setup.tmpl.md"),
        Some("docs/setup.md".to_string())
    );
    // Case variants are the same source (case-insensitive FS safety).
    assert_eq!(claimed("Guide.TMPL.MD"), Some("Guide.md".to_string()));
}

#[test]
fn skips_partials_plain_md_and_bare_suffix() {
    assert_eq!(claimed("_header.tmpl.md"), None, "partials are only pulled in");
    assert_eq!(claimed("notes.md"), None, "plain markdown is static");
    assert_eq!(claimed("page.tera"), None, "another engine's source");
    assert_eq!(claimed(".tmpl.md"), None, "no stem, no target");
}

#[test]
fn each_step_claims_its_own_sources() {
    let target = |claim: Option<Claim>| claim.map(|c| (c.out_rel, c.tiebreak));
    assert_eq!(
        target(TeraStep.claim("a/index.html.tera")),
        Some(("a/index.html".to_string(), 0))
    );
    assert_eq!(target(TeraStep.claim("_base.html.tera")), None);
    for (rel, tiebreak) in [("app.ts", 0), ("app.tsx", 1), ("app.mts", 2)] {
        let claim = TypeScriptStep.claim(rel).unwrap();
        assert_eq!(claim.tiebreak, tiebreak, "{rel}");
        assert_eq!(claim.out_rel, "app.js", "{rel}");
    }
    assert_eq!(target(TypeScriptStep.claim("types.d.ts")), None);
    assert_eq!(
        target(ScssStep.claim("theme.scss")),
        Some(("theme.css".to_string(), 0))
    );
    assert_eq!(target(ScssStep.claim("_vars.scss")), None);
    let copy = StaticStep {
        reject: Reject::all(),
    };
    assert_eq!(
        target(copy.claim("img/logo.svg")),
        Some(("img/logo.svg".to_string(), 0))
    );
    assert_eq!(target(copy.claim("app.ts")), None);
    assert_eq!(target(copy.claim(".env")), None);
    assert!(is_source_name("page.tmpl.md") && !is_source_name("page.md"));
    assert_eq!(template_stem("guide.tmpl.md").as_deref(), Some("guide"));
}

#[test]
fn the_ranks_are_places_in_line() {
    assert_eq!(Rank::Tera.place(), 0);
    assert_eq!(Rank::MdTmpl.place(), 1);
    assert_eq!(Rank::Static.place(), 2);
    assert_eq!(Rank::Transform.place(), 3);
}

#[test]
fn the_enabled_steps_follow_the_toggles_and_the_toolchain() {
    let all = Features {
        typescript: true,
        scss: true,
        tera: true,
        md_tmpl: true,
        compress: true,
        bundle: true,
    };
    let names = |processors: &Processors, features: &Features| -> Vec<&'static str> {
        enabled_steps(processors, features)
            .iter()
            .map(|s| s.name())
            .collect()
    };
    let mut processors = Processors::default();
    let full = names(&processors, &all);
    assert!(full.contains(&"TypeScript transform") && full.contains(&"static copy"));
    processors.typescript = false;
    assert!(!names(&processors, &all).contains(&"TypeScript transform"));
    let without = Features { tera: false, ..all };
    assert!(!names(&Processors::default(), &without).contains(&"Tera template"));
}
