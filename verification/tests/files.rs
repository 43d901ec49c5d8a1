use std::io::Read;

use web_modules::build::compress::{append_gz, gzip_dir, gzip_file};
use web_modules::build::optimize::{
    append_source_map_comment, is_rewritten, replace_file, Attempt, Replacement,
};
use web_modules::build::templates::{render_str, Context};
use web_modules::env::flag;
use web_modules::npm_link::{is_reference, parse, Answer, Mounting, Serving};
use web_modules::reject::Reject;
use web_modules::static_files::{
    copy_static, copy_static_capturing, is_emitted_js, is_skipped, is_source_ext, Copied,
    SourceFile,
};
use web_modules::symlinks::{SymlinkMode, SymlinkModeArg};
use web_modules::walk::{contains, files_within, Kind, Visited};

fn at(path: &str, kind: Kind) -> Visited {
    Visited {
        path: path.to_string(),
        kind,
    }
}

fn source(rel: &str, contents: Option<&str>) -> SourceFile {
    SourceFile {
        rel: rel.to_string(),
        contents: contents.map(str::to_string),
    }
}

// --- static copy -----------------------------------------------------------

#[test]
fn copies_static_skips_sources_and_partials() {
    let files = vec![
        source("_partial.scss", None),
        source("app.ts", None),
        source("logo.svg", None),
        source("sub/data.json", None),
    ];
    assert_eq!(copy_static(&files, &Reject::none()).unwrap(), 2);
    let copied = copy_static_capturing(&files, &Reject::none()).unwrap();
    assert_eq!(copied.files, ["logo.svg", "sub/data.json"]);
}

#[test]
fn copies_static_skips_case_variant_source_extensions() {
    // A source authored with an upper-cased extension is still a source.
    let files = vec![
        source("App.SCSS", None),
        source("Logo.SVG", None),
        source("Main.TS", None),
    ];
    let copied = copy_static_capturing(&files, &Reject::none()).unwrap();
    assert_eq!(
        copied.files,
        ["Logo.SVG"],
        "only the non-source file is copied"
    );
}

#[test]
fn copies_non_utf8_js_byte_for_byte_with_empty_record() {
    // A `.js` that isn't UTF-8 can't be a well-formed ES module: it still copies unchanged
    // and still records a graph node with no imports.
    let copied = copy_static_capturing(&vec![source("blob.js", None)], &Reject::none()).unwrap();
    assert_eq!(copied.files.len(), 1);
    assert_eq!(copied.nodes.len(), 1, "the write is recorded");
    assert!(
        copied.nodes[0].imports.is_empty(),
        "non-UTF-8 bytes contribute no imports; got {:?}",
        copied.nodes[0].imports
    );
    assert_eq!(copied.warnings.len(), 1);
}

#[test]
fn broken_mjs_fails_the_copy_with_the_path() {
    // An `.mjs` is unambiguously a module; if it does not parse, the browser will
    // fail on it, so the build fails first, naming the file.
    let err = copy_static_capturing(
        &vec![source("worker.mjs", Some("var await = 1;"))],
        &Reject::none(),
    )
    .unwrap_err();
    let msg = err.to_string();
    assert!(
        msg.contains("worker.mjs") && msg.contains("does not parse as an ES module"),
        "got: {msg}"
    );
}

#[test]
fn copies_unparsable_js_with_empty_imports() {
    // Broken syntax still copies unchanged; the graph records the file with no
    // imports instead of a partial set from a recovered AST.
    let copied = copy_static_capturing(
        &vec![source("broken.js", Some("import { broken from \"lit\";"))],
        &Reject::none(),
    )
    .unwrap();
    assert_eq!(copied.files, ["broken.js"]);
    assert_eq!(copied.nodes.len(), 1);
    assert!(
        copied.nodes[0].imports.is_empty(),
        "no partial imports from a recovered AST; got {:?}",
        copied.nodes[0].imports
    );
}

#[test]
fn copy_static_drops_rejected_paths() {
    let files = vec![
        source(".env", None),
        source(".git/config", None),
        source("index.html", None),
        source("package.json", None),
    ];
    // The default (all-presets) reject list drops the manifest, the dotfile, and the .git dir.
    let copied = copy_static_capturing(&files, &Reject::all()).unwrap();
    assert_eq!(copied.files, ["index.html"], "only index.html survives");
    assert_eq!(copy_static(&files, &Reject::all()).unwrap(), 1);
}

#[test]
fn one_file_is_offered_at_a_time() {
    let mut copied = Copied::new();
    let reject = Reject::none();
    assert!(copied
        .offer(&reject, "app.js", Some("import \"lit\";"))
        .unwrap());
    assert!(!copied.offer(&reject, "app.ts", None).unwrap());
    assert_eq!(copied.nodes[0].imports[0].specifier, "lit");
    assert!(is_source_ext("tsx") && !is_source_ext("js"));
    assert!(is_emitted_js("mjs") && !is_emitted_js("css"));
    assert!(is_skipped("a/_b.scss") && !is_skipped("a/b.svg"));
}

// --- walking ---------------------------------------------------------------

#[test]
fn files_within_yields_relative_paths_in_order() {
    let visited = vec![
        at("/t", Kind::Directory),
        at("/t/top.ts", Kind::File),
        at("/t/a", Kind::Directory),
        at("/t/a/b", Kind::Directory),
        at("/t/a/b/deep.ts", Kind::File),
    ];
    assert_eq!(files_within("/t", &visited), ["a/b/deep.ts", "top.ts"]);
}

#[test]
fn a_link_out_of_the_tree_is_not_walked() {
    let visited = vec![
        at("/t", Kind::Directory),
        at("/t/escape", Kind::Link),
        at("/t/own.ts", Kind::File),
        at("/t/secret.ts", Kind::Link),
    ];
    assert_eq!(
        files_within("/t", &visited),
        ["own.ts"],
        "neither the linked directory nor the linked file is reported"
    );
}

#[test]
fn a_link_to_an_ancestor_terminates() {
    let visited = vec![
        at("/t", Kind::Directory),
        at("/t/sub", Kind::Directory),
        at("/t/sub/loop", Kind::Link),
        at("/t/sub/one.ts", Kind::File),
    ];
    assert_eq!(files_within("/t", &visited), ["sub/one.ts"]);
}

#[test]
fn containment_compares_what_a_path_reaches() {
    assert!(contains(Some("/t"), Some("/t/own")));
    assert!(
        !contains(Some("/t"), Some("/outside/f")),
        "the link reads as inside but reaches outside"
    );
    assert!(!contains(Some("/t"), Some("/etc")));
    assert!(
        !contains(Some("/t"), None),
        "an unresolvable path is not contained"
    );
    assert!(!contains(None, Some("/t/own")));
}

// --- environment flags -----------------------------------------------------

#[test]
fn unset_and_empty_mean_default() {
    assert!(flag("WEB_MODULES_TEST_FLAG_UNSET", None, true).unwrap());
    assert!(!flag("WEB_MODULES_TEST_FLAG_UNSET", None, false).unwrap());
    assert!(flag("WEB_MODULES_TEST_FLAG_EMPTY", Some(""), true).unwrap());
    assert!(!flag("WEB_MODULES_TEST_FLAG_EMPTY", Some(""), false).unwrap());
}

#[test]
fn explicit_values_override_the_default() {
    assert!(flag("WEB_MODULES_TEST_FLAG_ON", Some("1"), false).unwrap());
    assert!(!flag("WEB_MODULES_TEST_FLAG_OFF", Some("0"), true).unwrap());
}

#[test]
#[should_panic(expected = "WEB_MODULES_TEST_FLAG_JUNK")]
fn junk_panics_naming_the_variable() {
    flag("WEB_MODULES_TEST_FLAG_JUNK", Some("yes"), true).unwrap();
}

// --- symlinks --------------------------------------------------------------

#[test]
fn the_default_is_the_safe_mode() {
    assert_eq!(SymlinkMode::default(), SymlinkMode::Follow);
}

#[test]
fn cli_values_are_kebab_case() {
    let names: Vec<&str> = SymlinkModeArg::value_variants()
        .iter()
        .map(|v| v.name())
        .collect();
    assert_eq!(names, ["follow", "follow-unsafe", "redirect", "move"]);
    assert_eq!(
        SymlinkMode::from(SymlinkModeArg::default()),
        SymlinkMode::default()
    );
    assert!(SymlinkMode::Follow.follows());
}

// --- npm:// links ----------------------------------------------------------

#[test]
fn parses_file_and_directory_references() {
    let file = parse("npm://bootstrap-icons/icons/eye.svg").unwrap();
    assert_eq!(file.package, "bootstrap-icons");
    assert_eq!(file.subpath, "icons/eye.svg");
    assert!(!file.directory);

    let dir = parse("npm://bootstrap-icons/icons/").unwrap();
    assert_eq!(dir.package, "bootstrap-icons");
    assert_eq!(dir.subpath, "icons");
    assert!(dir.directory);

    let scoped = parse("npm://@scope/pkg/a/b.svg").unwrap();
    assert_eq!(scoped.package, "@scope/pkg");
    assert_eq!(scoped.subpath, "a/b.svg");

    assert!(parse("./icons/eye.svg").is_none());
    assert!(parse("npm://").is_none());
    assert!(is_reference("npm://x") && !is_reference("./x"));
}

#[test]
fn directory_mount_skips_an_escaping_symlink() {
    let reference = parse("npm://pkg/icons/").unwrap();
    let mut step = Mounting::first(&reference);
    loop {
        let answer = match &step {
            Mounting::FindPackage { .. } | Mounting::ResolvePackage { .. } => {
                Answer::Found(Ok("/t/node_modules/pkg".to_string()))
            }
            Mounting::ResolveMount { .. } => {
                Answer::Found(Ok("/t/node_modules/pkg/icons".to_string()))
            }
            Mounting::CheckMount { .. } => Answer::Holds(true),
            Mounting::Walk { base, .. } => Answer::Walked(vec![
                Ok(at(base, Kind::Directory)),
                Ok(at(&format!("{base}/leak.svg"), Kind::Link)),
                Ok(at(&format!("{base}/real.svg"), Kind::File)),
            ]),
            Mounting::Done { files } => {
                // The escaping symlink is skipped; only the real in-package file ships.
                let names: Vec<&str> = files.iter().map(|(rel, _)| rel.as_str()).collect();
                assert_eq!(names, vec!["real.svg"]);
                return;
            }
            other => panic!("unexpected {other:?}"),
        };
        step = step.next(&reference, answer);
    }
}

#[test]
fn a_mount_that_leaves_its_package_is_refused() {
    let reference = parse("npm://pkg/icons/").unwrap();
    let mut step = Mounting::first(&reference);
    for _ in 0..3 {
        let answer = match &step {
            Mounting::ResolveMount { .. } => Answer::Found(Ok("/etc".to_string())),
            _ => Answer::Found(Ok("/t/node_modules/pkg".to_string())),
        };
        step = step.next(&reference, answer);
    }
    assert!(matches!(step, Mounting::Failed { .. }), "{step:?}");
}

/// Serve a request from a tree with one link, at `icons/bi/eye.svg`.
fn serve(relative: &str) -> Option<String> {
    let file = "/t/node_modules/bootstrap-icons/icons/eye.svg".to_string();
    let mut step = Serving::first("/t/web", relative);
    loop {
        let answer = match &step {
            Serving::Probe { prefix, .. } => Answer::Target(
                prefix
                    .ends_with("icons/bi/eye.svg")
                    .then_some("npm://bootstrap-icons/icons/eye.svg".to_string()),
            ),
            Serving::ResolveFrom { dir, .. } => Answer::Found(Ok(dir.clone())),
            Serving::FindPackage { .. } | Serving::ResolvePackage { .. } => {
                Answer::Found(Ok("/t/node_modules/bootstrap-icons".to_string()))
            }
            Serving::FindFile { .. } | Serving::ResolveFile { .. } => {
                Answer::Found(Ok(file.clone()))
            }
            Serving::CheckFile { .. } => Answer::Holds(true),
            Serving::Served { found } => return found.clone(),
        };
        step = step.next("/t/web", relative, answer);
    }
}

#[test]
fn resolves_and_serves_a_file_reference() {
    // Build side: the real file, with an empty per-file subpath.
    let reference = parse("npm://bootstrap-icons/icons/eye.svg").unwrap();
    let file = "/t/node_modules/bootstrap-icons/icons/eye.svg";
    let found = Mounting::first(&reference).next(&reference, Answer::Found(Ok(file.to_string())));
    let Mounting::Done { files } = found else {
        panic!("expected the file, got {found:?}");
    };
    assert_eq!(files, vec![(String::new(), file.to_string())]);

    // Dev side: a request reaching the link serves the same file.
    assert_eq!(serve("icons/bi/eye.svg").as_deref(), Some(file));
    // A path with no npm:// link on it is not this resolver's concern.
    assert_eq!(serve("icons/bi"), None);
}

// --- compression -----------------------------------------------------------

#[test]
fn gzip_file_writes_a_decodable_sidecar() {
    let sidecar = gzip_file("app.js", b"export const x = 1;\n").unwrap();
    assert_eq!(sidecar.path, "app.js.gz");
    assert_eq!(append_gz("app.js"), "app.js.gz");
    let mut decoder = flate2::read::GzDecoder::new(&sidecar.contents[..]);
    let mut out = String::new();
    decoder.read_to_string(&mut out).unwrap();
    assert_eq!(out, "export const x = 1;\n");
}

#[test]
fn gzip_dir_filters_by_extension() {
    let visited = vec![at("/t/a.js", Kind::File), at("/t/b.png", Kind::File)];
    assert_eq!(
        gzip_dir(&visited, &vec!["js".to_string()]),
        ["/t/a.js".to_string()]
    );
}

#[test]
fn gzip_dir_skips_symlinked_files() {
    let visited = vec![at("/t/a.js", Kind::File), at("/t/link.js", Kind::Link)];
    assert_eq!(
        gzip_dir(&visited, &vec!["js".to_string()]),
        ["/t/a.js".to_string()],
        "the link contributes no sidecar"
    );
}

// --- rewriting vendored files ----------------------------------------------

#[test]
fn rewrites_js_and_leaves_other_files() {
    assert!(is_rewritten("pkg/index.js", Kind::File));
    assert!(is_rewritten("pkg/index.mjs", Kind::File));
    assert!(!is_rewritten("pkg/style.css", Kind::File));
    assert!(!is_rewritten("pkg/link.js", Kind::Link));
}

#[test]
fn junk_js_is_left_as_shipped() {
    let left = replace_file(
        "/t/weird.js",
        "weird.js",
        Attempt::Failed {
            message: "unexpected token".to_string(),
        },
    );
    let Replacement::LeftAsShipped { warning } = left else {
        panic!("unparseable third-party bytes ship as they came");
    };
    assert!(warning.contains("weird.js"), "{warning}");
    assert!(matches!(
        replace_file("/t/blob.js", "blob.js", Attempt::NotText),
        Replacement::LeftAsShipped { .. }
    ));
}

#[test]
fn stale_sidecars_are_unlinked_and_a_fresh_map_written() {
    let Replacement::Replaced(new) = replace_file(
        "/t/lib.js",
        "lib.js",
        Attempt::Rewritten {
            code: "export const x=1;".to_string(),
            map: Some("{}".to_string()),
        },
    ) else {
        panic!("expected a replacement");
    };
    assert_eq!(new.stale_gzip, "/t/lib.js.gz");
    assert_eq!(new.stale_map, "/t/lib.js.map");
    assert_eq!(new.map.as_deref(), Some("{}"));
    assert!(new.code.ends_with("//# sourceMappingURL=lib.js.map\n"));
    assert_ne!(
        new.temporary, new.path,
        "nothing is written through the existing entry"
    );
    assert_eq!(
        append_source_map_comment("x;\n", "x.js.map"),
        "x;\n//# sourceMappingURL=x.js.map\n"
    );
}

// --- templates -------------------------------------------------------------

#[test]
fn renders_and_passes_html_through_unescaped() {
    let mut ctx = Context::new();
    ctx.insert("title", "BMF");
    ctx.insert("importmap", "<script type=\"importmap\">{}</script>");
    let html = render_str(
        "<title>{{ title }}</title>{{ importmap | safe }}",
        &ctx,
    )
    .unwrap();
    assert!(html.contains("<title>BMF</title>"));
    assert!(html.contains("<script type=\"importmap\">"));
}

#[test]
fn a_template_that_does_not_parse_is_an_error() {
    assert!(render_str("{{ unclosed", &Context::new()).is_err());
    assert_eq!(render_str("plain", &Context::new()).unwrap(), "plain");
}

#[test]
fn a_page_carries_its_element_verbatim() {
    let mut ctx = Context::new();
    ctx.insert("importmap", "<script>\"{{ & }}\"</script>");
    for tag in ["{{ importmap }}", "{{ importmap | safe }}"] {
        assert_eq!(
            render_str(&format!("<p>\n}}}} %}}\n{tag}}}\n\n"), &ctx).unwrap(),
            "<p>\n}} %}\n<script>\"{{ & }}\"</script>}\n\n"
        );
    }
    assert_eq!(render_str("", &ctx).unwrap(), "");
    // Without the variable there is nothing to put there.
    assert!(render_str("{{ importmap }}", &Context::new()).is_err());
}

#[test]
fn a_template_that_cannot_be_rendered_safely_is_a_template_error() {
    let mut ctx = Context::new();
    ctx.insert("importmap", "e\u{301}");
    for template in [
        // Without end.
        "{% include \"__tera_one_off\" %}",
        "{% include ['other', '__tera_one_off'] %}",
        "{% import \"__tera_one_off\" as m %}",
        "{% block a %}{% if true %}{% block a %}{% endblock %}{% endif %}{% endblock %}",
        "{%-block a-%}{% if 1 %}{% block\ta %}{% endblock %}{% endif %}{% endblock %}",
        "{% macro m() %}{{ self::m() }}{% endmacro %}{{ self::m() }}",
        "{% macro a() %}{{ self :: b() }}{% endmacro %}{% macro b() %}{{ self::a() }}{% endmacro %}{{ self::a() }}",
        "{% for i in range(end=1, step_by=0) %}{% endfor %}",
        "{% for i in range(end=1, step_by=1 - 1) %}{% endfor %}",
        "{% set s = 0 %}{% for i in range(end=1, step_by = s) %}{% endfor %}",
        "{{ 1 inrange (end=1, step_by=0)~'a' }}",
        // What is taken for a text, an argument or a block, and is none.
        "{% if importmap ~ \"b\" | length %}x{% endif %}",
        "{%if not importmap~1%}{%endif%}",
        "{% if false %}{% elif not importmap ~ 'x' %}{% endif %}",
        "{{ 1 and importmap ~ 'b' | length }}",
        "{{ falseor importmap ~ 'b' | length }}",
        "{{ 0or importmap ~ 'b' | length }}",
        "{% set a = [1] %}{% if a is containing %}{% endif %}",
        "{% set a = [1] %}{% if a is notcontaining %}{% endif %}",
        "{% set a = [1] %}{% if a is containing([1]) %}{% endif %}",
        "{% set a = 'b' %}{% if a is starting_with('b', [1]) %}{% endif %}",
        "{% if true %}{% block a %}{{ super() }}{% endblock %}{% endif %}",
        "{% macro m() %}1{% endmacro %}{{ self::m() + 1 }}",
        "{% macro m() %}1{% endmacro %}{{ (self::m()) * 2 }}",
        "{% macro m() %}1{% endmacro %}{% if self::m() > 0 %}{% endif %}",
        "{% macro m() %}{% for y in [1] %}{{ gone }}{% endfor %}{% endmacro %}{% for x in [1, 2] %}{% if importmap | replace(from=self::m(), to='') %}{% endif %}{{ y }}{% endfor %}",
        "{% macro m() %}1{% endmacro %}{{ true and importmap | replace(from=self::m(), to='') }}",
        // Arguments out of range.
        "{{ get_random(start=2, end=1) }}",
        "{{ get_random(end=0) }}",
        "{{ get_random(end=importmap) }}",
        "{{ \"7\" | int(base=99) }}",
        "{{ \"7\" | int(default=1, base = 1) }}",
        "{% filter int(base=0) %}7{% endfilter %}",
        "{{ 99999999999999 | date }}",
        "{{ 99999999999999|date(format=\"%Y\") }}",
        "{% set far = 9999999999999 %}{{ far | date }}",
        "{{ 1000000 * 10000000 | date }}",
        "{{ 0 | date(format=\"%H %z\") }}",
        "{{ 0 | date(format=importmap) }}",
        "{{ '9999999999999' | int | date }}",
        "{{ '2017-03-05' | date(format='%#z') }}",
        "{% filter date(format='%Y%#z') %}2017-03-05{% endfilter %}",
        "{{ 0 | date(timezone='UTC', format='%#z') }}",
        "{{ 0 | date(format='%#z', timezone='UTC') }}",
        "{{ '2017-03-05' | date(format='%#' ~ 'z') }}",
        // Numbers out of range.
        "{% set x = \"1e308\" | float %}{{ x + x }}",
        "{% set_global x = 1.5 %}{% for i in range(end=2000) %}{% set_global x = x + x %}{% endfor %}",
        "{% set x = 5 | round(method='ceil', precision=-308) %}{{ x + x }}",
        "{{ 1.5 * 9 * 9 * 9 * 9 + 1 }}",
        "{{ -9223372036854775808 % -1 }}",
        "{{ importmap | int % importmap | int }}",
        "{{ -9223372036854775808 | abs }}",
        &format!("{{{{ {}.0 }}}}", "9".repeat(400)),
        // Texts that are counted in one way and cut in another.
        "{% for c in importmap %}{{ c }}{% endfor %}",
        "{% set x = 'a\u{308}' %}{% for c in x %}{{ c }}{% endfor %}",
        "{% set x = importmap %}{% for c in x %}{{ c }}{% endfor %}",
        "{% set x = [1] %}{% set x = importmap %}{% for c in x %}{{ c }}{% endfor %}",
        "{% for x in [importmap] %}{% for c in x %}{{ c }}{% endfor %}{% endfor %}",
        "{% for c in importmap | upper %}{{ c }}{% endfor %}",
        "{% for c in __tera_context %}{{ c }}{% endfor %}",
        "{{ importmap[\"x[[]\"] }}",
        "{{ importmap[\"a\u{e9}\"] }}",
        "{{ importmap[importmap] }}",
        "{{ [1] | sort(attribute=\"[.\") }}",
        "{{ [1] | unique(attribute=\"a\u{e9}.b\") }}",
        "{{ [1] | map(attribute = importmap) }}",
    ] {
        assert_eq!(
            render_str(template, &ctx).unwrap_err().to_string(),
            "template: the template asks for what cannot be rendered safely",
            "{template}"
        );
    }
}

#[test]
fn what_only_looks_unsafe_is_rendered() {
    let mut ctx = Context::new();
    ctx.insert("importmap", "map");
    ctx.insert("day", "2017-03-05");
    ctx.insert("odd", "e\u{301} b");
    for (template, page) in [
        // A loop over what has single characters, whatever stands around it.
        ("<p>\r\n{% for c in importmap %}[{{ c }}]{% endfor %}\u{e9}", "<p>\r\n[m][a][p]\u{e9}"),
        ("{% for n in [1, 2] %}{{ n }};{% endfor %}", "1;2;"),
        ("{% for w in odd | split(pat=' ') %}{{ w }};{% endfor %}", "e\u{301};b;"),
        ("{% set xs = ['e\u{301}', 2] %}{% for x in xs %}{{ x }};{% endfor %}", "e\u{301};2;"),
        ("{% for i in range(end=3) %}{{ i }}{% endfor %}", "012"),
        ("{% for i in range(start=1, end=6, step_by=2) %}{{ i }}{% endfor %}", "135"),
        // Sums, products, remainders and absolute values.
        ("{{1.0-1}}", "0"),
        ("{{ 1.5 + 1 }}", "2.5"),
        ("{{ 9 / 3 + 1 }}{{ 7 * 2 - 3 }}", "411"),
        ("{{ 7 % 4 - 2 }}", "1"),
        ("{{ 2 - 5 | abs }}", "3"),
        // Filters beside texts put together.
        ("{{ importmap ~ 'b' | upper }}", "MAPB"),
        ("{% if importmap ~ 'b' %}x{% endif %}{{ importmap | upper }}", "xMAP"),
        // Dates.
        ("{{ 0 | date }}", "1970-01-01"),
        ("{{ 1482720453 | date(format='%H:%M') }}", "02:47"),
        ("{{ 0 | date(format='%H %z', timezone='UTC') }}", "00 +0000"),
        ("{{ day | date(format='%d/%m/%Y %z') }}{{ 1 + 1 }}", "05/03/2017 +00002"),
        ("{{ '2017-03-05' | date(format='%Y') }}", "2017"),
        ("{% filter date(format='%Y') %}2017-03-05{% endfilter %}", "2017"),
        // Chance with one outcome.
        ("{{ get_random(end=1) }}", "0"),
        ("{{ get_random(start=4, end=5) }}", "4"),
        ("{{ get_random( end = -4, start = -5 ) }}", "-5"),
        // Macros, blocks, tests, number bases.
        ("{% macro b(x) %}<b>{{ x }}</b>{% endmacro %}{{ self::b(x=1 + 1) }}", "<b>2</b>"),
        (
            "{% macro a() %}A{% endmacro %}{% macro b() %}{{ self::a() }}B{% endmacro %}{{ self::b() }}",
            "AB",
        ),
        ("{% block a %}x{% endblock %}{% block b %}y{% endblock %}", "xy"),
        ("{% set a = [1, 2] %}{% if a is containing(2) %}in{% endif %}", "in"),
        ("{% macro m() %}a{% endmacro %}{{ 'map' | replace(from=self::m(), to='o') }}", "mop"),
        ("{{ [1, 2] | concat(with=[3]) | join(sep='+') }}", "1+2+3"),
        ("{{ '17' | int(base=8) }}", "15"),
        ("{% set xs = [3, 1, 2] | sort %}{{ xs | join(sep=',') }}", "1,2,3"),
        ("{% set xs = ['p', 'q'] %}{{ xs[1] }}{{ xs.0 }}", "qp"),
        // Other templates that need not be there.
        ("a{% include 'other' ignore missing %}b", "ab"),
        // What a raw section holds is text.
        ("{% raw %}{{ don't {% endraw %}{{ importmap }}", "{{ don't map"),
        ("{%raw%}{{ 9 | date }}{% endraw %}", "{{ 9 | date }}"),
    ] {
        let rendered = render_str(template, &ctx);
        assert!(rendered.is_ok(), "{template}: {:?}", rendered);
        assert_eq!(rendered.unwrap(), page, "{template}");
    }
    let mut plain = Context::new();
    plain.insert("importmap", "map");
    for (template, page) in [
        ("{% set xs = ['p', 'q'] %}{% set i = 1 %}{{ xs[i] }}", "q"),
        ("{% set x = importmap %}{% for c in x %}{{ c }}.{% endfor %}", "m.a.p."),
        ("{% for c in importmap | upper %}{{ c }}.{% endfor %}", "M.A.P."),
    ] {
        assert_eq!(render_str(template, &plain).unwrap(), page, "{template}");
    }
    // A year is all that can be said of the clock here.
    let year = render_str("{{ now() | date(format='%Y') }}{{ 1 + 1 }}", &ctx).unwrap();
    assert!(year.len() == 5 && year.starts_with('2') && year.ends_with('2'));
}

#[test]
fn what_stands_outside_a_tag_or_in_a_string_does_not_count() {
    let mut ctx = Context::new();
    ctx.insert("importmap", "map");
    ctx.insert("date", "today");
    for (template, page) in [
        ("update | date {{ importmap }} range(end=1) 5 * 3 / 2 %", "update | date map range(end=1) 5 * 3 / 2 %"),
        ("I know now() and get_random(end=0): {{ importmap }}", "I know now() and get_random(end=0): map"),
        ("{# it's {{ 99999999999999 | date }} #}ok", "ok"),
        ("{{ \"}} | date \" }}", "}} | date "),
        ("{{ 'a/b' | replace(from='/', to='-') }}", "a-b"),
        ("{{ 2 * 3 }}{{ 7 % 4 }}", "63"),
        ("{{ 40 + 2 }}", "42"),
        ("{{- \"7\" | int }}", "7"),
        ("{{- importmap -}} !", "map!"),
        ("{% if importmap %}yes{% else %}no{% endif %}", "yes"),
        ("{% set update = 1 %}{{ update }}", "1"),
        ("{{ importmap | upper }}", "MAP"),
        ("{{ date }} {{ date | upper }}", "today TODAY"),
    ] {
        let rendered = render_str(template, &ctx);
        assert!(rendered.is_ok(), "{template}");
        assert_eq!(rendered.unwrap(), page, "{template}");
    }
    // The renderer's own complaints come through.
    assert!(render_str("{{ missing }}", &ctx).is_err());
}
