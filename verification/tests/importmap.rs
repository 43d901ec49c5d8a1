use web_modules::error::Error;
use web_modules::importmap::{escape_for_script, Importmap};
use web_modules::mount::Mount;

#[test]
fn merge_other_wins() {
    let mut base = Importmap::new();
    base.insert("lit", "/old.js").insert("only-base", "/b.js");
    let mut other = Importmap::new();
    other.insert("lit", "/new.js").insert("only-other", "/o.js");
    base.extend(other);
    let json = base.to_json();
    assert!(json.contains("/new.js"));
    assert!(!json.contains("/old.js"));
    assert!(json.contains("only-base") && json.contains("only-other"));
}

#[test]
fn round_trips_through_json_file() {
    let mut original = Importmap::new();
    original
        .insert("lit", "/web_modules/lit/index.js")
        .insert("lit/", "/web_modules/lit/");
    let written = original.to_json();
    let parsed = Importmap::from_json_file("importmap.json", written.as_bytes()).unwrap();
    assert_eq!(parsed, original);
}

#[test]
fn script_tag_is_compact_and_wrapped() {
    let mut map = Importmap::new();
    map.insert("lit", "/web_modules/lit/index.js");
    let tag = map.to_script_tag();
    assert!(tag.starts_with("<script type=\"importmap\">{"));
    assert!(tag.ends_with("}</script>"));
    assert!(!tag.contains('\n'));
}

#[test]
fn script_tag_escapes_html_breakout() {
    // A hostile package.json `exports` key could carry markup like this.
    let mut map = Importmap::new();
    map.insert(
        "evil/</script><script>alert(1)</script>",
        "/web_modules/evil/index.js",
    );
    let tag = map.to_script_tag();
    // The injected closing tag is neutralised; the element has exactly one of its own.
    assert!(tag.contains("\\u003c/script\\u003e"));
    assert_eq!(tag.matches("</script>").count(), 1);
    // The standalone JSON artifact (served as application/json) is left verbatim.
    assert!(map.to_json().contains("</script>"));
}

#[test]
fn resolves_exact_and_prefix() {
    let mut map = Importmap::new();
    map.insert("lit", "/web_modules/lit/index.js")
        .insert("lit/", "/web_modules/lit/");
    assert!(map.resolves("lit"));
    assert!(map.resolves("lit/decorators.js")); // via the prefix key
    assert!(!map.resolves("react"));
    assert!(!map.resolves("@oxc-project/runtime/helpers/decorate"));
}

#[test]
fn rejects_non_string_and_missing_imports() {
    assert!(matches!(
        Importmap::from_json_file("bad.json", br#"{"imports":{"lit":42}}"#).unwrap_err(),
        Error::ImportMap(_)
    ));
    assert!(matches!(
        Importmap::from_json_file("bad.json", br#"{"nope":{}}"#).unwrap_err(),
        Error::ImportMap(_)
    ));
}

#[test]
fn unreadable_json_is_an_import_map_error() {
    let err = Importmap::from_json_file("bad.json", b"{").unwrap_err();
    assert!(matches!(err, Error::ImportMap(_)));
    assert!(err.to_string().contains("bad.json"), "{}", err.to_string());
}

#[test]
fn the_json_form_is_sorted_and_indented() {
    let mut map = Importmap::new();
    map.insert("b", "/b.js").insert("a", "/a.js");
    assert_eq!(
        map.to_json(),
        "{\n  \"imports\": {\n    \"a\": \"/a.js\",\n    \"b\": \"/b.js\"\n  }\n}"
    );
    assert_eq!(
        map.to_script_tag(),
        "<script type=\"importmap\">{\"imports\":{\"a\":\"/a.js\",\"b\":\"/b.js\"}}</script>"
    );
    assert_eq!(
        map.iter(),
        vec![
            ("a".to_string(), "/a.js".to_string()),
            ("b".to_string(), "/b.js".to_string()),
        ]
    );
}

#[test]
fn mounts_contribute_their_specifiers() {
    let mounts = vec![
        Mount::new("ui", "ui/src"),
        Mount::root("site"),
        Mount::new("/lib/", "lib").url("/static/lib/"),
    ];
    let map = Importmap::from_mounts(&mounts);
    assert_eq!(map.len(), 2);
    assert!(!map.is_empty());
    assert!(map.resolves("ui/button.js"));
    assert_eq!(
        map.iter()[0],
        ("lib/".to_string(), "/static/lib/".to_string())
    );
    assert_eq!(map.clone(), map);
    assert!(Importmap::default().is_empty());
}

#[test]
fn escaping_replaces_only_the_markup_characters() {
    assert_eq!(escape_for_script("a<b>c&d"), "a\\u003cb\\u003ec\\u0026d");
    assert_eq!(escape_for_script("plain"), "plain");
}

#[test]
fn markup_stands_in_the_json_as_it_is() {
    let mut map = Importmap::new();
    map.insert("a<b>&c", "/x?<1>&2");
    map.insert("line\nbreak\r", "/</script>");
    let text = map.to_json();
    assert_eq!(text.matches('<').count(), 3);
    assert_eq!(text.matches('>').count(), 3);
    assert_eq!(text.matches('&').count(), 2);
    assert!(text.contains("a<b>&c"));
    assert_eq!(
        Importmap::from_json_file("importmap.json", text.as_bytes()).unwrap().to_json(),
        text
    );
    let tag = map.to_script_tag();
    assert_eq!(tag.matches("</script>").count(), 1);
    assert!(tag.ends_with("</script>"));
    assert!(!tag.contains(['\n', '\r']));
    let body = tag
        .strip_prefix("<script type=\"importmap\">")
        .and_then(|rest| rest.strip_suffix("</script>"))
        .unwrap();
    assert_eq!(
        Importmap::from_json_file("importmap.json", body.as_bytes()).unwrap().to_json(),
        text
    );
}
