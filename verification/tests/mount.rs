use web_modules::mount::Mount;

#[test]
fn new_derives_specifier_and_url_from_prefix() {
    let m = Mount::new("/ui/", "ui/src");
    assert_eq!(m.specifier_prefix(), "ui/");
    assert_eq!(m.url_prefix(), "/ui/");
    assert_eq!(m.dir(), "ui/src");
    assert!(m.is_watched());
}

#[test]
fn decoupled_specifier_url_dir() {
    let m = Mount::new("contacts", "modules/contacts/web/src")
        .specifier("@module/contacts/")
        .url("/modules/contacts/")
        .watched(false);
    assert_eq!(m.specifier_prefix(), "@module/contacts/");
    assert_eq!(m.url_prefix(), "/modules/contacts/");
    assert_eq!(m.dir(), "modules/contacts/web/src");
    assert!(!m.is_watched());
}

#[test]
fn root_mount_has_no_specifier() {
    let m = Mount::root("packages/frontend/web/src");
    assert_eq!(m.specifier_prefix(), "");
    assert_eq!(m.url_prefix(), "/");
}

#[test]
fn from_dir_uses_package_json_name_and_root() {
    let manifest = br#"{"name":"@acme/widgets","web_modules":{"root":"./src"}}"#;
    let m = Mount::from_dir("/work/widgets", Some(manifest));
    assert_eq!(m.specifier_prefix(), "@acme/widgets/");
    assert_eq!(m.url_prefix(), "/@acme/widgets/");
    assert_eq!(
        std::path::Path::new(m.dir()),
        std::path::Path::new("/work/widgets/src")
    );
}

#[test]
fn from_dir_falls_back_to_basename_and_dir() {
    let m = Mount::from_dir("/work/plain", None);
    assert_eq!(m.specifier_prefix(), "plain/");
    assert_eq!(m.dir(), "/work/plain");
}

#[test]
fn given_name_overrides_package_json_name() {
    let m = Mount::from_dir("/work/widgets", Some(br#"{"name":"@acme/widgets"}"#))
        .specifier("counter/")
        .url("/counter/");
    assert_eq!(m.specifier_prefix(), "counter/");
    assert_eq!(m.url_prefix(), "/counter/");
}

#[test]
fn an_unreadable_manifest_counts_as_none() {
    let m = Mount::from_dir("/work/plain", Some(b"{"));
    assert_eq!(m, Mount::from_dir("/work/plain", None));
}

#[test]
fn a_prefix_is_imported_and_served_alike() {
    for prefix in ["lib", "/lib/", "@module/contacts", ""] {
        let mount = Mount::new(prefix, "web");
        assert_eq!(
            mount.url_prefix(),
            format!("/{}", mount.specifier_prefix()),
            "{prefix}"
        );
    }
}

#[test]
fn a_served_url_always_starts_with_a_slash() {
    let m = Mount::new("ui", "ui/src").url("x/");
    assert_eq!(m.url_prefix(), "/x/");
    assert_eq!(m.clone().specifier("@ui/").watched(false).url_prefix(), "/x/");
    assert_eq!(Mount::root("shell").url("").url_prefix(), "/");
    assert_eq!(Mount::root("shell").url("/a/").url_prefix(), "/a/");
}
