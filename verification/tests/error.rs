use web_modules::error::Error;

#[test]
fn display_prefixes_message_by_kind() {
    assert_eq!(
        Error::TypeScript("bad token".into()).to_string(),
        "typescript: bad token"
    );
    assert_eq!(Error::Scss("oops".into()).to_string(), "scss: oops");
    assert_eq!(Error::Compose("drift".into()).to_string(), "compose: drift");
    // `Build` carries its own already-formatted message, no prefix.
    assert_eq!(
        Error::Build("unresolved import".into()).to_string(),
        "unresolved import"
    );
}

#[test]
fn io_preserves_underlying_error_as_source() {
    let io = std::io::Error::new(std::io::ErrorKind::NotFound, "no such file");
    let err: Error = io.into(); // exercises From<io::Error>
    assert!(matches!(err, Error::Io(_)));
    assert_eq!(err.to_string(), "no such file");
    // The chain is intact: the underlying io::Error is reachable as the source.
    assert!(err.source().is_some());
}

#[test]
fn only_an_io_error_has_a_source() {
    assert!(Error::Build("x".into()).source().is_none());
    assert!(Error::Scss("x".into()).source().is_none());
}
