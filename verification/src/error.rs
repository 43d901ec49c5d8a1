//! The crate's unified error type.
//!
//! Every fallible public function returns `Result<T, Error>`, so a caller
//! handles one error type across vendoring, import-map reading, and every
//! build stage.

use vstd::prelude::*;

verus! {

/// `std::io::Error`, carried through as it is.
#[verifier::external_type_specification]
#[verifier::external_body]
pub struct ExIoError(std::io::Error);

/// Anything that can go wrong inside `web_modules`.
#[derive(Debug)]
#[non_exhaustive]
pub enum Error {
    /// Filesystem / I/O failure (preserves the underlying error as `source`).
    Io(std::io::Error),
    /// TypeScript / modern-JS transform failure (parse, semantic, or transform).
    TypeScript(String),
    /// SCSS compilation failure.
    Scss(String),
    /// JavaScript minification failure.
    Minify(String),
    /// `.d.ts` declaration-emission failure.
    Dts(String),
    /// Vendoring failure: semver parsing, registry resolution, download, or extract.
    Vendor(String),
    /// Import-map parsing or composition failure.
    ImportMap(String),
    /// HTML template rendering failure.
    Template(String),
    /// i18n (XLIFF) parsing or merging failure.
    I18n(String),
    /// Icon (favicon / app-icon) generation failure.
    Icons(String),
    /// `build` pipeline failure (e.g. an emitted module imports an unresolved bare specifier).
    Build(String),
    /// Composition (`Mount`) / tsconfig generation failure.
    Compose(String),
    /// CommonJS to ESM bundling failure.
    Bundle(String),
}

/// An error's kind and message, as the contracts see it. An I/O error carries
/// the outside error itself, so it has no message of its own here.
pub enum Failure {
    Io(std::io::Error),
    TypeScript(Seq<char>),
    Scss(Seq<char>),
    Minify(Seq<char>),
    Dts(Seq<char>),
    Vendor(Seq<char>),
    ImportMap(Seq<char>),
    Template(Seq<char>),
    I18n(Seq<char>),
    Icons(Seq<char>),
    Build(Seq<char>),
    Compose(Seq<char>),
    Bundle(Seq<char>),
}

impl View for Error {
    type V = Failure;

    open spec fn view(&self) -> Failure {
        match self {
            Error::Io(e) => Failure::Io(*e),
            Error::TypeScript(m) => Failure::TypeScript(m@),
            Error::Scss(m) => Failure::Scss(m@),
            Error::Minify(m) => Failure::Minify(m@),
            Error::Dts(m) => Failure::Dts(m@),
            Error::Vendor(m) => Failure::Vendor(m@),
            Error::ImportMap(m) => Failure::ImportMap(m@),
            Error::Template(m) => Failure::Template(m@),
            Error::I18n(m) => Failure::I18n(m@),
            Error::Icons(m) => Failure::Icons(m@),
            Error::Build(m) => Failure::Build(m@),
            Error::Compose(m) => Failure::Compose(m@),
            Error::Bundle(m) => Failure::Bundle(m@),
        }
    }
}

/// The contents of a result.
pub open spec fn seen<T: View>(r: Result<T, Error>) -> Result<T::V, Failure> {
    match r {
        Ok(v) => Ok(v@),
        Err(e) => Err(e@),
    }
}

/// The text of an error: its message behind a prefix that names the kind. A
/// build error is already a whole message. `None` for an I/O error, whose text
/// is the operating system's.
pub open spec fn shown(e: Failure) -> Option<Seq<char>> {
    match e {
        Failure::Io(_) => None,
        Failure::TypeScript(m) => Some("typescript: "@ + m),
        Failure::Scss(m) => Some("scss: "@ + m),
        Failure::Minify(m) => Some("minify: "@ + m),
        Failure::Dts(m) => Some("dts: "@ + m),
        Failure::Vendor(m) => Some("vendor: "@ + m),
        Failure::ImportMap(m) => Some("importmap: "@ + m),
        Failure::Template(m) => Some("template: "@ + m),
        Failure::I18n(m) => Some("i18n: "@ + m),
        Failure::Icons(m) => Some("icons: "@ + m),
        Failure::Build(m) => Some(m),
        Failure::Compose(m) => Some("compose: "@ + m),
        Failure::Bundle(m) => Some("bundle: "@ + m),
    }
}

/// The text of a `std::io::Error`, through its `to_string`. Nothing is claimed
/// of it: it is whatever the operating system says.
#[verifier::external_body]
fn io_text(e: &std::io::Error) -> String {
    e.to_string()
}

impl Error {
    /// The error as a human-readable text.
    pub fn to_string(&self) -> (r: String)
        ensures
            shown(self@) matches Some(t) ==> r@ == t,
    {
        match self {
            Error::Io(e) => io_text(e),
            Error::TypeScript(m) => "typescript: ".to_owned().concat(m.as_str()),
            Error::Scss(m) => "scss: ".to_owned().concat(m.as_str()),
            Error::Minify(m) => "minify: ".to_owned().concat(m.as_str()),
            Error::Dts(m) => "dts: ".to_owned().concat(m.as_str()),
            Error::Vendor(m) => "vendor: ".to_owned().concat(m.as_str()),
            Error::ImportMap(m) => "importmap: ".to_owned().concat(m.as_str()),
            Error::Template(m) => "template: ".to_owned().concat(m.as_str()),
            Error::I18n(m) => "i18n: ".to_owned().concat(m.as_str()),
            Error::Icons(m) => "icons: ".to_owned().concat(m.as_str()),
            Error::Build(m) => m.clone(),
            Error::Compose(m) => "compose: ".to_owned().concat(m.as_str()),
            Error::Bundle(m) => "bundle: ".to_owned().concat(m.as_str()),
        }
    }

    /// The underlying error, when there is one: an I/O error preserves it.
    pub fn source(&self) -> (r: Option<&std::io::Error>)
        ensures
            match r {
                Some(e) => self@ == Failure::Io(*e),
                None => !(self@ is Io),
            },
    {
        match self {
            Error::Io(e) => Some(e),
            _ => None,
        }
    }
}

impl From<std::io::Error> for Error {
    fn from(e: std::io::Error) -> (r: Error) {
        Error::Io(e)
    }
}

impl vstd::std_specs::convert::FromSpecImpl<std::io::Error> for Error {
    open spec fn obeys_from_spec() -> bool {
        true
    }

    open spec fn from_spec(e: std::io::Error) -> Error {
        Error::Io(e)
    }
}

/// An error's text ends in its message, and a build error's is the message itself; every other kind
/// has its own name in front.
pub proof fn law_messages(m: Seq<char>)
    ensures
        shown(Failure::Build(m)) == Some(m),
        shown(Failure::TypeScript(m)) == Some("typescript: "@ + m),
        shown(Failure::Scss(m)) == Some("scss: "@ + m),
        shown(Failure::Minify(m)) == Some("minify: "@ + m),
        shown(Failure::Dts(m)) == Some("dts: "@ + m),
        shown(Failure::Vendor(m)) == Some("vendor: "@ + m),
        shown(Failure::ImportMap(m)) == Some("importmap: "@ + m),
        shown(Failure::Template(m)) == Some("template: "@ + m),
        shown(Failure::I18n(m)) == Some("i18n: "@ + m),
        shown(Failure::Icons(m)) == Some("icons: "@ + m),
        shown(Failure::Compose(m)) == Some("compose: "@ + m),
        shown(Failure::Bundle(m)) == Some("bundle: "@ + m),
{
}

} // verus!
