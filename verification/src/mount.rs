//! Compose a frontend from many prefix-mounted source directories.
//!
//! A [`Mount`] ties three things together for one source tree: the import
//! **specifier** authors write (`@module/contacts/`), the **url** it is served at
//! (`/modules/contacts/`), and the **dir** it lives in (`modules/contacts/web/src`).
//! They are independent in general, so a host that composes many crate-provided
//! `web/` trees can serve each under its own prefix and resolve cross-tree imports.

use vstd::prelude::*;

use crate::json;
use crate::json::{Json, Tree};
use crate::path;
use crate::text;

verus! {

/// A source directory mounted into the composed app.
#[derive(Debug, PartialEq, Eq)]
pub struct Mount {
    specifier: String,
    url: String,
    dir: String,
    watch: bool,
}

/// A mount, as the contracts see it.
pub struct MountSpec {
    pub specifier: Seq<char>,
    pub url: Seq<char>,
    pub dir: Seq<char>,
    pub watch: bool,
}

impl View for Mount {
    type V = MountSpec;

    closed spec fn view(&self) -> MountSpec {
        MountSpec {
            specifier: self.specifier@,
            url: self.url@,
            dir: self.dir@,
            watch: self.watch,
        }
    }
}

/// `dir` under `prefix`: imported as `<prefix>/` and served at `/<prefix>/`,
/// surrounding slashes of the prefix ignored.
pub open spec fn prefixed(prefix: Seq<char>, dir: Seq<char>) -> MountSpec {
    let p = text::trimmed(prefix, "/"@);
    MountSpec { specifier: p + "/"@, url: "/"@ + p + "/"@, dir, watch: true }
}

/// The mount of a directory with (or without) a manifest: named by the
/// manifest's `name`, else by the directory's own name, and served from the
/// manifest's `web_modules.root` below the directory, else from the directory.
pub open spec fn mounted(dir: Seq<char>, manifest: Option<Tree>) -> MountSpec {
    let name = match manifest {
        Some(doc) => json::text_of(json::field(doc, "name"@)),
        None => None,
    };
    let root = match manifest {
        Some(doc) => json::text_of(json::field2(doc, "web_modules"@, "root"@)),
        None => None,
    };
    prefixed(
        match name {
            Some(n) => n,
            None => match path::name_of(dir) {
                Some(n) => n,
                None => Seq::empty(),
            },
        },
        match root {
            Some(r) => path::under(dir, text::trimmed_prefix(r, "./"@)),
            None => dir,
        },
    )
}

/// A mount that names only its prefix is imported and served alike: its URL is its specifier
/// under the server's root.
pub proof fn law_url_follows_specifier(prefix: Seq<char>, dir: Seq<char>)
    ensures
        prefixed(prefix, dir).url == "/"@ + prefixed(prefix, dir).specifier,
{
    let p = text::trimmed(prefix, "/"@);
    assert("/"@ + p + "/"@ =~= "/"@ + (p + "/"@));
}

impl Clone for Mount {
    fn clone(&self) -> (r: Self)
        ensures
            r@ == self@,
    {
        proof {
            use_type_invariant(self);
        }
        Mount {
            specifier: self.specifier.clone(),
            url: self.url.clone(),
            dir: self.dir.clone(),
            watch: self.watch,
        }
    }
}

/// A URL prefix as it is served: with a leading slash.
pub open spec fn slashed(url: Seq<char>) -> Seq<char> {
    if "/"@.is_prefix_of(url) {
        url
    } else {
        "/"@ + url
    }
}

impl Mount {
    #[verifier::type_invariant]
    spec fn well_formed(self) -> bool {
        "/"@.is_prefix_of(self.url@)
    }

    /// Mount `dir` under `prefix`: import specifier `"<prefix>/"`, served at
    /// `"/<prefix>/"`. Surrounding slashes in `prefix` are ignored.
    pub fn new(prefix: &str, dir: &str) -> (r: Self)
        ensures
            r@ == prefixed(prefix@, dir@),
    {
        let p = text::trim_both(prefix, "/");
        Mount {
            specifier: p.clone().concat("/"),
            url: "/".to_owned().concat(p.as_str()).concat("/"),
            dir: dir.to_owned(),
            watch: true,
        }
    }

    /// Mount `dir` at the site root (`/`) with **no** import specifier, for the
    /// shell whose files are referenced by absolute URL, not a bare specifier.
    pub fn root(dir: &str) -> (r: Self)
        ensures
            r@ == (MountSpec { specifier: Seq::empty(), url: "/"@, dir: dir@, watch: true }),
    {
        Mount { specifier: String::new(), url: "/".to_owned(), dir: dir.to_owned(), watch: true }
    }

    /// Build a mount from a directory and the content of its `package.json`, if
    /// it has one that could be read: the name (specifier/url segment) is the
    /// manifest's `name` if present, else the dir's basename; the served root is
    /// `<dir>/<web_modules.root>` when the manifest declares that field, else
    /// `dir` itself. A manifest that is no JSON counts as none. Chain
    /// [`specifier`](Self::specifier) / [`url`](Self::url) to override the name.
    pub fn from_dir(dir: &str, manifest: Option<&[u8]>) -> (r: Self)
        ensures
            r@ == mounted(
                dir@,
                match manifest {
                    Some(bytes) => match json::json_document(bytes@) {
                        Ok(doc) => Some(doc),
                        Err(_) => None,
                    },
                    None => None,
                },
            ),
    {
        match manifest {
            Some(bytes) => match json::parse(bytes) {
                Ok(doc) => Mount::from_manifest(dir, Some(&doc)),
                Err(_) => Mount::from_manifest(dir, None),
            },
            None => Mount::from_manifest(dir, None),
        }
    }

    /// [`from_dir`](Self::from_dir) for a manifest that is already a document.
    pub fn from_manifest(dir: &str, manifest: Option<&Json>) -> (r: Self)
        ensures
            r@ == mounted(dir@, json::opt_tree(manifest)),
    {
        let mut name: Option<String> = None;
        let mut root: Option<String> = None;
        if let Some(doc) = manifest {
            name = json::text_field(doc, "name");
            root = match doc.get("web_modules") {
                Some(block) => json::text_field(block, "root"),
                None => None,
            };
        }
        let prefix = match name {
            Some(n) => n,
            None => match path::file_name(dir) {
                Some(n) => n,
                None => String::new(),
            },
        };
        let served = match root {
            Some(r) => path::join(dir, text::trim_prefix(r.as_str(), "./").as_str()),
            None => dir.to_owned(),
        };
        Mount::new(prefix.as_str(), served.as_str())
    }

    /// Override the import specifier (e.g. `"@module/contacts/"`). Empty = none.
    pub fn specifier(self, specifier: &str) -> (r: Self)
        ensures
            r@ == (MountSpec { specifier: specifier@, ..self@ }),
    {
        proof {
            use_type_invariant(&self);
        }
        Mount { specifier: specifier.to_owned(), url: self.url, dir: self.dir, watch: self.watch }
    }

    /// Override the served URL prefix (e.g. `"/modules/contacts/"`). One without a leading
    /// slash gets one.
    pub fn url(self, url: &str) -> (r: Self)
        ensures
            r@ == (MountSpec { url: slashed(url@), ..self@ }),
    {
        let served = if text::starts_with(url, "/") {
            url.to_owned()
        } else {
            "/".to_owned().concat(url)
        };
        Mount { specifier: self.specifier, url: served, dir: self.dir, watch: self.watch }
    }

    /// Set whether this mount is watched for live-reload (default `true`).
    pub fn watched(self, watch: bool) -> (r: Self)
        ensures
            r@ == (MountSpec { watch, ..self@ }),
    {
        proof {
            use_type_invariant(&self);
        }
        Mount { specifier: self.specifier, url: self.url, dir: self.dir, watch }
    }

    /// The source directory.
    pub fn dir(&self) -> (r: &str)
        ensures
            r@ == self@.dir,
    {
        self.dir.as_str()
    }

    /// The served URL prefix (always starts with `/`; `"/"` for a root mount).
    pub fn url_prefix(&self) -> (r: &str)
        ensures
            r@ == self@.url,
            "/"@.is_prefix_of(r@),
    {
        proof {
            use_type_invariant(self);
        }
        self.url.as_str()
    }

    /// The import specifier (empty for a [root](Mount::root) mount).
    pub fn specifier_prefix(&self) -> (r: &str)
        ensures
            r@ == self@.specifier,
    {
        self.specifier.as_str()
    }

    /// Whether this mount is watched for live-reload.
    pub fn is_watched(&self) -> (r: bool)
        ensures
            r == self@.watch,
    {
        self.watch
    }
}

/// Slashes around a prefix do not matter: `prefix`, `/prefix`, `prefix/` and `/prefix/` mount the
/// same directory as `prefix/`, served at `/prefix/`.
pub proof fn law_slashes_around_a_prefix(prefix: Seq<char>, dir: Seq<char>)
    requires
        prefix.len() > 0,
        prefix[0] != '/',
        prefix.last() != '/',
    ensures
        prefixed(prefix, dir) == (MountSpec {
            specifier: prefix + "/"@,
            url: "/"@ + prefix + "/"@,
            dir,
            watch: true,
        }),
        prefixed("/"@ + prefix, dir) == prefixed(prefix, dir),
        prefixed(prefix + "/"@, dir) == prefixed(prefix, dir),
        prefixed("/"@ + prefix + "/"@, dir) == prefixed(prefix, dir),
{
    reveal_strlit("/");
    assert(forall|c: char| "/"@.contains(c) <==> c == '/') by {
        assert("/"@[0] == '/');
    }
    text::law_trimming_leaves_alone(prefix, "/"@);
    let after = prefix + "/"@;
    assert(text::trimmed_start(after, "/"@) == after);
    assert(after.drop_last() =~= prefix);
    assert(text::trimmed_end(after, "/"@) == text::trimmed_end(prefix, "/"@));
    assert(("/"@ + prefix).drop_first() =~= prefix);
    assert(("/"@ + prefix + "/"@).drop_first() =~= after);
    assert(text::trimmed_start("/"@ + prefix, "/"@) == text::trimmed_start(prefix, "/"@));
    assert(text::trimmed_start("/"@ + prefix + "/"@, "/"@) == text::trimmed_start(after, "/"@));
}

/// A manifest's `name` names the mount, and its `web_modules.root`, read from the directory, is
/// what is served; where it has no name, and where there is no manifest, the directory's own name
/// stands, and where it has no root, the directory is served.
pub proof fn law_manifest_decides(dir: Seq<char>, doc: Tree, name: Seq<char>, root: Seq<char>)
    ensures
        path::name_of(dir) == Some(name) ==> mounted(dir, None) == prefixed(name, dir),
        ({
            let named = json::field(doc, "name"@) == Some(Tree::Text(name));
            let unnamed = !(json::field(doc, "name"@) matches Some(Tree::Text(_)));
            let at_root = json::field2(doc, "web_modules"@, "root"@) == Some(Tree::Text(root));
            let rootless = !(json::field2(doc, "web_modules"@, "root"@) matches Some(Tree::Text(_)));
            &&& named && rootless ==> mounted(dir, Some(doc)) == prefixed(name, dir)
            &&& named && at_root && !"./"@.is_prefix_of(root) ==> mounted(dir, Some(doc))
                == prefixed(name, path::under(dir, root))
            &&& unnamed && path::name_of(dir) == Some(name) ==> mounted(dir, Some(doc)).specifier
                == prefixed(name, dir).specifier
        }),
{
    reveal_strlit("./");
    text::law_trimmed_prefix(root, "./"@);
}

/// A served URL starts with one slash: a URL that has it stays as it is, another one gets it.
pub proof fn law_urls_are_rooted(url: Seq<char>)
    ensures
        "/"@.is_prefix_of(slashed(url)),
        slashed(slashed(url)) == slashed(url),
        url.len() > 0 && url[0] == '/' ==> slashed(url) == url,
        url.len() == 0 || url[0] != '/' ==> slashed(url) == "/"@ + url,
{
    reveal_strlit("/");
    assert("/"@.is_prefix_of("/"@ + url)) by {
        assert(("/"@ + url).subrange(0, 1) =~= "/"@);
    }
    if url.len() > 0 {
        assert(url.subrange(0, 1)[0] == url[0]);
        if url[0] == '/' {
            assert(url.subrange(0, 1) =~= "/"@);
        }
    }
}

} // verus!
