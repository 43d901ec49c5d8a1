//! Copying non-source static files into an output tree.
//!
//! The counterpart to the source processors: everything they *don't* transform (images,
//! fonts, JSON, `.well-known`, …) is copied across verbatim, so a build (and any custom
//! build script) ends up with a complete output directory.

use vstd::prelude::*;

use crate::error::{Error, Failure};
use crate::module_graph;
use crate::module_graph::{references, source_reading, ModuleImport, ModuleNode, Reference};
use crate::path;
use crate::path::{extension_of, name_of};
use crate::reject::{refuses_path, Reject, Rules};
use crate::text;
use crate::text::{lowered, texts};

verus! {

/// An extension of sources that a build step turns into something else.
pub open spec fn source_ext(ext: Seq<char>) -> bool {
    ||| lowered(ext) == "ts"@
    ||| lowered(ext) == "tsx"@
    ||| lowered(ext) == "mts"@
    ||| lowered(ext) == "scss"@
    ||| lowered(ext) == "tera"@
}

/// The file name of a path; nothing when it has none.
pub open spec fn name_or_empty(rel: Seq<char>) -> Seq<char> {
    match name_of(rel) {
        Some(name) => name,
        None => Seq::empty(),
    }
}

/// The extension of a path; nothing when it has none.
pub open spec fn ext_or_empty(rel: Seq<char>) -> Seq<char> {
    match extension_of(rel) {
        Some(ext) => ext,
        None => Seq::empty(),
    }
}

/// A file that a build step produces from or ignores: a source, or a `_` partial.
pub open spec fn skipped(rel: Seq<char>) -> bool {
    "_"@.is_prefix_of(name_or_empty(rel)) || source_ext(ext_or_empty(rel))
}

/// The extension is that of emitted JavaScript.
pub open spec fn emitted_js(ext: Seq<char>) -> bool {
    lowered(ext) == "js"@ || lowered(ext) == "mjs"@
}

/// Whether `ext` is an extension of sources that a build step turns into something else.
/// An upper-cased one is a source too: it must not ship raw.
pub fn is_source_ext(ext: &str) -> (r: bool)
    ensures
        r == source_ext(ext@),
{
    let low = text::lower(ext);
    let low = low.as_str();
    text::same(low, "ts") || text::same(low, "tsx") || text::same(low, "mts") || text::same(
        low,
        "scss",
    ) || text::same(low, "tera")
}

/// Whether `ext` is that of emitted JavaScript (`.js`, `.mjs`).
pub fn is_emitted_js(ext: &str) -> (r: bool)
    ensures
        r == emitted_js(ext@),
{
    let low = text::lower(ext);
    text::same(low.as_str(), "js") || text::same(low.as_str(), "mjs")
}

/// The extension of a path; empty when it has none.
pub fn extension_or_empty(rel: &str) -> (r: String)
    ensures
        r@ == ext_or_empty(rel@),
{
    match path::extension(rel) {
        Some(ext) => ext,
        None => {
            let r = String::new();
            assert(r@ =~= Seq::<char>::empty());
            r
        },
    }
}

/// Whether the file at `rel` is one that a build step produces from or ignores.
pub fn is_skipped(rel: &str) -> (r: bool)
    ensures
        r == skipped(rel@),
{
    let partial = match path::file_name(rel) {
        Some(name) => text::starts_with(name.as_str(), "_"),
        None => {
            proof {
                reveal_strlit("_");
            }
            false
        },
    };
    partial || is_source_ext(extension_or_empty(rel).as_str())
}

/// What is recorded of a copied JavaScript file: the imports it is known to have, and what
/// is said when they are unknown.
pub open spec fn recorded(rel: Seq<char>, contents: Option<Seq<char>>) -> Result<
    (Seq<Reference>, Option<Seq<char>>),
    Failure,
> {
    let module_only = lowered(ext_or_empty(rel)) == "mjs"@;
    match contents {
        Some(js) => match source_reading(js, module_only) {
            Ok(reading) => Ok(
                (
                    reading.imports,
                    if reading.parsed {
                        None
                    } else {
                        Some(unvalidated(rel, "does not parse as a module or classic script"@))
                    },
                ),
            ),
            Err(reason) => Err(Failure::Build("web-modules: "@ + rel + ": "@ + reason)),
        },
        None => Ok((Seq::empty(), Some(unvalidated(rel, "is not UTF-8 text"@)))),
    }
}

/// What is said of a file whose imports are unknown.
pub open spec fn unvalidated(rel: Seq<char>, reason: Seq<char>) -> Seq<char> {
    "web-modules: "@ + rel + ": "@ + reason + "; its imports are not validated"@
}

/// What is recorded of the copied JavaScript file at `rel`: the imports it is known to have,
/// and what is said when they are unknown. `contents` is its text, or nothing when it is not
/// UTF-8.
pub fn record(rel: &str, contents: Option<&str>) -> (r: Result<
    (Vec<ModuleImport>, Option<String>),
    Error,
>)
    ensures
        (match r {
            Ok((imports, warning)) => Ok::<(Seq<Reference>, Option<Seq<char>>), Failure>(
                (references(imports@), text::opt_text(warning)),
            ),
            Err(e) => Err(e@),
        }) == recorded(
            rel@,
            match contents {
                Some(js) => Some(js@),
                None => None,
            },
        ),
{
    let ext = extension_or_empty(rel);
    let module_only = text::same(text::lower(ext.as_str()).as_str(), "mjs");
    let head = "web-modules: ".to_owned().concat(rel).concat(": ");
    match contents {
        Some(js) => match module_graph::read_imports(js, module_only) {
            Ok(read) => {
                let warning = if read.parsed {
                    None
                } else {
                    Some(
                        head.concat("does not parse as a module or classic script").concat(
                            "; its imports are not validated",
                        ),
                    )
                };
                Ok((read.imports, warning))
            },
            Err(e) => Err(Error::Build(head.concat(e.as_str()))),
        },
        None => {
            let imports: Vec<ModuleImport> = Vec::new();
            assert(references(imports@) =~= Seq::<Reference>::empty());
            Ok(
                (
                    imports,
                    Some(head.concat("is not UTF-8 text").concat("; its imports are not validated")),
                ),
            )
        },
    }
}

/// What a copy has done so far: the files it copied, the records of the JavaScript among
/// them, and what it warned of.
#[derive(Debug, PartialEq, Eq)]
pub struct Copied {
    pub files: Vec<String>,
    pub nodes: Vec<ModuleNode>,
    pub warnings: Vec<String>,
}

/// What a copy has done so far, as the contracts see it.
pub struct Progress {
    pub files: Seq<Seq<char>>,
    pub nodes: Seq<(Seq<char>, Seq<Reference>)>,
    pub warnings: Seq<Seq<char>>,
}

/// The contents of a list of nodes.
pub open spec fn node_list(nodes: Seq<ModuleNode>) -> Seq<(Seq<char>, Seq<Reference>)> {
    Seq::new(nodes.len(), |i: int| (nodes[i].path@, references(nodes[i].imports@)))
}

impl View for Copied {
    type V = Progress;

    open spec fn view(&self) -> Progress {
        Progress {
            files: texts(self.files@),
            nodes: node_list(self.nodes@),
            warnings: texts(self.warnings@),
        }
    }
}

/// A file is copied when the reject list lets it and no build step takes it.
pub open spec fn copies(rules: Rules, rel: Seq<char>) -> bool {
    !refuses_path(rules, rel) && !skipped(rel)
}

/// The progress after one file that a walk met: unchanged when the file is left out; with
/// the copy when it is not, and for JavaScript with its record and its warning.
pub open spec fn after_file(
    done: Progress,
    rules: Rules,
    rel: Seq<char>,
    contents: Option<Seq<char>>,
) -> Result<Progress, Failure> {
    if !copies(rules, rel) {
        Ok(done)
    } else if emitted_js(ext_or_empty(rel)) {
        match recorded(rel, contents) {
            Ok((imports, warning)) => Ok(
                Progress {
                    files: done.files.push(rel),
                    nodes: done.nodes.push((rel, imports)),
                    warnings: match warning {
                        Some(w) => done.warnings.push(w),
                        None => done.warnings,
                    },
                },
            ),
            Err(e) => Err(e),
        }
    } else {
        Ok(Progress { files: done.files.push(rel), nodes: done.nodes, warnings: done.warnings })
    }
}

impl Copied {
    /// Nothing copied yet.
    pub fn new() -> (r: Self)
        ensures
            r@.files == Seq::<Seq<char>>::empty(),
            r@.nodes == Seq::<(Seq<char>, Seq<Reference>)>::empty(),
            r@.warnings == Seq::<Seq<char>>::empty(),
    {
        let r = Copied { files: Vec::new(), nodes: Vec::new(), warnings: Vec::new() };
        assert(r@.files =~= Seq::<Seq<char>>::empty());
        assert(r@.nodes =~= Seq::<(Seq<char>, Seq<Reference>)>::empty());
        assert(r@.warnings =~= Seq::<Seq<char>>::empty());
        r
    }

    /// Takes one file that the walk met, at `rel` below the source directory, and says
    /// whether to copy it. `contents` is the text of a JavaScript file, or nothing when it
    /// is not UTF-8; it is read for no other file.
    ///
    /// Every copied `.js`/`.mjs` records a graph node: the record marks the **write**
    /// (replacing any earlier record for the same output path), independent of whether the
    /// bytes are readable as a module. An `.mjs` that fails to parse is an error; a `.js`
    /// that parses under neither goal, or is not UTF-8, contributes an empty import set
    /// plus a warning. The copy itself is byte-for-byte either way.
    pub fn offer(&mut self, reject: &Reject, rel: &str, contents: Option<&str>) -> (r: Result<
        bool,
        Error,
    >)
        ensures
            ({
                let given = match contents {
                    Some(js) => Some(js@),
                    None => None,
                };
                match r {
                    Ok(copied) => {
                        &&& copied == copies(reject@, rel@)
                        &&& after_file(old(self)@, reject@, rel@, given) == Ok::<
                            Progress,
                            Failure,
                        >(final(self)@)
                    },
                    Err(e) => {
                        &&& final(self)@ == old(self)@
                        &&& after_file(old(self)@, reject@, rel@, given) == Err::<
                            Progress,
                            Failure,
                        >(e@)
                    },
                }
            }),
    {
        let ghost start = self@;
        if reject.rejects_path(rel) || is_skipped(rel) {
            return Ok(false);
        }
        let ext = extension_or_empty(rel);
        if is_emitted_js(ext.as_str()) {
            let (imports, warning) = match record(rel, contents) {
                Ok(found) => found,
                Err(e) => {
                    return Err(e);
                },
            };
            if let Some(warning) = warning {
                proof {
                    text::lemma_texts_push(self.warnings@, warning);
                }
                self.warnings.push(warning);
            }
            let ghost nodes = self.nodes@;
            let node = ModuleNode { path: rel.to_owned(), imports };
            self.nodes.push(node);
            assert(node_list(self.nodes@) =~= node_list(nodes).push(
                (rel@, references(imports@)),
            ));
        }
        let name = rel.to_owned();
        proof {
            text::lemma_texts_push(self.files@, name);
        }
        self.files.push(name);
        Ok(true)
    }
}

/// One file that a walk met below the source directory.
#[derive(Debug, PartialEq, Eq)]
pub struct SourceFile {
    pub rel: String,
    /// The text of a JavaScript file, when it is UTF-8.
    pub contents: Option<String>,
}

/// The progress after a list of files, in walk order; it ends at the first that fails.
pub open spec fn after_files(rules: Rules, files: Seq<SourceFile>) -> Result<Progress, Failure>
    decreases files.len(),
{
    if files.len() == 0 {
        Ok(Progress { files: Seq::empty(), nodes: Seq::empty(), warnings: Seq::empty() })
    } else {
        match after_files(rules, files.drop_last()) {
            Ok(done) => after_file(
                done,
                rules,
                files.last().rel@,
                crate::text::opt_text(files.last().contents),
            ),
            Err(e) => Err(e),
        }
    }
}

/// What copying a whole tree does: the files it copies, the records of the JavaScript among
/// them, and what it warns of; or the failure that ends it.
pub fn copy_static_capturing(files: &Vec<SourceFile>, reject: &Reject) -> (r: Result<Copied, Error>)
    ensures
        crate::error::seen(r) == after_files(reject@, files@),
{
    let mut done = Copied::new();
    let mut i: usize = 0;
    while i < files.len()
        invariant
            i <= files@.len(),
            after_files(reject@, files@.take(i as int)) == Ok::<Progress, Failure>(done@),
        decreases files@.len() - i,
    {
        proof {
            let grown = files@.take(i + 1);
            assert(grown.drop_last() =~= files@.take(i as int));
            assert(grown.last() == files@[i as int]);
        }
        let contents = match &files[i].contents {
            Some(js) => Some(js.as_str()),
            None => None,
        };
        if let Err(e) = done.offer(reject, files[i].rel.as_str(), contents) {
            proof {
                lemma_failure_stays(reject@, files@, i + 1, e@);
                assert(files@.take(files@.len() as int) =~= files@);
            }
            return Err(e);
        }
        i += 1;
    }
    assert(files@.take(files@.len() as int) =~= files@);
    Ok(done)
}

proof fn lemma_failure_stays(rules: Rules, files: Seq<SourceFile>, n: int, e: Failure)
    requires
        0 <= n <= files.len(),
        after_files(rules, files.take(n)) == Err::<Progress, Failure>(e),
    ensures
        after_files(rules, files.take(files.len() as int)) == Err::<Progress, Failure>(e),
    decreases files.len() - n,
{
    if n < files.len() {
        let grown = files.take(n + 1);
        assert(grown.drop_last() =~= files.take(n));
        lemma_failure_stays(rules, files, n + 1, e);
    }
}

/// Which files of a source tree are copied, skipping things a build step produces or
/// ignores: `.ts`/`.tsx`/`.mts`/`.scss`/`.tera` sources, `_`-prefixed partials, and any path
/// the reject list excludes (config / secrets / source). Gives the number of files copied.
pub fn copy_static(files: &Vec<SourceFile>, reject: &Reject) -> (r: Result<usize, Error>)
    ensures
        match r {
            Ok(n) => after_files(reject@, files@) matches Ok(done) && done.files.len() == n,
            Err(e) => after_files(reject@, files@) == Err::<Progress, Failure>(e@),
        },
{
    match copy_static_capturing(files, reject) {
        Ok(done) => Ok(done.files.len()),
        Err(e) => Err(e),
    }
}

/// Nothing that the reject list refuses, no source and no partial is ever copied, and each
/// copied JavaScript file has its record.
pub proof fn law_copy_leaves_out(rules: Rules, files: Seq<SourceFile>, i: int)
    ensures
        after_files(rules, files) matches Ok(done) ==> (0 <= i < done.files.len() ==> copies(
            rules,
            done.files[i],
        ) && (emitted_js(ext_or_empty(done.files[i])) ==> exists|k: int|
            0 <= k < done.nodes.len() && (#[trigger] done.nodes[k]).0 == done.files[i])),
    decreases files.len(),
{
    if files.len() > 0 {
        law_copy_leaves_out(rules, files.drop_last(), i);
        match after_files(rules, files.drop_last()) {
            Ok(before) => {
                if let Ok(done) = after_files(rules, files) {
                    if 0 <= i < done.files.len() && emitted_js(ext_or_empty(done.files[i])) {
                        if i < before.files.len() {
                            let k = choose|k: int|
                                0 <= k < before.nodes.len() && (#[trigger] before.nodes[k]).0
                                    == before.files[i];
                            assert(done.files[i] == before.files[i]);
                            assert(done.nodes[k] == before.nodes[k]);
                        } else {
                            assert(done.nodes[before.nodes.len() as int].0 == done.files[i]);
                        }
                    }
                }
            },
            Err(_) => {},
        }
    }
}

/// A file is left to a build step by the `_` in front of its name or by its extension, in any case:
/// TypeScript, SCSS and Tera sources; no other file is.
pub proof fn law_left_to_a_step(rel: Seq<char>, stem: Seq<char>, ext: Seq<char>)
    requires
        name_of(rel) == Some(stem + "."@ + ext),
        stem.len() > 0,
        !ext.contains('.'),
    ensures
        skipped(rel) <==> stem[0] == '_' || lowered(ext) == "ts"@ || lowered(ext) == "tsx"@
            || lowered(ext) == "mts"@ || lowered(ext) == "scss"@ || lowered(ext) == "tera"@,
        emitted_js(ext_or_empty(rel)) <==> lowered(ext) == "js"@ || lowered(ext) == "mjs"@,
{
    reveal_strlit("_");
    path::law_extension(stem, ext, stem);
    let name = stem + "."@ + ext;
    assert(name.subrange(0, 1)[0] == stem[0]);
    if stem[0] == '_' {
        assert(name.subrange(0, 1) =~= "_"@);
    }
}

/// Every file that the rules let through and no step takes is copied, and what is copied is such a
/// file; the JavaScript among it has its record, and no other file has one.
pub proof fn law_what_is_copied(rules: Rules, files: Seq<SourceFile>)
    requires
        after_files(rules, files) is Ok,
    ensures
        ({
            let done = after_files(rules, files)->Ok_0;
            &&& forall|i: int|
                0 <= i < files.len() && !refuses_path(rules, (#[trigger] files[i]).rel@) && !skipped(
                    files[i].rel@,
                ) ==> done.files.contains(files[i].rel@)
            &&& forall|p: Seq<char>| #[trigger]
                done.files.contains(p) ==> !refuses_path(rules, p) && !skipped(p) && exists|i: int|
                    0 <= i < files.len() && (#[trigger] files[i]).rel@ == p
            &&& forall|k: int|
                0 <= k < done.nodes.len() ==> done.files.contains((#[trigger] done.nodes[k]).0)
                    && emitted_js(ext_or_empty(done.nodes[k].0))
        }),
    decreases files.len(),
{
    if files.len() > 0 {
        let front = files.drop_last();
        law_what_is_copied(rules, front);
        let before = after_files(rules, front)->Ok_0;
        let done = after_files(rules, files)->Ok_0;
        let last = files.last().rel@;
        assert forall|p: Seq<char>| before.files.contains(p) implies #[trigger] done.files.contains(
            p,
        ) by {
            let k = choose|k: int| 0 <= k < before.files.len() && before.files[k] == p;
            assert(done.files[k] == p);
        }
        assert forall|i: int|
            0 <= i < files.len() && !refuses_path(rules, (#[trigger] files[i]).rel@) && !skipped(
                files[i].rel@,
            ) implies done.files.contains(files[i].rel@) by {
            if i < front.len() {
                assert(front[i] == files[i]);
            } else {
                assert(done.files[before.files.len() as int] == last);
            }
        }
        assert forall|p: Seq<char>| #[trigger] done.files.contains(p) implies !refuses_path(rules, p)
            && !skipped(p) && exists|i: int|
            0 <= i < files.len() && (#[trigger] files[i]).rel@ == p by {
            let k = choose|k: int| 0 <= k < done.files.len() && done.files[k] == p;
            if k < before.files.len() {
                assert(before.files[k] == p);
                assert(before.files.contains(p));
                let i = choose|i: int| 0 <= i < front.len() && (#[trigger] front[i]).rel@ == p;
                assert(files[i].rel@ == p);
            } else {
                assert(files[files.len() - 1].rel@ == p);
            }
        }
        assert forall|k: int| 0 <= k < done.nodes.len() implies done.files.contains(
            (#[trigger] done.nodes[k]).0,
        ) && emitted_js(ext_or_empty(done.nodes[k].0)) by {
            if k < before.nodes.len() {
                assert(done.nodes[k] == before.nodes[k]);
                assert(before.files.contains(before.nodes[k].0));
            } else {
                assert(done.files[before.files.len() as int] == last);
            }
        }
    }
}

/// A JavaScript file that is no text, or that parses under no goal, is recorded without imports and
/// warned of by name; a module that does not parse is an error; otherwise its imports are recorded
/// and nothing is said.
pub proof fn law_records(rel: Seq<char>, js: Seq<char>)
    ensures
        recorded(rel, None) matches Ok((imports, warning)) && imports.len() == 0 && (
        warning matches Some(w) && text::has(w, rel)),
        ({
            let module_only = lowered(ext_or_empty(rel)) == "mjs"@;
            match source_reading(js, module_only) {
                Ok(reading) => recorded(rel, Some(js)) matches Ok((imports, warning)) && imports
                    == reading.imports && (reading.parsed <==> warning is None) && (
                warning matches Some(w) ==> text::has(w, rel)),
                Err(_) => recorded(rel, Some(js)) is Err,
            }
        }),
{
    lemma_named_in_warning(rel, "is not UTF-8 text"@);
    lemma_named_in_warning(rel, "does not parse as a module or classic script"@);
}

proof fn lemma_named_in_warning(rel: Seq<char>, reason: Seq<char>)
    ensures
        text::has(unvalidated(rel, reason), rel),
{
    let n = "web-modules: "@.len() as int;
    assert(unvalidated(rel, reason).subrange(n, n + rel.len()) =~= rel);
    assert(text::occurs_at(unvalidated(rel, reason), rel, n));
}

} // verus!
