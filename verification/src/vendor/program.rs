//! The program of a source dependency: which of its files are compiled, in what order
//! they are reached, and where their output goes.
//!
//! The root files that a config names are not the whole program: a file one of them
//! imports is in it too. So the roots are collected and then followed, which is also what
//! makes the emitted imports resolvable: a sibling skipped here would be removed with the
//! other sources and its importer left pointing at nothing.

use vstd::prelude::*;

use crate::error::{Error, Failure};
use crate::path;
use crate::path::{parts, Part};
use crate::sorted_map::{ByPath, SortedMap};
use crate::text;
use crate::text::{joined, opt_text, texts};
use crate::tsconfig::{inside, root_file, TsConfig};
use crate::vendor::keep;
use crate::vendor::keep::{commonjs_source, emitted_extension, typescript_source};

verus! {

// ---------------------------------------------------------------------------
// Relative imports
// ---------------------------------------------------------------------------

/// The names left of a path once `.` and `..` are resolved textually; nothing when it
/// climbs out or is absolute.
pub open spec fn resolved_names(list: Seq<Part>) -> Option<Seq<Seq<char>>>
    decreases list.len(),
{
    if list.len() == 0 {
        Some(Seq::empty())
    } else {
        match resolved_names(list.drop_last()) {
            None => None,
            Some(names) => match list.last() {
                Part::Here => Some(names),
                Part::Up => if names.len() > 0 {
                    Some(names.drop_last())
                } else {
                    None
                },
                Part::Name(name) => Some(names.push(name)),
                Part::Root => None,
            },
        }
    }
}

/// A path with `.` and `..` resolved textually.
pub open spec fn normalized(p: Seq<char>) -> Option<Seq<char>> {
    match resolved_names(parts(p)) {
        Some(names) => Some(joined(names, "/"@)),
        None => None,
    }
}

proof fn lemma_resolving_fails_for_good(list: Seq<Part>, i: int)
    requires
        0 <= i <= list.len(),
        resolved_names(list.take(i)) is None,
    ensures
        resolved_names(list) is None,
    decreases list.len(),
{
    if i == list.len() {
        assert(list.take(i) =~= list);
    } else {
        assert(list.drop_last().take(i) =~= list.take(i));
        lemma_resolving_fails_for_good(list.drop_last(), i);
    }
}

/// A relative path with `.` and `..` resolved textually, or `None` when it climbs out.
pub fn lexically_normalize(p: &str) -> (r: Option<String>)
    ensures
        opt_text(r) == normalized(p@),
{
    let list = path::components(p);
    let ghost all = path::views(list@);
    let mut names: Vec<String> = Vec::new();
    let mut i: usize = 0;
    assert(texts(names@) =~= Seq::<Seq<char>>::empty());
    while i < list.len()
        invariant
            i <= list@.len(),
            all == path::views(list@),
            all == parts(p@),
            resolved_names(all.take(i as int)) == Some(texts(names@)),
        decreases list@.len() - i,
    {
        proof {
            let grown = all.take(i + 1);
            assert(grown.drop_last() =~= all.take(i as int));
            assert(grown.last() == list@[i as int]@);
        }
        match &list[i] {
            path::Component::CurDir => {},
            path::Component::ParentDir => {
                let ghost before = names@;
                match names.pop() {
                    Some(_) => {
                        assert(texts(names@) =~= texts(before).drop_last());
                    },
                    None => {
                        proof {
                            lemma_resolving_fails_for_good(all, i + 1);
                        }
                        return None;
                    },
                }
            },
            path::Component::Normal(name) => {
                let copy = name.clone();
                proof {
                    text::lemma_texts_push(names@, copy);
                }
                names.push(copy);
            },
            path::Component::RootDir => {
                proof {
                    lemma_resolving_fails_for_good(all, i + 1);
                }
                return None;
            },
        }
        i += 1;
    }
    assert(all.take(list@.len() as int) =~= all);
    Some(text::join(&names, "/"))
}

spec fn as_names(names: Seq<Seq<char>>) -> Seq<Part> {
    Seq::new(names.len(), |i: int| Part::Name(names[i]))
}

proof fn lemma_resolved_proper(list: Seq<Part>)
    requires
        path::proper(list),
    ensures
        resolved_names(list) matches Some(names) ==> path::proper(as_names(names)),
    decreases list.len(),
{
    if list.len() > 0 && resolved_names(list) is Some {
        let front = list.drop_last();
        assert(path::proper(front)) by {
            assert forall|i: int| 0 <= i < front.len() implies match #[trigger] front[i] {
                Part::Root => i == 0,
                Part::Here => i == 0,
                Part::Up => true,
                Part::Name(name) => {
                    &&& name.len() > 0
                    &&& name != "."@
                    &&& name != ".."@
                    &&& !name.contains('/')
                },
            } by {
                assert(front[i] == list[i]);
            }
        }
        lemma_resolved_proper(front);
        let before = as_names(resolved_names(front)->Some_0);
        let after = as_names(resolved_names(list)->Some_0);
        let last = list[list.len() - 1];
        assert forall|i: int| 0 <= i < after.len() implies match #[trigger] after[i] {
            Part::Root => i == 0,
            Part::Here => i == 0,
            Part::Up => true,
            Part::Name(name) => {
                &&& name.len() > 0
                &&& name != "."@
                &&& name != ".."@
                &&& !name.contains('/')
            },
        } by {
            if i < before.len() {
                assert(after[i] == before[i]);
            } else {
                assert(after[i] == last);
            }
        }
    }
}

/// A path that resolves textually names something inside the directory it is read from.
pub proof fn law_normalized_stays_inside(p: Seq<char>)
    ensures
        normalized(p) matches Some(q) ==> inside(q),
{
    if normalized(p) is Some {
        path::lemma_parts_proper(p);
        lemma_resolved_proper(parts(p));
        let names = resolved_names(parts(p))->Some_0;
        let list = as_names(names);
        assert(path::part_texts(list) =~= names);
        assert(list != seq![Part::Root]) by {
            if list == seq![Part::Root] {
                assert(list[0] is Root);
            }
        }
        path::law_written_parts(list);
    }
}

/// The source extensions that an emitted extension is written by. The module format
/// travels with the extension both ways: `./foo.mjs` is written by `foo.mts`, and only by it.
pub open spec fn written_by(ext: Option<Seq<char>>) -> Seq<Seq<char>> {
    match ext {
        Some(e) => if e == "mjs"@ {
            seq!["mts"@]
        } else if e == "cjs"@ {
            seq!["cts"@]
        } else if e == "jsx"@ {
            seq!["tsx"@]
        } else if e == "js"@ {
            seq!["ts"@, "tsx"@]
        } else {
            Seq::empty()
        },
        None => Seq::empty(),
    }
}

/// `p` with its extension replaced.
pub open spec fn with_ext(p: Seq<char>, ext: Seq<char>) -> Seq<char> {
    path::retyped(p, ext)
}

/// The files that a package-relative path may stand for in an import, in the order they
/// are looked for: the source its extension maps back to, the source it lacks an
/// extension of, the index of the directory it names, and itself.
pub open spec fn file_candidates(rel: Seq<char>) -> Seq<Seq<char>> {
    let sources = written_by(path::extension_of(rel));
    Seq::new(sources.len(), |i: int| with_ext(rel, sources[i])) + seq![
        rel + ".ts"@,
        rel + ".tsx"@,
        path::under(rel, "index.ts"@),
        path::under(rel, "index.tsx"@),
        rel,
    ]
}

/// The files that a relative import may stand for; none for any other specifier, and none
/// for one that climbs out of the package.
pub open spec fn import_candidates(from: Seq<char>, specifier: Seq<char>) -> Seq<Seq<char>> {
    if !"./"@.is_prefix_of(specifier) && !"../"@.is_prefix_of(specifier) {
        Seq::empty()
    } else {
        let dir = match path::parent_of(from) {
            Some(dir) => dir,
            None => Seq::empty(),
        };
        match normalized(path::under(dir, specifier)) {
            Some(rel) => file_candidates(rel),
            None => Seq::empty(),
        }
    }
}

/// The source files that a relative import may name, in the order they are looked for.
///
/// TypeScript writes the *emitted* specifier in its sources (`./util.js` for `util.ts`),
/// so the extension is mapped back before looking, and a directory stands for its
/// `index`. A specifier that climbs out of the package names nothing.
pub fn candidates(from: &str, specifier: &str) -> (r: Vec<String>)
    ensures
        texts(r@) == import_candidates(from@, specifier@),
{
    let mut out: Vec<String> = Vec::new();
    if !text::starts_with(specifier, "./") && !text::starts_with(specifier, "../") {
        assert(texts(out@) =~= Seq::<Seq<char>>::empty());
        return out;
    }
    let dir = match path::parent(from) {
        Some(dir) => dir,
        None => String::new(),
    };
    let whole = path::join(dir.as_str(), specifier);
    let rel = match lexically_normalize(whole.as_str()) {
        Some(rel) => rel,
        None => {
            assert(texts(out@) =~= Seq::<Seq<char>>::empty());
            return out;
        },
    };
    let ghost sources = written_by(path::extension_of(rel@));
    match path::extension(rel.as_str()) {
        Some(ext) => {
            let e = ext.as_str();
            if text::same(e, "mjs") {
                out.push(path::with_extension(rel.as_str(), "mts"));
            } else if text::same(e, "cjs") {
                out.push(path::with_extension(rel.as_str(), "cts"));
            } else if text::same(e, "jsx") {
                out.push(path::with_extension(rel.as_str(), "tsx"));
            } else if text::same(e, "js") {
                out.push(path::with_extension(rel.as_str(), "ts"));
                out.push(path::with_extension(rel.as_str(), "tsx"));
            }
        },
        None => {},
    }
    assert(texts(out@) =~= Seq::new(sources.len(), |i: int| with_ext(rel@, sources[i])));
    out.push(rel.clone().concat(".ts"));
    out.push(rel.clone().concat(".tsx"));
    out.push(path::join(rel.as_str(), "index.ts"));
    out.push(path::join(rel.as_str(), "index.tsx"));
    out.push(rel);
    assert(texts(out@) =~= file_candidates(rel@));
    out
}

/// The first place at or after `i` that is set.
pub open spec fn first_set(present: Seq<bool>, i: int) -> Option<int>
    decreases present.len() - i,
{
    if i < 0 || i >= present.len() {
        None
    } else if present[i] {
        Some(i)
    } else {
        first_set(present, i + 1)
    }
}

/// The source file a relative import names, given which of its [`candidates`] the package
/// carries: the first of them.
pub fn resolve_relative_import(found: &Vec<String>, present: &Vec<bool>) -> (r: Option<String>)
    requires
        found@.len() == present@.len(),
    ensures
        opt_text(r) == (match first_set(present@, 0) {
            Some(i) => Some(found@[i]@),
            None => None,
        }),
{
    let mut i: usize = 0;
    while i < present.len()
        invariant
            i <= present@.len(),
            found@.len() == present@.len(),
            first_set(present@, 0) == first_set(present@, i as int),
        decreases present@.len() - i,
    {
        if present[i] {
            return Some(found[i].clone());
        }
        i += 1;
    }
    None
}

// ---------------------------------------------------------------------------
// Following the program
// ---------------------------------------------------------------------------

/// The program so far, as the contracts see it.
pub struct Progress {
    /// Files still to look at, in order.
    pub queue: Seq<Seq<char>>,
    /// Files looked at.
    pub seen: Set<Seq<Part>>,
    /// Compiled files, with their output.
    pub compiled: Map<Seq<Part>, String>,
    /// Files that are no TypeScript, and stay as they are.
    pub assets: Set<Seq<Part>>,
    /// The file being compiled.
    pub pending: Option<Seq<char>>,
}

/// The program of a source dependency, as far as it has been followed.
pub struct Program {
    queue: Vec<String>,
    seen: SortedMap<ByPath, ()>,
    compiled: SortedMap<ByPath, String>,
    assets: SortedMap<ByPath, ()>,
    pending: Option<String>,
    asked: Ghost<Set<Seq<Part>>>,
}

impl View for Program {
    type V = Progress;

    closed spec fn view(&self) -> Progress {
        Progress {
            queue: texts(self.queue@),
            seen: self.seen@.dom(),
            compiled: self.compiled@,
            assets: self.assets@.dom(),
            pending: opt_text(self.pending),
        }
    }
}

/// `p` waits in the queue.
pub open spec fn queued(queue: Seq<Seq<char>>, p: Seq<Part>) -> bool {
    exists|i: int| 0 <= i < queue.len() && parts(#[trigger] queue[i]) == p
}

/// Every file asked for is looked at or waits, and every file looked at is compiled, is
/// an asset, or is being compiled.
pub open spec fn followed(s: Progress, asked: Set<Seq<Part>>) -> bool {
    &&& forall|p: Seq<Part>| #[trigger] asked.contains(p) ==> s.seen.contains(p) || queued(s.queue, p)
    &&& forall|p: Seq<Part>| #[trigger]
        s.seen.contains(p) ==> s.compiled.contains_key(p) || s.assets.contains(p) || (
        s.pending matches Some(rel) && parts(rel) == p)
}

/// Where following the program leads next: past the files that were looked at before, and
/// past assets, to the next file to compile; refused at CommonJS source.
pub open spec fn advanced(s: Progress) -> Result<Progress, Seq<char>>
    decreases s.queue.len(),
{
    if s.queue.len() == 0 {
        Ok(Progress { pending: None, ..s })
    } else {
        let rel = s.queue[0];
        let rest = s.queue.drop_first();
        if s.seen.contains(parts(rel)) {
            advanced(Progress { queue: rest, ..s })
        } else if commonjs_source(rel) {
            Err(rel)
        } else if emitted_extension(rel) is None {
            advanced(
                Progress {
                    queue: rest,
                    seen: s.seen.insert(parts(rel)),
                    assets: s.assets.insert(parts(rel)),
                    ..s
                },
            )
        } else {
            Ok(
                Progress {
                    queue: rest,
                    seen: s.seen.insert(parts(rel)),
                    pending: Some(rel),
                    ..s
                },
            )
        }
    }
}

/// The files that the imports of a compiled file resolved to, in order.
pub open spec fn resolved(found: Seq<Option<String>>) -> Seq<Seq<char>>
    decreases found.len(),
{
    if found.len() == 0 {
        Seq::empty()
    } else {
        match found.last() {
            Some(next) => resolved(found.drop_last()).push(next@),
            None => resolved(found.drop_last()),
        }
    }
}

/// The first import, at or after place `i`, that still names a TypeScript path.
pub open spec fn first_typescript(imports: Seq<Seq<char>>, i: int) -> Option<int>
    decreases imports.len() - i,
{
    if i < 0 || i >= imports.len() {
        None
    } else if typescript_source(imports[i]) {
        Some(i)
    } else {
        first_typescript(imports, i + 1)
    }
}

/// The root files among the files a package carries, in order.
pub open spec fn roots_of(config: TsConfig, carried: Seq<Seq<char>>) -> Seq<Seq<char>>
    decreases carried.len(),
{
    if carried.len() == 0 {
        Seq::empty()
    } else {
        let front = roots_of(config, carried.drop_last());
        if root_file(config, carried.last()) {
            front.push(carried.last())
        } else {
            front
        }
    }
}

/// The root files among the files a package carries, in order.
fn root_files(config: &TsConfig, carried: &Vec<String>) -> (r: Vec<String>)
    ensures
        texts(r@) == roots_of(*config, texts(carried@)),
{
    let ghost all = texts(carried@);
    let mut out: Vec<String> = Vec::new();
    let mut i: usize = 0;
    assert(texts(out@) =~= roots_of(*config, all.take(0)));
    while i < carried.len()
        invariant
            i <= carried@.len(),
            all == texts(carried@),
            texts(out@) == roots_of(*config, all.take(i as int)),
        decreases carried@.len() - i,
    {
        proof {
            let grown = all.take(i + 1);
            assert(grown.drop_last() =~= all.take(i as int));
            assert(grown.last() == carried@[i as int]@);
        }
        if config.is_root_file(carried[i].as_str()) {
            let copy = carried[i].clone();
            proof {
                text::lemma_texts_push(out@, copy);
            }
            out.push(copy);
        }
        i += 1;
    }
    assert(all.take(carried@.len() as int) =~= all);
    out
}

/// What is said of CommonJS source in a program.
pub open spec fn commonjs_message(package: Seq<char>, rel: Seq<char>) -> Seq<char> {
    package + ": `"@ + rel + "` is CommonJS source, which this compiler does not convert"@
}

/// What is said of an emitted import that names a TypeScript path.
pub open spec fn typescript_message(
    package: Seq<char>,
    rel: Seq<char>,
    specifier: Seq<char>,
) -> Seq<char> {
    package + ": "@ + rel + " imports `"@ + specifier
        + "`, a TypeScript path that does not survive compiling — the package needs `rewriteRelativeImportExtensions`"@
}

impl Program {
    /// Every file that was ever asked for.
    pub closed spec fn asked(self) -> Set<Seq<Part>> {
        self.asked@
    }

    #[verifier::type_invariant]
    spec fn well_formed(self) -> bool {
        followed(self@, self.asked@)
    }

    /// The program before anything was followed: the root files among the files that the
    /// package carries wait to be looked at.
    pub fn start(config: &TsConfig, carried: &Vec<String>) -> (r: Self)
        ensures
            r@ == (Progress {
                queue: roots_of(*config, texts(carried@)),
                seen: Set::empty(),
                compiled: Map::empty(),
                assets: Set::empty(),
                pending: None,
            }),
            r.asked() == Set::new(|p: Seq<Part>| queued(roots_of(*config, texts(carried@)), p)),
    {
        let queue = root_files(config, carried);
        let asked: Ghost<Set<Seq<Part>>> = Ghost(
            Set::new(|p: Seq<Part>| queued(texts(queue@), p)),
        );
        let seen: SortedMap<ByPath, ()> = SortedMap::new();
        let compiled: SortedMap<ByPath, String> = SortedMap::new();
        let assets: SortedMap<ByPath, ()> = SortedMap::new();
        assert(seen@.dom() =~= Set::<Seq<Part>>::empty());
        assert(assets@.dom() =~= Set::<Seq<Part>>::empty());
        Program { queue, seen, compiled, assets, pending: None, asked }
    }

    /// Follow the program to the next file to compile: it is then the
    /// [`pending`](Self::pending) one, and none is when the whole program was followed.
    pub fn advance(self, package: &str) -> (r: Result<Self, Error>)
        requires
            self@.pending is None,
        ensures
            match r {
                Ok(next) => advanced(self@) == Ok::<Progress, Seq<char>>(next@) && next.asked()
                    == self.asked(),
                Err(e) => advanced(self@) matches Err(rel) && e@ == Failure::Vendor(
                    commonjs_message(package@, rel),
                ),
            },
    {
        proof {
            use_type_invariant(&self);
        }
        let ghost start = self@;
        let Program { queue, mut seen, compiled, mut assets, pending, asked } = self;
        let ghost all = texts(queue@);
        let mut i: usize = 0;
        assert(all.skip(0) =~= all);
        let ghost mut now = start;
        while i < queue.len()
            invariant
                i <= queue@.len(),
                all == texts(queue@),
                pending is None,
                start == self@,
                asked@ == self.asked(),
                now == (Progress {
                    queue: all.skip(i as int),
                    seen: seen@.dom(),
                    compiled: compiled@,
                    assets: assets@.dom(),
                    pending: None,
                }),
                followed(now, asked@),
                advanced(start) == advanced(now),
            decreases queue@.len() - i,
        {
            let rel = queue[i].as_str();
            proof {
                assert(all.skip(i as int)[0] == rel@);
                assert(all.skip(i as int).drop_first() =~= all.skip(i + 1));
                let q = all.skip(i as int);
                assert forall|p: Seq<Part>| queued(q, p) implies parts(rel@) == p || queued(
                    q.drop_first(),
                    p,
                ) by {
                    let k = choose|k: int| 0 <= k < q.len() && parts(#[trigger] q[k]) == p;
                    if k > 0 {
                        assert(q.drop_first()[k - 1] == q[k]);
                    }
                }
            }
            if !seen.contains_key(rel) {
                if keep::is_commonjs_source(rel) {
                    return Err(
                        Error::Vendor(
                            package.to_owned().concat(": `").concat(rel).concat(
                                "` is CommonJS source, which this compiler does not convert",
                            ),
                        ),
                    );
                }
                let ghost before = seen@;
                seen.insert(rel.to_owned(), ());
                assert(seen@.dom() =~= before.dom().insert(parts(rel@)));
                if keep::compiled_extension(rel).is_some() {
                    let mut rest: Vec<String> = Vec::new();
                    let mut k: usize = i + 1;
                    while k < queue.len()
                        invariant
                            i < k <= queue@.len(),
                            all == texts(queue@),
                            texts(rest@) == all.subrange(i + 1, k as int),
                        decreases queue@.len() - k,
                    {
                        let copy = queue[k].clone();
                        proof {
                            text::lemma_texts_push(rest@, copy);
                            assert(all.subrange(i + 1, k as int).push(all[k as int])
                                =~= all.subrange(i + 1, k + 1));
                        }
                        rest.push(copy);
                        k += 1;
                    }
                    assert(texts(rest@) =~= all.skip(i + 1));
                    return Ok(
                        Program {
                            queue: rest,
                            seen,
                            compiled,
                            assets,
                            pending: Some(rel.to_owned()),
                            asked,
                        },
                    );
                }
                let ghost held = assets@;
                assets.insert(rel.to_owned(), ());
                assert(assets@.dom() =~= held.dom().insert(parts(rel@)));
            }
            i += 1;
            proof {
                now = Progress {
                    queue: all.skip(i as int),
                    seen: seen@.dom(),
                    compiled: compiled@,
                    assets: assets@.dom(),
                    pending: None,
                };
            }
        }
        let none: Vec<String> = Vec::new();
        assert(texts(none@) =~= all.skip(queue@.len() as int));
        Ok(Program { queue: none, seen, compiled, assets, pending: None, asked })
    }

    /// The file to compile next, when there is one.
    pub fn pending(&self) -> (r: Option<&str>)
        ensures
            match r {
                Some(rel) => self@.pending == Some(rel@),
                None => self@.pending is None,
            },
    {
        match &self.pending {
            Some(rel) => Some(rel.as_str()),
            None => None,
        }
    }

    /// Record the output of the [`pending`](Self::pending) file: its code, the specifiers
    /// it imports, and the file of the package that each of those resolves to, if any.
    ///
    /// The sources are removed after compiling, so an emitted specifier still ending in a
    /// TypeScript extension resolves to nothing: it is refused.
    pub fn record(
        self,
        package: &str,
        code: String,
        imports: &Vec<String>,
        found: &Vec<Option<String>>,
    ) -> (r: Result<Self, Error>)
        requires
            self@.pending is Some,
        ensures
            match first_typescript(texts(imports@), 0) {
                Some(i) => r matches Err(e) && e@ == Failure::Vendor(
                    typescript_message(package@, self@.pending->Some_0, imports@[i]@),
                ),
                None => r matches Ok(next) && next@ == (Progress {
                    queue: self@.queue + resolved(found@),
                    compiled: self@.compiled.insert(parts(self@.pending->Some_0), code),
                    pending: None,
                    ..self@
                }) && next.asked() == self.asked().union(
                    Set::new(|p: Seq<Part>| queued(resolved(found@), p)),
                ),
            },
    {
        proof {
            use_type_invariant(&self);
        }
        let ghost start = self@;
        let Program { queue, seen, compiled, assets, pending, asked } = self;
        let rel = match pending {
            Some(rel) => rel,
            None => String::new(),
        };
        let mut i: usize = 0;
        while i < imports.len()
            invariant
                i <= imports@.len(),
                first_typescript(texts(imports@), 0) == first_typescript(
                    texts(imports@),
                    i as int,
                ),
                start == self@,
                start.pending == Some(rel@),
            decreases imports@.len() - i,
        {
            assert(texts(imports@)[i as int] == imports@[i as int]@);
            if keep::is_typescript_source(imports[i].as_str()) {
                return Err(
                    Error::Vendor(
                        package.to_owned().concat(": ").concat(rel.as_str()).concat(
                            " imports `",
                        ).concat(imports[i].as_str()).concat(
                            "`, a TypeScript path that does not survive compiling — the package needs `rewriteRelativeImportExtensions`",
                        ),
                    ),
                );
            }
            i += 1;
        }
        let mut queue = queue;
        let ghost waiting = texts(queue@);
        let mut k: usize = 0;
        assert(texts(queue@) =~= waiting + resolved(found@.take(0)));
        while k < found.len()
            invariant
                k <= found@.len(),
                texts(queue@) == waiting + resolved(found@.take(k as int)),
            decreases found@.len() - k,
        {
            proof {
                let grown = found@.take(k + 1);
                assert(grown.drop_last() =~= found@.take(k as int));
                assert(grown.last() == found@[k as int]);
            }
            if let Some(next) = &found[k] {
                let copy = next.clone();
                proof {
                    text::lemma_texts_push(queue@, copy);
                    assert((waiting + resolved(found@.take(k as int))).push(copy@) =~= waiting
                        + resolved(found@.take(k as int)).push(copy@));
                }
                queue.push(copy);
            }
            k += 1;
        }
        assert(found@.take(found@.len() as int) =~= found@);
        let mut compiled = compiled;
        compiled.insert(rel, code);
        let asked: Ghost<Set<Seq<Part>>> = Ghost(
            asked@.union(Set::new(|p: Seq<Part>| queued(resolved(found@), p))),
        );
        proof {
            let after = Progress {
                queue: texts(queue@),
                seen: seen@.dom(),
                compiled: compiled@,
                assets: assets@.dom(),
                pending: None,
            };
            assert forall|p: Seq<Part>| #[trigger] asked@.contains(p) implies after.seen.contains(p)
                || queued(after.queue, p) by {
                if queued(waiting, p) {
                    let n = choose|n: int| 0 <= n < waiting.len() && parts(#[trigger] waiting[n])
                        == p;
                    assert(after.queue[n] == waiting[n]);
                }
                if queued(resolved(found@), p) {
                    let n = choose|n: int|
                        0 <= n < resolved(found@).len() && parts(#[trigger] resolved(found@)[n])
                            == p;
                    assert(after.queue[waiting.len() + n] == resolved(found@)[n]);
                }
            }
            assert(followed(after, asked@));
        }
        Ok(Program { queue, seen, compiled, assets, pending: None, asked })
    }

    /// Once the whole program was followed, every file that was ever asked for is compiled
    /// or is an asset: no emitted import is left pointing at a file that was skipped.
    pub fn is_closed(&self) -> (r: bool)
        ensures
            r == (self@.pending is None && self@.queue.len() == 0),
            r ==> forall|p: Seq<Part>| #[trigger]
                self.asked().contains(p) ==> self@.compiled.contains_key(p)
                    || self@.assets.contains(p),
    {
        proof {
            use_type_invariant(self);
        }
        self.pending.is_none() && self.queue.len() == 0
    }

    /// The compiled files and their output, in path order.
    pub fn outputs(&self) -> (r: &Vec<(String, String)>)
        ensures
            crate::sorted_map::ascending::<ByPath, String>(r@),
            crate::sorted_map::map_of::<ByPath, String>(r@) == self@.compiled,
    {
        self.compiled.entries()
    }

    /// The assets, in path order.
    pub fn assets(&self) -> (r: &Vec<(String, ())>)
        ensures
            crate::sorted_map::ascending::<ByPath, ()>(r@),
            crate::sorted_map::map_of::<ByPath, ()>(r@).dom() == self@.assets,
    {
        self.assets.entries()
    }
}

/// What a relative import may name, in order: behind what its extension maps back to come the
/// resolved path with `.ts` and with `.tsx`, the index of the directory it names, and the path
/// itself, with or without an extension.
pub proof fn law_index_is_a_candidate(from: Seq<char>, specifier: Seq<char>, p: Seq<char>)
    requires
        "./"@.is_prefix_of(specifier) || "../"@.is_prefix_of(specifier),
        normalized(
            path::under(
                match path::parent_of(from) {
                    Some(dir) => dir,
                    None => Seq::empty(),
                },
                specifier,
            ),
        ) == Some(p),
    ensures
        ({
            let found = import_candidates(from, specifier);
            let n = found.len() as int;
            &&& n >= 5
            &&& found[n - 5] == p + ".ts"@
            &&& found[n - 4] == p + ".tsx"@
            &&& p.len() > 0 ==> found[n - 3] == p + "/index.ts"@
            &&& p.len() > 0 ==> found[n - 2] == p + "/index.tsx"@
            &&& p.len() == 0 ==> found[n - 3] == "index.ts"@ && found[n - 2] == "index.tsx"@
            &&& found[n - 1] == p
        }),
{
    reveal_strlit("/");
    reveal_strlit("index.ts");
    reveal_strlit("index.tsx");
    reveal_strlit("/index.ts");
    reveal_strlit("/index.tsx");
    law_normalized_stays_inside(
        path::under(
            match path::parent_of(from) {
                Some(dir) => dir,
                None => Seq::empty(),
            },
            specifier,
        ),
    );
    lemma_inside_ends_in_a_name(
        path::under(
            match path::parent_of(from) {
                Some(dir) => dir,
                None => Seq::empty(),
            },
            specifier,
        ),
    );
    if p.len() > 0 {
        assert(path::under(p, "index.ts"@) =~= p + "/index.ts"@);
        assert(path::under(p, "index.tsx"@) =~= p + "/index.tsx"@);
    } else {
        assert(path::under(p, "index.ts"@) =~= "index.ts"@);
        assert(path::under(p, "index.tsx"@) =~= "index.tsx"@);
    }
}

/// A path that resolves textually does not end in a slash.
proof fn lemma_inside_ends_in_a_name(whole: Seq<char>)
    ensures
        normalized(whole) matches Some(p) ==> p.len() == 0 || p.last() != '/',
{
    if normalized(whole) is Some {
        reveal_strlit("/");
        path::lemma_parts_proper(whole);
        lemma_resolved_proper(parts(whole));
        let names = resolved_names(parts(whole))->Some_0;
        let p = joined(names, "/"@);
        if names.len() > 0 {
            let last = names.last();
            assert(as_names(names)[names.len() - 1] == Part::Name(last));
            assert(last.len() > 0 && !last.contains('/'));
            assert(p.last() == last.last());
            assert(last.contains(last.last()));
        }
    }
}

/// TypeScript writes the emitted specifier in its sources: an import of `x.js` looks for `x.ts` and
/// `x.tsx` first, `x.mjs` for `x.mts`, `x.cjs` for `x.cts` and `x.jsx` for `x.tsx`, and for no other
/// source before the five that every import looks for.
pub proof fn law_emitted_extension_maps_back(
    from: Seq<char>,
    specifier: Seq<char>,
    p: Seq<char>,
)
    requires
        "./"@.is_prefix_of(specifier) || "../"@.is_prefix_of(specifier),
        normalized(
            path::under(
                match path::parent_of(from) {
                    Some(dir) => dir,
                    None => Seq::empty(),
                },
                specifier,
            ),
        ) == Some(p),
    ensures
        ({
            let found = import_candidates(from, specifier);
            let ext = path::extension_of(p);
            &&& ext == Some("js"@) ==> found.len() == 7 && found[0] == path::retyped(p, "ts"@)
                && found[1] == path::retyped(p, "tsx"@)
            &&& ext == Some("mjs"@) ==> found.len() == 6 && found[0] == path::retyped(p, "mts"@)
            &&& ext == Some("cjs"@) ==> found.len() == 6 && found[0] == path::retyped(p, "cts"@)
            &&& ext == Some("jsx"@) ==> found.len() == 6 && found[0] == path::retyped(p, "tsx"@)
            &&& ext != Some("js"@) && ext != Some("mjs"@) && ext != Some("cjs"@) && ext != Some(
                "jsx"@,
            ) ==> found.len() == 5
        }),
{
    reveal_strlit("js");
    reveal_strlit("mjs");
    reveal_strlit("cjs");
    reveal_strlit("jsx");
    assert("js"@.len() == 2);
    assert("mjs"@[0] == 'm' && "cjs"@[0] == 'c' && "jsx"@[0] == 'j');
}

/// An import that is not relative names no file of the package.
pub proof fn law_only_relative_imports_have_candidates(from: Seq<char>, specifier: Seq<char>)
    requires
        !"./"@.is_prefix_of(specifier),
        !"../"@.is_prefix_of(specifier),
    ensures
        import_candidates(from, specifier).len() == 0,
{
}

/// Resolving goes component by component: a name is entered, `.` stays, `..` leaves the last name
/// and fails where there is none, and a root fails; and what failed stays failed.
pub proof fn law_resolving(list: Seq<Part>, name: Seq<char>)
    ensures
        resolved_names(Seq::<Part>::empty()) == Some(Seq::<Seq<char>>::empty()),
        resolved_names(list.push(Part::Here)) == resolved_names(list),
        resolved_names(list.push(Part::Root)) is None,
        resolved_names(list) is None ==> resolved_names(list.push(Part::Name(name))) is None
            && resolved_names(list.push(Part::Up)) is None,
        resolved_names(list) matches Some(names) ==> resolved_names(list.push(Part::Name(name)))
            == Some(names.push(name)),
        resolved_names(list) is Some ==> resolved_names(
            list.push(Part::Name(name)).push(Part::Up),
        ) == resolved_names(list),
        resolved_names(list) == Some(Seq::<Seq<char>>::empty()) ==> resolved_names(
            list.push(Part::Up),
        ) is None,
{
    assert(list.push(Part::Here).drop_last() =~= list);
    assert(list.push(Part::Root).drop_last() =~= list);
    assert(list.push(Part::Up).drop_last() =~= list);
    let named = list.push(Part::Name(name));
    assert(named.drop_last() =~= list);
    assert(named.push(Part::Up).drop_last() =~= named);
    if let Some(names) = resolved_names(list) {
        assert(names.push(name).drop_last() =~= names);
    }
}

/// The first candidate that the package carries is taken: it is carried, none before it is, and
/// there is none exactly when none is carried.
pub proof fn law_first_set(present: Seq<bool>, i: int)
    requires
        0 <= i,
    ensures
        match first_set(present, i) {
            Some(k) => i <= k < present.len() && present[k] && forall|j: int|
                i <= j < k ==> !#[trigger] present[j],
            None => forall|j: int| i <= j < present.len() ==> !#[trigger] present[j],
        },
    decreases present.len() - i,
{
    if i < present.len() && !present[i] {
        law_first_set(present, i + 1);
    }
}

/// The files looked for first are the package's own root files, in order, and no other.
pub proof fn law_roots(config: TsConfig, carried: Seq<Seq<char>>, p: Seq<char>)
    ensures
        roots_of(config, carried).contains(p) <==> carried.contains(p) && root_file(config, p),
    decreases carried.len(),
{
    if carried.len() > 0 {
        let front = carried.drop_last();
        law_roots(config, front, p);
        let before = roots_of(config, front);
        let all = roots_of(config, carried);
        if all.contains(p) {
            let k = choose|k: int| 0 <= k < all.len() && all[k] == p;
            if k < before.len() {
                assert(before[k] == p);
                let i = choose|i: int| 0 <= i < front.len() && front[i] == p;
                assert(carried[i] == p);
            } else {
                assert(carried[carried.len() - 1] == p);
            }
        }
        if carried.contains(p) && root_file(config, p) {
            let i = choose|i: int| 0 <= i < carried.len() && carried[i] == p;
            if i < front.len() {
                assert(front[i] == p);
                let k = choose|k: int| 0 <= k < before.len() && before[k] == p;
                assert(all[k] == p);
            } else {
                assert(all[before.len() as int] == p);
            }
        }
    }
}

/// Following goes to the first file in the queue that was not looked at: CommonJS source is refused,
/// any other source is compiled next, and an asset is noted and passed.
pub proof fn law_following(s: Progress, rel: Seq<char>, rest: Seq<Seq<char>>)
    requires
        s.queue == seq![rel] + rest,
    ensures
        s.seen.contains(parts(rel)) ==> advanced(s) == advanced(Progress { queue: rest, ..s }),
        !s.seen.contains(parts(rel)) && commonjs_source(rel) ==> advanced(s) == Err::<
            Progress,
            Seq<char>,
        >(rel),
        !s.seen.contains(parts(rel)) && !commonjs_source(rel) && emitted_extension(rel) is Some ==> (
        advanced(s) matches Ok(next) && next.pending == Some(rel) && next.queue == rest && next.seen
            == s.seen.insert(parts(rel)) && next.assets == s.assets && next.compiled == s.compiled),
        !s.seen.contains(parts(rel)) && !commonjs_source(rel) && emitted_extension(rel) is None
            ==> advanced(s) == advanced(
            Progress {
                queue: rest,
                seen: s.seen.insert(parts(rel)),
                assets: s.assets.insert(parts(rel)),
                ..s
            },
        ),
{
    assert(s.queue.drop_first() =~= rest);
}

/// Following an empty queue leaves nothing to compile, and following never touches what is compiled.
pub proof fn law_following_compiles_nothing(s: Progress)
    ensures
        s.queue.len() == 0 ==> (advanced(s) matches Ok(next) && next.pending is None && next.seen
            == s.seen && next.assets == s.assets),
        advanced(s) matches Ok(next) ==> next.compiled == s.compiled && (next.pending is None
            ==> next.queue.len() == 0) && s.seen.subset_of(next.seen) && s.assets.subset_of(
            next.assets,
        ),
    decreases s.queue.len(),
{
    if s.queue.len() > 0 {
        let rel = s.queue[0];
        let rest = s.queue.drop_first();
        if s.seen.contains(parts(rel)) {
            law_following_compiles_nothing(Progress { queue: rest, ..s });
        } else if !commonjs_source(rel) && emitted_extension(rel) is None {
            law_following_compiles_nothing(
                Progress {
                    queue: rest,
                    seen: s.seen.insert(parts(rel)),
                    assets: s.assets.insert(parts(rel)),
                    ..s
                },
            );
        }
    }
}

/// Each import that resolved is followed, in order, and no other.
pub proof fn law_resolved_imports(found: Seq<Option<String>>, next: String)
    ensures
        resolved(Seq::empty()).len() == 0,
        resolved(found.push(Some(next))) == resolved(found).push(next@),
        resolved(found.push(None)) == resolved(found),
{
    assert(found.push(Some(next)).drop_last() =~= found);
    assert(found.push(None).drop_last() =~= found);
}

/// The first import that still names TypeScript is the one reported, and there is none exactly when
/// no import does.
pub proof fn law_first_typescript_import(imports: Seq<Seq<char>>, i: int)
    requires
        0 <= i,
    ensures
        match first_typescript(imports, i) {
            Some(k) => i <= k < imports.len() && typescript_source(imports[k]) && forall|j: int|
                i <= j < k ==> !typescript_source(#[trigger] imports[j]),
            None => forall|j: int| i <= j < imports.len() ==> !typescript_source(#[trigger] imports[j]),
        },
    decreases imports.len() - i,
{
    if i < imports.len() && !typescript_source(imports[i]) {
        law_first_typescript_import(imports, i + 1);
    }
}

} // verus!
