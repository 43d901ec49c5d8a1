//! The module graph: which module specifiers each emitted file imports.
//!
//! Produced where each file is handled, so a build never re-reads the output tree to
//! reconstruct it. Specifiers are read structurally, from a parse, which is
//! spacing-agnostic and takes no `import`/`from` text inside comments or strings for an
//! import.
//!
//! Scope: the graph describes the JavaScript emitted by the TypeScript transform and
//! the static-copy stages, after their overwrite precedence is applied: a later record
//! for the same output path replaces the earlier one exactly as the later write
//! overwrites the file.

use oxc_allocator::Allocator;
use oxc_parser::Parser;
use oxc_span::SourceType;
use vstd::prelude::*;

use crate::importmap::{resolvable, Importmap};
use crate::path::{parts, Part};
use crate::sorted_map::{
    ascending, lemma_listing, listing, map_of, ordered, table, ByPath, KeyOrder, SortedMap,
};
use crate::text;
use crate::text::{find_from, opt_text, pairs, texts};

verus! {

/// The npm package the transform imports its runtime helpers from.
pub const RUNTIME_MODULE: &'static str = "@oxc-project/runtime";

/// How a specifier is referenced: enough to tell a transform-runtime import and a
/// dynamic `import()` apart from an ordinary static application import.
#[derive(Clone, Copy, Debug, PartialEq, Eq, Structural)]
pub enum SpecifierKind {
    /// A static `import` / `export … from`.
    Static,
    /// A dynamic `import()` call.
    Dynamic,
    /// A static import under `@oxc-project/runtime/`, the package the transform
    /// injects its helpers from. Classified by prefix: a hand-written import of the
    /// same package is indistinguishable from an injected one, and both need the
    /// package vendored.
    OxcRuntime,
}

/// One module specifier a file references, with how it is referenced.
#[derive(Clone, Debug, PartialEq, Eq)]
pub struct ModuleImport {
    pub specifier: String,
    pub kind: SpecifierKind,
}

/// A reference, as the contracts see it.
pub struct Reference {
    pub specifier: Seq<char>,
    pub kind: SpecifierKind,
}

impl View for ModuleImport {
    type V = Reference;

    open spec fn view(&self) -> Reference {
        Reference { specifier: self.specifier@, kind: self.kind }
    }
}

/// The contents of a list of imports.
pub open spec fn references(list: Seq<ModuleImport>) -> Seq<Reference> {
    Seq::new(list.len(), |i: int| list[i]@)
}

proof fn lemma_references_push(list: Seq<ModuleImport>, import: ModuleImport)
    ensures
        references(list.push(import)) == references(list).push(import@),
{
    assert(references(list.push(import)) =~= references(list).push(import@));
}

/// A specifier of the transform's runtime package.
pub open spec fn runtime_import(spec: Seq<char>) -> bool {
    spec == RUNTIME_MODULE@ || (RUNTIME_MODULE@ + "/"@).is_prefix_of(spec)
}

/// A *bare* specifier (resolved via the import map): no relative, absolute or URL one.
pub open spec fn bare(spec: Seq<char>) -> bool {
    !("."@.is_prefix_of(spec) || "/"@.is_prefix_of(spec) || text::has(spec, "://"@)
        || "data:"@.is_prefix_of(spec))
}

/// The reference that a specifier makes, dynamically or statically.
pub open spec fn referenced(specifier: Seq<char>, dynamic: bool) -> Reference {
    Reference {
        specifier,
        kind: if dynamic {
            SpecifierKind::Dynamic
        } else if runtime_import(specifier) {
            SpecifierKind::OxcRuntime
        } else {
            SpecifierKind::Static
        },
    }
}

/// A *bare* specifier (resolved via the import map), not a relative / absolute / URL one.
pub fn is_bare(spec: &str) -> (r: bool)
    ensures
        r == bare(spec@),
{
    !(text::starts_with(spec, ".") || text::starts_with(spec, "/") || text::contains(spec, "://")
        || text::starts_with(spec, "data:"))
}

/// Whether a specifier is of the transform's runtime package.
pub fn is_runtime_import(spec: &str) -> (r: bool)
    ensures
        r == runtime_import(spec@),
{
    text::same(spec, RUNTIME_MODULE) || text::starts_with(
        spec,
        RUNTIME_MODULE.to_owned().concat("/").as_str(),
    )
}

impl ModuleImport {
    /// The import of `specifier`, classified.
    pub fn new(specifier: &str, dynamic: bool) -> (r: Self)
        ensures
            r@ == referenced(specifier@, dynamic),
    {
        let kind = if dynamic {
            SpecifierKind::Dynamic
        } else if is_runtime_import(specifier) {
            SpecifierKind::OxcRuntime
        } else {
            SpecifierKind::Static
        };
        ModuleImport { specifier: specifier.to_owned(), kind }
    }
}

/// One emitted file and the specifiers it imports, keyed by its output-relative path.
#[derive(Clone, Debug, PartialEq, Eq)]
pub struct ModuleNode {
    pub path: String,
    pub imports: Vec<ModuleImport>,
}

/// The imports of the emitted (non-vendored) modules, keyed by output-relative path.
/// Assembled during the build from the transform and the static-file copy, then used to
/// decide runtime-helper vendoring and to verify that every bare import resolves.
///
/// One record per output path: recording a path again replaces the earlier entry, the
/// way the corresponding write overwrites the file.
#[derive(Debug, PartialEq, Eq)]
pub struct ModuleGraph {
    nodes: SortedMap<ByPath, ModuleNode>,
}

/// One file of a graph, as the contracts see it: its path as it was spelled when it was first
/// recorded, and its imports.
pub struct Noted {
    pub path: Seq<char>,
    pub imports: Seq<Reference>,
}

impl View for ModuleNode {
    type V = Noted;

    open spec fn view(&self) -> Noted {
        Noted { path: self.path@, imports: references(self.imports@) }
    }
}

impl View for ModuleGraph {
    type V = Map<Seq<Part>, Noted>;

    closed spec fn view(&self) -> Map<Seq<Part>, Noted> {
        self.nodes@.map_values(|node: ModuleNode| node@)
    }
}

/// The graph after recording one file. A file that is there keeps its spelling, and its imports
/// are replaced.
pub open spec fn noting(
    graph: Map<Seq<Part>, Noted>,
    path: Seq<char>,
    imports: Seq<Reference>,
) -> Map<Seq<Part>, Noted> {
    let spelled = if graph.contains_key(parts(path)) {
        graph[parts(path)].path
    } else {
        path
    };
    graph.insert(parts(path), Noted { path: spelled, imports })
}

/// The graph after recording a list of nodes, in order.
pub open spec fn recorded(
    graph: Map<Seq<Part>, Noted>,
    nodes: Seq<ModuleNode>,
) -> Map<Seq<Part>, Noted>
    decreases nodes.len(),
{
    if nodes.len() == 0 {
        graph
    } else {
        noting(
            recorded(graph, nodes.drop_last()),
            nodes.last().path@,
            references(nodes.last().imports@),
        )
    }
}

/// Some file of the graph imports the transform runtime.
pub open spec fn needs_runtime(graph: Map<Seq<Part>, Noted>) -> bool {
    exists|p: Seq<Part>, i: int|
        graph.contains_key(p) && 0 <= i < graph[p].imports.len() && (
        #[trigger] graph[p].imports[i]).kind == SpecifierKind::OxcRuntime
}

/// A reference that the import map owes an answer to and has none for.
pub open spec fn dangling(map: Map<Seq<char>, Seq<char>>, r: Reference) -> bool {
    bare(r.specifier) && !resolvable(map, r.specifier)
}

/// The dangling references of one file, as `(file, specifier)`.
pub open spec fn file_dangling(
    map: Map<Seq<char>, Seq<char>>,
    file: Seq<char>,
    list: Seq<Reference>,
) -> Seq<(Seq<char>, Seq<char>)>
    decreases list.len(),
{
    if list.len() == 0 {
        Seq::empty()
    } else {
        let front = file_dangling(map, file, list.drop_last());
        if dangling(map, list.last()) {
            front.push((file, list.last().specifier))
        } else {
            front
        }
    }
}

/// The dangling references of a list of files, file by file.
pub open spec fn all_dangling(
    map: Map<Seq<char>, Seq<char>>,
    files: Seq<(Seq<Part>, Noted)>,
) -> Seq<(Seq<char>, Seq<char>)>
    decreases files.len(),
{
    if files.len() == 0 {
        Seq::empty()
    } else {
        all_dangling(map, files.drop_last()) + file_dangling(
            map,
            files.last().1.path,
            files.last().1.imports,
        )
    }
}

/// The files of the graph, seen as references, behind the entries of its map.
spec fn shown_nodes(entries: Seq<(String, ModuleNode)>) -> Seq<(Seq<Part>, Noted)> {
    Seq::new(entries.len(), |i: int| (parts(entries[i].0@), entries[i].1@))
}

proof fn lemma_shown_nodes(entries: Seq<(String, ModuleNode)>)
    requires
        ascending::<ByPath, ModuleNode>(entries),
    ensures
        ordered::<ByPath, Noted>(shown_nodes(entries)),
        table::<ByPath, Noted>(shown_nodes(entries)) == map_of::<ByPath, ModuleNode>(entries).map_values(|node: ModuleNode| node@),
    decreases entries.len(),
{
    let list = shown_nodes(entries);
    assert forall|i: int, j: int| 0 <= i < j < list.len() implies ByPath::lt(
        (#[trigger] list[i]).0,
        (#[trigger] list[j]).0,
    ) by {
        assert(ByPath::lt(ByPath::key(entries[i].0@), ByPath::key(entries[j].0@)));
    }
    if entries.len() == 0 {
        assert(table::<ByPath, Noted>(list) =~= map_of::<ByPath, ModuleNode>(
            entries,
        ).map_values(|node: ModuleNode| node@));
    } else {
        let front = entries.drop_last();
        assert(ascending::<ByPath, ModuleNode>(front)) by {
            assert forall|i: int, j: int| 0 <= i < j < front.len() implies ByPath::lt(
                ByPath::key((#[trigger] front[i]).0@),
                ByPath::key((#[trigger] front[j]).0@),
            ) by {
                assert(front[i] == entries[i]);
                assert(front[j] == entries[j]);
            }
        }
        lemma_shown_nodes(front);
        assert(list.drop_last() =~= shown_nodes(front));
        assert(map_of::<ByPath, ModuleNode>(entries).map_values(
            |node: ModuleNode| node@,
        ) =~= map_of::<ByPath, ModuleNode>(front).map_values(
            |node: ModuleNode| node@,
        ).insert(parts(entries.last().0@), entries.last().1@));
    }
}

impl Default for ModuleGraph {
    fn default() -> (r: Self)
        ensures
            r@ == Map::<Seq<Part>, Noted>::empty(),
    {
        Self::new()
    }
}

impl ModuleGraph {
    /// A graph without records.
    pub fn new() -> (r: Self)
        ensures
            r@ == Map::<Seq<Part>, Noted>::empty(),
    {
        let r = ModuleGraph { nodes: SortedMap::new() };
        assert(r@ =~= Map::<Seq<Part>, Noted>::empty());
        r
    }

    /// Record a file's imports under its output-relative path, replacing any earlier
    /// record for the same path: the last write wins, as on the filesystem.
    pub fn insert(&mut self, path: &str, imports: Vec<ModuleImport>)
        ensures
            final(self)@ == noting(old(self)@, path@, references(imports@)),
    {
        let ghost before = self@;
        let spelled = match self.nodes.get(path) {
            Some(node) => node.path.clone(),
            None => path.to_owned(),
        };
        let node = ModuleNode { path: spelled, imports };
        self.nodes.insert(path.to_owned(), node);
        assert(self@ =~= noting(before, path@, references(imports@)));
    }

    /// [`insert`](Self::insert) every node, in order: later nodes replace earlier
    /// same-path ones.
    pub fn extend(&mut self, nodes: Vec<ModuleNode>)
        ensures
            final(self)@ == recorded(old(self)@, nodes@),
    {
        let ghost all = nodes@;
        let ghost before = self@;
        for node in it: nodes
            invariant
                it.seq() == all,
                self@ == recorded(before, all.take(it.index())),
        {
            proof {
                let i = it.index();
                let grown = all.take(i + 1);
                assert(grown.drop_last() =~= all.take(i));
                assert(grown.last() == node);
            }
            self.insert(node.path.as_str(), node.imports);
        }
        assert(all.take(all.len() as int) =~= all);
    }

    /// Whether any emitted module imports the transform runtime: the signal to
    /// vendor `@oxc-project/runtime`.
    pub fn uses_runtime_helpers(&self) -> (r: bool)
        ensures
            r == needs_runtime(self@),
    {
        let entries = self.nodes.entries();
        proof {
            crate::sorted_map::lemma_map_of::<ByPath, ModuleNode>(entries@);
        }
        let mut i: usize = 0;
        while i < entries.len()
            invariant
                i <= entries@.len(),
                ascending::<ByPath, ModuleNode>(entries@),
                self.nodes@ == map_of::<ByPath, ModuleNode>(entries@),
                forall|k: int|
                    0 <= k < entries@.len() ==> self.nodes@.contains_key(
                        parts((#[trigger] entries@[k]).0@),
                    ) && self.nodes@[parts(entries@[k].0@)] == entries@[k].1,
                forall|k: int, m: int|
                    0 <= k < i && 0 <= m < entries@[k].1.imports@.len() ==> (
                    #[trigger] entries@[k].1.imports@[m]).kind != SpecifierKind::OxcRuntime,
            decreases entries@.len() - i,
        {
            let imports = &entries[i].1.imports;
            let mut j: usize = 0;
            while j < imports.len()
                invariant
                    i < entries@.len(),
                    imports == entries@[i as int].1.imports,
                    j <= imports@.len(),
                    forall|k: int|
                        0 <= k < entries@.len() ==> self.nodes@.contains_key(
                            parts((#[trigger] entries@[k]).0@),
                        ) && self.nodes@[parts(entries@[k].0@)] == entries@[k].1,
                    forall|m: int|
                        0 <= m < j ==> (#[trigger] imports@[m]).kind != SpecifierKind::OxcRuntime,
                decreases imports@.len() - j,
            {
                if imports[j].kind == SpecifierKind::OxcRuntime {
                    proof {
                        let p = parts(entries@[i as int].0@);
                        assert(self.nodes@.contains_key(p));
                        assert(self@[p] == entries@[i as int].1@);
                        assert(self@[p].imports[j as int].kind == SpecifierKind::OxcRuntime);
                    }
                    return true;
                }
                j += 1;
            }
            i += 1;
        }
        proof {
            if needs_runtime(self@) {
                let (p, m) = choose|p: Seq<Part>, m: int|
                    self@.contains_key(p) && 0 <= m < self@[p].imports.len() && (
                    #[trigger] self@[p].imports[m]).kind == SpecifierKind::OxcRuntime;
                assert(self.nodes@.contains_key(p));
                let k = choose|k: int|
                    0 <= k < entries@.len() && parts((#[trigger] entries@[k]).0@) == p;
                assert(self.nodes@[parts(entries@[k].0@)] == entries@[k].1);
                assert(self@[p] == entries@[k].1@);
                assert(entries@[k].1.imports@[m].kind == SpecifierKind::OxcRuntime);
            }
        }
        false
    }

    /// Bare specifiers the import map can't resolve, as `(file, specifier)`: the build
    /// fails on these so a browser-load 404 becomes a clear build error. Ordered by
    /// output path, so the error report is deterministic; the path is shown as recorded.
    pub fn unresolved(&self, importmap: &Importmap) -> (r: Vec<(String, String)>)
        ensures
            pairs(r@) == all_dangling(
                importmap@,
                listing::<ByPath, Noted>(self@),
            ),
            ordered::<ByPath, Noted>(listing::<ByPath, Noted>(self@)),
            table::<ByPath, Noted>(listing::<ByPath, Noted>(self@)) == self@,
    {
        let entries = self.nodes.entries();
        let ghost all = shown_nodes(entries@);
        proof {
            lemma_shown_nodes(entries@);
            lemma_listing::<ByPath, Noted>(all);
        }
        let mut out: Vec<(String, String)> = Vec::new();
        let mut i: usize = 0;
        assert(pairs(out@) =~= all_dangling(importmap@, all.take(0)));
        while i < entries.len()
            invariant
                i <= entries@.len(),
                all == shown_nodes(entries@),
                pairs(out@) == all_dangling(importmap@, all.take(i as int)),
            decreases entries@.len() - i,
        {
            let file = entries[i].1.path.clone();
            let imports = &entries[i].1.imports;
            let ghost earlier = pairs(out@);
            let ghost list = references(imports@);
            proof {
                let grown = all.take(i + 1);
                assert(grown.drop_last() =~= all.take(i as int));
                assert(grown.last() == (parts(entries@[i as int].0@), entries@[i as int].1@));
            }
            let mut j: usize = 0;
            assert(earlier + file_dangling(importmap@, file@, list.take(0)) =~= earlier);
            while j < imports.len()
                invariant
                    j <= imports@.len(),
                    list == references(imports@),
                    pairs(out@) == earlier + file_dangling(
                        importmap@,
                        file@,
                        list.take(j as int),
                    ),
                decreases imports@.len() - j,
            {
                proof {
                    let grown = list.take(j + 1);
                    assert(grown.drop_last() =~= list.take(j as int));
                    assert(grown.last() == imports@[j as int]@);
                }
                let specifier = imports[j].specifier.as_str();
                if is_bare(specifier) && !importmap.resolves(specifier) {
                    let one = (file.clone(), specifier.to_owned());
                    proof {
                        text::lemma_pairs_push(out@, one);
                        let d = file_dangling(importmap@, file@, list.take(j as int));
                        assert((earlier + d).push((file@, specifier@)) =~= earlier + d.push(
                            (file@, specifier@),
                        ));
                    }
                    out.push(one);
                }
                j += 1;
            }
            assert(list.take(imports@.len() as int) =~= list);
            i += 1;
        }
        assert(all.take(entries@.len() as int) =~= all);
        out
    }
}

/// Recording a path twice leaves what recording it once with the second imports leaves, under
/// the spelling it was first recorded with: nothing of the replaced record outlives it.
pub proof fn law_last_record_wins(
    graph: Map<Seq<Part>, Noted>,
    path: Seq<char>,
    again: Seq<char>,
    first: Seq<Reference>,
    second: Seq<Reference>,
)
    requires
        parts(path) == parts(again),
    ensures
        noting(noting(graph, path, first), again, second) == noting(graph, path, second),
{
    assert(noting(noting(graph, path, first), again, second) =~= noting(graph, path, second));
}

/// Recording a file leaves the records of the other files alone.
pub proof fn law_records_are_apart(
    graph: Map<Seq<Part>, Noted>,
    path: Seq<char>,
    imports: Seq<Reference>,
    other: Seq<Part>,
)
    requires
        other != parts(path),
    ensures
        noting(graph, path, imports).contains_key(other) == graph.contains_key(other),
        noting(graph, path, imports)[other] == graph[other],
{
}

proof fn lemma_no_file_dangling(
    map: Map<Seq<char>, Seq<char>>,
    file: Seq<char>,
    list: Seq<Reference>,
)
    ensures
        file_dangling(map, file, list).len() == 0 <==> forall|k: int|
            0 <= k < list.len() ==> !dangling(map, #[trigger] list[k]),
    decreases list.len(),
{
    if list.len() > 0 {
        let front = list.drop_last();
        lemma_no_file_dangling(map, file, front);
        if file_dangling(map, file, list).len() == 0 {
            assert forall|k: int| 0 <= k < list.len() implies !dangling(map, #[trigger] list[k]) by {
                if k < front.len() {
                    assert(front[k] == list[k]);
                }
            }
        }
        if forall|k: int| 0 <= k < list.len() ==> !dangling(map, #[trigger] list[k]) {
            assert forall|k: int| 0 <= k < front.len() implies !dangling(
                map,
                #[trigger] front[k],
            ) by {
                assert(front[k] == list[k]);
            }
            assert(!dangling(map, list[list.len() - 1]));
        }
    }
}

/// Every import of one file that the import map owes an answer to has one.
pub open spec fn answered(map: Map<Seq<char>, Seq<char>>, list: Seq<Reference>) -> bool {
    forall|k: int| 0 <= k < list.len() ==> !dangling(map, #[trigger] list[k])
}

/// Nothing is reported as unresolved exactly when every bare import of every file resolves
/// under the import map: no import is passed over, and none is reported in error.
pub proof fn law_unresolved_is_complete(
    map: Map<Seq<char>, Seq<char>>,
    files: Seq<(Seq<Part>, Noted)>,
)
    ensures
        all_dangling(map, files).len() == 0 <==> forall|i: int|
            0 <= i < files.len() ==> answered(map, (#[trigger] files[i]).1.imports),
    decreases files.len(),
{
    if files.len() > 0 {
        let front = files.drop_last();
        law_unresolved_is_complete(map, front);
        lemma_no_file_dangling(map, files.last().1.path, files.last().1.imports);
        if all_dangling(map, files).len() == 0 {
            assert forall|i: int| 0 <= i < files.len() implies answered(
                map,
                (#[trigger] files[i]).1.imports,
            ) by {
                if i < front.len() {
                    assert(front[i] == files[i]);
                }
            }
        }
        if forall|i: int| 0 <= i < files.len() ==> answered(map, (#[trigger] files[i]).1.imports) {
            assert forall|i: int| 0 <= i < front.len() implies answered(
                map,
                (#[trigger] front[i]).1.imports,
            ) by {
                assert(front[i] == files[i]);
            }
            assert(answered(map, files[files.len() - 1].1.imports));
        }
    }
}

// ---------------------------------------------------------------------------
// Reading imports from source
// ---------------------------------------------------------------------------

/// One dynamic import of a source: where it starts, and the text of its specifier.
#[derive(Debug, PartialEq, Eq)]
pub struct Site {
    pub start: u32,
    pub text: String,
}

/// What a parse tells of a source's imports.
#[derive(Debug, PartialEq, Eq)]
pub struct SourceImports {
    /// For each top-level statement, the module it names, if it names one.
    pub statics: Vec<Option<String>>,
    /// The dynamic imports, in no particular order and possibly more than once.
    pub dynamics: Vec<Site>,
}

/// A dynamic import: where it starts, and the module it names, if it names one statically.
#[derive(Debug, PartialEq, Eq)]
pub struct DynamicImport {
    pub start: u32,
    pub specifier: Option<String>,
}

/// What a parse tells of a source's imports, as the contracts see it.
pub struct Parsed {
    pub statics: Seq<Option<Seq<char>>>,
    pub dynamics: Seq<(u32, Seq<char>)>,
}

impl View for SourceImports {
    type V = Parsed;

    open spec fn view(&self) -> Parsed {
        Parsed {
            statics: Seq::new(self.statics@.len(), |i: int| opt_text(self.statics@[i])),
            dynamics: Seq::new(
                self.dynamics@.len(),
                |i: int| (self.dynamics@[i].start, self.dynamics@[i].text@),
            ),
        }
    }
}

/// What parsing `js` under the module goal, or else the classic-script goal, tells of its
/// imports; the text of the first complaint when it does not parse.
pub uninterp spec fn source_parse(js: Seq<char>, module: bool) -> Result<Parsed, Seq<char>>;

/// Calls `oxc_parser::Parser::parse` under the module goal (`SourceType::mjs`) or the
/// classic-script goal (`SourceType::script`). Without errors it gives the `source` of
/// each top-level module declaration and the dynamic imports of the module record;
/// otherwise the `Debug` text of the first diagnostic. Both are [`source_parse`]. The parser
/// goes as deep as the source is nested, with no limit of its own: a source nested so deep
/// that the stack does not hold it is not left out.
#[verifier::external_body]
fn read_source(js: &str, module: bool) -> (r: Result<SourceImports, String>)
    ensures
        match r {
            Ok(found) => source_parse(js@, module) == Ok::<Parsed, Seq<char>>(found@),
            Err(e) => source_parse(js@, module) == Err::<Parsed, Seq<char>>(e@),
        },
{
    let goal = if module { SourceType::mjs() } else { SourceType::script() };
    let arena = Allocator::default();
    let parsed = Parser::new(&arena, js, goal).parse();
    if parsed.diagnostics.has_errors() {
        return Err(parsed.diagnostics.first().map(|d| format!("{d:?}")).unwrap_or_default());
    }
    let statics = parsed.program.body.iter().map(|s| s.as_module_declaration()
        .and_then(|d| d.source()).map(|s| s.value.to_string())).collect();
    let dynamics = parsed.module_record.dynamic_imports.iter().map(|d| Site {
        start: d.span.start,
        text: d.module_request.source_text(js).to_string(),
    }).collect();
    Ok(SourceImports { statics, dynamics })
}

/// The module that a specifier expression names statically: a string literal or a template
/// without substitutions names one, anything computed names none.
pub uninterp spec fn literal_in(expression: Seq<char>) -> Option<Seq<char>>;

/// Calls `oxc_parser::Parser::parse_expression`: the value of a string literal, or the
/// single quasi of a template literal; nothing for any other expression, and nothing for
/// a text that is none. The result is [`literal_in`]. The parser goes as deep as the
/// expression is nested, with no limit of its own.
#[verifier::external_body]
fn read_literal(expression: &str) -> (r: Option<String>)
    ensures
        opt_text(r) == literal_in(expression@),
{
    let arena = Allocator::default();
    let goal = SourceType::script();
    match Parser::new(&arena, expression, goal).parse_expression() {
        Ok(oxc_ast::ast::Expression::StringLiteral(s)) => Some(s.value.as_str().to_string()),
        Ok(oxc_ast::ast::Expression::TemplateLiteral(t)) => t.single_quasi().map(|q| q.as_str().to_string()),
        _ => None,
    }
}

/// A dynamic import, as the contracts see it.
pub type Named = (u32, Option<Seq<char>>);

/// The contents of a list of dynamic imports.
pub open spec fn named(list: Seq<DynamicImport>) -> Seq<Named> {
    Seq::new(list.len(), |i: int| (list[i].start, opt_text(list[i].specifier)))
}

/// A list in source order with one import more: at its place, unless one stands there.
pub open spec fn with_site(list: Seq<Named>, one: Named) -> Seq<Named>
    decreases list.len(),
{
    if list.len() == 0 {
        seq![one]
    } else if one.0 == list[0].0 {
        list
    } else if one.0 < list[0].0 {
        seq![one] + list
    } else {
        seq![list[0]] + with_site(list.drop_first(), one)
    }
}

/// Dynamic imports in source order, each once.
pub open spec fn in_source_order(list: Seq<Named>) -> Seq<Named>
    decreases list.len(),
{
    if list.len() == 0 {
        Seq::empty()
    } else {
        with_site(in_source_order(list.drop_last()), list.last())
    }
}

/// The references that static imports make, in statement order.
pub open spec fn static_references(statics: Seq<Option<Seq<char>>>) -> Seq<Reference>
    decreases statics.len(),
{
    if statics.len() == 0 {
        Seq::empty()
    } else {
        match statics.last() {
            Some(s) => static_references(statics.drop_last()).push(referenced(s, false)),
            None => static_references(statics.drop_last()),
        }
    }
}

/// The references that dynamic imports make: those that name a module statically.
pub open spec fn dynamic_references(list: Seq<Named>) -> Seq<Reference>
    decreases list.len(),
{
    if list.len() == 0 {
        Seq::empty()
    } else {
        match list.last().1 {
            Some(s) => dynamic_references(list.drop_last()).push(referenced(s, true)),
            None => dynamic_references(list.drop_last()),
        }
    }
}

/// The dynamic imports of a parse, each with the module it names.
pub open spec fn named_sites(sites: Seq<(u32, Seq<char>)>) -> Seq<Named> {
    Seq::new(sites.len(), |i: int| (sites[i].0, literal_in(sites[i].1)))
}

/// What reading a source file gives: its imports, and whether it parsed at all.
pub struct Reading {
    pub imports: Seq<Reference>,
    pub parsed: bool,
}

/// The imports of a verbatim source file: parsed as a module, or, where that is allowed to
/// fail, as a classic script, in which only dynamic imports occur. A file that parses as
/// neither has no known imports.
pub open spec fn source_reading(js: Seq<char>, module_only: bool) -> Result<Reading, Seq<char>> {
    match source_parse(js, true) {
        Ok(found) => Ok(
            Reading {
                imports: static_references(found.statics) + dynamic_references(
                    in_source_order(named_sites(found.dynamics)),
                ),
                parsed: true,
            },
        ),
        Err(first) => if module_only {
            Err("does not parse as an ES module: "@ + first)
        } else {
            match source_parse(js, false) {
                Ok(found) => Ok(
                    Reading {
                        imports: dynamic_references(in_source_order(named_sites(found.dynamics))),
                        parsed: true,
                    },
                ),
                Err(_) => Ok(Reading { imports: Seq::empty(), parsed: false }),
            }
        },
    }
}

/// The imports of a verbatim source file.
pub open spec fn source_imports(js: Seq<char>, module_only: bool) -> Result<
    Seq<Reference>,
    Seq<char>,
> {
    match source_reading(js, module_only) {
        Ok(reading) => Ok(reading.imports),
        Err(e) => Err(e),
    }
}

/// Dynamic imports stand in strictly ascending source order.
pub open spec fn source_ordered(list: Seq<Named>) -> bool {
    forall|i: int, j: int| 0 <= i < j < list.len() ==> (#[trigger] list[i]).0 < (#[trigger] list[j]).0
}

proof fn lemma_with_site(list: Seq<Named>, one: Named)
    requires
        source_ordered(list),
    ensures
        source_ordered(with_site(list, one)),
        forall|i: int|
            0 <= i < with_site(list, one).len() ==> (#[trigger] with_site(list, one)[i]).0 == one.0
                || exists|k: int| 0 <= k < list.len() && list[k].0 == with_site(list, one)[i].0,
    decreases list.len(),
{
    let after = with_site(list, one);
    if list.len() > 0 && one.0 != list[0].0 && one.0 > list[0].0 {
        let tail = list.drop_first();
        assert forall|i: int, j: int| 0 <= i < j < tail.len() implies (#[trigger] tail[i]).0 < (
        #[trigger] tail[j]).0 by {
            assert(list[i + 1].0 < list[j + 1].0);
        }
        lemma_with_site(tail, one);
        let rest = with_site(tail, one);
        assert forall|i: int| 0 <= i < after.len() implies (#[trigger] after[i]).0 == one.0
            || exists|k: int| 0 <= k < list.len() && list[k].0 == after[i].0 by {
            if i == 0 {
                assert(list[0].0 == after[0].0);
            } else {
                assert(after[i] == rest[i - 1]);
                if rest[i - 1].0 != one.0 {
                    let k = choose|k: int| 0 <= k < tail.len() && tail[k].0 == rest[i - 1].0;
                    assert(list[k + 1].0 == after[i].0);
                }
            }
        }
        assert forall|i: int, j: int| 0 <= i < j < after.len() implies (#[trigger] after[i]).0 < (
        #[trigger] after[j]).0 by {
            assert(after[j] == rest[j - 1]);
            if i == 0 {
                if rest[j - 1].0 != one.0 {
                    let k = choose|k: int| 0 <= k < tail.len() && tail[k].0 == rest[j - 1].0;
                    assert(list[0].0 < list[k + 1].0);
                }
            } else {
                assert(after[i] == rest[i - 1]);
            }
        }
    } else if list.len() > 0 && one.0 < list[0].0 {
        assert forall|i: int, j: int| 0 <= i < j < after.len() implies (#[trigger] after[i]).0 < (
        #[trigger] after[j]).0 by {
            assert(after[j] == list[j - 1]);
            if i == 0 {
                if j > 1 {
                    assert(list[0].0 < list[j - 1].0);
                }
            } else {
                assert(after[i] == list[i - 1]);
            }
        }
        assert forall|i: int| 0 <= i < after.len() implies (#[trigger] after[i]).0 == one.0
            || exists|k: int| 0 <= k < list.len() && list[k].0 == after[i].0 by {
            if i > 0 {
                assert(list[i - 1].0 == after[i].0);
            }
        }
    } else {
        assert forall|i: int| 0 <= i < after.len() implies (#[trigger] after[i]).0 == one.0
            || exists|k: int| 0 <= k < list.len() && list[k].0 == after[i].0 by {
            if list.len() > 0 {
                assert(list[i].0 == after[i].0);
            }
        }
    }
}

/// Whatever order a parser reports dynamic imports in, and however often, they are
/// recorded in source order, each once.
pub proof fn law_dynamic_imports_in_source_order(list: Seq<Named>)
    ensures
        source_ordered(in_source_order(list)),
    decreases list.len(),
{
    if list.len() > 0 {
        law_dynamic_imports_in_source_order(list.drop_last());
        lemma_with_site(in_source_order(list.drop_last()), list.last());
    }
}

/// Puts one dynamic import at its place in source order, unless one stands there.
fn put_site(list: &mut Vec<DynamicImport>, one: DynamicImport)
    ensures
        named(final(list)@) == with_site(named(old(list)@), (one.start, opt_text(one.specifier))),
{
    let ghost all = named(list@);
    let ghost item: Named = (one.start, opt_text(one.specifier));
    let mut i: usize = 0;
    assert(all.skip(0) =~= all);
    assert(all.take(0) + with_site(all, item) =~= with_site(all, item));
    while i < list.len() && list[i].start < one.start
        invariant
            i <= list@.len(),
            all == named(list@),
            item == (one.start, opt_text(one.specifier)),
            with_site(all, item) == all.take(i as int) + with_site(all.skip(i as int), item),
        decreases list@.len() - i,
    {
        proof {
            let rest = all.skip(i as int);
            assert(rest[0] == all[i as int]);
            assert(rest.drop_first() =~= all.skip(i + 1));
            let later = with_site(all.skip(i + 1), item);
            assert(all.take(i as int) + (seq![all[i as int]] + later) =~= all.take(i + 1) + later);
        }
        i += 1;
    }
    let ghost rest = all.skip(i as int);
    if i < list.len() && list[i].start == one.start {
        assert(rest[0] == all[i as int]);
        assert(all.take(i as int) + rest =~= all);
        return;
    }
    proof {
        if i < list@.len() {
            assert(rest[0] == all[i as int]);
        }
        assert(with_site(rest, item) =~= seq![item] + rest);
    }
    list.insert(i, one);
    assert(named(list@) =~= all.take(i as int) + (seq![item] + rest));
}

/// The imports that a parse found: the static ones in statement order, then the dynamic
/// ones that name a module statically, in source order and each once.
pub fn merge_imports(statics: &Vec<Option<String>>, dynamics: Vec<DynamicImport>) -> (r: Vec<
    ModuleImport,
>)
    ensures
        references(r@) == static_references(
            Seq::new(statics@.len(), |i: int| opt_text(statics@[i])),
        ) + dynamic_references(in_source_order(named(dynamics@))),
{
    let ghost texts = Seq::new(statics@.len(), |i: int| opt_text(statics@[i]));
    let mut out: Vec<ModuleImport> = Vec::new();
    let mut i: usize = 0;
    assert(references(out@) =~= static_references(texts.take(0)));
    while i < statics.len()
        invariant
            i <= statics@.len(),
            texts == Seq::new(statics@.len(), |i: int| opt_text(statics@[i])),
            references(out@) == static_references(texts.take(i as int)),
        decreases statics@.len() - i,
    {
        proof {
            let grown = texts.take(i + 1);
            assert(grown.drop_last() =~= texts.take(i as int));
            assert(grown.last() == opt_text(statics@[i as int]));
        }
        if let Some(specifier) = &statics[i] {
            let import = ModuleImport::new(specifier.as_str(), false);
            proof {
                lemma_references_push(out@, import);
            }
            out.push(import);
        }
        i += 1;
    }
    assert(texts.take(statics@.len() as int) =~= texts);
    let ghost front = references(out@);
    let ghost all = named(dynamics@);
    let mut sites: Vec<DynamicImport> = Vec::new();
    let ghost given = dynamics@;
    assert(named(sites@) =~= in_source_order(all.take(0)));
    for site in it: dynamics
        invariant
            it.seq() == given,
            all == named(given),
            named(sites@) == in_source_order(all.take(it.index())),
    {
        proof {
            let k = it.index();
            let grown = all.take(k + 1);
            assert(grown.drop_last() =~= all.take(k));
            assert(grown.last() == all[k]);
            assert(all[k] == (site.start, opt_text(site.specifier)));
        }
        put_site(&mut sites, site);
    }
    assert(all.take(given.len() as int) =~= all);
    let ghost list = named(sites@);
    let mut j: usize = 0;
    assert(front + dynamic_references(list.take(0)) =~= front);
    while j < sites.len()
        invariant
            j <= sites@.len(),
            list == named(sites@),
            references(out@) == front + dynamic_references(list.take(j as int)),
        decreases sites@.len() - j,
    {
        proof {
            let grown = list.take(j + 1);
            assert(grown.drop_last() =~= list.take(j as int));
            assert(grown.last() == list[j as int]);
        }
        if let Some(specifier) = &sites[j].specifier {
            let import = ModuleImport::new(specifier.as_str(), true);
            proof {
                lemma_references_push(out@, import);
                let d = dynamic_references(list.take(j as int));
                assert((front + d).push(import@) =~= front + d.push(import@));
            }
            out.push(import);
        }
        j += 1;
    }
    assert(list.take(sites@.len() as int) =~= list);
    out
}

/// The dynamic imports of a parse, each with the module it names.
fn name_sites(sites: &Vec<Site>) -> (r: Vec<DynamicImport>)
    ensures
        named(r@) == named_sites(
            Seq::new(sites@.len(), |i: int| (sites@[i].start, sites@[i].text@)),
        ),
{
    let mut out: Vec<DynamicImport> = Vec::new();
    let mut i: usize = 0;
    while i < sites.len()
        invariant
            i <= sites@.len(),
            out@.len() == i,
            forall|j: int|
                0 <= j < i ==> (#[trigger] out@[j]).start == sites@[j].start && opt_text(
                    out@[j].specifier,
                ) == literal_in(sites@[j].text@),
        decreases sites@.len() - i,
    {
        let specifier = read_literal(sites[i].text.as_str());
        out.push(DynamicImport { start: sites[i].start, specifier });
        i += 1;
    }
    assert(named(out@) =~= named_sites(
        Seq::new(sites@.len(), |i: int| (sites@[i].start, sites@[i].text@)),
    ));
    out
}

/// What reading a source file gives: its imports, and whether it parsed at all. An empty
/// list from a file that did not parse means "unknown", not "imports nothing".
#[derive(Debug, PartialEq, Eq)]
pub struct SourceRead {
    pub imports: Vec<ModuleImport>,
    pub parsed: bool,
}

impl View for SourceRead {
    type V = Reading;

    open spec fn view(&self) -> Reading {
        Reading { imports: references(self.imports@), parsed: self.parsed }
    }
}

/// The imports of a verbatim source file, and whether it parsed.
///
/// - Parsed as a **module** first. `module_only` (an `.mjs` file, unambiguously a
///   module) makes a parse failure an error: the browser would fail on it too.
/// - A plain `.js` that fails the module goal is re-parsed as a **classic script**:
///   dynamic `import()` is legal there and resolves through the document's import map,
///   so its literal specifiers are still captured (import declarations are module-only
///   and cannot occur).
/// - A file failing both goals yields no imports.
pub fn read_imports(js: &str, module_only: bool) -> (r: Result<SourceRead, String>)
    ensures
        match r {
            Ok(read) => source_reading(js@, module_only) == Ok::<Reading, Seq<char>>(read@),
            Err(e) => source_reading(js@, module_only) == Err::<Reading, Seq<char>>(e@),
        },
{
    match read_source(js, true) {
        Ok(found) => {
            let sites = name_sites(&found.dynamics);
            Ok(SourceRead { imports: merge_imports(&found.statics, sites), parsed: true })
        },
        Err(first) => {
            if module_only {
                return Err("does not parse as an ES module: ".to_owned().concat(first.as_str()));
            }
            match read_source(js, false) {
                Ok(found) => {
                    let sites = name_sites(&found.dynamics);
                    let nothing: Vec<Option<String>> = Vec::new();
                    let imports = merge_imports(&nothing, sites);
                    assert(Seq::new(nothing@.len(), |i: int| opt_text(nothing@[i]))
                        =~= Seq::<Option<Seq<char>>>::empty());
                    assert(references(imports@) =~= dynamic_references(
                        in_source_order(named_sites(found@.dynamics)),
                    ));
                    Ok(SourceRead { imports, parsed: true })
                },
                Err(_) => {
                    let imports: Vec<ModuleImport> = Vec::new();
                    assert(references(imports@) =~= Seq::<Reference>::empty());
                    Ok(SourceRead { imports, parsed: false })
                },
            }
        },
    }
}

/// The imports of a verbatim source file (a hand-written `.js`/`.mjs` copied
/// unchanged), as [`read_imports`] finds them: a file that parses neither as a module nor
/// as a classic script is copied unchanged, and the empty set records that nothing
/// resolvable is known about it.
pub fn imports_from_source(js: &str, module_only: bool) -> (r: Result<Vec<ModuleImport>, String>)
    ensures
        match r {
            Ok(list) => source_imports(js@, module_only) == Ok::<Seq<Reference>, Seq<char>>(
                references(list@),
            ),
            Err(e) => source_imports(js@, module_only) == Err::<Seq<Reference>, Seq<char>>(e@),
        },
{
    match read_imports(js, module_only) {
        Ok(read) => Ok(read.imports),
        Err(e) => Err(e),
    }
}

// ---------------------------------------------------------------------------
// Reading imports from text
// ---------------------------------------------------------------------------

/// The quoted texts that follow each `pattern`, from place `from` on: a pattern ends in its
/// opening quote, and the text runs to the next such quote.
pub open spec fn quoted_from(s: Seq<char>, pattern: Seq<char>, from: int) -> Seq<Seq<char>>
    decreases s.len() - from,
    when 0 <= from && pattern.len() > 0
{
    match find_from(s, pattern, from) {
        Some(p) => {
            let start = p + pattern.len();
            if p < from || start > s.len() {
                Seq::empty()
            } else {
                match find_from(s, seq![pattern.last()], start) {
                    Some(end) => if end < start || end >= s.len() {
                        Seq::empty()
                    } else {
                        seq![s.subrange(start, end)] + quoted_from(s, pattern, end + 1)
                    },
                    None => Seq::empty(),
                }
            }
        },
        None => Seq::empty(),
    }
}

/// The quoted texts that follow each occurrence of `pattern` in `js`.
fn scan_quoted(js: &str, pattern: &str) -> (r: Vec<String>)
    requires
        pattern@.len() > 0,
    ensures
        texts(r@) == quoted_from(js@, pattern@, 0),
{
    let all = text::chars(js);
    let pat = text::chars(pattern);
    let mut quote: Vec<char> = Vec::new();
    quote.push(pat[pat.len() - 1]);
    assert(quote@ =~= seq![pattern@.last()]);
    let mut out: Vec<String> = Vec::new();
    let mut from: usize = 0;
    let n = all.len();
    assert(texts(out@) + quoted_from(js@, pattern@, 0) =~= quoted_from(js@, pattern@, 0));
    loop
        invariant
            n == all@.len(),
            all@ == js@,
            pat@ == pattern@,
            pat@.len() > 0,
            quote@ == seq![pattern@.last()],
            from <= n,
            texts(out@) + quoted_from(js@, pattern@, from as int) == quoted_from(
                js@,
                pattern@,
                0,
            ),
        decreases n - from,
    {
        proof {
            text::lemma_find_from(js@, pattern@, from as int);
        }
        let p = match text::find_in(&all, &pat, from) {
            Some(p) => p,
            None => {
                assert(texts(out@) + Seq::<Seq<char>>::empty() =~= texts(out@));
                return out;
            },
        };
        let start = p + pat.len();
        proof {
            text::lemma_find_from(js@, seq![pattern@.last()], start as int);
        }
        match text::find_in(&all, &quote, start) {
            Some(end) => {
                let one = text::slice(&all, start, end);
                proof {
                    text::lemma_texts_push(out@, one);
                    let later = quoted_from(js@, pattern@, end + 1);
                    assert(texts(out@) + (seq![one@] + later) =~= texts(out@).push(one@) + later);
                }
                out.push(one);
                from = end + 1;
            },
            None => {
                assert(texts(out@) + Seq::<Seq<char>>::empty() =~= texts(out@));
                return out;
            },
        }
    }
}

/// The references that a list of specifiers makes.
pub open spec fn all_referenced(list: Seq<Seq<char>>, dynamic: bool) -> Seq<Reference> {
    Seq::new(list.len(), |i: int| referenced(list[i], dynamic))
}

/// The imports that the text of a source shows: its static ones by pattern, then its
/// dynamic ones by pattern.
pub open spec fn text_imports(js: Seq<char>) -> Seq<Reference> {
    all_referenced(
        quoted_from(js, "from \""@, 0) + quoted_from(js, "from '"@, 0) + quoted_from(
            js,
            "import \""@,
            0,
        ) + quoted_from(js, "import '"@, 0),
        false,
    ) + all_referenced(
        quoted_from(js, "import(\""@, 0) + quoted_from(js, "import('"@, 0),
        true,
    )
}

fn append_all(out: &mut Vec<String>, more: Vec<String>)
    ensures
        texts(final(out)@) == texts(old(out)@) + texts(more@),
{
    let ghost before = texts(out@);
    let mut i: usize = 0;
    assert(before + texts(more@).take(0) =~= before);
    while i < more.len()
        invariant
            i <= more@.len(),
            texts(out@) == before + texts(more@).take(i as int),
        decreases more@.len() - i,
    {
        let copy = more[i].clone();
        proof {
            text::lemma_texts_push(out@, copy);
            assert((before + texts(more@).take(i as int)).push(copy@) =~= before + texts(
                more@,
            ).take(i + 1));
        }
        out.push(copy);
        i += 1;
    }
    assert(texts(more@).take(more@.len() as int) =~= texts(more@));
}

fn refer_all(out: &mut Vec<ModuleImport>, specifiers: &Vec<String>, dynamic: bool)
    ensures
        references(final(out)@) == references(old(out)@) + all_referenced(
            texts(specifiers@),
            dynamic,
        ),
{
    let ghost before = references(out@);
    let ghost all = all_referenced(texts(specifiers@), dynamic);
    let mut i: usize = 0;
    assert(before + all.take(0) =~= before);
    while i < specifiers.len()
        invariant
            i <= specifiers@.len(),
            all == all_referenced(texts(specifiers@), dynamic),
            references(out@) == before + all.take(i as int),
        decreases specifiers@.len() - i,
    {
        let import = ModuleImport::new(specifiers[i].as_str(), dynamic);
        proof {
            lemma_references_push(out@, import);
            assert(all[i as int] == import@);
            assert((before + all.take(i as int)).push(import@) =~= before + all.take(i + 1));
        }
        out.push(import);
        i += 1;
    }
    assert(all.take(specifiers@.len() as int) =~= all);
}

/// The static specifiers of a source, matched in its text, appended to `imports`.
pub fn static_lexical(js: &str, imports: &mut Vec<ModuleImport>)
    ensures
        references(final(imports)@) == references(old(imports)@) + all_referenced(
            quoted_from(js@, "from \""@, 0) + quoted_from(js@, "from '"@, 0) + quoted_from(
                js@,
                "import \""@,
                0,
            ) + quoted_from(js@, "import '"@, 0),
            false,
        ),
{
    proof {
        reveal_strlit("from \"");
        reveal_strlit("from '");
        reveal_strlit("import \"");
        reveal_strlit("import '");
    }
    let mut found = scan_quoted(js, "from \"");
    append_all(&mut found, scan_quoted(js, "from '"));
    append_all(&mut found, scan_quoted(js, "import \""));
    append_all(&mut found, scan_quoted(js, "import '"));
    refer_all(imports, &found, false);
}

/// Dynamic `import("…")` / `import('…')` specifiers, matched in the text of a source,
/// appended to `imports`. The call parenthesis is stable, so both spaced and space-less
/// forms are found.
pub fn dynamic_lexical(js: &str, imports: &mut Vec<ModuleImport>)
    ensures
        references(final(imports)@) == references(old(imports)@) + all_referenced(
            quoted_from(js@, "import(\""@, 0) + quoted_from(js@, "import('"@, 0),
            true,
        ),
{
    proof {
        reveal_strlit("import(\"");
        reveal_strlit("import('");
    }
    let mut found = scan_quoted(js, "import(\"");
    append_all(&mut found, scan_quoted(js, "import('"));
    refer_all(imports, &found, true);
}

/// The imports of a source by a scan of its text, for a build without the parser. It is
/// best-effort: `import`/`from` text inside a comment or string can false-positive, and
/// only the spaced authored forms match.
pub fn imports_from_text(js: &str) -> (r: Vec<ModuleImport>)
    ensures
        references(r@) == text_imports(js@),
{
    let mut out: Vec<ModuleImport> = Vec::new();
    assert(references(out@) =~= Seq::<Reference>::empty());
    static_lexical(js, &mut out);
    dynamic_lexical(js, &mut out);
    assert(references(out@) =~= text_imports(js@));
    out
}

/// A specifier that begins with `.` or `/`, one with `://` in it, and a `data:` one need no import
/// map; every other one does.
pub proof fn law_bare_specifiers(spec: Seq<char>)
    ensures
        spec.len() > 0 && (spec[0] == '.' || spec[0] == '/') ==> !bare(spec),
        text::has(spec, "://"@) ==> !bare(spec),
        "data:"@.is_prefix_of(spec) ==> !bare(spec),
        spec.len() > 0 && spec[0] != '.' && spec[0] != '/' && !text::has(spec, "://"@)
            && !"data:"@.is_prefix_of(spec) ==> bare(spec),
        spec.len() == 0 ==> bare(spec),
{
    reveal_strlit(".");
    reveal_strlit("/");
    reveal_strlit("://");
    reveal_strlit("data:");
    if spec.len() > 0 {
        assert(spec.subrange(0, 1)[0] == spec[0]);
        if spec[0] == '.' {
            assert(spec.subrange(0, 1) =~= "."@);
        }
        if spec[0] == '/' {
            assert(spec.subrange(0, 1) =~= "/"@);
        }
    } else if text::has(spec, "://"@) {
        let k = choose|k: int| text::occurs_at(spec, "://"@, k);
        assert(k + 3 <= spec.len());
    }
}

/// A reference keeps its specifier. A dynamic one is dynamic whatever it names; a static one is of
/// the transform's runtime when it names that package or a file of it, and plain otherwise.
pub proof fn law_kinds(spec: Seq<char>, rest: Seq<char>, dynamic: bool)
    ensures
        referenced(spec, dynamic).specifier == spec,
        referenced(spec, true).kind == SpecifierKind::Dynamic,
        referenced("@oxc-project/runtime"@, false).kind == SpecifierKind::OxcRuntime,
        referenced("@oxc-project/runtime/"@ + rest, false).kind == SpecifierKind::OxcRuntime,
        spec != "@oxc-project/runtime"@ && !"@oxc-project/runtime/"@.is_prefix_of(spec)
            ==> referenced(spec, false).kind == SpecifierKind::Static,
{
    reveal_strlit("@oxc-project/runtime");
    reveal_strlit("@oxc-project/runtime/");
    reveal_strlit("/");
    let dir = "@oxc-project/runtime/"@;
    assert(RUNTIME_MODULE@ + "/"@ =~= dir);
    assert((dir + rest).subrange(0, dir.len() as int) =~= dir);
}

/// The runtime is needed once some recorded file imports it, and an empty graph does not need it.
pub proof fn law_runtime_is_needed(
    graph: Map<Seq<Part>, Noted>,
    path: Seq<char>,
    imports: Seq<Reference>,
)
    ensures
        !needs_runtime(Map::empty()),
        (exists|i: int|
            0 <= i < imports.len() && (#[trigger] imports[i]).kind == SpecifierKind::OxcRuntime)
            ==> needs_runtime(noting(graph, path, imports)),
        !needs_runtime(graph) && (forall|i: int|
            0 <= i < imports.len() ==> (#[trigger] imports[i]).kind != SpecifierKind::OxcRuntime)
            ==> !needs_runtime(noting(graph, path, imports)),
{
    let after = noting(graph, path, imports);
    let at = parts(path);
    assert(after[at].imports == imports);
    if exists|i: int|
        0 <= i < imports.len() && (#[trigger] imports[i]).kind == SpecifierKind::OxcRuntime {
        let k = choose|i: int|
            0 <= i < imports.len() && (#[trigger] imports[i]).kind == SpecifierKind::OxcRuntime;
        assert(after[at].imports[k].kind == SpecifierKind::OxcRuntime);
    }
    if needs_runtime(after) && !needs_runtime(graph) {
        let (p, k) = choose|p: Seq<Part>, i: int|
            after.contains_key(p) && 0 <= i < after[p].imports.len() && (
            #[trigger] after[p].imports[i]).kind == SpecifierKind::OxcRuntime;
        if p != at {
            assert(graph[p].imports[k].kind == SpecifierKind::OxcRuntime);
        } else {
            assert(imports[k].kind == SpecifierKind::OxcRuntime);
        }
    }
}

proof fn lemma_file_dangling(
    map: Map<Seq<char>, Seq<char>>,
    file: Seq<char>,
    list: Seq<Reference>,
)
    ensures
        forall|k: int|
            0 <= k < list.len() && bare((#[trigger] list[k]).specifier) && !resolvable(
                map,
                list[k].specifier,
            ) ==> file_dangling(map, file, list).contains((file, list[k].specifier)),
        forall|n: int|
            0 <= n < file_dangling(map, file, list).len() ==> (#[trigger] file_dangling(
                map,
                file,
                list,
            )[n]).0 == file && bare(file_dangling(map, file, list)[n].1) && !resolvable(
                map,
                file_dangling(map, file, list)[n].1,
            ) && exists|k: int|
                0 <= k < list.len() && (#[trigger] list[k]).specifier == file_dangling(
                    map,
                    file,
                    list,
                )[n].1,
    decreases list.len(),
{
    if list.len() > 0 {
        let before = list.drop_last();
        lemma_file_dangling(map, file, before);
        let front = file_dangling(map, file, before);
        let all = file_dangling(map, file, list);
        assert forall|k: int|
            0 <= k < list.len() && bare((#[trigger] list[k]).specifier) && !resolvable(
                map,
                list[k].specifier,
            ) implies all.contains((file, list[k].specifier)) by {
            if k < before.len() {
                assert(before[k] == list[k]);
                let n = choose|n: int| 0 <= n < front.len() && front[n] == (file, list[k].specifier);
                assert(all[n] == front[n]);
            } else {
                assert(all[front.len() as int] == (file, list[k].specifier));
            }
        }
        assert forall|n: int| 0 <= n < all.len() implies (#[trigger] all[n]).0 == file && bare(
            all[n].1,
        ) && !resolvable(map, all[n].1) && exists|k: int|
            0 <= k < list.len() && (#[trigger] list[k]).specifier == all[n].1 by {
            if n < front.len() {
                assert(all[n] == front[n]);
                let k = choose|k: int|
                    0 <= k < before.len() && (#[trigger] before[k]).specifier == front[n].1;
                assert(list[k].specifier == all[n].1);
            } else {
                assert(list[list.len() - 1].specifier == all[n].1);
            }
        }
    }
}

/// Each bare import of each file that the map does not resolve is reported with the file's path,
/// and each report is of such an import.
pub proof fn law_reports(map: Map<Seq<char>, Seq<char>>, files: Seq<(Seq<Part>, Noted)>)
    ensures
        forall|i: int, k: int|
            0 <= i < files.len() && 0 <= k < files[i].1.imports.len() && bare(
                (#[trigger] files[i].1.imports[k]).specifier,
            ) && !resolvable(map, files[i].1.imports[k].specifier) ==> all_dangling(
                map,
                files,
            ).contains((files[i].1.path, files[i].1.imports[k].specifier)),
        forall|n: int|
            0 <= n < all_dangling(map, files).len() ==> bare(
                (#[trigger] all_dangling(map, files)[n]).1,
            ) && !resolvable(map, all_dangling(map, files)[n].1) && exists|i: int, k: int|
                0 <= i < files.len() && 0 <= k < files[i].1.imports.len() && files[i].1.path
                    == all_dangling(map, files)[n].0 && (#[trigger] files[i].1.imports[k]).specifier
                    == all_dangling(map, files)[n].1,
    decreases files.len(),
{
    if files.len() > 0 {
        let before = files.drop_last();
        let last = files.last().1;
        law_reports(map, before);
        lemma_file_dangling(map, last.path, last.imports);
        let front = all_dangling(map, before);
        let back = file_dangling(map, last.path, last.imports);
        let all = all_dangling(map, files);
        assert forall|i: int, k: int|
            0 <= i < files.len() && 0 <= k < files[i].1.imports.len() && bare(
                (#[trigger] files[i].1.imports[k]).specifier,
            ) && !resolvable(map, files[i].1.imports[k].specifier) implies all.contains(
            (files[i].1.path, files[i].1.imports[k].specifier),
        ) by {
            let report = (files[i].1.path, files[i].1.imports[k].specifier);
            if i < before.len() {
                assert(before[i].1.imports[k] == files[i].1.imports[k]);
                assert(front.contains(report));
                let n = choose|n: int| 0 <= n < front.len() && front[n] == report;
                assert(all[n] == report);
            } else {
                assert(last.imports[k] == files[i].1.imports[k]);
                assert(back.contains(report));
                let n = choose|n: int| 0 <= n < back.len() && back[n] == report;
                assert(all[front.len() + n] == report);
            }
        }
        assert forall|n: int| 0 <= n < all.len() implies bare((#[trigger] all[n]).1) && !resolvable(
            map,
            all[n].1,
        ) && exists|i: int, k: int|
            0 <= i < files.len() && 0 <= k < files[i].1.imports.len() && files[i].1.path
                == all[n].0 && (#[trigger] files[i].1.imports[k]).specifier == all[n].1 by {
            if n < front.len() {
                assert(all[n] == front[n]);
                let (i, k) = choose|i: int, k: int|
                    0 <= i < before.len() && 0 <= k < before[i].1.imports.len() && before[i].1.path
                        == front[n].0 && (#[trigger] before[i].1.imports[k]).specifier == front[n].1;
                assert(files[i].1.imports[k].specifier == all[n].1);
            } else {
                let m = n - front.len();
                assert(all[n] == back[m]);
                let k = choose|k: int|
                    0 <= k < last.imports.len() && (#[trigger] last.imports[k]).specifier
                        == back[m].1;
                assert(files[files.len() - 1].1.imports[k].specifier == all[n].1);
            }
        }
    }
}

proof fn lemma_site_kept(list: Seq<Named>, one: Named, e: Named)
    ensures
        with_site(list, one).contains(e) ==> list.contains(e) || e == one,
        list.contains(e) ==> with_site(list, one).contains(e),
        exists|i: int|
            0 <= i < with_site(list, one).len() && (#[trigger] with_site(list, one)[i]).0 == one.0,
    decreases list.len(),
{
    let r = with_site(list, one);
    if list.len() == 0 {
        assert(r[0] == one);
    } else if one.0 == list[0].0 {
        assert(r[0].0 == one.0);
    } else if one.0 < list[0].0 {
        assert(r[0] == one);
        if list.contains(e) {
            let k = choose|k: int| 0 <= k < list.len() && list[k] == e;
            assert(r[k + 1] == e);
        }
        if r.contains(e) {
            let k = choose|k: int| 0 <= k < r.len() && r[k] == e;
            assert(k > 0 ==> list[k - 1] == e);
        }
    } else {
        let rest = list.drop_first();
        let tail = with_site(rest, one);
        lemma_site_kept(rest, one, e);
        let i = choose|i: int| 0 <= i < tail.len() && (#[trigger] tail[i]).0 == one.0;
        assert(r[i + 1] == tail[i]);
        if list.contains(e) {
            let k = choose|k: int| 0 <= k < list.len() && list[k] == e;
            if k == 0 {
                assert(r[0] == e);
            } else {
                assert(rest[k - 1] == e);
                let m = choose|m: int| 0 <= m < tail.len() && tail[m] == e;
                assert(r[m + 1] == e);
            }
        }
        if r.contains(e) {
            let k = choose|k: int| 0 <= k < r.len() && r[k] == e;
            if k > 0 {
                assert(tail[k - 1] == e);
                assert(tail.contains(e));
                if rest.contains(e) {
                    let m = choose|m: int| 0 <= m < rest.len() && rest[m] == e;
                    assert(list[m + 1] == e);
                }
            } else {
                assert(list[0] == e);
            }
        }
    }
}

/// Putting dynamic imports in order invents none and loses no place that one was found at.
pub proof fn law_no_dynamic_import_is_lost(list: Seq<Named>)
    ensures
        forall|e: Named| #[trigger] in_source_order(list).contains(e) ==> list.contains(e),
        forall|i: int|
            0 <= i < list.len() ==> exists|k: int|
                0 <= k < in_source_order(list).len() && (#[trigger] in_source_order(list)[k]).0
                    == (#[trigger] list[i]).0,
    decreases list.len(),
{
    if list.len() > 0 {
        let front = list.drop_last();
        let before = in_source_order(front);
        let after = in_source_order(list);
        law_no_dynamic_import_is_lost(front);
        assert forall|e: Named| #[trigger] after.contains(e) implies list.contains(e) by {
            lemma_site_kept(before, list.last(), e);
            if before.contains(e) {
                assert(front.contains(e));
                let m = choose|m: int| 0 <= m < front.len() && front[m] == e;
                assert(list[m] == e);
            } else {
                assert(list[list.len() - 1] == e);
            }
        }
        assert forall|i: int| 0 <= i < list.len() implies exists|k: int|
            0 <= k < after.len() && (#[trigger] after[k]).0 == (#[trigger] list[i]).0 by {
            if i < front.len() {
                assert(front[i] == list[i]);
                let k = choose|k: int| 0 <= k < before.len() && (#[trigger] before[k]).0 == front[i].0;
                lemma_site_kept(before, list.last(), before[k]);
                assert(before.contains(before[k]));
                let m = choose|m: int| 0 <= m < after.len() && after[m] == before[k];
                assert(after[m].0 == list[i].0);
            } else {
                lemma_site_kept(before, list.last(), list.last());
            }
        }
    }
}

/// Imports come in the order of their statements; a statement or a call that names no module adds
/// none.
pub proof fn law_references_in_order(
    statics: Seq<Option<Seq<char>>>,
    dynamics: Seq<Named>,
    start: u32,
    spec: Seq<char>,
)
    ensures
        static_references(Seq::empty()).len() == 0,
        static_references(statics.push(Some(spec))) == static_references(statics).push(
            referenced(spec, false),
        ),
        static_references(statics.push(None)) == static_references(statics),
        dynamic_references(Seq::empty()).len() == 0,
        dynamic_references(dynamics.push((start, Some(spec)))) == dynamic_references(dynamics).push(
            referenced(spec, true),
        ),
        dynamic_references(dynamics.push((start, None))) == dynamic_references(dynamics),
{
    assert(statics.push(Some(spec)).drop_last() =~= statics);
    assert(statics.push(None).drop_last() =~= statics);
    assert(dynamics.push((start, Some(spec))).drop_last() =~= dynamics);
    assert(dynamics.push((start, None)).drop_last() =~= dynamics);
}

/// A file that parses as a module has the imports of that parse. One that only parses as a classic
/// script has its dynamic ones, and one that parses as neither has none; but where only a module
/// will do, either is an error.
pub proof fn law_goals(js: Seq<char>, module_only: bool)
    ensures
        source_parse(js, true) is Ok ==> source_reading(js, module_only) == source_reading(
            js,
            !module_only,
        ) && (source_reading(js, module_only) matches Ok(reading) && reading.parsed),
        source_parse(js, true) is Err ==> source_reading(js, true) is Err,
        source_parse(js, true) is Err ==> (source_reading(js, false) matches Ok(reading)
            && reading.parsed == source_parse(js, false) is Ok && (!reading.parsed
            ==> reading.imports.len() == 0) && forall|k: int|
            0 <= k < reading.imports.len() ==> (#[trigger] reading.imports[k]).kind
                == SpecifierKind::Dynamic),
{
    if source_parse(js, true) is Err && source_parse(js, false) is Ok {
        let list = in_source_order(named_sites(source_parse(js, false)->Ok_0.dynamics));
        lemma_dynamic_kinds(list);
    }
}

proof fn lemma_dynamic_kinds(list: Seq<Named>)
    ensures
        forall|k: int|
            0 <= k < dynamic_references(list).len() ==> (#[trigger] dynamic_references(list)[k]).kind
                == SpecifierKind::Dynamic,
    decreases list.len(),
{
    if list.len() > 0 {
        lemma_dynamic_kinds(list.drop_last());
    }
}

/// What is read behind a pattern is the text from there to the next quote of the pattern's kind, and
/// reading goes on behind that quote.
pub proof fn law_quoted(s: Seq<char>, pattern: Seq<char>, from: int, p: int, quoted: Seq<char>)
    requires
        0 <= from <= p,
        pattern.len() > 0,
        text::occurs_at(s, pattern, p),
        forall|j: int| from <= j < p ==> !text::occurs_at(s, pattern, j),
        p + pattern.len() + quoted.len() < s.len(),
        s.subrange(p + pattern.len(), p + pattern.len() + quoted.len()) == quoted,
        !quoted.contains(pattern.last()),
        s[p + pattern.len() + quoted.len()] == pattern.last(),
    ensures
        quoted_from(s, pattern, from) == seq![quoted] + quoted_from(
            s,
            pattern,
            p + pattern.len() + quoted.len() + 1,
        ),
{
    text::lemma_find_from(s, pattern, from);
    assert(find_from(s, pattern, from) == Some(p));
    let start = p + pattern.len();
    let end = start + quoted.len();
    let quote = seq![pattern.last()];
    text::lemma_find_from(s, quote, start);
    assert(s.subrange(end, end + 1) =~= quote);
    assert(text::occurs_at(s, quote, end));
    assert forall|j: int| start <= j < end implies !text::occurs_at(s, quote, j) by {
        if text::occurs_at(s, quote, j) {
            assert(s.subrange(j, j + 1)[0] == pattern.last());
            assert(quoted[j - start] == s[j]);
        }
    }
    assert(find_from(s, quote, start) == Some(end));
}

/// Without the pattern nothing is read.
pub proof fn law_nothing_quoted(s: Seq<char>, pattern: Seq<char>, from: int)
    requires
        0 <= from,
        pattern.len() > 0,
        forall|j: int| from <= j ==> !text::occurs_at(s, pattern, j),
    ensures
        quoted_from(s, pattern, from).len() == 0,
{
    text::lemma_find_from(s, pattern, from);
}

/// The text shows an import wherever a quoted text follows `from`, `import` or `import(`, in either
/// kind of quotes: the last form is dynamic, the others are static.
pub proof fn law_text_imports(js: Seq<char>, spec: Seq<char>)
    ensures
        quoted_from(js, "from \""@, 0).contains(spec) ==> text_imports(js).contains(
            referenced(spec, false),
        ),
        quoted_from(js, "from '"@, 0).contains(spec) ==> text_imports(js).contains(
            referenced(spec, false),
        ),
        quoted_from(js, "import \""@, 0).contains(spec) ==> text_imports(js).contains(
            referenced(spec, false),
        ),
        quoted_from(js, "import '"@, 0).contains(spec) ==> text_imports(js).contains(
            referenced(spec, false),
        ),
        quoted_from(js, "import(\""@, 0).contains(spec) ==> text_imports(js).contains(
            referenced(spec, true),
        ),
        quoted_from(js, "import('"@, 0).contains(spec) ==> text_imports(js).contains(
            referenced(spec, true),
        ),
        text_imports(js).len() == quoted_from(js, "from \""@, 0).len() + quoted_from(
            js,
            "from '"@,
            0,
        ).len() + quoted_from(js, "import \""@, 0).len() + quoted_from(js, "import '"@, 0).len()
            + quoted_from(js, "import(\""@, 0).len() + quoted_from(js, "import('"@, 0).len(),
{
    let a = quoted_from(js, "from \""@, 0);
    let b = quoted_from(js, "from '"@, 0);
    let c = quoted_from(js, "import \""@, 0);
    let d = quoted_from(js, "import '"@, 0);
    let e = quoted_from(js, "import(\""@, 0);
    let f = quoted_from(js, "import('"@, 0);
    let all = text_imports(js);
    let n = (a + b + c + d).len() as int;
    if a.contains(spec) {
        let k = choose|k: int| 0 <= k < a.len() && a[k] == spec;
        assert((a + b + c + d)[k] == spec);
        assert(all[k] == referenced(spec, false));
    }
    if b.contains(spec) {
        let k = choose|k: int| 0 <= k < b.len() && b[k] == spec;
        assert((a + b + c + d)[a.len() + k] == spec);
        assert(all[a.len() + k] == referenced(spec, false));
    }
    if c.contains(spec) {
        let k = choose|k: int| 0 <= k < c.len() && c[k] == spec;
        assert((a + b + c + d)[a.len() + b.len() + k] == spec);
        assert(all[a.len() + b.len() + k] == referenced(spec, false));
    }
    if d.contains(spec) {
        let k = choose|k: int| 0 <= k < d.len() && d[k] == spec;
        assert((a + b + c + d)[a.len() + b.len() + c.len() + k] == spec);
        assert(all[a.len() + b.len() + c.len() + k] == referenced(spec, false));
    }
    if e.contains(spec) {
        let k = choose|k: int| 0 <= k < e.len() && e[k] == spec;
        assert((e + f)[k] == spec);
        assert(all[n + k] == referenced(spec, true));
    }
    if f.contains(spec) {
        let k = choose|k: int| 0 <= k < f.len() && f[k] == spec;
        assert((e + f)[e.len() + k] == spec);
        assert(all[n + e.len() + k] == referenced(spec, true));
    }
}

} // verus!
