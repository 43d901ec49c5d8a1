//! A small, deterministic [import map] composer.
//!
//! Keys are module specifiers (bare `"lit"` or prefix `"lit/"`), and values
//! are URLs the browser resolves them to. Entries are kept in key order, so
//! repeated builds emit byte-identical output (stable diffs, cache-friendly).
//!
//! [import map]: https://developer.mozilla.org/en-US/docs/Web/HTML/Reference/Elements/script/type/importmap

use vstd::prelude::*;
use vstd::utf8::encode_utf8;

use crate::error::{seen, Error, Failure};
use crate::json;
use crate::json::{Json, Tree};
use crate::mount::{Mount, MountSpec};
use crate::sorted_map::{lemma_text_entries, listing, ordered, table, ByText, SortedMap};
use crate::text;

verus! {

/// An ES module import map (`{ "imports": { … } }`).
#[derive(Debug, PartialEq, Eq)]
pub struct Importmap {
    imports: SortedMap<ByText, String>,
}

impl View for Importmap {
    type V = Map<Seq<char>, Seq<char>>;

    closed spec fn view(&self) -> Map<Seq<char>, Seq<char>> {
        self.imports@.map_values(|url: String| url@)
    }
}

/// The entries that a list of mounts contributes: `<specifier>` to `<url>` for
/// each mount with a specifier, a later mount replacing an earlier one.
pub open spec fn mount_entries(mounts: Seq<MountSpec>) -> Map<Seq<char>, Seq<char>>
    decreases mounts.len(),
{
    if mounts.len() == 0 {
        Map::empty()
    } else {
        let front = mount_entries(mounts.drop_last());
        let last = mounts.last();
        if last.specifier.len() == 0 {
            front
        } else {
            front.insert(last.specifier, last.url)
        }
    }
}

/// The contents of a list of mounts.
pub open spec fn mount_specs(mounts: Seq<Mount>) -> Seq<MountSpec> {
    Seq::new(mounts.len(), |i: int| mounts[i]@)
}

/// `specifier` resolves under the map: it is a key, or a key that ends in `/`
/// stands at its start.
pub open spec fn resolvable(map: Map<Seq<char>, Seq<char>>, specifier: Seq<char>) -> bool {
    ||| map.contains_key(specifier)
    ||| exists|k: Seq<char>| #[trigger]
        map.contains_key(k) && k.len() > 0 && k.last() == '/' && k.is_prefix_of(specifier)
}

/// The fields of a JSON object that a list of texts under names stands for.
pub open spec fn text_fields(list: Seq<(Seq<char>, Seq<char>)>) -> Seq<(Seq<char>, Tree)> {
    Seq::new(list.len(), |i: int| (list[i].0, Tree::Text(list[i].1)))
}

/// The JSON document of an import map: its entries, in key order, under `imports`.
pub open spec fn document(map: Map<Seq<char>, Seq<char>>) -> Tree {
    Tree::Object(seq![("imports"@, Tree::Object(text_fields(listing::<ByText, Seq<char>>(map))))])
}

/// The first place at or after `i` where the field is no text.
pub open spec fn first_non_text(fields: Seq<(Seq<char>, Tree)>, i: int) -> Option<int>
    decreases fields.len() - i,
{
    if i < 0 || i >= fields.len() {
        None
    } else if !(fields[i].1 is Text) {
        Some(i)
    } else {
        first_non_text(fields, i + 1)
    }
}

/// The entries that a list of text fields stands for.
pub open spec fn field_entries(fields: Seq<(Seq<char>, Tree)>) -> Map<Seq<char>, Seq<char>>
    decreases fields.len(),
{
    if fields.len() == 0 {
        Map::empty()
    } else {
        field_entries(fields.drop_last()).insert(fields.last().0, fields.last().1->Text_0)
    }
}

/// The import map that a document holds: it needs a top-level `imports` object
/// whose values are texts.
pub open spec fn fragment(path: Seq<char>, doc: Tree) -> Result<
    Map<Seq<char>, Seq<char>>,
    Failure,
> {
    match json::field(doc, "imports"@) {
        Some(Tree::Object(fields)) => match first_non_text(fields, 0) {
            Some(i) => Err(
                Failure::ImportMap(
                    path + ": imports."@ + text::debug_form(fields[i].0) + " is not a string"@,
                ),
            ),
            None => Ok(field_entries(fields)),
        },
        _ => Err(Failure::ImportMap(path + ": expected a top-level 'imports' object"@)),
    }
}

/// The import map that a file holds: a JSON document that is a [`fragment`].
pub open spec fn file_fragment(path: Seq<char>, bytes: Seq<u8>) -> Result<
    Map<Seq<char>, Seq<char>>,
    Failure,
> {
    match json::json_document(bytes) {
        Ok(doc) => fragment(path, doc),
        Err(e) => Err(Failure::ImportMap(path + ": "@ + e)),
    }
}

proof fn lemma_document_textual(map: Map<Seq<char>, Seq<char>>, list: Seq<(Seq<char>, Seq<char>)>)
    requires
        ordered::<ByText, Seq<char>>(list),
        listing::<ByText, Seq<char>>(map) == list,
    ensures
        json::textual(document(map), json::readable_depth()),
{
    reveal_with_fuel(json::textual, 4);
    let inner = text_fields(list);
    assert forall|i: int, j: int| 0 <= i < j < inner.len() implies #[trigger] inner[i].0
        != #[trigger] inner[j].0 by {
        assert(text::before(list[i].0, list[j].0));
        text::lemma_before_irreflexive(list[i].0);
    }
    assert(json::distinct_fields(inner));
}

proof fn lemma_fragment_of_document(path: Seq<char>, list: Seq<(Seq<char>, Seq<char>)>)
    ensures
        fragment(
            path,
            Tree::Object(seq![("imports"@, Tree::Object(text_fields(list)))]),
        ) == Ok::<Map<Seq<char>, Seq<char>>, Failure>(table::<ByText, Seq<char>>(list)),
{
    let fields = seq![("imports"@, Tree::Object(text_fields(list)))];
    assert(fields[0].0 == "imports"@);
    lemma_all_text(text_fields(list), 0);
    lemma_field_entries(list);
}

proof fn lemma_all_text(fields: Seq<(Seq<char>, Tree)>, i: int)
    requires
        0 <= i,
        forall|j: int| 0 <= j < fields.len() ==> (#[trigger] fields[j]).1 is Text,
    ensures
        first_non_text(fields, i) is None,
    decreases fields.len() - i,
{
    if i < fields.len() {
        lemma_all_text(fields, i + 1);
    }
}

proof fn lemma_field_entries(list: Seq<(Seq<char>, Seq<char>)>)
    ensures
        field_entries(text_fields(list)) == table::<ByText, Seq<char>>(list),
    decreases list.len(),
{
    if list.len() > 0 {
        lemma_field_entries(list.drop_last());
        assert(text_fields(list).drop_last() =~= text_fields(list.drop_last()));
    }
}

/// An escaped text holds none of `<`, `>` and `&`.
pub proof fn lemma_markup_escaped(s: Seq<char>)
    ensures
        !json::markup_escaped(s).contains('<'),
        !json::markup_escaped(s).contains('>'),
        !json::markup_escaped(s).contains('&'),
{
    reveal_strlit("<");
    reveal_strlit(">");
    reveal_strlit("&");
    reveal_strlit("\\u003c");
    reveal_strlit("\\u003e");
    reveal_strlit("\\u0026");
    assert("<"@ =~= seq!['<']);
    assert(">"@ =~= seq!['>']);
    assert("&"@ =~= seq!['&']);
    let a = text::replaced(s, "<"@, "\\u003c"@);
    let b = text::replaced(a, ">"@, "\\u003e"@);
    text::lemma_replaced_lacks(s, "<"@, "\\u003c"@, 0, '<');
    text::lemma_replaced_lacks(a, ">"@, "\\u003e"@, 0, '<');
    text::lemma_replaced_lacks(a, ">"@, "\\u003e"@, 0, '>');
    text::lemma_replaced_lacks(b, "&"@, "\\u0026"@, 0, '<');
    text::lemma_replaced_lacks(b, "&"@, "\\u0026"@, 0, '>');
    text::lemma_replaced_lacks(b, "&"@, "\\u0026"@, 0, '&');
}

/// Escaping markup puts no line break into a text of one line.
proof fn lemma_escaped_one_line(s: Seq<char>)
    requires
        json::one_line(s),
    ensures
        json::one_line(json::markup_escaped(s)),
{
    reveal_strlit("\\u003c");
    reveal_strlit("\\u003e");
    reveal_strlit("\\u0026");
    let a = text::replaced(s, "<"@, "\\u003c"@);
    let b = text::replaced(a, ">"@, "\\u003e"@);
    text::lemma_replaced_lacks(s, "<"@, "\\u003c"@, 0, '\n');
    text::lemma_replaced_lacks(a, ">"@, "\\u003e"@, 0, '\n');
    text::lemma_replaced_lacks(b, "&"@, "\\u0026"@, 0, '\n');
    text::lemma_replaced_lacks(s, "<"@, "\\u003c"@, 0, '\r');
    text::lemma_replaced_lacks(a, ">"@, "\\u003e"@, 0, '\r');
    text::lemma_replaced_lacks(b, "&"@, "\\u0026"@, 0, '\r');
}

/// The element ends where it is closed, and nowhere before: a body without `<` closes nothing.
proof fn lemma_closed_once(body: Seq<char>, i: int)
    requires
        !body.contains('<'),
        text::occurs_at(script_tag(body), "</script>"@, i),
    ensures
        i == script_tag(body).len() - "</script>"@.len(),
{
    reveal_strlit("<script type=\"importmap\">");
    reveal_strlit("</script>");
    let head = "<script type=\"importmap\">"@;
    let whole = script_tag(body);
    let here = whole.subrange(i, i + "</script>"@.len());
    assert(here[0] == '<' && here[1] == '/');
    assert(whole[i] == '<' && whole[i + 1] == '/');
    if i < head.len() {
        assert(whole[i] == head[i]);
        if i + 1 < head.len() {
            assert(whole[i + 1] == head[i + 1]);
        }
    } else if i < head.len() + body.len() {
        assert(whole[i] == body[i - head.len()]);
        assert(body.contains(body[i - head.len()]));
    }
}

/// Escape JSON for embedding in an HTML `<script>` element: `<`, `>` and `&`
/// become `\uXXXX`, so nothing in it can close the element. These are valid
/// JSON string escapes; a reader decodes them back.
pub fn escape_for_script(json: &str) -> (r: String)
    ensures
        r@ == json::markup_escaped(json@),
        !r@.contains('<'),
        !r@.contains('>'),
        !r@.contains('&'),
{
    proof {
        reveal_strlit("<");
        reveal_strlit(">");
        reveal_strlit("&");
        lemma_markup_escaped(json@);
    }
    let a = text::replace(json, "<", "\\u003c");
    let b = text::replace(a.as_str(), ">", "\\u003e");
    text::replace(b.as_str(), "&", "\\u0026")
}

impl Importmap {
    /// An empty import map.
    pub fn new() -> (r: Self)
        ensures
            r@ == Map::<Seq<char>, Seq<char>>::empty(),
    {
        let r = Importmap { imports: SortedMap::new() };
        assert(r@ =~= Map::<Seq<char>, Seq<char>>::empty());
        r
    }

    /// Build an import map from a set of [`Mount`]s: each mount with a non-empty
    /// specifier contributes `<specifier>` to `<url>`.
    pub fn from_mounts(mounts: &Vec<Mount>) -> (r: Self)
        ensures
            r@ == mount_entries(mount_specs(mounts@)),
    {
        let mut map = Importmap::new();
        let mut i: usize = 0;
        while i < mounts.len()
            invariant
                i <= mounts@.len(),
                map@ == mount_entries(mount_specs(mounts@).take(i as int)),
            decreases mounts@.len() - i,
        {
            proof {
                let grown = mount_specs(mounts@).take(i + 1);
                assert(grown.drop_last() =~= mount_specs(mounts@).take(i as int));
                assert(grown.last() == mounts@[i as int]@);
            }
            let specifier = mounts[i].specifier_prefix();
            if !specifier.is_empty() {
                map.insert(specifier, mounts[i].url_prefix());
            }
            i += 1;
        }
        assert(mount_specs(mounts@).take(mounts@.len() as int) =~= mount_specs(mounts@));
        map
    }

    /// Add or replace an entry. Returns `&mut self` for chaining.
    pub fn insert(&mut self, specifier: &str, url: &str) -> (r: &mut Self)
        ensures
            r@ == old(self)@.insert(specifier@, url@),
            *final(self) == *final(r),
    {
        let ghost before = self@;
        self.imports.insert(specifier.to_owned(), url.to_owned());
        assert(self@ =~= before.insert(specifier@, url@));
        self
    }

    /// Merge `other` into `self`; on key conflicts `other` wins (call order is
    /// precedence: merge more specific fragments last).
    pub fn extend(&mut self, other: Importmap) -> (r: &mut Self)
        ensures
            r@ == old(self)@.union_prefer_right(other@),
            *final(self) == *final(r),
    {
        self.absorb(&other);
        self
    }

    /// Copy every entry of `other` over the entries of `self`.
    fn absorb(&mut self, other: &Importmap)
        ensures
            final(self)@ == old(self)@.union_prefer_right(other@),
    {
        let ghost before = self@;
        let entries = other.imports.entries();
        proof {
            lemma_text_entries(entries@);
        }
        let mut i: usize = 0;
        assert(self@ =~= before.union_prefer_right(
            table::<ByText, Seq<char>>(text::pairs(entries@).take(0)),
        ));
        while i < entries.len()
            invariant
                i <= entries@.len(),
                self@ == before.union_prefer_right(
                    table::<ByText, Seq<char>>(text::pairs(entries@).take(i as int)),
                ),
            decreases entries@.len() - i,
        {
            proof {
                let grown = text::pairs(entries@).take(i + 1);
                assert(grown.drop_last() =~= text::pairs(entries@).take(i as int));
                assert(grown.last() == (entries@[i as int].0@, entries@[i as int].1@));
                assert(before.union_prefer_right(table::<ByText, Seq<char>>(grown))
                    =~= before.union_prefer_right(
                    table::<ByText, Seq<char>>(text::pairs(entries@).take(i as int)),
                ).insert(entries@[i as int].0@, entries@[i as int].1@));
            }
            self.insert(entries[i].0.as_str(), entries[i].1.as_str());
            i += 1;
        }
        assert(text::pairs(entries@).take(entries@.len() as int) =~= text::pairs(entries@));
    }

    /// Whether the map has no entries.
    pub fn is_empty(&self) -> (r: bool)
        ensures
            r == (self@ == Map::<Seq<char>, Seq<char>>::empty()),
    {
        let entries = self.imports.entries();
        proof {
            crate::sorted_map::lemma_map_of::<ByText, String>(entries@);
            if entries@.len() > 0 {
                assert(self.imports@.contains_key(entries@[0].0@));
                assert(self@.contains_key(entries@[0].0@));
            } else {
                assert(self@ =~= Map::<Seq<char>, Seq<char>>::empty());
            }
        }
        entries.len() == 0
    }

    /// Number of entries.
    pub fn len(&self) -> (r: usize)
        ensures
            r == self@.len(),
    {
        let n = self.imports.len();
        assert(self@.dom() =~= self.imports@.dom());
        n
    }

    /// The `(specifier, url)` pairs in sorted order.
    pub fn iter(&self) -> (r: Vec<(String, String)>)
        ensures
            text::pairs(r@) == listing::<ByText, Seq<char>>(self@),
            ordered::<ByText, Seq<char>>(text::pairs(r@)),
            table::<ByText, Seq<char>>(text::pairs(r@)) == self@,
    {
        let entries = self.imports.entries();
        proof {
            lemma_text_entries(entries@);
            crate::sorted_map::lemma_listing::<ByText, Seq<char>>(text::pairs(entries@));
        }
        let mut out: Vec<(String, String)> = Vec::new();
        let mut i: usize = 0;
        while i < entries.len()
            invariant
                i <= entries@.len(),
                out@.len() == i,
                forall|j: int|
                    0 <= j < i ==> text::pair_text(#[trigger] out@[j]) == text::pair_text(
                        entries@[j],
                    ),
            decreases entries@.len() - i,
        {
            out.push((entries[i].0.clone(), entries[i].1.clone()));
            i += 1;
        }
        assert(text::pairs(out@) =~= text::pairs(entries@));
        out
    }

    /// Whether `specifier` resolves under this map: an exact key, or a prefix key
    /// (ending in `/`) that prefixes the specifier, e.g. `"lit/"` resolves
    /// `lit/decorators.js`.
    pub fn resolves(&self, specifier: &str) -> (r: bool)
        ensures
            r == resolvable(self@, specifier@),
    {
        if self.imports.contains_key(specifier) {
            assert(self@.contains_key(specifier@));
            return true;
        }
        let entries = self.imports.entries();
        proof {
            reveal_strlit("/");
            crate::sorted_map::lemma_map_of::<ByText, String>(entries@);
        }
        let mut i: usize = 0;
        while i < entries.len()
            invariant
                i <= entries@.len(),
                "/"@.len() == 1,
                "/"@[0] == '/',
                forall|j: int|
                    0 <= j < entries@.len() ==> self.imports@.contains_key(
                        (#[trigger] entries@[j]).0@,
                    ),
                forall|j: int|
                    0 <= j < i ==> !((#[trigger] entries@[j]).0@.len() > 0 && entries@[j].0@.last()
                        == '/' && entries@[j].0@.is_prefix_of(specifier@)),
            decreases entries@.len() - i,
        {
            let key = entries[i].0.as_str();
            let slashed = text::ends_with(key, "/");
            proof {
                if slashed {
                    assert("/"@ =~= key@.subrange(key@.len() - 1, key@.len() as int));
                    assert("/"@[0] == key@.subrange(key@.len() - 1, key@.len() as int)[0]);
                } else if key@.len() > 0 && key@.last() == '/' {
                    assert("/"@ =~= key@.subrange(key@.len() - 1, key@.len() as int));
                }
            }
            if slashed && text::starts_with(specifier, key) {
                assert(self@.contains_key(key@));
                return true;
            }
            i += 1;
        }
        proof {
            if resolvable(self@, specifier@) {
                let k = choose|k: Seq<char>| #[trigger]
                    self@.contains_key(k) && k.len() > 0 && k.last() == '/' && k.is_prefix_of(
                        specifier@,
                    );
                assert(self.imports@.contains_key(k));
                let j = choose|j: int|
                    0 <= j < entries@.len() && (#[trigger] entries@[j]).0@ == k;
            }
        }
        false
    }

    /// Read an import-map fragment file, given its path and content: a JSON
    /// document whose top-level `"imports"` object has string values.
    pub fn from_json_file(path: &str, bytes: &[u8]) -> (r: Result<Self, Error>)
        ensures
            seen(r) == file_fragment(path@, bytes@),
    {
        match json::parse(bytes) {
            Ok(doc) => Importmap::from_document(path, &doc),
            Err(e) => Err(Error::ImportMap(path.to_owned().concat(": ").concat(e.as_str()))),
        }
    }

    /// [`from_json_file`](Self::from_json_file) for content that is already a document.
    pub fn from_document(path: &str, doc: &Json) -> (r: Result<Self, Error>)
        ensures
            seen(r) == fragment(path@, doc.tree()),
    {
        let imports = match doc.get("imports") {
            Some(v) => v.as_object(),
            None => None,
        };
        match imports {
            Some(fields) => {
                let mut map = Importmap::new();
                let mut i: usize = 0;
                proof {
                    json::lemma_field_trees(fields@);
                }
                let ghost all = json::field_trees(fields@);
                while i < fields.len()
                    invariant
                        i <= fields@.len(),
                        all == json::field_trees(fields@),
                        all.len() == fields@.len(),
                        json::field(doc.tree(), "imports"@) == Some(Tree::Object(all)),
                        forall|j: int|
                            0 <= j < fields@.len() ==> #[trigger] all[j] == (
                                fields@[j].0@,
                                fields@[j].1.tree(),
                            ),
                        map@ == field_entries(all.take(i as int)),
                        first_non_text(all, 0) == first_non_text(all, i as int),
                    decreases fields@.len() - i,
                {
                    let entry = &fields[i];
                    proof {
                        assert(all[i as int] == (entry.0@, entry.1.tree()));
                        let grown = all.take(i + 1);
                        assert(grown.drop_last() =~= all.take(i as int));
                    }
                    match entry.1.as_str() {
                        Some(url) => {
                            map.insert(entry.0.as_str(), url);
                        },
                        None => {
                            return Err(
                                Error::ImportMap(
                                    path.to_owned().concat(": imports.").concat(
                                        text::debug_text(entry.0.as_str()).as_str(),
                                    ).concat(" is not a string"),
                                ),
                            );
                        },
                    }
                    i += 1;
                }
                assert(all.take(fields@.len() as int) =~= all);
                Ok(map)
            },
            None => Err(
                Error::ImportMap(
                    path.to_owned().concat(": expected a top-level 'imports' object"),
                ),
            ),
        }
    }

    /// The JSON document of this map.
    fn to_value(&self) -> (r: Json)
        ensures
            r.tree() == document(self@),
            json::textual(r.tree(), json::readable_depth()),
            document(self@) == Tree::Object(
                seq![
                    (
                        "imports"@,
                        Tree::Object(text_fields(listing::<ByText, Seq<char>>(self@))),
                    ),
                ],
            ),
            table::<ByText, Seq<char>>(listing::<ByText, Seq<char>>(self@)) == self@,
    {
        let list = self.iter();
        let mut fields: Vec<(String, Json)> = Vec::new();
        let mut i: usize = 0;
        while i < list.len()
            invariant
                i <= list@.len(),
                json::field_trees(fields@) == text_fields(text::pairs(list@)).take(i as int),
            decreases list@.len() - i,
        {
            let ghost kept = fields@;
            let url = Json::Text(list[i].1.clone());
            fields.push((list[i].0.clone(), url));
            proof {
                assert(fields@.drop_last() =~= kept);
                assert(url.tree() == Tree::Text(list@[i as int].1@));
                assert(fields@.last() == fields@[fields@.len() - 1]);
                assert(text_fields(text::pairs(list@)).take(i as int).push(
                    text_fields(text::pairs(list@))[i as int],
                ) =~= text_fields(text::pairs(list@)).take(i + 1));
            }
            i += 1;
        }
        assert(text_fields(text::pairs(list@)).take(list@.len() as int) =~= text_fields(
            text::pairs(list@),
        ));
        let mut top: Vec<(String, Json)> = Vec::new();
        let inner = Json::Object(fields);
        top.push(("imports".to_owned(), inner));
        proof {
            reveal_with_fuel(json::field_trees, 2);
            assert(top@.drop_last() =~= Seq::<(String, Json)>::empty());
            assert(json::field_trees(top@) =~= seq![("imports"@, inner.tree())]);
            lemma_document_textual(self@, text::pairs(list@));
        }
        Json::Object(top)
    }

    /// Serialize to a pretty JSON document. Reading the text back gives the document, and so
    /// the map; `<`, `>` and `&` stand in it as they are.
    pub fn to_json(&self) -> (r: String)
        ensures
            r@ == json::json_pretty(document(self@)),
            tells(r@, self@),
            json::markup_kept(r@, document(self@)),
            forall|path: Seq<char>| #[trigger]
                file_fragment(path, encode_utf8(r@)) == Ok::<Map<Seq<char>, Seq<char>>, Failure>(
                    self@,
                ),
    {
        let doc = self.to_value();
        let r = json::pretty(&doc);
        proof {
            assert forall|path: Seq<char>| #[trigger]
                file_fragment(path, encode_utf8(r@)) == Ok::<Map<Seq<char>, Seq<char>>, Failure>(
                    self@,
                ) by {
                lemma_fragment_of_document(path, listing::<ByText, Seq<char>>(self@));
            }
        }
        r
    }

    /// Render a complete `<script type="importmap">…</script>` element (compact JSON).
    ///
    /// Specifiers and URLs are auto-derived from each package's `package.json`, which
    /// is untrusted. `<`, `>` and `&` in the JSON are emitted as `\uXXXX` escapes so a
    /// hostile value (e.g. a specifier containing `</script>`) cannot terminate the
    /// element; the escapes are valid JSON, so the browser parses the same import map.
    pub fn to_script_tag(&self) -> (r: String)
        ensures
            r@ == script_tag(json::markup_escaped(json::json_compact(document(self@)))),
            ({
                let body = json::markup_escaped(json::json_compact(document(self@)));
                &&& !body.contains('<')
                &&& !body.contains('>')
                &&& !body.contains('&')
                &&& json::one_line(body)
                &&& tells(body, self@)
                &&& forall|i: int| #[trigger]
                    text::occurs_at(r@, "</script>"@, i) ==> i == r@.len() - "</script>"@.len()
                &&& forall|path: Seq<char>| #[trigger]
                    file_fragment(path, encode_utf8(body)) == Ok::<
                        Map<Seq<char>, Seq<char>>,
                        Failure,
                    >(self@)
            }),
    {
        let doc = self.to_value();
        let json = json::compact(&doc);
        let body = escape_for_script(json.as_str());
        proof {
            lemma_escaped_one_line(json@);
            assert forall|i: int| #[trigger]
                text::occurs_at(script_tag(body@), "</script>"@, i) implies i == script_tag(
                body@,
            ).len() - "</script>"@.len() by {
                lemma_closed_once(body@, i);
            }
            assert forall|path: Seq<char>| #[trigger]
                file_fragment(path, encode_utf8(body@)) == Ok::<Map<Seq<char>, Seq<char>>, Failure>(
                    self@,
                ) by {
                lemma_fragment_of_document(path, listing::<ByText, Seq<char>>(self@));
            }
        }
        let r = "<script type=\"importmap\">".to_owned().concat(body.as_str()).concat("</script>");
        assert(r@ == script_tag(body@));
        r
    }
}

/// A text is read as the document of a map, and the document holds the map's entries in key
/// order.
pub open spec fn tells(text: Seq<char>, map: Map<Seq<char>, Seq<char>>) -> bool {
    &&& json::json_document(encode_utf8(text)) == Ok::<Tree, Seq<char>>(document(map))
    &&& table::<ByText, Seq<char>>(listing::<ByText, Seq<char>>(map)) == map
}

/// Texts that are the same tell of the same map, whoever wrote them and in whichever form:
/// what is read is the entries, and nothing else.
pub proof fn law_same_text_same_map(
    text: Seq<char>,
    a: Map<Seq<char>, Seq<char>>,
    b: Map<Seq<char>, Seq<char>>,
)
    requires
        tells(text, a),
        tells(text, b),
    ensures
        a == b,
{
    let x = listing::<ByText, Seq<char>>(a);
    let y = listing::<ByText, Seq<char>>(b);
    let doc = document(a);
    assert(doc->Object_0[0] == ("imports"@, Tree::Object(text_fields(x))));
    assert(document(b)->Object_0[0] == ("imports"@, Tree::Object(text_fields(y))));
    assert(text_fields(x) == text_fields(y));
    assert(x.len() == text_fields(x).len() && y.len() == text_fields(y).len());
    assert(x =~= y) by {
        assert forall|i: int| 0 <= i < x.len() implies x[i] == y[i] by {
            assert(text_fields(x)[i] == (x[i].0, Tree::Text(x[i].1)));
            assert(text_fields(y)[i] == (y[i].0, Tree::Text(y[i].1)));
        }
    }
}

/// A `<script type="importmap">` element around `body`.
pub open spec fn script_tag(body: Seq<char>) -> Seq<char> {
    "<script type=\"importmap\">"@ + body + "</script>"@
}

impl Clone for Importmap {
    fn clone(&self) -> (r: Self)
        ensures
            r@ == self@,
    {
        let mut copy = Importmap::new();
        copy.absorb(self);
        assert(copy@ =~= self@);
        copy
    }
}

impl Default for Importmap {
    fn default() -> (r: Self)
        ensures
            r@ == Map::<Seq<char>, Seq<char>>::empty(),
    {
        Importmap::new()
    }
}

/// Every key resolves, a key that ends in `/` resolves everything behind it, more entries resolve
/// no less, and an empty map resolves nothing.
pub proof fn law_resolving(
    map: Map<Seq<char>, Seq<char>>,
    key: Seq<char>,
    rest: Seq<char>,
    other: Seq<char>,
    url: Seq<char>,
)
    ensures
        map.contains_key(key) ==> resolvable(map, key),
        map.contains_key(key + "/"@) ==> resolvable(map, key + "/"@ + rest),
        resolvable(map, rest) ==> resolvable(map.insert(other, url), rest),
        !resolvable(Map::empty(), rest),
{
    reveal_strlit("/");
    let k = key + "/"@;
    assert(k.last() == '/');
    assert((k + rest).subrange(0, k.len() as int) =~= k);
    assert(k.is_prefix_of(k + rest));
    if resolvable(map, rest) && !map.contains_key(rest) {
        let p = choose|p: Seq<char>| #[trigger]
            map.contains_key(p) && p.len() > 0 && p.last() == '/' && p.is_prefix_of(rest);
        assert(map.insert(other, url).contains_key(p));
    }
}

/// What resolves does so by itself or by a directory key above it: a specifier that no key is equal
/// to, and that no key ending in `/` starts, does not resolve.
pub proof fn law_nothing_else_resolves(map: Map<Seq<char>, Seq<char>>, specifier: Seq<char>)
    requires
        !map.contains_key(specifier),
        forall|k: Seq<char>| #[trigger]
            map.contains_key(k) ==> !"/"@.is_suffix_of(k) || !k.is_prefix_of(specifier),
    ensures
        !resolvable(map, specifier),
{
    reveal_strlit("/");
    if resolvable(map, specifier) {
        let k = choose|k: Seq<char>| #[trigger]
            map.contains_key(k) && k.len() > 0 && k.last() == '/' && k.is_prefix_of(specifier);
        text::lemma_suffix_chars(k, "/"@);
        assert("/"@.is_suffix_of(k));
    }
}

/// A fragment is read when its `imports` is an object of texts, and then it holds the object's
/// fields and no others, the last of a name; anything else is refused.
pub proof fn law_fragments(path: Seq<char>, fields: Seq<(Seq<char>, Tree)>, doc: Tree)
    requires
        json::field(doc, "imports"@) == Some(Tree::Object(fields)),
    ensures
        (exists|i: int| 0 <= i < fields.len() && !((#[trigger] fields[i]).1 is Text)) <==> fragment(
            path,
            doc,
        ) is Err,
        fragment(path, doc) matches Ok(map) ==> forall|i: int|
            0 <= i < fields.len() && (forall|j: int|
                i < j < fields.len() ==> (#[trigger] fields[j]).0 != fields[i].0) ==> map.contains_key(
                (#[trigger] fields[i]).0,
            ) && fields[i].1 == Tree::Text(map[fields[i].0]),
        fragment(path, doc) matches Ok(map) ==> forall|key: Seq<char>| #[trigger]
            map.contains_key(key) ==> exists|i: int|
                0 <= i < fields.len() && (#[trigger] fields[i]).0 == key,
{
    lemma_first_non_text_is_first(fields, 0);
    if first_non_text(fields, 0) is None {
        lemma_entries_of_fields(fields);
    }
}

proof fn lemma_first_non_text_is_first(fields: Seq<(Seq<char>, Tree)>, i: int)
    requires
        0 <= i,
    ensures
        match first_non_text(fields, i) {
            Some(k) => i <= k < fields.len() && !(fields[k].1 is Text),
            None => forall|j: int| i <= j < fields.len() ==> (#[trigger] fields[j]).1 is Text,
        },
    decreases fields.len() - i,
{
    if i < fields.len() && fields[i].1 is Text {
        lemma_first_non_text_is_first(fields, i + 1);
    }
}

proof fn lemma_entries_of_fields(fields: Seq<(Seq<char>, Tree)>)
    requires
        forall|j: int| 0 <= j < fields.len() ==> (#[trigger] fields[j]).1 is Text,
    ensures
        forall|i: int|
            0 <= i < fields.len() && (forall|j: int|
                i < j < fields.len() ==> (#[trigger] fields[j]).0 != fields[i].0)
                ==> field_entries(fields).contains_key((#[trigger] fields[i]).0) && fields[i].1
                == Tree::Text(field_entries(fields)[fields[i].0]),
        forall|key: Seq<char>| #[trigger]
            field_entries(fields).contains_key(key) ==> exists|i: int|
                0 <= i < fields.len() && (#[trigger] fields[i]).0 == key,
    decreases fields.len(),
{
    if fields.len() > 0 {
        let front = fields.drop_last();
        lemma_entries_of_fields(front);
        let last = fields[fields.len() - 1];
        assert forall|i: int|
            0 <= i < fields.len() && (forall|j: int|
                i < j < fields.len() ==> (#[trigger] fields[j]).0 != fields[i].0) implies field_entries(
            fields,
        ).contains_key((#[trigger] fields[i]).0) && fields[i].1 == Tree::Text(
            field_entries(fields)[fields[i].0],
        ) by {
            if i < front.len() {
                assert(front[i] == fields[i]);
                assert forall|j: int| i < j < front.len() implies (#[trigger] front[j]).0
                    != front[i].0 by {
                    assert(front[j] == fields[j]);
                }
                assert(last.0 != fields[i].0);
            }
        }
        assert forall|key: Seq<char>| #[trigger]
            field_entries(fields).contains_key(key) implies exists|i: int|
            0 <= i < fields.len() && (#[trigger] fields[i]).0 == key by {
            if key == last.0 {
                assert(fields[fields.len() - 1].0 == key);
            } else {
                assert(field_entries(front).contains_key(key));
                let k = choose|i: int| 0 <= i < front.len() && (#[trigger] front[i]).0 == key;
                assert(fields[k].0 == key);
            }
        }
    }
}

/// The element opens as an import map, closes as a script, and holds the text between.
pub proof fn law_script_element(body: Seq<char>)
    ensures
        "<script type=\"importmap\">"@.is_prefix_of(script_tag(body)),
        "</script>"@.is_suffix_of(script_tag(body)),
        script_tag(body).len() == body.len() + 34,
        script_tag(body).subrange(25, 25 + body.len() as int) == body,
{
    reveal_strlit("<script type=\"importmap\">");
    reveal_strlit("</script>");
    let open = "<script type=\"importmap\">"@;
    let close = "</script>"@;
    assert(script_tag(body).subrange(0, 25) =~= open);
    text::lemma_suffix_chars(script_tag(body), close);
    assert(script_tag(body).subrange(25, 25 + body.len() as int) =~= body);
}

/// A file is read when it is JSON, and then it is what its document is; what is wrong with it is
/// said behind the file's path.
pub proof fn law_files(path: Seq<char>, bytes: Seq<u8>, doc: Tree)
    ensures
        json::json_document(bytes) == Ok::<Tree, Seq<char>>(doc) ==> file_fragment(path, bytes)
            == fragment(path, doc),
        json::json_document(bytes) is Err ==> file_fragment(path, bytes) is Err,
        file_fragment(path, bytes) matches Err(e) ==> (e matches Failure::ImportMap(m)
            && path.is_prefix_of(m)),
        !(json::field(doc, "imports"@) matches Some(Tree::Object(_))) ==> fragment(path, doc) is Err,
{
    if let Err(e) = file_fragment(path, bytes) {
        let m = e->ImportMap_0;
        assert(m.subrange(0, path.len() as int) =~= path);
    }
}

/// The document of a map is one object, `imports`, with a field for every entry, in key order, and
/// no other.
pub proof fn law_document(map: Map<Seq<char>, Seq<char>>)
    ensures
        ({
            let list = listing::<ByText, Seq<char>>(map);
            json::field(document(map), "imports"@) matches Some(Tree::Object(fields)) && fields.len()
                == list.len() && forall|i: int|
                0 <= i < fields.len() ==> #[trigger] fields[i] == (list[i].0, Tree::Text(list[i].1))
        }),
{
}

/// A mount with a specifier contributes its URL under it, over what earlier mounts did; a mount
/// without one contributes nothing.
pub proof fn law_mounts_contribute(mounts: Seq<MountSpec>, next: MountSpec)
    ensures
        mount_entries(Seq::empty()) == Map::<Seq<char>, Seq<char>>::empty(),
        next.specifier.len() > 0 ==> mount_entries(mounts.push(next)) == mount_entries(mounts).insert(
            next.specifier,
            next.url,
        ),
        next.specifier.len() == 0 ==> mount_entries(mounts.push(next)) == mount_entries(mounts),
{
    assert(mounts.push(next).drop_last() =~= mounts);
}

} // verus!
