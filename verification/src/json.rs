//! JSON documents as plain values, and the calls into `serde_json` that read
//! and write them.

use vstd::prelude::*;
use vstd::utf8::encode_utf8;

use jsonc_parser::tokens::Token;

use crate::text;

verus! {

/// `serde_json::Number`, carried through as it is.
#[verifier::external_type_specification]
#[verifier::external_body]
pub struct ExNumber(serde_json::Number);

/// `serde_json::Value`, whose contents are [`tree_of`].
#[verifier::external_type_specification]
#[verifier::external_body]
pub struct ExValue(serde_json::Value);

/// A parsed JSON document. An object holds its fields in document order.
#[derive(Debug, PartialEq, Eq)]
pub enum Json {
    Null,
    Bool(bool),
    Number(serde_json::Number),
    Text(String),
    Array(Vec<Json>),
    Object(Vec<(String, Json)>),
}

/// A JSON document, as the contracts see it.
pub enum Tree {
    Null,
    Bool(bool),
    Number(serde_json::Number),
    Text(Seq<char>),
    Array(Seq<Tree>),
    Object(Seq<(Seq<char>, Tree)>),
}

impl Json {
    /// The document that this value stands for.
    pub open spec fn tree(self) -> Tree
        decreases self,
    {
        match self {
            Json::Null => Tree::Null,
            Json::Bool(b) => Tree::Bool(b),
            Json::Number(n) => Tree::Number(n),
            Json::Text(s) => Tree::Text(s@),
            Json::Array(items) => Tree::Array(trees(items@)),
            Json::Object(fields) => Tree::Object(field_trees(fields@)),
        }
    }
}

/// The documents that a list of values stands for.
pub open spec fn trees(items: Seq<Json>) -> Seq<Tree>
    decreases items,
{
    if items.len() == 0 {
        Seq::empty()
    } else {
        trees(items.drop_last()).push(items.last().tree())
    }
}

/// The fields that a list of named values stands for.
pub open spec fn field_trees(fields: Seq<(String, Json)>) -> Seq<(Seq<char>, Tree)>
    decreases fields,
{
    if fields.len() == 0 {
        Seq::empty()
    } else {
        field_trees(fields.drop_last()).push((fields.last().0@, fields.last().1.tree()))
    }
}

pub proof fn lemma_trees(items: Seq<Json>)
    ensures
        trees(items).len() == items.len(),
        forall|i: int| 0 <= i < items.len() ==> #[trigger] trees(items)[i] == items[i].tree(),
    decreases items.len(),
{
    if items.len() > 0 {
        lemma_trees(items.drop_last());
        assert forall|i: int| 0 <= i < items.len() implies #[trigger] trees(items)[i]
            == items[i].tree() by {
            if i < items.len() - 1 {
                assert(trees(items.drop_last())[i] == items.drop_last()[i].tree());
            }
        }
    }
}

pub proof fn lemma_field_trees(fields: Seq<(String, Json)>)
    ensures
        field_trees(fields).len() == fields.len(),
        forall|i: int|
            0 <= i < fields.len() ==> #[trigger] field_trees(fields)[i] == (
                fields[i].0@,
                fields[i].1.tree(),
            ),
    decreases fields.len(),
{
    if fields.len() > 0 {
        lemma_field_trees(fields.drop_last());
        assert forall|i: int| 0 <= i < fields.len() implies #[trigger] field_trees(fields)[i] == (
            fields[i].0@,
            fields[i].1.tree(),
        ) by {
            if i < fields.len() - 1 {
                assert(field_trees(fields.drop_last())[i] == (
                    fields.drop_last()[i].0@,
                    fields.drop_last()[i].1.tree(),
                ));
            }
        }
    }
}

/// The first field named `key` at or after place `i`.
pub open spec fn lookup_from(fields: Seq<(Seq<char>, Tree)>, key: Seq<char>, i: int) -> Option<Tree>
    decreases fields.len() - i,
{
    if i < 0 || i >= fields.len() {
        None
    } else if fields[i].0 == key {
        Some(fields[i].1)
    } else {
        lookup_from(fields, key, i + 1)
    }
}

/// The value of a document's field `key`: nothing when the document is no object.
pub open spec fn field(doc: Tree, key: Seq<char>) -> Option<Tree> {
    match doc {
        Tree::Object(fields) => lookup_from(fields, key, 0),
        _ => None,
    }
}

/// The value of the field `inner` of a document's field `outer`.
pub open spec fn field2(doc: Tree, outer: Seq<char>, inner: Seq<char>) -> Option<Tree> {
    match field(doc, outer) {
        Some(v) => field(v, inner),
        None => None,
    }
}

/// The text of an optional document, when it is one.
pub open spec fn text_of(doc: Option<Tree>) -> Option<Seq<char>> {
    match doc {
        Some(Tree::Text(s)) => Some(s),
        _ => None,
    }
}

/// The document of an optional value.
pub open spec fn opt_tree(o: Option<&Json>) -> Option<Tree> {
    match o {
        Some(v) => Some(v.tree()),
        None => None,
    }
}

impl Json {
    /// The value of the field `key`: nothing when this is no object.
    pub fn get(&self, key: &str) -> (r: Option<&Json>)
        ensures
            opt_tree(r) == field(self.tree(), key@),
    {
        match self {
            Json::Object(fields) => {
                let mut i: usize = 0;
                proof {
                    lemma_field_trees(fields@);
                }
                while i < fields.len()
                    invariant
                        i <= fields@.len(),
                        field_trees(fields@).len() == fields@.len(),
                        forall|j: int|
                            0 <= j < fields@.len() ==> #[trigger] field_trees(fields@)[j] == (
                                fields@[j].0@,
                                fields@[j].1.tree(),
                            ),
                        lookup_from(field_trees(fields@), key@, 0) == lookup_from(
                            field_trees(fields@),
                            key@,
                            i as int,
                        ),
                        self.tree() == Tree::Object(field_trees(fields@)),
                    decreases fields@.len() - i,
                {
                    let entry = &fields[i];
                    assert(field_trees(fields@)[i as int] == (entry.0@, entry.1.tree()));
                    if text::same(entry.0.as_str(), key) {
                        return Some(&entry.1);
                    }
                    i += 1;
                }
                None
            },
            _ => None,
        }
    }

    /// The value of the field `inner` of the field `outer`.
    pub fn get2(&self, outer: &str, inner: &str) -> (r: Option<&Json>)
        ensures
            opt_tree(r) == field2(self.tree(), outer@, inner@),
    {
        match self.get(outer) {
            Some(v) => v.get(inner),
            None => None,
        }
    }

    /// The text, when this is one.
    pub fn as_str(&self) -> (r: Option<&str>)
        ensures
            match r {
                Some(s) => self.tree() == Tree::Text(s@),
                None => !(self.tree() is Text),
            },
    {
        match self {
            Json::Text(s) => Some(s.as_str()),
            _ => None,
        }
    }

    /// The truth value, when this is one.
    pub fn as_bool(&self) -> (r: Option<bool>)
        ensures
            match r {
                Some(b) => self.tree() == Tree::Bool(b),
                None => !(self.tree() is Bool),
            },
    {
        match self {
            Json::Bool(b) => Some(*b),
            _ => None,
        }
    }

    /// The entries, when this is an array.
    pub fn as_array(&self) -> (r: Option<&Vec<Json>>)
        ensures
            match r {
                Some(items) => self.tree() == Tree::Array(trees(items@)),
                None => !(self.tree() is Array),
            },
    {
        match self {
            Json::Array(items) => Some(items),
            _ => None,
        }
    }

    /// The fields, when this is an object.
    pub fn as_object(&self) -> (r: Option<&Vec<(String, Json)>>)
        ensures
            match r {
                Some(fields) => self.tree() == Tree::Object(field_trees(fields@)),
                None => !(self.tree() is Object),
            },
    {
        match self {
            Json::Object(fields) => Some(fields),
            _ => None,
        }
    }
}

/// The text of the field `key`, when it holds one.
pub fn text_field(doc: &Json, key: &str) -> (r: Option<String>)
    ensures
        text::opt_text(r) == text_of(field(doc.tree(), key@)),
{
    match doc.get(key) {
        Some(v) => match v.as_str() {
            Some(s) => Some(s.to_owned()),
            None => None,
        },
        None => None,
    }
}


// ---------------------------------------------------------------------------
// serde_json
// ---------------------------------------------------------------------------

/// The document that a `serde_json::Value` holds.
pub uninterp spec fn tree_of(value: serde_json::Value) -> Tree;

/// What `serde_json::from_slice` makes of `bytes`: a document, or the text of its complaint.
pub uninterp spec fn json_document(bytes: Seq<u8>) -> Result<Tree, Seq<char>>;

/// What `serde_json::to_string_pretty` writes for a document.
pub uninterp spec fn json_pretty(doc: Tree) -> Seq<char>;

/// What `serde_json::to_string` writes for a document.
pub uninterp spec fn json_compact(doc: Tree) -> Seq<char>;

/// The outermost layer of a `serde_json::Value`.
enum Layer {
    Null,
    Bool(bool),
    Number(serde_json::Number),
    Text(String),
    Array(Vec<serde_json::Value>),
    Object(Vec<(String, serde_json::Value)>),
}

/// The documents that a list of `serde_json` values holds.
spec fn value_trees(items: Seq<serde_json::Value>) -> Seq<Tree> {
    Seq::new(items.len(), |i: int| tree_of(items[i]))
}

/// The fields that a list of named `serde_json` values holds.
spec fn value_field_trees(fields: Seq<(String, serde_json::Value)>) -> Seq<(Seq<char>, Tree)> {
    Seq::new(fields.len(), |i: int| (fields[i].0@, tree_of(fields[i].1)))
}

/// The document that a layer and what is below it hold.
spec fn layer_tree(layer: Layer) -> Tree {
    match layer {
        Layer::Null => Tree::Null,
        Layer::Bool(b) => Tree::Bool(b),
        Layer::Number(n) => Tree::Number(n),
        Layer::Text(s) => Tree::Text(s@),
        Layer::Array(items) => Tree::Array(value_trees(items@)),
        Layer::Object(fields) => Tree::Object(value_field_trees(fields@)),
    }
}

/// Takes one layer off a `serde_json::Value`, variant by variant; an object's
/// fields come in the order in which its `Map` holds them.
#[verifier::external_body]
fn open_value(value: serde_json::Value) -> (r: Layer)
    ensures
        layer_tree(r) == tree_of(value),
{
    match value {
        serde_json::Value::Null => Layer::Null,
        serde_json::Value::Bool(b) => Layer::Bool(b),
        serde_json::Value::Number(n) => Layer::Number(n),
        serde_json::Value::String(s) => Layer::Text(s),
        serde_json::Value::Array(items) => Layer::Array(items),
        serde_json::Value::Object(fields) => Layer::Object(fields.into_iter().collect()),
    }
}

/// No two fields share a name.
pub open spec fn distinct_fields(fields: Seq<(Seq<char>, Tree)>) -> bool {
    forall|i: int, j: int| 0 <= i < j < fields.len() ==> #[trigger] fields[i].0 != #[trigger] fields[j].0
}

/// Makes a `serde_json::Value` of one layer, variant by variant. A `Map` keeps
/// one value for each name, so the names of an object have to differ.
#[verifier::external_body]
fn close_value(layer: Layer) -> (r: serde_json::Value)
    requires
        layer_tree(layer) matches Tree::Object(fields) ==> distinct_fields(fields),
    ensures
        tree_of(r) == layer_tree(layer),
{
    match layer {
        Layer::Null => serde_json::Value::Null,
        Layer::Bool(b) => serde_json::Value::Bool(b),
        Layer::Number(n) => serde_json::Value::Number(n),
        Layer::Text(s) => serde_json::Value::String(s),
        Layer::Array(items) => serde_json::Value::Array(items),
        Layer::Object(fields) => serde_json::Value::Object(fields.into_iter().collect()),
    }
}

/// Calls `serde_json::from_slice` for a `serde_json::Value`. It gives a value
/// exactly when [`json_document`] is a document, and the value holds that
/// document; otherwise the text of the error that came back.
#[verifier::external_body]
fn read_value(bytes: &[u8]) -> (r: Result<serde_json::Value, String>)
    ensures
        match r {
            Ok(value) => json_document(bytes@) == Ok::<Tree, Seq<char>>(tree_of(value)),
            Err(e) => json_document(bytes@) == Err::<Tree, Seq<char>>(e@),
        },
{
    serde_json::from_slice(bytes).map_err(|e| e.to_string())
}

/// The plain value of a `serde_json::Value`.
fn plain_value(value: serde_json::Value) -> (r: Json)
    ensures
        r.tree() == tree_of(value),
    decreases tree_of(value),
{
    let ghost whole = tree_of(value);
    match open_value(value) {
        Layer::Null => Json::Null,
        Layer::Bool(b) => Json::Bool(b),
        Layer::Number(n) => Json::Number(n),
        Layer::Text(s) => Json::Text(s),
        Layer::Array(items) => {
            let ghost all = items@;
            let mut out: Vec<Json> = Vec::new();
            for x in it: items
                invariant
                    it.seq() == all,
                    whole == Tree::Array(value_trees(all)),
                    whole == tree_of(value),
                    trees(out@) == value_trees(all).take(it.index()),
            {
                proof {
                    let i = it.index();
                    assert(value_trees(all)[i] == tree_of(x));
                    assert(decreases_to!(whole => whole->Array_0));
                    assert(decreases_to!(whole->Array_0 => whole->Array_0[i]));
                    assert(value_trees(all).take(i).push(tree_of(x)) =~= value_trees(all).take(
                        i + 1,
                    ));
                }
                let ghost kept = out@;
                let y = plain_value(x);
                out.push(y);
                proof {
                    assert(out@.drop_last() =~= kept);
                }
            }
            assert(value_trees(all).take(all.len() as int) =~= value_trees(all));
            Json::Array(out)
        },
        Layer::Object(fields) => {
            let ghost all = fields@;
            let mut out: Vec<(String, Json)> = Vec::new();
            for entry in it: fields
                invariant
                    it.seq() == all,
                    whole == Tree::Object(value_field_trees(all)),
                    whole == tree_of(value),
                    field_trees(out@) == value_field_trees(all).take(it.index()),
            {
                let (name, x) = entry;
                proof {
                    let i = it.index();
                    assert(value_field_trees(all)[i] == (name@, tree_of(x)));
                    assert(decreases_to!(whole => whole->Object_0));
                    assert(decreases_to!(whole->Object_0 => whole->Object_0[i]));
                    assert(decreases_to!(whole->Object_0[i] => whole->Object_0[i].1));
                    assert(value_field_trees(all).take(i).push((name@, tree_of(x)))
                        =~= value_field_trees(all).take(i + 1));
                }
                let ghost kept = out@;
                let y = plain_value(x);
                out.push((name, y));
                proof {
                    assert(out@.drop_last() =~= kept);
                }
            }
            assert(value_field_trees(all).take(all.len() as int) =~= value_field_trees(all));
            Json::Object(out)
        },
    }
}

/// Parse `bytes` as one JSON document; the error is the parser's own text.
pub fn parse(bytes: &[u8]) -> (r: Result<Json, String>)
    ensures
        match r {
            Ok(doc) => json_document(bytes@) == Ok::<Tree, Seq<char>>(doc.tree()),
            Err(e) => json_document(bytes@) == Err::<Tree, Seq<char>>(e@),
        },
{
    match read_value(bytes) {
        Ok(value) => Ok(plain_value(value)),
        Err(e) => Err(e),
    }
}

/// What `jsonc_parser` makes of a text that may hold comments and trailing commas: a
/// document, or the text of its complaint.
pub uninterp spec fn jsonc_document(raw: Seq<char>) -> Result<Tree, Seq<char>>;

/// A value came back, and it holds `null`.
spec fn holds_null(r: Result<serde_json::Value, String>) -> bool {
    r matches Ok(value) && tree_of(value) == Tree::Null
}

/// Calls `jsonc_parser::parse_to_serde_value` for a `serde_json::Value`, with its default
/// options. It gives a value exactly when [`jsonc_document`] is a document, and the value
/// holds that document; otherwise the text of the error that came back. An empty text is
/// the document `null`.
#[verifier::external_body]
fn read_jsonc(raw: &str) -> (r: Result<serde_json::Value, String>)
    ensures
        match r {
            Ok(value) => jsonc_document(raw@) == Ok::<Tree, Seq<char>>(tree_of(value)),
            Err(e) => jsonc_document(raw@) == Err::<Tree, Seq<char>>(e@),
        },
        raw@.len() == 0 ==> holds_null(r),
{
    jsonc_parser::parse_to_serde_value(raw, &Default::default()).map_err(|e| e.to_string())
}

/// A word or a mark of a text with comments and trailing commas, as the contracts see it: what
/// opens and closes an object or a list, a colon, a comma, a comment, and everything else by
/// what it says.
pub enum Lexeme {
    Open,
    Close,
    Colon,
    Comma,
    Comment,
    Name(Seq<char>),
}

/// A word or a mark of a text with comments and trailing commas.
#[derive(Clone, Debug, PartialEq, Eq)]
pub enum Piece {
    Open,
    Close,
    Colon,
    Comma,
    Comment,
    Name(String),
}

impl View for Piece {
    type V = Lexeme;

    open spec fn view(&self) -> Lexeme {
        match self {
            Piece::Open => Lexeme::Open,
            Piece::Close => Lexeme::Close,
            Piece::Colon => Lexeme::Colon,
            Piece::Comma => Lexeme::Comma,
            Piece::Comment => Lexeme::Comment,
            Piece::Name(s) => Lexeme::Name(s@),
        }
    }
}

/// The contents of a list of words and marks.
pub open spec fn lexemes(list: Seq<Piece>) -> Seq<Lexeme> {
    Seq::new(list.len(), |i: int| list[i]@)
}

/// The words and marks of a text with comments and trailing commas, in order, up to the first
/// that is none.
pub uninterp spec fn jsonc_lexemes(raw: Seq<char>) -> Seq<Lexeme>;

/// Calls `jsonc_parser::Scanner::scan` with its default options until it has no token left or
/// refuses one, and keeps of each token what a [`Lexeme`] says: [`jsonc_lexemes`]. An empty text
/// has none.
#[verifier::external_body]
pub(crate) fn read_lexemes(raw: &str) -> (r: Vec<Piece>)
    ensures
        lexemes(r@) == jsonc_lexemes(raw@),
        raw@.len() == 0 ==> r@.len() == 0,
{
    let mut scanner = jsonc_parser::Scanner::new(raw, &Default::default());
    let mut out = Vec::new();
    while let Ok(Some(token)) = scanner.scan() {
        out.push(match token {
            Token::OpenBrace | Token::OpenBracket => Piece::Open,
            Token::CloseBrace | Token::CloseBracket => Piece::Close,
            Token::Colon => Piece::Colon,
            Token::Comma => Piece::Comma,
            Token::CommentLine(_) | Token::CommentBlock(_) => Piece::Comment,
            word => Piece::Name(word.as_str().to_string()),
        });
    }
    out
}

/// The words and marks among the first `n` that are no comments.
pub open spec fn uncommented(list: Seq<Lexeme>, n: int) -> Seq<Lexeme>
    decreases n,
{
    if n <= 0 {
        Seq::empty()
    } else if list[n - 1] is Comment {
        uncommented(list, n - 1)
    } else {
        uncommented(list, n - 1).push(list[n - 1])
    }
}

/// How many objects and lists are open behind the first `n` words and marks.
pub open spec fn open_at(list: Seq<Lexeme>, n: int) -> int
    decreases n,
{
    if n <= 0 {
        0
    } else {
        open_at(list, n - 1) + match list[n - 1] {
            Lexeme::Open => 1int,
            Lexeme::Close => -1int,
            _ => 0,
        }
    }
}

/// The members that the first `n` words and marks of a document name, a repeated one repeated:
/// those of the object that the document is, and with each those of the object that its value
/// is. A name is a word before a colon.
pub open spec fn members_upto(list: Seq<Lexeme>, n: int) -> Seq<(Seq<char>, Seq<Seq<char>>)>
    decreases n,
{
    if n <= 0 {
        Seq::empty()
    } else {
        let before = members_upto(list, n - 1);
        match list[n - 1] {
            Lexeme::Name(name) => if n < list.len() && list[n] is Colon {
                if open_at(list, n - 1) == 1 {
                    before.push((name, Seq::empty()))
                } else if open_at(list, n - 1) == 2 && before.len() > 0 {
                    before.update(
                        before.len() - 1,
                        (before.last().0, before.last().1.push(name)),
                    )
                } else {
                    before
                }
            } else {
                before
            },
            _ => before,
        }
    }
}

/// The members of the object that a document is, as they are written: their names in order, and
/// with each the names of the members of its own value.
pub open spec fn members(list: Seq<Lexeme>) -> Seq<(Seq<char>, Seq<Seq<char>>)> {
    let bare = uncommented(list, list.len() as int);
    members_upto(bare, bare.len() as int)
}

/// The contents of a list of members.
pub open spec fn members_seen(list: Seq<(String, Vec<String>)>) -> Seq<
    (Seq<char>, Seq<Seq<char>>),
> {
    Seq::new(list.len(), |i: int| (list[i].0@, text::texts(list[i].1@)))
}

fn drop_comments(list: Vec<Piece>) -> (r: Vec<Piece>)
    ensures
        lexemes(r@) == uncommented(lexemes(list@), list@.len() as int),
{
    let ghost all = lexemes(list@);
    let mut out: Vec<Piece> = Vec::new();
    let mut i: usize = 0;
    assert(lexemes(out@) =~= uncommented(all, 0));
    while i < list.len()
        invariant
            i <= list@.len(),
            all == lexemes(list@),
            lexemes(out@) == uncommented(all, i as int),
        decreases list@.len() - i,
    {
        assert(all[i as int] == list@[i as int]@);
        let ghost before = lexemes(out@);
        let kept = match &list[i] {
            Piece::Open => Some(Piece::Open),
            Piece::Close => Some(Piece::Close),
            Piece::Colon => Some(Piece::Colon),
            Piece::Comma => Some(Piece::Comma),
            Piece::Comment => None,
            Piece::Name(s) => Some(Piece::Name(s.clone())),
        };
        if let Some(one) = kept {
            out.push(one);
            assert(lexemes(out@) =~= before.push(all[i as int]));
        }
        i += 1;
    }
    out
}

/// Whether a colon stands at place `i` of some words and marks.
fn is_colon(list: &Vec<Piece>, i: usize) -> (r: bool)
    ensures
        r == (i < list@.len() && lexemes(list@)[i as int] is Colon),
{
    i < list.len() && matches!(list[i], Piece::Colon)
}

/// The members of the object that a document is, as they are written.
pub fn find_members(list: Vec<Piece>) -> (r: Vec<(String, Vec<String>)>)
    ensures
        members_seen(r@) == members(lexemes(list@)),
{
    let bare = drop_comments(list);
    let ghost all = lexemes(bare@);
    let n: usize = bare.len();
    let mut out: Vec<(String, Vec<String>)> = Vec::new();
    let mut depth: i128 = 0;
    let mut i: usize = 0;
    assert(members_seen(out@) =~= members_upto(all, 0));
    while i < n
        invariant
            i <= n,
            n == bare@.len(),
            all == lexemes(bare@),
            -(i as int) <= depth <= i,
            depth == open_at(all, i as int),
            members_seen(out@) == members_upto(all, i as int),
        decreases n - i,
    {
        assert(all[i as int] == bare@[i as int]@);
        let ghost before = members_seen(out@);
        match &bare[i] {
            Piece::Open => {
                depth = depth + 1;
            },
            Piece::Close => {
                depth = depth - 1;
            },
            Piece::Name(name) => {
                if is_colon(&bare, i + 1) {
                    if depth == 1 {
                        let none: Vec<String> = Vec::new();
                        out.push((name.clone(), none));
                        assert(text::texts(none@) =~= Seq::<Seq<char>>::empty());
                        assert(members_seen(out@) =~= before.push((name@, Seq::empty())));
                    } else if depth == 2 && out.len() > 0 {
                        let ghost was = out@;
                        let (owner, mut inner) = match out.pop() {
                            Some(last) => last,
                            None => (String::new(), Vec::new()),
                        };
                        let ghost held = inner@;
                        let one = name.clone();
                        proof {
                            text::lemma_texts_push(held, one);
                        }
                        inner.push(one);
                        out.push((owner, inner));
                        proof {
                            assert(was.last() == (owner, was.last().1));
                            assert(before.last() == (owner@, text::texts(held)));
                            assert(members_seen(out@) =~= before.update(
                                before.len() - 1,
                                (before.last().0, before.last().1.push(name@)),
                            ));
                        }
                    }
                }
            },
            _ => {},
        }
        i += 1;
    }
    out
}

/// Parse `raw` as one JSON document with comments and trailing commas; the error is the
/// parser's own text.
pub fn parse_jsonc(raw: &str) -> (r: Result<Json, String>)
    ensures
        match r {
            Ok(doc) => jsonc_document(raw@) == Ok::<Tree, Seq<char>>(doc.tree()),
            Err(e) => jsonc_document(raw@) == Err::<Tree, Seq<char>>(e@),
        },
        raw@.len() == 0 ==> (r matches Ok(doc) && doc.tree() == Tree::Null),
{
    match read_jsonc(raw) {
        Ok(value) => Ok(plain_value(value)),
        Err(e) => Err(e),
    }
}

/// A document of texts, lists and objects with distinct field names, nested at
/// most `depth` deep. Writing such a document and reading it back loses nothing.
pub open spec fn textual(doc: Tree, depth: nat) -> bool
    decreases depth,
{
    match doc {
        Tree::Text(_) => true,
        Tree::Array(items) => {
            &&& depth > 0
            &&& forall|i: int|
                0 <= i < items.len() ==> textual(#[trigger] items[i], (depth - 1) as nat)
        },
        Tree::Object(fields) => {
            &&& depth > 0
            &&& distinct_fields(fields)
            &&& forall|i: int|
                0 <= i < fields.len() ==> textual((#[trigger] fields[i]).1, (depth - 1) as nat)
        },
        _ => false,
    }
}

/// How deep a document may nest for [`textual`] here: well below the nesting
/// at which `serde_json` stops reading.
pub open spec fn readable_depth() -> nat {
    16
}

/// `text` is read as the document `doc`.
pub open spec fn reads_as(text: Seq<char>, doc: Tree) -> bool {
    json_document(encode_utf8(text)) == Ok::<Tree, Seq<char>>(doc)
}

/// A character that means something to HTML.
pub open spec fn markup(c: char) -> bool {
    c == '<' || c == '>' || c == '&'
}

/// How often a character stands in the texts and the field names of a document.
pub open spec fn count_in(doc: Tree, c: char) -> nat
    decreases doc,
{
    match doc {
        Tree::Text(s) => text::count(s, c),
        Tree::Array(items) => count_in_items(items, c),
        Tree::Object(fields) => count_in_fields(fields, c),
        _ => 0,
    }
}

/// How often a character stands in the texts and the field names of a list of documents.
pub open spec fn count_in_items(items: Seq<Tree>, c: char) -> nat
    decreases items,
{
    if items.len() == 0 {
        0
    } else {
        count_in_items(items.drop_last(), c) + count_in(items.last(), c)
    }
}

/// How often a character stands in the names and the documents of a list of fields.
pub open spec fn count_in_fields(fields: Seq<(Seq<char>, Tree)>, c: char) -> nat
    decreases fields,
{
    if fields.len() == 0 {
        0
    } else {
        count_in_fields(fields.drop_last(), c) + text::count(fields.last().0, c) + count_in(
            fields.last().1,
            c,
        )
    }
}

/// Every `<`, `>` and `&` of a document stands in the text as it is.
pub open spec fn markup_kept(text: Seq<char>, doc: Tree) -> bool {
    forall|c: char| markup(c) ==> #[trigger] text::count(text, c) == count_in(doc, c)
}

/// A text holds no line break.
pub open spec fn one_line(text: Seq<char>) -> bool {
    !text.contains('\n') && !text.contains('\r')
}

/// Calls `serde_json::to_string_pretty` for a `serde_json::Value`, which cannot
/// fail: the text is [`json_pretty`] of the document, and reading the text of a
/// [`textual`] document back gives the document. `<`, `>` and `&` are not escaped, and
/// nothing outside the strings is written with them.
#[verifier::external_body]
fn write_pretty(value: &serde_json::Value) -> (r: String)
    ensures
        r@ == json_pretty(tree_of(*value)),
        textual(tree_of(*value), readable_depth()) ==> reads_as(r@, tree_of(*value)),
        textual(tree_of(*value), readable_depth()) ==> markup_kept(r@, tree_of(*value)),
{
    serde_json::to_string_pretty(value).expect("a value serializes")
}

/// Calls `serde_json::to_string` for a `serde_json::Value`, which cannot fail:
/// the text is [`json_compact`] of the document. Reading the text of a
/// [`textual`] document back gives the document, and so does reading it with
/// `<`, `>` and `&` escaped: they only stand inside strings, where the escape
/// of a character reads as the character. The text is one line: nothing is broken, and a
/// line break in a string is escaped.
#[verifier::external_body]
fn write_compact(value: &serde_json::Value) -> (r: String)
    ensures
        r@ == json_compact(tree_of(*value)),
        textual(tree_of(*value), readable_depth()) ==> reads_as(r@, tree_of(*value)),
        textual(tree_of(*value), readable_depth()) ==> reads_as(
            markup_escaped(r@),
            tree_of(*value),
        ),
        textual(tree_of(*value), readable_depth()) ==> one_line(r@),
{
    serde_json::to_string(value).expect("a value serializes")
}

/// `s` with `<`, `>` and `&` written as JSON escapes.
pub open spec fn markup_escaped(s: Seq<char>) -> Seq<char> {
    text::replaced(
        text::replaced(text::replaced(s, "<"@, "\\u003c"@), ">"@, "\\u003e"@),
        "&"@,
        "\\u0026"@,
    )
}

/// The `serde_json::Value` of a plain value.
fn make_value(doc: &Json, Ghost(depth): Ghost<nat>) -> (r: serde_json::Value)
    requires
        textual(doc.tree(), depth),
    ensures
        tree_of(r) == doc.tree(),
    decreases depth,
{
    match doc {
        Json::Text(s) => close_value(Layer::Text(s.clone())),
        Json::Array(items) => {
            proof {
                lemma_trees(items@);
            }
            let mut out: Vec<serde_json::Value> = Vec::new();
            let mut i: usize = 0;
            while i < items.len()
                invariant
                    i <= items@.len(),
                    out@.len() == i,
                    doc.tree() == Tree::Array(trees(items@)),
                    trees(items@).len() == items@.len(),
                    textual(doc.tree(), depth),
                    forall|j: int|
                        0 <= j < items@.len() ==> #[trigger] trees(items@)[j] == items@[j].tree(),
                    forall|j: int| 0 <= j < i ==> tree_of(#[trigger] out@[j]) == trees(items@)[j],
                decreases items@.len() - i,
            {
                assert(trees(items@)[i as int] == items@[i as int].tree());
                assert(textual(doc.tree()->Array_0[i as int], (depth - 1) as nat));
                let y = make_value(&items[i], Ghost((depth - 1) as nat));
                out.push(y);
                i += 1;
            }
            assert(value_trees(out@) =~= trees(items@));
            close_value(Layer::Array(out))
        },
        Json::Object(fields) => {
            proof {
                lemma_field_trees(fields@);
            }
            let mut out: Vec<(String, serde_json::Value)> = Vec::new();
            let mut i: usize = 0;
            while i < fields.len()
                invariant
                    i <= fields@.len(),
                    out@.len() == i,
                    doc.tree() == Tree::Object(field_trees(fields@)),
                    field_trees(fields@).len() == fields@.len(),
                    textual(doc.tree(), depth),
                    forall|j: int|
                        0 <= j < fields@.len() ==> #[trigger] field_trees(fields@)[j] == (
                            fields@[j].0@,
                            fields@[j].1.tree(),
                        ),
                    forall|j: int|
                        0 <= j < i ==> ((#[trigger] out@[j]).0@, tree_of(out@[j].1)) == field_trees(
                            fields@,
                        )[j],
                decreases fields@.len() - i,
            {
                let entry = &fields[i];
                assert(field_trees(fields@)[i as int] == (entry.0@, entry.1.tree()));
                let y = make_value(&entry.1, Ghost((depth - 1) as nat));
                out.push((entry.0.clone(), y));
                i += 1;
            }
            assert(value_field_trees(out@) =~= field_trees(fields@));
            close_value(Layer::Object(out))
        },
        _ => {
            assert(false);
            close_value(Layer::Null)
        },
    }
}

/// The document as indented JSON.
pub fn pretty(doc: &Json) -> (r: String)
    requires
        textual(doc.tree(), readable_depth()),
    ensures
        r@ == json_pretty(doc.tree()),
        reads_as(r@, doc.tree()),
        markup_kept(r@, doc.tree()),
{
    let value = make_value(doc, Ghost(readable_depth()));
    write_pretty(&value)
}

/// The document as JSON on one line.
pub fn compact(doc: &Json) -> (r: String)
    requires
        textual(doc.tree(), readable_depth()),
    ensures
        r@ == json_compact(doc.tree()),
        reads_as(r@, doc.tree()),
        reads_as(markup_escaped(r@), doc.tree()),
        one_line(r@),
{
    let value = make_value(doc, Ghost(readable_depth()));
    write_compact(&value)
}

/// A document's field is the first of its name: there is one exactly when the document is an object
/// that names it.
pub proof fn law_field(fields: Seq<(Seq<char>, Tree)>, key: Seq<char>)
    ensures
        match field(Tree::Object(fields), key) {
            Some(v) => exists|i: int|
                0 <= i < fields.len() && #[trigger] fields[i] == (key, v) && forall|j: int|
                    0 <= j < i ==> (#[trigger] fields[j]).0 != key,
            None => forall|i: int| 0 <= i < fields.len() ==> (#[trigger] fields[i]).0 != key,
        },
{
    lemma_lookup_is_first(fields, key, 0);
}

proof fn lemma_lookup_is_first(fields: Seq<(Seq<char>, Tree)>, key: Seq<char>, i: int)
    requires
        0 <= i,
    ensures
        match lookup_from(fields, key, i) {
            Some(v) => exists|k: int|
                i <= k < fields.len() && #[trigger] fields[k] == (key, v) && forall|j: int|
                    i <= j < k ==> (#[trigger] fields[j]).0 != key,
            None => forall|k: int| i <= k < fields.len() ==> (#[trigger] fields[k]).0 != key,
        },
    decreases fields.len() - i,
{
    if i < fields.len() {
        if fields[i].0 == key {
            assert(fields[i] == (key, fields[i].1));
        } else {
            lemma_lookup_is_first(fields, key, i + 1);
        }
    }
}

proof fn lemma_escape_untouched(s: Seq<char>, c: char, to: Seq<char>)
    requires
        !s.contains(c),
    ensures
        text::replaced(s, seq![c], to) == s,
{
    text::lemma_replaced_absent(s, c, to, 0);
    assert(s.skip(0) =~= s);
}

/// Escaping goes character by character: `<`, `>` and `&` become their JSON escapes, and every other
/// character stays as it is.
pub proof fn law_markup_escapes(s: Seq<char>, c: char)
    ensures
        markup_escaped(Seq::empty()) == Seq::<char>::empty(),
        markup_escaped(s.push(c)) == markup_escaped(s) + (if c == '<' {
            "\\u003c"@
        } else if c == '>' {
            "\\u003e"@
        } else if c == '&' {
            "\\u0026"@
        } else {
            seq![c]
        }),
{
    reveal_strlit("<");
    reveal_strlit(">");
    reveal_strlit("&");
    reveal_strlit("\\u003c");
    reveal_strlit("\\u003e");
    reveal_strlit("\\u0026");
    assert("<"@ =~= seq!['<']);
    assert(">"@ =~= seq!['>']);
    assert("&"@ =~= seq!['&']);
    let lt = "\\u003c"@;
    let gt = "\\u003e"@;
    let amp = "\\u0026"@;
    let none = Seq::<char>::empty();
    text::law_replaced_one_by_one(none, '<', lt, c);
    text::law_replaced_one_by_one(none, '>', gt, c);
    text::law_replaced_one_by_one(none, '&', amp, c);
    assert(none.push(c) =~= seq![c]);
    // The first replacement.
    let first = text::replaced(s, seq!['<'], lt);
    text::law_replaced_one_by_one(s, '<', lt, c);
    let a = if c == '<' {
        lt
    } else {
        seq![c]
    };
    // The second.
    let second = text::replaced(first, seq!['>'], gt);
    text::law_replaced_in_parts(first, a, '>', gt);
    let b = if c == '>' {
        gt
    } else {
        a
    };
    assert(text::replaced(a, seq!['>'], gt) =~= b) by {
        if c == '<' {
            lemma_escape_untouched(lt, '>', gt);
        } else {
            assert(none + (if c == '>' {
                gt
            } else {
                seq![c]
            }) =~= b);
        }
    }
    // The third.
    text::law_replaced_in_parts(second, b, '&', amp);
    let d = if c == '&' {
        amp
    } else {
        b
    };
    assert(text::replaced(b, seq!['&'], amp) =~= d) by {
        if c == '<' {
            lemma_escape_untouched(lt, '&', amp);
        } else if c == '>' {
            lemma_escape_untouched(gt, '&', amp);
        } else {
            assert(none + (if c == '&' {
                amp
            } else {
                seq![c]
            }) =~= d);
        }
    }
}

/// A word before a colon names a member of the document when one bracket is open, and a member of
/// the last one's value when two are; a word in a deeper place, or one before no colon, names none.
pub proof fn law_names_by_depth(list: Seq<Lexeme>, n: int, name: Seq<char>)
    requires
        0 <= n < list.len(),
    ensures
        members_upto(list, 0).len() == 0,
        list[n] == Lexeme::Name(name) && n + 1 < list.len() && list[n + 1] is Colon ==> {
            &&& open_at(list, n) == 1 ==> members_upto(list, n + 1) == members_upto(list, n).push(
                (name, Seq::empty()),
            )
            &&& open_at(list, n) == 2 && members_upto(list, n).len() > 0 ==> {
                let before = members_upto(list, n);
                let after = members_upto(list, n + 1);
                &&& after.len() == before.len()
                &&& after.last() == (before.last().0, before.last().1.push(name))
                &&& forall|i: int| 0 <= i < before.len() - 1 ==> #[trigger] after[i] == before[i]
            }
            &&& open_at(list, n) > 2 ==> members_upto(list, n + 1) == members_upto(list, n)
        },
        !(list[n] is Name) || n + 1 >= list.len() || !(list[n + 1] is Colon) ==> members_upto(
            list,
            n + 1,
        ) == members_upto(list, n),
        open_at(list, 0) == 0,
        list[n] is Open ==> open_at(list, n + 1) == open_at(list, n) + 1,
        list[n] is Close ==> open_at(list, n + 1) == open_at(list, n) - 1,
        !(list[n] is Open) && !(list[n] is Close) ==> open_at(list, n + 1) == open_at(list, n),
{
}

} // verus!
