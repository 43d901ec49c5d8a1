//! Reading a `tsconfig.json`: the JSONC the format really is (`tsc` accepts comments and
//! trailing commas), in the fields that this crate has a use for. Unknown fields are
//! ignored: a dependency's config carries plenty.

use vstd::prelude::*;

use crate::error::{Error, Failure};
use crate::json;
use crate::json::{field_trees, lemma_field_trees, lemma_trees, trees, Json, Tree};
use crate::path;
use crate::text;
use crate::text::{opt_text, texts};
use crate::tsconfig::{CompilerOptions, TsConfig};

verus! {

/// Compiler options, as the contracts see them.
#[verifier::ext_equal]
pub struct Options {
    pub out_dir: Option<Seq<char>>,
    pub root_dir: Option<Seq<char>>,
    pub target: Option<Seq<char>>,
    pub module: Option<Seq<char>>,
    pub use_define_for_class_fields: Option<bool>,
    pub experimental_decorators: Option<bool>,
    pub emit_decorator_metadata: Option<bool>,
    pub rewrite_relative_import_extensions: Option<bool>,
    pub jsx: Option<Seq<char>>,
    pub jsx_import_source: Option<Seq<char>>,
    pub jsx_factory: Option<Seq<char>>,
    pub jsx_fragment_factory: Option<Seq<char>>,
    pub base_url: Option<Seq<char>>,
    pub paths: Option<Tree>,
}

/// A `tsconfig.json`, as the contracts see it.
#[verifier::ext_equal]
pub struct Config {
    pub compiler_options: Options,
    pub included: Seq<Seq<char>>,
    pub files: Seq<Seq<char>>,
    pub exclude: Seq<Seq<char>>,
    pub extends: Option<Tree>,
}

/// The document of a value, if there is one.
pub open spec fn owned_tree(o: Option<Json>) -> Option<Tree> {
    match o {
        Some(v) => Some(v.tree()),
        None => None,
    }
}

impl View for CompilerOptions {
    type V = Options;

    open spec fn view(&self) -> Options {
        Options {
            out_dir: opt_text(self.out_dir),
            root_dir: opt_text(self.root_dir),
            target: opt_text(self.target),
            module: opt_text(self.module),
            use_define_for_class_fields: self.use_define_for_class_fields,
            experimental_decorators: self.experimental_decorators,
            emit_decorator_metadata: self.emit_decorator_metadata,
            rewrite_relative_import_extensions: self.rewrite_relative_import_extensions,
            jsx: opt_text(self.jsx),
            jsx_import_source: opt_text(self.jsx_import_source),
            jsx_factory: opt_text(self.jsx_factory),
            jsx_fragment_factory: opt_text(self.jsx_fragment_factory),
            base_url: opt_text(self.base_url),
            paths: owned_tree(self.paths),
        }
    }
}

impl View for TsConfig {
    type V = Config;

    open spec fn view(&self) -> Config {
        Config {
            compiler_options: self.compiler_options@,
            included: texts(self.included@),
            files: texts(self.files@),
            exclude: texts(self.exclude@),
            extends: owned_tree(self.extends),
        }
    }
}

/// Every option at its own default.
pub open spec fn default_options() -> Options {
    Options {
        out_dir: None,
        root_dir: None,
        target: None,
        module: None,
        use_define_for_class_fields: None,
        experimental_decorators: None,
        emit_decorator_metadata: None,
        rewrite_relative_import_extensions: None,
        jsx: None,
        jsx_import_source: None,
        jsx_factory: None,
        jsx_fragment_factory: None,
        base_url: None,
        paths: None,
    }
}

/// A config that states nothing.
pub open spec fn default_config() -> Config {
    Config {
        compiler_options: default_options(),
        included: Seq::empty(),
        files: Seq::empty(),
        exclude: Seq::empty(),
        extends: None,
    }
}

/// What is said of a field that does not hold what it should.
pub open spec fn wrong(key: Seq<char>, what: Seq<char>) -> Seq<char> {
    "`"@ + key + "` must be "@ + what
}

/// A text field; `null` states nothing.
pub open spec fn text_field(key: Seq<char>, val: Tree) -> Result<Option<Seq<char>>, Seq<char>> {
    match val {
        Tree::Text(s) => Ok(Some(s)),
        Tree::Null => Ok(None),
        _ => Err(wrong(key, "a string"@)),
    }
}

/// A boolean field; `null` states nothing.
pub open spec fn bool_field(key: Seq<char>, val: Tree) -> Result<Option<bool>, Seq<char>> {
    match val {
        Tree::Bool(b) => Ok(Some(b)),
        Tree::Null => Ok(None),
        _ => Err(wrong(key, "a boolean"@)),
    }
}

/// A field of which only the presence matters; `null` states nothing.
pub open spec fn any_field(val: Tree) -> Option<Tree> {
    match val {
        Tree::Null => None,
        _ => Some(val),
    }
}

/// The texts of the first `n` items; the first that is none ends it.
pub open spec fn listed_texts(key: Seq<char>, items: Seq<Tree>, n: int) -> Result<
    Seq<Seq<char>>,
    Seq<char>,
>
    decreases n,
{
    if n <= 0 {
        Ok(Seq::empty())
    } else {
        match listed_texts(key, items, n - 1) {
            Ok(front) => match items[n - 1] {
                Tree::Text(s) => Ok(front.push(s)),
                _ => Err(wrong(key, "a list of strings"@)),
            },
            Err(e) => Err(e),
        }
    }
}

/// A list field.
pub open spec fn list_field(key: Seq<char>, val: Tree) -> Result<Seq<Seq<char>>, Seq<char>> {
    match val {
        Tree::Array(items) => listed_texts(key, items, items.len() as int),
        _ => Err(wrong(key, "a list of strings"@)),
    }
}

/// The options after one field of `compilerOptions`.
pub open spec fn with_option(c: Options, key: Seq<char>, val: Tree) -> Result<Options, Seq<char>> {
    if key == "outDir"@ {
        match text_field(key, val) {
            Ok(v) => Ok(Options { out_dir: v, ..c }),
            Err(e) => Err(e),
        }
    } else if key == "rootDir"@ {
        match text_field(key, val) {
            Ok(v) => Ok(Options { root_dir: v, ..c }),
            Err(e) => Err(e),
        }
    } else if key == "target"@ {
        match text_field(key, val) {
            Ok(v) => Ok(Options { target: v, ..c }),
            Err(e) => Err(e),
        }
    } else if key == "module"@ {
        match text_field(key, val) {
            Ok(v) => Ok(Options { module: v, ..c }),
            Err(e) => Err(e),
        }
    } else if key == "useDefineForClassFields"@ {
        match bool_field(key, val) {
            Ok(v) => Ok(Options { use_define_for_class_fields: v, ..c }),
            Err(e) => Err(e),
        }
    } else if key == "experimentalDecorators"@ {
        match bool_field(key, val) {
            Ok(v) => Ok(Options { experimental_decorators: v, ..c }),
            Err(e) => Err(e),
        }
    } else if key == "emitDecoratorMetadata"@ {
        match bool_field(key, val) {
            Ok(v) => Ok(Options { emit_decorator_metadata: v, ..c }),
            Err(e) => Err(e),
        }
    } else if key == "rewriteRelativeImportExtensions"@ {
        match bool_field(key, val) {
            Ok(v) => Ok(Options { rewrite_relative_import_extensions: v, ..c }),
            Err(e) => Err(e),
        }
    } else if key == "jsx"@ {
        match text_field(key, val) {
            Ok(v) => Ok(Options { jsx: v, ..c }),
            Err(e) => Err(e),
        }
    } else if key == "jsxImportSource"@ {
        match text_field(key, val) {
            Ok(v) => Ok(Options { jsx_import_source: v, ..c }),
            Err(e) => Err(e),
        }
    } else if key == "jsxFactory"@ {
        match text_field(key, val) {
            Ok(v) => Ok(Options { jsx_factory: v, ..c }),
            Err(e) => Err(e),
        }
    } else if key == "jsxFragmentFactory"@ {
        match text_field(key, val) {
            Ok(v) => Ok(Options { jsx_fragment_factory: v, ..c }),
            Err(e) => Err(e),
        }
    } else if key == "baseUrl"@ {
        match text_field(key, val) {
            Ok(v) => Ok(Options { base_url: v, ..c }),
            Err(e) => Err(e),
        }
    } else if key == "paths"@ {
        Ok(Options { paths: any_field(val), ..c })
    } else {
        Ok(c)
    }
}

/// The options of the first `n` fields of `compilerOptions`; the first that is malformed ends
/// it.
pub open spec fn with_options(fields: Seq<(Seq<char>, Tree)>, n: int) -> Result<Options, Seq<char>>
    decreases n,
{
    if n <= 0 {
        Ok(default_options())
    } else {
        match with_options(fields, n - 1) {
            Ok(c) => with_option(c, fields[n - 1].0, fields[n - 1].1),
            Err(e) => Err(e),
        }
    }
}

/// The fields of `compilerOptions`, in order.
pub open spec fn option_keys() -> Seq<Seq<char>> {
    seq![
        "outDir"@,
        "rootDir"@,
        "target"@,
        "module"@,
        "useDefineForClassFields"@,
        "experimentalDecorators"@,
        "emitDecoratorMetadata"@,
        "rewriteRelativeImportExtensions"@,
        "jsx"@,
        "jsxImportSource"@,
        "jsxFactory"@,
        "jsxFragmentFactory"@,
        "baseUrl"@,
        "paths"@,
    ]
}

/// The fields of a config, in order.
pub open spec fn member_keys() -> Seq<Seq<char>> {
    seq!["compilerOptions"@, "include"@, "files"@, "exclude"@, "extends"@]
}

/// The fields that a list states by their places: its items under the keys in order. Items
/// beyond the last key state nothing.
pub open spec fn by_place(keys: Seq<Seq<char>>, items: Seq<Tree>) -> Seq<(Seq<char>, Tree)> {
    Seq::new(
        if items.len() < keys.len() {
            items.len()
        } else {
            keys.len()
        },
        |k: int| (keys[k], items[k]),
    )
}

/// The options that the value of `compilerOptions` states: an object by its keys, a list by its
/// places.
pub open spec fn options_of(key: Seq<char>, val: Tree) -> Result<Options, Seq<char>> {
    match val {
        Tree::Object(fields) => with_options(fields, fields.len() as int),
        Tree::Array(items) => {
            let fields = by_place(option_keys(), items);
            with_options(fields, fields.len() as int)
        },
        _ => Err(wrong(key, "an object"@)),
    }
}

/// The config after one field.
pub open spec fn with_member(c: Config, key: Seq<char>, val: Tree) -> Result<Config, Seq<char>> {
    if key == "compilerOptions"@ {
        match options_of(key, val) {
            Ok(v) => Ok(Config { compiler_options: v, ..c }),
            Err(e) => Err(e),
        }
    } else if key == "include"@ {
        match list_field(key, val) {
            Ok(v) => Ok(Config { included: v, ..c }),
            Err(e) => Err(e),
        }
    } else if key == "files"@ {
        match list_field(key, val) {
            Ok(v) => Ok(Config { files: v, ..c }),
            Err(e) => Err(e),
        }
    } else if key == "exclude"@ {
        match list_field(key, val) {
            Ok(v) => Ok(Config { exclude: v, ..c }),
            Err(e) => Err(e),
        }
    } else if key == "extends"@ {
        Ok(Config { extends: any_field(val), ..c })
    } else {
        Ok(c)
    }
}

/// The config of the first `n` fields; the first that is malformed ends it.
pub open spec fn with_members(fields: Seq<(Seq<char>, Tree)>, n: int) -> Result<Config, Seq<char>>
    decreases n,
{
    if n <= 0 {
        Ok(default_config())
    } else {
        match with_members(fields, n - 1) {
            Ok(c) => with_member(c, fields[n - 1].0, fields[n - 1].1),
            Err(e) => Err(e),
        }
    }
}

/// The config that a document is: an object states its fields by their keys, a list by their
/// places, and an empty document is a config with every default.
pub open spec fn config_of(doc: Tree) -> Result<Config, Seq<char>> {
    match doc {
        Tree::Null => Ok(default_config()),
        Tree::Object(fields) => with_members(fields, fields.len() as int),
        Tree::Array(items) => {
            let fields = by_place(member_keys(), items);
            with_members(fields, fields.len() as int)
        },
        _ => Err("a config must be an object"@),
    }
}

/// The first of the first `n` names that is one of the keys and stands before already.
pub open spec fn repeated(keys: Seq<Seq<char>>, names: Seq<Seq<char>>, n: int) -> Option<Seq<char>>
    decreases n,
{
    if n <= 0 {
        None
    } else {
        match repeated(keys, names, n - 1) {
            Some(key) => Some(key),
            None => if keys.contains(names[n - 1]) && names.take(n - 1).contains(names[n - 1]) {
                Some(names[n - 1])
            } else {
                None
            },
        }
    }
}

/// The first key that is repeated in the `compilerOptions` among the first `n` members.
pub open spec fn repeated_option(members: Seq<(Seq<char>, Seq<Seq<char>>)>, n: int) -> Option<
    Seq<char>,
>
    decreases n,
{
    if n <= 0 {
        None
    } else {
        match repeated_option(members, n - 1) {
            Some(key) => Some(key),
            None => if members[n - 1].0 == "compilerOptions"@ {
                repeated(option_keys(), members[n - 1].1, members[n - 1].1.len() as int)
            } else {
                None
            },
        }
    }
}

/// A field that a config states more than once, if there is one.
pub open spec fn repeated_field(members: Seq<(Seq<char>, Seq<Seq<char>>)>) -> Option<Seq<char>> {
    let names = Seq::new(members.len(), |i: int| members[i].0);
    match repeated(member_keys(), names, names.len() as int) {
        Some(key) => Some(key),
        None => repeated_option(members, members.len() as int),
    }
}

/// What is said of a field that is stated more than once.
pub open spec fn duplicated(key: Seq<char>) -> Seq<char> {
    "duplicate field `"@ + key + "`"@
}

/// The config that a text is: a document in which no field is stated twice.
pub open spec fn parsed_config(raw: Seq<char>) -> Result<Config, Failure> {
    match json::jsonc_document(raw) {
        Ok(doc) => match repeated_field(json::members(json::jsonc_lexemes(raw))) {
            Some(key) => Err(Failure::Vendor("tsconfig.json does not parse: "@ + duplicated(key))),
            None => match config_of(doc) {
                Ok(c) => Ok(c),
                Err(e) => Err(Failure::Vendor("tsconfig.json does not parse: "@ + e)),
            },
        },
        Err(e) => Err(Failure::Vendor("tsconfig.json does not parse: "@ + e)),
    }
}

fn complaint(key: &str, what: &str) -> (r: String)
    ensures
        r@ == wrong(key@, what@),
{
    "`".to_owned().concat(key).concat("` must be ").concat(what)
}

fn take_text(key: &str, val: Json) -> (r: Result<Option<String>, String>)
    ensures
        (match r {
            Ok(v) => Ok::<Option<Seq<char>>, Seq<char>>(opt_text(v)),
            Err(e) => Err(e@),
        }) == text_field(key@, val.tree()),
{
    match val {
        Json::Text(s) => Ok(Some(s)),
        Json::Null => Ok(None),
        _ => Err(complaint(key, "a string")),
    }
}

fn take_bool(key: &str, val: Json) -> (r: Result<Option<bool>, String>)
    ensures
        (match r {
            Ok(v) => Ok::<Option<bool>, Seq<char>>(v),
            Err(e) => Err(e@),
        }) == bool_field(key@, val.tree()),
{
    match val {
        Json::Bool(b) => Ok(Some(b)),
        Json::Null => Ok(None),
        _ => Err(complaint(key, "a boolean")),
    }
}

fn take_any(val: Json) -> (r: Option<Json>)
    ensures
        owned_tree(r) == any_field(val.tree()),
{
    match val {
        Json::Null => None,
        val => Some(val),
    }
}

proof fn lemma_list_fails(key: Seq<char>, items: Seq<Tree>, i: int, n: int, e: Seq<char>)
    requires
        0 <= i <= n <= items.len(),
        listed_texts(key, items, i) == Err::<Seq<Seq<char>>, Seq<char>>(e),
    ensures
        listed_texts(key, items, n) == Err::<Seq<Seq<char>>, Seq<char>>(e),
    decreases n - i,
{
    if i < n {
        lemma_list_fails(key, items, i + 1, n, e);
    }
}

fn take_list(key: &str, val: Json) -> (r: Result<Vec<String>, String>)
    ensures
        (match r {
            Ok(v) => Ok::<Seq<Seq<char>>, Seq<char>>(texts(v@)),
            Err(e) => Err(e@),
        }) == list_field(key@, val.tree()),
{
    match val {
        Json::Array(items) => {
            let ghost given = items@;
            let ghost all = trees(given);
            proof {
                lemma_trees(given);
            }
            let mut out: Vec<String> = Vec::new();
            assert(texts(out@) =~= Seq::<Seq<char>>::empty());
            for item in it: items
                invariant
                    it.seq() == given,
                    all == trees(given),
                    all.len() == given.len(),
                    val.tree() == Tree::Array(all),
                    forall|k: int|
                        0 <= k < given.len() ==> all[k] == (#[trigger] given[k]).tree(),
                    listed_texts(key@, all, it.index()) == Ok::<Seq<Seq<char>>, Seq<char>>(
                        texts(out@),
                    ),
            {
                assert(all[it.index()] == given[it.index()].tree());
                match item {
                    Json::Text(s) => {
                        proof {
                            text::lemma_texts_push(out@, s);
                        }
                        out.push(s);
                    },
                    _ => {
                        let e = complaint(key, "a list of strings");
                        proof {
                            lemma_list_fails(
                                key@,
                                all,
                                it.index() + 1,
                                all.len() as int,
                                e@,
                            );
                        }
                        return Err(e);
                    },
                }
            }
            Ok(out)
        },
        _ => Err(complaint(key, "a list of strings")),
    }
}

impl CompilerOptions {
    /// Takes one field of `compilerOptions`.
    fn take(&mut self, key: &str, val: Json) -> (r: Result<(), String>)
        ensures
            match r {
                Ok(_) => with_option(old(self)@, key@, val.tree()) == Ok::<Options, Seq<char>>(
                    final(self)@,
                ),
                Err(e) => with_option(old(self)@, key@, val.tree()) == Err::<Options, Seq<char>>(
                    e@,
                ),
            },
    {
        if text::same(key, "outDir") {
            match take_text(key, val) {
                Ok(v) => self.out_dir = v,
                Err(e) => return Err(e),
            }
        } else if text::same(key, "rootDir") {
            match take_text(key, val) {
                Ok(v) => self.root_dir = v,
                Err(e) => return Err(e),
            }
        } else if text::same(key, "target") {
            match take_text(key, val) {
                Ok(v) => self.target = v,
                Err(e) => return Err(e),
            }
        } else if text::same(key, "module") {
            match take_text(key, val) {
                Ok(v) => self.module = v,
                Err(e) => return Err(e),
            }
        } else if text::same(key, "useDefineForClassFields") {
            match take_bool(key, val) {
                Ok(v) => self.use_define_for_class_fields = v,
                Err(e) => return Err(e),
            }
        } else if text::same(key, "experimentalDecorators") {
            match take_bool(key, val) {
                Ok(v) => self.experimental_decorators = v,
                Err(e) => return Err(e),
            }
        } else if text::same(key, "emitDecoratorMetadata") {
            match take_bool(key, val) {
                Ok(v) => self.emit_decorator_metadata = v,
                Err(e) => return Err(e),
            }
        } else if text::same(key, "rewriteRelativeImportExtensions") {
            match take_bool(key, val) {
                Ok(v) => self.rewrite_relative_import_extensions = v,
                Err(e) => return Err(e),
            }
        } else if text::same(key, "jsx") {
            match take_text(key, val) {
                Ok(v) => self.jsx = v,
                Err(e) => return Err(e),
            }
        } else if text::same(key, "jsxImportSource") {
            match take_text(key, val) {
                Ok(v) => self.jsx_import_source = v,
                Err(e) => return Err(e),
            }
        } else if text::same(key, "jsxFactory") {
            match take_text(key, val) {
                Ok(v) => self.jsx_factory = v,
                Err(e) => return Err(e),
            }
        } else if text::same(key, "jsxFragmentFactory") {
            match take_text(key, val) {
                Ok(v) => self.jsx_fragment_factory = v,
                Err(e) => return Err(e),
            }
        } else if text::same(key, "baseUrl") {
            match take_text(key, val) {
                Ok(v) => self.base_url = v,
                Err(e) => return Err(e),
            }
        } else if text::same(key, "paths") {
            self.paths = take_any(val);
        }
        Ok(())
    }
}

proof fn lemma_options_fail(fields: Seq<(Seq<char>, Tree)>, i: int, n: int, e: Seq<char>)
    requires
        0 <= i <= n <= fields.len(),
        with_options(fields, i) == Err::<Options, Seq<char>>(e),
    ensures
        with_options(fields, n) == Err::<Options, Seq<char>>(e),
    decreases n - i,
{
    if i < n {
        lemma_options_fail(fields, i + 1, n, e);
    }
}

proof fn lemma_members_fail(fields: Seq<(Seq<char>, Tree)>, i: int, n: int, e: Seq<char>)
    requires
        0 <= i <= n <= fields.len(),
        with_members(fields, i) == Err::<Config, Seq<char>>(e),
    ensures
        with_members(fields, n) == Err::<Config, Seq<char>>(e),
    decreases n - i,
{
    if i < n {
        lemma_members_fail(fields, i + 1, n, e);
    }
}

fn read_options(fields: Vec<(String, Json)>) -> (r: Result<CompilerOptions, String>)
    ensures
        (match r {
            Ok(c) => Ok::<Options, Seq<char>>(c@),
            Err(e) => Err(e@),
        }) == with_options(field_trees(fields@), fields@.len() as int),
{
    let ghost given = fields@;
    let ghost all = field_trees(given);
    proof {
        lemma_field_trees(given);
    }
    let mut out = CompilerOptions::default();
    assert(out@ =~= default_options());
    for entry in it: fields
        invariant
            it.seq() == given,
            given == fields@,
            all == field_trees(given),
            all.len() == given.len(),
            forall|k: int|
                0 <= k < given.len() ==> all[k] == (
                    (#[trigger] given[k]).0@,
                    given[k].1.tree(),
                ),
            with_options(all, it.index()) == Ok::<Options, Seq<char>>(out@),
    {
        let (key, val) = entry;
        assert(all[it.index()] == (given[it.index()].0@, given[it.index()].1.tree()));
        if let Err(e) = out.take(key.as_str(), val) {
            proof {
                lemma_options_fail(all, it.index() + 1, all.len() as int, e@);
            }
            return Err(e);
        }
    }
    Ok(out)
}

/// The fields that a list states by their places.
fn place_fields(keys: &Vec<String>, items: Vec<Json>) -> (r: Vec<(String, Json)>)
    ensures
        field_trees(r@) == by_place(texts(keys@), trees(items@)),
{
    let ghost given = items@;
    proof {
        lemma_trees(given);
    }
    let mut out: Vec<(String, Json)> = Vec::new();
    for item in it: items
        invariant
            it.seq() == given,
            given == items@,
            out@.len() == if it.index() < keys@.len() {
                it.index() as nat
            } else {
                keys@.len()
            },
            forall|k: int|
                0 <= k < out@.len() ==> (#[trigger] out@[k]).0@ == keys@[k]@ && out@[k].1
                    == given[k],
    {
        if out.len() < keys.len() {
            let key = keys[out.len()].clone();
            out.push((key, item));
        }
    }
    proof {
        lemma_field_trees(out@);
        assert(field_trees(out@) =~= by_place(texts(keys@), trees(given))) by {
            assert forall|k: int| 0 <= k < out@.len() implies field_trees(out@)[k] == by_place(
                texts(keys@),
                trees(given),
            )[k] by {
                assert(field_trees(out@)[k] == (out@[k].0@, out@[k].1.tree()));
                assert(trees(given)[k] == given[k].tree());
            }
        }
    }
    out
}

/// The keys of `compilerOptions`, in order.
fn list_option_keys() -> (r: Vec<String>)
    ensures
        texts(r@) == option_keys(),
{
    let r = vec![
        "outDir".to_owned(),
        "rootDir".to_owned(),
        "target".to_owned(),
        "module".to_owned(),
        "useDefineForClassFields".to_owned(),
        "experimentalDecorators".to_owned(),
        "emitDecoratorMetadata".to_owned(),
        "rewriteRelativeImportExtensions".to_owned(),
        "jsx".to_owned(),
        "jsxImportSource".to_owned(),
        "jsxFactory".to_owned(),
        "jsxFragmentFactory".to_owned(),
        "baseUrl".to_owned(),
        "paths".to_owned(),
    ];
    assert(texts(r@) =~= option_keys());
    r
}

/// The keys of a config, in order.
fn list_member_keys() -> (r: Vec<String>)
    ensures
        texts(r@) == member_keys(),
{
    let r = vec![
        "compilerOptions".to_owned(),
        "include".to_owned(),
        "files".to_owned(),
        "exclude".to_owned(),
        "extends".to_owned(),
    ];
    assert(texts(r@) =~= member_keys());
    r
}

fn take_options(key: &str, val: Json) -> (r: Result<CompilerOptions, String>)
    ensures
        (match r {
            Ok(c) => Ok::<Options, Seq<char>>(c@),
            Err(e) => Err(e@),
        }) == options_of(key@, val.tree()),
{
    match val {
        Json::Object(fields) => {
            proof {
                lemma_field_trees(fields@);
            }
            read_options(fields)
        },
        Json::Array(items) => {
            let keys = list_option_keys();
            let fields = place_fields(&keys, items);
            proof {
                lemma_trees(items@);
                lemma_field_trees(fields@);
            }
            read_options(fields)
        },
        _ => Err(complaint(key, "an object")),
    }
}

fn read_members(fields: Vec<(String, Json)>) -> (r: Result<TsConfig, String>)
    ensures
        (match r {
            Ok(c) => Ok::<Config, Seq<char>>(c@),
            Err(e) => Err(e@),
        }) == with_members(field_trees(fields@), fields@.len() as int),
{
    let ghost given = fields@;
    let ghost all = field_trees(given);
    proof {
        lemma_field_trees(given);
    }
    let mut out = TsConfig::default();
    assert(out@ =~= default_config());
    for entry in it: fields
        invariant
            it.seq() == given,
            given == fields@,
            all == field_trees(given),
            all.len() == given.len(),
            forall|k: int|
                0 <= k < given.len() ==> all[k] == (
                    (#[trigger] given[k]).0@,
                    given[k].1.tree(),
                ),
            with_members(all, it.index()) == Ok::<Config, Seq<char>>(out@),
    {
        let (key, val) = entry;
        assert(all[it.index()] == (given[it.index()].0@, given[it.index()].1.tree()));
        if let Err(e) = out.take(key.as_str(), val) {
            proof {
                lemma_members_fail(all, it.index() + 1, all.len() as int, e@);
            }
            return Err(e);
        }
    }
    Ok(out)
}

proof fn lemma_repeated_stays(keys: Seq<Seq<char>>, names: Seq<Seq<char>>, i: int, n: int)
    requires
        0 <= i <= n <= names.len(),
        repeated(keys, names, i) is Some,
    ensures
        repeated(keys, names, n) == repeated(keys, names, i),
    decreases n - i,
{
    if i < n {
        lemma_repeated_stays(keys, names, i + 1, n);
    }
}

proof fn lemma_repeated_option_stays(members: Seq<(Seq<char>, Seq<Seq<char>>)>, i: int, n: int)
    requires
        0 <= i <= n <= members.len(),
        repeated_option(members, i) is Some,
    ensures
        repeated_option(members, n) == repeated_option(members, i),
    decreases n - i,
{
    if i < n {
        lemma_repeated_option_stays(members, i + 1, n);
    }
}

fn find_repeated(keys: &Vec<String>, names: &Vec<String>) -> (r: Option<String>)
    ensures
        opt_text(r) == repeated(texts(keys@), texts(names@), names@.len() as int),
{
    let ghost all = texts(names@);
    let mut before: Vec<String> = Vec::new();
    let mut i: usize = 0;
    assert(texts(before@) =~= all.take(0));
    while i < names.len()
        invariant
            i <= names@.len(),
            all == texts(names@),
            texts(before@) == all.take(i as int),
            repeated(texts(keys@), all, i as int) is None,
        decreases names@.len() - i,
    {
        let name = names[i].as_str();
        assert(all[i as int] == name@);
        if text::listed(keys, name) && text::listed(&before, name) {
            proof {
                lemma_repeated_stays(texts(keys@), all, i + 1, all.len() as int);
            }
            return Some(name.to_owned());
        }
        let one = name.to_owned();
        proof {
            text::lemma_texts_push(before@, one);
            assert(all.take(i as int).push(name@) =~= all.take(i + 1));
        }
        before.push(one);
        i += 1;
    }
    None
}

/// A field that the members of a config state more than once, if there is one: each member by
/// its name, with the names of its own members.
pub fn find_repeated_field(members: &Vec<(String, Vec<String>)>) -> (r: Option<String>)
    ensures
        opt_text(r) == repeated_field(json::members_seen(members@)),
{
    let ghost all = json::members_seen(members@);
    let ghost called = Seq::new(all.len(), |i: int| all[i].0);
    let mut names: Vec<String> = Vec::new();
    let mut i: usize = 0;
    while i < members.len()
        invariant
            i <= members@.len(),
            names@.len() == i,
            forall|k: int| 0 <= k < i ==> (#[trigger] names@[k])@ == members@[k].0@,
        decreases members@.len() - i,
    {
        names.push(members[i].0.clone());
        i += 1;
    }
    assert(texts(names@) =~= called);
    let keys = list_member_keys();
    if let Some(key) = find_repeated(&keys, &names) {
        return Some(key);
    }
    let options = list_option_keys();
    let mut j: usize = 0;
    while j < members.len()
        invariant
            j <= members@.len(),
            all == json::members_seen(members@),
            texts(options@) == option_keys(),
            repeated_option(all, j as int) is None,
            repeated_field(all) == repeated_option(all, all.len() as int),
        decreases members@.len() - j,
    {
        assert(all[j as int] == (members@[j as int].0@, texts(members@[j as int].1@)));
        if text::same(members[j].0.as_str(), "compilerOptions") {
            if let Some(key) = find_repeated(&options, &members[j].1) {
                proof {
                    lemma_repeated_option_stays(all, j + 1, all.len() as int);
                }
                return Some(key);
            }
        }
        j += 1;
    }
    None
}

impl TsConfig {
    /// Takes one field of a config.
    fn take(&mut self, key: &str, val: Json) -> (r: Result<(), String>)
        ensures
            match r {
                Ok(_) => with_member(old(self)@, key@, val.tree()) == Ok::<Config, Seq<char>>(
                    final(self)@,
                ),
                Err(e) => with_member(old(self)@, key@, val.tree()) == Err::<Config, Seq<char>>(
                    e@,
                ),
            },
    {
        if text::same(key, "compilerOptions") {
            match take_options(key, val) {
                Ok(v) => self.compiler_options = v,
                Err(e) => return Err(e),
            }
        } else if text::same(key, "include") {
            match take_list(key, val) {
                Ok(v) => self.included = v,
                Err(e) => return Err(e),
            }
        } else if text::same(key, "files") {
            match take_list(key, val) {
                Ok(v) => self.files = v,
                Err(e) => return Err(e),
            }
        } else if text::same(key, "exclude") {
            match take_list(key, val) {
                Ok(v) => self.exclude = v,
                Err(e) => return Err(e),
            }
        } else if text::same(key, "extends") {
            self.extends = take_any(val);
        }
        Ok(())
    }

    /// The config that a document is.
    pub fn from_document(doc: Json) -> (r: Result<Self, String>)
        ensures
            (match r {
                Ok(c) => Ok::<Config, Seq<char>>(c@),
                Err(e) => Err(e@),
            }) == config_of(doc.tree()),
    {
        match doc {
            Json::Null => {
                let out = TsConfig::default();
                assert(out@ =~= default_config());
                Ok(out)
            },
            Json::Object(fields) => {
                proof {
                    lemma_field_trees(fields@);
                }
                read_members(fields)
            },
            Json::Array(items) => {
                let keys = list_member_keys();
                let fields = place_fields(&keys, items);
                proof {
                    lemma_trees(items@);
                    lemma_field_trees(fields@);
                }
                read_members(fields)
            },
            _ => Err("a config must be an object".to_owned()),
        }
    }

    /// Parse a `tsconfig.json`'s text.
    ///
    /// Comments and trailing commas are accepted, as `tsc` accepts them. An empty text is a
    /// config with every default. A field that is stated twice is an error.
    pub fn parse(raw: &str) -> (r: Result<Self, Error>)
        ensures
            crate::error::seen(r) == parsed_config(raw@),
            raw@.len() == 0 ==> crate::error::seen(r) == Ok::<Config, Failure>(default_config()),
    {
        match json::parse_jsonc(raw) {
            Ok(doc) => match find_repeated_field(&json::find_members(json::read_lexemes(raw))) {
                Some(key) => {
                    let said = "duplicate field `".to_owned().concat(key.as_str()).concat("`");
                    Err(
                        Error::Vendor(
                            "tsconfig.json does not parse: ".to_owned().concat(said.as_str()),
                        ),
                    )
                },
                None => TsConfig::without_repeats(doc),
            },
            Err(e) => Err(
                Error::Vendor("tsconfig.json does not parse: ".to_owned().concat(e.as_str())),
            ),
        }
    }

    /// The config of a document in which no field is stated twice.
    fn without_repeats(doc: Json) -> (r: Result<Self, Error>)
        ensures
            crate::error::seen(r) == (match config_of(doc.tree()) {
                Ok(c) => Ok::<Config, Failure>(c),
                Err(e) => Err(Failure::Vendor("tsconfig.json does not parse: "@ + e)),
            }),
    {
        match TsConfig::from_document(doc) {
            Ok(config) => Ok(config),
            Err(e) => Err(
                Error::Vendor("tsconfig.json does not parse: ".to_owned().concat(e.as_str())),
            ),
        }
    }

    /// The config of the directory `dir`, given the text of its `tsconfig.json` if it has one.
    pub fn load(dir: &str, raw: Option<&str>) -> (r: Result<Option<Self>, Error>)
        ensures
            match raw {
                None => r matches Ok(None),
                Some(raw) => match parsed_config(raw@) {
                    Ok(c) => r matches Ok(Some(config)) && config@ == c,
                    Err(e) => r matches Err(f) && f@ == Failure::Vendor(
                        path::under(dir@, "tsconfig.json"@) + ": "@ + crate::error::shown(
                            e,
                        )->Some_0,
                    ),
                },
            },
    {
        match raw {
            None => Ok(None),
            Some(raw) => match TsConfig::parse(raw) {
                Ok(config) => Ok(Some(config)),
                Err(e) => {
                    let place = path::join(dir, "tsconfig.json");
                    Err(Error::Vendor(place.concat(": ").concat(e.to_string().as_str())))
                },
            },
        }
    }
}

/// Each text option is read from the field of its own name, and nothing else is touched: a text is
/// taken as it stands, `null` takes it back, and anything else is an error.
pub proof fn law_text_options(c: Options, s: Seq<char>, b: bool)
    ensures
        with_option(c, "outDir"@, Tree::Text(s)) == Ok::<Options, Seq<char>>(
            Options { out_dir: Some(s), ..c },
        ),
        with_option(c, "outDir"@, Tree::Null) == Ok::<Options, Seq<char>>(Options { out_dir: None, ..c }),
        with_option(c, "outDir"@, Tree::Bool(b)) is Err,
        with_option(c, "rootDir"@, Tree::Text(s)) == Ok::<Options, Seq<char>>(
            Options { root_dir: Some(s), ..c },
        ),
        with_option(c, "rootDir"@, Tree::Null) == Ok::<Options, Seq<char>>(Options { root_dir: None, ..c }),
        with_option(c, "rootDir"@, Tree::Bool(b)) is Err,
        with_option(c, "target"@, Tree::Text(s)) == Ok::<Options, Seq<char>>(
            Options { target: Some(s), ..c },
        ),
        with_option(c, "target"@, Tree::Null) == Ok::<Options, Seq<char>>(Options { target: None, ..c }),
        with_option(c, "target"@, Tree::Bool(b)) is Err,
        with_option(c, "module"@, Tree::Text(s)) == Ok::<Options, Seq<char>>(
            Options { module: Some(s), ..c },
        ),
        with_option(c, "module"@, Tree::Null) == Ok::<Options, Seq<char>>(Options { module: None, ..c }),
        with_option(c, "module"@, Tree::Bool(b)) is Err,
        with_option(c, "jsx"@, Tree::Text(s)) == Ok::<Options, Seq<char>>(
            Options { jsx: Some(s), ..c },
        ),
        with_option(c, "jsx"@, Tree::Null) == Ok::<Options, Seq<char>>(Options { jsx: None, ..c }),
        with_option(c, "jsx"@, Tree::Bool(b)) is Err,
        with_option(c, "jsxImportSource"@, Tree::Text(s)) == Ok::<Options, Seq<char>>(
            Options { jsx_import_source: Some(s), ..c },
        ),
        with_option(c, "jsxImportSource"@, Tree::Null) == Ok::<Options, Seq<char>>(Options { jsx_import_source: None, ..c }),
        with_option(c, "jsxImportSource"@, Tree::Bool(b)) is Err,
        with_option(c, "jsxFactory"@, Tree::Text(s)) == Ok::<Options, Seq<char>>(
            Options { jsx_factory: Some(s), ..c },
        ),
        with_option(c, "jsxFactory"@, Tree::Null) == Ok::<Options, Seq<char>>(Options { jsx_factory: None, ..c }),
        with_option(c, "jsxFactory"@, Tree::Bool(b)) is Err,
        with_option(c, "jsxFragmentFactory"@, Tree::Text(s)) == Ok::<Options, Seq<char>>(
            Options { jsx_fragment_factory: Some(s), ..c },
        ),
        with_option(c, "jsxFragmentFactory"@, Tree::Null) == Ok::<Options, Seq<char>>(Options { jsx_fragment_factory: None, ..c }),
        with_option(c, "jsxFragmentFactory"@, Tree::Bool(b)) is Err,
        with_option(c, "baseUrl"@, Tree::Text(s)) == Ok::<Options, Seq<char>>(
            Options { base_url: Some(s), ..c },
        ),
        with_option(c, "baseUrl"@, Tree::Null) == Ok::<Options, Seq<char>>(Options { base_url: None, ..c }),
        with_option(c, "baseUrl"@, Tree::Bool(b)) is Err,
{
    lemma_option_names();
}

/// Each switch is read from the field of its own name, and nothing else is touched: a boolean is
/// taken as it stands, `null` takes it back, and anything else is an error. `paths` is taken
/// whatever it holds, and a field of another name is passed over.
pub proof fn law_switches(c: Options, b: bool, s: Seq<char>, key: Seq<char>, val: Tree)
    ensures
        with_option(c, "useDefineForClassFields"@, Tree::Bool(b)) == Ok::<Options, Seq<char>>(
            Options { use_define_for_class_fields: Some(b), ..c },
        ),
        with_option(c, "useDefineForClassFields"@, Tree::Null) == Ok::<Options, Seq<char>>(
            Options { use_define_for_class_fields: None, ..c },
        ),
        with_option(c, "useDefineForClassFields"@, Tree::Text(s)) is Err,
        with_option(c, "experimentalDecorators"@, Tree::Bool(b)) == Ok::<Options, Seq<char>>(
            Options { experimental_decorators: Some(b), ..c },
        ),
        with_option(c, "experimentalDecorators"@, Tree::Null) == Ok::<Options, Seq<char>>(
            Options { experimental_decorators: None, ..c },
        ),
        with_option(c, "experimentalDecorators"@, Tree::Text(s)) is Err,
        with_option(c, "emitDecoratorMetadata"@, Tree::Bool(b)) == Ok::<Options, Seq<char>>(
            Options { emit_decorator_metadata: Some(b), ..c },
        ),
        with_option(c, "emitDecoratorMetadata"@, Tree::Null) == Ok::<Options, Seq<char>>(
            Options { emit_decorator_metadata: None, ..c },
        ),
        with_option(c, "emitDecoratorMetadata"@, Tree::Text(s)) is Err,
        with_option(c, "rewriteRelativeImportExtensions"@, Tree::Bool(b)) == Ok::<Options, Seq<char>>(
            Options { rewrite_relative_import_extensions: Some(b), ..c },
        ),
        with_option(c, "rewriteRelativeImportExtensions"@, Tree::Null) == Ok::<Options, Seq<char>>(
            Options { rewrite_relative_import_extensions: None, ..c },
        ),
        with_option(c, "rewriteRelativeImportExtensions"@, Tree::Text(s)) is Err,
        val != Tree::Null ==> with_option(c, "paths"@, val) == Ok::<Options, Seq<char>>(
            Options { paths: Some(val), ..c },
        ),
        with_option(c, "paths"@, Tree::Null) == Ok::<Options, Seq<char>>(
            Options { paths: None, ..c },
        ),
        !option_keys().contains(key) ==> with_option(c, key, val) == Ok::<Options, Seq<char>>(c),
{
    lemma_option_names();
    let keys = option_keys();
    assert(keys[0] == "outDir"@ && keys[1] == "rootDir"@ && keys[2] == "target"@
        && keys[3] == "module"@ && keys[4] == "useDefineForClassFields"@
        && keys[5] == "experimentalDecorators"@ && keys[6] == "emitDecoratorMetadata"@
        && keys[7] == "rewriteRelativeImportExtensions"@ && keys[8] == "jsx"@
        && keys[9] == "jsxImportSource"@ && keys[10] == "jsxFactory"@
        && keys[11] == "jsxFragmentFactory"@ && keys[12] == "baseUrl"@ && keys[13] == "paths"@);
}

proof fn lemma_option_names()
    ensures
        "rootDir"@ != "outDir"@,
        "target"@ != "outDir"@,
        "target"@ != "rootDir"@,
        "module"@ != "outDir"@,
        "module"@ != "rootDir"@,
        "module"@ != "target"@,
        "useDefineForClassFields"@ != "outDir"@,
        "useDefineForClassFields"@ != "rootDir"@,
        "useDefineForClassFields"@ != "target"@,
        "useDefineForClassFields"@ != "module"@,
        "experimentalDecorators"@ != "outDir"@,
        "experimentalDecorators"@ != "rootDir"@,
        "experimentalDecorators"@ != "target"@,
        "experimentalDecorators"@ != "module"@,
        "experimentalDecorators"@ != "useDefineForClassFields"@,
        "emitDecoratorMetadata"@ != "outDir"@,
        "emitDecoratorMetadata"@ != "rootDir"@,
        "emitDecoratorMetadata"@ != "target"@,
        "emitDecoratorMetadata"@ != "module"@,
        "emitDecoratorMetadata"@ != "useDefineForClassFields"@,
        "emitDecoratorMetadata"@ != "experimentalDecorators"@,
        "rewriteRelativeImportExtensions"@ != "outDir"@,
        "rewriteRelativeImportExtensions"@ != "rootDir"@,
        "rewriteRelativeImportExtensions"@ != "target"@,
        "rewriteRelativeImportExtensions"@ != "module"@,
        "rewriteRelativeImportExtensions"@ != "useDefineForClassFields"@,
        "rewriteRelativeImportExtensions"@ != "experimentalDecorators"@,
        "rewriteRelativeImportExtensions"@ != "emitDecoratorMetadata"@,
        "jsx"@ != "outDir"@,
        "jsx"@ != "rootDir"@,
        "jsx"@ != "target"@,
        "jsx"@ != "module"@,
        "jsx"@ != "useDefineForClassFields"@,
        "jsx"@ != "experimentalDecorators"@,
        "jsx"@ != "emitDecoratorMetadata"@,
        "jsx"@ != "rewriteRelativeImportExtensions"@,
        "jsxImportSource"@ != "outDir"@,
        "jsxImportSource"@ != "rootDir"@,
        "jsxImportSource"@ != "target"@,
        "jsxImportSource"@ != "module"@,
        "jsxImportSource"@ != "useDefineForClassFields"@,
        "jsxImportSource"@ != "experimentalDecorators"@,
        "jsxImportSource"@ != "emitDecoratorMetadata"@,
        "jsxImportSource"@ != "rewriteRelativeImportExtensions"@,
        "jsxImportSource"@ != "jsx"@,
        "jsxFactory"@ != "outDir"@,
        "jsxFactory"@ != "rootDir"@,
        "jsxFactory"@ != "target"@,
        "jsxFactory"@ != "module"@,
        "jsxFactory"@ != "useDefineForClassFields"@,
        "jsxFactory"@ != "experimentalDecorators"@,
        "jsxFactory"@ != "emitDecoratorMetadata"@,
        "jsxFactory"@ != "rewriteRelativeImportExtensions"@,
        "jsxFactory"@ != "jsx"@,
        "jsxFactory"@ != "jsxImportSource"@,
        "jsxFragmentFactory"@ != "outDir"@,
        "jsxFragmentFactory"@ != "rootDir"@,
        "jsxFragmentFactory"@ != "target"@,
        "jsxFragmentFactory"@ != "module"@,
        "jsxFragmentFactory"@ != "useDefineForClassFields"@,
        "jsxFragmentFactory"@ != "experimentalDecorators"@,
        "jsxFragmentFactory"@ != "emitDecoratorMetadata"@,
        "jsxFragmentFactory"@ != "rewriteRelativeImportExtensions"@,
        "jsxFragmentFactory"@ != "jsx"@,
        "jsxFragmentFactory"@ != "jsxImportSource"@,
        "jsxFragmentFactory"@ != "jsxFactory"@,
        "baseUrl"@ != "outDir"@,
        "baseUrl"@ != "rootDir"@,
        "baseUrl"@ != "target"@,
        "baseUrl"@ != "module"@,
        "baseUrl"@ != "useDefineForClassFields"@,
        "baseUrl"@ != "experimentalDecorators"@,
        "baseUrl"@ != "emitDecoratorMetadata"@,
        "baseUrl"@ != "rewriteRelativeImportExtensions"@,
        "baseUrl"@ != "jsx"@,
        "baseUrl"@ != "jsxImportSource"@,
        "baseUrl"@ != "jsxFactory"@,
        "baseUrl"@ != "jsxFragmentFactory"@,
        "paths"@ != "outDir"@,
        "paths"@ != "rootDir"@,
        "paths"@ != "target"@,
        "paths"@ != "module"@,
        "paths"@ != "useDefineForClassFields"@,
        "paths"@ != "experimentalDecorators"@,
        "paths"@ != "emitDecoratorMetadata"@,
        "paths"@ != "rewriteRelativeImportExtensions"@,
        "paths"@ != "jsx"@,
        "paths"@ != "jsxImportSource"@,
        "paths"@ != "jsxFactory"@,
        "paths"@ != "jsxFragmentFactory"@,
        "paths"@ != "baseUrl"@,
{
    reveal_strlit("outDir");
    reveal_strlit("rootDir");
    reveal_strlit("target");
    reveal_strlit("module");
    reveal_strlit("useDefineForClassFields");
    reveal_strlit("experimentalDecorators");
    reveal_strlit("emitDecoratorMetadata");
    reveal_strlit("rewriteRelativeImportExtensions");
    reveal_strlit("jsx");
    reveal_strlit("jsxImportSource");
    reveal_strlit("jsxFactory");
    reveal_strlit("jsxFragmentFactory");
    reveal_strlit("baseUrl");
    reveal_strlit("paths");
    assert("outDir"@[0] == 'o');
    assert("target"@[0] == 't');
    assert("module"@[0] == 'm');
    assert("rootDir"@[0] == 'r');
    assert("baseUrl"@[0] == 'b');
    assert("rootDir"@.len() != "outDir"@.len());
    assert("target"@.len() != "rootDir"@.len());
    assert("module"@.len() != "rootDir"@.len());
    assert("useDefineForClassFields"@.len() != "outDir"@.len());
    assert("useDefineForClassFields"@.len() != "rootDir"@.len());
    assert("useDefineForClassFields"@.len() != "target"@.len());
    assert("useDefineForClassFields"@.len() != "module"@.len());
    assert("experimentalDecorators"@.len() != "outDir"@.len());
    assert("experimentalDecorators"@.len() != "rootDir"@.len());
    assert("experimentalDecorators"@.len() != "target"@.len());
    assert("experimentalDecorators"@.len() != "module"@.len());
    assert("experimentalDecorators"@.len() != "useDefineForClassFields"@.len());
    assert("emitDecoratorMetadata"@.len() != "outDir"@.len());
    assert("emitDecoratorMetadata"@.len() != "rootDir"@.len());
    assert("emitDecoratorMetadata"@.len() != "target"@.len());
    assert("emitDecoratorMetadata"@.len() != "module"@.len());
    assert("emitDecoratorMetadata"@.len() != "useDefineForClassFields"@.len());
    assert("emitDecoratorMetadata"@.len() != "experimentalDecorators"@.len());
    assert("rewriteRelativeImportExtensions"@.len() != "outDir"@.len());
    assert("rewriteRelativeImportExtensions"@.len() != "rootDir"@.len());
    assert("rewriteRelativeImportExtensions"@.len() != "target"@.len());
    assert("rewriteRelativeImportExtensions"@.len() != "module"@.len());
    assert("rewriteRelativeImportExtensions"@.len() != "useDefineForClassFields"@.len());
    assert("rewriteRelativeImportExtensions"@.len() != "experimentalDecorators"@.len());
    assert("rewriteRelativeImportExtensions"@.len() != "emitDecoratorMetadata"@.len());
    assert("jsx"@.len() != "outDir"@.len());
    assert("jsx"@.len() != "rootDir"@.len());
    assert("jsx"@.len() != "target"@.len());
    assert("jsx"@.len() != "module"@.len());
    assert("jsx"@.len() != "useDefineForClassFields"@.len());
    assert("jsx"@.len() != "experimentalDecorators"@.len());
    assert("jsx"@.len() != "emitDecoratorMetadata"@.len());
    assert("jsx"@.len() != "rewriteRelativeImportExtensions"@.len());
    assert("jsxImportSource"@.len() != "outDir"@.len());
    assert("jsxImportSource"@.len() != "rootDir"@.len());
    assert("jsxImportSource"@.len() != "target"@.len());
    assert("jsxImportSource"@.len() != "module"@.len());
    assert("jsxImportSource"@.len() != "useDefineForClassFields"@.len());
    assert("jsxImportSource"@.len() != "experimentalDecorators"@.len());
    assert("jsxImportSource"@.len() != "emitDecoratorMetadata"@.len());
    assert("jsxImportSource"@.len() != "rewriteRelativeImportExtensions"@.len());
    assert("jsxImportSource"@.len() != "jsx"@.len());
    assert("jsxFactory"@.len() != "outDir"@.len());
    assert("jsxFactory"@.len() != "rootDir"@.len());
    assert("jsxFactory"@.len() != "target"@.len());
    assert("jsxFactory"@.len() != "module"@.len());
    assert("jsxFactory"@.len() != "useDefineForClassFields"@.len());
    assert("jsxFactory"@.len() != "experimentalDecorators"@.len());
    assert("jsxFactory"@.len() != "emitDecoratorMetadata"@.len());
    assert("jsxFactory"@.len() != "rewriteRelativeImportExtensions"@.len());
    assert("jsxFactory"@.len() != "jsx"@.len());
    assert("jsxFactory"@.len() != "jsxImportSource"@.len());
    assert("jsxFragmentFactory"@.len() != "outDir"@.len());
    assert("jsxFragmentFactory"@.len() != "rootDir"@.len());
    assert("jsxFragmentFactory"@.len() != "target"@.len());
    assert("jsxFragmentFactory"@.len() != "module"@.len());
    assert("jsxFragmentFactory"@.len() != "useDefineForClassFields"@.len());
    assert("jsxFragmentFactory"@.len() != "experimentalDecorators"@.len());
    assert("jsxFragmentFactory"@.len() != "emitDecoratorMetadata"@.len());
    assert("jsxFragmentFactory"@.len() != "rewriteRelativeImportExtensions"@.len());
    assert("jsxFragmentFactory"@.len() != "jsx"@.len());
    assert("jsxFragmentFactory"@.len() != "jsxImportSource"@.len());
    assert("jsxFragmentFactory"@.len() != "jsxFactory"@.len());
    assert("baseUrl"@.len() != "outDir"@.len());
    assert("baseUrl"@.len() != "target"@.len());
    assert("baseUrl"@.len() != "module"@.len());
    assert("baseUrl"@.len() != "useDefineForClassFields"@.len());
    assert("baseUrl"@.len() != "experimentalDecorators"@.len());
    assert("baseUrl"@.len() != "emitDecoratorMetadata"@.len());
    assert("baseUrl"@.len() != "rewriteRelativeImportExtensions"@.len());
    assert("baseUrl"@.len() != "jsx"@.len());
    assert("baseUrl"@.len() != "jsxImportSource"@.len());
    assert("baseUrl"@.len() != "jsxFactory"@.len());
    assert("baseUrl"@.len() != "jsxFragmentFactory"@.len());
    assert("paths"@.len() != "outDir"@.len());
    assert("paths"@.len() != "rootDir"@.len());
    assert("paths"@.len() != "target"@.len());
    assert("paths"@.len() != "module"@.len());
    assert("paths"@.len() != "useDefineForClassFields"@.len());
    assert("paths"@.len() != "experimentalDecorators"@.len());
    assert("paths"@.len() != "emitDecoratorMetadata"@.len());
    assert("paths"@.len() != "rewriteRelativeImportExtensions"@.len());
    assert("paths"@.len() != "jsx"@.len());
    assert("paths"@.len() != "jsxImportSource"@.len());
    assert("paths"@.len() != "jsxFactory"@.len());
    assert("paths"@.len() != "jsxFragmentFactory"@.len());
    assert("paths"@.len() != "baseUrl"@.len());
}

/// Each member of a config is read from the field of its own name, and nothing else is touched: a
/// list of texts is taken as it stands, and a member of another name is passed over.
pub proof fn law_members(c: Config, items: Seq<Tree>, list: Seq<Seq<char>>, key: Seq<char>, val: Tree)
    requires
        items.len() == list.len(),
        forall|i: int| 0 <= i < items.len() ==> #[trigger] items[i] == Tree::Text(list[i]),
    ensures
        with_member(c, "include"@, Tree::Array(items)) == Ok::<Config, Seq<char>>(
            Config { included: list, ..c },
        ),
        with_member(c, "files"@, Tree::Array(items)) == Ok::<Config, Seq<char>>(
            Config { files: list, ..c },
        ),
        with_member(c, "exclude"@, Tree::Array(items)) == Ok::<Config, Seq<char>>(
            Config { exclude: list, ..c },
        ),
        val != Tree::Null ==> with_member(c, "extends"@, val) == Ok::<Config, Seq<char>>(
            Config { extends: Some(val), ..c },
        ),
        !(val is Array) ==> with_member(c, "include"@, val) is Err && with_member(c, "files"@, val)
            is Err && with_member(c, "exclude"@, val) is Err,
        !member_keys().contains(key) ==> with_member(c, key, val) == Ok::<Config, Seq<char>>(c),
        with_member(c, "compilerOptions"@, val) is Ok <==> options_of("compilerOptions"@, val) is Ok,
        options_of("compilerOptions"@, val) matches Ok(o) ==> with_member(
            c,
            "compilerOptions"@,
            val,
        ) == Ok::<Config, Seq<char>>(Config { compiler_options: o, ..c }),
{
    reveal_strlit("compilerOptions");
    reveal_strlit("include");
    reveal_strlit("files");
    reveal_strlit("exclude");
    reveal_strlit("extends");
    assert("include"@[0] == 'i' && "exclude"@[0] == 'e' && "extends"@[0] == 'e');
    assert("exclude"@[2] == 'c' && "extends"@[2] == 't');
    assert("files"@.len() != "include"@.len() && "files"@.len() != "compilerOptions"@.len()
        && "include"@.len() != "compilerOptions"@.len());
    let keys = member_keys();
    assert(keys[0] == "compilerOptions"@ && keys[1] == "include"@ && keys[2] == "files"@ && keys[3]
        == "exclude"@ && keys[4] == "extends"@);
    lemma_listed("include"@, items, list, items.len() as int);
    lemma_listed("files"@, items, list, items.len() as int);
    lemma_listed("exclude"@, items, list, items.len() as int);
    assert(list.take(items.len() as int) =~= list);
}

proof fn lemma_listed(key: Seq<char>, items: Seq<Tree>, list: Seq<Seq<char>>, n: int)
    requires
        items.len() == list.len(),
        0 <= n <= items.len(),
        forall|i: int| 0 <= i < items.len() ==> #[trigger] items[i] == Tree::Text(list[i]),
    ensures
        listed_texts(key, items, n) == Ok::<Seq<Seq<char>>, Seq<char>>(list.take(n)),
    decreases n,
{
    if n > 0 {
        lemma_listed(key, items, list, n - 1);
        assert(list.take(n - 1).push(list[n - 1]) =~= list.take(n));
    } else {
        assert(list.take(0) =~= Seq::<Seq<char>>::empty());
    }
}

/// A list with anything but texts in it is refused.
pub proof fn law_lists_hold_texts(key: Seq<char>, items: Seq<Tree>, i: int)
    requires
        0 <= i < items.len(),
        !(items[i] is Text),
    ensures
        list_field(key, Tree::Array(items)) is Err,
{
    lemma_listed_fails(key, items, items.len() as int, i);
}

proof fn lemma_listed_fails(key: Seq<char>, items: Seq<Tree>, n: int, i: int)
    requires
        0 <= i < n <= items.len(),
        !(items[i] is Text),
    ensures
        listed_texts(key, items, n) is Err,
    decreases n,
{
    if i < n - 1 {
        lemma_listed_fails(key, items, n - 1, i);
    }
}

/// Fields are read in order, one after another, from a config with every default; the first that is
/// malformed ends it.
pub proof fn law_fields_in_order(fields: Seq<(Seq<char>, Tree)>, n: int)
    requires
        0 <= n < fields.len(),
    ensures
        with_options(fields, 0) == Ok::<Options, Seq<char>>(default_options()),
        with_options(fields, n) matches Ok(c) ==> with_options(fields, n + 1) == with_option(
            c,
            fields[n].0,
            fields[n].1,
        ),
        with_options(fields, n) is Err ==> with_options(fields, n + 1) == with_options(fields, n),
        with_members(fields, 0) == Ok::<Config, Seq<char>>(default_config()),
        with_members(fields, n) matches Ok(c) ==> with_members(fields, n + 1) == with_member(
            c,
            fields[n].0,
            fields[n].1,
        ),
        with_members(fields, n) is Err ==> with_members(fields, n + 1) == with_members(fields, n),
{
}

/// A key is reported as repeated exactly when it is one of those that count and stands twice.
pub proof fn law_repeated_keys(keys: Seq<Seq<char>>, names: Seq<Seq<char>>, n: int)
    requires
        0 <= n <= names.len(),
    ensures
        repeated(keys, names, n) is Some <==> exists|i: int, j: int|
            0 <= i < j < n && #[trigger] names[i] == #[trigger] names[j] && keys.contains(names[j]),
        repeated(keys, names, n) matches Some(key) ==> keys.contains(key) && exists|i: int, j: int|
            0 <= i < j < n && #[trigger] names[i] == key && #[trigger] names[j] == key,
    decreases n,
{
    if n > 0 {
        law_repeated_keys(keys, names, n - 1);
        let before = names.take(n - 1);
        if repeated(keys, names, n - 1) is None {
            if before.contains(names[n - 1]) && keys.contains(names[n - 1]) {
                let i = choose|i: int| 0 <= i < before.len() && before[i] == names[n - 1];
                assert(names[i] == names[n - 1]);
            }
            if exists|i: int, j: int|
                0 <= i < j < n && #[trigger] names[i] == #[trigger] names[j] && keys.contains(
                    names[j],
                ) {
                let (i, j) = choose|i: int, j: int|
                    0 <= i < j < n && #[trigger] names[i] == #[trigger] names[j] && keys.contains(
                        names[j],
                    );
                assert(j == n - 1);
                assert(before[i] == names[n - 1]);
            }
        } else {
            let (i, j) = choose|i: int, j: int|
                0 <= i < j < n - 1 && #[trigger] names[i] == #[trigger] names[j] && keys.contains(
                    names[j],
                );
            assert(0 <= i < j < n && names[i] == names[j]);
        }
    }
}

/// An empty document is a config with every default, an object is read by its names and a list by
/// its places, and nothing else is a config.
pub proof fn law_documents(doc: Tree, items: Seq<Tree>, fields: Seq<(Seq<char>, Tree)>, k: int)
    ensures
        config_of(Tree::Null) == Ok::<Config, Seq<char>>(default_config()),
        config_of(Tree::Object(fields)) == with_members(fields, fields.len() as int),
        config_of(Tree::Array(items)) == config_of(Tree::Object(by_place(member_keys(), items))),
        doc is Bool || doc is Text ==> config_of(doc) is Err,
        0 <= k < items.len() && k < 5 ==> by_place(member_keys(), items)[k] == (
            member_keys()[k],
            items[k],
        ),
        by_place(member_keys(), items).len() <= 5,
        items.len() <= 5 ==> by_place(member_keys(), items).len() == items.len(),
{
}

/// A text is a config when it is a document in which no field is stated twice and every field holds
/// what it should; otherwise it is a vendor error.
pub proof fn law_parsing(raw: Seq<char>)
    ensures
        parsed_config(raw) is Ok <==> json::jsonc_document(raw) is Ok && repeated_field(
            json::members(json::jsonc_lexemes(raw)),
        ) is None && config_of(json::jsonc_document(raw)->Ok_0) is Ok,
        parsed_config(raw) matches Ok(c) ==> config_of(json::jsonc_document(raw)->Ok_0) == Ok::<
            Config,
            Seq<char>,
        >(c),
        parsed_config(raw) matches Err(e) ==> (e matches Failure::Vendor(m)
            && "tsconfig.json does not parse: "@.is_prefix_of(m)),
{
    if let Err(e) = parsed_config(raw) {
        let m = e->Vendor_0;
        let p = "tsconfig.json does not parse: "@;
        assert(m.subrange(0, p.len() as int) =~= p);
    }
}

/// A field is stated twice when a member of the config is, or an option within one `compilerOptions`
/// is; members and options of other names may repeat.
pub proof fn law_stated_twice(members: Seq<(Seq<char>, Seq<Seq<char>>)>)
    ensures
        repeated_field(members) is Some <==> {
            ||| exists|i: int, j: int|
                0 <= i < j < members.len() && (#[trigger] members[i]).0 == (#[trigger] members[j]).0
                    && member_keys().contains(members[j].0)
            ||| exists|k: int|
                0 <= k < members.len() && (#[trigger] members[k]).0 == "compilerOptions"@ && repeated(
                    option_keys(),
                    members[k].1,
                    members[k].1.len() as int,
                ) is Some
        },
{
    let names = Seq::new(members.len(), |i: int| members[i].0);
    law_repeated_keys(member_keys(), names, names.len() as int);
    lemma_repeated_option(members, members.len() as int);
    if exists|i: int, j: int|
        0 <= i < j < members.len() && (#[trigger] members[i]).0 == (#[trigger] members[j]).0
            && member_keys().contains(members[j].0) {
        let (i, j) = choose|i: int, j: int|
            0 <= i < j < members.len() && (#[trigger] members[i]).0 == (#[trigger] members[j]).0
                && member_keys().contains(members[j].0);
        assert(names[i] == names[j]);
    }
    if repeated(member_keys(), names, names.len() as int) is Some {
        let (i, j) = choose|i: int, j: int|
            0 <= i < j < names.len() && #[trigger] names[i] == #[trigger] names[j]
                && member_keys().contains(names[j]);
        assert(members[i].0 == members[j].0);
    }
}

proof fn lemma_repeated_option(members: Seq<(Seq<char>, Seq<Seq<char>>)>, n: int)
    requires
        0 <= n <= members.len(),
    ensures
        repeated_option(members, n) is Some <==> exists|k: int|
            0 <= k < n && (#[trigger] members[k]).0 == "compilerOptions"@ && repeated(
                option_keys(),
                members[k].1,
                members[k].1.len() as int,
            ) is Some,
    decreases n,
{
    if n > 0 {
        lemma_repeated_option(members, n - 1);
        assert(members[n - 1] == members[n - 1]);
    }
}

/// A complaint names the field and says what it should hold.
pub proof fn law_complaints(key: Seq<char>, what: Seq<char>)
    ensures
        text::has(wrong(key, what), key),
        what.is_suffix_of(wrong(key, what)),
        text::has(duplicated(key), key),
{
    text::law_standing_in("`"@, key, "` must be "@ + what);
    assert(wrong(key, what) =~= "`"@ + key + ("` must be "@ + what));
    text::law_taking_off("`"@ + key + "` must be "@, what);
    text::law_standing_in("duplicate field `"@, key, "`"@);
}

} // verus!
