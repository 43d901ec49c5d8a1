//! Both directions of a TypeScript `tsconfig`: generating one, and reading one a
//! dependency brought with it.
//!
//! [`TsConfig`] is the reading side: the fields that decide where a package's compiler
//! output lands and how it is emitted. The rest generates `paths` from a set of
//! [`Mount`]s: the editor / `tsc` side of import resolution, co-generated from the
//! **same** mount set as the runtime import map so the two can't drift.
//!
//! For a mount with specifier `@module/contacts/` and dir `modules/contacts/web/src`,
//! this emits `"@module/contacts/*": ["./modules/contacts/web/src/*"]` (dir relative
//! to `base`, typically the workspace root).

use vstd::prelude::*;

use crate::error::{Error, Failure};
use crate::glob;
use crate::importmap::mount_entries;
use crate::json;
use crate::json::{Json, Tree};
use crate::mount::{Mount, MountSpec};
use crate::npm;
use crate::path;
use crate::path::Part;
use crate::sorted_map::{
    law_listing, lemma_listing, lemma_text_entries, listing, ordered, table, ByText, KeyOrder,
    SortedMap,
};
use crate::text;
use crate::text::{joined, opt_text, pieces, texts};
use crate::vendor::manifest;
use crate::vendor::spec::{wanted, PackageSpec, Wanted};

verus! {

/// A package's `tsconfig.json`, in the fields that decide where its compiler output lands
/// and how that output behaves.
#[derive(Debug, PartialEq, Eq)]
pub struct TsConfig {
    /// `compilerOptions`, absent meaning every option is at its own default.
    pub compiler_options: CompilerOptions,
    /// The globs, or file paths, that choose inputs: the format permits either.
    pub included: Vec<String>,
    /// `files`: individual inputs, never globs.
    pub files: Vec<String>,
    /// `exclude` globs, subtracted from the inputs.
    pub exclude: Vec<String>,
    /// Present when the config inherits from another. A string or an array of
    /// them; kept as a value because only its presence matters here.
    pub extends: Option<Json>,
}

/// The `compilerOptions` this crate reads. Emit-relevant options are here so that a
/// vendored package can be compiled the way its own build would compile it.
#[derive(Debug, PartialEq, Eq)]
pub struct CompilerOptions {
    /// Where output goes; absent means beside the sources.
    pub out_dir: Option<String>,
    /// The input root output paths are made relative to.
    pub root_dir: Option<String>,
    /// The emit target, which decides the `useDefineForClassFields` default and, without
    /// an explicit `module`, the module format.
    pub target: Option<String>,
    /// The module format the package emits.
    pub module: Option<String>,
    /// ES-2022 *define* semantics for class fields, rather than assignment.
    pub use_define_for_class_fields: Option<bool>,
    /// Legacy (stage-2) decorators.
    pub experimental_decorators: Option<bool>,
    /// `design:type` metadata emission, which needs a decorator runtime.
    pub emit_decorator_metadata: Option<bool>,
    /// Rewrite a relative import's `.ts`/`.mts`/`.cts` extension to the emitted one, which
    /// a package writing `./util.ts` in its sources needs for its output to resolve.
    pub rewrite_relative_import_extensions: Option<bool>,
    /// JSX transform mode, and the factories it resolves through. Read to be refused: a
    /// `.tsx` source is compiled, but none of these are honoured.
    pub jsx: Option<String>,
    /// The module a JSX factory is imported from.
    pub jsx_import_source: Option<String>,
    /// An explicit element factory.
    pub jsx_factory: Option<String>,
    /// An explicit fragment factory.
    pub jsx_fragment_factory: Option<String>,
    /// Alias resolution root.
    pub base_url: Option<String>,
    /// Alias table.
    pub paths: Option<Json>,
}

/// Where a package's compiler output goes, and which directory its sources are rooted at:
/// the two facts needed to reproduce `tsc`'s own file mapping.
#[derive(Clone, Debug, PartialEq, Eq)]
pub struct SourceLayout {
    /// `rootDir` as declared, or `None` when the config leaves it to be inferred from the
    /// input files, which is what [`common_input_dir`] does, once those are known.
    pub root: Option<String>,
    /// `outDir`, or the package root, which is compiling in place.
    pub out: String,
}

/// A layout, as the contracts see it.
pub struct LayoutSpec {
    pub root: Option<Seq<char>>,
    pub out: Seq<char>,
}

impl View for SourceLayout {
    type V = LayoutSpec;

    open spec fn view(&self) -> LayoutSpec {
        LayoutSpec { root: opt_text(self.root), out: self.out@ }
    }
}

/// Every option is unset.
pub open spec fn unset(o: CompilerOptions) -> bool {
    &&& o.out_dir is None
    &&& o.root_dir is None
    &&& o.target is None
    &&& o.module is None
    &&& o.use_define_for_class_fields is None
    &&& o.experimental_decorators is None
    &&& o.emit_decorator_metadata is None
    &&& o.rewrite_relative_import_extensions is None
    &&& o.jsx is None
    &&& o.jsx_import_source is None
    &&& o.jsx_factory is None
    &&& o.jsx_fragment_factory is None
    &&& o.base_url is None
    &&& o.paths is None
}

impl Default for CompilerOptions {
    fn default() -> (r: Self)
        ensures
            unset(r),
    {
        CompilerOptions {
            out_dir: None,
            root_dir: None,
            target: None,
            module: None,
            use_define_for_class_fields: None,
            experimental_decorators: None,
            emit_decorator_metadata: None,
            rewrite_relative_import_extensions: None,
            jsx: None,
            jsx_import_source: None,
            jsx_factory: None,
            jsx_fragment_factory: None,
            base_url: None,
            paths: None,
        }
    }
}

impl Default for TsConfig {
    fn default() -> (r: Self)
        ensures
            unset(r.compiler_options),
            r.included@ == Seq::<String>::empty(),
            r.files@ == Seq::<String>::empty(),
            r.exclude@ == Seq::<String>::empty(),
            r.extends is None,
    {
        TsConfig {
            compiler_options: CompilerOptions::default(),
            included: Vec::new(),
            files: Vec::new(),
            exclude: Vec::new(),
            extends: None,
        }
    }
}

impl Default for SourceLayout {
    fn default() -> (r: Self)
        ensures
            r@ == (LayoutSpec { root: None, out: Seq::empty() }),
    {
        SourceLayout { root: None, out: String::new() }
    }
}

// ---------------------------------------------------------------------------
// Class fields
// ---------------------------------------------------------------------------

/// `c` is an ASCII digit.
pub open spec fn is_digit(c: char) -> bool {
    '0' <= c && c <= '9'
}

/// The number that a run of digits stands for.
pub open spec fn digits_value(s: Seq<char>) -> nat
    decreases s.len(),
{
    if s.len() == 0 {
        0
    } else {
        (digits_value(s.drop_last()) * 10 + (s.last() as nat - '0' as nat)) as nat
    }
}

/// All of `s` is digits.
pub open spec fn all_digits(s: Seq<char>) -> bool {
    forall|i: int| 0 <= i < s.len() ==> is_digit(#[trigger] s[i])
}

/// `s` without one leading `+`.
pub open spec fn unsigned(s: Seq<char>) -> Seq<char> {
    match text::without_prefix(s, "+"@) {
        Some(rest) => rest,
        None => s,
    }
}

/// The number that a text stands for: digits, after at most one `+`, that fit 32 bits.
pub open spec fn number_in(s: Seq<char>) -> Option<nat> {
    if unsigned(s).len() > 0 && all_digits(unsigned(s)) && digits_value(unsigned(s)) <= u32::MAX {
        Some(digits_value(unsigned(s)))
    } else {
        None
    }
}

/// Class fields are *defined*: as stated, else by the target, ES 2022 and later defining them.
pub open spec fn class_fields_defined(o: CompilerOptions) -> bool {
    match o.use_define_for_class_fields {
        Some(explicit) => explicit,
        None => match opt_text(o.target) {
            Some(target) => {
                let low = text::lowered(target);
                low == "esnext"@ || (text::without_prefix(low, "es"@) matches Some(year)
                    && number_in(year) matches Some(n) && n >= 2022)
            },
            None => false,
        },
    }
}

proof fn lemma_digits_grow(s: Seq<char>, i: int)
    requires
        0 <= i <= s.len(),
        all_digits(s),
    ensures
        digits_value(s.take(i)) <= digits_value(s),
    decreases s.len(),
{
    if i == s.len() {
        assert(s.take(i) =~= s);
    } else {
        assert forall|j: int| 0 <= j < s.drop_last().len() implies is_digit(
            #[trigger] s.drop_last()[j],
        ) by {
            assert(s.drop_last()[j] == s[j]);
        }
        lemma_digits_grow(s.drop_last(), i);
        assert(s.drop_last().take(i) =~= s.take(i));
        assert(is_digit(s[s.len() - 1]));
    }
}

/// The number that a text stands for.
fn parse_number(s: &str) -> (r: Option<u32>)
    ensures
        match r {
            Some(n) => number_in(s@) == Some(n as nat),
            None => number_in(s@) is None,
        },
{
    let d = match text::strip_prefix(s, "+") {
        Some(rest) => rest,
        None => s.to_owned(),
    };
    let all = text::chars(d.as_str());
    if all.len() == 0 {
        return None;
    }
    let mut value: u64 = 0;
    let mut i: usize = 0;
    while i < all.len()
        invariant
            i <= all@.len(),
            all@ == d@,
            all@.len() > 0,
            d@ == unsigned(s@),
            value <= u32::MAX,
            value == digits_value(d@.take(i as int)),
            forall|j: int| 0 <= j < i ==> is_digit(#[trigger] d@[j]),
        decreases all@.len() - i,
    {
        let c = all[i];
        if !('0' <= c && c <= '9') {
            assert(!is_digit(d@[i as int]));
            return None;
        }
        proof {
            let grown = d@.take(i + 1);
            assert(grown.drop_last() =~= d@.take(i as int));
            assert(grown.last() == c);
        }
        value = value * 10 + ((c as u32) - ('0' as u32)) as u64;
        if value > 0xffff_ffff {
            proof {
                if all_digits(d@) {
                    lemma_digits_grow(d@, i + 1);
                }
            }
            return None;
        }
        i += 1;
    }
    assert(d@.take(all@.len() as int) =~= d@);
    Some(value as u32)
}

// ---------------------------------------------------------------------------
// Layout
// ---------------------------------------------------------------------------

/// The ordinary names of a path, in order.
pub open spec fn names_in(list: Seq<Part>) -> Seq<Seq<char>>
    decreases list.len(),
{
    if list.len() == 0 {
        Seq::empty()
    } else {
        match list.last() {
            Part::Name(name) => names_in(list.drop_last()).push(name),
            _ => names_in(list.drop_last()),
        }
    }
}

/// A layout option in one spelling: package-relative, `.` being the empty
/// prefix; refused when it is absolute or leaves the package.
pub open spec fn contained(option: Seq<char>, value: Seq<char>) -> Result<Seq<char>, Failure> {
    if value.len() == 0 {
        Ok(Seq::empty())
    } else if path::rooted(value) {
        Err(
            Failure::Vendor(
                "tsconfig.json `"@ + option + "` is `"@ + value + "`, which is absolute"@,
            ),
        )
    } else if !npm::within(value) {
        Err(
            Failure::Vendor(
                "tsconfig.json `"@ + option + "` is `"@ + value + "`, which leaves the package"@,
            ),
        )
    } else {
        Ok(joined(names_in(path::parts(value)), "/"@))
    }
}

/// The layout that a config declares, the root checked before the output.
pub open spec fn declared_layout(o: CompilerOptions) -> Result<LayoutSpec, Failure> {
    let root: Result<Option<Seq<char>>, Failure> = match opt_text(o.root_dir) {
        Some(root) => match contained("rootDir"@, root) {
            Ok(r) => Ok(Some(r)),
            Err(e) => Err(e),
        },
        None => Ok(None),
    };
    match root {
        Err(e) => Err(e),
        Ok(root) => match opt_text(o.out_dir) {
            Some(out) => match contained("outDir"@, out) {
                Ok(out) => Ok(LayoutSpec { root, out }),
                Err(e) => Err(e),
            },
            None => Ok(LayoutSpec { root, out: Seq::empty() }),
        },
    }
}

/// A layout option in one spelling, or the reason it is refused.
fn contain(option: &str, value: &str) -> (r: Result<String, Error>)
    ensures
        match r {
            Ok(s) => contained(option@, value@) == Ok::<Seq<char>, Failure>(s@),
            Err(e) => contained(option@, value@) == Err::<Seq<char>, Failure>(e@),
        },
{
    if value.is_empty() {
        return Ok(String::new());
    }
    if path::is_absolute(value) {
        return Err(
            Error::Vendor(
                "tsconfig.json `".to_owned().concat(option).concat("` is `").concat(value).concat(
                    "`, which is absolute",
                ),
            ),
        );
    }
    if npm::ensure_within(value).is_err() {
        return Err(
            Error::Vendor(
                "tsconfig.json `".to_owned().concat(option).concat("` is `").concat(value).concat(
                    "`, which leaves the package",
                ),
            ),
        );
    }
    let list = path::components(value);
    let ghost all = path::views(list@);
    let mut names: Vec<String> = Vec::new();
    let mut i: usize = 0;
    assert(texts(names@) =~= names_in(all.take(0)));
    while i < list.len()
        invariant
            i <= list@.len(),
            all == path::views(list@),
            texts(names@) == names_in(all.take(i as int)),
        decreases list@.len() - i,
    {
        proof {
            let grown = all.take(i + 1);
            assert(grown.drop_last() =~= all.take(i as int));
            assert(grown.last() == list@[i as int]@);
        }
        if let path::Component::Normal(name) = &list[i] {
            let copy = name.clone();
            proof {
                text::lemma_texts_push(names@, copy);
            }
            names.push(copy);
        }
        i += 1;
    }
    assert(all.take(list@.len() as int) =~= all);
    Ok(text::join(&names, "/"))
}

// ---------------------------------------------------------------------------
// Module format and root files
// ---------------------------------------------------------------------------

/// The config *declares* CommonJS output: by its `module`, else by a target
/// that implies it.
pub open spec fn commonjs_declared(o: CompilerOptions) -> bool {
    match opt_text(o.module) {
        Some(module) => {
            let low = text::lowered(module);
            ||| low == "commonjs"@
            ||| low == "umd"@
            ||| low == "amd"@
            ||| low == "system"@
            ||| low == "node16"@
            ||| low == "node18"@
            ||| low == "nodenext"@
        },
        None => match opt_text(o.target) {
            Some(target) => text::lowered(target) == "es3"@ || text::lowered(target) == "es5"@,
            None => false,
        },
    }
}

/// Some glob of a list matches a path.
pub open spec fn any_matched(globs: Seq<Seq<char>>, p: Seq<char>) -> bool {
    exists|i: int| 0 <= i < globs.len() && glob::matched(#[trigger] globs[i], p)
}

/// A file is named by an entry of `files`, however the entry is spelled.
pub open spec fn named_file(files: Seq<Seq<char>>, p: Seq<char>) -> bool {
    exists|i: int| 0 <= i < files.len() && glob::bare_glob(#[trigger] files[i]) == p
}

/// A package-relative path with forward slashes and without a leading `./`.
pub open spec fn plain_path(rel: Seq<char>) -> Seq<char> {
    text::trimmed_prefix(text::replaced(rel, "\\"@, "/"@), "./"@)
}

/// `rel` is a root file of the program that a config describes.
pub open spec fn root_file(c: TsConfig, rel: Seq<char>) -> bool {
    let p = plain_path(rel);
    ||| named_file(texts(c.files@), p)
    ||| {
        &&& !glob::matched("node_modules"@, p)
        &&& !glob::matched("bower_components"@, p)
        &&& !glob::matched("jspm_packages"@, p)
        &&& !(opt_text(c.compiler_options.out_dir) matches Some(out) && text::trimmed(out, "/"@).len()
            > 0 && glob::matched(out, p))
        &&& !any_matched(texts(c.exclude@), p)
        &&& {
            ||| c.files@.len() == 0 && c.included@.len() == 0
            ||| any_matched(texts(c.included@), p)
        }
    }
}

fn any_matches(globs: &Vec<String>, p: &str) -> (r: bool)
    ensures
        r == any_matched(texts(globs@), p@),
{
    let mut i: usize = 0;
    while i < globs.len()
        invariant
            i <= globs@.len(),
            forall|j: int| 0 <= j < i ==> !glob::matched(#[trigger] texts(globs@)[j], p@),
        decreases globs@.len() - i,
    {
        assert(texts(globs@)[i as int] == globs@[i as int]@);
        if glob::glob_matches(globs[i].as_str(), p) {
            return true;
        }
        i += 1;
    }
    false
}

impl TsConfig {
    /// Whether class fields are *defined*, as ES 2022 does, rather than assigned.
    ///
    /// `useDefineForClassFields` decides it when set. Otherwise `tsc`'s own rule applies:
    /// define from target ES 2022 upwards, assign below it, which is why a package
    /// targeting ES 2019 needs assignment semantics to be emitted the way it builds.
    pub fn defines_class_fields(&self) -> (r: bool)
        ensures
            r == class_fields_defined(self.compiler_options),
    {
        if let Some(explicit) = self.compiler_options.use_define_for_class_fields {
            return explicit;
        }
        match &self.compiler_options.target {
            Some(target) => {
                let low = text::lower(target.as_str());
                if text::same(low.as_str(), "esnext") {
                    return true;
                }
                match text::strip_prefix(low.as_str(), "es") {
                    Some(year) => match parse_number(year.as_str()) {
                        Some(n) => n >= 2022,
                        None => false,
                    },
                    None => false,
                }
            },
            None => false,
        }
    }

    /// The layout to reproduce: `outDir`, and `rootDir` when the config states one.
    ///
    /// Both are refused unless they are package-relative. They come from a config the
    /// package itself shipped, which for a vendored dependency means from a downloaded
    /// archive: `rootDir: ".."` would otherwise name the directory *holding* the package.
    /// An absolute path is refused rather than read as relative, since compiling to a
    /// different layout than the one asked for is its own kind of wrong.
    ///
    /// A `rootDir` the config leaves out is not guessed here. `tsc` derives it from the
    /// program's own input files, so [`common_input_dir`] does that once they are known.
    pub fn layout(&self) -> (r: Result<SourceLayout, Error>)
        ensures
            crate::error::seen(r) == declared_layout(self.compiler_options),
    {
        let root = match &self.compiler_options.root_dir {
            Some(root) => match contain("rootDir", root.as_str()) {
                Ok(r) => Some(r),
                Err(e) => {
                    return Err(e);
                },
            },
            None => None,
        };
        let out = match &self.compiler_options.out_dir {
            Some(out) => match contain("outDir", out.as_str()) {
                Ok(out) => out,
                Err(e) => {
                    return Err(e);
                },
            },
            None => String::new(),
        };
        Ok(SourceLayout { root, out })
    }

    /// Whether the config *declares* CommonJS output, which this path does not produce.
    ///
    /// An explicit `module` says so directly. `node16` and its successors decide per file
    /// from the nearest `package.json`, so they count here too: the answer cannot be had
    /// from the config alone. Without a `module`, only a target `tsc` would emit CommonJS
    /// for counts: ES 3 and ES 5. A config naming neither is not read as CommonJS.
    pub fn emits_commonjs(&self) -> (r: bool)
        ensures
            r == commonjs_declared(self.compiler_options),
    {
        match &self.compiler_options.module {
            Some(module) => {
                let low = text::lower(module.as_str());
                let m = low.as_str();
                text::same(m, "commonjs") || text::same(m, "umd") || text::same(m, "amd")
                    || text::same(m, "system") || text::same(m, "node16") || text::same(m, "node18")
                    || text::same(m, "nodenext")
            },
            None => match &self.compiler_options.target {
                Some(target) => {
                    let low = text::lower(target.as_str());
                    text::same(low.as_str(), "es3") || text::same(low.as_str(), "es5")
                },
                None => false,
            },
        }
    }

    /// Whether `rel`, a path relative to the package, is a **root file** of the program
    /// this config describes.
    ///
    /// The entries of `files` and the input globs choose root files; they are not the
    /// whole program, because a file a root imports is in it too. `exclude` only filters
    /// what the globs discover: it does not remove a file `files` names. With neither
    /// field, every file is a root, as `tsc` does.
    ///
    /// The directories `tsc` excludes whether or not the config lists them are excluded
    /// here too, along with the output directory, which is never its own input.
    pub fn is_root_file(&self, rel: &str) -> (r: bool)
        ensures
            r == root_file(*self, rel@),
    {
        proof {
            reveal_strlit("\\");
        }
        let slashed = text::replace(rel, "\\", "/");
        let plain = text::trim_prefix(slashed.as_str(), "./");
        let p = plain.as_str();
        let mut i: usize = 0;
        while i < self.files.len()
            invariant
                i <= self.files@.len(),
                p@ == plain_path(rel@),
                forall|j: int|
                    0 <= j < i ==> glob::bare_glob(#[trigger] texts(self.files@)[j]) != p@,
            decreases self.files@.len() - i,
        {
            assert(texts(self.files@)[i as int] == self.files@[i as int]@);
            let bare = text::trim_both(
                text::trim_prefix(self.files[i].as_str(), "./").as_str(),
                "/",
            );
            if text::same(bare.as_str(), p) {
                return true;
            }
            i += 1;
        }
        assert(!named_file(texts(self.files@), p@));
        if glob::glob_matches("node_modules", p) || glob::glob_matches("bower_components", p)
            || glob::glob_matches("jspm_packages", p) {
            return false;
        }
        if let Some(out) = &self.compiler_options.out_dir {
            if !text::trim_both(out.as_str(), "/").as_str().is_empty() && glob::glob_matches(
                out.as_str(),
                p,
            ) {
                return false;
            }
        }
        if any_matches(&self.exclude, p) {
            return false;
        }
        if self.files.len() == 0 && self.included.len() == 0 {
            return true;
        }
        any_matches(&self.included, p)
    }
}

// ---------------------------------------------------------------------------
// The directory the inputs share
// ---------------------------------------------------------------------------

/// The non-empty pieces of a list.
pub open spec fn nonempty(list: Seq<Seq<char>>) -> Seq<Seq<char>>
    decreases list.len(),
{
    if list.len() == 0 {
        Seq::empty()
    } else if list.last().len() == 0 {
        nonempty(list.drop_last())
    } else {
        nonempty(list.drop_last()).push(list.last())
    }
}

/// The segments of a directory.
pub open spec fn dir_segments(dir: Seq<char>) -> Seq<Seq<char>> {
    nonempty(pieces(dir, '/'))
}

/// The longest list that two lists both start with.
pub open spec fn shared_start(a: Seq<Seq<char>>, b: Seq<Seq<char>>) -> Seq<Seq<char>>
    decreases a.len(),
{
    if a.len() == 0 || b.len() == 0 || a[0] != b[0] {
        Seq::empty()
    } else {
        seq![a[0]] + shared_start(a.drop_first(), b.drop_first())
    }
}

/// The segments that a list of directories all start with.
pub open spec fn shared_segments(dirs: Seq<Seq<char>>) -> Seq<Seq<char>>
    decreases dirs.len(),
{
    if dirs.len() == 0 {
        Seq::empty()
    } else if dirs.len() == 1 {
        dir_segments(dirs[0])
    } else {
        shared_start(shared_segments(dirs.drop_last()), dir_segments(dirs.last()))
    }
}

/// The directory of an input, with forward slashes.
pub open spec fn input_dir(p: Seq<char>) -> Seq<char> {
    match path::parent_of(p) {
        Some(dir) => text::replaced(dir, "\\"@, "/"@),
        None => Seq::empty(),
    }
}

/// The directories of a list of inputs.
pub open spec fn input_dirs(inputs: Seq<Seq<char>>) -> Seq<Seq<char>> {
    Seq::new(inputs.len(), |i: int| input_dir(inputs[i]))
}

proof fn lemma_shared_start(a: Seq<Seq<char>>, b: Seq<Seq<char>>)
    ensures
        shared_start(a, b).is_prefix_of(a),
        shared_start(a, b).is_prefix_of(b),
        forall|c: Seq<Seq<char>>|
            c.is_prefix_of(a) && c.is_prefix_of(b) ==> #[trigger] c.is_prefix_of(shared_start(a, b)),
    decreases a.len(),
{
    let s = shared_start(a, b);
    if a.len() == 0 || b.len() == 0 || a[0] != b[0] {
        assert(s =~= a.subrange(0, 0));
        assert(s =~= b.subrange(0, 0));
        assert forall|c: Seq<Seq<char>>| c.is_prefix_of(a) && c.is_prefix_of(b) implies
            #[trigger] c.is_prefix_of(s) by {
            if c.len() > 0 {
                assert(c[0] == a.subrange(0, c.len() as int)[0]);
                assert(c[0] == b.subrange(0, c.len() as int)[0]);
            }
            assert(c =~= s.subrange(0, 0));
        }
    } else {
        let x = a.drop_first();
        let y = b.drop_first();
        let t = shared_start(x, y);
        lemma_shared_start(x, y);
        assert(t =~= x.subrange(0, t.len() as int));
        assert(t =~= y.subrange(0, t.len() as int));
        assert forall|i: int| 0 <= i < s.len() implies s[i] == a[i] && s[i] == b[i] by {
            if i > 0 {
                assert(s[i] == t[i - 1]);
                assert(t[i - 1] == x.subrange(0, t.len() as int)[i - 1]);
                assert(t[i - 1] == y.subrange(0, t.len() as int)[i - 1]);
            }
        }
        assert(s =~= a.subrange(0, s.len() as int));
        assert(s =~= b.subrange(0, s.len() as int));
        assert forall|c: Seq<Seq<char>>| c.is_prefix_of(a) && c.is_prefix_of(b) implies
            #[trigger] c.is_prefix_of(s) by {
            if c.len() == 0 {
                assert(c =~= s.subrange(0, 0));
            } else {
                assert(c =~= a.subrange(0, c.len() as int));
                assert(c =~= b.subrange(0, c.len() as int));
                let d = c.drop_first();
                assert(d =~= x.subrange(0, d.len() as int));
                assert(d =~= y.subrange(0, d.len() as int));
                assert(d.is_prefix_of(x) && d.is_prefix_of(y));
                assert(d.is_prefix_of(t));
                assert(d =~= t.subrange(0, d.len() as int));
                assert forall|i: int| 0 <= i < c.len() implies c[i] == s[i] by {
                    if i > 0 {
                        assert(c[i] == d[i - 1]);
                        assert(d[i - 1] == t.subrange(0, d.len() as int)[i - 1]);
                        assert(s[i] == t[i - 1]);
                    } else {
                        assert(c[0] == a.subrange(0, c.len() as int)[0]);
                    }
                }
                assert(c =~= s.subrange(0, c.len() as int));
            }
        }
    }
}

proof fn lemma_prefix_transitive(a: Seq<Seq<char>>, b: Seq<Seq<char>>, c: Seq<Seq<char>>)
    requires
        a.is_prefix_of(b),
        b.is_prefix_of(c),
    ensures
        a.is_prefix_of(c),
{
    assert(a =~= b.subrange(0, a.len() as int));
    assert(b =~= c.subrange(0, b.len() as int));
    assert(a =~= c.subrange(0, a.len() as int));
}

/// The shared segments stand at the start of every directory, and nothing longer does.
pub proof fn law_shared_segments(dirs: Seq<Seq<char>>)
    requires
        dirs.len() > 0,
    ensures
        forall|i: int|
            0 <= i < dirs.len() ==> shared_segments(dirs).is_prefix_of(
                dir_segments(#[trigger] dirs[i]),
            ),
        forall|c: Seq<Seq<char>>|
            (forall|i: int| 0 <= i < dirs.len() ==> c.is_prefix_of(dir_segments(#[trigger] dirs[i])))
                ==> #[trigger] c.is_prefix_of(shared_segments(dirs)),
    decreases dirs.len(),
{
    if dirs.len() == 1 {
        let d = dir_segments(dirs[0]);
        assert(d =~= d.subrange(0, d.len() as int));
        assert(d.is_prefix_of(d));
    } else {
        let front = dirs.drop_last();
        law_shared_segments(front);
        let before = shared_segments(front);
        let last = dir_segments(dirs.last());
        lemma_shared_start(before, last);
        let s = shared_segments(dirs);
        assert forall|i: int| 0 <= i < dirs.len() implies s.is_prefix_of(
            dir_segments(#[trigger] dirs[i]),
        ) by {
            if i < front.len() {
                assert(front[i] == dirs[i]);
                assert(before.is_prefix_of(dir_segments(front[i])));
                lemma_prefix_transitive(s, before, dir_segments(dirs[i]));
            }
        }
        assert forall|c: Seq<Seq<char>>|
            (forall|i: int| 0 <= i < dirs.len() ==> c.is_prefix_of(
                dir_segments(#[trigger] dirs[i]),
            )) implies #[trigger] c.is_prefix_of(s) by {
            assert forall|i: int| 0 <= i < front.len() implies c.is_prefix_of(
                dir_segments(#[trigger] front[i]),
            ) by {
                assert(front[i] == dirs[i]);
            }
            assert(c.is_prefix_of(before));
            assert(c.is_prefix_of(dir_segments(dirs[dirs.len() - 1])));
        }
    }
}

/// The segments of a directory.
fn segments(dir: &str) -> (r: Vec<String>)
    ensures
        texts(r@) == dir_segments(dir@),
{
    let list = text::split(dir, '/');
    let ghost all = texts(list@);
    let mut out: Vec<String> = Vec::new();
    let mut i: usize = 0;
    assert(texts(out@) =~= nonempty(all.take(0)));
    while i < list.len()
        invariant
            i <= list@.len(),
            all == texts(list@),
            texts(out@) == nonempty(all.take(i as int)),
        decreases list@.len() - i,
    {
        proof {
            let grown = all.take(i + 1);
            assert(grown.drop_last() =~= all.take(i as int));
            assert(grown.last() == list@[i as int]@);
        }
        if !list[i].as_str().is_empty() {
            let copy = list[i].clone();
            proof {
                text::lemma_texts_push(out@, copy);
            }
            out.push(copy);
        }
        i += 1;
    }
    assert(all.take(list@.len() as int) =~= all);
    out
}

/// The longest list that two lists both start with.
fn shared_front(a: &Vec<String>, b: &Vec<String>) -> (r: Vec<String>)
    ensures
        texts(r@) == shared_start(texts(a@), texts(b@)),
{
    let ghost x = texts(a@);
    let ghost y = texts(b@);
    let mut out: Vec<String> = Vec::new();
    let mut i: usize = 0;
    assert(x.skip(0) =~= x);
    assert(y.skip(0) =~= y);
    assert(texts(out@) + shared_start(x, y) =~= shared_start(x, y));
    while i < a.len() && i < b.len() && text::same(a[i].as_str(), b[i].as_str())
        invariant
            i <= a@.len(),
            i <= b@.len(),
            x == texts(a@),
            y == texts(b@),
            texts(out@) + shared_start(x.skip(i as int), y.skip(i as int)) == shared_start(x, y),
        decreases a@.len() - i,
    {
        let copy = a[i].clone();
        proof {
            text::lemma_texts_push(out@, copy);
            assert(x.skip(i as int).drop_first() =~= x.skip(i + 1));
            assert(y.skip(i as int).drop_first() =~= y.skip(i + 1));
            let rest = shared_start(x.skip(i + 1), y.skip(i + 1));
            assert(texts(out@) + (seq![copy@] + rest) =~= texts(out@).push(copy@) + rest);
        }
        out.push(copy);
        i += 1;
    }
    assert(shared_start(x.skip(i as int), y.skip(i as int)) =~= Seq::<Seq<char>>::empty());
    assert(texts(out@) + Seq::<Seq<char>>::empty() =~= texts(out@));
    out
}

/// The longest directory prefix every entry shares, segment by segment. No entries, or
/// nothing in common, yields the empty prefix: the package root.
pub fn common_dir(dirs: &Vec<String>) -> (r: String)
    ensures
        r@ == joined(shared_segments(texts(dirs@)), "/"@),
{
    let ghost all = texts(dirs@);
    if dirs.len() == 0 {
        assert(shared_segments(all) =~= Seq::<Seq<char>>::empty());
        return String::new();
    }
    let mut shared = segments(dirs[0].as_str());
    assert(all.take(1)[0] == dirs@[0]@);
    let mut i: usize = 1;
    while i < dirs.len()
        invariant
            1 <= i <= dirs@.len(),
            all == texts(dirs@),
            texts(shared@) == shared_segments(all.take(i as int)),
        decreases dirs@.len() - i,
    {
        proof {
            let grown = all.take(i + 1);
            assert(grown.drop_last() =~= all.take(i as int));
            assert(grown.last() == dirs@[i as int]@);
        }
        let next = segments(dirs[i].as_str());
        shared = shared_front(&shared, &next);
        i += 1;
    }
    assert(all.take(dirs@.len() as int) =~= all);
    text::join(&shared, "/")
}

/// The directory every input file shares: output paths are made relative to it, so it is
/// read off the program rather than off the patterns that discovered it.
///
/// `["src/deep/index.ts", "src/deep/util.ts"]` is rooted at `src/deep`, not at `src`.
pub fn common_input_dir(inputs: &Vec<String>) -> (r: String)
    ensures
        r@ == joined(shared_segments(input_dirs(texts(inputs@))), "/"@),
{
    let mut dirs: Vec<String> = Vec::new();
    let mut i: usize = 0;
    proof {
        reveal_strlit("\\");
    }
    while i < inputs.len()
        invariant
            i <= inputs@.len(),
            dirs@.len() == i,
            "\\"@.len() == 1,
            forall|j: int| 0 <= j < i ==> (#[trigger] dirs@[j])@ == input_dir(inputs@[j]@),
        decreases inputs@.len() - i,
    {
        let dir = match path::parent(inputs[i].as_str()) {
            Some(dir) => text::replace(dir.as_str(), "\\", "/"),
            None => String::new(),
        };
        dirs.push(dir);
        i += 1;
    }
    assert(texts(dirs@) =~= input_dirs(texts(inputs@)));
    common_dir(&dirs)
}


// ---------------------------------------------------------------------------
// Layouts stay inside the package
// ---------------------------------------------------------------------------

/// The list of ordinary names as components.
spec fn as_parts(names: Seq<Seq<char>>) -> Seq<Part> {
    Seq::new(names.len(), |i: int| Part::Name(names[i]))
}

proof fn lemma_names_proper(list: Seq<Part>)
    requires
        path::proper(list),
    ensures
        path::proper(as_parts(names_in(list))),
    decreases list.len(),
{
    if list.len() > 0 {
        let front = list.drop_last();
        assert(path::proper(front)) by {
            assert forall|i: int| 0 <= i < front.len() implies match #[trigger] front[i] {
                Part::Root => i == 0,
                Part::Here => i == 0,
                Part::Up => true,
                Part::Name(name) => {
                    &&& name.len() > 0
                    &&& name != "."@
                    &&& name != ".."@
                    &&& !name.contains('/')
                },
            } by {
                assert(front[i] == list[i]);
            }
        }
        lemma_names_proper(front);
        let last = list[list.len() - 1];
        let before = as_parts(names_in(front));
        let all = as_parts(names_in(list));
        assert forall|i: int| 0 <= i < all.len() implies match #[trigger] all[i] {
            Part::Root => i == 0,
            Part::Here => i == 0,
            Part::Up => true,
            Part::Name(name) => {
                &&& name.len() > 0
                &&& name != "."@
                &&& name != ".."@
                &&& !name.contains('/')
            },
        } by {
            if i < before.len() {
                assert(all[i] == before[i]);
            } else {
                assert(all[i] == last);
            }
        }
    }
}

/// A path made of ordinary names only: it names something inside the directory it is read from.
pub open spec fn inside(p: Seq<char>) -> bool {
    forall|i: int| 0 <= i < path::parts(p).len() ==> (#[trigger] path::parts(p)[i]) is Name
}

/// A path of ordinary names, none of which holds a backslash.
pub open spec fn plain(p: Seq<char>) -> bool {
    forall|i: int|
        0 <= i < path::parts(p).len() ==> ((#[trigger] path::parts(p)[i]) matches Part::Name(name)
            && !name.contains('\\'))
}

/// What the pieces of a path lack, its components being names that lack it.
proof fn lemma_pieces_lack(list: Seq<Seq<char>>, c: char)
    requires
        c != '.',
        forall|i: int|
            0 <= i < path::piece_parts(list).len() ==> ((
            #[trigger] path::piece_parts(list)[i]) matches Part::Name(name) && !name.contains(c)),
    ensures
        forall|i: int| 0 <= i < list.len() ==> !(#[trigger] list[i]).contains(c),
    decreases list.len(),
{
    if list.len() > 0 {
        let front = list.drop_last();
        let before = path::piece_parts(front);
        let all = path::piece_parts(list);
        assert forall|i: int| 0 <= i < before.len() implies ((
        #[trigger] before[i]) matches Part::Name(name) && !name.contains(c)) by {
            assert(all[i] == before[i]);
        }
        lemma_pieces_lack(front, c);
        reveal_strlit(".");
        if let Some(part) = path::piece_part(list.last(), list.len() == 1) {
            assert(all[all.len() - 1] == part);
        }
        assert forall|i: int| 0 <= i < list.len() implies !(#[trigger] list[i]).contains(c) by {
            if i < front.len() {
                assert(front[i] == list[i]);
            }
        }
    }
}

/// The beginning of a list of pieces stands for the beginning of its components.
proof fn lemma_piece_parts_start(list: Seq<Seq<char>>, j: int)
    requires
        0 <= j <= list.len(),
    ensures
        path::piece_parts(list.take(j)).is_prefix_of(path::piece_parts(list)),
    decreases list.len() - j,
{
    let here = path::piece_parts(list.take(j));
    if j == list.len() {
        assert(list.take(j) =~= list);
        assert(here =~= here.subrange(0, here.len() as int));
    } else {
        lemma_piece_parts_start(list, j + 1);
        let next = path::piece_parts(list.take(j + 1));
        let all = path::piece_parts(list);
        assert(list.take(j + 1).drop_last() =~= list.take(j));
        assert(next =~= all.subrange(0, next.len() as int));
        assert(here =~= next.subrange(0, here.len() as int));
        assert(here =~= all.subrange(0, here.len() as int));
    }
}

/// The beginning of the pieces that are not empty comes from the beginning of the pieces.
proof fn lemma_nonempty_start(list: Seq<Seq<char>>, k: int) -> (j: int)
    requires
        0 <= k <= nonempty(list).len(),
    ensures
        0 <= j <= list.len(),
        nonempty(list.take(j)) == nonempty(list).take(k),
    decreases list.len(),
{
    if k == nonempty(list).len() {
        assert(list.take(list.len() as int) =~= list);
        assert(nonempty(list).take(k) =~= nonempty(list));
        list.len() as int
    } else {
        let front = list.drop_last();
        let j = lemma_nonempty_start(front, k);
        assert(front.take(j) =~= list.take(j));
        assert(nonempty(front).take(k) =~= nonempty(list).take(k));
        j
    }
}

/// Empty pieces stand for nothing, where they do not lead.
proof fn lemma_nonempty_parts(list: Seq<Seq<char>>)
    requires
        list.len() > 0 ==> list[0].len() > 0 && list[0] != "."@,
    ensures
        path::piece_parts(nonempty(list)) == path::piece_parts(list),
        nonempty(list).len() > 0 <==> list.len() > 0,
        list.len() > 0 ==> nonempty(list)[0] == list[0],
        forall|i: int|
            0 <= i < nonempty(list).len() ==> exists|j: int|
                0 <= j < list.len() && #[trigger] nonempty(list)[i] == #[trigger] list[j],
    decreases list.len(),
{
    if list.len() > 0 {
        let front = list.drop_last();
        if front.len() > 0 {
            assert(front[0] == list[0]);
        }
        lemma_nonempty_parts(front);
        let kept = nonempty(list);
        if list.last().len() > 0 {
            assert(kept.drop_last() =~= nonempty(front));
            assert(kept.last() == list.last());
        }
        assert forall|i: int| 0 <= i < kept.len() implies exists|j: int|
            0 <= j < list.len() && #[trigger] kept[i] == #[trigger] list[j] by {
            if i < nonempty(front).len() {
                assert(kept[i] == nonempty(front)[i]);
                let j = choose|j: int| 0 <= j < front.len() && nonempty(front)[i] == front[j];
                assert(list[j] == front[j]);
            } else {
                assert(kept[i] == list[list.len() - 1]);
            }
        }
    }
}

/// The pieces that the directory of a path is spelled with.
spec fn dir_pieces(p: Seq<char>) -> Seq<Seq<char>> {
    path::upto(pieces(p, '/'), path::parts(p).len() - 1)
}

/// The segments of a plain path's directory are the pieces that it is spelled with, and these
/// stand for the names above it.
proof fn lemma_segments_of_dir(p: Seq<char>)
    requires
        plain(p),
        path::parts(p).len() > 0,
    ensures
        dir_segments(input_dir(p)) == nonempty(dir_pieces(p)),
        path::piece_parts(dir_pieces(p)) == path::parts(p).drop_last(),
        dir_pieces(p).len() > 0 ==> dir_pieces(p)[0].len() > 0 && dir_pieces(p)[0] != "."@,
        forall|i: int| 0 <= i < dir_pieces(p).len() ==> !(#[trigger] dir_pieces(p)[i]).contains('/'),
{
    let all = path::parts(p);
    let n = all.len() - 1;
    assert(all[n] is Name);
    assert(!path::rooted(p)) by {
        if path::rooted(p) {
            assert(all[0] == Part::Root);
        }
    }
    let whole = pieces(p, '/');
    text::lemma_pieces_hold_no_separator(p, '/');
    path::lemma_upto(whole, n);
    let list = dir_pieces(p);
    assert(all.take(n) =~= all.drop_last());
    assert(path::piece_parts(list) == all.drop_last());
    assert(path::parent_parts(p) == Some(all.drop_last()));
    let dir = path::lead(p, n);
    assert(dir == joined(list, "/"@));
    reveal_strlit("/");
    reveal_strlit("\\");
    reveal_strlit(".");
    assert("/"@ =~= seq!['/']);
    assert("\\"@ =~= seq!['\\']);
    assert forall|i: int| 0 <= i < path::piece_parts(list).len() implies ((
    #[trigger] path::piece_parts(list)[i]) matches Part::Name(name) && !name.contains('\\')) by {
        assert(path::piece_parts(list)[i] == all[i]);
    }
    lemma_pieces_lack(list, '\\');
    text::lemma_joined_lacks(list, "/"@, '\\');
    text::lemma_replaced_absent(dir, '\\', "/"@, 0);
    assert(dir.skip(0) =~= dir);
    assert(input_dir(p) == dir);
    assert forall|i: int| 0 <= i < list.len() implies !(#[trigger] list[i]).contains('/') by {
        assert(list[i] == whole[i]);
    }
    if list.len() > 0 {
        path::law_split_undoes_join(list, '/');
        assert(list[0] == whole[0]);
        assert(p.len() > 0) by {
            if p.len() == 0 {
                assert(p =~= Seq::<char>::empty());
                path::lemma_empty_parts();
            }
        }
        path::lemma_first_piece_of_relative(p);
        if list[0] == "."@ {
            lemma_piece_parts_start(list, 1);
            reveal_with_fuel(path::piece_parts, 2);
            let one = list.take(1);
            assert(one.drop_last() =~= Seq::<Seq<char>>::empty());
            assert(path::piece_parts(one) =~= seq![Part::Here]);
            assert(path::piece_parts(list).subrange(0, 1)[0] == Part::Here);
        }
    } else {
        assert(dir =~= Seq::<char>::empty());
        text::lemma_pieces_single(dir, '/');
        reveal_with_fuel(nonempty, 2);
        assert(pieces(dir, '/') =~= seq![dir]);
        assert(seq![dir].drop_last() =~= Seq::<Seq<char>>::empty());
        assert(list =~= Seq::<Seq<char>>::empty());
        assert(dir_segments(dir) =~= nonempty(list));
    }
}

/// An inferred root holds its inputs by construction: every input lies under the directory
/// that the inputs share.
pub proof fn law_shared_dir_holds_its_inputs(inputs: Seq<Seq<char>>, i: int)
    requires
        0 <= i < inputs.len(),
        forall|k: int|
            0 <= k < inputs.len() ==> plain(#[trigger] inputs[k]) && path::parts(inputs[k]).len()
                > 0,
    ensures
        path::below(inputs[i], joined(shared_segments(input_dirs(inputs)), "/"@)) is Some,
{
    let dirs = input_dirs(inputs);
    law_shared_segments(dirs);
    assert(dirs[i] == input_dir(inputs[i]));
    let shared = shared_segments(dirs);
    let segs = dir_segments(dirs[i]);
    assert(shared.is_prefix_of(segs));
    assert(shared =~= segs.take(shared.len() as int));
    lemma_segments_of_dir(inputs[i]);
    let all = path::parts(inputs[i]);
    let list = dir_pieces(inputs[i]);
    let root = joined(shared, "/"@);
    let j = lemma_nonempty_start(list, shared.len() as int);
    let start = list.take(j);
    assert(nonempty(start) == shared);
    if start.len() > 0 {
        assert(start[0] == list[0]);
    }
    lemma_nonempty_parts(start);
    lemma_piece_parts_start(list, j);
    if shared.len() > 0 {
        assert forall|k: int| 0 <= k < shared.len() implies !(#[trigger] shared[k]).contains(
            '/',
        ) by {
            let m = choose|m: int| 0 <= m < start.len() && shared[k] == start[m];
            assert(start[m] == list[m]);
        }
        path::lemma_joined_parts(shared);
        assert(path::parts(root) == path::piece_parts(start));
    } else {
        assert(root =~= Seq::<char>::empty());
        path::lemma_empty_parts();
        assert(start =~= Seq::<Seq<char>>::empty());
        assert(path::parts(root) =~= path::piece_parts(start));
    }
    let held = path::parts(root);
    assert(held =~= all.drop_last().subrange(0, held.len() as int));
    assert(held =~= all.subrange(0, held.len() as int));
}

/// A layout option that is accepted names something inside the package.
pub proof fn law_contained_stays_inside(option: Seq<char>, value: Seq<char>)
    ensures
        contained(option, value) matches Ok(p) ==> inside(p),
{
    if contained(option, value) is Ok {
        let names = if value.len() == 0 {
            Seq::empty()
        } else {
            names_in(path::parts(value))
        };
        let p = contained(option, value)->Ok_0;
        path::lemma_parts_proper(value);
        if value.len() > 0 {
            lemma_names_proper(path::parts(value));
        }
        let list = as_parts(names);
        assert(path::part_texts(list) =~= names);
        assert(list != seq![Part::Root]) by {
            if list == seq![Part::Root] {
                assert(list[0] is Root);
            }
        }
        assert(joined(names, "/"@) == path::written(list));
        assert(p =~= joined(names, "/"@));
        path::law_written_parts(list);
    }
}

/// Both parts of an accepted layout name something inside the package.
pub proof fn law_layout_stays_inside(o: CompilerOptions)
    ensures
        declared_layout(o) matches Ok(layout) ==> inside(layout.out) && (layout.root matches Some(
            root,
        ) ==> inside(root)),
{
    if let Some(root) = opt_text(o.root_dir) {
        law_contained_stays_inside("rootDir"@, root);
    }
    match opt_text(o.out_dir) {
        Some(out) => {
            law_contained_stays_inside("outDir"@, out);
        },
        None => {
            reveal_with_fuel(pieces, 2);
            reveal_with_fuel(path::piece_parts, 3);
            let none = Seq::<char>::empty();
            assert(seq![none].drop_last() =~= Seq::<Seq<char>>::empty());
            assert(path::parts(none) =~= Seq::<Part>::empty());
        },
    }
}

// ---------------------------------------------------------------------------
// Generating paths
// ---------------------------------------------------------------------------

/// `dir` relative to `base`, as a `./`-prefixed, forward-slash path; the
/// directory as it is when it is not under `base`.
pub open spec fn relative(base: Seq<char>, dir: Seq<char>) -> Seq<char> {
    let rel = match path::rest_of(dir, base) {
        Some(rest) => rest,
        None => dir,
    };
    let s = text::replaced(rel, "\\"@, "/"@);
    if s.len() == 0 {
        "."@
    } else if path::rooted(rel) {
        s
    } else {
        "./"@ + s
    }
}

/// `dir` relative to `base` as a `./`-prefixed, forward-slash path. Falls back to
/// the dir verbatim when it isn't under `base`.
pub fn relative_dir(base: &str, dir: &str) -> (r: String)
    ensures
        r@ == relative(base@, dir@),
{
    let rel = match path::strip_base(dir, base) {
        Some(rel) => rel,
        None => dir.to_owned(),
    };
    proof {
        reveal_strlit("\\");
    }
    let s = text::replace(rel.as_str(), "\\", "/");
    if s.as_str().is_empty() {
        ".".to_owned()
    } else if path::is_absolute(rel.as_str()) {
        s
    } else {
        "./".to_owned().concat(s.as_str())
    }
}

/// The alias of each mount with a specifier: `<specifier>*` to `<dir>/*`, the
/// directory relative to `base`; a later mount replaces an earlier one.
pub open spec fn mount_aliases(mounts: Seq<MountSpec>, base: Seq<char>) -> Map<Seq<char>, Seq<char>>
    decreases mounts.len(),
{
    if mounts.len() == 0 {
        Map::empty()
    } else {
        let front = mount_aliases(mounts.drop_last(), base);
        let last = mounts.last();
        if last.specifier.len() == 0 {
            front
        } else {
            front.insert(last.specifier + "*"@, relative(base, last.dir) + "/*"@)
        }
    }
}

proof fn lemma_starred_apart(a: Seq<char>, b: Seq<char>)
    ensures
        a + "*"@ == b + "*"@ ==> a == b,
{
    if a + "*"@ == b + "*"@ {
        assert((a + "*"@).len() == (b + "*"@).len());
        assert((a + "*"@).take(a.len() as int) =~= a);
        assert((b + "*"@).take(b.len() as int) =~= b);
    }
}

/// The editor's paths and the runtime's import map cannot drift: over one set of mounts,
/// `<specifier>*` is an alias exactly when `<specifier>` is an entry of the import map, and the
/// directory of the one and the URL of the other are those of the same mount.
pub proof fn law_paths_follow_the_import_map(
    mounts: Seq<MountSpec>,
    base: Seq<char>,
    specifier: Seq<char>,
)
    ensures
        mount_entries(mounts).contains_key(specifier) <==> mount_aliases(
            mounts,
            base,
        ).contains_key(specifier + "*"@),
        mount_entries(mounts).contains_key(specifier) ==> exists|i: int|
            0 <= i < mounts.len() && (#[trigger] mounts[i]).specifier == specifier
                && mount_entries(mounts)[specifier] == mounts[i].url && mount_aliases(
                mounts,
                base,
            )[specifier + "*"@] == relative(base, mounts[i].dir) + "/*"@,
    decreases mounts.len(),
{
    if mounts.len() > 0 {
        let front = mounts.drop_last();
        let last = mounts.last();
        law_paths_follow_the_import_map(front, base, specifier);
        lemma_starred_apart(last.specifier, specifier);
        if mount_entries(mounts).contains_key(specifier) {
            if last.specifier == specifier && last.specifier.len() > 0 {
                assert(mounts[mounts.len() - 1] == last);
            } else {
                let i = choose|i: int|
                    0 <= i < front.len() && (#[trigger] front[i]).specifier == specifier
                        && mount_entries(front)[specifier] == front[i].url && mount_aliases(
                        front,
                        base,
                    )[specifier + "*"@] == relative(base, front[i].dir) + "/*"@;
                assert(mounts[i] == front[i]);
            }
        }
    }
}

/// A mount's directory is what its specifier stands for, unless a later mount has the same
/// specifier.
pub proof fn law_last_mount_wins(mounts: Seq<MountSpec>, base: Seq<char>, i: int)
    requires
        0 <= i < mounts.len(),
        mounts[i].specifier.len() > 0,
        forall|j: int|
            i < j < mounts.len() ==> (#[trigger] mounts[j]).specifier != mounts[i].specifier,
    ensures
        mount_entries(mounts).contains_key(mounts[i].specifier),
        mount_entries(mounts)[mounts[i].specifier] == mounts[i].url,
        mount_aliases(mounts, base).contains_key(mounts[i].specifier + "*"@),
        mount_aliases(mounts, base)[mounts[i].specifier + "*"@] == relative(base, mounts[i].dir)
            + "/*"@,
    decreases mounts.len(),
{
    let front = mounts.drop_last();
    let last = mounts.last();
    if i < front.len() {
        assert(front[i] == mounts[i]);
        assert(last == mounts[mounts.len() - 1]);
        assert forall|j: int| i < j < front.len() implies (#[trigger] front[j]).specifier
            != front[i].specifier by {
            assert(front[j] == mounts[j]);
        }
        law_last_mount_wins(front, base, i);
        lemma_starred_apart(last.specifier, mounts[i].specifier);
    }
}

/// A directory strictly below the base is written from the base on, behind `./`.
pub proof fn law_relative_is_dotted(base: Seq<char>, dir: Seq<char>)
    requires
        path::parts(base).is_prefix_of(path::parts(dir)),
        path::parts(base).len() < path::parts(dir).len(),
        path::parts(base).len() > 0 || !path::rooted(dir),
    ensures
        path::rest_of(dir, base) matches Some(rest) && path::parts(rest) == path::parts(dir).skip(
            path::parts(base).len() as int,
        ) && relative(base, dir) == "./"@ + text::replaced(rest, "\\"@, "/"@),
{
    let n = path::parts(base).len() as int;
    let rest = path::tail(dir, n);
    reveal_strlit("/");
    reveal_strlit("\\");
    path::law_tail(dir, n);
    path::lemma_root_leads(dir);
    path::lemma_root_leads(rest);
    path::lemma_empty_parts();
    assert(path::parts(rest).len() == path::parts(dir).len() - n);
    assert(rest.len() > 0) by {
        if rest.len() == 0 {
            assert(rest =~= Seq::<char>::empty());
        }
    }
    assert(path::parts(rest)[0] == path::parts(dir)[n]);
    assert(!path::rooted(rest));
    reveal_with_fuel(text::replaced_from, 2);
    assert(text::replaced(rest, "\\"@, "/"@).len() > 0);
}

/// There are finitely many aliases.
proof fn lemma_mount_aliases_finite(mounts: Seq<MountSpec>, base: Seq<char>)
    ensures
        mount_aliases(mounts, base).dom().finite(),
    decreases mounts.len(),
{
    if mounts.len() > 0 {
        lemma_mount_aliases_finite(mounts.drop_last(), base);
    }
}

/// The fields of the `paths` object, in key order, are those of the aliases: the object has a
/// field for `<specifier>*` exactly when the import map has an entry for `<specifier>`, every
/// field is such a one, and it lists the one directory of the last mount with that specifier.
pub proof fn law_paths_tree_follows_the_import_map(mounts: Seq<MountSpec>, base: Seq<char>)
    ensures
        paths_tree(mount_aliases(mounts, base)) matches Tree::Object(fields) && {
            &&& forall|i: int, j: int|
                0 <= i < j < fields.len() ==> text::before(
                    (#[trigger] fields[i]).0,
                    (#[trigger] fields[j]).0,
                )
            &&& forall|specifier: Seq<char>| #[trigger]
                mount_entries(mounts).contains_key(specifier) ==> exists|k: int|
                    0 <= k < fields.len() && (#[trigger] fields[k]).0 == specifier + "*"@
            &&& forall|k: int|
                0 <= k < fields.len() ==> (#[trigger] fields[k]).0.len() > 0 && fields[k].0
                    == fields[k].0.drop_last() + "*"@ && mount_entries(mounts).contains_key(
                    fields[k].0.drop_last(),
                )
            &&& forall|k: int, i: int|
                0 <= k < fields.len() && 0 <= i < mounts.len() && (#[trigger] fields[k]).0 == (
                #[trigger] mounts[i]).specifier + "*"@ && (forall|j: int|
                    i < j < mounts.len() ==> (#[trigger] mounts[j]).specifier
                        != mounts[i].specifier) ==> fields[k].1 == Tree::Array(
                    seq![Tree::Text(relative(base, mounts[i].dir) + "/*"@)],
                )
        },
{
    let aliases = mount_aliases(mounts, base);
    let list = listing::<ByText, Seq<char>>(aliases);
    lemma_mount_aliases_finite(mounts, base);
    law_listing::<ByText, Seq<char>>(aliases);
    let fields = Seq::new(list.len(), |i: int| alias_field(list[i]));
    assert forall|i: int, j: int| 0 <= i < j < fields.len() implies text::before(
        (#[trigger] fields[i]).0,
        (#[trigger] fields[j]).0,
    ) by {
        assert(ByText::lt(list[i].0, list[j].0));
    }
    assert forall|specifier: Seq<char>| #[trigger]
        mount_entries(mounts).contains_key(specifier) implies exists|k: int|
        0 <= k < fields.len() && (#[trigger] fields[k]).0 == specifier + "*"@ by {
        law_paths_follow_the_import_map(mounts, base, specifier);
        assert(aliases.contains_key(specifier + "*"@));
        let k = choose|k: int| 0 <= k < list.len() && (#[trigger] list[k]).0 == specifier + "*"@;
        assert(fields[k].0 == specifier + "*"@);
    }
    assert forall|k: int| 0 <= k < fields.len() implies (#[trigger] fields[k]).0.len() > 0
        && fields[k].0 == fields[k].0.drop_last() + "*"@ && mount_entries(mounts).contains_key(
        fields[k].0.drop_last(),
    ) by {
        assert(aliases.contains_key(list[k].0));
        law_paths_are_starred(mounts, base, list[k].0);
    }
    assert forall|k: int, i: int|
        0 <= k < fields.len() && 0 <= i < mounts.len() && (#[trigger] fields[k]).0 == (
        #[trigger] mounts[i]).specifier + "*"@ && (forall|j: int|
            i < j < mounts.len() ==> (#[trigger] mounts[j]).specifier
                != mounts[i].specifier) implies fields[k].1 == Tree::Array(
        seq![Tree::Text(relative(base, mounts[i].dir) + "/*"@)],
    ) by {
        assert(aliases.contains_key(list[k].0));
        law_paths_are_starred(mounts, base, list[k].0);
        lemma_starred_apart(list[k].0.drop_last(), mounts[i].specifier);
        lemma_entries_named(mounts, mounts[i].specifier);
        law_last_mount_wins(mounts, base, i);
        assert(aliases[list[k].0] == list[k].1);
    }
}

/// No mount without a specifier has an entry.
proof fn lemma_entries_named(mounts: Seq<MountSpec>, specifier: Seq<char>)
    ensures
        mount_entries(mounts).contains_key(specifier) ==> specifier.len() > 0,
    decreases mounts.len(),
{
    if mounts.len() > 0 {
        lemma_entries_named(mounts.drop_last(), specifier);
    }
}

/// Every alias of a set of mounts ends in `*`: it stands for all below a specifier.
pub proof fn law_paths_are_starred(mounts: Seq<MountSpec>, base: Seq<char>, key: Seq<char>)
    requires
        mount_aliases(mounts, base).contains_key(key),
    ensures
        key.len() > 0,
        key.drop_last() + "*"@ == key,
        mount_entries(mounts).contains_key(key.drop_last()),
    decreases mounts.len(),
{
    reveal_strlit("*");
    let front = mounts.drop_last();
    let last = mounts.last();
    if last.specifier.len() > 0 && key == last.specifier + "*"@ {
        assert(key.drop_last() =~= last.specifier);
    } else {
        law_paths_are_starred(front, base, key);
    }
}

/// One alias as a field: a list of its one target.
pub open spec fn alias_field(alias: (Seq<char>, Seq<char>)) -> (Seq<char>, Tree) {
    (alias.0, Tree::Array(seq![Tree::Text(alias.1)]))
}

/// The `paths` object of a set of aliases, in key order.
pub open spec fn paths_tree(aliases: Map<Seq<char>, Seq<char>>) -> Tree {
    let list = listing::<ByText, Seq<char>>(aliases);
    Tree::Object(Seq::new(list.len(), |i: int| alias_field(list[i])))
}

/// The base config around a `paths` object.
pub open spec fn base_tree(paths: Tree) -> Tree {
    Tree::Object(
        seq![
            (
                "compilerOptions"@,
                Tree::Object(
                    seq![("moduleResolution"@, Tree::Text("bundler"@)), ("paths"@, paths)],
                ),
            ),
        ],
    )
}

/// The `paths` object of a sorted set of aliases.
fn paths_value(aliases: &SortedMap<ByText, String>) -> (r: Json)
    ensures
        r.tree() == paths_tree(aliases@.map_values(|target: String| target@)),
        json::textual(r.tree(), 3),
{
    let entries = aliases.entries();
    let ghost list = text::pairs(entries@);
    proof {
        lemma_text_entries(entries@);
        lemma_listing::<ByText, Seq<char>>(list);
    }
    let ghost all = Seq::new(list.len(), |i: int| alias_field(list[i]));
    let mut fields: Vec<(String, Json)> = Vec::new();
    let mut i: usize = 0;
    while i < entries.len()
        invariant
            i <= entries@.len(),
            list == text::pairs(entries@),
            all == Seq::new(list.len(), |i: int| alias_field(list[i])),
            json::field_trees(fields@) == all.take(i as int),
        decreases entries@.len() - i,
    {
        let ghost kept = fields@;
        let mut targets: Vec<Json> = Vec::new();
        let target = Json::Text(entries[i].1.clone());
        targets.push(target);
        proof {
            reveal_with_fuel(json::trees, 2);
            assert(targets@.drop_last() =~= Seq::<Json>::empty());
            assert(json::trees(targets@) =~= seq![target.tree()]);
        }
        let value = Json::Array(targets);
        fields.push((entries[i].0.clone(), value));
        proof {
            assert(fields@.drop_last() =~= kept);
            assert(fields@.last() == fields@[fields@.len() - 1]);
            assert(value.tree() == alias_field(list[i as int]).1);
            assert(all.take(i as int).push(all[i as int]) =~= all.take(i + 1));
        }
        i += 1;
    }
    assert(all.take(entries@.len() as int) =~= all);
    let r = Json::Object(fields);
    proof {
        reveal_with_fuel(json::textual, 4);
        assert forall|a: int, b: int| 0 <= a < b < all.len() implies #[trigger] all[a].0
            != #[trigger] all[b].0 by {
            assert(text::before(list[a].0, list[b].0));
            text::lemma_before_irreflexive(list[a].0);
        }
    }
    r
}

/// Build the `compilerOptions.paths` object resolving each mount's specifier to its
/// source dir (relative to `base`). Mounts without a specifier (root mounts) are
/// skipped. Keys are sorted for byte-stable output.
pub fn tsconfig_paths(mounts: &Vec<Mount>, base: &str) -> (r: Json)
    ensures
        r.tree() == paths_tree(mount_aliases(crate::importmap::mount_specs(mounts@), base@)),
        ({
            let aliases = mount_aliases(crate::importmap::mount_specs(mounts@), base@);
            ordered::<ByText, Seq<char>>(listing::<ByText, Seq<char>>(aliases)) && table::<
                ByText,
                Seq<char>,
            >(listing::<ByText, Seq<char>>(aliases)) == aliases
        }),
        json::textual(r.tree(), 3),
{
    let ghost all = crate::importmap::mount_specs(mounts@);
    let mut aliases: SortedMap<ByText, String> = SortedMap::new();
    let mut i: usize = 0;
    assert(aliases@.map_values(|target: String| target@) =~= mount_aliases(all.take(0), base@));
    while i < mounts.len()
        invariant
            i <= mounts@.len(),
            all == crate::importmap::mount_specs(mounts@),
            aliases@.map_values(|target: String| target@) == mount_aliases(
                all.take(i as int),
                base@,
            ),
        decreases mounts@.len() - i,
    {
        proof {
            let grown = all.take(i + 1);
            assert(grown.drop_last() =~= all.take(i as int));
            assert(grown.last() == mounts@[i as int]@);
        }
        let specifier = mounts[i].specifier_prefix();
        if !specifier.is_empty() {
            let key = specifier.to_owned().concat("*");
            let target = relative_dir(base, mounts[i].dir()).concat("/*");
            let ghost before = aliases@;
            aliases.insert(key, target);
            assert(aliases@.map_values(|target: String| target@) =~= before.map_values(
                |target: String| target@,
            ).insert(key@, target@));
        }
        i += 1;
    }
    assert(all.take(mounts@.len() as int) =~= all);
    proof {
        lemma_mount_aliases_finite(all, base@);
        law_listing::<ByText, Seq<char>>(mount_aliases(all, base@));
    }
    paths_value(&aliases)
}

/// The text of a base `tsconfig.json` whose `compilerOptions.paths` is
/// [`tsconfig_paths`]. A starting point for a host that has no other compiler
/// options to merge.
pub fn tsconfig_base(mounts: &Vec<Mount>, base: &str) -> (r: String)
    ensures
        ({
            let doc = base_tree(
                paths_tree(mount_aliases(crate::importmap::mount_specs(mounts@), base@)),
            );
            r@ == json::json_pretty(doc) && json::reads_as(r@, doc)
        }),
{
    let paths = tsconfig_paths(mounts, base);
    let resolution = Json::Text("bundler".to_owned());
    let mut options: Vec<(String, Json)> = Vec::new();
    options.push(("moduleResolution".to_owned(), resolution));
    options.push(("paths".to_owned(), paths));
    proof {
        reveal_with_fuel(json::field_trees, 3);
        assert(options@.drop_last().drop_last() =~= Seq::<(String, Json)>::empty());
        assert(json::field_trees(options@) =~= seq![
            ("moduleResolution"@, Tree::Text("bundler"@)),
            ("paths"@, paths.tree()),
        ]);
    }
    let inner = Json::Object(options);
    let mut top: Vec<(String, Json)> = Vec::new();
    top.push(("compilerOptions".to_owned(), inner));
    proof {
        assert(top@.drop_last() =~= Seq::<(String, Json)>::empty());
        assert(json::field_trees(top@) =~= seq![("compilerOptions"@, inner.tree())]);
        reveal_strlit("moduleResolution");
        reveal_strlit("paths");
        assert("moduleResolution"@.len() != "paths"@.len());
        lemma_textual_deeper(paths.tree(), 3, 14);
        reveal_with_fuel(json::textual, 4);
    }
    let doc = Json::Object(top);
    json::pretty(&doc)
}

proof fn lemma_textual_deeper(doc: Tree, shallow: nat, deep: nat)
    requires
        json::textual(doc, shallow),
        shallow <= deep,
    ensures
        json::textual(doc, deep),
    decreases shallow,
{
    match doc {
        Tree::Array(items) => {
            assert forall|i: int| 0 <= i < items.len() implies json::textual(
                #[trigger] items[i],
                (deep - 1) as nat,
            ) by {
                lemma_textual_deeper(items[i], (shallow - 1) as nat, (deep - 1) as nat);
            }
        },
        Tree::Object(fields) => {
            assert forall|i: int| 0 <= i < fields.len() implies json::textual(
                (#[trigger] fields[i]).1,
                (deep - 1) as nat,
            ) by {
                lemma_textual_deeper(fields[i].1, (shallow - 1) as nat, (deep - 1) as nat);
            }
        },
        _ => {},
    }
}

/// The aliases of a list of packages: each to its place in `node_modules`, and its
/// subpaths to theirs.
pub open spec fn package_aliases(specs: Seq<Wanted>) -> Map<Seq<char>, Seq<char>>
    decreases specs.len(),
{
    if specs.len() == 0 {
        Map::empty()
    } else {
        let name = specs.last().dir;
        package_aliases(specs.drop_last()).insert(name, "./node_modules/"@ + name).insert(
            name + "/*"@,
            "./node_modules/"@ + name + "/*"@,
        )
    }
}

/// The editor resolves exactly the packages that the build vendors: each of them and its
/// subpaths have an alias, nothing else has one, and an alias leads to the same name in
/// `node_modules`.
pub proof fn law_editor_resolves_what_is_vendored(specs: Seq<Wanted>, key: Seq<char>)
    ensures
        package_aliases(specs).contains_key(key) <==> exists|i: int|
            0 <= i < specs.len() && (key == (#[trigger] specs[i]).dir || key == specs[i].dir
                + "/*"@),
        package_aliases(specs).contains_key(key) ==> package_aliases(specs)[key]
            == "./node_modules/"@ + key,
    decreases specs.len(),
{
    if specs.len() > 0 {
        let front = specs.drop_last();
        let name = specs.last().dir;
        law_editor_resolves_what_is_vendored(front, key);
        assert("./node_modules/"@ + name + "/*"@ =~= "./node_modules/"@ + (name + "/*"@));
        assert(specs[specs.len() - 1] == specs.last());
        if package_aliases(front).contains_key(key) {
            let i = choose|i: int|
                0 <= i < front.len() && (key == (#[trigger] front[i]).dir || key == front[i].dir
                    + "/*"@);
            assert(specs[i] == front[i]);
        }
        if exists|i: int|
            0 <= i < specs.len() && (key == (#[trigger] specs[i]).dir || key == specs[i].dir
                + "/*"@) {
            let i = choose|i: int|
                0 <= i < specs.len() && (key == (#[trigger] specs[i]).dir || key == specs[i].dir
                    + "/*"@);
            if i < front.len() {
                assert(front[i] == specs[i]);
            }
        }
    }
}

/// Build the `compilerOptions.paths` object resolving each third-party npm package
/// declared in a `package.json`, given its path and content, to its
/// `./node_modules/<pkg>` location (plus a `<pkg>/*` subpath glob). The package set is
/// [`specs_from_package_json`](manifest::specs_from_package_json)'s, so it honors the
/// `web_modules.webDependencies` whitelist and skips local (`file:`/`workspace:`) deps;
/// the editor then resolves exactly the packages the build vendors. Keys are sorted for
/// byte-stable output.
pub fn tsconfig_node_modules_paths(path: &str, bytes: &[u8]) -> (r: Result<Json, Error>)
    ensures
        match json::json_document(bytes@) {
            Err(e) => r matches Err(f) && f@ == Failure::Vendor(path@ + ": "@ + e),
            Ok(doc) => match manifest::manifest_specs(path@, doc) {
                Err(e) => r matches Err(f) && f@ == e,
                Ok(specs) => r matches Ok(paths) && paths.tree() == paths_tree(
                    package_aliases(specs),
                ),
            },
        },
{
    match manifest::specs_from_package_json(path, bytes) {
        Ok(specs) => Ok(node_modules_paths(&specs)),
        Err(e) => Err(e),
    }
}

/// [`tsconfig_node_modules_paths`] for packages that are already specs.
pub fn node_modules_paths(specs: &Vec<PackageSpec>) -> (r: Json)
    ensures
        r.tree() == paths_tree(package_aliases(wanted(specs@))),
        json::textual(r.tree(), 3),
{
    let ghost all = wanted(specs@);
    let mut aliases: SortedMap<ByText, String> = SortedMap::new();
    let mut i: usize = 0;
    assert(aliases@.map_values(|target: String| target@) =~= package_aliases(all.take(0)));
    while i < specs.len()
        invariant
            i <= specs@.len(),
            all == wanted(specs@),
            aliases@.map_values(|target: String| target@) == package_aliases(all.take(i as int)),
        decreases specs@.len() - i,
    {
        proof {
            let grown = all.take(i + 1);
            assert(grown.drop_last() =~= all.take(i as int));
            assert(grown.last() == specs@[i as int]@);
        }
        let name = specs[i].name();
        let ghost before = aliases@;
        let place = "./node_modules/".to_owned().concat(name);
        aliases.insert(name.to_owned(), place);
        let ghost middle = aliases@;
        assert(middle.map_values(|target: String| target@) =~= before.map_values(
            |target: String| target@,
        ).insert(name@, place@));
        let sub = name.to_owned().concat("/*");
        let below = "./node_modules/".to_owned().concat(name).concat("/*");
        aliases.insert(sub, below);
        assert(aliases@.map_values(|target: String| target@) =~= middle.map_values(
            |target: String| target@,
        ).insert(sub@, below@));
        i += 1;
    }
    assert(all.take(specs@.len() as int) =~= all);
    paths_value(&aliases)
}

/// The options as the config states them decide; a target only where `useDefineForClassFields` is
/// not stated: class fields are defined from ES 2022 on and for `esnext`, and assigned before.
pub proof fn law_class_fields(o: CompilerOptions, target: Seq<char>, year: Seq<char>)
    ensures
        o.use_define_for_class_fields matches Some(explicit) ==> class_fields_defined(o) == explicit,
        o.use_define_for_class_fields is None && o.target is None ==> !class_fields_defined(o),
        o.use_define_for_class_fields is None && opt_text(o.target) == Some(target) ==> {
            &&& text::lowered(target) == "esnext"@ ==> class_fields_defined(o)
            &&& text::lowered(target) == "es"@ + year && year.len() > 0 && all_digits(year) ==> (
            class_fields_defined(o) <==> 2022 <= digits_value(year) <= u32::MAX)
            &&& !"es"@.is_prefix_of(text::lowered(target)) ==> !class_fields_defined(o)
        },
{
    reveal_strlit("es");
    reveal_strlit("esnext");
    reveal_strlit("+");
    let low = text::lowered(target);
    if low == "es"@ + year && year.len() > 0 && all_digits(year) {
        assert(low.subrange(0, 2) =~= "es"@);
        assert(low.skip(2) =~= year);
        assert(is_digit(year[0]));
        assert(!"+"@.is_prefix_of(year)) by {
            if "+"@.is_prefix_of(year) {
                assert(year.subrange(0, 1)[0] == '+');
            }
        }
        assert(low[2] == year[0]);
        assert("esnext"@[2] == 'n');
    }
    if !"es"@.is_prefix_of(low) && low == "esnext"@ {
        assert(low.subrange(0, 2) =~= "es"@);
    }
}

/// A further digit stands for ten times what stands before it, and itself.
pub proof fn law_digits_count(s: Seq<char>, c: char)
    requires
        is_digit(c),
    ensures
        digits_value(Seq::<char>::empty()) == 0,
        digits_value(s.push(c)) == 10 * digits_value(s) + (c as int - 48),
{
    assert(s.push(c).drop_last() =~= s);
}

/// A stated module format decides, in any case: CommonJS and what may turn out as it on one side,
/// every other format on the other. Without one only the targets before modules imply CommonJS.
pub proof fn law_module_formats(o: CompilerOptions, module: Seq<char>, target: Seq<char>)
    ensures
        opt_text(o.module) == Some(module) ==> (commonjs_declared(o) <==> seq![
            "commonjs"@,
            "umd"@,
            "amd"@,
            "system"@,
            "node16"@,
            "node18"@,
            "nodenext"@,
        ].contains(text::lowered(module))),
        o.module is None && opt_text(o.target) == Some(target) ==> (commonjs_declared(o) <==> seq![
            "es3"@,
            "es5"@,
        ].contains(text::lowered(target))),
        o.module is None && o.target is None ==> !commonjs_declared(o),
{
    let low = text::lowered(module);
    let list = seq![
        "commonjs"@,
        "umd"@,
        "amd"@,
        "system"@,
        "node16"@,
        "node18"@,
        "nodenext"@,
    ];
    assert(list[0] == "commonjs"@ && list[1] == "umd"@ && list[2] == "amd"@ && list[3] == "system"@
        && list[4] == "node16"@ && list[5] == "node18"@ && list[6] == "nodenext"@);
    let old = seq!["es3"@, "es5"@];
    assert(old[0] == "es3"@ && old[1] == "es5"@);
}

/// A layout option is refused when it is absolute or leaves the package, and only then; an accepted
/// one keeps its names, in order.
pub proof fn law_layout_options(option: Seq<char>, value: Seq<char>)
    ensures
        contained(option, value) is Err <==> value.len() > 0 && (path::rooted(value) || !npm::within(
            value,
        )),
        contained(option, Seq::empty()) == Ok::<Seq<char>, Failure>(Seq::empty()),
        value.len() > 0 ==> (contained(option, value) matches Ok(p) ==> names_in(path::parts(p))
            == names_in(path::parts(value))),
{
    if value.len() > 0 && contained(option, value) is Ok {
        let names = names_in(path::parts(value));
        let p = contained(option, value)->Ok_0;
        path::lemma_parts_proper(value);
        lemma_names_proper(path::parts(value));
        let list = as_parts(names);
        assert(path::part_texts(list) =~= names);
        assert(list != seq![Part::Root]) by {
            if list == seq![Part::Root] {
                assert(list[0] is Root);
            }
        }
        assert(joined(names, "/"@) == path::written(list));
        path::law_written_parts(list);
        lemma_names_of_names(names);
    }
}

proof fn lemma_names_of_names(names: Seq<Seq<char>>)
    ensures
        names_in(as_parts(names)) == names,
    decreases names.len(),
{
    if names.len() > 0 {
        lemma_names_of_names(names.drop_last());
        assert(as_parts(names).drop_last() =~= as_parts(names.drop_last()));
        assert(names.drop_last().push(names.last()) =~= names);
    } else {
        assert(names =~= Seq::<Seq<char>>::empty());
    }
}

/// The names of a path are its ordinary components: nothing else counts.
pub proof fn law_names_of_a_path(list: Seq<Part>, name: Seq<char>)
    ensures
        names_in(Seq::empty()).len() == 0,
        names_in(list.push(Part::Name(name))) == names_in(list).push(name),
        names_in(list.push(Part::Here)) == names_in(list),
        names_in(list.push(Part::Up)) == names_in(list),
        names_in(list.push(Part::Root)) == names_in(list),
{
    assert(list.push(Part::Name(name)).drop_last() =~= list);
    assert(list.push(Part::Here).drop_last() =~= list);
    assert(list.push(Part::Up).drop_last() =~= list);
    assert(list.push(Part::Root).drop_last() =~= list);
}

/// A layout's parts are those that the config declares, the output directory the package itself
/// where it declares none.
pub proof fn law_declared_layout(o: CompilerOptions)
    ensures
        declared_layout(o) matches Ok(layout) ==> {
            &&& o.root_dir is None <==> layout.root is None
            &&& opt_text(o.root_dir) matches Some(root) ==> contained("rootDir"@, root) == Ok::<
                Seq<char>,
                Failure,
            >(layout.root->Some_0)
            &&& opt_text(o.out_dir) matches Some(out) ==> contained("outDir"@, out) == Ok::<
                Seq<char>,
                Failure,
            >(layout.out)
            &&& o.out_dir is None ==> layout.out.len() == 0
        },
        (o.root_dir is None && o.out_dir is None) ==> declared_layout(o) is Ok,
{
}

proof fn lemma_always_excluded(name: Seq<char>, p: Seq<char>)
    requires
        name == "node_modules"@ || name == "bower_components"@ || name == "jspm_packages"@,
    ensures
        glob::matched(name, p) <==> p == name || (name + "/"@).is_prefix_of(p),
{
    reveal_strlit("node_modules");
    reveal_strlit("bower_components");
    reveal_strlit("jspm_packages");
    reveal_strlit("./");
    reveal_strlit(".");
    assert(!name.contains('*') && !name.contains('?'));
    assert(!"./"@.is_prefix_of(name)) by {
        if "./"@.is_prefix_of(name) {
            assert(name.subrange(0, 2)[0] == '.');
        }
    }
    glob::law_plain_glob(name, p);
}

/// A file that `files` names is a root whatever else is said. Of the others, nothing in a package
/// manager's directory, nothing in the output directory and nothing excluded is one; and what is
/// left is a root when some input glob matches it, or when the config lists no inputs at all.
pub proof fn law_root_files(c: TsConfig, rel: Seq<char>)
    ensures
        ({
            let p = plain_path(rel);
            let named = exists|i: int|
                0 <= i < c.files@.len() && glob::bare_glob((#[trigger] c.files@[i])@) == p;
            let excluded = exists|i: int|
                0 <= i < c.exclude@.len() && glob::matched((#[trigger] c.exclude@[i])@, p);
            let chosen = exists|i: int|
                0 <= i < c.included@.len() && glob::matched((#[trigger] c.included@[i])@, p);
            let managed = p == "node_modules"@ || ("node_modules"@ + "/"@).is_prefix_of(p) || p
                == "bower_components"@ || ("bower_components"@ + "/"@).is_prefix_of(p) || p
                == "jspm_packages"@ || ("jspm_packages"@ + "/"@).is_prefix_of(p);
            let output = opt_text(c.compiler_options.out_dir) matches Some(out) && text::trimmed(
                out,
                "/"@,
            ).len() > 0 && glob::matched(out, p);
            &&& named ==> root_file(c, rel)
            &&& !named && (managed || output || excluded) ==> !root_file(c, rel)
            &&& !managed && !output && !excluded && chosen ==> root_file(c, rel)
            &&& !managed && !output && !excluded && c.files@.len() == 0 && c.included@.len() == 0
                ==> root_file(c, rel)
            &&& !named && !chosen && (c.files@.len() > 0 || c.included@.len() > 0) ==> !root_file(
                c,
                rel,
            )
        }),
{
    let p = plain_path(rel);
    lemma_always_excluded("node_modules"@, p);
    lemma_always_excluded("bower_components"@, p);
    lemma_always_excluded("jspm_packages"@, p);
    assert forall|i: int| 0 <= i < c.files@.len() implies #[trigger] texts(c.files@)[i]
        == c.files@[i]@ by {}
    assert forall|i: int| 0 <= i < c.exclude@.len() implies #[trigger] texts(c.exclude@)[i]
        == c.exclude@[i]@ by {}
    assert forall|i: int| 0 <= i < c.included@.len() implies #[trigger] texts(c.included@)[i]
        == c.included@[i]@ by {}
    if exists|i: int| 0 <= i < c.files@.len() && glob::bare_glob((#[trigger] c.files@[i])@) == p {
        let k = choose|i: int|
            0 <= i < c.files@.len() && glob::bare_glob((#[trigger] c.files@[i])@) == p;
        assert(glob::bare_glob(texts(c.files@)[k]) == p);
    }
    if exists|i: int| 0 <= i < c.exclude@.len() && glob::matched((#[trigger] c.exclude@[i])@, p) {
        let k = choose|i: int|
            0 <= i < c.exclude@.len() && glob::matched((#[trigger] c.exclude@[i])@, p);
        assert(glob::matched(texts(c.exclude@)[k], p));
    }
    if exists|i: int| 0 <= i < c.included@.len() && glob::matched((#[trigger] c.included@[i])@, p) {
        let k = choose|i: int|
            0 <= i < c.included@.len() && glob::matched((#[trigger] c.included@[i])@, p);
        assert(glob::matched(texts(c.included@)[k], p));
    }
}

/// A path is looked at with forward slashes and without `./` in front.
pub proof fn law_plain_path(rel: Seq<char>)
    ensures
        !rel.contains('\\') && !"./"@.is_prefix_of(rel) ==> plain_path(rel) == rel,
        !rel.contains('\\') ==> plain_path("./"@ + rel) == plain_path(rel),
        !plain_path(rel).contains('\\'),
{
    reveal_strlit("./");
    reveal_strlit("\\");
    reveal_strlit("/");
    assert("\\"@ =~= seq!['\\']);
    assert("/"@ =~= seq!['/']);
    let flat = text::replaced(rel, "\\"@, "/"@);
    text::law_trimmed_prefix(flat, "./"@);
    if !rel.contains('\\') {
        text::lemma_replaced_absent(rel, '\\', seq!['/'], 0);
        assert(rel.skip(0) =~= rel);
        let dotted = "./"@ + rel;
        assert(!dotted.contains('\\')) by {
            if dotted.contains('\\') {
                let k = choose|k: int| 0 <= k < dotted.len() && dotted[k] == '\\';
                if k >= 2 {
                    assert(rel[k - 2] == '\\');
                }
            }
        }
        text::lemma_replaced_absent(dotted, '\\', seq!['/'], 0);
        assert(dotted.skip(0) =~= dotted);
        text::law_trimmed_prefix(rel, "./"@);
    }
    text::lemma_replaced_lacks(rel, "\\"@, "/"@, 0, '\\');
    lemma_trimmed_prefix_lacks(flat, "./"@, '\\');
}

proof fn lemma_trimmed_prefix_lacks(s: Seq<char>, prefix: Seq<char>, c: char)
    requires
        !s.contains(c),
    ensures
        !text::trimmed_prefix(s, prefix).contains(c),
    decreases s.len(),
{
    if prefix.len() > 0 && prefix.is_prefix_of(s) {
        let rest = s.skip(prefix.len() as int);
        assert(!rest.contains(c)) by {
            if rest.contains(c) {
                let k = choose|k: int| 0 <= k < rest.len() && rest[k] == c;
                assert(s[k + prefix.len()] == c);
            }
        }
        lemma_trimmed_prefix_lacks(rest, prefix, c);
    }
}

/// The base config holds the `paths` object under `compilerOptions`, and resolves as a bundler does.
pub proof fn law_base_config(paths: Tree)
    ensures
        json::field2(base_tree(paths), "compilerOptions"@, "paths"@) == Some(paths),
        json::field2(base_tree(paths), "compilerOptions"@, "moduleResolution"@) == Some(
            Tree::Text("bundler"@),
        ),
{
    reveal_strlit("paths");
    reveal_strlit("moduleResolution");
    reveal_strlit("compilerOptions");
    reveal_with_fuel(json::lookup_from, 3);
    let inner = Tree::Object(
        seq![("moduleResolution"@, Tree::Text("bundler"@)), ("paths"@, paths)],
    );
    assert(json::field(base_tree(paths), "compilerOptions"@) == Some(inner));
    assert("paths"@.len() != "moduleResolution"@.len());
}

/// The directory of an input is spelled with forward slashes: as it is where it has no others, and
/// empty where there is none.
pub proof fn law_input_directories(p: Seq<char>, dir: Seq<char>)
    ensures
        !input_dir(p).contains('\\'),
        path::parent_of(p) == Some(dir) && !dir.contains('\\') ==> input_dir(p) == dir,
        path::parent_of(p) is None ==> input_dir(p).len() == 0,
{
    reveal_strlit("\\");
    reveal_strlit("/");
    assert("\\"@ =~= seq!['\\']);
    assert("/"@ =~= seq!['/']);
    if let Some(d) = path::parent_of(p) {
        text::lemma_replaced_lacks(d, "\\"@, "/"@, 0, '\\');
        if !d.contains('\\') {
            text::lemma_replaced_absent(d, '\\', seq!['/'], 0);
            assert(d.skip(0) =~= d);
        }
    }
}

/// A number may have one `+` in front, and has to have digits; what is out of range is none.
pub proof fn law_numbers(s: Seq<char>)
    requires
        s.len() > 0,
        all_digits(s),
    ensures
        digits_value(s) <= u32::MAX ==> number_in(s) == Some(digits_value(s)) && number_in("+"@ + s)
            == Some(digits_value(s)),
        digits_value(s) > u32::MAX ==> number_in(s) is None && number_in("+"@ + s) is None,
        number_in(Seq::empty()) is None,
        number_in("+"@) is None,
{
    reveal_strlit("+");
    assert(is_digit(s[0]));
    assert(!"+"@.is_prefix_of(s)) by {
        if "+"@.is_prefix_of(s) {
            assert(s.subrange(0, 1)[0] == '+');
        }
    }
    text::law_taking_off(s, "+"@);
    text::law_taking_off(Seq::empty(), "+"@);
    assert("+"@ + Seq::<char>::empty() =~= "+"@);
}

/// Empty segments of a directory do not count.
pub proof fn law_segments(list: Seq<Seq<char>>, segment: Seq<char>)
    ensures
        nonempty(Seq::empty()).len() == 0,
        nonempty(list.push(Seq::empty())) == nonempty(list),
        segment.len() > 0 ==> nonempty(list.push(segment)) == nonempty(list).push(segment),
{
    assert(list.push(Seq::<char>::empty()).drop_last() =~= list);
    assert(list.push(segment).drop_last() =~= list);
}

} // verus!
