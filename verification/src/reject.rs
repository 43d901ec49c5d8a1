//! Reject-path filtering: keep config / secret / server-side files out of built output,
//! bundles, and served responses.
//!
//! A [`Reject`] is a compiled set of rules consulted per path. Matching is **per path
//! component** and **case-insensitive**. Built output checks every component of
//! the path under the source root with [`rejects_path`](Reject::rejects_path), so a rejected
//! directory (`.git/`) is dropped whole. Serving checks the request string with
//! [`rejects`](Reject::rejects).
//!
//! Rules come from **presets** (default [`all`](Reject::all)) or an explicit **list**
//! (a full replace):
//! - **source**: server-side / source extensions (`php`, `ts`, …), private keys (`key`).
//! - **hidden**: any dotfile / dotdir component (`.git/`, `.env`, …), except `.well-known`.
//! - **config**: build manifests (`package.json`, `tsconfig.json`, …).
//!
//! The default (all presets) is safe-by-default; pass `none` (or a narrower set) to opt out.

use vstd::prelude::*;

use crate::path;
use crate::path::Part;
use crate::text;
use crate::text::{pieces, texts};

verus! {

/// A set of reject-rule preset groups, composed with the bitwise operators: one
/// value for each way to choose among the three groups.
///
/// `Presets::ALL & !Presets::CONFIG` is everything except config manifests.
#[derive(Clone, Copy, Debug, PartialEq, Eq, Structural)]
pub enum Presets {
    Nothing,
    Source,
    Hidden,
    Config,
    SourceHidden,
    SourceConfig,
    HiddenConfig,
    Everything,
}

impl Presets {
    /// Server-side / source-code extensions that must never be published or served raw.
    pub const SOURCE: Presets = Presets::Source;

    /// Dotfiles and dotdirs (`.git/`, `.env`, `.sops`, …), except the standard `.well-known`.
    pub const HIDDEN: Presets = Presets::Hidden;

    /// Build / tooling manifests (`package.json`, `package-lock.json`, `tsconfig.json`, …).
    pub const CONFIG: Presets = Presets::Config;

    /// Every preset (`SOURCE | HIDDEN | CONFIG`), the default selection.
    pub const ALL: Presets = Presets::Everything;

    /// No presets.
    pub const NONE: Presets = Presets::Nothing;

    /// Whether the source group is chosen.
    pub open spec fn source(self) -> bool {
        self is Source || self is SourceHidden || self is SourceConfig || self is Everything
    }

    /// Whether the hidden group is chosen.
    pub open spec fn hidden(self) -> bool {
        self is Hidden || self is SourceHidden || self is HiddenConfig || self is Everything
    }

    /// Whether the config group is chosen.
    pub open spec fn config(self) -> bool {
        self is Config || self is SourceConfig || self is HiddenConfig || self is Everything
    }

    /// The three groups, each chosen or not: source, hidden, config.
    fn groups(self) -> (r: (bool, bool, bool))
        ensures
            r == (self.source(), self.hidden(), self.config()),
    {
        match self {
            Presets::Nothing => (false, false, false),
            Presets::Source => (true, false, false),
            Presets::Hidden => (false, true, false),
            Presets::Config => (false, false, true),
            Presets::SourceHidden => (true, true, false),
            Presets::SourceConfig => (true, false, true),
            Presets::HiddenConfig => (false, true, true),
            Presets::Everything => (true, true, true),
        }
    }

    /// The set of the groups that are chosen.
    fn of(source: bool, hidden: bool, config: bool) -> (r: Self)
        ensures
            r == chosen(source, hidden, config),
    {
        match (source, hidden, config) {
            (false, false, false) => Presets::Nothing,
            (true, false, false) => Presets::Source,
            (false, true, false) => Presets::Hidden,
            (false, false, true) => Presets::Config,
            (true, true, false) => Presets::SourceHidden,
            (true, false, true) => Presets::SourceConfig,
            (false, true, true) => Presets::HiddenConfig,
            (true, true, true) => Presets::Everything,
        }
    }

    /// Whether every group in `other` is set.
    pub fn contains(self, other: Presets) -> (r: bool)
        ensures
            r == covers(self, other),
    {
        let (a, b, c) = self.groups();
        let (x, y, z) = other.groups();
        (!x || a) && (!y || b) && (!z || c)
    }

    /// The group that a name stands for.
    fn parse_one(name: &str) -> (r: Option<Presets>)
        ensures
            r == named_group(name@),
    {
        if text::same(name, "source") {
            Some(Presets::SOURCE)
        } else if text::same(name, "hidden") {
            Some(Presets::HIDDEN)
        } else if text::same(name, "config") {
            Some(Presets::CONFIG)
        } else {
            None
        }
    }
}

/// The set of the groups that are chosen.
pub open spec fn chosen(source: bool, hidden: bool, config: bool) -> Presets {
    match (source, hidden, config) {
        (false, false, false) => Presets::Nothing,
        (true, false, false) => Presets::Source,
        (false, true, false) => Presets::Hidden,
        (false, false, true) => Presets::Config,
        (true, true, false) => Presets::SourceHidden,
        (true, false, true) => Presets::SourceConfig,
        (false, true, true) => Presets::HiddenConfig,
        (true, true, true) => Presets::Everything,
    }
}

/// Every group of `b` is chosen in `a`.
pub open spec fn covers(a: Presets, b: Presets) -> bool {
    &&& b.source() ==> a.source()
    &&& b.hidden() ==> a.hidden()
    &&& b.config() ==> a.config()
}

/// The groups chosen in either set.
pub open spec fn either(a: Presets, b: Presets) -> Presets {
    chosen(a.source() || b.source(), a.hidden() || b.hidden(), a.config() || b.config())
}

/// The groups chosen in both sets.
pub open spec fn both(a: Presets, b: Presets) -> Presets {
    chosen(a.source() && b.source(), a.hidden() && b.hidden(), a.config() && b.config())
}

/// The groups not chosen.
pub open spec fn others(a: Presets) -> Presets {
    chosen(!a.source(), !a.hidden(), !a.config())
}

/// The group that a name stands for.
pub open spec fn named_group(name: Seq<char>) -> Option<Presets> {
    if name == "source"@ {
        Some(Presets::Source)
    } else if name == "hidden"@ {
        Some(Presets::Hidden)
    } else if name == "config"@ {
        Some(Presets::Config)
    } else {
        None
    }
}

impl std::ops::BitOr for Presets {
    type Output = Presets;

    fn bitor(self, rhs: Presets) -> (r: Presets) {
        let (a, b, c) = self.groups();
        let (x, y, z) = rhs.groups();
        Presets::of(a || x, b || y, c || z)
    }
}

impl vstd::std_specs::ops::BitOrSpecImpl for Presets {
    open spec fn obeys_bitor_spec() -> bool {
        true
    }

    open spec fn bitor_req(self, rhs: Presets) -> bool {
        true
    }

    open spec fn bitor_spec(self, rhs: Presets) -> Presets {
        either(self, rhs)
    }
}

impl std::ops::BitAnd for Presets {
    type Output = Presets;

    fn bitand(self, rhs: Presets) -> (r: Presets) {
        let (a, b, c) = self.groups();
        let (x, y, z) = rhs.groups();
        Presets::of(a && x, b && y, c && z)
    }
}

impl vstd::std_specs::ops::BitAndSpecImpl for Presets {
    open spec fn obeys_bitand_spec() -> bool {
        true
    }

    open spec fn bitand_req(self, rhs: Presets) -> bool {
        true
    }

    open spec fn bitand_spec(self, rhs: Presets) -> Presets {
        both(self, rhs)
    }
}

impl std::ops::Not for Presets {
    type Output = Presets;

    /// Complement within [`ALL`](Presets::ALL), so `!CONFIG == SOURCE | HIDDEN`.
    fn not(self) -> (r: Presets) {
        let (a, b, c) = self.groups();
        Presets::of(!a, !b, !c)
    }
}

impl vstd::std_specs::ops::NotSpecImpl for Presets {
    open spec fn obeys_not_spec() -> bool {
        true
    }

    open spec fn not_req(self) -> bool {
        true
    }

    open spec fn not_spec(self) -> Presets {
        others(self)
    }
}

/// A complement stays within [`Presets::ALL`]: it holds the other groups and no more,
/// and complementing twice gives the set back.
pub proof fn law_presets_complement(a: Presets)
    ensures
        either(a, others(a)) == Presets::ALL,
        both(a, others(a)) == Presets::NONE,
        others(others(a)) == a,
        others(Presets::CONFIG) == either(Presets::SOURCE, Presets::HIDDEN),
{
}

/// A compiled set of reject rules. Build it from [`presets`](Reject::parse_presets)
/// (the default is [`all`](Reject::all)) or an explicit [`list`](Reject::from_list)
/// (a full replace). [`Default`] is `all`, so the option is safe-by-default
/// wherever it's threaded.
#[derive(Debug, PartialEq, Eq)]
pub struct Reject {
    /// Lowercased extensions (a component whose extension matches is rejected).
    exts: Vec<String>,
    /// Lowercased exact component names (a file or directory name).
    names: Vec<String>,
    /// Reject any component starting with `.` (except `.well-known`).
    hidden: bool,
}

/// A set of reject rules, as the contracts see it.
pub struct Rules {
    pub exts: Seq<Seq<char>>,
    pub names: Seq<Seq<char>>,
    pub hidden: bool,
}

impl View for Reject {
    type V = Rules;

    closed spec fn view(&self) -> Rules {
        Rules { exts: texts(self.exts@), names: texts(self.names@), hidden: self.hidden }
    }
}

/// The rules that reject nothing.
pub open spec fn no_rules() -> Rules {
    Rules { exts: Seq::empty(), names: Seq::empty(), hidden: false }
}

/// The extensions of the `source` group.
pub open spec fn source_exts() -> Seq<Seq<char>> {
    seq!["php"@, "php5"@, "phtml"@, "ts"@, "tsx"@, "mts"@, "scss"@, "tera"@, "key"@]
}

/// The file names of the `config` group.
pub open spec fn config_names() -> Seq<Seq<char>> {
    seq!["package.json"@, "package-lock.json"@, "npm-shrinkwrap.json"@, "tsconfig.json"@]
}

/// The rules that a choice of groups selects.
pub open spec fn preset_rules(p: Presets) -> Rules {
    Rules {
        exts: if p.source() {
            source_exts()
        } else {
            Seq::empty()
        },
        names: if p.config() {
            config_names()
        } else {
            Seq::empty()
        },
        hidden: p.hidden(),
    }
}

/// The rules refuse one path component, whatever the case of its letters.
pub open spec fn refuses(rules: Rules, component: Seq<char>) -> bool {
    let name = text::lowered(component);
    &&& component.len() > 0
    &&& {
        ||| rules.hidden && name[0] == '.' && name != ".well-known"@
        ||| rules.names.contains(name)
        ||| path::extension_of(name) matches Some(ext) && rules.exts.contains(ext)
    }
}

/// The pieces of a request between slashes of either kind.
pub open spec fn request_pieces(rel: Seq<char>) -> Seq<Seq<char>> {
    pieces(text::replaced(rel, "\\"@, "/"@), '/')
}

/// The rules refuse some component of a request.
pub open spec fn refuses_request(rules: Rules, rel: Seq<char>) -> bool {
    exists|i: int|
        0 <= i < request_pieces(rel).len() && refuses(rules, #[trigger] request_pieces(rel)[i])
}

/// The rules refuse some named component of a path.
pub open spec fn refuses_path(rules: Rules, p: Seq<char>) -> bool {
    exists|i: int|
        0 <= i < path::parts(p).len() && (#[trigger] path::parts(p)[i] matches Part::Name(name)
            && refuses(rules, name))
}

/// An extension that some component has: it is not empty, what stands behind the last `.` holds
/// no `.`, and a component holds no `/`.
pub open spec fn possible_ext(ext: Seq<char>) -> bool {
    ext.len() > 0 && !ext.contains('.') && !ext.contains('/')
}

/// A name that some component has.
pub open spec fn possible_name(name: Seq<char>) -> bool {
    name.len() > 0 && !name.contains('/')
}

/// Every rule refuses some component.
pub open spec fn live(rules: Rules) -> bool {
    &&& forall|i: int|
        0 <= i < rules.exts.len() ==> possible_ext(#[trigger] rules.exts[i]) && text::lowered(
            rules.exts[i],
        ) == rules.exts[i]
    &&& forall|i: int|
        0 <= i < rules.names.len() ==> possible_name(#[trigger] rules.names[i]) && text::lowered(
            rules.names[i],
        ) == rules.names[i]
}

/// The rules with one pattern more: `*.ext` an extension, `name/` or `name` a
/// component; surrounding white space is ignored, and a pattern that no component matches
/// adds nothing.
pub open spec fn added(rules: Rules, pattern: Seq<char>) -> Rules {
    let pat = text::trimmed(pattern, text::white());
    if pat.len() == 0 {
        rules
    } else if "*."@.is_prefix_of(pat) && pat.len() > 2 {
        let ext = text::lowered(pat.skip(2));
        if possible_ext(ext) {
            Rules { exts: rules.exts.push(ext), ..rules }
        } else {
            rules
        }
    } else {
        let name = match text::without_suffix(pat, "/"@) {
            Some(n) => n,
            None => pat,
        };
        if possible_name(text::lowered(name)) {
            Rules { names: rules.names.push(text::lowered(name)), ..rules }
        } else {
            rules
        }
    }
}

/// The rules of a list of patterns, one after another.
pub open spec fn listed_rules(patterns: Seq<Seq<char>>) -> Rules
    decreases patterns.len(),
{
    if patterns.len() == 0 {
        no_rules()
    } else {
        added(listed_rules(patterns.drop_last()), patterns.last())
    }
}

/// One token of a preset expression, applied to the groups chosen so far.
pub open spec fn token_applied(active: Presets, token: Seq<char>) -> Result<Presets, Seq<char>> {
    let tok = text::trimmed(token, text::white());
    if tok.len() == 0 {
        Ok(active)
    } else if tok == "all"@ {
        Ok(Presets::ALL)
    } else if tok == "none"@ {
        Ok(Presets::NONE)
    } else {
        match text::without_prefix(tok, "!"@) {
            Some(name) => match named_group(name) {
                Some(g) => Ok(both(active, others(g))),
                None => Err(name),
            },
            None => match named_group(tok) {
                Some(g) => Ok(either(active, g)),
                None => Err(tok),
            },
        }
    }
}

/// The groups that a list of tokens chooses, left to right; the first unknown name otherwise.
pub open spec fn tokens_applied(tokens: Seq<Seq<char>>) -> Result<Presets, Seq<char>>
    decreases tokens.len(),
{
    if tokens.len() == 0 {
        Ok(Presets::NONE)
    } else {
        match tokens_applied(tokens.drop_last()) {
            Ok(active) => token_applied(active, tokens.last()),
            Err(name) => Err(name),
        }
    }
}

/// What a preset expression stands for: rules, or the complaint about an unknown name.
pub open spec fn expression_rules(expr: Seq<char>) -> Result<Rules, Seq<char>> {
    match tokens_applied(pieces(expr, ',')) {
        Ok(p) => Ok(preset_rules(p)),
        Err(name) => Err("unknown reject preset `"@ + name + "` (in `"@ + expr + "`)"@),
    }
}

proof fn lemma_error_stays(tokens: Seq<Seq<char>>, i: int)
    requires
        0 <= i <= tokens.len(),
        tokens_applied(tokens.take(i)) is Err,
    ensures
        tokens_applied(tokens) == tokens_applied(tokens.take(i)),
    decreases tokens.len(),
{
    if i == tokens.len() {
        assert(tokens.take(i) =~= tokens);
    } else {
        assert(tokens.drop_last().take(i) =~= tokens.take(i));
        lemma_error_stays(tokens.drop_last(), i);
    }
}

/// The rules of the groups are live.
proof fn lemma_presets_live(p: Presets)
    ensures
        live(preset_rules(p)),
{
    reveal_strlit("php");
    reveal_strlit("php5");
    reveal_strlit("phtml");
    reveal_strlit("ts");
    reveal_strlit("tsx");
    reveal_strlit("mts");
    reveal_strlit("scss");
    reveal_strlit("tera");
    reveal_strlit("key");
    reveal_strlit("package.json");
    reveal_strlit("package-lock.json");
    reveal_strlit("npm-shrinkwrap.json");
    reveal_strlit("tsconfig.json");
    assert forall|i: int| 0 <= i < source_exts().len() implies possible_ext(
        #[trigger] source_exts()[i],
    ) && text::lowered(source_exts()[i]) == source_exts()[i] by {
        assert(text::lowered(source_exts()[i]) =~= source_exts()[i]);
    }
    assert forall|i: int| 0 <= i < config_names().len() implies possible_name(
        #[trigger] config_names()[i],
    ) && text::lowered(config_names()[i]) == config_names()[i] by {
        assert(text::lowered(config_names()[i]) =~= config_names()[i]);
    }
}

/// Lowering the case twice lowers it once.
proof fn lemma_lowered_twice(s: Seq<char>)
    ensures
        text::lowered(text::lowered(s)) == text::lowered(s),
{
    assert(text::lowered(text::lowered(s)) =~= text::lowered(s));
}

/// Live rules stay live when a pattern is added.
proof fn lemma_added_live(rules: Rules, pattern: Seq<char>)
    requires
        live(rules),
    ensures
        live(added(rules, pattern)),
{
    let pat = text::trimmed(pattern, text::white());
    lemma_lowered_twice(pat.skip(2));
    lemma_lowered_twice(pat);
    if let Some(n) = text::without_suffix(pat, "/"@) {
        lemma_lowered_twice(n);
    }
}

impl Clone for Reject {
    fn clone(&self) -> (r: Self)
        ensures
            r@ == self@,
    {
        proof {
            use_type_invariant(self);
        }
        let exts = text::copy_texts(&self.exts);
        let names = text::copy_texts(&self.names);
        Reject { exts, names, hidden: self.hidden }
    }
}

impl Default for Reject {
    /// All presets, the safe default.
    fn default() -> (r: Self)
        ensures
            r@ == preset_rules(Presets::ALL),
    {
        Self::all()
    }
}

impl From<Presets> for Reject {
    /// Compile the rule set selected by `presets`.
    fn from(presets: Presets) -> (r: Self)
        ensures
            r@ == preset_rules(presets),
    {
        let mut exts: Vec<String> = Vec::new();
        let mut names: Vec<String> = Vec::new();
        if presets.contains(Presets::SOURCE) {
            exts.push("php".to_owned());
            exts.push("php5".to_owned());
            exts.push("phtml".to_owned());
            exts.push("ts".to_owned());
            exts.push("tsx".to_owned());
            exts.push("mts".to_owned());
            exts.push("scss".to_owned());
            exts.push("tera".to_owned());
            exts.push("key".to_owned());
            assert(texts(exts@) =~= source_exts());
        }
        if presets.contains(Presets::CONFIG) {
            names.push("package.json".to_owned());
            names.push("package-lock.json".to_owned());
            names.push("npm-shrinkwrap.json".to_owned());
            names.push("tsconfig.json".to_owned());
            assert(texts(names@) =~= config_names());
        }
        proof {
            lemma_presets_live(presets);
            assert(texts(exts@) =~= preset_rules(presets).exts);
            assert(texts(names@) =~= preset_rules(presets).names);
        }
        let r = Reject { exts, names, hidden: presets.contains(Presets::HIDDEN) };
        assert(r@.exts =~= preset_rules(presets).exts);
        assert(r@.names =~= preset_rules(presets).names);
        r
    }
}

impl vstd::std_specs::convert::FromSpecImpl<Presets> for Reject {
    open spec fn obeys_from_spec() -> bool {
        false
    }

    open spec fn from_spec(presets: Presets) -> Self {
        arbitrary()
    }
}

impl Reject {
    #[verifier::type_invariant]
    spec fn well_formed(self) -> bool {
        live(Rules { exts: texts(self.exts@), names: texts(self.names@), hidden: self.hidden })
    }

    /// All presets (`source` + `hidden` + `config`), the safe default.
    pub fn all() -> (r: Self)
        ensures
            r@ == preset_rules(Presets::ALL),
    {
        Reject::from(Presets::ALL)
    }

    /// Reject nothing (the `none` preset): opt out of all filtering.
    pub fn none() -> (r: Self)
        ensures
            r@ == no_rules(),
    {
        let r = Reject { exts: Vec::new(), names: Vec::new(), hidden: false };
        assert(r@.exts =~= Seq::<Seq<char>>::empty());
        assert(r@.names =~= Seq::<Seq<char>>::empty());
        r
    }

    /// Add one pattern to the list (`*.ext` extension, `name/` directory, or `name`), on top of
    /// whatever's already set. Case-insensitive. A pattern that no component of a path can
    /// match (`a/b`, `/`, `*.d.ts`) would reject nothing, and is left out.
    pub fn add(&mut self, pattern: &str)
        ensures
            final(self)@ == added(old(self)@, pattern@),
    {
        proof {
            use_type_invariant(&*self);
            lemma_added_live(self@, pattern@);
        }
        let pat = text::trim(pattern);
        if pat.as_str().is_empty() {
            return;
        }
        proof {
            reveal_strlit("*.");
        }
        match text::strip_prefix(pat.as_str(), "*.") {
            Some(ext) if !ext.as_str().is_empty() => {
                let low = text::lower(ext.as_str());
                if text::has_char(low.as_str(), '.') || text::has_char(low.as_str(), '/') {
                    return;
                }
                proof {
                    text::lemma_texts_push(self.exts@, low);
                }
                let mut list: Vec<String> = Vec::new();
                std::mem::swap(&mut list, &mut self.exts);
                list.push(low);
                self.exts = list;
            },
            _ => {
                let name = match text::strip_suffix(pat.as_str(), "/") {
                    Some(n) => n,
                    None => pat.clone(),
                };
                let low = text::lower(name.as_str());
                if low.as_str().is_empty() || text::has_char(low.as_str(), '/') {
                    return;
                }
                proof {
                    text::lemma_texts_push(self.names@, low);
                }
                let mut list: Vec<String> = Vec::new();
                std::mem::swap(&mut list, &mut self.names);
                list.push(low);
                self.names = list;
            },
        }
    }

    /// Parse a preset expression: a comma list with `all` / `none` and `!name`
    /// removal, evaluated left-to-right. Examples: `all` (default), `all,!config`,
    /// `source,hidden`, `none`. Unknown preset names are an error.
    pub fn parse_presets(expr: &str) -> (r: Result<Self, String>)
        ensures
            match r {
                Ok(reject) => expression_rules(expr@) == Ok::<Rules, Seq<char>>(reject@),
                Err(e) => expression_rules(expr@) == Err::<Rules, Seq<char>>(e@),
            },
    {
        let tokens = text::split(expr, ',');
        let ghost all = texts(tokens@);
        let mut active = Presets::NONE;
        let mut i: usize = 0;
        while i < tokens.len()
            invariant
                i <= tokens@.len(),
                all == texts(tokens@),
                all == pieces(expr@, ','),
                tokens_applied(all.take(i as int)) == Ok::<Presets, Seq<char>>(active),
            decreases tokens@.len() - i,
        {
            proof {
                let grown = all.take(i + 1);
                assert(grown.drop_last() =~= all.take(i as int));
                assert(grown.last() == tokens@[i as int]@);
            }
            let tok = text::trim(tokens[i].as_str());
            if tok.as_str().is_empty() {
            } else if text::same(tok.as_str(), "all") {
                active = Presets::ALL;
            } else if text::same(tok.as_str(), "none") {
                active = Presets::NONE;
            } else {
                let (remove, name) = match text::strip_prefix(tok.as_str(), "!") {
                    Some(rest) => (true, rest),
                    None => (false, tok.clone()),
                };
                match Presets::parse_one(name.as_str()) {
                    Some(preset) => {
                        active = if remove {
                            active & std::ops::Not::not(preset)
                        } else {
                            active | preset
                        };
                    },
                    None => {
                        proof {
                            lemma_error_stays(all, i + 1);
                        }
                        return Err(
                            "unknown reject preset `".to_owned().concat(name.as_str()).concat(
                                "` (in `",
                            ).concat(expr).concat("`)"),
                        );
                    },
                }
            }
            i += 1;
        }
        assert(all.take(tokens@.len() as int) =~= all);
        Ok(Reject::from(active))
    }

    /// Build from an explicit pattern list, a **full replace** ignoring
    /// presets. Each pattern is `*.ext` (an extension), `name/` (a directory), or `name`
    /// (an exact component, including a dotfile like `.env`). Case-insensitive.
    pub fn from_list(patterns: &[&str]) -> (r: Self)
        ensures
            r@ == listed_rules(Seq::new(patterns@.len(), |i: int| patterns@[i]@)),
    {
        let ghost all = Seq::new(patterns@.len(), |i: int| patterns@[i]@);
        let mut r = Reject::none();
        let mut i: usize = 0;
        while i < patterns.len()
            invariant
                i <= patterns@.len(),
                all == Seq::new(patterns@.len(), |i: int| patterns@[i]@),
                r@ == listed_rules(all.take(i as int)),
            decreases patterns@.len() - i,
        {
            proof {
                let grown = all.take(i + 1);
                assert(grown.drop_last() =~= all.take(i as int));
                assert(grown.last() == patterns@[i as int]@);
            }
            r.add(patterns[i]);
            i += 1;
        }
        assert(all.take(patterns@.len() as int) =~= all);
        r
    }

    /// Whether any component of a lexical relative / request path (separated by `/` or `\`)
    /// is rejected. Use on the raw request string, before touching the filesystem.
    pub fn rejects(&self, rel: &str) -> (r: bool)
        ensures
            r == refuses_request(self@, rel@),
    {
        proof {
            reveal_strlit("\\");
        }
        let slashed = text::replace(rel, "\\", "/");
        let list = text::split(slashed.as_str(), '/');
        let mut i: usize = 0;
        while i < list.len()
            invariant
                i <= list@.len(),
                texts(list@) == request_pieces(rel@),
                forall|j: int| 0 <= j < i ==> !refuses(self@, #[trigger] request_pieces(rel@)[j]),
            decreases list@.len() - i,
        {
            assert(request_pieces(rel@)[i as int] == list@[i as int]@);
            if self.component_rejected(list[i].as_str()) {
                return true;
            }
            i += 1;
        }
        false
    }

    /// Whether any component of a resolved path is rejected. Use on the canonicalized
    /// path the request actually opened, so case-folding / trailing dots can't bypass it.
    pub fn rejects_path(&self, path: &str) -> (r: bool)
        ensures
            r == refuses_path(self@, path@),
    {
        let list = path::components(path);
        let mut i: usize = 0;
        while i < list.len()
            invariant
                i <= list@.len(),
                path::views(list@) == path::parts(path@),
                forall|j: int|
                    0 <= j < i ==> !(#[trigger] path::parts(path@)[j] matches Part::Name(name)
                        && refuses(self@, name)),
            decreases list@.len() - i,
        {
            assert(path::parts(path@)[i as int] == list@[i as int]@);
            if let path::Component::Normal(name) = &list[i] {
                if self.component_rejected(name.as_str()) {
                    return true;
                }
            }
            i += 1;
        }
        false
    }

    /// Whether this set rejects nothing (e.g. the `none` preset).
    pub fn is_empty(&self) -> (r: bool)
        ensures
            r == (self@ == no_rules()),
            r <==> forall|rel: Seq<char>|
                !#[trigger] refuses_request(self@, rel) && !refuses_path(self@, rel),
    {
        let r = self.exts.is_empty() && self.names.is_empty() && !self.hidden;
        proof {
            if r {
                assert(self@.exts =~= Seq::<Seq<char>>::empty());
                assert(self@.names =~= Seq::<Seq<char>>::empty());
            } else if self@ == no_rules() {
                assert(self@.exts.len() == self.exts@.len());
                assert(self@.names.len() == self.names@.len());
            }
            use_type_invariant(self);
            assert(r == (self@ == no_rules()));
            if r {
                assert forall|rel: Seq<char>| !#[trigger] refuses_request(self@, rel)
                    && !refuses_path(self@, rel) by {
                    law_no_rules_refuse_nothing(rel);
                }
            } else {
                law_live_rules_refuse_something(self@);
                let p = victim(self@);
                assert(!(!refuses_request(self@, p) && !refuses_path(self@, p)));
            }
        }
        r
    }

    fn component_rejected(&self, comp: &str) -> (r: bool)
        ensures
            r == refuses(self@, comp@),
    {
        if comp.is_empty() {
            return false;
        }
        let low = text::lower(comp);
        if self.hidden && low.as_str().get_char(0) == '.' && !text::same(
            low.as_str(),
            ".well-known",
        ) {
            return true;
        }
        if text::listed(&self.names, low.as_str()) {
            return true;
        }
        match path::extension(low.as_str()) {
            Some(ext) => text::listed(&self.exts, ext.as_str()),
            None => false,
        }
    }
}

/// The empty rule set refuses nothing: no request and no path.
pub proof fn law_no_rules_refuse_nothing(rel: Seq<char>)
    ensures
        !refuses_request(no_rules(), rel),
        !refuses_path(no_rules(), rel),
{
}

/// Something that a set of rules refuses: a component that one of them names.
pub open spec fn victim(rules: Rules) -> Seq<char> {
    if rules.names.len() > 0 {
        rules.names[0]
    } else if rules.exts.len() > 0 {
        "x."@ + rules.exts[0]
    } else {
        "."@
    }
}

/// Rules that are live refuse something, unless there are none.
pub proof fn law_live_rules_refuse_something(rules: Rules)
    requires
        live(rules),
        rules != no_rules(),
    ensures
        refuses_request(rules, victim(rules)) || refuses_path(rules, victim(rules)),
{
    let p = victim(rules);
    reveal_strlit("x.");
    reveal_strlit(".");
    reveal_strlit("..");
    reveal_strlit(".well-known");
    reveal_strlit("\\");
    assert(rules.names =~= Seq::<Seq<char>>::empty() || rules.names.len() > 0);
    assert(rules.exts =~= Seq::<Seq<char>>::empty() || rules.exts.len() > 0);
    assert(!p.contains('/')) by {
        if rules.names.len() == 0 && rules.exts.len() > 0 {
            let e = rules.exts[0];
            if p.contains('/') {
                let k = choose|k: int| 0 <= k < p.len() && p[k] == '/';
                assert(k >= 2 && e[k - 2] == '/');
                assert(e.contains('/'));
            }
        }
    }
    assert(p.len() > 0);
    text::lemma_pieces_single(p, '/');
    assert(text::lowered(p) =~= p) by {
        if rules.names.len() == 0 && rules.exts.len() > 0 {
            let e = rules.exts[0];
            assert forall|k: int| 0 <= k < p.len() implies #[trigger] text::lowered(p)[k] == p[k] by {
                if k >= 2 {
                    assert(text::lowered(e)[k - 2] == e[k - 2]);
                }
            }
        }
    }
    lemma_single_part(p);
    assert(refuses(rules, p)) by {
        if rules.names.len() > 0 {
            assert(rules.names.contains(p));
        } else if rules.exts.len() > 0 {
            let e = rules.exts[0];
            text::lemma_char_at_last(p, '.');
            assert(p[1] == '.');
            assert forall|k: int| 2 <= k < p.len() implies p[k] != '.' by {
                assert(p[k] == e[k - 2]);
                assert(e.contains(e[k - 2]));
            }
            assert(text::char_at_last(p, '.') == Some(1int));
            assert(p.skip(2) =~= e);
            assert(p != "."@ && p != ".."@) by {
                assert(p[0] == 'x');
            }
            assert(rules.exts.contains(e));
        }
    }
    if p.contains('\\') {
        assert(p != "."@ && p != ".."@);
        assert(path::parts(p)[0] == Part::Name(p));
    } else {
        text::lemma_replaced_absent(p, '\\', "/"@, 0);
        assert("\\"@ =~= seq!['\\']);
        assert(p.skip(0) =~= p);
        assert(request_pieces(p)[0] == p);
    }
}

/// A text without a slash is one component.
proof fn lemma_single_part(p: Seq<char>)
    requires
        p.len() > 0,
        !p.contains('/'),
    ensures
        p != "."@ && p != ".."@ ==> path::parts(p) == seq![Part::Name(p)],
{
    text::lemma_pieces_single(p, '/');
    assert(p[0] != '/') by {
        assert(p.contains(p[0]));
    }
    let one = seq![p];
    assert(one.drop_last() =~= Seq::<Seq<char>>::empty());
    reveal_with_fuel(path::piece_parts, 2);
    assert(p != "."@ && p != ".."@ ==> path::piece_parts(one) =~= seq![Part::Name(p)]);
}

/// Whether a component is refused does not depend on the case of its ASCII letters.
pub proof fn law_refusal_ignores_case(rules: Rules, a: Seq<char>, b: Seq<char>)
    requires
        text::lowered(a) == text::lowered(b),
    ensures
        refuses(rules, a) == refuses(rules, b),
{
    assert(text::lowered(a).len() == text::lowered(b).len());
}

/// Adding a pattern only ever refuses more.
pub proof fn law_adding_refuses_more(rules: Rules, pattern: Seq<char>, component: Seq<char>)
    requires
        refuses(rules, component),
    ensures
        refuses(added(rules, pattern), component),
{
    let more = added(rules, pattern);
    let name = text::lowered(component);
    assert forall|x: Seq<char>| rules.names.contains(x) implies more.names.contains(x) by {
        let i = choose|i: int| 0 <= i < rules.names.len() && rules.names[i] == x;
        assert(more.names[i] == x);
    }
    assert forall|x: Seq<char>| rules.exts.contains(x) implies more.exts.contains(x) by {
        let i = choose|i: int| 0 <= i < rules.exts.len() && rules.exts[i] == x;
        assert(more.exts[i] == x);
    }
}

/// Whatever the rules: a component without a name is let through; with the hidden rule on, one that
/// begins with `.` is refused unless it is `.well-known`; one of the listed names is refused; and
/// so is one behind whose last dot a listed extension stands, in any case.
pub proof fn law_what_is_refused(rules: Rules, component: Seq<char>, stem: Seq<char>, ext: Seq<char>)
    ensures
        !refuses(rules, Seq::empty()),
        rules.hidden && component.len() > 0 && component[0] == '.' && text::lowered(component)
            != ".well-known"@ ==> refuses(rules, component),
        component.len() > 0 && rules.names.contains(text::lowered(component)) ==> refuses(
            rules,
            component,
        ),
        stem.len() > 0 && !ext.contains('.') && rules.exts.contains(text::lowered(ext))
            && path::proper_name(stem + "."@ + ext) ==> refuses(rules, stem + "."@ + ext),
        refuses(rules, component) ==> component.len() > 0 && (rules.names.contains(
            text::lowered(component),
        ) || (rules.hidden && component[0] == '.') || (path::extension_of(text::lowered(component))
            matches Some(e) && rules.exts.contains(e))),
        component[0] == '.' && text::lowered(component) == ".well-known"@ && !rules.names.contains(
            ".well-known"@,
        ) ==> !refuses(rules, component),
{
    reveal_strlit(".");
    reveal_strlit(".well-known");
    text::law_case(component);
    if component.len() > 0 {
        assert(text::lowered(component)[0] == '.' <==> component[0] == '.');
    }
    if stem.len() > 0 && !ext.contains('.') && path::proper_name(stem + "."@ + ext) {
        let name = stem + "."@ + ext;
        let low = text::lowered(name);
        text::law_case(name);
        text::law_case(stem);
        text::law_case(ext);
        assert(low =~= text::lowered(stem) + "."@ + text::lowered(ext)) by {
            assert forall|i: int| 0 <= i < name.len() implies low[i] == (text::lowered(stem) + "."@
                + text::lowered(ext))[i] by {
                if i < stem.len() {
                    assert(name[i] == stem[i]);
                } else if i > stem.len() {
                    assert(name[i] == ext[i - stem.len() - 1]);
                }
            }
        }
        assert(!text::lowered(ext).contains('.')) by {
            if text::lowered(ext).contains('.') {
                let k = choose|k: int| 0 <= k < ext.len() && text::lowered(ext)[k] == '.';
                assert(ext[k] == '.');
            }
        }
        path::law_extension(text::lowered(stem), text::lowered(ext), text::lowered(stem));
        lemma_lowered_is_proper(name);
        path::law_lone_name(low, ext);
    }
    if text::lowered(component) == ".well-known"@ {
        lemma_well_known_has_no_extension();
    }
}

proof fn lemma_lowered_is_proper(name: Seq<char>)
    requires
        path::proper_name(name),
    ensures
        path::proper_name(text::lowered(name)),
{
    reveal_strlit(".");
    reveal_strlit("..");
    let low = text::lowered(name);
    text::law_case(name);
    if low.contains('/') {
        let k = choose|k: int| 0 <= k < low.len() && low[k] == '/';
        assert(name[k] == '/');
    }
    if low == "."@ {
        assert(low[0] == '.');
        assert(name =~= "."@);
    }
    if low == ".."@ {
        assert(low[0] == '.' && low[1] == '.');
        assert(name =~= ".."@);
    }
}

proof fn lemma_well_known_has_no_extension()
    ensures
        path::extension_of(".well-known"@) is None,
{
    reveal_strlit(".well-known");
    reveal_strlit("well-known");
    reveal_strlit(".");
    reveal_strlit("..");
    let name = ".well-known"@;
    assert(name =~= "."@ + "well-known"@);
    assert(!"well-known"@.contains('.'));
    path::law_extension(name, "well-known"@, name);
    assert(!name.contains('/'));
    path::law_lone_name(name, name);
}

/// A request is refused when some part of it is, wherever it stands and whichever slash is before
/// or behind it.
pub proof fn law_any_part_of_a_request(
    rules: Rules,
    head: Seq<char>,
    component: Seq<char>,
    tail: Seq<char>,
    left: char,
    right: char,
)
    requires
        left == '/' || left == '\\',
        right == '/' || right == '\\',
        !component.contains('/'),
        !component.contains('\\'),
        refuses(rules, component),
    ensures
        refuses_request(rules, component),
        refuses_request(rules, head.push(left) + component),
        refuses_request(rules, component.push(right) + tail),
        refuses_request(rules, head.push(left) + component.push(right) + tail),
{
    reveal_strlit("\\");
    reveal_strlit("/");
    assert("\\"@ =~= seq!['\\']);
    assert("/"@ =~= seq!['/']);
    let b = seq!['\\'];
    let s = seq!['/'];
    let h = text::replaced(head, b, s);
    let t = text::replaced(tail, b, s);
    text::lemma_replaced_absent(component, '\\', s, 0);
    assert(component.skip(0) =~= component);
    assert(text::replaced(component, b, s) == component);
    text::lemma_pieces_single(component, '/');
    assert(request_pieces(component)[0] == component);
    text::law_replaced_one_by_one(head, '\\', s, left);
    text::law_replaced_one_by_one(component, '\\', s, right);
    assert(h + s =~= h.push('/'));
    assert(h + seq![left] =~= h.push(left));
    assert(component + s =~= component.push('/'));
    assert(text::replaced(head.push(left), b, s) =~= h.push('/'));
    assert(text::replaced(component.push(right), b, s) =~= component.push('/'));
    // Behind another part.
    text::law_replaced_in_parts(head.push(left), component, '\\', s);
    text::lemma_pieces_concat(h, component, '/');
    let behind = head.push(left) + component;
    assert(text::replaced(behind, b, s) == h.push('/') + component);
    assert(request_pieces(behind) == pieces(h, '/') + seq![component]);
    assert(request_pieces(behind)[pieces(h, '/').len() as int] == component);
    // Before another part.
    text::law_replaced_in_parts(component.push(right), tail, '\\', s);
    text::lemma_pieces_concat(component, t, '/');
    let before = component.push(right) + tail;
    assert(request_pieces(before) == seq![component] + pieces(t, '/'));
    assert(request_pieces(before)[0] == component);
    // Between two.
    text::law_replaced_in_parts(head.push(left), before, '\\', s);
    text::lemma_pieces_concat(h, component.push('/') + t, '/');
    let amid = head.push(left) + component.push(right) + tail;
    assert(amid =~= head.push(left) + before);
    assert(request_pieces(amid) == pieces(h, '/') + (seq![component] + pieces(t, '/')));
    assert(request_pieces(amid)[pieces(h, '/').len() as int] == component);
}

/// A request none of whose parts is refused is let through.
pub proof fn law_other_requests_are_let_through(rules: Rules, rel: Seq<char>, p: Seq<char>)
    ensures
        (forall|i: int|
            0 <= i < request_pieces(rel).len() ==> !refuses(rules, #[trigger] request_pieces(rel)[i]))
            ==> !refuses_request(rules, rel),
        (forall|name: Seq<char>|
            #[trigger] path::parts(p).contains(Part::Name(name)) ==> !refuses(rules, name))
            ==> !refuses_path(rules, p),
        forall|name: Seq<char>|
            #[trigger] path::parts(p).contains(Part::Name(name)) && refuses(rules, name)
                ==> refuses_path(rules, p),
{
    if refuses_path(rules, p) {
        let k = choose|i: int|
            0 <= i < path::parts(p).len() && (#[trigger] path::parts(p)[i] matches Part::Name(name)
                && refuses(rules, name));
        assert(path::parts(p).contains(Part::Name(path::parts(p)[k]->Name_0)));
    }
}

/// The groups: `source` refuses server-side and compiled sources and private keys, `config` the
/// build manifests, `hidden` what begins with a dot; a group that is not chosen refuses nothing.
pub proof fn law_preset_groups(p: Presets)
    ensures
        p.source() ==> preset_rules(p).exts.to_set() == set![
            "php"@,
            "php5"@,
            "phtml"@,
            "ts"@,
            "tsx"@,
            "mts"@,
            "scss"@,
            "tera"@,
            "key"@,
        ],
        !p.source() ==> preset_rules(p).exts.len() == 0,
        p.config() ==> preset_rules(p).names.to_set() == set![
            "package.json"@,
            "package-lock.json"@,
            "npm-shrinkwrap.json"@,
            "tsconfig.json"@,
        ],
        !p.config() ==> preset_rules(p).names.len() == 0,
        preset_rules(p).hidden == p.hidden(),
        Presets::ALL.source() && Presets::ALL.hidden() && Presets::ALL.config(),
        !Presets::NONE.source() && !Presets::NONE.hidden() && !Presets::NONE.config(),
{
    let e = source_exts();
    let n = config_names();
    assert(e[0] == "php"@ && e[1] == "php5"@ && e[2] == "phtml"@ && e[3] == "ts"@ && e[4] == "tsx"@
        && e[5] == "mts"@ && e[6] == "scss"@ && e[7] == "tera"@ && e[8] == "key"@);
    assert(n[0] == "package.json"@ && n[1] == "package-lock.json"@ && n[2]
        == "npm-shrinkwrap.json"@ && n[3] == "tsconfig.json"@);
    if p.source() {
        assert forall|x: Seq<char>| e.to_set().contains(x) == #[trigger] set![
            "php"@,
            "php5"@,
            "phtml"@,
            "ts"@,
            "tsx"@,
            "mts"@,
            "scss"@,
            "tera"@,
            "key"@,
        ].contains(x) by {
            if e.contains(x) {
                let k = choose|k: int| 0 <= k < e.len() && e[k] == x;
                assert(0 <= k < 9);
            }
        }
        assert(preset_rules(p).exts.to_set() =~= set![
            "php"@,
            "php5"@,
            "phtml"@,
            "ts"@,
            "tsx"@,
            "mts"@,
            "scss"@,
            "tera"@,
            "key"@,
        ]);
    }
    if p.config() {
        assert forall|x: Seq<char>| n.to_set().contains(x) == #[trigger] set![
            "package.json"@,
            "package-lock.json"@,
            "npm-shrinkwrap.json"@,
            "tsconfig.json"@,
        ].contains(x) by {
            if n.contains(x) {
                let k = choose|k: int| 0 <= k < n.len() && n[k] == x;
                assert(0 <= k < 4);
            }
        }
        assert(preset_rules(p).names.to_set() =~= set![
            "package.json"@,
            "package-lock.json"@,
            "npm-shrinkwrap.json"@,
            "tsconfig.json"@,
        ]);
    }
}

/// A union holds what either set holds, an intersection what both hold, and a set covers another
/// when it holds all of it.
pub proof fn law_preset_algebra(a: Presets, b: Presets)
    ensures
        either(a, b).source() == (a.source() || b.source()),
        either(a, b).hidden() == (a.hidden() || b.hidden()),
        either(a, b).config() == (a.config() || b.config()),
        both(a, b).source() == (a.source() && b.source()),
        both(a, b).hidden() == (a.hidden() && b.hidden()),
        both(a, b).config() == (a.config() && b.config()),
        covers(a, b) <==> either(a, b) == a,
        covers(a, b) <==> both(a, b) == b,
{
}

/// One token of an expression: `all` and `none` start over, a name adds its group, `!` before a
/// name takes it away, and any other name is reported.
pub proof fn law_preset_tokens(active: Presets, tokens: Seq<Seq<char>>, name: Seq<char>)
    requires
        name.len() > 0,
        !text::white().contains(name[0]),
        !text::white().contains(name.last()),
    ensures
        name == "all"@ ==> token_applied(active, name) == Ok::<Presets, Seq<char>>(Presets::ALL),
        name == "none"@ ==> token_applied(active, name) == Ok::<Presets, Seq<char>>(Presets::NONE),
        name == "source"@ ==> token_applied(active, name) == Ok::<Presets, Seq<char>>(
            either(active, Presets::SOURCE),
        ),
        name == "hidden"@ ==> token_applied(active, name) == Ok::<Presets, Seq<char>>(
            either(active, Presets::HIDDEN),
        ),
        name == "config"@ ==> token_applied(active, name) == Ok::<Presets, Seq<char>>(
            either(active, Presets::CONFIG),
        ),
        name == "!source"@ ==> token_applied(active, name) == Ok::<Presets, Seq<char>>(
            both(active, others(Presets::SOURCE)),
        ),
        name == "!hidden"@ ==> token_applied(active, name) == Ok::<Presets, Seq<char>>(
            both(active, others(Presets::HIDDEN)),
        ),
        name == "!config"@ ==> token_applied(active, name) == Ok::<Presets, Seq<char>>(
            both(active, others(Presets::CONFIG)),
        ),
        name[0] != '!' && name != "all"@ && name != "none"@ && name != "source"@ && name
            != "hidden"@ && name != "config"@ ==> token_applied(active, name) == Err::<
            Presets,
            Seq<char>,
        >(name),
        tokens_applied(tokens) == Ok::<Presets, Seq<char>>(active) ==> tokens_applied(
            tokens.push(name),
        ) == token_applied(active, name),
        tokens_applied(Seq::empty()) == Ok::<Presets, Seq<char>>(Presets::NONE),
{
    text::law_trimming_leaves_alone(name, text::white());
    assert(tokens.push(name).drop_last() =~= tokens);
    reveal_strlit("all");
    reveal_strlit("none");
    reveal_strlit("source");
    reveal_strlit("hidden");
    reveal_strlit("config");
    reveal_strlit("!source");
    reveal_strlit("!hidden");
    reveal_strlit("!config");
    reveal_strlit("!");
    assert("source"@[0] == 's' && "hidden"@[0] == 'h' && "config"@[0] == 'c');
    assert("!source"@[0] == '!' && "!hidden"@[0] == '!' && "!config"@[0] == '!');
    assert("!source"@[1] == 's' && "!hidden"@[1] == 'h' && "!config"@[1] == 'c');
    assert("!source"@.skip(1) =~= "source"@);
    assert("!hidden"@.skip(1) =~= "hidden"@);
    assert("!config"@.skip(1) =~= "config"@);
    assert(name.subrange(0, 1)[0] == name[0]);
    if name[0] == '!' {
        assert(name.subrange(0, 1) =~= "!"@);
    } else {
        assert(!"!"@.is_prefix_of(name));
    }
}

/// A pattern `*.ext` refuses an extension, `name` and `name/` refuse a component, each in lower
/// case; and a pattern with a slash inside, or an extension with a dot inside, adds nothing.
pub proof fn law_patterns(rules: Rules, name: Seq<char>, ext: Seq<char>)
    requires
        name.len() > 0,
        !name.contains('/'),
        !text::white().contains(name[0]),
        !text::white().contains(name.last()),
        name[0] != '*',
        ext.len() > 0,
        !ext.contains('/'),
        !text::white().contains(ext.last()),
    ensures
        added(rules, name) == (Rules { names: rules.names.push(text::lowered(name)), ..rules }),
        added(rules, name + "/"@) == added(rules, name),
        !ext.contains('.') ==> added(rules, "*."@ + ext) == (Rules {
            exts: rules.exts.push(text::lowered(ext)),
            ..rules
        }),
        ext.contains('.') ==> added(rules, "*."@ + ext) == rules,
        added(rules, Seq::empty()) == rules,
{
    reveal_strlit("*.");
    reveal_strlit("/");
    let white = text::white();
    reveal_strlit(
        "\t\n\u{b}\u{c}\r \u{85}\u{a0}\u{1680}\u{2000}\u{2001}\u{2002}\u{2003}\u{2004}\u{2005}\u{2006}\u{2007}\u{2008}\u{2009}\u{200a}\u{2028}\u{2029}\u{202f}\u{205f}\u{3000}",
    );
    assert(!white.contains('/'));
    assert(!white.contains('*'));
    text::law_trimming_leaves_alone(name, white);
    assert(!"*."@.is_prefix_of(name)) by {
        if "*."@.is_prefix_of(name) {
            assert(name.subrange(0, 2)[0] == '*');
        }
    }
    text::lemma_suffix_chars(name, "/"@);
    if "/"@.is_suffix_of(name) {
        assert(name[name.len() - 1] == "/"@[0]);
        assert(name.contains('/'));
    }
    lemma_lowered_lacks(name, '/');
    text::law_case(name);
    let slashed = name + "/"@;
    assert(slashed.last() == '/' && slashed[0] == name[0]);
    text::law_trimming_leaves_alone(slashed, white);
    assert(!"*."@.is_prefix_of(slashed)) by {
        if "*."@.is_prefix_of(slashed) {
            assert(slashed.subrange(0, 2)[0] == '*');
        }
    }
    text::lemma_suffix_chars(slashed, "/"@);
    assert("/"@.is_suffix_of(slashed));
    assert(slashed.take(slashed.len() - 1) =~= name);
    let starred = "*."@ + ext;
    assert(starred[0] == '*' && starred.last() == ext.last());
    text::law_trimming_leaves_alone(starred, white);
    assert(starred.subrange(0, 2) =~= "*."@);
    assert(starred.skip(2) =~= ext);
    lemma_lowered_lacks(ext, '/');
    lemma_lowered_lacks(ext, '.');
    text::law_case(ext);
}

proof fn lemma_lowered_lacks(s: Seq<char>, c: char)
    requires
        c == '/' || c == '.',
    ensures
        text::lowered(s).contains(c) == s.contains(c),
{
    text::law_case(s);
    if text::lowered(s).contains(c) {
        let k = choose|k: int| 0 <= k < s.len() && text::lowered(s)[k] == c;
        assert(s[k] == c);
    }
    if s.contains(c) {
        let k = choose|k: int| 0 <= k < s.len() && s[k] == c;
        assert(text::lowered(s)[k] == c);
    }
}

/// A list of patterns refuses what each of them adds, one after another, on top of nothing; and an
/// expression selects the rules of the groups that its tokens leave, or names the first unknown
/// one.
pub proof fn law_lists_and_expressions(patterns: Seq<Seq<char>>, pattern: Seq<char>, expr: Seq<char>)
    ensures
        listed_rules(Seq::empty()) == no_rules(),
        listed_rules(patterns.push(pattern)) == added(listed_rules(patterns), pattern),
        match tokens_applied(pieces(expr, ',')) {
            Ok(p) => expression_rules(expr) == Ok::<Rules, Seq<char>>(preset_rules(p)),
            Err(name) => expression_rules(expr) matches Err(e) && text::has(e, name) && text::has(
                e,
                expr,
            ),
        },
{
    assert(patterns.push(pattern).drop_last() =~= patterns);
    if let Err(name) = tokens_applied(pieces(expr, ',')) {
        let e = "unknown reject preset `"@ + name + "` (in `"@ + expr + "`)"@;
        text::law_standing_in("unknown reject preset `"@, name, "` (in `"@ + expr + "`)"@);
        text::law_standing_in("unknown reject preset `"@ + name + "` (in `"@, expr, "`)"@);
        assert(e =~= "unknown reject preset `"@ + name + ("` (in `"@ + expr + "`)"@));
    }
}

} // verus!
