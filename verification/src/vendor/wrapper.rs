//! ESM wrappers for CommonJS package entries.
//!
//! A bare specifier resolved to a `module.exports` file loads in a bundler and fails in
//! a browser, at runtime, far from the vendoring that chose the file. Packages that ship
//! no ESM entry at all are otherwise unusable, so they are wrapped.

use vstd::prelude::*;

use crate::text;
use crate::text::{pieces, texts};

verus! {

/// Suffix of a generated CommonJS to ESM wrapper.
pub const ESM_WRAPPER_SUFFIX: &'static str = ".esm-wrapper.js";

/// Template for a generated wrapper; `{target}` and `{body}` are substituted.
pub const ESM_WRAPPER_TEMPLATE: &'static str =
    "// Generated by web_modules: `{target}` is CommonJS, which a browser cannot\n// import as a module. Its body runs below inside a module/exports scaffold, and\n// whatever it assigns becomes this module's default export.\n//\n// Only the default export is provided: what a CommonJS entry attaches to\n// `exports` is not knowable statically, so named imports cannot be offered.\nconst module = { exports: {} };\nconst exports = module.exports;\n\n{body}\n\nexport default module.exports;\n";

/// One line of a module already speaks ESM.
pub open spec fn esm_line(line: Seq<char>) -> bool {
    let l = text::trimmed_start(line, text::white());
    ||| "import "@.is_prefix_of(l)
    ||| "import{"@.is_prefix_of(l)
    ||| "import("@.is_prefix_of(l)
    ||| "export "@.is_prefix_of(l)
    ||| "export{"@.is_prefix_of(l)
    ||| "export*"@.is_prefix_of(l)
}

/// Some line of `body` already speaks ESM.
pub open spec fn esm_syntax(body: Seq<char>) -> bool {
    exists|i: int| 0 <= i < pieces(body, '\n').len() && esm_line(#[trigger] pieces(body, '\n')[i])
}

/// `body` assigns CommonJS exports.
pub open spec fn commonjs_exports(body: Seq<char>) -> bool {
    text::has(body, "module.exports"@) || text::has(body, "exports."@)
}

/// The first of the Node-only identifiers that `body` uses, as it is named in a warning.
pub open spec fn node_only(body: Seq<char>) -> Option<Seq<char>> {
    if text::has(body, "require("@) {
        Some("require"@)
    } else if text::has(body, "__dirname"@) {
        Some("__dirname"@)
    } else if text::has(body, "__filename"@) {
        Some("__filename"@)
    } else if text::has(body, "process."@) {
        Some("process."@)
    } else if text::has(body, "global."@) {
        Some("global."@)
    } else if text::has(body, "Buffer"@) {
        Some("Buffer"@)
    } else {
        None
    }
}

/// The wrapper of a CommonJS `body`, named after `target` in its comment.
pub open spec fn wrapper_source(target: Seq<char>, body: Seq<char>) -> Seq<char> {
    text::replaced(
        text::replaced(ESM_WRAPPER_TEMPLATE@, "{target}"@, target),
        "{body}"@,
        text::trimmed_end(body, text::white()),
    )
}

/// What is done about a package entry.
#[derive(Debug, PartialEq, Eq)]
pub enum Wrap {
    /// It is no CommonJS, or already a wrapper: it stays as it is.
    Leave,
    /// It is CommonJS that reaches for the Node environment, by this identifier:
    /// wrapping cannot make it loadable, so it stays as it is, with a warning.
    Unwrappable(String),
    /// It is wrapped: the wrapper's path beside it, and the wrapper's text.
    Wrapper { path: String, contents: String },
}

/// What is done about a package entry, as the contracts see it.
pub enum Wrapping {
    Leave,
    Unwrappable(Seq<char>),
    Wrapper { path: Seq<char>, contents: Seq<char> },
}

impl View for Wrap {
    type V = Wrapping;

    open spec fn view(&self) -> Wrapping {
        match self {
            Wrap::Leave => Wrapping::Leave,
            Wrap::Unwrappable(uses) => Wrapping::Unwrappable(uses@),
            Wrap::Wrapper { path, contents } => Wrapping::Wrapper {
                path: path@,
                contents: contents@,
            },
        }
    }
}

/// What is done about the entry `target` with this body; `None` for a body that
/// could not be read.
pub open spec fn wrapping(target: Seq<char>, body: Option<Seq<char>>) -> Wrapping {
    match body {
        None => Wrapping::Leave,
        Some(body) => if ESM_WRAPPER_SUFFIX@.is_suffix_of(target) || esm_syntax(body)
            || !commonjs_exports(body) {
            Wrapping::Leave
        } else {
            match node_only(body) {
                Some(uses) => Wrapping::Unwrappable(uses),
                None => Wrapping::Wrapper {
                    path: target + ESM_WRAPPER_SUFFIX@,
                    contents: wrapper_source(target, body),
                },
            }
        },
    }
}

/// Whether `body` already speaks ESM, in which case it needs nothing.
pub fn has_esm_syntax(body: &str) -> (r: bool)
    ensures
        r == esm_syntax(body@),
{
    let lines = text::split(body, '\n');
    let mut i: usize = 0;
    while i < lines.len()
        invariant
            i <= lines@.len(),
            texts(lines@) == pieces(body@, '\n'),
            forall|j: int| 0 <= j < i ==> !esm_line(#[trigger] pieces(body@, '\n')[j]),
        decreases lines@.len() - i,
    {
        assert(pieces(body@, '\n')[i as int] == lines@[i as int]@);
        let line = text::trim_white_start(lines[i].as_str());
        let l = line.as_str();
        if text::starts_with(l, "import ") || text::starts_with(l, "import{") || text::starts_with(
            l,
            "import(",
        ) || text::starts_with(l, "export ") || text::starts_with(l, "export{")
            || text::starts_with(l, "export*") {
            return true;
        }
        i += 1;
    }
    false
}

/// Whether `body` assigns CommonJS exports.
pub fn has_commonjs_exports(body: &str) -> (r: bool)
    ensures
        r == commonjs_exports(body@),
{
    text::contains(body, "module.exports") || text::contains(body, "exports.")
}

/// The first of the Node-only identifiers, which a browser cannot supply, that `body` uses.
fn node_only_use(body: &str) -> (r: Option<String>)
    ensures
        text::opt_text(r) == node_only(body@),
{
    if text::contains(body, "require(") {
        Some("require".to_owned())
    } else if text::contains(body, "__dirname") {
        Some("__dirname".to_owned())
    } else if text::contains(body, "__filename") {
        Some("__filename".to_owned())
    } else if text::contains(body, "process.") {
        Some("process.".to_owned())
    } else if text::contains(body, "global.") {
        Some("global.".to_owned())
    } else if text::contains(body, "Buffer") {
        Some("Buffer".to_owned())
    } else {
        None
    }
}

/// The ESM wrapper for a CommonJS `body`, named after `target` in the comment.
pub fn esm_wrapper_source(target: &str, body: &str) -> (r: String)
    ensures
        r@ == wrapper_source(target@, body@),
{
    proof {
        reveal_strlit("{target}");
        reveal_strlit("{body}");
    }
    let named = text::replace(ESM_WRAPPER_TEMPLATE, "{target}", target);
    text::replace(named.as_str(), "{body}", text::trim_white_end(body).as_str())
}

/// Decide about giving a CommonJS-only package entry an ESM wrapper, given its body
/// (`None` when it could not be read).
///
/// The entry stays as it is when it is already ESM, or when the body reaches for the
/// Node environment; the latter is worth a warning, because leaving the import map
/// pointing at it only moves the failure into the browser.
pub fn esm_wrapper(target: &str, body: Option<&str>) -> (r: Wrap)
    ensures
        r@ == wrapping(
            target@,
            match body {
                Some(b) => Some(b@),
                None => None,
            },
        ),
{
    let body = match body {
        Some(b) => b,
        None => {
            return Wrap::Leave;
        },
    };
    if text::ends_with(target, ESM_WRAPPER_SUFFIX) {
        return Wrap::Leave;
    }
    if has_esm_syntax(body) || !has_commonjs_exports(body) {
        return Wrap::Leave;
    }
    match node_only_use(body) {
        Some(uses) => Wrap::Unwrappable(uses),
        None => Wrap::Wrapper {
            path: target.to_owned().concat(ESM_WRAPPER_SUFFIX),
            contents: esm_wrapper_source(target, body),
        },
    }
}

/// A wrapper is never wrapped again.
pub proof fn law_wrapper_is_left_alone(target: Seq<char>, body: Option<Seq<char>>, later: Option<Seq<char>>)
    ensures
        wrapping(target, body) matches Wrapping::Wrapper { path, .. } ==> wrapping(path, later)
            is Leave,
{
    if let Wrapping::Wrapper { path, .. } = wrapping(target, body) {
        let s = ESM_WRAPPER_SUFFIX@;
        assert(s =~= path.subrange(path.len() - s.len(), path.len() as int));
    }
}

/// An entry is wrapped when it assigns CommonJS exports, speaks no ESM and asks nothing of Node, and
/// is no wrapper itself: then the wrapper stands beside it, its name with `.esm-wrapper.js` behind
/// it. What could not be read, what speaks ESM and what exports nothing is left alone.
pub proof fn law_what_is_wrapped(target: Seq<char>, body: Seq<char>)
    ensures
        wrapping(target, None) is Leave,
        ".esm-wrapper.js"@.is_suffix_of(target) ==> wrapping(target, Some(body)) is Leave,
        esm_syntax(body) ==> wrapping(target, Some(body)) is Leave,
        !text::has(body, "module.exports"@) && !text::has(body, "exports."@) ==> wrapping(
            target,
            Some(body),
        ) is Leave,
        ({
            let commonjs = (text::has(body, "module.exports"@) || text::has(body, "exports."@))
                && !esm_syntax(body) && !".esm-wrapper.js"@.is_suffix_of(target);
            let node = text::has(body, "require("@) || text::has(body, "__dirname"@) || text::has(
                body,
                "__filename"@,
            ) || text::has(body, "process."@) || text::has(body, "global."@) || text::has(
                body,
                "Buffer"@,
            );
            &&& commonjs && node ==> wrapping(target, Some(body)) is Unwrappable
            &&& commonjs && !node ==> (wrapping(target, Some(body)) matches Wrapping::Wrapper {
                path,
                contents,
            } && path == target + ".esm-wrapper.js"@ && contents == wrapper_source(target, body))
            &&& !commonjs ==> wrapping(target, Some(body)) is Leave
        }),
{
}

/// The identifier that is warned of is one that the body uses.
pub proof fn law_warning_names_a_use(target: Seq<char>, body: Seq<char>)
    ensures
        wrapping(target, Some(body)) matches Wrapping::Unwrappable(uses) ==> text::has(body, uses),
{
    if let Some(uses) = node_only(body) {
        if uses == "require"@ && text::has(body, "require("@) {
            reveal_strlit("require(");
            reveal_strlit("require");
            let k = choose|k: int| text::occurs_at(body, "require("@, k);
            assert(body.subrange(k, k + 7) =~= body.subrange(k, k + 8).subrange(0, 7));
            assert("require("@.subrange(0, 7) =~= "require"@);
            assert(text::occurs_at(body, "require"@, k));
        }
    }
}

/// A line speaks ESM when, behind its white space, it begins with `import` or `export` as they stand
/// in a module; a text speaks ESM when one of its lines does.
pub proof fn law_esm_lines(space: Seq<char>, line: Seq<char>, before: Seq<char>, after: Seq<char>)
    requires
        forall|i: int| 0 <= i < space.len() ==> text::white().contains(#[trigger] space[i]),
        !line.contains('\n'),
        !space.contains('\n'),
        "import "@.is_prefix_of(line) || "import{"@.is_prefix_of(line) || "import("@.is_prefix_of(
            line,
        ) || "export "@.is_prefix_of(line) || "export{"@.is_prefix_of(line)
            || "export*"@.is_prefix_of(line),
    ensures
        esm_line(space + line),
        esm_syntax(space + line),
        esm_syntax(before.push('\n') + (space + line)),
        esm_syntax((space + line).push('\n') + after),
{
    reveal_strlit("import ");
    reveal_strlit("import{");
    reveal_strlit("import(");
    reveal_strlit("export ");
    reveal_strlit("export{");
    reveal_strlit("export*");
    let white = text::white();
    reveal_strlit(
        "\t\n\u{b}\u{c}\r \u{85}\u{a0}\u{1680}\u{2000}\u{2001}\u{2002}\u{2003}\u{2004}\u{2005}\u{2006}\u{2007}\u{2008}\u{2009}\u{200a}\u{2028}\u{2029}\u{202f}\u{205f}\u{3000}",
    );
    assert(!white.contains('i') && !white.contains('e'));
    assert(line.len() > 0);
    assert(line[0] == line.subrange(0, 7)[0]);
    assert(line[0] == 'i' || line[0] == 'e');
    lemma_indented(space, line, white);
    let whole = space + line;
    assert(!whole.contains('\n')) by {
        if whole.contains('\n') {
            let k = choose|k: int| 0 <= k < whole.len() && whole[k] == '\n';
            if k < space.len() {
                assert(space[k] == '\n');
            } else {
                assert(line[k - space.len()] == '\n');
            }
        }
    }
    text::lemma_pieces_single(whole, '\n');
    text::lemma_pieces_concat(before, whole, '\n');
    text::lemma_pieces_concat(whole, after, '\n');
    let a = pieces(whole, '\n');
    assert(a[0] == whole);
    let b = pieces(before.push('\n') + whole, '\n');
    assert(b[pieces(before, '\n').len() as int] == whole);
    let c = pieces(whole.push('\n') + after, '\n');
    assert(c[0] == whole);
}

proof fn lemma_indented(space: Seq<char>, line: Seq<char>, set: Seq<char>)
    requires
        forall|i: int| 0 <= i < space.len() ==> set.contains(#[trigger] space[i]),
        line.len() > 0,
        !set.contains(line[0]),
    ensures
        text::trimmed_start(space + line, set) == line,
    decreases space.len(),
{
    if space.len() == 0 {
        assert(space + line =~= line);
    } else {
        assert(set.contains(space[0]));
        assert((space + line)[0] == space[0]);
        assert((space + line).drop_first() =~= space.drop_first() + line);
        assert forall|i: int| 0 <= i < space.drop_first().len() implies set.contains(
            #[trigger] space.drop_first()[i],
        ) by {
            assert(space.drop_first()[i] == space[i + 1]);
        }
        lemma_indented(space.drop_first(), line, set);
    }
}

proof fn lemma_template_tail()
    ensures
        "{body}\n\nexport default module.exports;\n"@.is_suffix_of(ESM_WRAPPER_TEMPLATE@),
        ESM_WRAPPER_TEMPLATE@.len() > 60,
        forall|j: int|
            ESM_WRAPPER_TEMPLATE@.len() - 47 < j < ESM_WRAPPER_TEMPLATE@.len() - 39
                ==> #[trigger] ESM_WRAPPER_TEMPLATE@[j] != '{',
{
    reveal_strlit("{body}\n\nexport default module.exports;\n");
    reveal_strlit(
        "// Generated by web_modules: `{target}` is CommonJS, which a browser cannot\n// import as a module. Its body runs below inside a module/exports scaffold, and\n// whatever it assigns becomes this module's default export.\n//\n// Only the default export is provided: what a CommonJS entry attaches to\n// `exports` is not knowable statically, so named imports cannot be offered.\nconst module = { exports: {} };\nconst exports = module.exports;\n\n{body}\n\nexport default module.exports;\n",
    );
    let t = ESM_WRAPPER_TEMPLATE@;
    let e = "{body}\n\nexport default module.exports;\n"@;
    assert(t.subrange(t.len() - e.len(), t.len() as int) =~= e);
}

/// The end of the template: where the body goes, and the export behind it.
spec fn template_end() -> Seq<char> {
    "{body}\n\nexport default module.exports;\n"@
}

proof fn lemma_template_end_chars()
    ensures
        template_end().len() == 39,
        template_end()[0] == '{',
        template_end()[1] == 'b',
        forall|k: int| 0 < k < 39 ==> #[trigger] template_end()[k] != '{',
        template_end().take(6) == "{body}"@,
        template_end().skip(6) == "\n\nexport default module.exports;\n"@,
{
    reveal_strlit("{body}\n\nexport default module.exports;\n");
    reveal_strlit("\n\nexport default module.exports;\n");
    reveal_strlit("{body}");
    assert(template_end().take(6) =~= "{body}"@);
    assert(template_end().skip(6) =~= "\n\nexport default module.exports;\n"@);
}

proof fn lemma_needs_brace(s: Seq<char>, needle: Seq<char>, j: int)
    requires
        needle.len() > 1,
        text::occurs_at(s, needle, j),
    ensures
        s[j] == needle[0],
        s[j + 1] == needle[1],
{
    assert(s.subrange(j, j + needle.len())[0] == s[j]);
    assert(s.subrange(j, j + needle.len())[1] == s[j + 1]);
}

proof fn lemma_target_leaves_the_end(target: Seq<char>)
    ensures
        template_end().is_suffix_of(text::replaced(ESM_WRAPPER_TEMPLATE@, "{target}"@, target)),
{
    lemma_template_tail();
    lemma_template_end_chars();
    let t = ESM_WRAPPER_TEMPLATE@;
    let e = template_end();
    let name = "{target}"@;
    assert(name.len() == 8 && name[0] == '{' && name[1] == 't') by {
        reveal_strlit("{target}");
    }
    let n = t.len() - e.len();
    assert(t.skip(n) =~= e);
    assert forall|j: int| n <= j < t.len() implies t[j] == e[j - n] by {
        assert(t.skip(n)[j - n] == t[j]);
    }
    assert forall|j: int| n - name.len() < j < n implies !text::occurs_at(t, name, j) by {
        if text::occurs_at(t, name, j) {
            lemma_needs_brace(t, name, j);
        }
    }
    text::law_replaced_tail(t, name, target, n);
    assert forall|j: int| n <= j < t.len() implies !text::occurs_at(t, name, j) by {
        if text::occurs_at(t, name, j) {
            lemma_needs_brace(t, name, j);
            assert(t[j] == e[j - n] && t[j + 1] == e[j + 1 - n]);
        }
    }
    text::law_nothing_to_replace(t, name, target, n);
}

proof fn lemma_body_before_the_export(s: Seq<char>, kept: Seq<char>)
    requires
        template_end().is_suffix_of(s),
    ensures
        text::has(text::replaced(s, "{body}"@, kept), kept),
        "\n\nexport default module.exports;\n"@.is_suffix_of(text::replaced(s, "{body}"@, kept)),
{
    lemma_template_end_chars();
    let e = template_end();
    let hole = "{body}"@;
    assert(hole.len() == 6 && hole[0] == '{' && hole[1] == 'b') by {
        assert(e.take(6)[0] == e[0] && e.take(6)[1] == e[1]);
    }
    let at = s.len() - e.len();
    assert(s.skip(at) =~= e);
    assert(s.subrange(at, at + 6) =~= e.take(6));
    assert(text::occurs_at(s, hole, at));
    text::law_replacement_stands(s, hole, kept, at);
    let m = at + 6;
    assert forall|j: int| at < j < s.len() implies !text::occurs_at(s, hole, j) by {
        if text::occurs_at(s, hole, j) {
            lemma_needs_brace(s, hole, j);
            assert(s.skip(at)[j - at] == s[j]);
            assert(e[j - at] == '{');
        }
    }
    text::law_replaced_tail(s, hole, kept, m);
    text::law_nothing_to_replace(s, hole, kept, m);
    assert(s.skip(m) =~= e.skip(6)) by {
        assert forall|k: int| 0 <= k < 33 implies s.skip(m)[k] == e.skip(6)[k] by {
            assert(s.skip(at)[k + 6] == s[at + k + 6]);
        }
    }
}

/// Whatever the target is called, the wrapper holds the body without its trailing white space, and
/// ends by exporting what the body has assigned.
pub proof fn law_wrapper_runs_the_body(target: Seq<char>, body: Seq<char>)
    ensures
        text::has(wrapper_source(target, body), text::trimmed_end(body, text::white())),
        "\n\nexport default module.exports;\n"@.is_suffix_of(wrapper_source(target, body)),
{
    lemma_target_leaves_the_end(target);
    lemma_body_before_the_export(
        text::replaced(ESM_WRAPPER_TEMPLATE@, "{target}"@, target),
        text::trimmed_end(body, text::white()),
    );
}

} // verus!
