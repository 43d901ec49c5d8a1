//! HTML templating via Tera, primarily to render an `index.html` shell with the generated
//! import map injected.

use vstd::prelude::*;

use crate::build::hazards;
use crate::build::hazards::steady;
use crate::build::tags;
use crate::error::{Error, Failure};
use crate::importmap::{document, script_tag, Importmap};
use crate::json;
use crate::sorted_map::{ascending, lemma_map_of, map_of, ByText, KeyOrder, SortedMap};
use crate::text;

verus! {

/// The variables that a template is rendered with. A variable holds a text: that is all that a
/// page is given.
#[derive(Debug, PartialEq, Eq)]
pub struct Context {
    variables: SortedMap<ByText, String>,
}

impl View for Context {
    type V = Map<Seq<char>, Seq<char>>;

    closed spec fn view(&self) -> Map<Seq<char>, Seq<char>> {
        self.variables@.map_values(|value: String| value@)
    }
}

impl Context {
    /// No variables.
    pub fn new() -> (r: Self)
        ensures
            r@ == Map::<Seq<char>, Seq<char>>::empty(),
    {
        let r = Context { variables: SortedMap::new() };
        assert(r@ =~= Map::<Seq<char>, Seq<char>>::empty());
        r
    }

    /// Set one variable, replacing any earlier value of it.
    pub fn insert(&mut self, name: &str, value: &str)
        ensures
            final(self)@ == old(self)@.insert(name@, value@),
    {
        let ghost before = self@;
        self.variables.insert(name.to_owned(), value.to_owned());
        assert(self@ =~= before.insert(name@, value@));
    }

    /// The variables that hold a text which is not made of single characters.
    fn odd(&self) -> (r: Vec<String>)
        ensures
            text::texts(r@).to_set() == odd_values(self@),
    {
        let entries = self.variables.entries();
        proof {
            lemma_map_of::<ByText, String>(entries@);
        }
        let mut out: Vec<String> = Vec::new();
        let ghost mut from: Seq<int> = Seq::empty();
        let mut i: usize = 0;
        while i < entries.len()
            invariant
                i <= entries@.len(),
                from.len() == out@.len(),
                forall|k: int|
                    0 <= k < from.len() ==> 0 <= #[trigger] from[k] < i && out@[k]@
                        == entries@[from[k]].0@ && !tags::single(entries@[from[k]].1@),
                forall|m: int|
                    0 <= m < i && !tags::single((#[trigger] entries@[m]).1@) ==> text::texts(
                        out@,
                    ).contains(entries@[m].0@),
            decreases entries@.len() - i,
        {
            let ghost before = out@;
            if !tags::is_single(entries[i].1.as_str()) {
                let name = entries[i].0.clone();
                out.push(name);
                proof {
                    let ghost was = from;
                    from = from.push(i as int);
                    text::lemma_texts_push(before, name);
                    assert(text::texts(out@)[before.len() as int] == name@);
                    assert(text::texts(out@).contains(entries@[i as int].0@));
                    assert forall|m: int|
                        0 <= m < i && !tags::single((#[trigger] entries@[m]).1@) implies text::texts(
                        out@,
                    ).contains(entries@[m].0@) by {
                        let k = text::texts(before).index_of(entries@[m].0@);
                        assert(text::texts(out@)[k] == text::texts(before)[k]);
                    }
                    assert forall|k: int| 0 <= k < from.len() implies 0 <= #[trigger] from[k] < i + 1
                        && out@[k]@ == entries@[from[k]].0@ && !tags::single(
                        entries@[from[k]].1@,
                    ) by {
                        if k < was.len() {
                            assert(from[k] == was[k]);
                            assert(out@[k] == before[k]);
                        }
                    }
                }
            }
            i += 1;
        }
        proof {
            lemma_map_of::<ByText, String>(entries@);
            let found = text::texts(out@).to_set();
            assert forall|name: Seq<char>| #[trigger] found.contains(name) == odd_values(
                self@,
            ).contains(name) by {
                if found.contains(name) {
                    let k = choose|k: int| 0 <= k < out@.len() && text::texts(out@)[k] == name;
                    let m = from[k];
                    assert(out@[k]@ == entries@[m].0@);
                    assert(ByText::key(entries@[m].0@) == name);
                    assert(self.variables@.contains_key(name));
                    assert(self.variables@[name] == entries@[m].1);
                }
                if odd_values(self@).contains(name) {
                    assert(self.variables@.contains_key(name));
                    let m = choose|m: int|
                        0 <= m < entries@.len() && ByText::key((#[trigger] entries@[m]).0@) == name;
                    assert(self.variables@[ByText::key(entries@[m].0@)] == entries@[m].1);
                    assert(entries@[m].0@ == name);
                }
            }
            assert(found =~= odd_values(self@));
        }
        out
    }
}

/// The variables that hold a text which is not made of single characters.
pub open spec fn odd_values(variables: Map<Seq<char>, Seq<char>>) -> Set<Seq<char>> {
    Set::new(|name: Seq<char>| variables.contains_key(name) && !tags::single(variables[name]))
}

/// Tera renders the template with these variables, or says why not, without a panic and
/// without end.
pub open spec fn fit(template: Seq<char>, variables: Map<Seq<char>, Seq<char>>) -> bool {
    hazards::renderable(template, odd_values(variables))
}

/// A text without a tag.
pub open spec fn tagless(template: Seq<char>) -> bool {
    !template.contains('{')
}

/// A tag that stands for the import-map element.
pub open spec fn placeholder(tag: Seq<char>) -> bool {
    tag == "{{ importmap }}"@ || tag == "{{ importmap | safe }}"@
}

/// What a plain template renders as: a text without a tag as it stands, and one whose only
/// tag is a [`placeholder`] with the value of `importmap` in its place, verbatim.
pub open spec fn plain_page(
    template: Seq<char>,
    variables: Map<Seq<char>, Seq<char>>,
    page: Seq<char>,
) -> bool {
    ||| tagless(template) && page == template
    ||| variables.contains_key("importmap"@) && exists|
        head: Seq<char>,
        tag: Seq<char>,
        tail: Seq<char>,
    |
        tagless(head) && placeholder(tag) && tagless(tail) && template == #[trigger] filled(
            head,
            tag,
            tail,
        ) && page == filled(head, variables["importmap"@], tail)
}

/// A text between what stands before and after it.
pub open spec fn filled(head: Seq<char>, middle: Seq<char>, tail: Seq<char>) -> Seq<char> {
    head + middle + tail
}

/// What Tera makes of a [`steady`] template and its variables: a page, or the text of its
/// complaint.
pub uninterp spec fn tera_page(
    template: Seq<char>,
    variables: Map<Seq<char>, Seq<char>>,
) -> Result<Seq<char>, Seq<char>>;

/// The contents of a rendering.
pub open spec fn rendering(r: Result<String, String>) -> Result<Seq<char>, Seq<char>> {
    match r {
        Ok(page) => Ok(page@),
        Err(e) => Err(e@),
    }
}

/// A rendering is the [`plain_page`] of its template, if there is one.
pub open spec fn plain_pages_come_out(
    template: Seq<char>,
    variables: Map<Seq<char>, Seq<char>>,
    r: Result<Seq<char>, Seq<char>>,
) -> bool {
    forall|page: Seq<char>| #[trigger]
        plain_page(template, variables, page) ==> (r matches Ok(p) && p == page)
}

/// Calls `tera::Tera::one_off` without autoescaping, on a `tera::Context` of the given
/// variables. It is called on templates that are [`fit`] for it only: on others it may panic
/// or never come back. A [`plain_page`] comes out as it says. A [`steady`] template gives
/// [`tera_page`]. Of a template that reads the clock, chance or the environment, or that rests
/// on an order that is not fixed, nothing else is claimed.
#[verifier::external_body]
fn one_off(template: &str, context: &Context) -> (r: Result<String, String>)
    requires
        fit(template@, context@),
    ensures
        steady(template@) ==> rendering(r) == tera_page(template@, context@),
        plain_pages_come_out(template@, context@, rendering(r)),
{
    let mut given = tera::Context::new();
    for (name, value) in context.variables.entries() {
        given.insert(name, value);
    }
    tera::Tera::one_off(template, &given, false).map_err(|e| e.to_string())
}

/// Render a template string with `context`. Autoescaping is **off** so injected HTML (an
/// import-map `<script>`, `<link>` tags) is emitted verbatim; use Tera's `| escape` filter on
/// any untrusted values you insert. A template that does not render is a template error, and
/// so is one that is not [`fit`] to be rendered.
pub fn render_str(template: &str, context: &Context) -> (r: Result<String, Error>)
    ensures
        match r {
            Ok(page) => {
                &&& fit(template@, context@)
                &&& steady(template@) ==> tera_page(template@, context@) == Ok::<
                    Seq<char>,
                    Seq<char>,
                >(page@)
                &&& forall|plain: Seq<char>| #[trigger]
                    plain_page(template@, context@, plain) ==> page@ == plain
            },
            Err(e) => {
                &&& e@ matches Failure::Template(m) && if fit(template@, context@) {
                    steady(template@) ==> tera_page(template@, context@) == Err::<
                        Seq<char>,
                        Seq<char>,
                    >(m)
                } else {
                    m == unfit()
                }
                &&& forall|plain: Seq<char>| !#[trigger] plain_page(template@, context@, plain)
            },
        },
{
    if !hazards::is_renderable(template, &context.odd()) {
        assert forall|plain: Seq<char>| !#[trigger] plain_page(template@, context@, plain) by {
            if plain_page(template@, context@, plain) {
                lemma_plain_pages_fit(template@, context@, plain);
            }
        }
        return Err(
            Error::Template(
                "the template asks for what cannot be rendered safely".to_owned(),
            ),
        );
    }
    match one_off(template, context) {
        Ok(page) => Ok(page),
        Err(e) => Err(Error::Template(e)),
    }
}

/// What is said of a template that is not [`fit`].
pub open spec fn unfit() -> Seq<char> {
    "the template asks for what cannot be rendered safely"@
}

/// Every plain page is fit to be rendered, and rests on its text and its variables alone.
proof fn lemma_plain_pages_fit(
    template: Seq<char>,
    variables: Map<Seq<char>, Seq<char>>,
    page: Seq<char>,
)
    requires
        plain_page(template, variables, page),
    ensures
        fit(template, variables),
        steady(template),
{
    if tagless(template) {
        hazards::lemma_tagless_renderable(template, odd_values(variables));
    } else {
        let (head, tag, tail) = choose|head: Seq<char>, tag: Seq<char>, tail: Seq<char>|
            tagless(head) && placeholder(tag) && tagless(tail) && template == #[trigger] filled(
                head,
                tag,
                tail,
            ) && page == filled(head, variables["importmap"@], tail);
        hazards::lemma_placeholder_renderable(head, tag, tail, odd_values(variables));
    }
}

/// A page whose only tag is a placeholder carries the element it is given in that place,
/// verbatim, and is otherwise as written.
pub proof fn law_element_is_injected_verbatim(
    head: Seq<char>,
    tag: Seq<char>,
    tail: Seq<char>,
    element: Seq<char>,
)
    requires
        tagless(head),
        placeholder(tag),
        tagless(tail),
    ensures
        plain_page(
            filled(head, tag, tail),
            Map::<Seq<char>, Seq<char>>::empty().insert("importmap"@, element),
            filled(head, element, tail),
        ),
        fit(
            filled(head, tag, tail),
            Map::<Seq<char>, Seq<char>>::empty().insert("importmap"@, element),
        ),
        steady(filled(head, tag, tail)),
{
    lemma_plain_pages_fit(
        filled(head, tag, tail),
        Map::<Seq<char>, Seq<char>>::empty().insert("importmap"@, element),
        filled(head, element, tail),
    );
}

/// The context every page template renders with: the single `importmap` variable, holding
/// the given element.
pub fn tag_context(tag: &str) -> (r: Context)
    ensures
        r@ == Map::<Seq<char>, Seq<char>>::empty().insert("importmap"@, tag@),
{
    let mut context = Context::new();
    context.insert("importmap", tag);
    context
}

/// The context every page template renders with: the single `importmap` variable, holding the
/// map's inline `<script>` element. One constructor, so the build's template step, the
/// `--template` fallback, and the dev server cannot diverge in what a template sees.
pub fn importmap_context(importmap: &Importmap) -> (r: Context)
    ensures
        r@ == Map::<Seq<char>, Seq<char>>::empty().insert(
            "importmap"@,
            script_tag(json::markup_escaped(json::json_compact(document(importmap@)))),
        ),
{
    tag_context(importmap.to_script_tag().as_str())
}

/// The two spellings of the import-map tag, and a page is whatever its template is when there is no
/// tag in it.
pub proof fn law_plain_pages(template: Seq<char>, variables: Map<Seq<char>, Seq<char>>, page: Seq<char>)
    ensures
        placeholder("{{ importmap }}"@) && placeholder("{{ importmap | safe }}"@),
        !template.contains('{') ==> plain_page(template, variables, template),
        plain_page(template, variables, page) && !template.contains('{') ==> page == template,
{
    if plain_page(template, variables, page) && !template.contains('{') && page != template {
        let (head, tag, tail) = choose|head: Seq<char>, tag: Seq<char>, tail: Seq<char>|
            tagless(head) && placeholder(tag) && tagless(tail) && template == #[trigger] filled(
                head,
                tag,
                tail,
            ) && page == filled(head, variables["importmap"@], tail);
        reveal_strlit("{{ importmap }}");
        reveal_strlit("{{ importmap | safe }}");
        assert(tag[0] == '{');
        assert(template[head.len() as int] == '{');
    }
}

} // verus!
