//! What in a Tera template can make rendering panic or go on for ever, and the templates that
//! hold none of it.

use vstd::prelude::*;

use crate::build::tags::{
    all_places, argument, at, blank, body, bracket_follows, call_at, closes, count_digits, digit,
    digits_before, ended_by, ends, filter_at, find_before, find_name_end, find_name_start,
    find_string_end, find_text_argument, ident_char, inner, is_at, is_blank, is_call, is_called, is_digit, is_end,
    is_ended_by, is_filter, is_ident_char, is_letter, is_part, is_quote, is_single, is_statement,
    is_word, last_before, lemma_tag_run, lemma_text_run, letter, lone, name, name_end, name_start,
    opens, places, quote, read_argument, read_name, read_string, read_tags, single, skip,
    skip_blanks, statement_at, string, string_end, tags, text_argument, word_at,
};
use crate::text;
use crate::text::occurs_at;

verus! {

// ---------------------------------------------------------------------------
// Marks
// ---------------------------------------------------------------------------

/// What a tag can hold that bears on whether rendering it panics.
#[derive(Clone, Copy, Debug, PartialEq, Eq)]
pub enum Mark {
    /// A statement that reaches for another template by its name.
    Reach,
    /// A statement that begins a block.
    Block,
    /// A call of `super`, which looks for the block that it stands in.
    Super,
    /// A condition.
    Branch,
    /// A statement that begins a section to be filtered.
    Section,
    /// A statement that begins a macro.
    Opening,
    /// A statement that ends a macro.
    Closing,
    /// A call of a macro.
    Call,
    /// What computes with numbers or compares them.
    Operator,
    /// A call of `range`.
    Range,
    /// A step that is not known to be positive.
    Step,
    /// A call of `get_random`.
    Chance,
    /// A call of `get_random` on bounds that are not known to be in order.
    Random,
    /// A number base that is not known to be one.
    Base,
    /// The filter `int`.
    Whole,
    /// The filter `int` with arguments.
    Based,
    /// The filter `float`.
    Parsed,
    /// A precision that is not known to be positive.
    Precision,
    /// What can make a fraction.
    Fraction,
    /// A product or a quotient.
    Product,
    /// A sum or a difference, or a minus sign.
    Sum,
    /// What can make a negative number.
    Negative,
    /// A remainder by what is not known to be positive.
    Remainder,
    /// The filter `abs`.
    Absolute,
    /// A number of ten digits or more.
    Long,
    /// A number of thirteen digits or more.
    Stamp,
    /// A decimal number so long that it may be infinite.
    Endless,
    /// The filter `date`.
    Date,
    /// A loop.
    Loop,
    /// A call of `get_env`.
    Environment,
    /// A call of `now`.
    Clock,
    /// A text put together.
    Join,
    /// A filter.
    Filter,
    /// A negation.
    Negation,
    /// Two conditions in one.
    Junction,
    /// The test `containing` without an argument.
    Containing,
    /// A list that stands where a test takes an argument.
    Listed,
    /// An index that is a text which cannot be followed.
    Index,
    /// An index that is a variable.
    Lookup,
    /// An attribute that is not known to be a text that can be followed.
    Attribute,
    /// A statement that sets a variable from within a loop.
    Global,
    /// The variable that holds all variables.
    Dump,
    /// The filter `truncate`.
    Truncate,
    /// A string that is not [`single`].
    Wide,
    /// A name that is given a value.
    Binder,
}

/// The arguments that begin at place `i` are an upper bound above zero, or two bounds in order.
pub open spec fn ordered_bounds(t: Seq<char>, i: int) -> bool {
    match (argument(t, i, "end"@), argument(t, i, "start"@)) {
        (Some((end, next)), _) => if at(t, next, ')') {
            end > 0
        } else {
            match argument(t, skip(t, next + 1), "start"@) {
                Some((start, last)) => at(t, last, ')') && start < end,
                None => false,
            }
        },
        (None, Some((start, next))) => match argument(t, skip(t, next + 1), "end"@) {
            Some((end, last)) => at(t, next, ',') && at(t, last, ')') && start < end,
            None => false,
        },
        (None, None) => false,
    }
}

fn are_ordered_bounds(t: &Vec<char>, i: usize) -> (r: bool)
    ensures
        r == ordered_bounds(t@, i as int),
{
    let _n: usize = t.len();
    match read_argument(t, i, "end") {
        Some((end, next)) => {
            if is_at(t, next, 0, ')') {
                return end > 0;
            }
            match read_argument(t, skip_blanks(t, next + 1), "start") {
                Some((start, last)) => is_at(t, last, 0, ')') && start < end,
                None => false,
            }
        },
        None => match read_argument(t, i, "start") {
            Some((start, next)) => match read_argument(t, skip_blanks(t, next + 1), "end") {
                Some((end, last)) => is_at(t, next, 0, ',') && is_at(t, last, 0, ')') && start
                    < end,
                None => false,
            },
            None => false,
        },
    }
}

/// One of the operators `and` and `or` stands at place `i`. It needs no white space before it
/// where no identifier goes on into it: behind a number, a bracket, a quote or a boolean.
pub open spec fn junction_at(t: Seq<char>, i: int) -> bool {
    &&& {
        ||| occurs_at(t, "or"@, i) && i + 2 < t.len() && blank(t[i + 2])
        ||| occurs_at(t, "and"@, i) && i + 3 < t.len() && blank(t[i + 3])
    }
    &&& {
        ||| i == 0
        ||| !letter(t[i - 1])
        ||| ended_by(t, "true"@, i - 1)
        ||| ended_by(t, "True"@, i - 1)
        ||| ended_by(t, "false"@, i - 1)
        ||| ended_by(t, "False"@, i - 1)
    }
}

fn is_junction(t: &Vec<char>, i: usize) -> (r: bool)
    requires
        i < t@.len(),
    ensures
        r == junction_at(t@, i as int),
{
    proof {
        reveal_strlit("or");
        reveal_strlit("and");
    }
    let n: usize = t.len();
    let or = is_part(t, "or", i) && 2 < n - i && is_blank(t[i + 2]);
    let and = is_part(t, "and", i) && 3 < n - i && is_blank(t[i + 3]);
    (or || and) && (i == 0 || !is_letter(t[i - 1]) || is_ended_by(t, "true", i - 1) || is_ended_by(
        t,
        "True",
        i - 1,
    ) || is_ended_by(t, "false", i - 1) || is_ended_by(t, "False", i - 1))
}

/// An index begins at place `i`: a square bracket right behind what it is taken of.
pub open spec fn index_at(t: Seq<char>, i: int) -> bool {
    at(t, i, '[') && i > 0 && (ident_char(t[i - 1]) || t[i - 1] == ']')
}

fn is_index(t: &Vec<char>, i: usize) -> (r: bool)
    requires
        i < t@.len(),
    ensures
        r == index_at(t@, i as int),
{
    t[i] == '[' && i > 0 && (is_ident_char(t[i - 1]) || t[i - 1] == ']')
}

/// The argument `attribute` is given at place `i`, and not as a string that can be followed:
/// [`single`] and without a square bracket.
pub open spec fn attribute_at(t: Seq<char>, i: int) -> bool {
    let sign = skip(t, i + 9);
    let from = skip(t, sign + 1);
    let next = skip(t, string_end(t, from + 1, t[from]) + 1);
    &&& word_at(t, "attribute"@, i)
    &&& at(t, sign, '=') && !at(t, sign + 1, '=')
    &&& !(from < t.len() && quote(t[from]) && single(string(t, from)) && !string(t, from).contains(
        '[',
    ) && (at(t, next, ',') || at(t, next, ')')))
}

fn is_attribute(t: &Vec<char>, i: usize) -> (r: bool)
    ensures
        r == attribute_at(t@, i as int),
{
    proof {
        reveal_strlit("attribute");
    }
    let n: usize = t.len();
    if !is_word(t, "attribute", i) {
        return false;
    }
    let sign = skip_blanks(t, i + 9);
    if !is_at(t, sign, 0, '=') || is_at(t, sign, 1, '=') {
        return false;
    }
    let from = skip_blanks(t, sign + 1);
    if from < n && is_quote(t[from]) {
        let s = read_string(t, from);
        let end = find_string_end(t, from + 1, t[from]);
        if end == n {
            assert(skip(t@, end + 1) == end + 1);
            return true;
        }
        let next = skip_blanks(t, end + 1);
        !(is_single(s.as_str()) && !text::has_char(s.as_str(), '[') && (is_at(t, next, 0, ',')
            || is_at(t, next, 0, ')')))
    } else {
        true
    }
}

/// An identifier begins at place `i` where it is given a value: by `set`, by a loop, or as an
/// argument.
pub open spec fn binder_at(t: Seq<char>, i: int) -> bool {
    &&& letter(t[i]) && (i > 0 ==> !ident_char(t[i - 1]))
    &&& last_before(t, i) matches Some(k) && (t[k] == '(' || t[k] == ',' || ended_by(t, "set"@, k)
        || ended_by(t, "set_global"@, k) || ended_by(t, "for"@, k))
}

fn is_binder(t: &Vec<char>, i: usize) -> (r: bool)
    requires
        i < t@.len(),
    ensures
        r == binder_at(t@, i as int),
{
    if !is_letter(t[i]) || (i > 0 && is_ident_char(t[i - 1])) {
        return false;
    }
    match find_before(t, i) {
        Some(k) => t[k] == '(' || t[k] == ',' || is_ended_by(t, "set", k) || is_ended_by(
            t,
            "set_global",
            k,
        ) || is_ended_by(t, "for", k),
        None => false,
    }
}

/// A mark stands at place `i`.
pub open spec fn mark_at(t: Seq<char>, mark: Mark, i: int) -> bool {
    match mark {
        Mark::Reach => statement_at(t, "include"@, i) || statement_at(t, "import"@, i),
        Mark::Block => statement_at(t, "block"@, i),
        Mark::Super => call_at(t, "super"@, i),
        Mark::Branch => statement_at(t, "if"@, i) || statement_at(t, "elif"@, i),
        Mark::Section => statement_at(t, "filter"@, i),
        Mark::Opening => statement_at(t, "macro"@, i),
        Mark::Closing => statement_at(t, "endmacro"@, i),
        Mark::Call => t[i] == ':' && at(t, i + 1, ':'),
        Mark::Operator => t[i] == '+' || t[i] == '-' || t[i] == '*' || t[i] == '/' || t[i] == '%'
            || t[i] == '<' || t[i] == '>',
        Mark::Range => call_at(t, "range"@, i),
        Mark::Step => word_at(t, "step_by"@, i) && !(argument(t, i, "step_by"@) matches Some((v, _))
            && v > 0),
        Mark::Chance => call_at(t, "get_random"@, i),
        Mark::Random => call_at(t, "get_random"@, i) && !ordered_bounds(
            t,
            skip(t, skip(t, i + 10) + 1),
        ),
        Mark::Base => word_at(t, "base"@, i) && !(argument(t, i, "base"@) matches Some((v, _)) && 2
            <= v <= 36),
        Mark::Whole => filter_at(t, "int"@, i),
        Mark::Based => filter_at(t, "int"@, i) && bracket_follows(t, i + 3),
        Mark::Parsed => filter_at(t, "float"@, i),
        Mark::Precision => word_at(t, "precision"@, i) && !(argument(t, i, "precision"@) matches Some(
            (v, _),
        ) && v >= 0),
        Mark::Fraction => t[i] == '/' || filter_at(t, "float"@, i) || filter_at(t, "round"@, i) || (
        t[i] == '.' && digits_before(t, i) > 0),
        Mark::Product => t[i] == '*' || t[i] == '/',
        Mark::Sum => t[i] == '+' || t[i] == '-',
        Mark::Negative => t[i] == '-' || filter_at(t, "int"@, i) || filter_at(t, "float"@, i),
        Mark::Remainder => t[i] == '%' && !(skip(t, i + 1) < t.len() && digit(t[skip(t, i + 1)])),
        Mark::Absolute => filter_at(t, "abs"@, i),
        Mark::Long => digit(t[i]) && digits_before(t, i + 1) >= 10,
        Mark::Stamp => digit(t[i]) && digits_before(t, i + 1) >= 13,
        Mark::Endless => t[i] == '.' && digits_before(t, i) > 308,
        Mark::Date => filter_at(t, "date"@, i),
        Mark::Loop => statement_at(t, "for"@, i),
        Mark::Environment => call_at(t, "get_env"@, i),
        Mark::Clock => call_at(t, "now"@, i),
        Mark::Join => t[i] == '~',
        Mark::Filter => t[i] == '|',
        Mark::Negation => word_at(t, "not"@, i),
        Mark::Junction => junction_at(t, i),
        Mark::Containing => occurs_at(t, "containing"@, i) && !(i + 10 < t.len() && ident_char(
            t[i + 10],
        )) && !bracket_follows(t, i + 10),
        Mark::Listed => t[i] == '[' && (last_before(t, i) matches Some(k) && (t[k] == '(' || t[k]
            == ',')),
        Mark::Index => index_at(t, i) && i + 1 < t.len() && quote(t[i + 1]) && (!single(
            string(t, i + 1),
        ) || text::has(string(t, i + 1), "[["@)),
        Mark::Lookup => index_at(t, i) && i + 1 < t.len() && letter(t[i + 1]),
        Mark::Attribute => attribute_at(t, i),
        Mark::Global => statement_at(t, "set_global"@, i),
        Mark::Dump => occurs_at(t, "__tera_context"@, i),
        Mark::Truncate => filter_at(t, "truncate"@, i),
        Mark::Wide => quote(t[i]) && !single(string(t, i)),
        Mark::Binder => binder_at(t, i),
    }
}

fn is_mark(t: &Vec<char>, mark: Mark, i: usize) -> (r: bool)
    requires
        i < t@.len(),
    ensures
        r == mark_at(t@, mark, i as int),
{
    let c = t[i];
    let n: usize = t.len();
    match mark {
        Mark::Reach => is_statement(t, "include", i) || is_statement(t, "import", i),
        Mark::Block => is_statement(t, "block", i),
        Mark::Super => is_call(t, "super", i),
        Mark::Branch => is_statement(t, "if", i) || is_statement(t, "elif", i),
        Mark::Section => is_statement(t, "filter", i),
        Mark::Opening => is_statement(t, "macro", i),
        Mark::Closing => is_statement(t, "endmacro", i),
        Mark::Call => c == ':' && is_at(t, i, 1, ':'),
        Mark::Operator => c == '+' || c == '-' || c == '*' || c == '/' || c == '%' || c == '<' || c
            == '>',
        Mark::Range => is_call(t, "range", i),
        Mark::Step => {
            if is_word(t, "step_by", i) {
                match read_argument(t, i, "step_by") {
                    Some((v, _)) => !(v > 0),
                    None => true,
                }
            } else {
                false
            }
        },
        Mark::Chance => is_call(t, "get_random", i),
        Mark::Random => {
            proof {
                reveal_strlit("get_random");
            }
            if is_call(t, "get_random", i) {
                let open = skip_blanks(t, i + 10);
                !are_ordered_bounds(t, skip_blanks(t, open + 1))
            } else {
                false
            }
        },
        Mark::Base => {
            if is_word(t, "base", i) {
                match read_argument(t, i, "base") {
                    Some((v, _)) => !(2 <= v && v <= 36),
                    None => true,
                }
            } else {
                false
            }
        },
        Mark::Whole => is_filter(t, "int", i),
        Mark::Based => {
            proof {
                reveal_strlit("int");
            }
            is_filter(t, "int", i) && is_called(t, i + 3)
        },
        Mark::Parsed => is_filter(t, "float", i),
        Mark::Precision => {
            if is_word(t, "precision", i) {
                match read_argument(t, i, "precision") {
                    Some((v, _)) => !(v >= 0),
                    None => true,
                }
            } else {
                false
            }
        },
        Mark::Fraction => c == '/' || is_filter(t, "float", i) || is_filter(t, "round", i) || (c
            == '.' && count_digits(t, i) > 0),
        Mark::Product => c == '*' || c == '/',
        Mark::Sum => c == '+' || c == '-',
        Mark::Negative => c == '-' || is_filter(t, "int", i) || is_filter(t, "float", i),
        Mark::Remainder => {
            if c == '%' {
                let next = skip_blanks(t, i + 1);
                !(next < n && is_digit(t[next]))
            } else {
                false
            }
        },
        Mark::Absolute => is_filter(t, "abs", i),
        Mark::Long => is_digit(c) && count_digits(t, i + 1) >= 10,
        Mark::Stamp => is_digit(c) && count_digits(t, i + 1) >= 13,
        Mark::Endless => c == '.' && count_digits(t, i) > 308,
        Mark::Date => is_filter(t, "date", i),
        Mark::Loop => is_statement(t, "for", i),
        Mark::Environment => is_call(t, "get_env", i),
        Mark::Clock => is_call(t, "now", i),
        Mark::Join => c == '~',
        Mark::Filter => c == '|',
        Mark::Negation => is_word(t, "not", i),
        Mark::Junction => is_junction(t, i),
        Mark::Containing => {
            proof {
                reveal_strlit("containing");
            }
            if is_part(t, "containing", i) {
                let end = i + 10;
                !(end < n && is_ident_char(t[end])) && !is_called(t, end)
            } else {
                false
            }
        },
        Mark::Listed => {
            if c == '[' {
                match find_before(t, i) {
                    Some(k) => t[k] == '(' || t[k] == ',',
                    None => false,
                }
            } else {
                false
            }
        },
        Mark::Index => {
            if is_index(t, i) && 1 < n - i && is_quote(t[i + 1]) {
                let s = read_string(t, i + 1);
                !is_single(s.as_str()) || text::contains(s.as_str(), "[[")
            } else {
                false
            }
        },
        Mark::Lookup => is_index(t, i) && 1 < n - i && is_letter(t[i + 1]),
        Mark::Attribute => is_attribute(t, i),
        Mark::Global => is_statement(t, "set_global", i),
        Mark::Dump => is_part(t, "__tera_context", i),
        Mark::Truncate => is_filter(t, "truncate", i),
        Mark::Wide => {
            if is_quote(c) {
                let s = read_string(t, i);
                !is_single(s.as_str())
            } else {
                false
            }
        },
        Mark::Binder => is_binder(t, i),
    }
}

// ---------------------------------------------------------------------------
// Where marks stand
// ---------------------------------------------------------------------------

/// The places of one tag where a mark stands, in order.
pub open spec fn spots_in(t: Seq<char>, tag: Seq<int>, mark: Mark) -> Seq<int>
    decreases tag.len(),
{
    if tag.len() == 0 {
        Seq::empty()
    } else {
        let before = spots_in(t, tag.drop_last(), mark);
        if mark_at(t, mark, tag.last()) {
            before.push(tag.last())
        } else {
            before
        }
    }
}

/// The places of some tags where a mark stands, in order.
pub open spec fn spots_of(t: Seq<char>, tags: Seq<Seq<int>>, mark: Mark) -> Seq<int>
    decreases tags.len(),
{
    if tags.len() == 0 {
        Seq::empty()
    } else {
        spots_of(t, tags.drop_last(), mark) + spots_in(t, tags.last(), mark)
    }
}

/// The places of a template where a mark stands in a tag, outside its strings, in order.
pub open spec fn spots(t: Seq<char>, mark: Mark) -> Seq<int> {
    spots_of(t, tags(t, 0), mark)
}

/// A mark stands in a tag of the template.
pub open spec fn shows(t: Seq<char>, mark: Mark) -> bool {
    spots(t, mark).len() > 0
}

/// A mark stands in one tag.
pub open spec fn shows_in(t: Seq<char>, tag: Seq<int>, mark: Mark) -> bool {
    spots_in(t, tag, mark).len() > 0
}

/// Every index in a list is one of a text of this length.
pub open spec fn within(v: Seq<usize>, len: nat) -> bool {
    forall|k: int| 0 <= k < v.len() ==> #[trigger] v[k] < len
}

/// Lists of indices hold the tags of a template.
pub open spec fn holds_tags(t: Seq<char>, v: Seq<Vec<usize>>) -> bool {
    &&& all_places(v) == tags(t, 0)
    &&& forall|j: int| 0 <= j < v.len() ==> within((#[trigger] v[j])@, t.len())
}

fn find_spots_in(t: &Vec<char>, tag: &Vec<usize>, mark: Mark) -> (r: Vec<usize>)
    requires
        within(tag@, t@.len()),
    ensures
        places(r@) == spots_in(t@, places(tag@), mark),
        within(r@, t@.len()),
{
    let mut out: Vec<usize> = Vec::new();
    let ghost all = places(tag@);
    let mut i: usize = 0;
    assert(places(out@) =~= spots_in(t@, all.take(0), mark));
    while i < tag.len()
        invariant
            i <= tag@.len(),
            all == places(tag@),
            within(tag@, t@.len()),
            within(out@, t@.len()),
            places(out@) == spots_in(t@, all.take(i as int), mark),
        decreases tag@.len() - i,
    {
        let k = tag[i];
        proof {
            let now = all.take(i + 1);
            assert(now.drop_last() =~= all.take(i as int));
            assert(now.last() == k);
        }
        let ghost before = places(out@);
        if is_mark(t, mark, k) {
            out.push(k);
            assert(places(out@) =~= before.push(k as int));
        }
        i += 1;
    }
    assert(all.take(i as int) =~= all);
    out
}

fn find_spots(t: &Vec<char>, tags: &Vec<Vec<usize>>, mark: Mark) -> (r: Vec<usize>)
    requires
        holds_tags(t@, tags@),
    ensures
        places(r@) == spots(t@, mark),
        within(r@, t@.len()),
{
    let mut out: Vec<usize> = Vec::new();
    let ghost all = all_places(tags@);
    let mut j: usize = 0;
    assert(places(out@) =~= spots_of(t@, all.take(0), mark));
    while j < tags.len()
        invariant
            j <= tags@.len(),
            all == all_places(tags@),
            holds_tags(t@, tags@),
            within(out@, t@.len()),
            places(out@) == spots_of(t@, all.take(j as int), mark),
        decreases tags@.len() - j,
    {
        let mut more = find_spots_in(t, &tags[j], mark);
        proof {
            let now = all.take(j + 1);
            assert(now.drop_last() =~= all.take(j as int));
            assert(now.last() == places(tags@[j as int]@));
        }
        let ghost before = out@;
        let ghost added = more@;
        out.append(&mut more);
        assert(places(out@) =~= places(before) + places(added));
        j += 1;
    }
    assert(all.take(j as int) =~= all);
    out
}

fn does_show(t: &Vec<char>, tags: &Vec<Vec<usize>>, mark: Mark) -> (r: bool)
    requires
        holds_tags(t@, tags@),
    ensures
        r == shows(t@, mark),
{
    let found = find_spots(t, tags, mark);
    assert(places(found@).len() == found@.len());
    found.len() > 0
}

fn does_show_in(t: &Vec<char>, tag: &Vec<usize>, mark: Mark) -> (r: bool)
    requires
        within(tag@, t@.len()),
    ensures
        r == shows_in(t@, places(tag@), mark),
{
    let found = find_spots_in(t, tag, mark);
    assert(places(found@).len() == found@.len());
    found.len() > 0
}

/// The identifier at place `i` is one that the template gives a value somewhere.
pub open spec fn bound(t: Seq<char>, i: int) -> bool {
    exists|k: int|
        #![trigger spots(t, Mark::Binder)[k]]
        0 <= k < spots(t, Mark::Binder).len() && name(t, spots(t, Mark::Binder)[k]) == name(t, i)
}

/// Whether one of the identifiers at some places is the one at place `i`.
fn is_named(t: &Vec<char>, found: &Vec<usize>, i: usize) -> (r: bool)
    requires
        within(found@, t@.len()),
        i <= t@.len(),
    ensures
        r == exists|k: int|
            #![trigger places(found@)[k]]
            0 <= k < places(found@).len() && name(t@, places(found@)[k]) == name(t@, i as int),
{
    let wanted = read_name(t, i);
    let ghost all = places(found@);
    let mut k: usize = 0;
    while k < found.len()
        invariant
            k <= found@.len(),
            all == places(found@),
            within(found@, t@.len()),
            wanted@ == name(t@, i as int),
            forall|m: int| 0 <= m < k ==> name(t@, #[trigger] all[m]) != wanted@,
        decreases found@.len() - k,
    {
        let there = read_name(t, found[k]);
        assert(all[k as int] == found@[k as int]);
        if text::same(there.as_str(), wanted.as_str()) {
            return true;
        }
        k += 1;
    }
    false
}

// ---------------------------------------------------------------------------
// Blocks and macros
// ---------------------------------------------------------------------------

/// The identifier behind the five letters at place `i`: what a block or a macro is called.
pub open spec fn title(t: Seq<char>, i: int) -> Seq<char> {
    if i + 5 <= t.len() {
        name(t, skip(t, i + 5))
    } else {
        Seq::empty()
    }
}

fn read_title(t: &Vec<char>, i: usize) -> (r: String)
    requires
        i <= t@.len(),
    ensures
        r@ == title(t@, i as int),
{
    let n: usize = t.len();
    if 5 <= n - i {
        read_name(t, skip_blanks(t, i + 5))
    } else {
        let none: Vec<char> = Vec::new();
        let r = text::text(&none);
        assert(r@ =~= Seq::<char>::empty());
        r
    }
}

/// Two blocks have one name.
pub open spec fn block_repeats(t: Seq<char>) -> bool {
    let found = spots(t, Mark::Block);
    exists|a: int, b: int|
        #![trigger found[a], found[b]]
        0 <= a < b < found.len() && title(t, found[a]) == title(t, found[b])
}

fn does_block_repeat(t: &Vec<char>, tags: &Vec<Vec<usize>>) -> (r: bool)
    requires
        holds_tags(t@, tags@),
    ensures
        r == block_repeats(t@),
{
    let v = find_spots(t, tags, Mark::Block);
    let ghost found = spots(t@, Mark::Block);
    assert(found.len() == v@.len());
    let mut b: usize = 0;
    while b < v.len()
        invariant
            b <= v@.len(),
            within(v@, t@.len()),
            found == spots(t@, Mark::Block),
            found == places(v@),
            forall|m: int, k: int|
                #![trigger found[m], found[k]]
                0 <= m < k < b ==> title(t@, found[m]) != title(t@, found[k]),
        decreases v@.len() - b,
    {
        let name = read_title(t, v[b]);
        assert(found[b as int] == v@[b as int]);
        let mut a: usize = 0;
        while a < b
            invariant
                a <= b < v@.len(),
                within(v@, t@.len()),
                found == spots(t@, Mark::Block),
                found == places(v@),
                name@ == title(t@, found[b as int]),
                forall|m: int|
                    #![trigger found[m]]
                    0 <= m < a ==> title(t@, found[m]) != name@,
            decreases b - a,
        {
            let other = read_title(t, v[a]);
            assert(found[a as int] == v@[a as int]);
            if text::same(other.as_str(), name.as_str()) {
                return true;
            }
            a += 1;
        }
        b += 1;
    }
    false
}

/// The name of the macro that is called at place `i`.
pub open spec fn callee(t: Seq<char>, i: int) -> Seq<char> {
    if i + 2 <= t.len() {
        name(t, skip(t, i + 2))
    } else {
        Seq::empty()
    }
}

fn read_callee(t: &Vec<char>, i: usize) -> (r: String)
    requires
        i <= t@.len(),
    ensures
        r@ == callee(t@, i as int),
{
    let n: usize = t.len();
    if 2 <= n - i {
        read_name(t, skip_blanks(t, i + 2))
    } else {
        let none: Vec<char> = Vec::new();
        let r = text::text(&none);
        assert(r@ =~= Seq::<char>::empty());
        r
    }
}

/// No place of `some` lies between two places.
pub open spec fn none_between(some: Seq<int>, from: int, to: int) -> bool {
    forall|k: int| 0 <= k < some.len() ==> !(from < #[trigger] some[k] < to)
}

fn is_none_between(v: &Vec<usize>, from: usize, to: usize) -> (r: bool)
    ensures
        r == none_between(places(v@), from as int, to as int),
{
    let ghost all = places(v@);
    let mut k: usize = 0;
    while k < v.len()
        invariant
            k <= v@.len(),
            all == places(v@),
            forall|m: int| 0 <= m < k ==> !(from < #[trigger] all[m] < to),
        decreases v@.len() - k,
    {
        assert(all[k as int] == v@[k as int]);
        if from < v[k] && v[k] < to {
            return false;
        }
        k += 1;
    }
    true
}

/// One of the macros that begin at the places of `some` before place `to` has this name.
pub open spec fn titled_before(t: Seq<char>, some: Seq<int>, to: int, name: Seq<char>) -> bool {
    exists|k: int|
        #![trigger some[k]]
        0 <= k < some.len() && some[k] < to && title(t, some[k]) == name
}

fn is_titled_before(t: &Vec<char>, v: &Vec<usize>, to: usize, name: &str) -> (r: bool)
    requires
        within(v@, t@.len()),
    ensures
        r == titled_before(t@, places(v@), to as int, name@),
{
    let ghost all = places(v@);
    let mut k: usize = 0;
    while k < v.len()
        invariant
            k <= v@.len(),
            all == places(v@),
            within(v@, t@.len()),
            forall|m: int|
                0 <= m < k ==> !(#[trigger] all[m] < to && title(t@, all[m]) == name@),
        decreases v@.len() - k,
    {
        assert(all[k as int] == v@[k as int]);
        if v[k] < to {
            let there = read_title(t, v[k]);
            if text::same(there.as_str(), name) {
                return true;
            }
        }
        k += 1;
    }
    false
}

/// A macro that begins at place `from` calls at place `i` a macro that does not begin before it:
/// itself, or one that may call it.
pub open spec fn calls_back(t: Seq<char>, from: int, i: int) -> bool {
    &&& from < i
    &&& none_between(spots(t, Mark::Closing), from, i)
    &&& !titled_before(t, spots(t, Mark::Opening), from, callee(t, i))
}

/// Some macro may come to call itself.
pub open spec fn macro_recurs(t: Seq<char>) -> bool {
    let openings = spots(t, Mark::Opening);
    let calls = spots(t, Mark::Call);
    exists|a: int, b: int|
        #![trigger openings[a], calls[b]]
        0 <= a < openings.len() && 0 <= b < calls.len() && calls_back(t, openings[a], calls[b])
}

fn does_macro_recur(t: &Vec<char>, tags: &Vec<Vec<usize>>) -> (r: bool)
    requires
        holds_tags(t@, tags@),
    ensures
        r == macro_recurs(t@),
{
    let starts = find_spots(t, tags, Mark::Opening);
    let stops = find_spots(t, tags, Mark::Closing);
    let uses = find_spots(t, tags, Mark::Call);
    let ghost openings = spots(t@, Mark::Opening);
    let ghost calls = spots(t@, Mark::Call);
    assert(openings.len() == starts@.len() && calls.len() == uses@.len());
    let mut b: usize = 0;
    while b < uses.len()
        invariant
            b <= uses@.len(),
            within(starts@, t@.len()),
            within(uses@, t@.len()),
            openings == spots(t@, Mark::Opening),
            openings == places(starts@),
            calls == spots(t@, Mark::Call),
            calls == places(uses@),
            spots(t@, Mark::Closing) == places(stops@),
            forall|m: int, k: int|
                #![trigger openings[m], calls[k]]
                0 <= m < openings.len() && 0 <= k < b ==> !calls_back(t@, openings[m], calls[k]),
        decreases uses@.len() - b,
    {
        let called = read_callee(t, uses[b]);
        assert(calls[b as int] == uses@[b as int]);
        let mut a: usize = 0;
        while a < starts.len()
            invariant
                a <= starts@.len(),
                b < uses@.len(),
                within(starts@, t@.len()),
                openings == spots(t@, Mark::Opening),
                openings == places(starts@),
                calls == spots(t@, Mark::Call),
                calls == places(uses@),
                spots(t@, Mark::Closing) == places(stops@),
                called@ == callee(t@, calls[b as int]),
                forall|m: int|
                    #![trigger openings[m]]
                    0 <= m < a ==> !calls_back(t@, openings[m], calls[b as int]),
            decreases starts@.len() - a,
        {
            assert(openings[a as int] == starts@[a as int]);
            assert(calls[b as int] == uses@[b as int]);
            if starts[a] < uses[b] && is_none_between(&stops, starts[a], uses[b])
                && !is_titled_before(t, &starts, starts[a], called.as_str()) {
                assert(calls_back(t@, openings[a as int], calls[b as int]));
                return true;
            }
            a += 1;
        }
        b += 1;
    }
    false
}

// ---------------------------------------------------------------------------
// Dates
// ---------------------------------------------------------------------------

/// A time format asks for the time zone.
pub open spec fn zoned(s: Seq<char>) -> bool {
    exists|k: int|
        0 <= k < s.len() - 1 && #[trigger] s[k] == '%' && (s[k + 1] == 'z' || s[k + 1] == 'Z'
            || s[k + 1] == ':' || s[k + 1] == '#' || s[k + 1] == '+')
}

fn is_zoned(s: &str) -> (r: bool)
    ensures
        r == zoned(s@),
{
    let t = text::chars(s);
    let mut k: usize = 0;
    while k < t.len()
        invariant
            k <= t@.len(),
            t@ == s@,
            forall|m: int|
                0 <= m < k && m < s@.len() - 1 ==> !(#[trigger] s@[m] == '%' && (s@[m + 1] == 'z'
                    || s@[m + 1] == 'Z' || s@[m + 1] == ':' || s@[m + 1] == '#' || s@[m + 1]
                    == '+')),
        decreases t@.len() - k,
    {
        if t[k] == '%' && 1 < t.len() - k {
            let c = t[k + 1];
            if c == 'z' || c == 'Z' || c == ':' || c == '#' || c == '+' {
                assert(s@[k as int] == '%');
                return true;
            }
        }
        k += 1;
    }
    false
}

/// The string that the argument `format` at place `i` is.
pub open spec fn format_text(t: Seq<char>, i: int) -> Seq<char> {
    string(t, skip(t, skip(t, i + 6) + 1))
}

fn read_format(t: &Vec<char>, i: usize) -> (r: String)
    requires
        text_argument(t@, i as int, "format"@) is Some,
        i <= t@.len(),
    ensures
        r@ == format_text(t@, i as int),
{
    proof {
        reveal_strlit("format");
    }
    let _n: usize = t.len();
    let sign = skip_blanks(t, i + 6);
    read_string(t, skip_blanks(t, sign + 1))
}

/// What the filter `date` is told, as far as it is told in strings: nothing that it cannot write
/// at all, whatever it is applied to.
pub open spec fn writable_format(s: Seq<char>) -> bool {
    !text::has(s, "%#"@)
}

/// The filter `date` at place `i` is given a format, a time zone, both or neither, as strings, and
/// the format is a [`writable_format`].
pub open spec fn told_in_strings(t: Seq<char>, i: int) -> bool {
    let open = skip(t, i + 4);
    let word = skip(t, open + 1);
    if !at(t, open, '(') {
        true
    } else {
        match (text_argument(t, word, "format"@), text_argument(t, word, "timezone"@)) {
            (Some(next), _) => writable_format(format_text(t, word)) && (at(t, next, ')') || (
            text_argument(t, skip(t, next + 1), "timezone"@) matches Some(last) && at(
                t,
                last,
                ')',
            ))),
            (None, Some(next)) => at(t, next, ')') || (text_argument(
                t,
                skip(t, next + 1),
                "format"@,
            ) matches Some(last) && at(t, last, ')') && writable_format(
                format_text(t, skip(t, next + 1)),
            )),
            (None, None) => false,
        }
    }
}

fn is_told_in_strings(t: &Vec<char>, i: usize) -> (r: bool)
    requires
        i + 4 <= t@.len(),
    ensures
        r == told_in_strings(t@, i as int),
{
    let _n: usize = t.len();
    let open = skip_blanks(t, i + 4);
    if !is_at(t, open, 0, '(') {
        return true;
    }
    let word = skip_blanks(t, open + 1);
    match find_text_argument(t, word, "format") {
        Some(next) => {
            let s = read_format(t, word);
            if text::contains(s.as_str(), "%#") {
                return false;
            }
            if is_at(t, next, 0, ')') {
                return true;
            }
            match find_text_argument(t, skip_blanks(t, next + 1), "timezone") {
                Some(last) => is_at(t, last, 0, ')'),
                None => false,
            }
        },
        None => match find_text_argument(t, word, "timezone") {
            Some(next) => {
                if is_at(t, next, 0, ')') {
                    return true;
                }
                let other = skip_blanks(t, next + 1);
                match find_text_argument(t, other, "format") {
                    Some(last) => {
                        let s = read_format(t, other);
                        is_at(t, last, 0, ')') && !text::contains(s.as_str(), "%#")
                    },
                    None => false,
                }
            },
            None => false,
        },
    }
}

/// The filter `date` at place `i`, told in strings, can show a number: its format does not ask for
/// the time zone, or it is given one.
pub open spec fn shows_numbers(t: Seq<char>, i: int) -> bool {
    let open = skip(t, i + 4);
    let word = skip(t, open + 1);
    at(t, open, '(') && (text_argument(t, word, "format"@) matches Some(next) && at(t, next, ')'))
        ==> !zoned(format_text(t, word))
}

fn does_show_numbers(t: &Vec<char>, i: usize) -> (r: bool)
    requires
        i + 4 <= t@.len(),
    ensures
        r == shows_numbers(t@, i as int),
{
    let _n: usize = t.len();
    let open = skip_blanks(t, i + 4);
    if !is_at(t, open, 0, '(') {
        return true;
    }
    let word = skip_blanks(t, open + 1);
    match find_text_argument(t, word, "format") {
        Some(next) => {
            if is_at(t, next, 0, ')') {
                let s = read_format(t, word);
                !is_zoned(s.as_str())
            } else {
                true
            }
        },
        None => true,
    }
}

/// A call of `now` without arguments ends at place `i`.
pub open spec fn now_call(t: Seq<char>, i: int) -> bool {
    t[i] == ')' && (last_before(t, i) matches Some(open) && t[open] == '(' && (last_before(
        t,
        open,
    ) matches Some(k) && ended_by(t, "now"@, k)))
}

fn is_now_call(t: &Vec<char>, i: usize) -> (r: bool)
    requires
        i < t@.len(),
    ensures
        r == now_call(t@, i as int),
{
    if t[i] != ')' {
        return false;
    }
    match find_before(t, i) {
        Some(open) => {
            if t[open] != '(' {
                return false;
            }
            match find_before(t, open) {
                Some(k) => is_ended_by(t, "now", k),
                None => false,
            }
        },
        None => false,
    }
}

/// A variable that the template gives no value ends at place `i`, named by itself: no path and
/// no filter.
pub open spec fn free_variable(t: Seq<char>, i: int) -> bool {
    let from = name_start(t, i + 1);
    &&& from <= i && letter(t[from])
    &&& !at(t, from - 1, '.')
    &&& !(last_before(t, from) matches Some(k) && t[k] == '|')
    &&& !bound(t, from)
}

fn is_free_variable(t: &Vec<char>, binders: &Vec<usize>, i: usize) -> (r: bool)
    requires
        i < t@.len(),
        within(binders@, t@.len()),
        places(binders@) == spots(t@, Mark::Binder),
    ensures
        r == free_variable(t@, i as int),
{
    let _n: usize = t.len();
    let from = find_name_start(t, i + 1);
    if !(from <= i && is_letter(t[from])) {
        return false;
    }
    if from > 0 && t[from - 1] == '.' {
        return false;
    }
    match find_before(t, from) {
        Some(k) => {
            if t[k] == '|' {
                return false;
            }
        },
        None => {},
    }
    !is_named(t, binders, from)
}

/// The filter `date` at place `i` is applied to a text: a section, a string, what `now` gives, or
/// a variable that holds what the page is given.
pub open spec fn on_text(t: Seq<char>, i: int) -> bool {
    match last_before(t, i) {
        Some(bar) => t[bar] != '|' || match last_before(t, bar) {
            Some(k) => quote(t[k]) || now_call(t, k) || free_variable(t, k),
            None => false,
        },
        None => false,
    }
}

fn is_on_text(t: &Vec<char>, binders: &Vec<usize>, i: usize) -> (r: bool)
    requires
        i < t@.len(),
        within(binders@, t@.len()),
        places(binders@) == spots(t@, Mark::Binder),
    ensures
        r == on_text(t@, i as int),
{
    match find_before(t, i) {
        Some(bar) => t[bar] != '|' || match find_before(t, bar) {
            Some(k) => is_quote(t[k]) || is_now_call(t, k) || is_free_variable(t, binders, k),
            None => false,
        },
        None => false,
    }
}

/// No number that the template can make is out of range for a time.
pub open spec fn timely(t: Seq<char>) -> bool {
    !shows(t, Mark::Stamp) && !shows(t, Mark::Sum) && !shows(t, Mark::Product) && !shows(
        t,
        Mark::Whole,
    )
}

/// The filter `date` at place `i` is told in strings what it can write, and is applied to a text,
/// or to a number that is in range and can be shown.
pub open spec fn date_fits(t: Seq<char>, i: int) -> bool {
    &&& i + 4 <= t.len()
    &&& told_in_strings(t, i)
    &&& on_text(t, i) || (shows_numbers(t, i) && timely(t))
}

/// Every date fits.
pub open spec fn dated(t: Seq<char>) -> bool {
    let found = spots(t, Mark::Date);
    forall|k: int| 0 <= k < found.len() ==> date_fits(t, #[trigger] found[k])
}

fn is_dated(t: &Vec<char>, tags: &Vec<Vec<usize>>) -> (r: bool)
    requires
        holds_tags(t@, tags@),
    ensures
        r == dated(t@),
{
    let n: usize = t.len();
    let v = find_spots(t, tags, Mark::Date);
    let binders = find_spots(t, tags, Mark::Binder);
    let timed = !does_show(t, tags, Mark::Stamp) && !does_show(t, tags, Mark::Sum) && !does_show(
        t,
        tags,
        Mark::Product,
    ) && !does_show(t, tags, Mark::Whole);
    let ghost found = spots(t@, Mark::Date);
    assert(found.len() == v@.len());
    let mut k: usize = 0;
    while k < v.len()
        invariant
            k <= v@.len(),
            n == t@.len(),
            found == places(v@),
            found == spots(t@, Mark::Date),
            within(v@, t@.len()),
            within(binders@, t@.len()),
            places(binders@) == spots(t@, Mark::Binder),
            timed == timely(t@),
            forall|m: int| 0 <= m < k ==> date_fits(t@, #[trigger] found[m]),
        decreases v@.len() - k,
    {
        let i = v[k];
        assert(found[k as int] == i);
        if !(4 <= n - i && is_told_in_strings(t, i) && (is_on_text(t, &binders, i) || (timed
            && does_show_numbers(t, i)))) {
            return false;
        }
        k += 1;
    }
    true
}

// ---------------------------------------------------------------------------
// Conditions, operands and loops
// ---------------------------------------------------------------------------

/// A tag takes for a condition a text put together that need not stay a text: it is filtered or
/// negated.
pub open spec fn condition_joined(t: Seq<char>, tag: Seq<int>) -> bool {
    &&& shows_in(t, tag, Mark::Join)
    &&& shows_in(t, tag, Mark::Filter) || shows_in(t, tag, Mark::Negation)
    &&& shows_in(t, tag, Mark::Branch) || shows_in(t, tag, Mark::Junction)
}

/// How many round brackets are open behind the first `n` places of a tag.
pub open spec fn depth(t: Seq<char>, tag: Seq<int>, n: int) -> int
    decreases n,
{
    if n <= 0 || n > tag.len() {
        0
    } else {
        depth(t, tag, n - 1) + if t[tag[n - 1]] == '(' {
            1int
        } else if t[tag[n - 1]] == ')' {
            -1int
        } else {
            0
        }
    }
}

/// How many round brackets are open at each place of a tag; one more than there are places.
fn find_depths(t: &Vec<char>, tag: &Vec<usize>) -> (r: Vec<i128>)
    requires
        within(tag@, t@.len()),
    ensures
        r@.len() == tag@.len() + 1,
        forall|k: int| 0 <= k < r@.len() ==> #[trigger] r@[k] == depth(t@, places(tag@), k),
{
    let ghost all = places(tag@);
    let n: usize = tag.len();
    let mut out: Vec<i128> = Vec::new();
    let mut now: i128 = 0;
    out.push(now);
    let mut i: usize = 0;
    while i < n
        invariant
            i <= n,
            n == tag@.len(),
            all == places(tag@),
            within(tag@, t@.len()),
            -(i as int) <= now <= i,
            now == depth(t@, all, i as int),
            out@.len() == i + 1,
            forall|k: int| 0 <= k < out@.len() ==> #[trigger] out@[k] == depth(t@, all, k),
        decreases n - i,
    {
        let c = t[tag[i]];
        assert(all[i as int] == tag@[i as int]);
        if c == '(' {
            now = now + 1;
        } else if c == ')' {
            now = now - 1;
        }
        out.push(now);
        i += 1;
    }
    out
}

/// A macro is called in a tag where its result may be computed with or compared: an operator
/// stands as deep in brackets as the call, or less.
pub open spec fn operand_called(t: Seq<char>, tag: Seq<int>) -> bool {
    exists|a: int, b: int|
        #![trigger tag[a], tag[b]]
        0 <= a < tag.len() && 0 <= b < tag.len() && mark_at(t, Mark::Call, tag[a]) && mark_at(
            t,
            Mark::Operator,
            tag[b],
        ) && depth(t, tag, b) <= depth(t, tag, a)
}

fn is_operand_called(t: &Vec<char>, tag: &Vec<usize>) -> (r: bool)
    requires
        within(tag@, t@.len()),
    ensures
        r == operand_called(t@, places(tag@)),
{
    let ghost all = places(tag@);
    let depths = find_depths(t, tag);
    let mut a: usize = 0;
    while a < tag.len()
        invariant
            a <= tag@.len(),
            all == places(tag@),
            within(tag@, t@.len()),
            depths@.len() == tag@.len() + 1,
            forall|k: int| 0 <= k < depths@.len() ==> #[trigger] depths@[k] == depth(t@, all, k),
            forall|m: int, k: int|
                #![trigger all[m], all[k]]
                0 <= m < a && 0 <= k < all.len() ==> !(mark_at(t@, Mark::Call, all[m]) && mark_at(
                    t@,
                    Mark::Operator,
                    all[k],
                ) && depth(t@, all, k) <= depth(t@, all, m)),
        decreases tag@.len() - a,
    {
        assert(all[a as int] == tag@[a as int]);
        if is_mark(t, Mark::Call, tag[a]) {
            let mut b: usize = 0;
            while b < tag.len()
                invariant
                    a < tag@.len(),
                    b <= tag@.len(),
                    all == places(tag@),
                    within(tag@, t@.len()),
                    depths@.len() == tag@.len() + 1,
                    forall|k: int|
                        0 <= k < depths@.len() ==> #[trigger] depths@[k] == depth(t@, all, k),
                    mark_at(t@, Mark::Call, all[a as int]),
                    forall|k: int|
                        #![trigger all[k]]
                        0 <= k < b ==> !(mark_at(t@, Mark::Operator, all[k]) && depth(t@, all, k)
                            <= depth(t@, all, a as int)),
                decreases tag@.len() - b,
            {
                assert(all[b as int] == tag@[b as int]);
                if is_mark(t, Mark::Operator, tag[b]) && depths[b] <= depths[a] {
                    assert(all[a as int] == all[a as int]);
                    return true;
                }
                b += 1;
            }
        }
        a += 1;
    }
    false
}

/// A macro is called within brackets: as an argument.
pub open spec fn argument_called(t: Seq<char>, tag: Seq<int>) -> bool {
    exists|k: int|
        #![trigger tag[k]]
        0 <= k < tag.len() && mark_at(t, Mark::Call, tag[k]) && depth(t, tag, k) > 0
}

fn is_argument_called(t: &Vec<char>, tag: &Vec<usize>) -> (r: bool)
    requires
        within(tag@, t@.len()),
    ensures
        r == argument_called(t@, places(tag@)),
{
    let ghost all = places(tag@);
    let depths = find_depths(t, tag);
    let mut k: usize = 0;
    while k < tag.len()
        invariant
            k <= tag@.len(),
            all == places(tag@),
            within(tag@, t@.len()),
            depths@.len() == tag@.len() + 1,
            forall|m: int| 0 <= m < depths@.len() ==> #[trigger] depths@[m] == depth(t@, all, m),
            forall|m: int|
                #![trigger all[m]]
                0 <= m < k ==> !(mark_at(t@, Mark::Call, all[m]) && depth(t@, all, m) > 0),
        decreases tag@.len() - k,
    {
        assert(all[k as int] == tag@[k as int]);
        if is_mark(t, Mark::Call, tag[k]) && depths[k] > 0 {
            return true;
        }
        k += 1;
    }
    false
}

/// A condition calls a macro as an argument: what goes wrong in the macro is forgotten, and what
/// the macro had begun stays begun.
pub open spec fn condition_called(t: Seq<char>, tag: Seq<int>) -> bool {
    &&& argument_called(t, tag)
    &&& shows_in(t, tag, Mark::Branch) || shows_in(t, tag, Mark::Junction)
}

/// Every text that the template can make is [`single`], where `odd` are the variables that
/// hold a text that is not: none does, no string is such a text, and neither the environment,
/// nor the text of a macro, nor the names of the variables come in.
pub open spec fn plain(t: Seq<char>, odd: Set<Seq<char>>) -> bool {
    &&& odd =~= Set::<Seq<char>>::empty()
    &&& !shows(t, Mark::Wide)
    &&& !shows(t, Mark::Environment)
    &&& !shows(t, Mark::Call)
    &&& !shows(t, Mark::Dump)
}

fn is_plain(t: &Vec<char>, tags: &Vec<Vec<usize>>, odd: &Vec<String>) -> (r: bool)
    requires
        holds_tags(t@, tags@),
    ensures
        r == plain(t@, text::texts(odd@).to_set()),
{
    proof {
        let names = text::texts(odd@);
        if names.len() == 0 {
            assert(names.to_set() =~= Set::<Seq<char>>::empty());
        } else {
            assert(names.contains(names[0]));
            assert(names.to_set().contains(names[0]));
        }
    }
    odd.len() == 0 && !does_show(t, tags, Mark::Wide) && !does_show(t, tags, Mark::Environment)
        && !does_show(t, tags, Mark::Call) && !does_show(t, tags, Mark::Dump)
}

/// One of the filters that give a list stands at place `i`.
pub open spec fn lister_at(t: Seq<char>, i: int) -> bool {
    word_at(t, "split"@, i) || word_at(t, "sort"@, i) || word_at(t, "unique"@, i) || word_at(
        t,
        "slice"@,
        i,
    ) || word_at(t, "concat"@, i) || word_at(t, "filter"@, i) || word_at(t, "map"@, i)
}

fn is_lister(t: &Vec<char>, i: usize) -> (r: bool)
    ensures
        r == lister_at(t@, i as int),
{
    is_word(t, "split", i) || is_word(t, "sort", i) || is_word(t, "unique", i) || is_word(
        t,
        "slice",
        i,
    ) || is_word(t, "concat", i) || is_word(t, "filter", i) || is_word(t, "map", i)
}

/// The last filter of a tag is one that gives a list, and stands in no brackets.
pub open spec fn gives_list(t: Seq<char>, tag: Seq<int>) -> bool {
    exists|k: int|
        #![trigger tag[k]]
        0 <= k < tag.len() && t[tag[k]] == '|' && depth(t, tag, k) == 0 && lister_at(
            t,
            skip(t, tag[k] + 1),
        ) && forall|m: int| k < m < tag.len() ==> t[#[trigger] tag[m]] != '|'
}

fn does_give_list(t: &Vec<char>, tag: &Vec<usize>) -> (r: bool)
    requires
        within(tag@, t@.len()),
    ensures
        r == gives_list(t@, places(tag@)),
{
    let n: usize = t.len();
    let ghost all = places(tag@);
    let depths = find_depths(t, tag);
    let mut k: usize = tag.len();
    while k > 0
        invariant
            k <= tag@.len(),
            n == t@.len(),
            all == places(tag@),
            within(tag@, t@.len()),
            depths@.len() == tag@.len() + 1,
            forall|m: int| 0 <= m < depths@.len() ==> #[trigger] depths@[m] == depth(t@, all, m),
            forall|m: int| k <= m < all.len() ==> t@[#[trigger] all[m]] != '|',
        decreases k,
    {
        k -= 1;
        let i = tag[k];
        assert(all[k as int] == i);
        if t[i] == '|' {
            let r = depths[k] == 0 && is_lister(t, skip_blanks(t, i + 1));
            proof {
                assert(depths@[k as int] == depth(t@, all, k as int));
                if r {
                    assert(gives_list(t@, all));
                } else if gives_list(t@, all) {
                    let other = choose|m: int|
                        #![trigger all[m]]
                        0 <= m < all.len() && t@[all[m]] == '|' && depth(t@, all, m) == 0
                            && lister_at(t@, skip(t@, all[m] + 1)) && forall|x: int|
                            m < x < all.len() ==> t@[#[trigger] all[x]] != '|';
                    assert(t@[all[k as int]] == '|');
                    assert(other == k);
                }
            }
            return r;
        }
    }
    false
}

/// What begins at place `i` of a tag is a list: it is written as one, or `range` or a filter
/// gives it.
pub open spec fn list_from(t: Seq<char>, tag: Seq<int>, i: int) -> bool {
    ||| (at(t, i, '[') || call_at(t, "range"@, i)) && !shows_in(t, tag, Mark::Filter)
    ||| gives_list(t, tag)
}

fn is_list_from(t: &Vec<char>, tag: &Vec<usize>, i: usize) -> (r: bool)
    requires
        within(tag@, t@.len()),
    ensures
        r == list_from(t@, places(tag@), i as int),
{
    ((is_at(t, i, 0, '[') || is_call(t, "range", i)) && !does_show_in(t, tag, Mark::Filter))
        || does_give_list(t, tag)
}

/// The identifier at place `i` of a tag is set to a list there.
pub open spec fn set_to_list(t: Seq<char>, tag: Seq<int>, i: int) -> bool {
    let sign = skip(t, name_end(t, i));
    &&& last_before(t, i) matches Some(k) && (ended_by(t, "set"@, k) || ended_by(
        t,
        "set_global"@,
        k,
    ))
    &&& at(t, sign, '=')
    &&& list_from(t, tag, skip(t, sign + 1))
}

fn is_set_to_list(t: &Vec<char>, tag: &Vec<usize>, i: usize) -> (r: bool)
    requires
        within(tag@, t@.len()),
        i < t@.len(),
    ensures
        r == set_to_list(t@, places(tag@), i as int),
{
    let _n: usize = t.len();
    match find_before(t, i) {
        Some(k) => {
            if !(is_ended_by(t, "set", k) || is_ended_by(t, "set_global", k)) {
                return false;
            }
            let sign = skip_blanks(t, find_name_end(t, i));
            is_at(t, sign, 0, '=') && is_list_from(t, tag, skip_blanks(t, sign + 1))
        },
        None => false,
    }
}

/// A tag gives the identifier `name` a value that need not be a list.
pub open spec fn rebinds(t: Seq<char>, tag: Seq<int>, name: Seq<char>) -> bool {
    let found = spots_in(t, tag, Mark::Binder);
    exists|k: int|
        #![trigger found[k]]
        0 <= k < found.len() && crate::build::tags::name(t, found[k]) == name && !set_to_list(
            t,
            tag,
            found[k],
        )
}

fn does_rebind(t: &Vec<char>, tag: &Vec<usize>, name: &str) -> (r: bool)
    requires
        within(tag@, t@.len()),
    ensures
        r == rebinds(t@, places(tag@), name@),
{
    let v = find_spots_in(t, tag, Mark::Binder);
    let ghost found = spots_in(t@, places(tag@), Mark::Binder);
    assert(found.len() == v@.len());
    let mut k: usize = 0;
    while k < v.len()
        invariant
            k <= v@.len(),
            found == places(v@),
            found == spots_in(t@, places(tag@), Mark::Binder),
            within(v@, t@.len()),
            within(tag@, t@.len()),
            forall|m: int|
                #![trigger found[m]]
                0 <= m < k ==> !(crate::build::tags::name(t@, found[m]) == name@ && !set_to_list(
                    t@,
                    places(tag@),
                    found[m],
                )),
        decreases v@.len() - k,
    {
        assert(found[k as int] == v@[k as int]);
        let there = read_name(t, v[k]);
        if text::same(there.as_str(), name) && !is_set_to_list(t, tag, v[k]) {
            return true;
        }
        k += 1;
    }
    false
}

/// Some tag gives the identifier `name` a value that need not be a list.
pub open spec fn rebound(t: Seq<char>, name: Seq<char>) -> bool {
    exists|j: int| 0 <= j < tags(t, 0).len() && rebinds(t, #[trigger] tags(t, 0)[j], name)
}

fn is_rebound(t: &Vec<char>, tags: &Vec<Vec<usize>>, name: &str) -> (r: bool)
    requires
        holds_tags(t@, tags@),
    ensures
        r == rebound(t@, name@),
{
    let ghost all = crate::build::tags::tags(t@, 0);
    assert(all.len() == tags@.len());
    let mut j: usize = 0;
    while j < tags.len()
        invariant
            j <= tags@.len(),
            all == crate::build::tags::tags(t@, 0),
            all == all_places(tags@),
            holds_tags(t@, tags@),
            forall|m: int| 0 <= m < j ==> !rebinds(t@, #[trigger] all[m], name@),
        decreases tags@.len() - j,
    {
        assert(all[j as int] == places(tags@[j as int]@));
        if does_rebind(t, &tags[j], name) {
            return true;
        }
        j += 1;
    }
    false
}

/// A loop that stands at place `i` of a tag walks no text, or one that is [`single`]: it walks
/// keys and values, or a list, or a variable that holds a list or such a text, or every text is
/// one.
pub open spec fn walkable(t: Seq<char>, tag: Seq<int>, i: int, odd: Set<Seq<char>>) -> bool {
    let next = skip(t, name_end(t, skip(t, i + 3)));
    let from = skip(t, next + 2);
    ||| at(t, next, ',')
    ||| list_from(t, tag, from)
    ||| from < t.len() && letter(t[from]) && ends(t, skip(t, name_end(t, from))) && name(t, from)
        != "__tera_context"@ && !rebound(t, name(t, from)) && !odd.contains(name(t, from))
    ||| plain(t, odd)
}

fn is_walkable(
    t: &Vec<char>,
    tags: &Vec<Vec<usize>>,
    tag: &Vec<usize>,
    i: usize,
    odd: &Vec<String>,
) -> (r: bool)
    requires
        holds_tags(t@, tags@),
        within(tag@, t@.len()),
        i + 3 <= t@.len(),
    ensures
        r == walkable(t@, places(tag@), i as int, text::texts(odd@).to_set()),
{
    let n: usize = t.len();
    let next = skip_blanks(t, find_name_end(t, skip_blanks(t, i + 3)));
    if is_at(t, next, 0, ',') || does_give_list(t, tag) {
        return true;
    }
    if 2 <= n - next {
        let from = skip_blanks(t, next + 2);
        if is_list_from(t, tag, from) {
            return true;
        }
        if from < n && is_letter(t[from]) && is_end(t, skip_blanks(t, find_name_end(t, from))) {
            let wanted = read_name(t, from);
            if !text::same(wanted.as_str(), "__tera_context") && !is_rebound(
                t,
                tags,
                wanted.as_str(),
            )
                && !text::listed(odd, wanted.as_str()) {
                return true;
            }
        }
    } else {
        assert(skip(t@, next + 2) == next + 2);
    }
    is_plain(t, tags, odd)
}

/// Every loop of a tag is [`walkable`].
pub open spec fn loops_walkable(t: Seq<char>, tag: Seq<int>, odd: Set<Seq<char>>) -> bool {
    let found = spots_in(t, tag, Mark::Loop);
    forall|k: int|
        0 <= k < found.len() ==> (#[trigger] found[k]) + 3 <= t.len() && walkable(
            t,
            tag,
            found[k],
            odd,
        )
}

fn are_loops_walkable(
    t: &Vec<char>,
    tags: &Vec<Vec<usize>>,
    tag: &Vec<usize>,
    odd: &Vec<String>,
) -> (r: bool)
    requires
        holds_tags(t@, tags@),
        within(tag@, t@.len()),
    ensures
        r == loops_walkable(t@, places(tag@), text::texts(odd@).to_set()),
{
    let n: usize = t.len();
    let v = find_spots_in(t, tag, Mark::Loop);
    let ghost found = spots_in(t@, places(tag@), Mark::Loop);
    assert(found.len() == v@.len());
    let mut k: usize = 0;
    while k < v.len()
        invariant
            k <= v@.len(),
            n == t@.len(),
            found == places(v@),
            found == spots_in(t@, places(tag@), Mark::Loop),
            within(v@, t@.len()),
            within(tag@, t@.len()),
            holds_tags(t@, tags@),
            forall|m: int|
                0 <= m < k ==> (#[trigger] found[m]) + 3 <= t@.len() && walkable(
                    t@,
                    places(tag@),
                    found[m],
                    text::texts(odd@).to_set(),
                ),
        decreases v@.len() - k,
    {
        let i = v[k];
        assert(found[k as int] == i);
        if !(3 <= n - i && is_walkable(t, tags, tag, i, odd)) {
            return false;
        }
        k += 1;
    }
    true
}

/// Nothing in one tag by itself makes rendering panic.
pub open spec fn sound_tag(t: Seq<char>, tag: Seq<int>, odd: Set<Seq<char>>) -> bool {
    !condition_joined(t, tag) && !condition_called(t, tag) && !operand_called(t, tag)
        && loops_walkable(t, tag, odd)
}

/// Every tag is a [`sound_tag`].
pub open spec fn sound_tags(t: Seq<char>, odd: Set<Seq<char>>) -> bool {
    forall|j: int| 0 <= j < tags(t, 0).len() ==> sound_tag(t, #[trigger] tags(t, 0)[j], odd)
}

fn are_sound_tags(
    t: &Vec<char>,
    tags: &Vec<Vec<usize>>,
    odd: &Vec<String>,
) -> (r: bool)
    requires
        holds_tags(t@, tags@),
    ensures
        r == sound_tags(t@, text::texts(odd@).to_set()),
{
    let ghost all = crate::build::tags::tags(t@, 0);
    assert(all.len() == tags@.len());
    let mut j: usize = 0;
    while j < tags.len()
        invariant
            j <= tags@.len(),
            all == crate::build::tags::tags(t@, 0),
            all == all_places(tags@),
            holds_tags(t@, tags@),
            forall|m: int| 0 <= m < j ==> sound_tag(t@, #[trigger] all[m], text::texts(odd@).to_set()),
        decreases tags@.len() - j,
    {
        let tag = &tags[j];
        assert(all[j as int] == places(tag@));
        let condition = does_show_in(t, tag, Mark::Branch) || does_show_in(t, tag, Mark::Junction);
        let joined = does_show_in(t, tag, Mark::Join) && (does_show_in(t, tag, Mark::Filter)
            || does_show_in(t, tag, Mark::Negation)) && condition;
        let called = condition && is_argument_called(t, tag);
        if joined || called || is_operand_called(t, tag) || !are_loops_walkable(t, tags, tag, odd) {
            return false;
        }
        j += 1;
    }
    true
}

// ---------------------------------------------------------------------------
// The whole template
// ---------------------------------------------------------------------------

/// Sums can be repeated so often that a small number grows out of range.
pub open spec fn grows(t: Seq<char>) -> bool {
    spots(t, Mark::Sum).len() > 20 || (shows(t, Mark::Loop) && shows(t, Mark::Global))
}

/// A fraction can come so near the largest one that a sum is infinite.
pub open spec fn overflows(t: Seq<char>) -> bool {
    &&& shows(t, Mark::Sum)
    &&& shows(t, Mark::Fraction)
    &&& grows(t) || shows(t, Mark::Parsed) || shows(t, Mark::Long) || shows(t, Mark::Precision)
        || spots(t, Mark::Product).len() > 3
}

/// An integer can be the least one, which has no absolute value.
pub open spec fn underflows(t: Seq<char>) -> bool {
    &&& shows(t, Mark::Absolute)
    &&& shows(t, Mark::Negative)
    &&& grows(t) || shows(t, Mark::Parsed) || shows(t, Mark::Long) || shows(t, Mark::Whole)
        || shows(t, Mark::Product)
}

/// Tera renders the template, or says why not, without a panic and without end, whatever texts
/// its variables hold; `odd` are the variables that hold a text that is not [`single`].
///
/// What is left out, and what Tera does on it:
/// - a template that takes itself in by its name goes on for ever, and so does a block inside
///   one of the same name, a macro that calls itself, and `range` with a step of zero;
/// - `super` in a block that stands in a condition or in a filtered section finds no block,
///   `containing` without an argument finds no argument, and a condition that is a text put
///   together must stay one: Tera unwraps them;
/// - a macro called where a number is wanted, and a list given to a test, are held to be out of
///   reach;
/// - a macro that fails as an argument of a condition leaves its loops behind, to be counted on;
/// - `get_random` panics on bounds out of order, `int` on what is no number base, `date` on a
///   number out of range, on one that is to show its time zone, and on a format that can be
///   read but not written;
/// - a decimal number or a sum that is infinite is no JSON number, and the least integer has
///   no absolute value and no remainder by minus one;
/// - a loop over a text counts its characters and hands out its graphemes, and an index or an
///   attribute is cut at its characters, counted as bytes.
///
/// Neither nesting nor growth is limited: tags nested so deep that the stack does not hold
/// them, and loops that build a text that the memory does not hold, are not left out.
pub open spec fn renderable(t: Seq<char>, odd: Set<Seq<char>>) -> bool {
    &&& !(shows(t, Mark::Reach) && text::has(t, "__tera_one_off"@))
    &&& !block_repeats(t)
    &&& !(shows(t, Mark::Super) && (shows(t, Mark::Branch) || shows(t, Mark::Section)))
    &&& !macro_recurs(t)
    &&& !(shows(t, Mark::Range) && shows(t, Mark::Step))
    &&& !shows(t, Mark::Random)
    &&& !(shows(t, Mark::Based) && shows(t, Mark::Base))
    &&& !shows(t, Mark::Endless)
    &&& dated(t)
    &&& !overflows(t)
    &&& !underflows(t)
    &&& !(shows(t, Mark::Remainder) && shows(t, Mark::Negative))
    &&& !shows(t, Mark::Containing)
    &&& !shows(t, Mark::Listed)
    &&& !shows(t, Mark::Index)
    &&& !shows(t, Mark::Attribute)
    &&& !(shows(t, Mark::Lookup) && (!plain(t, odd) || shows(t, Mark::Truncate)))
    &&& sound_tags(t, odd)
}

/// Some tag calls a macro as an argument.
pub open spec fn call_nested(t: Seq<char>) -> bool {
    exists|j: int|
        0 <= j < tags(t, 0).len() && argument_called(t, #[trigger] tags(t, 0)[j])
}

/// What a template renders as rests on nothing but its text and its variables: no tag reads the
/// clock, the environment or chance; no macro is called as an argument, where Tera takes the
/// arguments in no fixed order; and the variable that holds all variables is not named beside
/// a macro, where it holds them in no fixed order.
pub open spec fn steady(t: Seq<char>) -> bool {
    &&& !shows(t, Mark::Clock)
    &&& !shows(t, Mark::Environment)
    &&& !shows(t, Mark::Chance)
    &&& !call_nested(t)
    &&& !(shows(t, Mark::Dump) && shows(t, Mark::Opening))
}

/// Whether a template is [`renderable`], where `odd` lists the variables that hold a text that is
/// not [`single`].
pub fn is_renderable(template: &str, odd: &Vec<String>) -> (r: bool)
    ensures
        r == renderable(template@, text::texts(odd@).to_set()),
{
    let t = text::chars(template);
    let tags = read_tags(&t);
    assert(holds_tags(t@, tags@)) by {
        assert forall|j: int| 0 <= j < tags@.len() implies within((#[trigger] tags@[j])@, t@.len()) by {
            assert forall|k: int| 0 <= k < tags@[j]@.len() implies #[trigger] tags@[j]@[k]
                < t@.len() by {}
        }
    }
    let sums = find_spots(&t, &tags, Mark::Sum);
    let products = find_spots(&t, &tags, Mark::Product);
    assert(spots(t@, Mark::Sum).len() == sums@.len());
    assert(spots(t@, Mark::Product).len() == products@.len());
    let parsed = does_show(&t, &tags, Mark::Parsed);
    let long = does_show(&t, &tags, Mark::Long);
    let grown = sums.len() > 20 || (does_show(&t, &tags, Mark::Loop) && does_show(
        &t,
        &tags,
        Mark::Global,
    ));
    let over = sums.len() > 0 && does_show(&t, &tags, Mark::Fraction) && (grown || parsed || long
        || does_show(&t, &tags, Mark::Precision) || products.len() > 3);
    let under = does_show(&t, &tags, Mark::Absolute) && does_show(&t, &tags, Mark::Negative) && (
    grown || parsed || long || does_show(&t, &tags, Mark::Whole) || products.len() > 0);
    !(does_show(&t, &tags, Mark::Reach) && text::contains(template, "__tera_one_off"))
        && !does_block_repeat(&t, &tags) && !(does_show(&t, &tags, Mark::Super) && (does_show(
        &t,
        &tags,
        Mark::Branch,
    ) || does_show(&t, &tags, Mark::Section))) && !does_macro_recur(&t, &tags) && !(does_show(
        &t,
        &tags,
        Mark::Range,
    ) && does_show(&t, &tags, Mark::Step)) && !does_show(&t, &tags, Mark::Random) && !(does_show(
        &t,
        &tags,
        Mark::Based,
    ) && does_show(&t, &tags, Mark::Base)) && !does_show(&t, &tags, Mark::Endless) && is_dated(
        &t,
        &tags,
    ) && !over && !under && !(does_show(&t, &tags, Mark::Remainder) && does_show(
        &t,
        &tags,
        Mark::Negative,
    )) && !does_show(&t, &tags, Mark::Containing) && !does_show(&t, &tags, Mark::Listed)
        && !does_show(&t, &tags, Mark::Index) && !does_show(&t, &tags, Mark::Attribute) && !(does_show(&t, &tags, Mark::Lookup) && (
    !is_plain(&t, &tags, odd) || does_show(&t, &tags, Mark::Truncate))) && are_sound_tags(
        &t,
        &tags,
        odd,
    )
}

// ---------------------------------------------------------------------------
// Plain pages
// ---------------------------------------------------------------------------

/// A mark that stands at no place of a tag shows nowhere in it.
proof fn lemma_no_spots(t: Seq<char>, tag: Seq<int>, mark: Mark)
    requires
        forall|k: int| 0 <= k < tag.len() ==> !mark_at(t, mark, #[trigger] tag[k]),
    ensures
        spots_in(t, tag, mark).len() == 0,
    decreases tag.len(),
{
    if tag.len() > 0 {
        assert(tag.last() == tag[tag.len() - 1]);
        assert forall|k: int| 0 <= k < tag.drop_last().len() implies !mark_at(
            t,
            mark,
            #[trigger] tag.drop_last()[k],
        ) by {
            assert(tag.drop_last()[k] == tag[k]);
        }
        lemma_no_spots(t, tag.drop_last(), mark);
    }
}

/// A text without a tag is renderable.
pub proof fn lemma_tagless_renderable(t: Seq<char>, odd: Set<Seq<char>>)
    requires
        !t.contains('{'),
    ensures
        renderable(t, odd),
        steady(t),
{
    assert forall|k: int| 0 <= k < t.len() implies #[trigger] t[k] != '{' by {
        assert(t.contains(t[k]));
    }
    lemma_text_run(t, 0, t.len() as int);
    assert(tags(t, 0).len() == 0);
    assert forall|mark: Mark| (#[trigger] spots(t, mark)).len() == 0 by {}
}

/// None of the marks that make a template unfit to render stands at a place of a placeholder.
#[verifier::rlimit(40)]
proof fn lemma_placeholder_marks(t: Seq<char>, h: int, tag: Seq<char>, k: int)
    requires
        tag == "{{ importmap }}"@ || tag == "{{ importmap | safe }}"@,
        occurs_at(t, tag, h),
        h + 2 <= k < h + tag.len() - 2,
    ensures
        !ends(t, k),
        !quote(t[k]),
        !mark_at(t, Mark::Reach, k),
        !mark_at(t, Mark::Block, k),
        !mark_at(t, Mark::Super, k),
        !mark_at(t, Mark::Call, k),
        !mark_at(t, Mark::Range, k),
        !mark_at(t, Mark::Random, k),
        !mark_at(t, Mark::Based, k),
        !mark_at(t, Mark::Endless, k),
        !mark_at(t, Mark::Date, k),
        !mark_at(t, Mark::Sum, k),
        !mark_at(t, Mark::Absolute, k),
        !mark_at(t, Mark::Remainder, k),
        !mark_at(t, Mark::Containing, k),
        !mark_at(t, Mark::Listed, k),
        !mark_at(t, Mark::Index, k),
        !mark_at(t, Mark::Attribute, k),
        !mark_at(t, Mark::Lookup, k),
        !mark_at(t, Mark::Join, k),
        !mark_at(t, Mark::Loop, k),
        !mark_at(t, Mark::Clock, k),
        !mark_at(t, Mark::Environment, k),
        !mark_at(t, Mark::Chance, k),
        !mark_at(t, Mark::Dump, k),
{
    reveal_strlit("{{ importmap }}");
    reveal_strlit("{{ importmap | safe }}");
    reveal_strlit("include");
    reveal_strlit("import");
    reveal_strlit("block");
    reveal_strlit("super");
    reveal_strlit("range");
    reveal_strlit("get_random");
    reveal_strlit("int");
    reveal_strlit("date");
    reveal_strlit("abs");
    reveal_strlit("containing");
    reveal_strlit("attribute");
    reveal_strlit("for");
    reveal_strlit("now");
    reveal_strlit("get_env");
    reveal_strlit("__tera_context");
    let m = k - h;
    let seen = t.subrange(h, h + tag.len());
    assert(seen == tag);
    assert(t[k] == seen[m] && t[k + 1] == seen[m + 1]);
    assert(forall|w: Seq<char>|
        #![trigger occurs_at(t, w, k)]
        occurs_at(t, w, k) && w.len() >= 2 ==> w[0] == t[k] && w[1] == t[k + 1]) by {
        assert forall|w: Seq<char>| #[trigger] occurs_at(t, w, k) && w.len() >= 2 implies w[0] == t[k]
            && w[1] == t[k + 1] by {
            let here = t.subrange(k, k + w.len());
            assert(here[0] == t[k] && here[1] == t[k + 1]);
        }
    }
    if m == 3 {
        assert(t[h + 9] == seen[9]);
        assert(!word_at(t, "import"@, k));
        assert(!word_at(t, "include"@, k));
        assert(!word_at(t, "int"@, k));
    }
    assert(m == 2 || m == 3 || m == 4 || m == 5 || m == 6 || m == 7 || m == 8 || m == 9 || m == 10
        || m == 11 || m == 12 || m == 13 || m == 14 || m == 15 || m == 16 || m == 17 || m == 18
        || m == 19);
}

/// A page whose only tag is a placeholder of the import map is renderable.
pub proof fn lemma_placeholder_renderable(
    head: Seq<char>,
    tag: Seq<char>,
    tail: Seq<char>,
    odd: Set<Seq<char>>,
)
    requires
        !head.contains('{'),
        tag == "{{ importmap }}"@ || tag == "{{ importmap | safe }}"@,
        !tail.contains('{'),
    ensures
        renderable(head + tag + tail, odd),
        steady(head + tag + tail),
{
    let t = head + tag + tail;
    let h = head.len() as int;
    let end = h + tag.len();
    reveal_strlit("{{ importmap }}");
    reveal_strlit("{{ importmap | safe }}");
    assert forall|k: int| 0 <= k < h implies #[trigger] t[k] != '{' by {
        assert(head.contains(head[k]));
        assert(t[k] == head[k]);
    }
    assert forall|k: int| end <= k < t.len() implies #[trigger] t[k] != '{' by {
        assert(tail.contains(tail[k - end]));
        assert(t[k] == tail[k - end]);
    }
    assert(t.subrange(h, end) =~= tag);
    assert(occurs_at(t, tag, h));
    assert(t[h] == tag[0] && t[h + 1] == tag[1] && t[h + 2] == tag[2]);
    assert(t[end - 2] == tag[tag.len() - 2] && t[end - 1] == tag[tag.len() - 1]);
    lemma_text_run(t, 0, h);
    assert(opens(t, h));
    assert(inner(t, h) == h + 2);
    assert(lone(t, h, "raw"@) is None);
    assert(closes(t, end - 2));
    assert forall|k: int| h + 2 <= k < end - 2 implies !ends(t, k) && !quote(#[trigger] t[k]) by {
        lemma_placeholder_marks(t, h, tag, k);
    }
    lemma_tag_run(t, h + 2, end - 2);
    lemma_text_run(t, end, t.len() as int);
    let only = body(t, h + 2, None).0;
    assert(tags(t, end).len() == 0);
    assert(tags(t, 0) =~= seq![only]);
    assert forall|mark: Mark|
        (mark == Mark::Reach || mark == Mark::Block || mark == Mark::Super || mark == Mark::Call
            || mark == Mark::Range || mark == Mark::Random || mark == Mark::Based || mark
            == Mark::Endless || mark == Mark::Date || mark == Mark::Sum || mark == Mark::Absolute
            || mark == Mark::Remainder || mark == Mark::Containing || mark == Mark::Listed || mark
            == Mark::Index || mark == Mark::Attribute || mark == Mark::Lookup || mark == Mark::Join || mark == Mark::Loop
            || mark == Mark::Clock || mark == Mark::Environment || mark == Mark::Chance || mark
            == Mark::Dump) implies (#[trigger] spots(t, mark)).len() == 0 && spots_in(
        t,
        only,
        mark,
    ).len() == 0 by {
        assert forall|k: int| 0 <= k < only.len() implies !mark_at(t, mark, #[trigger] only[k]) by {
            lemma_placeholder_marks(t, h, tag, only[k]);
        }
        lemma_no_spots(t, only, mark);
        assert(seq![only].drop_last() =~= Seq::<Seq<int>>::empty());
        assert(seq![only].last() == only);
        assert(spots_of(t, Seq::<Seq<int>>::empty(), mark).len() == 0);
    }
    assert forall|k: int| 0 <= k < only.len() implies !mark_at(
        t,
        Mark::Call,
        #[trigger] only[k],
    ) by {
        lemma_placeholder_marks(t, h, tag, only[k]);
    }
    assert(spots(t, Mark::Reach).len() == 0);
    assert(spots(t, Mark::Block).len() == 0);
    assert(spots(t, Mark::Super).len() == 0);
    assert(spots(t, Mark::Call).len() == 0);
    assert(spots(t, Mark::Range).len() == 0);
    assert(spots(t, Mark::Random).len() == 0);
    assert(spots(t, Mark::Based).len() == 0);
    assert(spots(t, Mark::Endless).len() == 0);
    assert(spots(t, Mark::Date).len() == 0);
    assert(spots(t, Mark::Sum).len() == 0);
    assert(spots(t, Mark::Absolute).len() == 0);
    assert(spots(t, Mark::Remainder).len() == 0);
    assert(spots(t, Mark::Containing).len() == 0);
    assert(spots(t, Mark::Listed).len() == 0);
    assert(spots(t, Mark::Index).len() == 0);
    assert(spots(t, Mark::Attribute).len() == 0);
    assert(spots(t, Mark::Lookup).len() == 0);
    assert(spots(t, Mark::Join).len() == 0);
    assert(spots(t, Mark::Loop).len() == 0);
    assert(spots(t, Mark::Clock).len() == 0);
    assert(spots(t, Mark::Environment).len() == 0);
    assert(spots(t, Mark::Chance).len() == 0);
    assert(spots(t, Mark::Dump).len() == 0);
    assert(sound_tag(t, only, odd));
    assert(!call_nested(t)) by {
        if call_nested(t) {
            let j = choose|j: int|
                0 <= j < tags(t, 0).len() && argument_called(t, #[trigger] tags(t, 0)[j]);
            assert(tags(t, 0)[j] == only);
        }
    }
}

proof fn lemma_spots_in_iff(t: Seq<char>, tag: Seq<int>, mark: Mark, i: int)
    ensures
        spots_in(t, tag, mark).contains(i) <==> tag.contains(i) && mark_at(t, mark, i),
    decreases tag.len(),
{
    if tag.len() > 0 {
        let front = tag.drop_last();
        lemma_spots_in_iff(t, front, mark, i);
        let before = spots_in(t, front, mark);
        let all = spots_in(t, tag, mark);
        if all.contains(i) {
            let k = choose|k: int| 0 <= k < all.len() && all[k] == i;
            if k < before.len() {
                assert(before[k] == i);
                let m = choose|m: int| 0 <= m < front.len() && front[m] == i;
                assert(tag[m] == i);
            } else {
                assert(tag[tag.len() - 1] == i);
            }
        }
        if tag.contains(i) && mark_at(t, mark, i) {
            let m = choose|m: int| 0 <= m < tag.len() && tag[m] == i;
            if m < front.len() {
                assert(front[m] == i);
                let k = choose|k: int| 0 <= k < before.len() && before[k] == i;
                assert(all[k] == i);
            } else {
                assert(all[before.len() as int] == i);
            }
        }
    }
}

proof fn lemma_spots_of_iff(t: Seq<char>, list: Seq<Seq<int>>, mark: Mark, i: int)
    ensures
        spots_of(t, list, mark).contains(i) <==> exists|j: int|
            0 <= j < list.len() && (#[trigger] list[j]).contains(i) && mark_at(t, mark, i),
    decreases list.len(),
{
    if list.len() > 0 {
        let front = list.drop_last();
        lemma_spots_of_iff(t, front, mark, i);
        lemma_spots_in_iff(t, list.last(), mark, i);
        let before = spots_of(t, front, mark);
        let back = spots_in(t, list.last(), mark);
        let all = spots_of(t, list, mark);
        if all.contains(i) {
            let k = choose|k: int| 0 <= k < all.len() && all[k] == i;
            if k < before.len() {
                assert(before[k] == i);
                let j = choose|j: int|
                    0 <= j < front.len() && (#[trigger] front[j]).contains(i) && mark_at(t, mark, i);
                assert(list[j].contains(i));
            } else {
                assert(back[k - before.len()] == i);
                assert(list[list.len() - 1].contains(i));
            }
        }
        if exists|j: int|
            0 <= j < list.len() && (#[trigger] list[j]).contains(i) && mark_at(t, mark, i) {
            let j = choose|j: int|
                0 <= j < list.len() && (#[trigger] list[j]).contains(i) && mark_at(t, mark, i);
            if j < front.len() {
                assert(front[j].contains(i));
                let k = choose|k: int| 0 <= k < before.len() && before[k] == i;
                assert(all[k] == i);
            } else {
                let k = choose|k: int| 0 <= k < back.len() && back[k] == i;
                assert(all[before.len() + k] == i);
            }
        }
    }
}

/// A template shows a mark exactly when the mark stands at a place of one of its tags, outside the
/// tag's strings.
pub proof fn law_marks_stand_in_tags(t: Seq<char>, mark: Mark)
    ensures
        shows(t, mark) <==> exists|j: int, i: int|
            0 <= j < tags(t, 0).len() && #[trigger] tags(t, 0)[j].contains(i) && mark_at(t, mark, i),
{
    let all = spots(t, mark);
    if shows(t, mark) {
        let i = all[0];
        assert(all.contains(i));
        lemma_spots_of_iff(t, tags(t, 0), mark, i);
        let j = choose|j: int|
            0 <= j < tags(t, 0).len() && (#[trigger] tags(t, 0)[j]).contains(i) && mark_at(
                t,
                mark,
                i,
            );
        assert(tags(t, 0)[j].contains(i));
    }
    if exists|j: int, i: int|
        0 <= j < tags(t, 0).len() && #[trigger] tags(t, 0)[j].contains(i) && mark_at(t, mark, i) {
        let (j, i) = choose|j: int, i: int|
            0 <= j < tags(t, 0).len() && #[trigger] tags(t, 0)[j].contains(i) && mark_at(
                t,
                mark,
                i,
            );
        lemma_spots_of_iff(t, tags(t, 0), mark, i);
        assert(all.contains(i));
    }
}

/// Each of these is enough to keep a template from being rendered, whatever else it holds.
pub proof fn law_refused_templates(t: Seq<char>, odd: Set<Seq<char>>)
    ensures
        shows(t, Mark::Reach) && text::has(t, "__tera_one_off"@) ==> !renderable(t, odd),
        block_repeats(t) || macro_recurs(t) ==> !renderable(t, odd),
        shows(t, Mark::Super) && shows(t, Mark::Branch) ==> !renderable(t, odd),
        shows(t, Mark::Super) && shows(t, Mark::Section) ==> !renderable(t, odd),
        shows(t, Mark::Range) && shows(t, Mark::Step) ==> !renderable(t, odd),
        shows(t, Mark::Based) && shows(t, Mark::Base) ==> !renderable(t, odd),
        shows(t, Mark::Remainder) && shows(t, Mark::Negative) ==> !renderable(t, odd),
        shows(t, Mark::Random) || shows(t, Mark::Endless) || shows(t, Mark::Containing) || shows(
            t,
            Mark::Listed,
        ) || shows(t, Mark::Index) || shows(t, Mark::Attribute) ==> !renderable(t, odd),
        shows(t, Mark::Sum) && shows(t, Mark::Fraction) && shows(t, Mark::Parsed) ==> !renderable(
            t,
            odd,
        ),
        shows(t, Mark::Absolute) && shows(t, Mark::Negative) && shows(t, Mark::Whole) ==> !renderable(
            t,
            odd,
        ),
        shows(t, Mark::Lookup) && shows(t, Mark::Truncate) ==> !renderable(t, odd),
        (exists|j: int|
            0 <= j < tags(t, 0).len() && (condition_joined(t, #[trigger] tags(t, 0)[j])
                || condition_called(t, tags(t, 0)[j]) || operand_called(t, tags(t, 0)[j])))
            ==> !renderable(t, odd),
{
    if exists|j: int|
        0 <= j < tags(t, 0).len() && (condition_joined(t, #[trigger] tags(t, 0)[j])
            || condition_called(t, tags(t, 0)[j]) || operand_called(t, tags(t, 0)[j])) {
        let j = choose|j: int|
            0 <= j < tags(t, 0).len() && (condition_joined(t, #[trigger] tags(t, 0)[j])
                || condition_called(t, tags(t, 0)[j]) || operand_called(t, tags(t, 0)[j]));
        assert(!sound_tag(t, tags(t, 0)[j], odd));
    }
}

proof fn lemma_shown_in_a_tag(t: Seq<char>, j: int, mark: Mark)
    requires
        0 <= j < tags(t, 0).len(),
        !shows(t, mark),
    ensures
        !shows_in(t, tags(t, 0)[j], mark),
        forall|k: int|
            0 <= k < tags(t, 0)[j].len() ==> !mark_at(t, mark, #[trigger] tags(t, 0)[j][k]),
{
    law_marks_stand_in_tags(t, mark);
    let tag = tags(t, 0)[j];
    if shows_in(t, tag, mark) {
        let i = spots_in(t, tag, mark)[0];
        assert(spots_in(t, tag, mark).contains(i));
        lemma_spots_in_iff(t, tag, mark, i);
        assert(tags(t, 0)[j].contains(i));
    }
    assert forall|k: int| 0 <= k < tag.len() implies !mark_at(t, mark, #[trigger] tag[k]) by {
        if mark_at(t, mark, tag[k]) {
            assert(tags(t, 0)[j].contains(tag[k]));
        }
    }
}

/// A template without loops, calls, dates, numbers computed with, or any of the marks that go wrong
/// by themselves is rendered: conditions, texts put together and filters are no obstacle.
pub proof fn law_harmless_templates(t: Seq<char>, odd: Set<Seq<char>>)
    requires
        !shows(t, Mark::Reach),
        !shows(t, Mark::Block),
        !shows(t, Mark::Super),
        !shows(t, Mark::Call),
        !shows(t, Mark::Range),
        !shows(t, Mark::Random),
        !shows(t, Mark::Based),
        !shows(t, Mark::Endless),
        !shows(t, Mark::Date),
        !shows(t, Mark::Sum),
        !shows(t, Mark::Absolute),
        !shows(t, Mark::Remainder),
        !shows(t, Mark::Containing),
        !shows(t, Mark::Listed),
        !shows(t, Mark::Index),
        !shows(t, Mark::Attribute),
        !shows(t, Mark::Lookup),
        !shows(t, Mark::Loop),
        !shows(t, Mark::Join) || (!shows(t, Mark::Filter) && !shows(t, Mark::Negation)) || (!shows(
            t,
            Mark::Branch,
        ) && !shows(t, Mark::Junction)),
    ensures
        renderable(t, odd),
{
    assert forall|j: int| 0 <= j < tags(t, 0).len() implies sound_tag(
        t,
        #[trigger] tags(t, 0)[j],
        odd,
    ) by {
        lemma_shown_in_a_tag(t, j, Mark::Call);
        lemma_shown_in_a_tag(t, j, Mark::Loop);
        if !shows(t, Mark::Join) {
            lemma_shown_in_a_tag(t, j, Mark::Join);
        } else if !shows(t, Mark::Filter) && !shows(t, Mark::Negation) {
            lemma_shown_in_a_tag(t, j, Mark::Filter);
            lemma_shown_in_a_tag(t, j, Mark::Negation);
        } else {
            lemma_shown_in_a_tag(t, j, Mark::Branch);
            lemma_shown_in_a_tag(t, j, Mark::Junction);
        }
    }
}

/// Reading the clock, the environment or chance makes a template unsteady, and so do the two orders
/// that are not fixed; nothing else does.
pub proof fn law_steady_templates(t: Seq<char>)
    ensures
        shows(t, Mark::Clock) || shows(t, Mark::Environment) || shows(t, Mark::Chance) ==> !steady(t),
        shows(t, Mark::Dump) && shows(t, Mark::Opening) ==> !steady(t),
        call_nested(t) ==> !steady(t),
        !shows(t, Mark::Clock) && !shows(t, Mark::Environment) && !shows(t, Mark::Chance) && !shows(
            t,
            Mark::Call,
        ) && !shows(t, Mark::Dump) ==> steady(t),
{
    if call_nested(t) && !shows(t, Mark::Call) {
        let j = choose|j: int|
            0 <= j < tags(t, 0).len() && argument_called(t, #[trigger] tags(t, 0)[j]);
        lemma_shown_in_a_tag(t, j, Mark::Call);
    }
}

} // verus!
