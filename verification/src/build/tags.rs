//! Where the tags of a Tera template stand and how what stands in them is read: names,
//! numbers, strings, calls, filters and statements.

use vstd::prelude::*;

use crate::text;
use crate::text::occurs_at;

verus! {

// ---------------------------------------------------------------------------
// Characters
// ---------------------------------------------------------------------------

pub open spec fn digit(c: char) -> bool {
    '0' <= c <= '9'
}

pub fn is_digit(c: char) -> (r: bool)
    ensures
        r == digit(c),
{
    '0' <= c && c <= '9'
}

/// A character that a Tera identifier can begin with.
pub open spec fn letter(c: char) -> bool {
    'a' <= c <= 'z' || 'A' <= c <= 'Z' || c == '_'
}

pub fn is_letter(c: char) -> (r: bool)
    ensures
        r == letter(c),
{
    ('a' <= c && c <= 'z') || ('A' <= c && c <= 'Z') || c == '_'
}

/// A character of a Tera identifier.
pub open spec fn ident_char(c: char) -> bool {
    letter(c) || digit(c)
}

pub fn is_ident_char(c: char) -> (r: bool)
    ensures
        r == ident_char(c),
{
    is_letter(c) || is_digit(c)
}

/// Tera's white space.
pub open spec fn blank(c: char) -> bool {
    c == ' ' || c == '\t' || c == '\r' || c == '\n'
}

pub fn is_blank(c: char) -> (r: bool)
    ensures
        r == blank(c),
{
    c == ' ' || c == '\t' || c == '\r' || c == '\n'
}

/// A string begins with this character, and ends with it too.
pub open spec fn quote(c: char) -> bool {
    c == '"' || c == '\'' || c == '`'
}

pub fn is_quote(c: char) -> (r: bool)
    ensures
        r == quote(c),
{
    c == '"' || c == '\'' || c == '`'
}

/// The character at place `i` is `c`.
pub open spec fn at(t: Seq<char>, i: int, c: char) -> bool {
    0 <= i < t.len() && t[i] == c
}

/// Whether the character `more` places behind place `i` is `c`.
pub fn is_at(t: &Vec<char>, i: usize, more: usize, c: char) -> (r: bool)
    ensures
        r == at(t@, i + more, c),
{
    i < t.len() && more < t.len() - i && t[i + more] == c
}

/// The first place at or after `i` that holds no white space.
pub open spec fn skip(t: Seq<char>, i: int) -> int
    decreases t.len() - i,
{
    if 0 <= i < t.len() && blank(t[i]) {
        skip(t, i + 1)
    } else {
        i
    }
}

pub fn skip_blanks(t: &Vec<char>, from: usize) -> (r: usize)
    requires
        from <= t@.len(),
    ensures
        r == skip(t@, from as int),
        from <= r <= t@.len(),
{
    let mut i: usize = from;
    while i < t.len() && is_blank(t[i])
        invariant
            from <= i <= t@.len(),
            skip(t@, from as int) == skip(t@, i as int),
        decreases t@.len() - i,
    {
        i += 1;
    }
    i
}

/// The place of the last character before place `i` that is no white space.
pub open spec fn last_before(t: Seq<char>, i: int) -> Option<int>
    decreases i,
{
    if i <= 0 || i > t.len() {
        None
    } else if blank(t[i - 1]) {
        last_before(t, i - 1)
    } else {
        Some(i - 1)
    }
}

pub fn find_before(t: &Vec<char>, from: usize) -> (r: Option<usize>)
    requires
        from <= t@.len(),
    ensures
        match r {
            Some(k) => k < from && last_before(t@, from as int) == Some(k as int),
            None => last_before(t@, from as int) is None,
        },
{
    let mut i: usize = from;
    while i > 0 && is_blank(t[i - 1])
        invariant
            i <= from <= t@.len(),
            last_before(t@, from as int) == last_before(t@, i as int),
        decreases i,
    {
        i -= 1;
    }
    if i > 0 {
        Some(i - 1)
    } else {
        None
    }
}

// ---------------------------------------------------------------------------
// Tags
// ---------------------------------------------------------------------------

/// A variable or a statement tag opens at place `i`.
pub open spec fn opens(t: Seq<char>, i: int) -> bool {
    at(t, i, '{') && (at(t, i + 1, '{') || at(t, i + 1, '%'))
}

/// A variable or a statement tag closes at place `i`.
pub open spec fn closes(t: Seq<char>, i: int) -> bool {
    (at(t, i, '}') || at(t, i, '%')) && at(t, i + 1, '}')
}

/// A tag ends at place `i`, with or without the dash that trims the text behind it.
pub open spec fn ends(t: Seq<char>, i: int) -> bool {
    closes(t, i) || (at(t, i, '-') && closes(t, i + 1))
}

/// Whether a tag ends at place `i`.
pub fn is_end(t: &Vec<char>, i: usize) -> (r: bool)
    ensures
        r == ends(t@, i as int),
{
    ((is_at(t, i, 0, '}') || is_at(t, i, 0, '%')) && is_at(t, i, 1, '}')) || (is_at(t, i, 0, '-')
        && (is_at(t, i, 1, '}') || is_at(t, i, 1, '%')) && is_at(t, i, 2, '}'))
}

/// What a tag holds begins here, for a tag that opens at place `i`: behind the dash that trims
/// the text before it, if there is one.
pub open spec fn inner(t: Seq<char>, i: int) -> int {
    if at(t, i + 2, '-') {
        i + 3
    } else {
        i + 2
    }
}

/// The place behind the statement tag that opens at place `i` and holds nothing but `word`,
/// if there is such a tag.
pub open spec fn lone(t: Seq<char>, i: int, word: Seq<char>) -> Option<int> {
    let from = skip(t, inner(t, i));
    let to = skip(t, from + word.len());
    let close = if at(t, to, '-') {
        to + 1
    } else {
        to
    };
    if at(t, i, '{') && at(t, i + 1, '%') && occurs_at(t, word, from) && at(t, close, '%') && at(
        t,
        close + 1,
        '}',
    ) {
        Some(close + 2)
    } else {
        None
    }
}

fn find_lone(t: &Vec<char>, i: usize, word: &str) -> (r: Option<usize>)
    ensures
        match r {
            Some(k) => i < k <= t@.len() && lone(t@, i as int, word@) == Some(k as int),
            None => lone(t@, i as int, word@) is None,
        },
{
    let _n: usize = t.len();
    if !is_at(t, i, 0, '{') || !is_at(t, i, 1, '%') {
        return None;
    }
    let start: usize = if is_at(t, i, 2, '-') {
        i + 3
    } else {
        i + 2
    };
    let from = skip_blanks(t, start);
    let w = text::chars(word);
    if !text::matches_at(t, &w, from) {
        return None;
    }
    assert(from + w@.len() <= t.len());
    let to = skip_blanks(t, from + w.len());
    let close: usize = if is_at(t, to, 0, '-') {
        to + 1
    } else {
        to
    };
    if is_at(t, close, 0, '%') && is_at(t, close, 1, '}') {
        Some(close + 2)
    } else {
        None
    }
}

/// The place behind the end of a `raw` section whose text begins at place `i`.
pub open spec fn raw_end(t: Seq<char>, i: int) -> int
    decreases t.len() - i,
{
    if i < 0 || i >= t.len() {
        t.len() as int
    } else {
        match lone(t, i, "endraw"@) {
            Some(end) => end,
            None => raw_end(t, i + 1),
        }
    }
}

fn find_raw_end(t: &Vec<char>, from: usize) -> (r: usize)
    requires
        from <= t@.len(),
    ensures
        r == raw_end(t@, from as int),
        from <= r <= t@.len(),
{
    let mut i: usize = from;
    while i < t.len()
        invariant
            from <= i <= t@.len(),
            raw_end(t@, from as int) == raw_end(t@, i as int),
        decreases t@.len() - i,
    {
        match find_lone(t, i, "endraw") {
            Some(end) => {
                return end;
            },
            None => {
                i += 1;
            },
        }
    }
    i
}

/// The place behind the end of a comment whose text begins at place `i`.
pub open spec fn comment_end(t: Seq<char>, i: int) -> int
    decreases t.len() - i,
{
    if i < 0 || i >= t.len() {
        t.len() as int
    } else if at(t, i, '#') && at(t, i + 1, '}') {
        i + 2
    } else {
        comment_end(t, i + 1)
    }
}

fn find_comment_end(t: &Vec<char>, from: usize) -> (r: usize)
    requires
        from <= t@.len(),
    ensures
        r == comment_end(t@, from as int),
        from <= r <= t@.len(),
{
    let mut i: usize = from;
    while i < t.len()
        invariant
            from <= i <= t@.len(),
            comment_end(t@, from as int) == comment_end(t@, i as int),
        decreases t@.len() - i,
    {
        if is_at(t, i, 0, '#') && is_at(t, i, 1, '}') {
            return i + 2;
        }
        i += 1;
    }
    i
}

/// What is left of a tag from place `i` on, where a string that ends with `quoted` is open or
/// none is: the places outside its strings, each string's first quote among them, and the place
/// behind the tag.
pub open spec fn body(t: Seq<char>, i: int, quoted: Option<char>) -> (Seq<int>, int)
    decreases t.len() - i,
{
    if i < 0 || i >= t.len() {
        (Seq::empty(), t.len() as int)
    } else {
        match quoted {
            Some(q) => body(
                t,
                i + 1,
                if t[i] == q {
                    None
                } else {
                    quoted
                },
            ),
            None => if closes(t, i) {
                (Seq::empty(), i + 2)
            } else if ends(t, i) {
                (Seq::empty(), i + 3)
            } else {
                let rest = body(
                    t,
                    i + 1,
                    if quote(t[i]) {
                        Some(t[i])
                    } else {
                        None
                    },
                );
                (seq![i] + rest.0, rest.1)
            },
        }
    }
}

/// The places that a list of indices stands for.
pub open spec fn places(v: Seq<usize>) -> Seq<int> {
    Seq::new(v.len(), |k: int| v[k] as int)
}

fn read_body(t: &Vec<char>, from: usize) -> (r: (Vec<usize>, usize))
    requires
        from <= t@.len(),
    ensures
        places(r.0@) == body(t@, from as int, None).0,
        r.1 == body(t@, from as int, None).1,
        from <= r.1 <= t@.len(),
        forall|k: int| 0 <= k < r.0@.len() ==> #[trigger] r.0@[k] < t@.len(),
{
    let mut out: Vec<usize> = Vec::new();
    let mut quoted: Option<char> = None;
    let mut i: usize = from;
    let ghost whole = body(t@, from as int, None);
    assert(places(out@) + whole.0 =~= whole.0);
    while i < t.len()
        invariant
            from <= i <= t@.len(),
            places(out@) + body(t@, i as int, quoted).0 == whole.0,
            body(t@, i as int, quoted).1 == whole.1,
            whole == body(t@, from as int, None),
            forall|k: int| 0 <= k < out@.len() ==> #[trigger] out@[k] < t@.len(),
        decreases t@.len() - i,
    {
        let c = t[i];
        match quoted {
            Some(q) => {
                if c == q {
                    quoted = None;
                }
                i += 1;
            },
            None => {
                if (c == '}' || c == '%') && is_at(t, i, 1, '}') {
                    assert(places(out@) =~= whole.0);
                    return (out, i + 2);
                }
                if is_end(t, i) {
                    assert(places(out@) =~= whole.0);
                    return (out, i + 3);
                }
                let ghost before = places(out@);
                out.push(i);
                if is_quote(c) {
                    quoted = Some(c);
                }
                i += 1;
                proof {
                    let rest = body(t@, i as int, quoted).0;
                    assert(before + (seq![i - 1] + rest) =~= places(out@) + rest);
                }
            },
        }
    }
    assert(places(out@) =~= whole.0);
    (out, i)
}

/// The tags from place `i` on, for a reader who is in the text there: of each the places
/// outside its strings. Comments and `raw` sections hold none.
pub open spec fn tags(t: Seq<char>, i: int) -> Seq<Seq<int>>
    decreases t.len() - i,
{
    if i < 0 || i >= t.len() {
        Seq::empty()
    } else if lone(t, i, "raw"@) is Some {
        let end = raw_end(t, lone(t, i, "raw"@)->0);
        if i < end <= t.len() {
            tags(t, end)
        } else {
            Seq::empty()
        }
    } else if opens(t, i) {
        let read = body(t, inner(t, i), None);
        if i < read.1 <= t.len() {
            seq![read.0] + tags(t, read.1)
        } else {
            seq![read.0]
        }
    } else if at(t, i, '{') && at(t, i + 1, '#') {
        let end = comment_end(t, i + 2);
        if i < end <= t.len() {
            tags(t, end)
        } else {
            Seq::empty()
        }
    } else {
        tags(t, i + 1)
    }
}

/// The places that a list of lists of indices stands for.
pub open spec fn all_places(v: Seq<Vec<usize>>) -> Seq<Seq<int>> {
    Seq::new(v.len(), |k: int| places(v[k]@))
}

/// The tags of a whole template.
pub fn read_tags(t: &Vec<char>) -> (r: Vec<Vec<usize>>)
    ensures
        all_places(r@) == tags(t@, 0),
        forall|j: int, k: int|
            0 <= j < r@.len() && 0 <= k < r@[j]@.len() ==> #[trigger] r@[j]@[k] < t@.len(),
{
    let mut out: Vec<Vec<usize>> = Vec::new();
    let mut i: usize = 0;
    let ghost all = tags(t@, 0);
    assert(all_places(out@) + all =~= all);
    while i < t.len()
        invariant
            i <= t@.len(),
            all_places(out@) + tags(t@, i as int) == all,
            forall|j: int, k: int|
                0 <= j < out@.len() && 0 <= k < out@[j]@.len() ==> #[trigger] out@[j]@[k] < t@.len(),
        decreases t@.len() - i,
    {
        match find_lone(t, i, "raw") {
            Some(start) => {
                i = find_raw_end(t, start);
            },
            None => {
                if is_at(t, i, 0, '{') && (is_at(t, i, 1, '{') || is_at(t, i, 1, '%')) {
                    let start: usize = if is_at(t, i, 2, '-') {
                        i + 3
                    } else {
                        i + 2
                    };
                    let (read, end) = read_body(t, start);
                    let ghost before = all_places(out@);
                    let ghost had = out@;
                    out.push(read);
                    proof {
                        let rest = tags(t@, end as int);
                        assert(before + (seq![places(read@)] + rest) =~= all_places(out@) + rest);
                        assert forall|j: int, k: int|
                            0 <= j < out@.len() && 0 <= k < out@[j]@.len() implies
                            #[trigger] out@[j]@[k] < t@.len() by {
                            if j < had.len() {
                                assert(out@[j] == had[j]);
                            }
                        }
                    }
                    i = end;
                } else if is_at(t, i, 0, '{') && is_at(t, i, 1, '#') {
                    i = find_comment_end(t, i + 2);
                } else {
                    i += 1;
                }
            },
        }
    }
    assert(all_places(out@) =~= all);
    out
}

// ---------------------------------------------------------------------------
// Names
// ---------------------------------------------------------------------------

/// The place behind the identifier that stands at place `i`.
pub open spec fn name_end(t: Seq<char>, i: int) -> int
    decreases t.len() - i,
{
    if 0 <= i < t.len() && ident_char(t[i]) {
        name_end(t, i + 1)
    } else {
        i
    }
}

pub fn find_name_end(t: &Vec<char>, from: usize) -> (r: usize)
    requires
        from <= t@.len(),
    ensures
        r == name_end(t@, from as int),
        from <= r <= t@.len(),
{
    let mut i: usize = from;
    while i < t.len() && is_ident_char(t[i])
        invariant
            from <= i <= t@.len(),
            name_end(t@, from as int) == name_end(t@, i as int),
        decreases t@.len() - i,
    {
        i += 1;
    }
    i
}

/// The place where the identifier begins that ends right before place `i`.
pub open spec fn name_start(t: Seq<char>, i: int) -> int
    decreases i,
{
    if 0 < i <= t.len() && ident_char(t[i - 1]) {
        name_start(t, i - 1)
    } else {
        i
    }
}

pub fn find_name_start(t: &Vec<char>, from: usize) -> (r: usize)
    requires
        from <= t@.len(),
    ensures
        r == name_start(t@, from as int),
        r <= from,
{
    let mut i: usize = from;
    while i > 0 && is_ident_char(t[i - 1])
        invariant
            i <= from <= t@.len(),
            name_start(t@, from as int) == name_start(t@, i as int),
        decreases i,
    {
        i -= 1;
    }
    i
}

/// The identifier that stands at place `i`.
pub open spec fn name(t: Seq<char>, i: int) -> Seq<char> {
    t.subrange(i, name_end(t, i))
}

pub fn read_name(t: &Vec<char>, i: usize) -> (r: String)
    requires
        i <= t@.len(),
    ensures
        r@ == name(t@, i as int),
{
    text::slice(t, i, find_name_end(t, i))
}

/// `word` stands at place `i` as an identifier of its own.
pub open spec fn word_at(t: Seq<char>, word: Seq<char>, i: int) -> bool {
    &&& occurs_at(t, word, i)
    &&& i > 0 ==> !ident_char(t[i - 1])
    &&& i + word.len() < t.len() ==> !ident_char(t[i + word.len()])
}

pub fn is_word(t: &Vec<char>, word: &str, i: usize) -> (r: bool)
    ensures
        r == word_at(t@, word@, i as int),
{
    let w = text::chars(word);
    let n: usize = t.len();
    if !text::matches_at(t, &w, i) {
        return false;
    }
    if i > 0 && is_ident_char(t[i - 1]) {
        return false;
    }
    let end = i + w.len();
    !(end < n && is_ident_char(t[end]))
}

/// Whether `word` stands at place `i`, as a part of an identifier or by itself.
pub fn is_part(t: &Vec<char>, word: &str, i: usize) -> (r: bool)
    ensures
        r == occurs_at(t@, word@, i as int),
{
    let w = text::chars(word);
    text::matches_at(t, &w, i)
}

/// `word` ends at place `i`.
pub open spec fn ended_by(t: Seq<char>, word: Seq<char>, i: int) -> bool {
    occurs_at(t, word, i + 1 - word.len())
}

pub fn is_ended_by(t: &Vec<char>, word: &str, i: usize) -> (r: bool)
    requires
        i < t@.len(),
    ensures
        r == ended_by(t@, word@, i as int),
{
    let w = text::chars(word);
    let _n: usize = t.len();
    i + 1 >= w.len() && text::matches_at(t, &w, i + 1 - w.len())
}

// ---------------------------------------------------------------------------
// Calls, filters and statements
// ---------------------------------------------------------------------------

/// The first character at or after place `i` that is no white space is an opening bracket.
pub open spec fn bracket_follows(t: Seq<char>, i: int) -> bool {
    at(t, skip(t, i), '(')
}

pub fn is_called(t: &Vec<char>, i: usize) -> (r: bool)
    requires
        i <= t@.len(),
    ensures
        r == bracket_follows(t@, i as int),
{
    is_at(t, skip_blanks(t, i), 0, '(')
}

/// `name` stands at place `i` and is called there. What stands before it does not count: the
/// operator `in` needs no white space behind it.
pub open spec fn call_at(t: Seq<char>, name: Seq<char>, i: int) -> bool {
    occurs_at(t, name, i) && bracket_follows(t, i + name.len())
}

pub fn is_call(t: &Vec<char>, name: &str, i: usize) -> (r: bool)
    ensures
        r == call_at(t@, name@, i as int),
{
    let w = text::chars(name);
    if !text::matches_at(t, &w, i) {
        return false;
    }
    assert(i + w@.len() <= t.len());
    is_called(t, i + w.len())
}

/// The filter `name` is applied at place `i`: behind a `|`, or by the statement `filter`.
pub open spec fn filter_at(t: Seq<char>, name: Seq<char>, i: int) -> bool {
    word_at(t, name, i) && (last_before(t, i) matches Some(k) && (t[k] == '|' || ended_by(
        t,
        "filter"@,
        k,
    )))
}

pub fn is_filter(t: &Vec<char>, name: &str, i: usize) -> (r: bool)
    ensures
        r == filter_at(t@, name@, i as int),
{
    if !is_word(t, name, i) {
        return false;
    }
    match find_before(t, i) {
        Some(k) => t[k] == '|' || is_ended_by(t, "filter", k),
        None => false,
    }
}

/// The statement `name` stands at place `i`: behind what opens a statement tag.
pub open spec fn statement_at(t: Seq<char>, name: Seq<char>, i: int) -> bool {
    word_at(t, name, i) && (last_before(t, i) matches Some(k) && (t[k] == '%' || t[k] == '-'))
}

pub fn is_statement(t: &Vec<char>, name: &str, i: usize) -> (r: bool)
    ensures
        r == statement_at(t@, name@, i as int),
{
    if !is_word(t, name, i) {
        return false;
    }
    match find_before(t, i) {
        Some(k) => t[k] == '%' || t[k] == '-',
        None => false,
    }
}

// ---------------------------------------------------------------------------
// Numbers and strings
// ---------------------------------------------------------------------------

/// How many digits stand right before place `i`.
pub open spec fn digits_before(t: Seq<char>, i: int) -> nat
    decreases i,
{
    if 0 < i <= t.len() && digit(t[i - 1]) {
        digits_before(t, i - 1) + 1
    } else {
        0
    }
}

pub fn count_digits(t: &Vec<char>, from: usize) -> (r: usize)
    requires
        from <= t@.len(),
    ensures
        r == digits_before(t@, from as int),
{
    let mut i: usize = from;
    while i > 0 && is_digit(t[i - 1])
        invariant
            i <= from <= t@.len(),
            digits_before(t@, from as int) == digits_before(t@, i as int) + (from - i),
        decreases i,
    {
        i -= 1;
    }
    from - i
}

/// The number that the digits from place `i` on make, behind the ones that made `so_far`, and
/// the place behind them; at most `room` digits more.
pub open spec fn number(t: Seq<char>, i: int, so_far: int, room: nat) -> (int, int)
    decreases room,
{
    if room > 0 && 0 <= i < t.len() && digit(t[i]) {
        number(t, i + 1, so_far * 10 + (t[i] as int - '0' as int), (room - 1) as nat)
    } else {
        (so_far, i)
    }
}

/// The integer of at most eighteen digits that stands at place `i`, and the place behind it.
pub open spec fn integer(t: Seq<char>, i: int) -> Option<(int, int)> {
    let from = if at(t, i, '-') {
        i + 1
    } else {
        i
    };
    let read = number(t, from, 0, 18);
    if 0 <= from < t.len() && digit(t[from]) {
        Some((
            if at(t, i, '-') {
                -read.0
            } else {
                read.0
            },
            read.1,
        ))
    } else {
        None
    }
}

fn read_integer(t: &Vec<char>, i: usize) -> (r: Option<(i64, usize)>)
    requires
        i <= t@.len(),
    ensures
        match r {
            Some((v, end)) => integer(t@, i as int) == Some((v as int, end as int)) && i <= end
                <= t@.len(),
            None => integer(t@, i as int) is None,
        },
{
    let _n: usize = t.len();
    let negative = is_at(t, i, 0, '-');
    let from: usize = if negative {
        i + 1
    } else {
        i
    };
    if !(from < t.len() && is_digit(t[from])) {
        return None;
    }
    let mut k: usize = from;
    let mut v: i64 = 0;
    let mut room: u8 = 18;
    let mut top: i64 = 1;
    while room > 0 && k < t.len() && is_digit(t[k])
        invariant
            from <= k <= t@.len(),
            room <= 18,
            0 <= v < top,
            1 <= top,
            room == 18 ==> top == 1,
            room == 17 ==> top == 10,
            room == 16 ==> top == 100,
            room == 15 ==> top == 1000,
            room == 14 ==> top == 10000,
            room == 13 ==> top == 100000,
            room == 12 ==> top == 1000000,
            room == 11 ==> top == 10000000,
            room == 10 ==> top == 100000000,
            room == 9 ==> top == 1000000000,
            room == 8 ==> top == 10000000000,
            room == 7 ==> top == 100000000000,
            room == 6 ==> top == 1000000000000,
            room == 5 ==> top == 10000000000000,
            room == 4 ==> top == 100000000000000,
            room == 3 ==> top == 1000000000000000,
            room == 2 ==> top == 10000000000000000,
            room == 1 ==> top == 100000000000000000,
            room == 0 ==> top == 1000000000000000000,
            number(t@, from as int, 0, 18) == number(t@, k as int, v as int, room as nat),
        decreases room,
    {
        let d: i64 = (t[k] as u32 - '0' as u32) as i64;
        v = v * 10 + d;
        top = top * 10;
        room = room - 1;
        k += 1;
    }
    if negative {
        Some((-v, k))
    } else {
        Some((v, k))
    }
}

/// The integer that the argument `name` is given at place `i`, if the argument is no more than
/// that, and the place of the comma or the closing bracket that follows.
pub open spec fn argument(t: Seq<char>, i: int, name: Seq<char>) -> Option<(int, int)> {
    let sign = skip(t, i + name.len());
    match integer(t, skip(t, sign + 1)) {
        Some((v, end)) => if word_at(t, name, i) && at(t, sign, '=') && (at(t, skip(t, end), ',')
            || at(t, skip(t, end), ')')) {
            Some((v, skip(t, end)))
        } else {
            None
        },
        None => None,
    }
}

pub fn read_argument(t: &Vec<char>, i: usize, name: &str) -> (r: Option<(i64, usize)>)
    ensures
        match r {
            Some((v, next)) => argument(t@, i as int, name@) == Some((v as int, next as int))
                && next < t@.len(),
            None => argument(t@, i as int, name@) is None,
        },
{
    if !is_word(t, name, i) {
        return None;
    }
    let w = text::chars(name);
    let _n: usize = t.len();
    let sign = skip_blanks(t, i + w.len());
    if !is_at(t, sign, 0, '=') {
        return None;
    }
    match read_integer(t, skip_blanks(t, sign + 1)) {
        Some((v, end)) => {
            let next = skip_blanks(t, end);
            if is_at(t, next, 0, ',') || is_at(t, next, 0, ')') {
                Some((v, next))
            } else {
                None
            }
        },
        None => None,
    }
}

/// The place of the quote that ends a string, for a reader who is in it at place `i`.
pub open spec fn string_end(t: Seq<char>, i: int, q: char) -> int
    decreases t.len() - i,
{
    if 0 <= i < t.len() && t[i] != q {
        string_end(t, i + 1, q)
    } else {
        i
    }
}

pub fn find_string_end(t: &Vec<char>, from: usize, q: char) -> (r: usize)
    requires
        from <= t@.len(),
    ensures
        r == string_end(t@, from as int, q),
        from <= r <= t@.len(),
{
    let mut i: usize = from;
    while i < t.len() && t[i] != q
        invariant
            from <= i <= t@.len(),
            string_end(t@, from as int, q) == string_end(t@, i as int, q),
        decreases t@.len() - i,
    {
        i += 1;
    }
    i
}

/// The text of the string whose first quote stands at place `i`.
pub open spec fn string(t: Seq<char>, i: int) -> Seq<char> {
    t.subrange(i + 1, string_end(t, i + 1, t[i]))
}

pub fn read_string(t: &Vec<char>, i: usize) -> (r: String)
    requires
        i < t@.len(),
    ensures
        r@ == string(t@, i as int),
{
    let _n: usize = t.len();
    text::slice(t, i + 1, find_string_end(t, i + 1, t[i]))
}

/// The place of the comma or the closing bracket behind the argument `name` at place `i`, if that
/// argument is a string and no more.
pub open spec fn text_argument(t: Seq<char>, i: int, name: Seq<char>) -> Option<int> {
    let sign = skip(t, i + name.len());
    let from = skip(t, sign + 1);
    let next = skip(t, string_end(t, from + 1, t[from]) + 1);
    if word_at(t, name, i) && at(t, sign, '=') && from < t.len() && quote(t[from]) && (at(
        t,
        next,
        ',',
    ) || at(t, next, ')')) {
        Some(next)
    } else {
        None
    }
}

pub fn find_text_argument(t: &Vec<char>, i: usize, name: &str) -> (r: Option<usize>)
    ensures
        match r {
            Some(next) => text_argument(t@, i as int, name@) == Some(next as int) && next < t@.len(),
            None => text_argument(t@, i as int, name@) is None,
        },
{
    if !is_word(t, name, i) {
        return None;
    }
    let w = text::chars(name);
    let n: usize = t.len();
    let sign = skip_blanks(t, i + w.len());
    if !is_at(t, sign, 0, '=') {
        return None;
    }
    let from = skip_blanks(t, sign + 1);
    if !(from < n && is_quote(t[from])) {
        return None;
    }
    let end = find_string_end(t, from + 1, t[from]);
    if end == n {
        assert(skip(t@, end + 1) == end + 1);
        return None;
    }
    let next = skip_blanks(t, end + 1);
    if is_at(t, next, 0, ',') || is_at(t, next, 0, ')') {
        Some(next)
    } else {
        None
    }
}

/// Every character is ASCII and none is a carriage return: each is a grapheme by itself, and
/// takes one byte.
pub open spec fn single(s: Seq<char>) -> bool {
    forall|k: int| 0 <= k < s.len() ==> #[trigger] s[k] < '\u{80}' && s[k] != '\r'
}

/// Whether every character of a text is [`single`].
pub fn is_single(s: &str) -> (r: bool)
    ensures
        r == single(s@),
{
    let t = text::chars(s);
    let mut i: usize = 0;
    while i < t.len()
        invariant
            i <= t@.len(),
            t@ == s@,
            forall|k: int| 0 <= k < i ==> #[trigger] s@[k] < '\u{80}' && s@[k] != '\r',
        decreases t@.len() - i,
    {
        if !(t[i] < '\u{80}') || t[i] == '\r' {
            assert(!single(s@)) by {
                assert(!(s@[i as int] < '\u{80}' && s@[i as int] != '\r'));
            }
            return false;
        }
        i += 1;
    }
    true
}

// ---------------------------------------------------------------------------
// The tags of plain pages
// ---------------------------------------------------------------------------

/// A text without an opening bracket holds no tag.
pub proof fn lemma_text_run(t: Seq<char>, i: int, j: int)
    requires
        0 <= i <= j <= t.len(),
        forall|k: int| i <= k < j ==> #[trigger] t[k] != '{',
    ensures
        tags(t, i) == tags(t, j),
    decreases j - i,
{
    if i < j {
        lemma_text_run(t, i + 1, j);
        assert(t[i] != '{');
        assert(lone(t, i, "raw"@) is None);
    }
}

/// What stands in one tag without strings.
pub proof fn lemma_tag_run(t: Seq<char>, i: int, j: int)
    requires
        0 <= i <= j < t.len(),
        closes(t, j),
        forall|k: int| i <= k < j ==> !ends(t, k) && !quote(#[trigger] t[k]),
    ensures
        body(t, i, None) == (Seq::new((j - i) as nat, |k: int| i + k), j + 2),
    decreases j - i,
{
    let read = body(t, i, None);
    if i < j {
        lemma_tag_run(t, i + 1, j);
        assert(!ends(t, i) && !quote(t[i]));
        assert(read.0 =~= seq![i] + Seq::new((j - i - 1) as nat, |k: int| i + 1 + k));
        assert(read.0 =~= Seq::new((j - i) as nat, |k: int| i + k));
    } else {
        assert(read.0 =~= Seq::new(0, |k: int| i + k));
    }
}

/// White space is passed over up to the first character that is none, and no further; a name is read
/// to the first character that is none of a name, and a string to its quote.
pub proof fn law_reading(t: Seq<char>, i: int, q: char)
    requires
        0 <= i <= t.len(),
    ensures
        i <= skip(t, i) <= t.len(),
        forall|k: int|
            i <= k < skip(t, i) ==> #[trigger] t[k] == ' ' || t[k] == '\t' || t[k] == '\r' || t[k]
                == '\n',
        skip(t, i) < t.len() ==> !blank(t[skip(t, i)]),
        i <= name_end(t, i) <= t.len(),
        forall|k: int|
            i <= k < name_end(t, i) ==> 'a' <= #[trigger] t[k] <= 'z' || 'A' <= t[k] <= 'Z' || t[k]
                == '_' || '0' <= t[k] <= '9',
        name_end(t, i) < t.len() ==> !ident_char(t[name_end(t, i)]),
        i <= string_end(t, i, q) <= t.len(),
        forall|k: int| i <= k < string_end(t, i, q) ==> #[trigger] t[k] != q,
        string_end(t, i, q) < t.len() ==> t[string_end(t, i, q)] == q,
    decreases t.len() - i,
{
    if i < t.len() {
        law_reading(t, i + 1, q);
    }
}

/// A number goes on digit by digit, each standing for ten times what was before it and itself.
pub proof fn law_numbers(t: Seq<char>, i: int, so_far: int, room: nat)
    requires
        0 <= i < t.len(),
        room > 0,
    ensures
        '0' <= t[i] <= '9' ==> number(t, i, so_far, room) == number(
            t,
            i + 1,
            10 * so_far + (t[i] as int - 48),
            (room - 1) as nat,
        ),
        !('0' <= t[i] <= '9') ==> number(t, i, so_far, room) == (so_far, i),
        at(t, i, '-') && i + 1 < t.len() && '0' <= t[i + 1] <= '9' ==> (integer(t, i) matches Some(
            (v, end),
        ) && (v, end) == (-number(t, i + 1, 0, 18).0, number(t, i + 1, 0, 18).1)),
        '0' <= t[i] <= '9' ==> integer(t, i) == Some(number(t, i, 0, 18)),
{
}

} // verus!
