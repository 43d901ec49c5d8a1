//! Text as a sequence of characters: the operations the rest of the library
//! is written with, each stated over `Seq<char>`.

use vstd::prelude::*;

verus! {

/// `String::push` appends one character and leaves what was there alone.
pub assume_specification[ String::push ](s: &mut String, c: char)
    ensures
        final(s)@ == old(s)@.push(c),
;

/// What the `Debug` form of a text is: the text in quotes, with escapes.
pub uninterp spec fn debug_form(s: Seq<char>) -> Seq<char>;

/// The `Debug` form of a text, as std writes it: [`debug_form`].
#[verifier::external_body]
pub(crate) fn debug_text(s: &str) -> (r: String)
    ensures
        r@ == debug_form(s@),
{
    format!("{s:?}")
}

// ---------------------------------------------------------------------------
// Lists of texts
// ---------------------------------------------------------------------------

/// The contents of a list of strings.
pub open spec fn texts(v: Seq<String>) -> Seq<Seq<char>> {
    Seq::new(v.len(), |i: int| v[i]@)
}

/// The contents of an optional string.
pub open spec fn opt_text(o: Option<String>) -> Option<Seq<char>> {
    match o {
        Some(s) => Some(s@),
        None => None,
    }
}

/// The contents of a pair of strings.
pub open spec fn pair_text(p: (String, String)) -> (Seq<char>, Seq<char>) {
    (p.0@, p.1@)
}

/// The contents of a list of pairs of strings.
pub open spec fn pairs(v: Seq<(String, String)>) -> Seq<(Seq<char>, Seq<char>)> {
    Seq::new(v.len(), |i: int| pair_text(v[i]))
}

pub proof fn lemma_texts_push(v: Seq<String>, s: String)
    ensures
        texts(v.push(s)) == texts(v).push(s@),
{
    assert(texts(v.push(s)) =~= texts(v).push(s@));
}

pub proof fn lemma_pairs_push(v: Seq<(String, String)>, p: (String, String))
    ensures
        pairs(v.push(p)) == pairs(v).push(pair_text(p)),
{
    assert(pairs(v.push(p)) =~= pairs(v).push(pair_text(p)));
}

// ---------------------------------------------------------------------------
// Conversions and equality
// ---------------------------------------------------------------------------

/// The characters of `s`, in order.
pub fn chars(s: &str) -> (r: Vec<char>)
    ensures
        r@ == s@,
{
    let mut out: Vec<char> = Vec::new();
    for c in it: s.chars()
        invariant
            out@ == it.seq().take(it.index()),
            it.seq() == s@,
    {
        out.push(c);
    }
    out
}

/// The text made of the characters `from..to` of `chars`.
pub fn slice(chars: &Vec<char>, from: usize, to: usize) -> (r: String)
    requires
        from <= to <= chars@.len(),
    ensures
        r@ == chars@.subrange(from as int, to as int),
{
    let mut out = String::new();
    let mut i: usize = from;
    while i < to
        invariant
            from <= i <= to <= chars@.len(),
            out@ == chars@.subrange(from as int, i as int),
        decreases to - i,
    {
        out.push(chars[i]);
        assert(chars@.subrange(from as int, i as int).push(chars@[i as int]) =~= chars@.subrange(
            from as int,
            i + 1,
        ));
        i += 1;
    }
    out
}

/// The text made of `chars`.
pub fn text(chars: &Vec<char>) -> (r: String)
    ensures
        r@ == chars@,
{
    let r = slice(chars, 0, chars.len());
    assert(chars@.subrange(0, chars@.len() as int) =~= chars@);
    r
}

/// Whether two texts are the same.
pub fn same(a: &str, b: &str) -> (r: bool)
    ensures
        r == (a@ == b@),
{
    a.to_owned() == b.to_owned()
}

/// Whether `list` holds a string equal to `s`.
pub fn listed(list: &Vec<String>, s: &str) -> (r: bool)
    ensures
        r == texts(list@).contains(s@),
{
    let mut i: usize = 0;
    while i < list.len()
        invariant
            i <= list@.len(),
            forall|j: int| 0 <= j < i ==> list@[j]@ != s@,
        decreases list@.len() - i,
    {
        if same(list[i].as_str(), s) {
            assert(texts(list@)[i as int] == s@);
            return true;
        }
        i += 1;
    }
    assert forall|j: int| 0 <= j < texts(list@).len() implies texts(list@)[j] != s@ by {};
    false
}

/// A copy of a list of strings.
pub fn copy_texts(list: &Vec<String>) -> (r: Vec<String>)
    ensures
        texts(r@) == texts(list@),
{
    let mut out: Vec<String> = Vec::new();
    let mut i: usize = 0;
    while i < list.len()
        invariant
            i <= list@.len(),
            out@.len() == i,
            forall|j: int| 0 <= j < i ==> out@[j]@ == list@[j]@,
        decreases list@.len() - i,
    {
        out.push(list[i].clone());
        i += 1;
    }
    assert(texts(out@) =~= texts(list@));
    out
}

// ---------------------------------------------------------------------------
// Prefixes and suffixes
// ---------------------------------------------------------------------------

pub fn starts_with(s: &str, prefix: &str) -> (r: bool)
    ensures
        r == prefix@.is_prefix_of(s@),
{
    let n = prefix.unicode_len();
    let m = s.unicode_len();
    if n > m {
        return false;
    }
    let head = s.substring_char(0, n);
    let r = same(head, prefix);
    proof {
        if r {
            assert(prefix@.is_prefix_of(s@));
        } else if prefix@.is_prefix_of(s@) {
            assert(prefix@ =~= s@.subrange(0, n as int));
        }
    }
    r
}

pub fn ends_with(s: &str, suffix: &str) -> (r: bool)
    ensures
        r == suffix@.is_suffix_of(s@),
{
    let n = suffix.unicode_len();
    let m = s.unicode_len();
    if n > m {
        return false;
    }
    let tail = s.substring_char(m - n, m);
    let r = same(tail, suffix);
    proof {
        if r {
            assert(suffix@.is_suffix_of(s@));
        } else if suffix@.is_suffix_of(s@) {
            assert(suffix@ =~= s@.subrange(m - n, m as int));
        }
    }
    r
}

/// `s` without a leading `prefix`, when it has one.
pub open spec fn without_prefix(s: Seq<char>, prefix: Seq<char>) -> Option<Seq<char>> {
    if prefix.is_prefix_of(s) {
        Some(s.skip(prefix.len() as int))
    } else {
        None
    }
}

/// `s` without a trailing `suffix`, when it has one.
pub open spec fn without_suffix(s: Seq<char>, suffix: Seq<char>) -> Option<Seq<char>> {
    if suffix.is_suffix_of(s) {
        Some(s.take(s.len() - suffix.len()))
    } else {
        None
    }
}

pub fn strip_prefix(s: &str, prefix: &str) -> (r: Option<String>)
    ensures
        opt_text(r) == without_prefix(s@, prefix@),
{
    if starts_with(s, prefix) {
        let n = prefix.unicode_len();
        let m = s.unicode_len();
        let rest = s.substring_char(n, m).to_owned();
        assert(rest@ =~= s@.skip(n as int));
        Some(rest)
    } else {
        None
    }
}

pub fn strip_suffix(s: &str, suffix: &str) -> (r: Option<String>)
    ensures
        opt_text(r) == without_suffix(s@, suffix@),
{
    if ends_with(s, suffix) {
        let n = suffix.unicode_len();
        let m = s.unicode_len();
        let rest = s.substring_char(0, m - n).to_owned();
        assert(rest@ =~= s@.take(m - n));
        Some(rest)
    } else {
        None
    }
}

// ---------------------------------------------------------------------------
// Searching
// ---------------------------------------------------------------------------

/// `needle` stands in `s` at place `i`.
pub open spec fn occurs_at(s: Seq<char>, needle: Seq<char>, i: int) -> bool {
    &&& 0 <= i
    &&& i + needle.len() <= s.len()
    &&& s.subrange(i, i + needle.len()) == needle
}

/// `needle` stands somewhere in `s`.
pub open spec fn has(s: Seq<char>, needle: Seq<char>) -> bool {
    exists|i: int| occurs_at(s, needle, i)
}

/// The first place at or after `i` where `needle` stands in `s`.
pub open spec fn find_from(s: Seq<char>, needle: Seq<char>, i: int) -> Option<int>
    decreases s.len() + 1 - i,
{
    if i < 0 || i + needle.len() > s.len() {
        None
    } else if occurs_at(s, needle, i) {
        Some(i)
    } else {
        find_from(s, needle, i + 1)
    }
}

pub proof fn lemma_find_from(s: Seq<char>, needle: Seq<char>, i: int)
    requires
        0 <= i,
    ensures
        match find_from(s, needle, i) {
            Some(k) => i <= k && occurs_at(s, needle, k) && forall|j: int|
                i <= j < k ==> !occurs_at(s, needle, j),
            None => forall|j: int| i <= j ==> !occurs_at(s, needle, j),
        },
    decreases s.len() + 1 - i,
{
    if i + needle.len() <= s.len() && !occurs_at(s, needle, i) {
        lemma_find_from(s, needle, i + 1);
    }
}

/// Whether `needle` stands in `chars` at `i`.
pub fn matches_at(chars: &Vec<char>, needle: &Vec<char>, i: usize) -> (r: bool)
    ensures
        r == occurs_at(chars@, needle@, i as int),
{
    let m = needle.len();
    let n = chars.len();
    if m > n || i > n - m {
        return false;
    }
    let mut k: usize = 0;
    while k < m
        invariant
            k <= m,
            m == needle@.len(),
            n == chars@.len(),
            i + m <= n,
            forall|j: int| 0 <= j < k ==> chars@[i + j] == needle@[j],
        decreases m - k,
    {
        if chars[i + k] != needle[k] {
            assert(chars@.subrange(i as int, i + m)[k as int] != needle@[k as int]);
            return false;
        }
        k += 1;
    }
    assert(chars@.subrange(i as int, i + m) =~= needle@);
    true
}

/// The first place at or after `from` where `needle` stands in `chars`.
pub fn find_in(chars: &Vec<char>, needle: &Vec<char>, from: usize) -> (r: Option<usize>)
    ensures
        match r {
            Some(k) => find_from(chars@, needle@, from as int) == Some(k as int),
            None => find_from(chars@, needle@, from as int) is None,
        },
{
    let mut i: usize = from;
    let n = chars.len();
    let m = needle.len();
    while m <= n && i <= n - m
        invariant
            n == chars@.len(),
            m == needle@.len(),
            from <= i,
            find_from(chars@, needle@, from as int) == find_from(chars@, needle@, i as int),
        decreases n + 1 - i,
    {
        if matches_at(chars, needle, i) {
            return Some(i);
        }
        if i == n - m {
            assert(find_from(chars@, needle@, i + 1) is None);
            return None;
        }
        i += 1;
    }
    None
}

/// The first place where `needle` stands in `s`, counted in characters.
pub fn find(s: &str, needle: &str) -> (r: Option<usize>)
    ensures
        match r {
            Some(k) => find_from(s@, needle@, 0) == Some(k as int),
            None => find_from(s@, needle@, 0) is None,
        },
{
    find_in(&chars(s), &chars(needle), 0)
}

/// Whether `needle` stands somewhere in `s`.
pub fn contains(s: &str, needle: &str) -> (r: bool)
    ensures
        r == has(s@, needle@),
{
    proof {
        lemma_find_from(s@, needle@, 0);
    }
    find(s, needle).is_some()
}

/// How often `c` stands in `s`.
pub open spec fn count(s: Seq<char>, c: char) -> nat
    decreases s.len(),
{
    if s.len() == 0 {
        0
    } else {
        count(s.drop_last(), c) + if s.last() == c {
            1nat
        } else {
            0
        }
    }
}

/// The first place of `c` in `s`.
pub open spec fn char_at_first(s: Seq<char>, c: char) -> Option<int> {
    find_from(s, seq![c], 0)
}

/// The last place of `c` in `s`.
pub open spec fn char_at_last(s: Seq<char>, c: char) -> Option<int>
    decreases s.len(),
{
    if s.len() == 0 {
        None
    } else if s.last() == c {
        Some(s.len() - 1)
    } else {
        char_at_last(s.drop_last(), c)
    }
}

pub proof fn lemma_char_at_last(s: Seq<char>, c: char)
    ensures
        match char_at_last(s, c) {
            Some(k) => 0 <= k < s.len() && s[k] == c && forall|j: int|
                k < j < s.len() ==> s[j] != c,
            None => forall|j: int| 0 <= j < s.len() ==> s[j] != c,
        },
    decreases s.len(),
{
    if s.len() > 0 && s.last() != c {
        lemma_char_at_last(s.drop_last(), c);
        match char_at_last(s.drop_last(), c) {
            Some(k) => {
                assert(s.drop_last()[k] == s[k]);
                assert forall|j: int| k < j < s.len() implies s[j] != c by {
                    if j < s.len() - 1 {
                        assert(s.drop_last()[j] == s[j]);
                    }
                }
            },
            None => {
                assert forall|j: int| 0 <= j < s.len() implies s[j] != c by {
                    if j < s.len() - 1 {
                        assert(s.drop_last()[j] == s[j]);
                    }
                }
            },
        }
    }
}

/// The last place of `c` in `chars`.
pub fn last_of(chars: &Vec<char>, c: char) -> (r: Option<usize>)
    ensures
        match r {
            Some(k) => char_at_last(chars@, c) == Some(k as int),
            None => char_at_last(chars@, c) is None,
        },
{
    let mut i: usize = chars.len();
    assert(chars@.take(i as int) =~= chars@);
    while i > 0
        invariant
            i <= chars@.len(),
            char_at_last(chars@, c) == char_at_last(chars@.take(i as int), c),
        decreases i,
    {
        assert(chars@.take(i as int).last() == chars@[i - 1]);
        assert(chars@.take(i as int).drop_last() =~= chars@.take(i - 1));
        if chars[i - 1] == c {
            return Some(i - 1);
        }
        i -= 1;
    }
    None
}

/// What stands before and after the first `c` in `s`.
pub open spec fn cut(s: Seq<char>, c: char) -> Option<(Seq<char>, Seq<char>)> {
    match char_at_first(s, c) {
        Some(i) => Some((s.take(i), s.skip(i + 1))),
        None => None,
    }
}

pub open spec fn opt_pair(o: Option<(String, String)>) -> Option<(Seq<char>, Seq<char>)> {
    match o {
        Some(p) => Some(pair_text(p)),
        None => None,
    }
}

pub fn split_once(s: &str, c: char) -> (r: Option<(String, String)>)
    ensures
        opt_pair(r) == cut(s@, c),
{
    let all = chars(s);
    let mut needle: Vec<char> = Vec::new();
    needle.push(c);
    assert(needle@ =~= seq![c]);
    proof {
        lemma_find_from(s@, seq![c], 0);
    }
    match find_in(&all, &needle, 0) {
        Some(i) => {
            let n = all.len();
            let head = slice(&all, 0, i);
            let tail = slice(&all, i + 1, n);
            assert(head@ =~= s@.take(i as int));
            assert(tail@ =~= s@.skip(i + 1));
            Some((head, tail))
        },
        None => None,
    }
}

/// Whether `c` stands in `s`.
pub fn has_char(s: &str, c: char) -> (r: bool)
    ensures
        r == s@.contains(c),
{
    let all = chars(s);
    let mut i: usize = 0;
    while i < all.len()
        invariant
            i <= all@.len(),
            all@ == s@,
            forall|j: int| 0 <= j < i ==> all@[j] != c,
        decreases all@.len() - i,
    {
        if all[i] == c {
            assert(s@[i as int] == c);
            return true;
        }
        i += 1;
    }
    false
}

// ---------------------------------------------------------------------------
// Splitting and joining
// ---------------------------------------------------------------------------

/// The pieces of `s` between separators: always one more than the separators.
pub open spec fn pieces(s: Seq<char>, sep: char) -> Seq<Seq<char>>
    decreases s.len(),
{
    if s.len() == 0 {
        seq![Seq::<char>::empty()]
    } else {
        let before = pieces(s.drop_last(), sep);
        if s.last() == sep {
            before.push(Seq::empty())
        } else {
            before.drop_last().push(before.last().push(s.last()))
        }
    }
}

pub proof fn lemma_pieces_len(s: Seq<char>, sep: char)
    ensures
        pieces(s, sep).len() >= 1,
    decreases s.len(),
{
    if s.len() > 0 {
        lemma_pieces_len(s.drop_last(), sep);
    }
}

/// `parts` written one after another with `sep` between.
pub open spec fn joined(parts: Seq<Seq<char>>, sep: Seq<char>) -> Seq<char>
    decreases parts.len(),
{
    if parts.len() == 0 {
        Seq::empty()
    } else if parts.len() == 1 {
        parts[0]
    } else {
        joined(parts.drop_last(), sep) + sep + parts.last()
    }
}

/// A character that neither the parts nor the separator hold is not in the joined text.
pub proof fn lemma_joined_lacks(list: Seq<Seq<char>>, sep: Seq<char>, c: char)
    requires
        forall|i: int| 0 <= i < list.len() ==> !(#[trigger] list[i]).contains(c),
        !sep.contains(c),
    ensures
        !joined(list, sep).contains(c),
    decreases list.len(),
{
    if list.len() > 1 {
        let front = list.drop_last();
        assert forall|i: int| 0 <= i < front.len() implies !(#[trigger] front[i]).contains(c) by {
            assert(front[i] == list[i]);
        }
        lemma_joined_lacks(front, sep, c);
        let whole = joined(list, sep);
        let head = joined(front, sep);
        assert(whole =~= head + sep + list.last());
        assert(!list[list.len() - 1].contains(c));
        if whole.contains(c) {
            let k = choose|k: int| 0 <= k < whole.len() && whole[k] == c;
            if k < head.len() {
                assert(head[k] == c);
            } else if k < head.len() + sep.len() {
                assert(sep[k - head.len()] == c);
            } else {
                assert(list.last()[k - head.len() - sep.len()] == c);
            }
        }
    } else if list.len() == 1 {
        assert(!list[0].contains(c));
    }
}

/// Joining the pieces of a text with the separator they were cut at gives the text back.
pub proof fn law_join_undoes_split(s: Seq<char>, sep: char)
    ensures
        joined(pieces(s, sep), seq![sep]) == s,
    decreases s.len(),
{
    if s.len() > 0 {
        let before = pieces(s.drop_last(), sep);
        law_join_undoes_split(s.drop_last(), sep);
        lemma_pieces_len(s.drop_last(), sep);
        if s.last() == sep {
            let all = before.push(Seq::empty());
            assert(all.drop_last() =~= before);
            assert(joined(before, seq![sep]) + seq![sep] + Seq::<char>::empty() =~= s);
        } else {
            let all = before.drop_last().push(before.last().push(s.last()));
            assert(all.drop_last() =~= before.drop_last());
            assert(all.last() == before.last().push(s.last()));
            if before.len() == 1 {
                assert(before[0] == before.last());
                assert(all[0] =~= s);
            } else {
                let front = joined(before.drop_last(), seq![sep]) + seq![sep];
                assert(front + before.last() == s.drop_last());
                assert(front + before.last().push(s.last()) =~= (front + before.last()).push(
                    s.last(),
                ));
                assert(s.drop_last().push(s.last()) =~= s);
            }
        }
    }
}

/// A piece holds no separator.
pub proof fn lemma_pieces_hold_no_separator(s: Seq<char>, sep: char)
    ensures
        forall|i: int| 0 <= i < pieces(s, sep).len() ==> !(#[trigger] pieces(s, sep)[i]).contains(sep),
    decreases s.len(),
{
    if s.len() > 0 {
        lemma_pieces_hold_no_separator(s.drop_last(), sep);
        lemma_pieces_len(s.drop_last(), sep);
        let before = pieces(s.drop_last(), sep);
        assert forall|i: int| 0 <= i < pieces(s, sep).len() implies !(
        #[trigger] pieces(s, sep)[i]).contains(sep) by {
            if s.last() == sep {
                if i < before.len() {
                    assert(pieces(s, sep)[i] == before[i]);
                }
            } else if i < before.len() - 1 {
                assert(pieces(s, sep)[i] == before[i]);
            } else {
                let grown = before.last().push(s.last());
                assert(!before[before.len() - 1].contains(sep));
                assert forall|k: int| 0 <= k < grown.len() implies grown[k] != sep by {
                    if k < before.last().len() {
                        assert(before.last()[k] == grown[k]);
                    }
                }
            }
        }
    }
}

/// Cutting `a`, a separator and `b` gives the pieces of `a` and then those of `b`.
pub proof fn lemma_pieces_concat(a: Seq<char>, b: Seq<char>, sep: char)
    ensures
        pieces(a.push(sep) + b, sep) == pieces(a, sep) + pieces(b, sep),
    decreases b.len(),
{
    let whole = a.push(sep) + b;
    if b.len() == 0 {
        assert(whole =~= a.push(sep));
        assert(a.push(sep).drop_last() =~= a);
        assert(pieces(a, sep) + pieces(b, sep) =~= pieces(a, sep).push(Seq::empty()));
    } else {
        assert(whole.drop_last() =~= a.push(sep) + b.drop_last());
        lemma_pieces_concat(a, b.drop_last(), sep);
        lemma_pieces_len(b.drop_last(), sep);
        let p = pieces(a, sep);
        let q = pieces(b.drop_last(), sep);
        assert((p + q).drop_last() =~= p + q.drop_last());
        assert((p + q).last() == q.last());
        assert(whole.last() == b.last());
        if b.last() == sep {
            assert((p + q).push(Seq::empty()) =~= p + q.push(Seq::empty()));
        } else {
            assert((p + q.drop_last()).push(q.last().push(b.last())) =~= p + q.drop_last().push(
                q.last().push(b.last()),
            ));
        }
    }
}

/// A separator-free text is its only piece.
pub proof fn lemma_pieces_single(b: Seq<char>, sep: char)
    requires
        !b.contains(sep),
    ensures
        pieces(b, sep) == seq![b],
    decreases b.len(),
{
    if b.len() == 0 {
        assert(b =~= Seq::<char>::empty());
    } else {
        assert(!b.drop_last().contains(sep)) by {
            assert forall|i: int| 0 <= i < b.drop_last().len() implies b.drop_last()[i] != sep by {
                assert(b[i] == b.drop_last()[i]);
            }
        }
        lemma_pieces_single(b.drop_last(), sep);
        assert(b[b.len() - 1] != sep);
        let front = seq![b.drop_last()];
        assert(b.drop_last().push(b.last()) =~= b);
        assert(front.drop_last().push(front.last().push(b.last())) =~= seq![b]);
    }
}

pub fn split(s: &str, sep: char) -> (r: Vec<String>)
    ensures
        texts(r@) == pieces(s@, sep),
        r@.len() >= 1,
{
    let all = chars(s);
    let mut out: Vec<String> = Vec::new();
    let mut current = String::new();
    let mut i: usize = 0;
    assert(texts(out@).push(current@) =~= pieces(s@.take(0), sep));
    while i < all.len()
        invariant
            i <= all@.len(),
            all@ == s@,
            texts(out@).push(current@) == pieces(s@.take(i as int), sep),
        decreases all@.len() - i,
    {
        let ghost before = texts(out@).push(current@);
        let c = all[i];
        proof {
            let grown = s@.take(i + 1);
            assert(grown.drop_last() =~= s@.take(i as int));
            assert(grown.last() == c);
            assert(before.drop_last() =~= texts(out@));
            assert(before.last() == current@);
        }
        if c == sep {
            let ghost kept = out@;
            let done = current;
            proof {
                lemma_texts_push(kept, done);
            }
            out.push(done);
            current = String::new();
            assert(texts(out@).push(current@) =~= before.push(Seq::empty()));
        } else {
            current.push(c);
        }
        i += 1;
    }
    assert(s@.take(all@.len() as int) =~= s@);
    proof {
        lemma_texts_push(out@, current);
    }
    out.push(current);
    out
}

pub fn join(parts: &Vec<String>, sep: &str) -> (r: String)
    ensures
        r@ == joined(texts(parts@), sep@),
{
    let mut out = String::new();
    let mut i: usize = 0;
    while i < parts.len()
        invariant
            i <= parts@.len(),
            out@ == joined(texts(parts@).take(i as int), sep@),
        decreases parts@.len() - i,
    {
        proof {
            let all = texts(parts@);
            let grown = all.take(i + 1);
            assert(grown.drop_last() =~= all.take(i as int));
            assert(grown.last() == parts@[i as int]@);
            if i == 0 {
                assert(grown[0] == parts@[0]@);
                assert(Seq::<char>::empty() + parts@[0]@ =~= parts@[0]@);
            }
        }
        if i > 0 {
            out.append(sep);
        }
        out.append(parts[i].as_str());
        i += 1;
    }
    assert(texts(parts@).take(parts@.len() as int) =~= texts(parts@));
    out
}

// ---------------------------------------------------------------------------
// Trimming
// ---------------------------------------------------------------------------

/// `s` without the leading characters that stand in `set`.
pub open spec fn trimmed_start(s: Seq<char>, set: Seq<char>) -> Seq<char>
    decreases s.len(),
{
    if s.len() > 0 && set.contains(s[0]) {
        trimmed_start(s.drop_first(), set)
    } else {
        s
    }
}

/// `s` without the trailing characters that stand in `set`.
pub open spec fn trimmed_end(s: Seq<char>, set: Seq<char>) -> Seq<char>
    decreases s.len(),
{
    if s.len() > 0 && set.contains(s.last()) {
        trimmed_end(s.drop_last(), set)
    } else {
        s
    }
}

pub fn trim_start(s: &str, set: &str) -> (r: String)
    ensures
        r@ == trimmed_start(s@, set@),
{
    let all = chars(s);
    let mut i: usize = 0;
    assert(s@.skip(0) =~= s@);
    while i < all.len() && has_char(set, all[i])
        invariant
            i <= all@.len(),
            all@ == s@,
            trimmed_start(s@, set@) == trimmed_start(s@.skip(i as int), set@),
        decreases all@.len() - i,
    {
        assert(s@.skip(i as int).drop_first() =~= s@.skip(i + 1));
        i += 1;
    }
    let r = slice(&all, i, all.len());
    assert(r@ =~= s@.skip(i as int));
    r
}

pub fn trim_end(s: &str, set: &str) -> (r: String)
    ensures
        r@ == trimmed_end(s@, set@),
{
    let all = chars(s);
    let mut i: usize = all.len();
    assert(s@.take(i as int) =~= s@);
    while i > 0 && has_char(set, all[i - 1])
        invariant
            i <= all@.len(),
            all@ == s@,
            trimmed_end(s@, set@) == trimmed_end(s@.take(i as int), set@),
        decreases i,
    {
        assert(s@.take(i as int).last() == s@[i - 1]);
        assert(s@.take(i as int).drop_last() =~= s@.take(i - 1));
        i -= 1;
    }
    let r = slice(&all, 0, i);
    assert(r@ =~= s@.take(i as int));
    r
}

/// `s` without any number of trailing copies of `suffix`.
pub open spec fn trimmed_suffix(s: Seq<char>, suffix: Seq<char>) -> Seq<char>
    decreases s.len(),
{
    if suffix.len() > 0 && suffix.is_suffix_of(s) {
        trimmed_suffix(s.take(s.len() - suffix.len()), suffix)
    } else {
        s
    }
}

pub fn trim_suffix(s: &str, suffix: &str) -> (r: String)
    ensures
        r@ == trimmed_suffix(s@, suffix@),
{
    let mut rest = s.to_owned();
    if suffix.is_empty() {
        return rest;
    }
    while ends_with(rest.as_str(), suffix)
        invariant
            suffix@.len() > 0,
            trimmed_suffix(s@, suffix@) == trimmed_suffix(rest@, suffix@),
        decreases rest@.len(),
    {
        let n = suffix.unicode_len();
        let m = rest.as_str().unicode_len();
        let shorter = rest.as_str().substring_char(0, m - n).to_owned();
        assert(shorter@ =~= rest@.take(m - n));
        rest = shorter;
    }
    rest
}

/// `s` without any number of leading copies of `prefix`.
pub open spec fn trimmed_prefix(s: Seq<char>, prefix: Seq<char>) -> Seq<char>
    decreases s.len(),
{
    if prefix.len() > 0 && prefix.is_prefix_of(s) {
        trimmed_prefix(s.skip(prefix.len() as int), prefix)
    } else {
        s
    }
}

pub fn trim_prefix(s: &str, prefix: &str) -> (r: String)
    ensures
        r@ == trimmed_prefix(s@, prefix@),
{
    let mut rest = s.to_owned();
    if prefix.is_empty() {
        return rest;
    }
    while starts_with(rest.as_str(), prefix)
        invariant
            prefix@.len() > 0,
            trimmed_prefix(s@, prefix@) == trimmed_prefix(rest@, prefix@),
        decreases rest@.len(),
    {
        let n = prefix.unicode_len();
        let m = rest.as_str().unicode_len();
        let shorter = rest.as_str().substring_char(n, m).to_owned();
        assert(shorter@ =~= rest@.skip(n as int));
        rest = shorter;
    }
    rest
}

/// `s` without the characters of `set` at either end.
pub open spec fn trimmed(s: Seq<char>, set: Seq<char>) -> Seq<char> {
    trimmed_end(trimmed_start(s, set), set)
}

pub fn trim_both(s: &str, set: &str) -> (r: String)
    ensures
        r@ == trimmed(s@, set@),
{
    trim_end(trim_start(s, set).as_str(), set)
}

/// The characters with the Unicode `White_Space` property, as one text.
pub open spec fn white() -> Seq<char> {
    "\t\n\u{b}\u{c}\r \u{85}\u{a0}\u{1680}\u{2000}\u{2001}\u{2002}\u{2003}\u{2004}\u{2005}\u{2006}\u{2007}\u{2008}\u{2009}\u{200a}\u{2028}\u{2029}\u{202f}\u{205f}\u{3000}"@
}

/// `s` without leading and trailing white space.
pub fn trim(s: &str) -> (r: String)
    ensures
        r@ == trimmed(s@, white()),
{
    let front = trim_white_start(s);
    trim_white_end(front.as_str())
}

/// `s` without leading white space.
pub fn trim_white_start(s: &str) -> (r: String)
    ensures
        r@ == trimmed_start(s@, white()),
{
    trim_start(
        s,
        "\t\n\u{b}\u{c}\r \u{85}\u{a0}\u{1680}\u{2000}\u{2001}\u{2002}\u{2003}\u{2004}\u{2005}\u{2006}\u{2007}\u{2008}\u{2009}\u{200a}\u{2028}\u{2029}\u{202f}\u{205f}\u{3000}",
    )
}

/// `s` without trailing white space.
pub fn trim_white_end(s: &str) -> (r: String)
    ensures
        r@ == trimmed_end(s@, white()),
{
    trim_end(
        s,
        "\t\n\u{b}\u{c}\r \u{85}\u{a0}\u{1680}\u{2000}\u{2001}\u{2002}\u{2003}\u{2004}\u{2005}\u{2006}\u{2007}\u{2008}\u{2009}\u{200a}\u{2028}\u{2029}\u{202f}\u{205f}\u{3000}",
    )
}

// ---------------------------------------------------------------------------
// Rewriting
// ---------------------------------------------------------------------------

/// `s` from place `i` on, every `from` replaced by `to`, left to right and without overlap.
pub open spec fn replaced_from(s: Seq<char>, from: Seq<char>, to: Seq<char>, i: int) -> Seq<char>
    decreases s.len() - i,
{
    if i < 0 || i >= s.len() {
        Seq::empty()
    } else if from.len() > 0 && occurs_at(s, from, i) {
        to + replaced_from(s, from, to, i + from.len())
    } else {
        seq![s[i]] + replaced_from(s, from, to, i + 1)
    }
}

/// `s` with every `from` replaced by `to`, left to right and without overlap.
pub open spec fn replaced(s: Seq<char>, from: Seq<char>, to: Seq<char>) -> Seq<char> {
    replaced_from(s, from, to, 0)
}

pub fn replace(s: &str, from: &str, to: &str) -> (r: String)
    requires
        from@.len() > 0,
    ensures
        r@ == replaced(s@, from@, to@),
{
    let all = chars(s);
    let needle = chars(from);
    let mut out = String::new();
    let mut i: usize = 0;
    assert(out@ + replaced(s@, from@, to@) =~= replaced(s@, from@, to@));
    while i < all.len()
        invariant
            i <= all@.len(),
            all@ == s@,
            needle@ == from@,
            from@.len() > 0,
            out@ + replaced_from(s@, from@, to@, i as int) == replaced(s@, from@, to@),
        decreases all@.len() - i,
    {
        let ghost so_far = out@;
        if matches_at(&all, &needle, i) {
            out.append(to);
            i += needle.len();
            assert(so_far + (to@ + replaced_from(s@, from@, to@, i as int)) =~= out@
                + replaced_from(s@, from@, to@, i as int));
        } else {
            out.push(all[i]);
            i += 1;
            assert(so_far + (seq![s@[i - 1]] + replaced_from(s@, from@, to@, i as int)) =~= out@
                + replaced_from(s@, from@, to@, i as int));
        }
    }
    assert(out@ + Seq::<char>::empty() =~= out@);
    out
}

/// Replacing a character that is not there changes nothing.
pub proof fn lemma_replaced_absent(s: Seq<char>, c: char, to: Seq<char>, i: int)
    requires
        0 <= i <= s.len(),
        !s.contains(c),
    ensures
        replaced_from(s, seq![c], to, i) == s.skip(i),
    decreases s.len() - i,
{
    if i < s.len() {
        assert(!occurs_at(s, seq![c], i)) by {
            if occurs_at(s, seq![c], i) {
                assert(s.subrange(i, i + 1)[0] == seq![c][0]);
                assert(s[i] == c);
            }
        }
        lemma_replaced_absent(s, c, to, i + 1);
        assert(seq![s[i]] + s.skip(i + 1) =~= s.skip(i));
    } else {
        assert(s.skip(i) =~= Seq::<char>::empty());
    }
}

/// Replacing takes a character away when every copy of it is replaced by
/// something without it, and brings none in that was nowhere.
pub proof fn lemma_replaced_lacks(
    s: Seq<char>,
    from: Seq<char>,
    to: Seq<char>,
    i: int,
    c: char,
)
    requires
        0 <= i,
        !to.contains(c),
        from == seq![c] || !s.contains(c),
    ensures
        !replaced_from(s, from, to, i).contains(c),
    decreases s.len() - i,
{
    if i < s.len() {
        if from.len() > 0 && occurs_at(s, from, i) {
            let rest = replaced_from(s, from, to, i + from.len());
            lemma_replaced_lacks(s, from, to, i + from.len(), c);
            assert forall|k: int| 0 <= k < (to + rest).len() implies (to + rest)[k] != c by {
                if k < to.len() {
                    assert(to[k] == (to + rest)[k]);
                } else {
                    assert(rest[k - to.len()] == (to + rest)[k]);
                }
            }
        } else {
            let rest = replaced_from(s, from, to, i + 1);
            lemma_replaced_lacks(s, from, to, i + 1, c);
            assert(s[i] != c) by {
                if s[i] == c {
                    if from == seq![c] {
                        assert(s.subrange(i, i + 1) =~= seq![c]);
                    } else {
                        assert(s.contains(c));
                    }
                }
            }
            let whole = seq![s[i]] + rest;
            assert forall|k: int| 0 <= k < whole.len() implies whole[k] != c by {
                if k > 0 {
                    assert(rest[k - 1] == whole[k]);
                }
            }
        }
    }
}

/// `c` in lower case if it is an ASCII letter, and as it is otherwise.
pub open spec fn lower_char(c: char) -> char {
    if 'A' <= c && c <= 'Z' {
        ((c as u8) + 32) as char
    } else {
        c
    }
}

/// `s` with its ASCII letters in lower case.
pub open spec fn lowered(s: Seq<char>) -> Seq<char> {
    Seq::new(s.len(), |i: int| lower_char(s[i]))
}

pub fn lower(s: &str) -> (r: String)
    ensures
        r@ == lowered(s@),
{
    let all = chars(s);
    let mut out = String::new();
    let mut i: usize = 0;
    while i < all.len()
        invariant
            i <= all@.len(),
            all@ == s@,
            out@ == lowered(s@).take(i as int),
        decreases all@.len() - i,
    {
        let c = all[i];
        if 'A' <= c && c <= 'Z' {
            out.push(((c as u8) + 32) as char);
        } else {
            out.push(c);
        }
        assert(lowered(s@).take(i as int).push(lowered(s@)[i as int]) =~= lowered(s@).take(i + 1));
        i += 1;
    }
    assert(lowered(s@).take(all@.len() as int) =~= lowered(s@));
    out
}

/// `c` in upper case if it is an ASCII letter, and as it is otherwise.
pub open spec fn upper_char(c: char) -> char {
    if 'a' <= c && c <= 'z' {
        ((c as u8) - 32) as char
    } else {
        c
    }
}

/// `s` with its ASCII letters in upper case.
pub open spec fn uppered(s: Seq<char>) -> Seq<char> {
    Seq::new(s.len(), |i: int| upper_char(s[i]))
}

pub fn upper(s: &str) -> (r: String)
    ensures
        r@ == uppered(s@),
{
    let all = chars(s);
    let mut out = String::new();
    let mut i: usize = 0;
    while i < all.len()
        invariant
            i <= all@.len(),
            all@ == s@,
            out@ == uppered(s@).take(i as int),
        decreases all@.len() - i,
    {
        let c = all[i];
        if 'a' <= c && c <= 'z' {
            out.push(((c as u8) - 32) as char);
        } else {
            out.push(c);
        }
        assert(uppered(s@).take(i as int).push(uppered(s@)[i as int]) =~= uppered(s@).take(i + 1));
        i += 1;
    }
    assert(uppered(s@).take(all@.len() as int) =~= uppered(s@));
    out
}

// ---------------------------------------------------------------------------
// Order
// ---------------------------------------------------------------------------

/// `a` comes strictly before `b`, character by character.
pub open spec fn before(a: Seq<char>, b: Seq<char>) -> bool
    decreases a.len(),
{
    if b.len() == 0 {
        false
    } else if a.len() == 0 {
        true
    } else if a[0] != b[0] {
        a[0] < b[0]
    } else {
        before(a.drop_first(), b.drop_first())
    }
}

pub proof fn lemma_before_irreflexive(a: Seq<char>)
    ensures
        !before(a, a),
    decreases a.len(),
{
    if a.len() > 0 {
        lemma_before_irreflexive(a.drop_first());
    }
}

pub proof fn lemma_before_transitive(a: Seq<char>, b: Seq<char>, c: Seq<char>)
    requires
        before(a, b),
        before(b, c),
    ensures
        before(a, c),
    decreases a.len(),
{
    if a.len() > 0 && a[0] == b[0] && b[0] == c[0] {
        lemma_before_transitive(a.drop_first(), b.drop_first(), c.drop_first());
    }
}

pub proof fn lemma_before_total(a: Seq<char>, b: Seq<char>)
    ensures
        before(a, b) || before(b, a) || a == b,
    decreases a.len(),
{
    if a.len() > 0 && b.len() > 0 && a[0] == b[0] {
        lemma_before_total(a.drop_first(), b.drop_first());
        if a.drop_first() == b.drop_first() {
            assert(seq![a[0]] + a.drop_first() =~= a);
            assert(seq![b[0]] + b.drop_first() =~= b);
        }
    } else if a.len() == 0 && b.len() == 0 {
        assert(a =~= b);
    }
}

/// Whether `a` comes strictly before `b`.
pub fn precedes(a: &str, b: &str) -> (r: bool)
    ensures
        r == before(a@, b@),
{
    let x = chars(a);
    let y = chars(b);
    let mut i: usize = 0;
    assert(a@.skip(0) =~= a@);
    assert(b@.skip(0) =~= b@);
    while i < x.len() && i < y.len()
        invariant
            i <= x@.len(),
            i <= y@.len(),
            x@ == a@,
            y@ == b@,
            before(a@, b@) == before(a@.skip(i as int), b@.skip(i as int)),
        decreases x@.len() - i,
    {
        if x[i] != y[i] {
            return x[i] < y[i];
        }
        assert(a@.skip(i as int).drop_first() =~= a@.skip(i + 1));
        assert(b@.skip(i as int).drop_first() =~= b@.skip(i + 1));
        i += 1;
    }
    i < y.len()
}

// ---------------------------------------------------------------------------
// Numbers
// ---------------------------------------------------------------------------

/// A number in decimal digits.
pub open spec fn digits(n: nat) -> Seq<char>
    decreases n,
{
    if n < 10 {
        seq!["0123456789"@[n as int]]
    } else {
        digits(n / 10).push("0123456789"@[(n % 10) as int])
    }
}

/// `n` in decimal digits.
pub fn decimal(n: usize) -> (r: String)
    ensures
        r@ == digits(n as nat),
    decreases n,
{
    proof {
        reveal_strlit("0123456789");
    }
    let mut out = if n < 10 {
        String::new()
    } else {
        decimal(n / 10)
    };
    let ghost front = out@;
    out.push("0123456789".get_char(n % 10));
    assert(front.push("0123456789"@[(n % 10) as int]) =~= digits(n as nat));
    out
}

// ---------------------------------------------------------------------------
// Lines
// ---------------------------------------------------------------------------

/// A line without the carriage return at its end.
pub open spec fn line_end(s: Seq<char>) -> Seq<char> {
    if s.len() > 0 && s.last() == '\r' {
        s.drop_last()
    } else {
        s
    }
}

/// The lines of a text: its pieces between line feeds, without a carriage return at their
/// ends; a line feed at the very end opens no further line. What follows the last line feed
/// keeps its carriage return.
pub open spec fn line_list(s: Seq<char>) -> Seq<Seq<char>> {
    let all = pieces(s, '\n');
    let closed = Seq::new((all.len() - 1) as nat, |i: int| line_end(all[i]));
    if all.last().len() == 0 {
        closed
    } else {
        closed.push(all.last())
    }
}

/// The lines of `s`.
pub fn lines(s: &str) -> (r: Vec<String>)
    ensures
        texts(r@) == line_list(s@),
{
    let mut all = split(s, '\n');
    proof {
        lemma_pieces_len(s@, '\n');
    }
    let ghost whole = all@;
    assert(texts(whole) == pieces(s@, '\n'));
    assert(whole.len() == pieces(s@, '\n').len());
    let mut out: Vec<String> = Vec::new();
    let n = all.len();
    let mut i: usize = 0;
    while i + 1 < n
        invariant
            n == all@.len(),
            n >= 1,
            i < n,
            all@ == whole,
            out@.len() == i,
            forall|j: int| 0 <= j < i ==> (#[trigger] out@[j])@ == line_end(whole[j]@),
        decreases n - i,
    {
        let line = all[i].as_str();
        let m = line.unicode_len();
        let one = if m > 0 && line.get_char(m - 1) == '\r' {
            let cs = chars(line);
            let cut = slice(&cs, 0, m - 1);
            assert(cut@ =~= line@.drop_last());
            cut
        } else {
            line.to_owned()
        };
        out.push(one);
        i += 1;
    }
    let ghost before = out@;
    match all.pop() {
        Some(last) => {
            assert(last == whole[n - 1]);
            assert(texts(whole)[n - 1] == last@);
            if !last.as_str().is_empty() {
                out.push(last);
            }
            assert(texts(before) =~= Seq::new(
                (pieces(s@, '\n').len() - 1) as nat,
                |i: int| line_end(pieces(s@, '\n')[i]),
            )) by {
                assert forall|j: int| 0 <= j < before.len() implies (#[trigger] texts(before)[j])
                    == line_end(pieces(s@, '\n')[j]) by {
                    assert(texts(whole)[j] == whole[j]@);
                }
            }
            proof {
                if last@.len() > 0 {
                    lemma_texts_push(before, last);
                }
            }
        },
        None => {},
    }
    out
}

// ---------------------------------------------------------------------------
// Laws
// ---------------------------------------------------------------------------

/// Cutting at a character gives the text around its first place, and nothing exactly when it
/// stands nowhere.
pub proof fn law_cut(s: Seq<char>, c: char)
    ensures
        match cut(s, c) {
            Some((head, tail)) => s == head.push(c) + tail && !head.contains(c),
            None => !s.contains(c),
        },
{
    lemma_find_from(s, seq![c], 0);
    assert forall|i: int| 0 <= i < s.len() && s[i] == c implies #[trigger] occurs_at(
        s,
        seq![c],
        i,
    ) by {
        assert(s.subrange(i, i + 1) =~= seq![c]);
    }
    match char_at_first(s, c) {
        Some(k) => {
            assert(s.subrange(k, k + 1)[0] == c);
            assert(s =~= s.take(k).push(c) + s.skip(k + 1));
            assert forall|j: int| 0 <= j < k implies s.take(k)[j] != c by {
                if s[j] == c {
                    assert(occurs_at(s, seq![c], j));
                }
            }
        },
        None => {
            assert forall|j: int| 0 <= j < s.len() implies s[j] != c by {
                if s[j] == c {
                    assert(occurs_at(s, seq![c], j));
                }
            }
        },
    }
}

/// A text that is put together around a character is cut there, when nothing before it is that
/// character.
pub proof fn law_cut_undoes_joining(head: Seq<char>, c: char, tail: Seq<char>)
    requires
        !head.contains(c),
    ensures
        cut(head.push(c) + tail, c) == Some((head, tail)),
{
    let s = head.push(c) + tail;
    law_cut(s, c);
    assert(s[head.len() as int] == c);
    let (h, t) = cut(s, c)->0;
    if h.len() < head.len() {
        assert(s[h.len() as int] == c);
        assert(head.contains(head[h.len() as int]));
    } else if h.len() > head.len() {
        assert(h[head.len() as int] == s[head.len() as int]);
        assert(h.contains(c));
    }
    assert(h =~= s.take(h.len() as int));
    assert(head =~= s.take(head.len() as int));
    assert(t =~= s.skip(h.len() as int + 1));
    assert(tail =~= s.skip(head.len() as int + 1));
}

/// Trimming at the start takes away characters of the set, and only those at the start.
pub proof fn law_trimmed_start(s: Seq<char>, set: Seq<char>)
    ensures
        trimmed_start(s, set).len() <= s.len(),
        trimmed_start(s, set) == s.skip(s.len() - trimmed_start(s, set).len()),
        forall|i: int|
            0 <= i < s.len() - trimmed_start(s, set).len() ==> set.contains(#[trigger] s[i]),
        trimmed_start(s, set).len() > 0 ==> !set.contains(trimmed_start(s, set)[0]),
    decreases s.len(),
{
    if s.len() > 0 && set.contains(s[0]) {
        let rest = s.drop_first();
        law_trimmed_start(rest, set);
        let n = trimmed_start(s, set).len();
        assert(rest.skip(rest.len() - n) =~= s.skip(s.len() - n));
        assert forall|i: int| 0 <= i < s.len() - n implies set.contains(#[trigger] s[i]) by {
            if i > 0 {
                assert(s[i] == rest[i - 1]);
            }
        }
    } else {
        assert(s.skip(0) =~= s);
    }
}

/// Trimming at the end takes away characters of the set, and only those at the end.
pub proof fn law_trimmed_end(s: Seq<char>, set: Seq<char>)
    ensures
        trimmed_end(s, set).len() <= s.len(),
        trimmed_end(s, set) == s.take(trimmed_end(s, set).len() as int),
        forall|i: int|
            trimmed_end(s, set).len() <= i < s.len() ==> set.contains(#[trigger] s[i]),
        trimmed_end(s, set).len() > 0 ==> !set.contains(trimmed_end(s, set).last()),
    decreases s.len(),
{
    if s.len() > 0 && set.contains(s.last()) {
        let rest = s.drop_last();
        law_trimmed_end(rest, set);
        let n = trimmed_end(s, set).len();
        assert(rest.take(n as int) =~= s.take(n as int));
        assert forall|i: int| n <= i < s.len() implies set.contains(#[trigger] s[i]) by {
            if i < s.len() - 1 {
                assert(s[i] == rest[i]);
            }
        }
    } else {
        assert(s.take(s.len() as int) =~= s);
    }
}

/// A text that begins and ends with no character of the set is left alone by trimming.
pub proof fn law_trimming_leaves_alone(s: Seq<char>, set: Seq<char>)
    requires
        s.len() > 0,
        !set.contains(s[0]),
        !set.contains(s.last()),
    ensures
        trimmed_start(s, set) == s,
        trimmed_end(s, set) == s,
        trimmed(s, set) == s,
{
}

/// Trimming a suffix takes away whole copies of it, and leaves none at the end.
pub proof fn law_trimmed_suffix(s: Seq<char>, suffix: Seq<char>)
    requires
        suffix.len() > 0,
    ensures
        !suffix.is_suffix_of(trimmed_suffix(s, suffix)),
        !suffix.is_suffix_of(s) ==> trimmed_suffix(s, suffix) == s,
        trimmed_suffix(s + suffix, suffix) == trimmed_suffix(s, suffix),
    decreases s.len(),
{
    let more = s + suffix;
    assert(more.subrange(more.len() - suffix.len(), more.len() as int) =~= suffix);
    assert(more.take(more.len() - suffix.len()) =~= s);
    if suffix.is_suffix_of(s) {
        law_trimmed_suffix(s.take(s.len() - suffix.len()), suffix);
    }
}

/// Trimming a prefix takes away whole copies of it, and leaves none at the start.
pub proof fn law_trimmed_prefix(s: Seq<char>, prefix: Seq<char>)
    requires
        prefix.len() > 0,
    ensures
        !prefix.is_prefix_of(trimmed_prefix(s, prefix)),
        !prefix.is_prefix_of(s) ==> trimmed_prefix(s, prefix) == s,
        trimmed_prefix(prefix + s, prefix) == trimmed_prefix(s, prefix),
    decreases s.len(),
{
    let more = prefix + s;
    assert(more.subrange(0, prefix.len() as int) =~= prefix);
    assert(more.skip(prefix.len() as int) =~= s);
    if prefix.is_prefix_of(s) {
        law_trimmed_prefix(s.skip(prefix.len() as int), prefix);
    }
}

/// Replacing a character goes character by character: each is replaced, every other stays.
pub proof fn law_replaced_one_by_one(s: Seq<char>, c: char, to: Seq<char>, d: char)
    ensures
        replaced(Seq::<char>::empty(), seq![c], to) == Seq::<char>::empty(),
        replaced(s.push(d), seq![c], to) == replaced(s, seq![c], to) + if d == c {
            to
        } else {
            seq![d]
        },
{
    lemma_replaced_push(s, c, to, d, 0);
}

proof fn lemma_replaced_push(s: Seq<char>, c: char, to: Seq<char>, d: char, i: int)
    requires
        0 <= i <= s.len(),
    ensures
        replaced_from(s.push(d), seq![c], to, i) == replaced_from(s, seq![c], to, i) + if d == c {
            to
        } else {
            seq![d]
        },
    decreases s.len() - i,
{
    let more = s.push(d);
    let from = seq![c];
    let added = if d == c {
        to
    } else {
        seq![d]
    };
    assert(more.subrange(i, i + 1) =~= seq![more[i]]);
    assert(occurs_at(more, from, i) <==> more[i] == c) by {
        assert(seq![more[i]][0] == more[i] && from[0] == c);
    }
    if i < s.len() {
        lemma_replaced_push(s, c, to, d, i + 1);
        assert(s.subrange(i, i + 1) =~= seq![s[i]]);
        assert(occurs_at(s, from, i) <==> s[i] == c) by {
            assert(seq![s[i]][0] == s[i] && from[0] == c);
        }
        let rest = replaced_from(s, from, to, i + 1);
        if s[i] == c {
            assert(to + (rest + added) =~= (to + rest) + added);
        } else {
            assert(seq![s[i]] + (rest + added) =~= (seq![s[i]] + rest) + added);
        }
    } else {
        assert(replaced_from(more, from, to, i + 1) =~= Seq::<char>::empty());
        assert(replaced_from(s, from, to, i) =~= Seq::<char>::empty());
        assert(added + Seq::<char>::empty() =~= added);
        assert(Seq::<char>::empty() + added =~= added);
    }
}

/// Lower and upper case differ in the ASCII letters alone, and each undoes the other on them.
pub proof fn law_case(s: Seq<char>)
    ensures
        lowered(s).len() == s.len(),
        uppered(s).len() == s.len(),
        forall|i: int|
            0 <= i < s.len() ==> #[trigger] lowered(s)[i] as int == (if 'A' <= s[i] <= 'Z' {
                s[i] as int + 32
            } else {
                s[i] as int
            }),
        forall|i: int|
            0 <= i < s.len() ==> #[trigger] uppered(s)[i] as int == (if 'a' <= s[i] <= 'z' {
                s[i] as int - 32
            } else {
                s[i] as int
            }),
        lowered(uppered(s)) == lowered(s),
        lowered(lowered(s)) == lowered(s),
        uppered(lowered(s)) == uppered(s),
{
    assert(lowered(uppered(s)) =~= lowered(s));
    assert(lowered(lowered(s)) =~= lowered(s));
    assert(uppered(lowered(s)) =~= uppered(s));
}

/// The first difference decides the order of two texts, and a text comes before every longer one
/// that begins with it.
pub proof fn law_first_difference_decides(a: Seq<char>, b: Seq<char>, n: int)
    requires
        0 <= n <= a.len(),
        n < b.len(),
        a.take(n) == b.take(n),
    ensures
        n == a.len() ==> before(a, b),
        n < a.len() && a[n] < b[n] ==> before(a, b) && !before(b, a),
    decreases n,
{
    if n > 0 {
        assert(a.take(n)[0] == a[0] && b.take(n)[0] == b[0]);
        let (x, y) = (a.drop_first(), b.drop_first());
        assert(x.take(n - 1) =~= a.take(n).drop_first());
        assert(y.take(n - 1) =~= b.take(n).drop_first());
        law_first_difference_decides(x, y, n - 1);
    }
}

/// The number that a row of decimal digits stands for.
pub open spec fn digit_value(s: Seq<char>) -> int
    decreases s.len(),
{
    if s.len() == 0 {
        0
    } else {
        digit_value(s.drop_last()) * 10 + (s.last() as int - '0' as int)
    }
}

/// A number's digits stand for it, are digits, and have no needless zero in front.
pub proof fn law_digits(n: nat)
    ensures
        digit_value(digits(n)) == n,
        digits(n).len() > 0,
        forall|i: int| 0 <= i < digits(n).len() ==> '0' <= #[trigger] digits(n)[i] <= '9',
        digits(n).len() > 1 ==> digits(n)[0] != '0',
    decreases n,
{
    reveal_strlit("0123456789");
    reveal_with_fuel(digit_value, 2);
    if n >= 10 {
        law_digits(n / 10);
        let front = digits(n / 10);
        assert(digits(n).drop_last() =~= front);
        assert(digits(n)[0] == front[0]);
        if front.len() == 1 {
            assert(digit_value(front) == front[0] as int - '0' as int) by {
                assert(front.drop_last() =~= Seq::<char>::empty());
            }
        }
        assert forall|i: int| 0 <= i < digits(n).len() implies '0' <= #[trigger] digits(n)[i]
            <= '9' by {
            if i < front.len() {
                assert(digits(n)[i] == front[i]);
            }
        }
    } else {
        assert(digits(n).drop_last() =~= Seq::<char>::empty());
    }
}

/// A line feed ends a line, a carriage return before it goes with it, and what follows the last
/// line feed is a line when there is anything.
pub proof fn law_lines(s: Seq<char>, rest: Seq<char>)
    requires
        !s.contains('\n'),
        s.len() == 0 || s.last() != '\r',
    ensures
        s.len() > 0 ==> line_list(s) == seq![s],
        line_list(s.push('\n')) == seq![s],
        line_list(s.push('\r').push('\n')) == seq![s],
        line_list(s.push('\n') + rest) == seq![s] + line_list(rest),
        line_list(Seq::<char>::empty()) == Seq::<Seq<char>>::empty(),
{
    lemma_pieces_single(s, '\n');
    lemma_pieces_single(s.push('\r'), '\n');
    lemma_pieces_concat(s, rest, '\n');
    assert(s.push('\n').drop_last() =~= s);
    assert(s.push('\r').push('\n').drop_last() =~= s.push('\r'));
    assert(s.push('\r').drop_last() =~= s);
    lemma_pieces_len(rest, '\n');
    assert(line_list(s) =~= if s.len() > 0 {
        seq![s]
    } else {
        Seq::empty()
    });
    assert(line_list(s.push('\n')) =~= seq![s]);
    assert(line_list(s.push('\r').push('\n')) =~= seq![s]);
    assert(s.push('\n') + rest =~= s + seq!['\n'] + rest);
    assert(line_list(s.push('\n') + rest) =~= seq![s] + line_list(rest));
}

/// A suffix is the last characters of a text, one by one.
pub proof fn lemma_suffix_chars(s: Seq<char>, suffix: Seq<char>)
    ensures
        suffix.is_suffix_of(s) <==> suffix.len() <= s.len() && forall|k: int|
            0 <= k < suffix.len() ==> s[s.len() - suffix.len() + k] == #[trigger] suffix[k],
{
    if suffix.len() <= s.len() {
        let end = s.subrange(s.len() - suffix.len(), s.len() as int);
        if suffix.is_suffix_of(s) {
            assert forall|k: int| 0 <= k < suffix.len() implies s[s.len() - suffix.len() + k]
                == #[trigger] suffix[k] by {
                assert(end[k] == suffix[k]);
            }
        } else if forall|k: int|
            0 <= k < suffix.len() ==> s[s.len() - suffix.len() + k] == #[trigger] suffix[k] {
            assert(end =~= suffix);
        }
    }
}

/// Replacing one character goes part by part: what stands in one part does not matter to another.
pub proof fn law_replaced_in_parts(a: Seq<char>, b: Seq<char>, c: char, to: Seq<char>)
    ensures
        replaced(a + b, seq![c], to) == replaced(a, seq![c], to) + replaced(b, seq![c], to),
    decreases b.len(),
{
    if b.len() == 0 {
        law_replaced_one_by_one(a, c, to, c);
        assert(b =~= Seq::<char>::empty());
        assert(a + b =~= a);
    } else {
        let front = b.drop_last();
        law_replaced_in_parts(a, front, c, to);
        law_replaced_one_by_one(a + front, c, to, b.last());
        law_replaced_one_by_one(front, c, to, b.last());
        assert((a + front).push(b.last()) =~= a + b);
        assert(front.push(b.last()) =~= b);
        let last = if b.last() == c {
            to
        } else {
            seq![b.last()]
        };
        assert(replaced(a, seq![c], to) + replaced(front, seq![c], to) + last =~= replaced(
            a,
            seq![c],
            to,
        ) + (replaced(front, seq![c], to) + last));
    }
}

/// A text that is replaced leaves what takes its place.
pub proof fn law_replacement_stands(s: Seq<char>, from: Seq<char>, to: Seq<char>, p: int)
    requires
        from.len() > 0,
        occurs_at(s, from, p),
    ensures
        has(replaced(s, from, to), to),
{
    lemma_replacement_stands(s, from, to, 0, p);
}

proof fn lemma_replacement_stands(s: Seq<char>, from: Seq<char>, to: Seq<char>, i: int, p: int)
    requires
        from.len() > 0,
        0 <= i <= p,
        occurs_at(s, from, p),
    ensures
        has(replaced_from(s, from, to, i), to),
    decreases s.len() - i,
{
    let all = replaced_from(s, from, to, i);
    if occurs_at(s, from, i) {
        assert(all.subrange(0, to.len() as int) =~= to);
        assert(occurs_at(all, to, 0));
    } else {
        lemma_replacement_stands(s, from, to, i + 1, p);
        let rest = replaced_from(s, from, to, i + 1);
        let k = choose|k: int| occurs_at(rest, to, k);
        assert(all.subrange(k + 1, k + 1 + to.len()) =~= rest.subrange(k, k + to.len()));
        assert(occurs_at(all, to, k + 1));
    }
}

/// What stands behind a place that no replaced text reaches over is untouched by what is replaced
/// before it.
pub proof fn law_replaced_tail(s: Seq<char>, from: Seq<char>, to: Seq<char>, n: int)
    requires
        from.len() > 0,
        0 <= n <= s.len(),
        forall|j: int| n - from.len() < j < n ==> !occurs_at(s, from, j),
    ensures
        replaced_from(s, from, to, n).is_suffix_of(replaced(s, from, to)),
{
    lemma_replaced_tail(s, from, to, 0, n);
}

proof fn lemma_replaced_tail(s: Seq<char>, from: Seq<char>, to: Seq<char>, i: int, n: int)
    requires
        from.len() > 0,
        0 <= i <= n <= s.len(),
        forall|j: int| n - from.len() < j < n ==> !occurs_at(s, from, j),
    ensures
        replaced_from(s, from, to, n).is_suffix_of(replaced_from(s, from, to, i)),
    decreases n - i,
{
    let tail = replaced_from(s, from, to, n);
    let all = replaced_from(s, from, to, i);
    if i < n {
        let (step, rest) = if occurs_at(s, from, i) {
            (to, i + from.len())
        } else {
            (seq![s[i]], i + 1)
        };
        lemma_replaced_tail(s, from, to, rest, n);
        let after = replaced_from(s, from, to, rest);
        assert(all == step + after);
        assert(all.subrange(all.len() - tail.len(), all.len() as int) =~= after.subrange(
            after.len() - tail.len(),
            after.len() as int,
        ));
        assert(tail.is_suffix_of(all));
    } else {
        assert(all.subrange(0, all.len() as int) =~= all);
    }
}

/// A text in which nothing is to be replaced stays as it is.
pub proof fn law_nothing_to_replace(s: Seq<char>, from: Seq<char>, to: Seq<char>, i: int)
    requires
        0 <= i <= s.len(),
        forall|j: int| i <= j < s.len() ==> !occurs_at(s, from, j),
    ensures
        replaced_from(s, from, to, i) == s.skip(i),
    decreases s.len() - i,
{
    if i < s.len() {
        law_nothing_to_replace(s, from, to, i + 1);
        assert(seq![s[i]] + s.skip(i + 1) =~= s.skip(i));
    } else {
        assert(s.skip(i) =~= Seq::<char>::empty());
    }
}

/// A prefix is taken off exactly where it stands, and so is a suffix; what is left is the rest.
pub proof fn law_taking_off(s: Seq<char>, affix: Seq<char>)
    ensures
        without_prefix(affix + s, affix) == Some(s),
        without_suffix(s + affix, affix) == Some(s),
        without_prefix(s, affix) matches Some(rest) ==> s == affix + rest,
        without_suffix(s, affix) matches Some(rest) ==> s == rest + affix,
        without_prefix(s, affix) is None <==> !affix.is_prefix_of(s),
        without_suffix(s, affix) is None <==> !affix.is_suffix_of(s),
{
    let a = affix + s;
    assert(a.subrange(0, affix.len() as int) =~= affix);
    assert(a.skip(affix.len() as int) =~= s);
    let b = s + affix;
    assert(b.subrange(b.len() - affix.len(), b.len() as int) =~= affix);
    assert(b.take(b.len() - affix.len()) =~= s);
    if affix.is_prefix_of(s) {
        assert(s =~= affix + s.skip(affix.len() as int)) by {
            assert forall|i: int| 0 <= i < affix.len() implies s[i] == affix[i] by {
                assert(s.subrange(0, affix.len() as int)[i] == s[i]);
            }
        }
    }
    if affix.is_suffix_of(s) {
        lemma_suffix_chars(s, affix);
        assert(s =~= s.take(s.len() - affix.len()) + affix) by {
            assert forall|k: int| 0 <= k < affix.len() implies s[s.len() - affix.len() + k]
                == affix[k] by {}
        }
    }
}

/// A text stands in another that puts something before and behind it.
pub proof fn law_standing_in(head: Seq<char>, needle: Seq<char>, tail: Seq<char>)
    ensures
        has(head + needle + tail, needle),
{
    let all = head + needle + tail;
    assert(all.subrange(head.len() as int, head.len() as int + needle.len()) =~= needle);
    assert(occurs_at(all, needle, head.len() as int));
}

} // verus!
