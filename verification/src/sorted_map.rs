//! A map from texts to values that holds its entries in key order.
//!
//! Keys are ordered by a [`KeyOrder`]: as texts, character by character, or as
//! paths, component by component.

use vstd::prelude::*;

use crate::path;
use crate::path::{parts, Part};
use crate::text;

verus! {

/// A strict total order on texts, through the key that a text stands for.
pub trait KeyOrder: Sized {
    /// What two texts are compared by.
    type Key;

    /// The key a text stands for.
    spec fn key(s: Seq<char>) -> Self::Key;

    /// One key comes strictly before another.
    spec fn lt(a: Self::Key, b: Self::Key) -> bool;

    /// The order itself, as a value.
    fn new() -> Self;

    proof fn irreflexive(a: Self::Key)
        ensures
            !Self::lt(a, a),
    ;

    proof fn transitive(a: Self::Key, b: Self::Key, c: Self::Key)
        requires
            Self::lt(a, b),
            Self::lt(b, c),
        ensures
            Self::lt(a, c),
    ;

    proof fn total(a: Self::Key, b: Self::Key)
        ensures
            Self::lt(a, b) || Self::lt(b, a) || a == b,
    ;

    /// Whether the key of `a` comes strictly before the key of `b`.
    fn precedes(a: &str, b: &str) -> (r: bool)
        ensures
            r == Self::lt(Self::key(a@), Self::key(b@)),
    ;
}

/// Texts, character by character.
#[derive(Clone, Copy, Debug, PartialEq, Eq)]
pub struct ByText;

impl KeyOrder for ByText {
    type Key = Seq<char>;

    open spec fn key(s: Seq<char>) -> Seq<char> {
        s
    }

    open spec fn lt(a: Seq<char>, b: Seq<char>) -> bool {
        text::before(a, b)
    }

    fn new() -> Self {
        ByText
    }

    proof fn irreflexive(a: Seq<char>) {
        text::lemma_before_irreflexive(a);
    }

    proof fn transitive(a: Seq<char>, b: Seq<char>, c: Seq<char>) {
        text::lemma_before_transitive(a, b, c);
    }

    proof fn total(a: Seq<char>, b: Seq<char>) {
        text::lemma_before_total(a, b);
    }

    fn precedes(a: &str, b: &str) -> (r: bool) {
        text::precedes(a, b)
    }
}

/// Paths, component by component.
#[derive(Clone, Copy, Debug, PartialEq, Eq)]
pub struct ByPath;

impl KeyOrder for ByPath {
    type Key = Seq<Part>;

    open spec fn key(s: Seq<char>) -> Seq<Part> {
        parts(s)
    }

    open spec fn lt(a: Seq<Part>, b: Seq<Part>) -> bool {
        path::parts_before(a, b)
    }

    fn new() -> Self {
        ByPath
    }

    proof fn irreflexive(a: Seq<Part>) {
        path::lemma_parts_irreflexive(a);
    }

    proof fn transitive(a: Seq<Part>, b: Seq<Part>, c: Seq<Part>) {
        path::lemma_parts_transitive(a, b, c);
    }

    proof fn total(a: Seq<Part>, b: Seq<Part>) {
        path::lemma_parts_total(a, b);
    }

    fn precedes(a: &str, b: &str) -> (r: bool) {
        path::precedes(a, b)
    }
}

/// Entries stand in strictly ascending key order, so no key stands twice.
pub open spec fn ascending<O: KeyOrder, V>(entries: Seq<(String, V)>) -> bool {
    forall|i: int, j: int|
        0 <= i < j < entries.len() ==> O::lt(
            O::key((#[trigger] entries[i]).0@),
            O::key((#[trigger] entries[j]).0@),
        )
}

/// The map that a list of entries stands for.
pub open spec fn map_of<O: KeyOrder, V>(entries: Seq<(String, V)>) -> Map<O::Key, V>
    decreases entries.len(),
{
    if entries.len() == 0 {
        Map::empty()
    } else {
        map_of::<O, V>(entries.drop_last()).insert(O::key(entries.last().0@), entries.last().1)
    }
}

/// The map of ascending entries holds exactly those entries.
pub proof fn lemma_map_of<O: KeyOrder, V>(entries: Seq<(String, V)>)
    requires
        ascending::<O, V>(entries),
    ensures
        forall|i: int|
            0 <= i < entries.len() ==> map_of::<O, V>(entries).contains_key(
                O::key((#[trigger] entries[i]).0@),
            ) && map_of::<O, V>(entries)[O::key(entries[i].0@)] == entries[i].1,
        forall|k: O::Key|
            map_of::<O, V>(entries).contains_key(k) ==> exists|i: int|
                0 <= i < entries.len() && O::key((#[trigger] entries[i]).0@) == k,
    decreases entries.len(),
{
    if entries.len() > 0 {
        let front = entries.drop_last();
        assert forall|i: int, j: int| 0 <= i < j < front.len() implies O::lt(
            O::key((#[trigger] front[i]).0@),
            O::key((#[trigger] front[j]).0@),
        ) by {
            assert(front[i] == entries[i]);
            assert(front[j] == entries[j]);
        }
        lemma_map_of::<O, V>(front);
        let last = O::key(entries.last().0@);
        assert forall|i: int| 0 <= i < entries.len() implies map_of::<O, V>(entries).contains_key(
            O::key((#[trigger] entries[i]).0@),
        ) && map_of::<O, V>(entries)[O::key(entries[i].0@)] == entries[i].1 by {
            if i < front.len() {
                assert(front[i] == entries[i]);
                assert(O::lt(O::key(entries[i].0@), O::key(entries[entries.len() - 1].0@)));
                O::irreflexive(last);
            }
        }
        assert forall|k: O::Key| map_of::<O, V>(entries).contains_key(k) implies exists|i: int|
            0 <= i < entries.len() && O::key((#[trigger] entries[i]).0@) == k by {
            if k == last {
                assert(O::key(entries[entries.len() - 1].0@) == k);
            } else {
                assert(map_of::<O, V>(front).contains_key(k));
                let i = choose|i: int| 0 <= i < front.len() && O::key((#[trigger] front[i]).0@) == k;
                assert(front[i] == entries[i]);
            }
        }
    }
}

/// A list of keyed values stands in strictly ascending key order.
pub open spec fn ordered<O: KeyOrder, W>(list: Seq<(O::Key, W)>) -> bool {
    forall|i: int, j: int|
        0 <= i < j < list.len() ==> O::lt((#[trigger] list[i]).0, (#[trigger] list[j]).0)
}

/// The map that a list of keyed values stands for: a later value replaces an earlier one.
pub open spec fn table<O: KeyOrder, W>(list: Seq<(O::Key, W)>) -> Map<O::Key, W>
    decreases list.len(),
{
    if list.len() == 0 {
        Map::empty()
    } else {
        table::<O, W>(list.drop_last()).insert(list.last().0, list.last().1)
    }
}

/// The entries of a map in key order.
pub open spec fn listing<O: KeyOrder, W>(m: Map<O::Key, W>) -> Seq<(O::Key, W)> {
    choose|list: Seq<(O::Key, W)>| ordered::<O, W>(list) && table::<O, W>(list) == m
}

proof fn lemma_table<O: KeyOrder, W>(list: Seq<(O::Key, W)>)
    requires
        ordered::<O, W>(list),
    ensures
        forall|i: int|
            0 <= i < list.len() ==> table::<O, W>(list).contains_key((#[trigger] list[i]).0)
                && table::<O, W>(list)[list[i].0] == list[i].1,
        forall|k: O::Key|
            table::<O, W>(list).contains_key(k) ==> exists|i: int|
                0 <= i < list.len() && (#[trigger] list[i]).0 == k,
    decreases list.len(),
{
    if list.len() > 0 {
        let front = list.drop_last();
        lemma_ordered_front::<O, W>(list);
        lemma_table::<O, W>(front);
        let last = list.last().0;
        assert forall|i: int| 0 <= i < list.len() implies table::<O, W>(list).contains_key(
            (#[trigger] list[i]).0,
        ) && table::<O, W>(list)[list[i].0] == list[i].1 by {
            if i < front.len() {
                assert(front[i] == list[i]);
                assert(O::lt(list[i].0, list[list.len() - 1].0));
                O::irreflexive(last);
            }
        }
        assert forall|k: O::Key| table::<O, W>(list).contains_key(k) implies exists|i: int|
            0 <= i < list.len() && (#[trigger] list[i]).0 == k by {
            if k == last {
                assert(list[list.len() - 1].0 == k);
            } else {
                assert(table::<O, W>(front).contains_key(k));
                let i = choose|i: int| 0 <= i < front.len() && (#[trigger] front[i]).0 == k;
                assert(front[i] == list[i]);
            }
        }
    }
}

proof fn lemma_ordered_front<O: KeyOrder, W>(list: Seq<(O::Key, W)>)
    requires
        ordered::<O, W>(list),
        list.len() > 0,
    ensures
        ordered::<O, W>(list.drop_last()),
{
    let front = list.drop_last();
    assert forall|i: int, j: int| 0 <= i < j < front.len() implies O::lt(
        (#[trigger] front[i]).0,
        (#[trigger] front[j]).0,
    ) by {
        assert(front[i] == list[i]);
        assert(front[j] == list[j]);
    }
}

/// Two ordered lists of the same map are the same list.
proof fn lemma_ordered_unique<O: KeyOrder, W>(a: Seq<(O::Key, W)>, b: Seq<(O::Key, W)>)
    requires
        ordered::<O, W>(a),
        ordered::<O, W>(b),
        table::<O, W>(a) == table::<O, W>(b),
    ensures
        a == b,
    decreases a.len(),
{
    lemma_table::<O, W>(a);
    lemma_table::<O, W>(b);
    if a.len() == 0 {
        if b.len() > 0 {
            assert(table::<O, W>(b).contains_key(b[0].0));
        }
        assert(a =~= b);
    } else {
        assert(table::<O, W>(a).contains_key(a[a.len() - 1].0));
        assert(b.len() > 0) by {
            if b.len() == 0 {
                assert(table::<O, W>(b) =~= Map::<O::Key, W>::empty());
            }
        }
        let x = a.last();
        let y = b.last();
        assert(table::<O, W>(b).contains_key(b[b.len() - 1].0));
        let i = choose|i: int| 0 <= i < b.len() && (#[trigger] b[i]).0 == x.0;
        let j = choose|j: int| 0 <= j < a.len() && (#[trigger] a[j]).0 == y.0;
        if x.0 != y.0 {
            assert(O::lt(b[i].0, b[b.len() - 1].0));
            assert(O::lt(a[j].0, a[a.len() - 1].0));
            O::transitive(x.0, y.0, x.0);
            O::irreflexive(x.0);
        }
        assert(table::<O, W>(a)[a[a.len() - 1].0] == x.1);
        assert(table::<O, W>(b)[b[b.len() - 1].0] == y.1);
        let fa = a.drop_last();
        let fb = b.drop_last();
        lemma_ordered_front::<O, W>(a);
        lemma_ordered_front::<O, W>(b);
        lemma_table::<O, W>(fa);
        lemma_table::<O, W>(fb);
        assert(!table::<O, W>(fa).contains_key(x.0)) by {
            if table::<O, W>(fa).contains_key(x.0) {
                let k = choose|k: int| 0 <= k < fa.len() && (#[trigger] fa[k]).0 == x.0;
                assert(O::lt(a[k].0, a[a.len() - 1].0));
                O::irreflexive(x.0);
            }
        }
        assert(!table::<O, W>(fb).contains_key(y.0)) by {
            if table::<O, W>(fb).contains_key(y.0) {
                let k = choose|k: int| 0 <= k < fb.len() && (#[trigger] fb[k]).0 == y.0;
                assert(O::lt(b[k].0, b[b.len() - 1].0));
                O::irreflexive(y.0);
            }
        }
        assert(table::<O, W>(fa) =~= table::<O, W>(a).remove(x.0));
        assert(table::<O, W>(fb) =~= table::<O, W>(b).remove(y.0));
        lemma_ordered_unique::<O, W>(fa, fb);
        assert(fa.push(x) =~= a);
        assert(fb.push(y) =~= b);
    }
}

/// An ordered list is the listing of its map.
pub proof fn lemma_listing<O: KeyOrder, W>(list: Seq<(O::Key, W)>)
    requires
        ordered::<O, W>(list),
    ensures
        listing::<O, W>(table::<O, W>(list)) == list,
{
    lemma_ordered_unique::<O, W>(listing::<O, W>(table::<O, W>(list)), list);
}

/// Every finite map has an ordered list.
proof fn lemma_has_listing<O: KeyOrder, W>(m: Map<O::Key, W>) -> (list: Seq<(O::Key, W)>)
    requires
        m.dom().finite(),
    ensures
        ordered::<O, W>(list),
        table::<O, W>(list) == m,
    decreases m.dom().len(),
{
    if m.dom().len() == 0 {
        assert(m =~= Map::<O::Key, W>::empty());
        Seq::empty()
    } else {
        let key = m.dom().choose();
        let fewer = m.remove(key);
        let rest = lemma_has_listing::<O, W>(fewer);
        lemma_table::<O, W>(rest);
        let n = lemma_place::<O, W>(rest, key, rest.len() as int);
        let list = rest.take(n).push((key, m[key])) + rest.skip(n);
        assert forall|i: int| 0 <= i < rest.len() implies (#[trigger] rest[i]).0 != key by {
            assert(fewer.contains_key(rest[i].0));
        }
        assert forall|i: int, j: int| 0 <= i < j < list.len() implies O::lt(
            (#[trigger] list[i]).0,
            (#[trigger] list[j]).0,
        ) by {
            if i < n {
                assert(list[i] == rest[i]);
            }
            if i > n {
                assert(list[i] == rest[i - 1]);
            }
            if j < n {
                assert(list[j] == rest[j]);
            }
            if j > n {
                assert(list[j] == rest[j - 1]);
                O::total(rest[j - 1].0, key);
            }
        }
        lemma_table::<O, W>(list);
        assert forall|k: O::Key| table::<O, W>(list).contains_key(k) == #[trigger] m.contains_key(
            k,
        ) by {
            if table::<O, W>(list).contains_key(k) {
                let i = choose|i: int| 0 <= i < list.len() && (#[trigger] list[i]).0 == k;
                if i < n {
                    assert(list[i] == rest[i]);
                } else if i > n {
                    assert(list[i] == rest[i - 1]);
                }
            }
            if m.contains_key(k) && k != key {
                assert(table::<O, W>(rest).contains_key(k));
                let i = choose|i: int| 0 <= i < rest.len() && (#[trigger] rest[i]).0 == k;
                if i < n {
                    assert(list[i] == rest[i]);
                } else {
                    assert(list[i + 1] == rest[i]);
                }
            }
            if k == key {
                assert(list[n].0 == key);
            }
        }
        assert forall|k: O::Key| #[trigger] m.contains_key(k) implies table::<O, W>(list)[k]
            == m[k] by {
            if k == key {
                assert(list[n] == (key, m[key]));
            } else {
                let i = choose|i: int| 0 <= i < rest.len() && (#[trigger] rest[i]).0 == k;
                if i < n {
                    assert(list[i] == rest[i]);
                } else {
                    assert(list[i + 1] == rest[i]);
                }
            }
        }
        assert(table::<O, W>(list) =~= m);
        list
    }
}

/// The first `n` entries of an ordered list fall into those before a key and those that are not.
proof fn lemma_place<O: KeyOrder, W>(list: Seq<(O::Key, W)>, key: O::Key, n: int) -> (place: int)
    requires
        ordered::<O, W>(list),
        0 <= n <= list.len(),
    ensures
        0 <= place <= n,
        forall|i: int| 0 <= i < place ==> O::lt((#[trigger] list[i]).0, key),
        forall|i: int| place <= i < n ==> !O::lt((#[trigger] list[i]).0, key),
    decreases n,
{
    if n == 0 {
        0
    } else {
        let place = lemma_place::<O, W>(list, key, n - 1);
        if O::lt(list[n - 1].0, key) {
            assert forall|i: int| 0 <= i < n implies O::lt((#[trigger] list[i]).0, key) by {
                if i < n - 1 {
                    assert(O::lt(list[i].0, list[n - 1].0));
                    O::transitive(list[i].0, list[n - 1].0, key);
                }
            }
            n
        } else {
            place
        }
    }
}

/// The listing of a finite map is that map, each key once, in key order.
pub proof fn law_listing<O: KeyOrder, W>(m: Map<O::Key, W>)
    requires
        m.dom().finite(),
    ensures
        ordered::<O, W>(listing::<O, W>(m)),
        table::<O, W>(listing::<O, W>(m)) == m,
        forall|i: int|
            0 <= i < listing::<O, W>(m).len() ==> m.contains_key(
                (#[trigger] listing::<O, W>(m)[i]).0,
            ) && m[listing::<O, W>(m)[i].0] == listing::<O, W>(m)[i].1,
        forall|k: O::Key| #[trigger]
            m.contains_key(k) ==> exists|i: int|
                0 <= i < listing::<O, W>(m).len() && (#[trigger] listing::<O, W>(m)[i]).0 == k,
{
    let list = lemma_has_listing::<O, W>(m);
    lemma_listing::<O, W>(list);
    lemma_table::<O, W>(list);
}

/// Ascending entries with texts as values, seen as texts throughout, are an ordered list
/// of the same map.
pub proof fn lemma_text_entries(entries: Seq<(String, String)>)
    requires
        ascending::<ByText, String>(entries),
    ensures
        ordered::<ByText, Seq<char>>(text::pairs(entries)),
        table::<ByText, Seq<char>>(text::pairs(entries)) == map_of::<ByText, String>(
            entries,
        ).map_values(|url: String| url@),
    decreases entries.len(),
{
    let list = text::pairs(entries);
    assert forall|i: int, j: int| 0 <= i < j < list.len() implies text::before(
        (#[trigger] list[i]).0,
        (#[trigger] list[j]).0,
    ) by {
        assert(ByText::lt(ByText::key(entries[i].0@), ByText::key(entries[j].0@)));
    }
    if entries.len() == 0 {
        assert(table::<ByText, Seq<char>>(list) =~= map_of::<ByText, String>(entries).map_values(
            |url: String| url@,
        ));
    } else {
        let front = entries.drop_last();
        assert(ascending::<ByText, String>(front)) by {
            assert forall|i: int, j: int| 0 <= i < j < front.len() implies ByText::lt(
                ByText::key((#[trigger] front[i]).0@),
                ByText::key((#[trigger] front[j]).0@),
            ) by {
                assert(front[i] == entries[i]);
                assert(front[j] == entries[j]);
            }
        }
        lemma_text_entries(front);
        assert(list.drop_last() =~= text::pairs(front));
        assert(map_of::<ByText, String>(entries).map_values(|url: String| url@) =~= map_of::<
            ByText,
            String,
        >(front).map_values(|url: String| url@).insert(entries.last().0@, entries.last().1@));
    }
}

/// A map that holds its entries in key order.
#[derive(Debug, PartialEq, Eq)]
pub struct SortedMap<O: KeyOrder, V> {
    entries: Vec<(String, V)>,
    order: O,
}

/// The values by their keys. How a key is spelled is not part of it: of two spellings of one key
/// the first stays, and [`SortedMap::entries`] shows it.
impl<O: KeyOrder, V> View for SortedMap<O, V> {
    type V = Map<O::Key, V>;

    closed spec fn view(&self) -> Map<O::Key, V> {
        map_of::<O, V>(self.entries@)
    }
}

impl<O: KeyOrder, V> SortedMap<O, V> {
    #[verifier::type_invariant]
    spec fn well_formed(self) -> bool {
        ascending::<O, V>(self.entries@)
    }

    /// A map without entries.
    pub fn new() -> (r: Self)
        ensures
            r@ == Map::<O::Key, V>::empty(),
    {
        SortedMap { entries: Vec::new(), order: O::new() }
    }

    /// The entries, in key order.
    pub fn entries(&self) -> (r: &Vec<(String, V)>)
        ensures
            ascending::<O, V>(r@),
            self@ == map_of::<O, V>(r@),
    {
        proof {
            use_type_invariant(self);
        }
        &self.entries
    }

    /// The place of `key`, or of the first key after it.
    fn place(&self, key: &str) -> (r: (usize, bool))
        ensures
            r.0 <= self.entries@.len(),
            ascending::<O, V>(self.entries@),
            forall|j: int| 0 <= j < r.0 ==> O::lt(O::key((#[trigger] self.entries@[j]).0@), O::key(key@)),
            r.1 ==> r.0 < self.entries@.len() && O::key(self.entries@[r.0 as int].0@) == O::key(key@),
            !r.1 ==> forall|j: int|
                r.0 <= j < self.entries@.len() ==> O::lt(
                    O::key(key@),
                    O::key((#[trigger] self.entries@[j]).0@),
                ),
    {
        proof {
            use_type_invariant(self);
        }
        let mut i: usize = 0;
        while i < self.entries.len() && O::precedes(self.entries[i].0.as_str(), key)
            invariant
                i <= self.entries@.len(),
                forall|j: int|
                    0 <= j < i ==> O::lt(O::key((#[trigger] self.entries@[j]).0@), O::key(key@)),
            decreases self.entries@.len() - i,
        {
            i += 1;
        }
        if i < self.entries.len() {
            let ghost here = O::key(self.entries@[i as int].0@);
            proof {
                O::total(here, O::key(key@));
            }
            if O::precedes(key, self.entries[i].0.as_str()) {
                proof {
                    assert forall|j: int| i <= j < self.entries@.len() implies O::lt(
                        O::key(key@),
                        O::key((#[trigger] self.entries@[j]).0@),
                    ) by {
                        if j > i {
                            assert(O::lt(here, O::key(self.entries@[j].0@)));
                            O::transitive(O::key(key@), here, O::key(self.entries@[j].0@));
                        }
                    }
                }
                (i, false)
            } else {
                (i, true)
            }
        } else {
            (i, false)
        }
    }

    /// Add an entry, or replace the value of the one that is there.
    pub fn insert(&mut self, key: String, value: V)
        ensures
            final(self)@ == old(self)@.insert(O::key(key@), value),
    {
        let (i, found) = self.place(key.as_str());
        let ghost before = self.entries@;
        let ghost k = O::key(key@);
        let mut list: Vec<(String, V)> = Vec::new();
        std::mem::swap(&mut list, &mut self.entries);
        if found {
            let (kept, _) = list.remove(i);
            list.insert(i, (kept, value));
            assert(list@ =~= before.update(i as int, (kept, value)));
        } else {
            list.insert(i, (key, value));
            assert(list@ =~= before.insert(i as int, (key, value)));
        }
        proof {
            let after = list@;
            assert forall|a: int, b: int| 0 <= a < b < after.len() implies O::lt(
                O::key((#[trigger] after[a]).0@),
                O::key((#[trigger] after[b]).0@),
            ) by {
                if found {
                    assert(O::key(after[a].0@) == O::key(before[a].0@));
                    assert(O::key(after[b].0@) == O::key(before[b].0@));
                } else {
                    if a < i && b < i {
                        assert(after[a] == before[a] && after[b] == before[b]);
                    } else if a < i && b == i {
                        assert(after[a] == before[a]);
                    } else if a < i {
                        assert(after[a] == before[a] && after[b] == before[b - 1]);
                    } else if a == i {
                        assert(after[b] == before[b - 1]);
                    } else {
                        assert(after[a] == before[a - 1] && after[b] == before[b - 1]);
                    }
                }
            }
            assert(ascending::<O, V>(after));
            lemma_map_of::<O, V>(before);
            lemma_map_of::<O, V>(after);
            let m = map_of::<O, V>(before).insert(k, value);
            let n = map_of::<O, V>(after);
            assert forall|x: O::Key| #[trigger] m.dom().contains(x) implies n.dom().contains(x) && n[x]
                == m[x] by {
                if x == k {
                    assert(O::key(after[i as int].0@) == k);
                } else {
                    let j = choose|j: int|
                        0 <= j < before.len() && O::key((#[trigger] before[j]).0@) == x;
                    assert(map_of::<O, V>(before)[O::key(before[j].0@)] == before[j].1);
                    if found || j < i {
                        assert(after[j] == before[j]);
                    } else {
                        assert(after[j + 1] == before[j]);
                    }
                }
            }
            assert forall|x: O::Key| #[trigger] n.dom().contains(x) implies m.dom().contains(x) by {
                let j = choose|j: int| 0 <= j < after.len() && O::key((#[trigger] after[j]).0@) == x;
                if j != i {
                    if found || j < i {
                        assert(after[j] == before[j]);
                    } else {
                        assert(after[j] == before[j - 1]);
                    }
                }
            }
            assert(m =~= n);
        }
        self.entries = list;
    }

    /// The value of `key`, when it has one.
    pub fn get(&self, key: &str) -> (r: Option<&V>)
        ensures
            match r {
                Some(v) => self@.contains_key(O::key(key@)) && self@[O::key(key@)] == *v,
                None => !self@.contains_key(O::key(key@)),
            },
    {
        let (i, found) = self.place(key);
        proof {
            lemma_map_of::<O, V>(self.entries@);
        }
        if found {
            Some(&self.entries[i].1)
        } else {
            proof {
                if self@.contains_key(O::key(key@)) {
                    let j = choose|j: int|
                        0 <= j < self.entries@.len() && O::key((#[trigger] self.entries@[j]).0@)
                            == O::key(key@);
                    O::irreflexive(O::key(key@));
                }
            }
            None
        }
    }

    /// Whether `key` has a value.
    pub fn contains_key(&self, key: &str) -> (r: bool)
        ensures
            r == self@.contains_key(O::key(key@)),
    {
        self.get(key).is_some()
    }

    /// The number of entries.
    pub fn len(&self) -> (r: usize)
        ensures
            r == self@.len(),
            self@.dom().finite(),
    {
        proof {
            use_type_invariant(self);
            lemma_map_len::<O, V>(self.entries@);
        }
        self.entries.len()
    }
}

/// A list of ascending entries has as many entries as its map.
pub proof fn lemma_map_len<O: KeyOrder, V>(entries: Seq<(String, V)>)
    requires
        ascending::<O, V>(entries),
    ensures
        map_of::<O, V>(entries).dom().finite(),
        map_of::<O, V>(entries).len() == entries.len(),
    decreases entries.len(),
{
    if entries.len() > 0 {
        let front = entries.drop_last();
        assert forall|i: int, j: int| 0 <= i < j < front.len() implies O::lt(
            O::key((#[trigger] front[i]).0@),
            O::key((#[trigger] front[j]).0@),
        ) by {
            assert(front[i] == entries[i]);
            assert(front[j] == entries[j]);
        }
        lemma_map_len::<O, V>(front);
        lemma_map_of::<O, V>(front);
        let last = O::key(entries.last().0@);
        if map_of::<O, V>(front).contains_key(last) {
            let i = choose|i: int| 0 <= i < front.len() && O::key((#[trigger] front[i]).0@) == last;
            assert(O::lt(O::key(entries[i].0@), O::key(entries[entries.len() - 1].0@)));
            O::irreflexive(last);
        }
    }
}

} // verus!
