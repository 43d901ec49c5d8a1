//! Which packages a command vendors: the specs it was given, and then the dependencies of the
//! manifests it was given, each package once.

use vstd::prelude::*;

use crate::error::{Error, Failure};
use crate::importmap::Importmap;
use crate::json;
use crate::npm::{opt_exports, Entry, Export};
use crate::text;
use crate::text::{pairs, trimmed_end};
use crate::vendor::entries;
use crate::vendor::entries::{spec_entries, Target};
use crate::vendor::manifest;
use crate::vendor::manifest::{manifest_specs, seen_specs};
use crate::vendor::spec::{lemma_wanted_push, positional, wanted, PackageSpec, Wanted};

verus! {

/// A `package.json`: where it is, and what it holds.
#[derive(Debug, PartialEq, Eq)]
pub struct Manifest {
    pub path: String,
    pub bytes: Vec<u8>,
}

/// A list names a package.
pub open spec fn names(list: Seq<Wanted>, name: Seq<char>) -> bool {
    exists|i: int| 0 <= i < list.len() && (#[trigger] list[i]).dir == name
}

/// A list of specs with each package once, the first of a name.
pub open spec fn first_named(list: Seq<Wanted>) -> Seq<Wanted>
    decreases list.len(),
{
    if list.len() == 0 {
        Seq::empty()
    } else {
        let front = first_named(list.drop_last());
        if names(front, list.last().dir) {
            front
        } else {
            front.push(list.last())
        }
    }
}

fn is_named(list: &Vec<PackageSpec>, name: &str) -> (r: bool)
    ensures
        r == names(wanted(list@), name@),
{
    let ghost all = wanted(list@);
    let mut i: usize = 0;
    while i < list.len()
        invariant
            i <= list@.len(),
            all == wanted(list@),
            forall|k: int| 0 <= k < i ==> (#[trigger] all[k]).dir != name@,
        decreases list@.len() - i,
    {
        assert(all[i as int] == list@[i as int]@);
        if text::same(list[i].name(), name) {
            return true;
        }
        i += 1;
    }
    false
}

/// The specs with each package once, the first of a name.
pub fn dedupe(specs: Vec<PackageSpec>) -> (r: Vec<PackageSpec>)
    ensures
        wanted(r@) == first_named(wanted(specs@)),
{
    let ghost given = specs@;
    let ghost all = wanted(given);
    let mut out: Vec<PackageSpec> = Vec::new();
    assert(wanted(out@) =~= first_named(all.take(0)));
    for spec in it: specs
        invariant
            it.seq() == given,
            all == wanted(given),
            wanted(out@) == first_named(all.take(it.index())),
    {
        proof {
            let k = it.index();
            let grown = all.take(k + 1);
            assert(grown.drop_last() =~= all.take(k));
            assert(grown.last() == spec@);
        }
        if !is_named(&out, spec.name()) {
            proof {
                lemma_wanted_push(out@, spec);
            }
            out.push(spec);
        }
    }
    assert(all.take(given.len() as int) =~= all);
    out
}

/// The specs that a manifest asks for.
pub open spec fn asked_by(m: Manifest) -> Result<Seq<Wanted>, Failure> {
    match json::json_document(m.bytes@) {
        Ok(doc) => manifest_specs(m.path@, doc),
        Err(e) => Err(Failure::Vendor(m.path@ + ": "@ + e)),
    }
}

/// Given specs, and then those that manifests ask for, in order; the first manifest that
/// fails ends it.
pub open spec fn gathered(given: Seq<Wanted>, manifests: Seq<Manifest>) -> Result<
    Seq<Wanted>,
    Failure,
>
    decreases manifests.len(),
{
    if manifests.len() == 0 {
        Ok(given)
    } else {
        match gathered(given, manifests.drop_last()) {
            Ok(front) => match asked_by(manifests.last()) {
                Ok(more) => Ok(front + more),
                Err(e) => Err(e),
            },
            Err(e) => Err(e),
        }
    }
}

proof fn lemma_gather_failure_stays(
    given: Seq<Wanted>,
    manifests: Seq<Manifest>,
    n: int,
    e: Failure,
)
    requires
        0 <= n <= manifests.len(),
        gathered(given, manifests.take(n)) == Err::<Seq<Wanted>, Failure>(e),
    ensures
        gathered(given, manifests) == Err::<Seq<Wanted>, Failure>(e),
    decreases manifests.len() - n,
{
    if n < manifests.len() {
        let grown = manifests.take(n + 1);
        assert(grown.drop_last() =~= manifests.take(n));
        lemma_gather_failure_stays(given, manifests, n + 1, e);
    } else {
        assert(manifests.take(n) =~= manifests);
    }
}

/// Given specs, and then those that manifests ask for, in order.
pub fn gather(given: Vec<PackageSpec>, manifests: &Vec<Manifest>) -> (r: Result<
    Vec<PackageSpec>,
    Error,
>)
    ensures
        seen_specs(r) == gathered(wanted(given@), manifests@),
{
    let ghost start = wanted(given@);
    let mut out = given;
    let mut i: usize = 0;
    while i < manifests.len()
        invariant
            i <= manifests@.len(),
            start == wanted(given@),
            gathered(start, manifests@.take(i as int)) == Ok::<Seq<Wanted>, Failure>(
                wanted(out@),
            ),
        decreases manifests@.len() - i,
    {
        proof {
            let grown = manifests@.take(i + 1);
            assert(grown.drop_last() =~= manifests@.take(i as int));
            assert(grown.last() == manifests@[i as int]);
        }
        match manifest::specs_from_package_json(
            manifests[i].path.as_str(),
            manifests[i].bytes.as_slice(),
        ) {
            Ok(mut more) => {
                let ghost before = wanted(out@);
                let ghost added = more@;
                out.append(&mut more);
                assert(wanted(out@) =~= before + wanted(added));
            },
            Err(e) => {
                proof {
                    lemma_gather_failure_stays(start, manifests@, i + 1, e@);
                }
                return Err(e);
            },
        }
        i += 1;
    }
    assert(manifests@.take(manifests@.len() as int) =~= manifests@);
    Ok(out)
}

/// The specs of a command: positional ones and then those of manifests, each package once.
/// When something has to be vendored, nothing at all is an error.
pub open spec fn selected(
    packages: Seq<Seq<char>>,
    manifests: Seq<Manifest>,
    require_nonempty: bool,
) -> Result<Seq<Wanted>, Failure> {
    match gathered(Seq::new(packages.len(), |i: int| positional(packages[i])), manifests) {
        Ok(list) => if require_nonempty && list.len() == 0 {
            Err(
                Failure::Vendor(
                    "give package specs (e.g. lit@^3) or --manifest <package.json>"@,
                ),
            )
        } else {
            Ok(first_named(list))
        },
        Err(e) => Err(e),
    }
}

/// The spec set of a command, from positional specs plus each manifest's `dependencies`. A
/// positional spec wins over a same-named manifest entry. A command that only vendors
/// requires a non-empty result; a build allows none (a non-vendored, static build).
pub fn build_vendor_specs(
    packages: &Vec<String>,
    manifests: &Vec<Manifest>,
    require_nonempty: bool,
) -> (r: Result<Vec<PackageSpec>, Error>)
    ensures
        seen_specs(r) == selected(text::texts(packages@), manifests@, require_nonempty),
{
    let ghost texts = text::texts(packages@);
    let mut specs: Vec<PackageSpec> = Vec::new();
    let mut i: usize = 0;
    while i < packages.len()
        invariant
            i <= packages@.len(),
            specs@.len() == i,
            forall|k: int| 0 <= k < i ==> (#[trigger] specs@[k])@ == positional(packages@[k]@),
        decreases packages@.len() - i,
    {
        specs.push(PackageSpec::parse(packages[i].as_str()));
        i += 1;
    }
    assert(wanted(specs@) =~= Seq::new(texts.len(), |i: int| positional(texts[i])));
    match gather(specs, manifests) {
        Ok(list) => {
            if require_nonempty && list.len() == 0 {
                return Err(
                    Error::Vendor(
                        "give package specs (e.g. lit@^3) or --manifest <package.json>".to_owned(),
                    ),
                );
            }
            Ok(dedupe(list))
        },
        Err(e) => Err(e),
    }
}

proof fn lemma_first_named(list: Seq<Wanted>)
    ensures
        forall|i: int, j: int|
            0 <= i < j < first_named(list).len() ==> (#[trigger] first_named(list)[i]).dir != (
            #[trigger] first_named(list)[j]).dir,
        forall|k: int| 0 <= k < list.len() ==> names(first_named(list), (#[trigger] list[k]).dir),
        forall|k: int|
            0 <= k < first_named(list).len() ==> list.contains(#[trigger] first_named(list)[k]),
    decreases list.len(),
{
    if list.len() > 0 {
        let front = list.drop_last();
        lemma_first_named(front);
        let before = first_named(front);
        let now = first_named(list);
        assert forall|i: int, j: int| 0 <= i < j < now.len() implies (#[trigger] now[i]).dir != (
        #[trigger] now[j]).dir by {
            if j == before.len() {
                assert(before[i].dir != list.last().dir);
            }
        }
        assert forall|k: int| 0 <= k < list.len() implies names(now, (#[trigger] list[k]).dir) by {
            if k < front.len() {
                assert(front[k] == list[k]);
                assert(names(before, front[k].dir));
                let i = choose|i: int| 0 <= i < before.len() && (#[trigger] before[i]).dir
                    == front[k].dir;
                assert(now[i] == before[i]);
            } else if names(before, list.last().dir) {
                assert(now == before);
            } else {
                assert(now[before.len() as int].dir == list.last().dir);
            }
        }
        assert forall|k: int| 0 <= k < now.len() implies list.contains(#[trigger] now[k]) by {
            if k < before.len() {
                assert(before[k] == now[k]);
                assert(front.contains(before[k]));
                let m = choose|m: int| 0 <= m < front.len() && front[m] == before[k];
                assert(list[m] == now[k]);
            } else {
                assert(list[list.len() - 1] == now[k]);
            }
        }
    }
}

/// No package is vendored twice, none that was asked for is left out, and the first spec of
/// a name is the one that stays.
pub proof fn law_first_spec_wins(list: Seq<Wanted>, i: int)
    requires
        0 <= i < list.len(),
    ensures
        forall|a: int, b: int|
            0 <= a < b < first_named(list).len() ==> (#[trigger] first_named(list)[a]).dir != (
            #[trigger] first_named(list)[b]).dir,
        names(first_named(list), list[i].dir),
        (forall|k: int| 0 <= k < i ==> (#[trigger] list[k]).dir != list[i].dir)
            ==> first_named(list).contains(list[i]),
{
    lemma_first_named(list);
    if forall|k: int| 0 <= k < i ==> (#[trigger] list[k]).dir != list[i].dir {
        lemma_first_stays(list, i, list.len() as int);
        assert(list.take(list.len() as int) =~= list);
    }
}

proof fn lemma_first_stays(list: Seq<Wanted>, i: int, n: int)
    requires
        0 <= i < n <= list.len(),
        forall|k: int| 0 <= k < i ==> (#[trigger] list[k]).dir != list[i].dir,
    ensures
        first_named(list.take(n)).contains(list[i]),
    decreases n,
{
    let grown = list.take(n);
    let front = list.take(n - 1);
    assert(grown.drop_last() =~= front);
    assert(grown.last() == list[n - 1]);
    let before = first_named(front);
    if i < n - 1 {
        lemma_first_stays(list, i, n - 1);
        let m = choose|m: int| 0 <= m < before.len() && before[m] == list[i];
        assert(first_named(grown)[m] == list[i]);
    } else {
        lemma_first_named(front);
        assert(!names(before, list[i].dir)) by {
            if names(before, list[i].dir) {
                let k = choose|k: int| 0 <= k < before.len() && (#[trigger] before[k]).dir
                    == list[i].dir;
                assert(front.contains(before[k]));
                let m = choose|m: int| 0 <= m < front.len() && front[m] == before[k];
                assert(list[m].dir == list[i].dir);
            }
        }
        assert(first_named(grown)[before.len() as int] == list[i]);
    }
}

// ---------------------------------------------------------------------------
// The import map of what was vendored
// ---------------------------------------------------------------------------

/// A package that was vendored, and what its tree says: its manifest's entries if it has any,
/// and of each entry's target whether it is there.
#[derive(Debug, PartialEq, Eq)]
pub struct Vendored {
    pub spec: PackageSpec,
    pub manifest: Option<Vec<Entry>>,
    pub targets: Vec<Target>,
}

/// What is said of a package's entries is said of each.
pub open spec fn matched(v: Vendored) -> bool {
    v.manifest matches Some(list) ==> v.targets@.len() == list@.len()
}

/// A map with entries added, in order.
pub open spec fn with_entries(
    map: Map<Seq<char>, Seq<char>>,
    list: Seq<(Seq<char>, Seq<char>)>,
) -> Map<Seq<char>, Seq<char>>
    decreases list.len(),
{
    if list.len() == 0 {
        map
    } else {
        with_entries(map, list.drop_last()).insert(list.last().0, list.last().1)
    }
}

/// The exports of a package's manifest.
pub open spec fn vendored_exports(v: Vendored) -> Option<Seq<Export>> {
    match v.manifest {
        Some(list) => Some(crate::npm::exports(list@)),
        None => None,
    }
}

/// The import map that a list of vendored packages composes, at a mount without its trailing
/// slashes: the entries of each, in order, a later one over an earlier one of the same name.
pub open spec fn composed(mount: Seq<char>, list: Seq<Vendored>) -> Map<Seq<char>, Seq<char>>
    decreases list.len(),
{
    if list.len() == 0 {
        Map::empty()
    } else {
        with_entries(
            composed(mount, list.drop_last()),
            spec_entries(
                list.last().spec@,
                trimmed_end(mount, "/"@),
                vendored_exports(list.last()),
                list.last().targets@,
            ),
        )
    }
}

/// The composed import map of every vendored package, with URLs rooted at `mount` (e.g.
/// `"/web_modules"`). Import-map entries follow each spec's strategy.
pub fn vendor(mount: &str, packages: &Vec<Vendored>) -> (r: Importmap)
    requires
        forall|i: int| 0 <= i < packages@.len() ==> matched(#[trigger] packages@[i]),
    ensures
        r@ == composed(mount@, packages@),
{
    let base = text::trim_end(mount, "/");
    let mut map = Importmap::new();
    let mut i: usize = 0;
    while i < packages.len()
        invariant
            i <= packages@.len(),
            base@ == trimmed_end(mount@, "/"@),
            forall|i: int| 0 <= i < packages@.len() ==> matched(#[trigger] packages@[i]),
            map@ == composed(mount@, packages@.take(i as int)),
        decreases packages@.len() - i,
    {
        let one = &packages[i];
        proof {
            let grown = packages@.take(i + 1);
            assert(grown.drop_last() =~= packages@.take(i as int));
            assert(grown.last() == packages@[i as int]);
        }
        assert(matched(packages@[i as int]));
        let manifest = match &one.manifest {
            Some(list) => Some(list),
            None => None,
        };
        let added = entries::import_entries(&one.spec, base.as_str(), manifest, &one.targets);
        assert(opt_exports(manifest) == vendored_exports(*one));
        let ghost all = pairs(added@);
        let ghost before = map@;
        let mut k: usize = 0;
        while k < added.len()
            invariant
                k <= added@.len(),
                all == pairs(added@),
                map@ == with_entries(before, all.take(k as int)),
            decreases added@.len() - k,
        {
            proof {
                let grown = all.take(k + 1);
                assert(grown.drop_last() =~= all.take(k as int));
                assert(grown.last() == all[k as int]);
            }
            let _ = map.insert(added[k].0.as_str(), added[k].1.as_str());
            k += 1;
        }
        assert(all.take(added@.len() as int) =~= all);
        i += 1;
    }
    assert(packages@.take(packages@.len() as int) =~= packages@);
    map
}

/// Every value of a map starts with `root`.
spec fn rooted_at(map: Map<Seq<char>, Seq<char>>, root: Seq<char>) -> bool {
    forall|key: Seq<char>| #[trigger] map.contains_key(key) ==> root.is_prefix_of(map[key])
}

proof fn lemma_with_entries_rooted(
    map: Map<Seq<char>, Seq<char>>,
    list: Seq<(Seq<char>, Seq<char>)>,
    root: Seq<char>,
)
    requires
        rooted_at(map, root),
        forall|i: int| 0 <= i < list.len() ==> root.is_prefix_of((#[trigger] list[i]).1),
    ensures
        rooted_at(with_entries(map, list), root),
    decreases list.len(),
{
    if list.len() > 0 {
        let front = list.drop_last();
        assert forall|i: int| 0 <= i < front.len() implies root.is_prefix_of(
            (#[trigger] front[i]).1,
        ) by {
            assert(front[i] == list[i]);
        }
        lemma_with_entries_rooted(map, front, root);
        assert(root.is_prefix_of(list[list.len() - 1].1));
    }
}

/// Every URL of the composed import map lies below the mount.
pub proof fn law_urls_lie_below_the_mount(mount: Seq<char>, list: Seq<Vendored>, key: Seq<char>)
    requires
        composed(mount, list).contains_key(key),
    ensures
        (trimmed_end(mount, "/"@) + "/"@).is_prefix_of(composed(mount, list)[key]),
{
    lemma_composed_rooted(mount, list);
}

proof fn lemma_composed_rooted(mount: Seq<char>, list: Seq<Vendored>)
    ensures
        rooted_at(composed(mount, list), trimmed_end(mount, "/"@) + "/"@),
    decreases list.len(),
{
    if list.len() > 0 {
        lemma_composed_rooted(mount, list.drop_last());
        let base = trimmed_end(mount, "/"@);
        let last = list.last();
        entries::lemma_entries_rooted(last.spec@, base, vendored_exports(last), last.targets@);
        lemma_with_entries_rooted(
            composed(mount, list.drop_last()),
            entries::spec_entries(last.spec@, base, vendored_exports(last), last.targets@),
            base + "/"@,
        );
    }
}

proof fn lemma_first_named_is_among(list: Seq<Wanted>, w: Wanted)
    requires
        first_named(list).contains(w),
    ensures
        list.contains(w),
    decreases list.len(),
{
    if list.len() > 0 {
        let front = list.drop_last();
        let all = first_named(list);
        let k = choose|k: int| 0 <= k < all.len() && all[k] == w;
        if k < first_named(front).len() {
            assert(first_named(front)[k] == w);
            lemma_first_named_is_among(front, w);
            let i = choose|i: int| 0 <= i < front.len() && front[i] == w;
            assert(list[i] == w);
        } else {
            assert(list[list.len() - 1] == w);
        }
    }
}

proof fn lemma_given_come_first(given: Seq<Wanted>, manifests: Seq<Manifest>)
    ensures
        gathered(given, manifests) matches Ok(list) ==> given.is_prefix_of(list),
    decreases manifests.len(),
{
    if manifests.len() == 0 {
        assert(given.subrange(0, given.len() as int) =~= given);
    } else {
        lemma_given_come_first(given, manifests.drop_last());
        if let Ok(front) = gathered(given, manifests.drop_last()) {
            if let Ok(more) = asked_by(manifests.last()) {
                assert((front + more).subrange(0, given.len() as int) =~= front.subrange(
                    0,
                    given.len() as int,
                ));
            }
        }
    }
}

/// A manifest's specs come behind all that was gathered before, in order; the first manifest that
/// fails ends it, whatever comes after.
pub proof fn law_manifests_in_order(
    given: Seq<Wanted>,
    manifests: Seq<Manifest>,
    next: Manifest,
    before: Seq<Wanted>,
    more: Seq<Wanted>,
)
    ensures
        gathered(given, Seq::empty()) == Ok::<Seq<Wanted>, Failure>(given),
        gathered(given, manifests) == Ok::<Seq<Wanted>, Failure>(before) && asked_by(next) == Ok::<
            Seq<Wanted>,
            Failure,
        >(more) ==> gathered(given, manifests.push(next)) == Ok::<Seq<Wanted>, Failure>(
            before + more,
        ),
        gathered(given, manifests) is Ok && asked_by(next) is Err ==> gathered(
            given,
            manifests.push(next),
        ) is Err,
        gathered(given, manifests) is Err ==> gathered(given, manifests.push(next)) == gathered(
            given,
            manifests,
        ),
{
    assert(manifests.push(next).drop_last() =~= manifests);
}

/// A spec on the command line, the first of its name, is vendored as it is written there, whatever
/// the manifests say; what is vendored was asked for; and nothing at all is an error exactly where
/// something is required.
pub proof fn law_command_line_wins(
    packages: Seq<Seq<char>>,
    manifests: Seq<Manifest>,
    required: bool,
    i: int,
)
    ensures
        0 <= i < packages.len() && (forall|k: int|
            0 <= k < i ==> positional(#[trigger] packages[k]).dir != positional(packages[i]).dir)
            ==> (selected(packages, manifests, required) matches Ok(list) ==> list.contains(
            positional(packages[i]),
        )),
        selected(packages, manifests, required) matches Ok(list) ==> forall|w: Wanted| #[trigger]
            list.contains(w) ==> gathered(
                Seq::new(packages.len(), |k: int| positional(packages[k])),
                manifests,
            )->Ok_0.contains(w),
        packages.len() == 0 && manifests.len() == 0 ==> (selected(packages, manifests, required)
            is Err <==> required),
        packages.len() > 0 ==> selected(packages, manifests, true) == selected(
            packages,
            manifests,
            false,
        ),
{
    let given = Seq::new(packages.len(), |k: int| positional(packages[k]));
    lemma_given_come_first(given, manifests);
    if let Ok(list) = gathered(given, manifests) {
        assert(given.is_prefix_of(list));
        assert forall|k: int| 0 <= k < given.len() implies list[k] == given[k] by {
            assert(list.subrange(0, given.len() as int)[k] == list[k]);
        }
        if 0 <= i < packages.len() && (forall|k: int|
            0 <= k < i ==> positional(#[trigger] packages[k]).dir != positional(packages[i]).dir) {
            law_first_spec_wins(list, i);
            assert forall|k: int| 0 <= k < i implies (#[trigger] list[k]).dir != list[i].dir by {
                assert(positional(packages[k]).dir != positional(packages[i]).dir);
            }
        }
        assert forall|w: Wanted| #[trigger] first_named(list).contains(w) implies list.contains(
            w,
        ) by {
            lemma_first_named_is_among(list, w);
        }
    }
}

/// Entries are added in order, a later one over an earlier one of the same name, and what was there
/// before stays unless an entry takes its name.
pub proof fn law_entries_are_added(
    map: Map<Seq<char>, Seq<char>>,
    list: Seq<(Seq<char>, Seq<char>)>,
    i: int,
    key: Seq<char>,
)
    ensures
        0 <= i < list.len() && (forall|j: int|
            i < j < list.len() ==> (#[trigger] list[j]).0 != list[i].0) ==> with_entries(
            map,
            list,
        ).contains_key(list[i].0) && with_entries(map, list)[list[i].0] == list[i].1,
        (forall|j: int| 0 <= j < list.len() ==> (#[trigger] list[j]).0 != key) ==> (with_entries(
            map,
            list,
        ).contains_key(key) == map.contains_key(key) && (map.contains_key(key) ==> with_entries(
            map,
            list,
        )[key] == map[key])),
    decreases list.len(),
{
    if list.len() > 0 {
        let front = list.drop_last();
        law_entries_are_added(map, front, i, key);
        if 0 <= i < front.len() && (forall|j: int|
            i < j < list.len() ==> (#[trigger] list[j]).0 != list[i].0) {
            assert(front[i] == list[i]);
            assert forall|j: int| i < j < front.len() implies (#[trigger] front[j]).0
                != front[i].0 by {
                assert(front[j] == list[j]);
            }
            assert(list[list.len() - 1].0 != list[i].0);
        }
        if forall|j: int| 0 <= j < list.len() ==> (#[trigger] list[j]).0 != key {
            assert forall|j: int| 0 <= j < front.len() implies (#[trigger] front[j]).0 != key by {
                assert(front[j] == list[j]);
            }
            assert(list[list.len() - 1].0 != key);
        }
    }
}

/// A package's entries, at the mount without its trailing slashes, come over those of the packages
/// before it; without packages the map is empty.
pub proof fn law_packages_in_order(mount: Seq<char>, list: Seq<Vendored>, next: Vendored)
    ensures
        composed(mount, Seq::empty()) == Map::<Seq<char>, Seq<char>>::empty(),
        composed(mount, list.push(next)) == with_entries(
            composed(mount, list),
            spec_entries(
                next.spec@,
                trimmed_end(mount, "/"@),
                vendored_exports(next),
                next.targets@,
            ),
        ),
{
    assert(list.push(next).drop_last() =~= list);
}

} // verus!
