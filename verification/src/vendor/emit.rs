//! Where the output of a compiled package goes, and what is removed once it is there.

use vstd::prelude::*;

use crate::error::{Error, Failure};
use crate::npm::{exports, Entry, Export};
use crate::path;
use crate::path::parts;
use crate::text;
use crate::text::{joined, opt_text, pairs, texts};
use crate::tsconfig;
use crate::tsconfig::{input_dirs, plain, shared_segments, LayoutSpec, SourceLayout};
use crate::vendor::keep;
use crate::vendor::keep::{emitted_extension, typescript_source};
use crate::vendor::program::with_ext;

verus! {

/// The directory that output paths are made relative to: as the layout states it, else
/// the one that the compiled files share.
pub open spec fn root_of(layout: LayoutSpec, inputs: Seq<Seq<char>>) -> Seq<char> {
    match layout.root {
        Some(root) => root,
        None => joined(shared_segments(input_dirs(inputs)), "/"@),
    }
}

/// The directory that output paths are made relative to, given the compiled files.
pub fn source_root(layout: &SourceLayout, inputs: &Vec<String>) -> (r: String)
    ensures
        r@ == root_of(layout@, texts(inputs@)),
{
    match &layout.root {
        Some(root) => root.clone(),
        None => tsconfig::common_input_dir(inputs),
    }
}

/// What the extracted package says of its layout.
#[derive(Clone, Copy, Debug, PartialEq, Eq, Structural)]
pub struct Ground {
    /// The root is a directory of the package.
    pub root_is_dir: bool,
    /// The root is there and resolves outside the package.
    pub root_escapes: bool,
    /// The output directory is there and resolves outside the package.
    pub out_escapes: bool,
}

/// The first compiled file, at or after place `i`, that is not under the root.
pub open spec fn first_stray(inputs: Seq<Seq<char>>, root: Seq<char>, i: int) -> Option<int>
    decreases inputs.len() - i,
{
    if i < 0 || i >= inputs.len() {
        None
    } else if !parts(root).is_prefix_of(parts(inputs[i])) {
        Some(i)
    } else {
        first_stray(inputs, root, i + 1)
    }
}

/// Why the compiled files have nowhere to go, if they have not: there are none; the root
/// is no directory; the root or the output resolves outside the package; or, under a
/// stated root, a file is not under it.
pub open spec fn layout_problem(
    package: Seq<char>,
    layout: LayoutSpec,
    inputs: Seq<Seq<char>>,
    ground: Ground,
) -> Option<Seq<char>> {
    let root = root_of(layout, inputs);
    if inputs.len() == 0 {
        Some(package + ": declared as a source dependency but carries no TypeScript"@)
    } else if !ground.root_is_dir {
        Some(
            package + ": no `"@ + root
                + "` directory to compile — the archive carried no sources"@,
        )
    } else if ground.root_escapes {
        Some(package + ": `"@ + root + "` resolves outside the package"@)
    } else if ground.out_escapes {
        Some(package + ": `"@ + layout.out + "` resolves outside the package"@)
    } else if layout.root is Some {
        match first_stray(inputs, root, 0) {
            Some(i) => Some(
                package + ": `"@ + inputs[i] + "` is in the program but not under `rootDir` `"@
                    + root + "`, so it has nowhere to be emitted"@,
            ),
            None => None,
        }
    } else {
        None
    }
}

/// Check that the compiled files have somewhere to go.
pub fn check_layout(
    package: &str,
    layout: &SourceLayout,
    inputs: &Vec<String>,
    ground: Ground,
) -> (r: Result<(), Error>)
    ensures
        match layout_problem(package@, layout@, texts(inputs@), ground) {
            Some(why) => r matches Err(e) && e@ == Failure::Vendor(why),
            None => r is Ok,
        },
{
    let root = source_root(layout, inputs);
    if inputs.len() == 0 {
        return Err(
            Error::Vendor(
                package.to_owned().concat(
                    ": declared as a source dependency but carries no TypeScript",
                ),
            ),
        );
    }
    if !ground.root_is_dir {
        return Err(
            Error::Vendor(
                package.to_owned().concat(": no `").concat(root.as_str()).concat(
                    "` directory to compile — the archive carried no sources",
                ),
            ),
        );
    }
    if ground.root_escapes {
        return Err(
            Error::Vendor(
                package.to_owned().concat(": `").concat(root.as_str()).concat(
                    "` resolves outside the package",
                ),
            ),
        );
    }
    if ground.out_escapes {
        return Err(
            Error::Vendor(
                package.to_owned().concat(": `").concat(layout.out.as_str()).concat(
                    "` resolves outside the package",
                ),
            ),
        );
    }
    if layout.root.is_some() {
        let mut i: usize = 0;
        while i < inputs.len()
            invariant
                i <= inputs@.len(),
                inputs@.len() > 0,
                root@ == root_of(layout@, texts(inputs@)),
                layout@.root is Some,
                ground.root_is_dir,
                !ground.root_escapes,
                !ground.out_escapes,
                first_stray(texts(inputs@), root@, 0) == first_stray(
                    texts(inputs@),
                    root@,
                    i as int,
                ),
            decreases inputs@.len() - i,
        {
            assert(texts(inputs@)[i as int] == inputs@[i as int]@);
            if !path::starts_with(inputs[i].as_str(), root.as_str()) {
                return Err(
                    Error::Vendor(
                        package.to_owned().concat(": `").concat(inputs[i].as_str()).concat(
                            "` is in the program but not under `rootDir` `",
                        ).concat(root.as_str()).concat("`, so it has nowhere to be emitted"),
                    ),
                );
            }
            i += 1;
        }
    }
    Ok(())
}

/// The place of a file in the output: its path below the root, read from the output
/// directory. A file outside the root has none.
pub open spec fn moved(root: Seq<char>, out: Seq<char>, rel: Seq<char>) -> Option<Seq<char>> {
    match path::rest_of(rel, root) {
        Some(rest) => Some(path::under(out, rest)),
        None => None,
    }
}

/// The place of a compiled file's output: moved, under the extension it is emitted with.
pub open spec fn emitted(root: Seq<char>, out: Seq<char>, rel: Seq<char>) -> Option<Seq<char>> {
    match moved(root, out, rel) {
        Some(p) => Some(
            with_ext(
                p,
                match emitted_extension(rel) {
                    Some(ext) => ext,
                    None => "js"@,
                },
            ),
        ),
        None => None,
    }
}

/// The place of a compiled file's output, relative to the package.
pub fn emitted_path(root: &str, out: &str, rel: &str) -> (r: Option<String>)
    ensures
        opt_text(r) == emitted(root@, out@, rel@),
{
    match path::strip_base(rel, root) {
        Some(below) => {
            let p = path::join(out, below.as_str());
            let ext = match keep::compiled_extension(rel) {
                Some(ext) => ext,
                None => "js",
            };
            Some(path::with_extension(p.as_str(), ext))
        },
        None => None,
    }
}

/// Where an asset that a compiled module still reaches is copied to, when it does not keep
/// its place.
pub open spec fn copied(root: Seq<char>, out: Seq<char>, rel: Seq<char>) -> Option<Seq<char>> {
    match moved(root, out, rel) {
        Some(p) => if parts(p) == parts(rel) {
            None
        } else {
            Some(p)
        },
        None => None,
    }
}

/// Where an asset that a compiled module still reaches is copied to, relative to the
/// package; `None` when it keeps its place. An asset outside the root keeps its place:
/// the layout says nothing about it, and an emitted module reaching it still resolves.
pub fn asset_path(root: &str, out: &str, rel: &str) -> (r: Option<String>)
    ensures
        opt_text(r) == copied(root@, out@, rel@),
{
    match path::strip_base(rel, root) {
        Some(below) => {
            let p = path::join(out, below.as_str());
            if path::same_path(p.as_str(), rel) {
                None
            } else {
                Some(p)
            }
        },
        None => None,
    }
}

/// What a compiled package comes to: the files to write, with their text, and the assets to
/// copy, from where to where. Paths are relative to the package.
#[derive(Debug, PartialEq, Eq)]
pub struct Emissions {
    pub writes: Vec<(String, String)>,
    pub copies: Vec<(String, String)>,
}

/// The files to write: the place of each compiled file's output, with its text, in order.
pub open spec fn writes_of(
    root: Seq<char>,
    out: Seq<char>,
    outputs: Seq<(Seq<char>, Seq<char>)>,
) -> Seq<(Seq<char>, Seq<char>)>
    decreases outputs.len(),
{
    if outputs.len() == 0 {
        Seq::empty()
    } else {
        let front = writes_of(root, out, outputs.drop_last());
        match emitted(root, out, outputs.last().0) {
            Some(dest) => front.push((dest, outputs.last().1)),
            None => front,
        }
    }
}

/// The assets to copy, in order.
pub open spec fn copies_of(
    root: Seq<char>,
    out: Seq<char>,
    assets: Seq<Seq<char>>,
) -> Seq<(Seq<char>, Seq<char>)>
    decreases assets.len(),
{
    if assets.len() == 0 {
        Seq::empty()
    } else {
        let front = copies_of(root, out, assets.drop_last());
        match copied(root, out, assets.last()) {
            Some(dest) => front.push((assets.last(), dest)),
            None => front,
        }
    }
}

/// The names of a list of assets.
pub open spec fn asset_names(assets: Seq<(String, ())>) -> Seq<Seq<char>> {
    Seq::new(assets.len(), |i: int| assets[i].0@)
}

/// What a compiled package comes to, given its compiled files with their output, and the
/// assets that they still reach.
pub fn emissions(
    root: &str,
    out: &str,
    outputs: &Vec<(String, String)>,
    assets: &Vec<(String, ())>,
) -> (r: Emissions)
    ensures
        pairs(r.writes@) == writes_of(root@, out@, pairs(outputs@)),
        pairs(r.copies@) == copies_of(root@, out@, asset_names(assets@)),
{
    let ghost all = pairs(outputs@);
    let mut writes: Vec<(String, String)> = Vec::new();
    let mut i: usize = 0;
    assert(pairs(writes@) =~= writes_of(root@, out@, all.take(0)));
    while i < outputs.len()
        invariant
            i <= outputs@.len(),
            all == pairs(outputs@),
            pairs(writes@) == writes_of(root@, out@, all.take(i as int)),
        decreases outputs@.len() - i,
    {
        proof {
            let grown = all.take(i + 1);
            assert(grown.drop_last() =~= all.take(i as int));
            assert(grown.last() == text::pair_text(outputs@[i as int]));
        }
        if let Some(dest) = emitted_path(root, out, outputs[i].0.as_str()) {
            let one = (dest, outputs[i].1.clone());
            proof {
                text::lemma_pairs_push(writes@, one);
            }
            writes.push(one);
        }
        i += 1;
    }
    assert(all.take(outputs@.len() as int) =~= all);
    let ghost names = asset_names(assets@);
    let mut copies: Vec<(String, String)> = Vec::new();
    let mut k: usize = 0;
    assert(pairs(copies@) =~= copies_of(root@, out@, names.take(0)));
    while k < assets.len()
        invariant
            k <= assets@.len(),
            names == asset_names(assets@),
            pairs(copies@) == copies_of(root@, out@, names.take(k as int)),
        decreases assets@.len() - k,
    {
        proof {
            let grown = names.take(k + 1);
            assert(grown.drop_last() =~= names.take(k as int));
            assert(grown.last() == assets@[k as int].0@);
        }
        if let Some(dest) = asset_path(root, out, assets[k].0.as_str()) {
            let one = (assets[k].0.clone(), dest);
            proof {
                text::lemma_pairs_push(copies@, one);
            }
            copies.push(one);
        }
        k += 1;
    }
    assert(names.take(assets@.len() as int) =~= names);
    Emissions { writes, copies }
}

proof fn lemma_no_stray(inputs: Seq<Seq<char>>, root: Seq<char>, i: int, k: int)
    requires
        first_stray(inputs, root, i) is None,
        0 <= i <= k < inputs.len(),
    ensures
        parts(root).is_prefix_of(parts(inputs[k])),
    decreases inputs.len() - i,
{
    if i < k {
        lemma_no_stray(inputs, root, i + 1, k);
    }
}

/// A program whose layout has passed the check loses nothing: every compiled file has a place
/// in the output, whether the root is stated or read off the files.
pub proof fn law_every_compiled_file_is_emitted(
    package: Seq<char>,
    layout: LayoutSpec,
    inputs: Seq<Seq<char>>,
    ground: Ground,
    i: int,
)
    requires
        layout_problem(package, layout, inputs, ground) is None,
        0 <= i < inputs.len(),
        forall|k: int|
            0 <= k < inputs.len() ==> plain(#[trigger] inputs[k]) && parts(inputs[k]).len() > 0,
    ensures
        emitted(root_of(layout, inputs), layout.out, inputs[i]) is Some,
{
    if layout.root is Some {
        lemma_no_stray(inputs, root_of(layout, inputs), 0, i);
    } else {
        tsconfig::law_shared_dir_holds_its_inputs(inputs, i);
    }
}

/// The root can be removed with everything in it: it is a directory inside the package,
/// not the package itself, and holds neither the output directory nor any output.
pub open spec fn root_removable(
    root: Seq<char>,
    out: Seq<char>,
    root_inside: bool,
    written: Seq<Seq<char>>,
) -> bool {
    &&& root.len() > 0
    &&& root != out
    &&& parts(root).len() > 0
    &&& root_inside
    &&& !parts(root).is_prefix_of(parts(out))
    &&& forall|i: int|
        0 <= i < written.len() ==> !parts(root).is_prefix_of(parts(#[trigger] written[i]))
}

/// Whether the root, whose TypeScript was an intermediate, can be removed whole. Removed
/// only when it is a strict descendant of the package that does not hold the output:
/// deleting it would otherwise take the files just written with it.
pub fn is_root_removable(root: &str, out: &str, root_inside: bool, written: &Vec<String>) -> (r:
    bool)
    ensures
        r == root_removable(root@, out@, root_inside, texts(written@)),
{
    let list = path::components(root);
    assert(parts(root@).len() == list@.len());
    if root.is_empty() || text::same(root, out) || list.len() == 0 || !root_inside
        || path::starts_with(out, root) {
        return false;
    }
    let mut i: usize = 0;
    while i < written.len()
        invariant
            i <= written@.len(),
            forall|j: int|
                0 <= j < i ==> !parts(root@).is_prefix_of(parts(#[trigger] texts(written@)[j])),
        decreases written@.len() - i,
    {
        assert(texts(written@)[i as int] == written@[i as int]@);
        if path::starts_with(written[i].as_str(), root) {
            return false;
        }
        i += 1;
    }
    true
}

/// Removing a root that can be removed takes no output with it.
pub proof fn law_removal_spares_output(
    root: Seq<char>,
    out: Seq<char>,
    root_inside: bool,
    written: Seq<Seq<char>>,
    i: int,
)
    requires
        root_removable(root, out, root_inside, written),
        0 <= i < written.len(),
    ensures
        path::below(written[i], root) is None,
{
}

/// The TypeScript among a list of files, in order.
pub open spec fn typescript_in(files: Seq<Seq<char>>) -> Seq<Seq<char>>
    decreases files.len(),
{
    if files.len() == 0 {
        Seq::empty()
    } else {
        let front = typescript_in(files.drop_last());
        if typescript_source(files.last()) {
            front.push(files.last())
        } else {
            front
        }
    }
}

/// What still has to be removed of a compiled package: whatever the layout, nothing
/// uncompiled may ship.
pub fn leftovers(files: &Vec<String>) -> (r: Vec<String>)
    ensures
        texts(r@) == typescript_in(texts(files@)),
{
    let ghost all = texts(files@);
    let mut out: Vec<String> = Vec::new();
    let mut i: usize = 0;
    assert(texts(out@) =~= typescript_in(all.take(0)));
    while i < files.len()
        invariant
            i <= files@.len(),
            all == texts(files@),
            texts(out@) == typescript_in(all.take(i as int)),
        decreases files@.len() - i,
    {
        proof {
            let grown = all.take(i + 1);
            assert(grown.drop_last() =~= all.take(i as int));
            assert(grown.last() == files@[i as int]@);
        }
        if keep::is_typescript_source(files[i].as_str()) {
            let copy = files[i].clone();
            proof {
                text::lemma_texts_push(out@, copy);
            }
            out.push(copy);
        }
        i += 1;
    }
    assert(all.take(files@.len() as int) =~= all);
    out
}

/// Every TypeScript file of a package is among what still has to be removed.
pub proof fn law_leftovers_are_complete(files: Seq<Seq<char>>, i: int)
    requires
        0 <= i < files.len(),
        typescript_source(files[i]),
    ensures
        typescript_in(files).contains(files[i]),
    decreases files.len(),
{
    let front = typescript_in(files.drop_last());
    if i < files.len() - 1 {
        assert(files.drop_last()[i] == files[i]);
        law_leftovers_are_complete(files.drop_last(), i);
        let k = choose|k: int| 0 <= k < front.len() && front[k] == files[i];
        assert(typescript_in(files)[k] == files[i]);
    } else {
        assert(typescript_in(files)[front.len() as int] == files[i]);
    }
}

/// The first bare entry, at or after place `i`, whose target is not there.
pub open spec fn first_missing(list: Seq<Export>, present: Seq<bool>, i: int) -> Option<int>
    decreases list.len() - i,
{
    if i < 0 || i >= list.len() {
        None
    } else if list[i] is Bare && !present[i] {
        Some(i)
    } else {
        first_missing(list, present, i + 1)
    }
}

/// What is said of a manifest that points at a file that was not emitted.
pub open spec fn manifest_message(package: Seq<char>, out: Seq<char>, target: Seq<char>) -> Seq<
    char,
> {
    package + ": compiled into `"@ + (if out.len() == 0 {
        "the package root"@
    } else {
        out
    }) + "`, but its manifest points at `"@ + target
        + "`, which is not there — the layout its tsconfig.json describes is not the one it was published with, so `rootDir` needs stating"@
}

/// Check that the package's own manifest still points at its output, given which of its
/// entries' targets are files of the compiled package.
pub fn check_manifest(package: &str, out: &str, entries: &Vec<Entry>, present: &Vec<bool>) -> (r:
    Result<(), Error>)
    requires
        entries@.len() == present@.len(),
    ensures
        match first_missing(exports(entries@), present@, 0) {
            Some(i) => r matches Err(e) && e@ == Failure::Vendor(
                manifest_message(package@, out@, exports(entries@)[i]->Bare_0),
            ),
            None => r is Ok,
        },
{
    let mut i: usize = 0;
    while i < entries.len()
        invariant
            i <= entries@.len(),
            entries@.len() == present@.len(),
            first_missing(exports(entries@), present@, 0) == first_missing(
                exports(entries@),
                present@,
                i as int,
            ),
        decreases entries@.len() - i,
    {
        assert(exports(entries@)[i as int] == entries@[i as int]@);
        if let Entry::Bare(target) = &entries[i] {
            if !present[i] {
                let place = if out.is_empty() {
                    "the package root".to_owned()
                } else {
                    out.to_owned()
                };
                return Err(
                    Error::Vendor(
                        package.to_owned().concat(": compiled into `").concat(
                            place.as_str(),
                        ).concat("`, but its manifest points at `").concat(
                            target.as_str(),
                        ).concat(
                            "`, which is not there — the layout its tsconfig.json describes is not the one it was published with, so `rootDir` needs stating",
                        ),
                    ),
                );
            }
        }
        i += 1;
    }
    Ok(())
}

/// A stated root is the root; without one it is the directory that the inputs share.
pub proof fn law_stated_root_wins(layout: LayoutSpec, inputs: Seq<Seq<char>>, root: Seq<char>)
    ensures
        layout.root == Some(root) ==> root_of(layout, inputs) == root,
        layout.root is None ==> root_of(layout, inputs) == joined(
            shared_segments(input_dirs(inputs)),
            "/"@,
        ),
{
}

/// The layout is in order when there is something to compile, the root is a directory that stays in
/// the package, the output stays in it too, and under a stated root every file is below it.
pub proof fn law_layouts_in_order(
    package: Seq<char>,
    layout: LayoutSpec,
    inputs: Seq<Seq<char>>,
    ground: Ground,
)
    ensures
        layout_problem(package, layout, inputs, ground) is None <==> inputs.len() > 0
            && ground.root_is_dir && !ground.root_escapes && !ground.out_escapes && (
        layout.root matches Some(root) ==> forall|i: int|
            0 <= i < inputs.len() ==> path::rest_of(#[trigger] inputs[i], root) is Some),
        layout_problem(package, layout, inputs, ground) matches Some(why) ==> package.is_prefix_of(
            why,
        ),
{
    let root = root_of(layout, inputs);
    lemma_stray_is_first(inputs, root, 0);
    if let Some(why) = layout_problem(package, layout, inputs, ground) {
        assert(why.subrange(0, package.len() as int) =~= package);
    }
}

proof fn lemma_stray_is_first(inputs: Seq<Seq<char>>, root: Seq<char>, i: int)
    requires
        0 <= i,
    ensures
        match first_stray(inputs, root, i) {
            Some(k) => i <= k < inputs.len() && path::rest_of(inputs[k], root) is None,
            None => forall|j: int|
                i <= j < inputs.len() ==> path::rest_of(#[trigger] inputs[j], root) is Some,
        },
    decreases inputs.len() - i,
{
    if i < inputs.len() && parts(root).is_prefix_of(parts(inputs[i])) {
        lemma_stray_is_first(inputs, root, i + 1);
    }
}

/// A file below the root goes to the same place below the output, and into the package itself where
/// that is the output; a file outside the root goes nowhere.
pub proof fn law_place_in_the_output(root: Seq<char>, out: Seq<char>, rel: Seq<char>)
    requires
        path::ends_in_name(root),
        path::ends_in_name(out),
        path::ends_in_name(rel),
        path::proper_name(text::pieces(rel, '/')[0]),
    ensures
        moved(root, out, root + "/"@ + rel) == Some(out + "/"@ + rel),
        moved(root, Seq::empty(), root + "/"@ + rel) == Some(rel),
        path::rest_of(rel, root) is None ==> moved(root, out, rel) is None && emitted(
            root,
            out,
            rel,
        ) is None && copied(root, out, rel) is None,
{
    path::law_below_directory(root, rel);
    path::law_below_directory(out, rel);
    assert(Seq::<char>::empty() + rel =~= rel);
    lemma_rooted_piece(rel);
}

proof fn lemma_rooted_piece(rel: Seq<char>)
    requires
        path::proper_name(text::pieces(rel, '/')[0]),
    ensures
        !path::rooted(rel),
{
    if path::rooted(rel) {
        let rest = rel.drop_first();
        assert(Seq::<char>::empty().push('/') + rest =~= rel);
        text::lemma_pieces_concat(Seq::empty(), rest, '/');
        text::lemma_pieces_single(Seq::empty(), '/');
        assert(text::pieces(rel, '/')[0] =~= Seq::<char>::empty());
    }
}

/// A TypeScript file of the root goes into the output as JavaScript under its own stem: `.ts` and
/// `.tsx` as `.js`, `.mts` as `.mjs`.
pub proof fn law_emitted_file(root: Seq<char>, out: Seq<char>, stem: Seq<char>, ext: Seq<char>)
    requires
        path::ends_in_name(root),
        path::ends_in_name(out),
        stem.len() > 0,
        !".d"@.is_suffix_of(stem),
        !stem.contains('/'),
        ext == "ts"@ || ext == "tsx"@ || ext == "mts"@,
    ensures
        ext == "ts"@ || ext == "tsx"@ ==> emitted(root, out, root + "/"@ + (stem + "."@ + ext))
            == Some(out + "/"@ + (stem + "."@ + "js"@)),
        ext == "mts"@ ==> emitted(root, out, root + "/"@ + (stem + "."@ + ext)) == Some(
            out + "/"@ + (stem + "."@ + "mjs"@),
        ),
{
    reveal_strlit("ts");
    reveal_strlit("tsx");
    reveal_strlit("mts");
    reveal_strlit("js");
    reveal_strlit("mjs");
    reveal_strlit(".");
    reveal_strlit("..");
    let name = stem + "."@ + ext;
    assert(name.len() >= 4);
    assert("ts"@[0] == 't' && "ts"@[1] == 's');
    assert(!ext.contains('.') && !ext.contains('/'));
    assert(!name.contains('/')) by {
        if name.contains('/') {
            let k = choose|k: int| 0 <= k < name.len() && name[k] == '/';
            if k < stem.len() {
                assert(stem[k] == '/');
            } else if k > stem.len() {
                assert(ext[k - stem.len() - 1] == '/');
            }
        }
    }
    assert(path::proper_name(name));
    path::law_file_in_directory(root, name, "js"@, name);
    path::law_file_in_directory(out, name, "js"@, name);
    path::law_file_in_directory(out, name, "mjs"@, name);
    path::law_extension(stem, ext, "js"@);
    path::law_extension(stem, ext, "mjs"@);
    keep::law_emitted_extensions(root + "/"@ + name, stem, ext);
    text::lemma_pieces_single(name, '/');
    path::law_lone_name(name, ext);
    lemma_ends_in_itself(name);
    law_place_in_the_output(root, out, name);
    assert("mts"@.len() == 3 && "mts"@[0] == 'm');
}

proof fn lemma_ends_in_itself(name: Seq<char>)
    requires
        path::proper_name(name),
    ensures
        path::ends_in_name(name),
{
    text::lemma_pieces_single(name, '/');
}

/// An asset stays where it is when sources and output are rooted in one place.
pub proof fn law_assets_in_place(root: Seq<char>, rel: Seq<char>)
    requires
        path::ends_in_name(root),
        path::ends_in_name(rel),
        path::proper_name(text::pieces(rel, '/')[0]),
    ensures
        copied(root, root, root + "/"@ + rel) is None,
{
    law_place_in_the_output(root, root, rel);
}

/// Every compiled file that has a place is written there with its own text, nothing else is written,
/// and a file that has none is not.
pub proof fn law_outputs_are_written(
    root: Seq<char>,
    out: Seq<char>,
    outputs: Seq<(Seq<char>, Seq<char>)>,
)
    ensures
        forall|i: int|
            0 <= i < outputs.len() && emitted(root, out, (#[trigger] outputs[i]).0) is Some
                ==> writes_of(root, out, outputs).contains(
                (emitted(root, out, outputs[i].0)->Some_0, outputs[i].1),
            ),
        forall|w: (Seq<char>, Seq<char>)| #[trigger]
            writes_of(root, out, outputs).contains(w) ==> exists|i: int|
                0 <= i < outputs.len() && emitted(root, out, (#[trigger] outputs[i]).0) == Some(w.0)
                    && outputs[i].1 == w.1,
    decreases outputs.len(),
{
    if outputs.len() > 0 {
        let front = outputs.drop_last();
        law_outputs_are_written(root, out, front);
        let before = writes_of(root, out, front);
        let all = writes_of(root, out, outputs);
        assert forall|i: int|
            0 <= i < outputs.len() && emitted(root, out, (#[trigger] outputs[i]).0) is Some implies all.contains(
        (emitted(root, out, outputs[i].0)->Some_0, outputs[i].1)) by {
            let w = (emitted(root, out, outputs[i].0)->Some_0, outputs[i].1);
            if i < front.len() {
                assert(front[i] == outputs[i]);
                let k = choose|k: int| 0 <= k < before.len() && before[k] == w;
                assert(all[k] == w);
            } else {
                assert(all[before.len() as int] == w);
            }
        }
        assert forall|w: (Seq<char>, Seq<char>)| #[trigger] all.contains(w) implies exists|i: int|
            0 <= i < outputs.len() && emitted(root, out, (#[trigger] outputs[i]).0) == Some(w.0)
                && outputs[i].1 == w.1 by {
            let k = choose|k: int| 0 <= k < all.len() && all[k] == w;
            if k < before.len() {
                assert(before[k] == w);
                assert(before.contains(w));
                let i = choose|i: int|
                    0 <= i < front.len() && emitted(root, out, (#[trigger] front[i]).0) == Some(w.0)
                        && front[i].1 == w.1;
                assert(outputs[i] == front[i]);
            } else {
                assert(outputs[outputs.len() - 1].1 == w.1);
            }
        }
    }
}

/// Every asset that does not keep its place is copied to it from where it is, and no other.
pub proof fn law_assets_are_copied(root: Seq<char>, out: Seq<char>, assets: Seq<Seq<char>>)
    ensures
        forall|i: int|
            0 <= i < assets.len() && copied(root, out, #[trigger] assets[i]) is Some ==> copies_of(
                root,
                out,
                assets,
            ).contains((assets[i], copied(root, out, assets[i])->Some_0)),
        forall|c: (Seq<char>, Seq<char>)| #[trigger]
            copies_of(root, out, assets).contains(c) ==> assets.contains(c.0) && copied(
                root,
                out,
                c.0,
            ) == Some(c.1),
    decreases assets.len(),
{
    if assets.len() > 0 {
        let front = assets.drop_last();
        law_assets_are_copied(root, out, front);
        let before = copies_of(root, out, front);
        let all = copies_of(root, out, assets);
        assert forall|i: int|
            0 <= i < assets.len() && copied(root, out, #[trigger] assets[i]) is Some implies all.contains(
        (assets[i], copied(root, out, assets[i])->Some_0)) by {
            let c = (assets[i], copied(root, out, assets[i])->Some_0);
            if i < front.len() {
                assert(front[i] == assets[i]);
                let k = choose|k: int| 0 <= k < before.len() && before[k] == c;
                assert(all[k] == c);
            } else {
                assert(all[before.len() as int] == c);
            }
        }
        assert forall|c: (Seq<char>, Seq<char>)| #[trigger] all.contains(c) implies assets.contains(
            c.0,
        ) && copied(root, out, c.0) == Some(c.1) by {
            let k = choose|k: int| 0 <= k < all.len() && all[k] == c;
            if k < before.len() {
                assert(before[k] == c);
                assert(before.contains(c));
                let i = choose|i: int| 0 <= i < front.len() && front[i] == c.0;
                assert(assets[i] == c.0);
            } else {
                assert(assets[assets.len() - 1] == c.0);
            }
        }
    }
}

/// A root is removed when it lies in the package, is not the package itself, and holds neither the
/// output nor anything written; and in no other case.
pub proof fn law_when_the_root_goes(
    root: Seq<char>,
    out: Seq<char>,
    inside: bool,
    written: Seq<Seq<char>>,
)
    ensures
        !root_removable(Seq::empty(), out, inside, written),
        !root_removable(root, root, inside, written),
        !root_removable(root, out, false, written),
        path::rest_of(out, root) is Some ==> !root_removable(root, out, inside, written),
        (exists|i: int|
            0 <= i < written.len() && path::rest_of(#[trigger] written[i], root) is Some)
            ==> !root_removable(root, out, inside, written),
        parts(root).len() > 0 && root.len() > 0 && inside && path::rest_of(out, root) is None && (
        forall|i: int|
            0 <= i < written.len() ==> path::rest_of(#[trigger] written[i], root) is None)
            ==> root_removable(root, out, inside, written),
{
    assert(parts(root).is_prefix_of(parts(root))) by {
        assert(parts(root).subrange(0, parts(root).len() as int) =~= parts(root));
    }
}

/// Nothing but TypeScript is among what still has to be removed.
pub proof fn law_leftovers_are_typescript(files: Seq<Seq<char>>, p: Seq<char>)
    requires
        typescript_in(files).contains(p),
    ensures
        files.contains(p),
        typescript_source(p),
    decreases files.len(),
{
    if files.len() > 0 {
        let front = files.drop_last();
        let all = typescript_in(files);
        let k = choose|k: int| 0 <= k < all.len() && all[k] == p;
        if k < typescript_in(front).len() {
            assert(typescript_in(front)[k] == p);
            law_leftovers_are_typescript(front, p);
            let i = choose|i: int| 0 <= i < front.len() && front[i] == p;
            assert(files[i] == p);
        } else {
            assert(files[files.len() - 1] == p);
        }
    }
}

/// The manifest still holds when the target of each of its bare entries is there, and the first that
/// is not is reported.
pub proof fn law_first_missing_entry(list: Seq<Export>, present: Seq<bool>, i: int)
    requires
        0 <= i,
        list.len() == present.len(),
    ensures
        match first_missing(list, present, i) {
            Some(k) => i <= k < list.len() && list[k] is Bare && !present[k] && forall|j: int|
                i <= j < k ==> !((#[trigger] list[j]) is Bare) || present[j],
            None => forall|j: int| i <= j < list.len() && (#[trigger] list[j]) is Bare ==> present[j],
        },
    decreases list.len() - i,
{
    if i < list.len() && !(list[i] is Bare && !present[i]) {
        law_first_missing_entry(list, present, i + 1);
    }
}

} // verus!
