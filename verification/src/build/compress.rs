//! Pre-compressing emitted assets to `.gz` sidecars, so a static server can serve them with
//! `Content-Encoding: gzip`.

use vstd::prelude::*;

use crate::error::Error;
use crate::path;
use crate::text;
use crate::text::texts;
use crate::walk::{places, Kind, Place, Visited};

verus! {

/// What compressing some bytes at the best compression gives: the gzip stream, or nothing
/// where it fails.
pub uninterp spec fn gzip_outcome(bytes: Seq<u8>) -> Option<Seq<u8>>;

/// Writes `bytes` through a `flate2::write::GzEncoder` into memory, at
/// `flate2::Compression::best()`, and finishes it. The stream is the [`gzip_outcome`] of the
/// bytes, and it fails on the bytes that have none: there is no clock and no name in the
/// header, so the outcome rests on the bytes alone. That the stream decompresses to the bytes
/// is not claimed.
#[verifier::external_body]
fn gzip(bytes: &[u8]) -> (r: Result<Vec<u8>, std::io::Error>)
    ensures
        match r {
            Ok(stream) => gzip_outcome(bytes@) == Some(stream@),
            Err(_) => gzip_outcome(bytes@) is None,
        },
{
    let mut encoder = flate2::write::GzEncoder::new(Vec::new(), flate2::Compression::best());
    std::io::Write::write_all(&mut encoder, bytes)?;
    encoder.finish()
}

/// A `.gz` sidecar: where it goes, where it is written first, and what it holds.
///
/// It is written to `temporary` and renamed: that replaces the directory entry instead of
/// truncating in place, so a sidecar that arrived as a hardlink (the staged build seeds the
/// vendored tree from the previous output) never rewrites the retired tree.
#[derive(Debug, PartialEq, Eq)]
pub struct Sidecar {
    pub path: String,
    pub temporary: String,
    pub contents: Vec<u8>,
}

/// `path` with `.gz` appended, keeping the original extension (`app.js` to `app.js.gz`).
pub fn append_gz(path: &str) -> (r: String)
    ensures
        r@ == path@ + ".gz"@,
{
    path.to_owned().concat(".gz")
}

/// The `.gz` sidecar of the file at `path`, which holds `bytes` (gzip, best compression).
pub fn gzip_file(path: &str, bytes: &[u8]) -> (r: Result<Sidecar, Error>)
    ensures
        match r {
            Ok(sidecar) => {
                &&& sidecar.path@ == path@ + ".gz"@
                &&& sidecar.temporary@ == path@ + ".gz"@ + ".tmp"@
                &&& gzip_outcome(bytes@) == Some(sidecar.contents@)
            },
            Err(e) => e@ is Io && gzip_outcome(bytes@) is None,
        },
{
    match gzip(bytes) {
        Ok(contents) => {
            let dest = append_gz(path);
            let temporary = dest.clone().concat(".tmp");
            Ok(Sidecar { path: dest, temporary, contents })
        },
        Err(e) => Err(Error::Io(e)),
    }
}

/// A place gets a `.gz` sidecar: it is a file, no link, no `.gz` itself, and its extension is
/// one of a list.
pub open spec fn compressed(place: Place, exts: Seq<Seq<char>>) -> bool {
    place.kind == Kind::File && ({
        let ext = crate::static_files::ext_or_empty(place.path);
        ext != "gz"@ && exts.contains(ext)
    })
}

/// The places among a list that get a `.gz` sidecar.
pub open spec fn compressed_paths(list: Seq<Place>, exts: Seq<Seq<char>>) -> Seq<Seq<char>>
    decreases list.len(),
{
    if list.len() == 0 {
        Seq::empty()
    } else {
        let front = compressed_paths(list.drop_last(), exts);
        if compressed(list.last(), exts) {
            front.push(list.last().path)
        } else {
            front
        }
    }
}

/// Which of the `visited` places get a `.gz` sidecar: every file whose extension is in `exts`
/// (e.g. `js`, `css`, `html`, `json`, `svg`). Already `.gz` files are skipped, and so are
/// symlinks: a sidecar's bytes come from real files only.
pub fn gzip_dir(visited: &Vec<Visited>, exts: &Vec<String>) -> (r: Vec<String>)
    ensures
        texts(r@) == compressed_paths(places(visited@), texts(exts@)),
{
    let ghost all = places(visited@);
    let mut out: Vec<String> = Vec::new();
    let mut i: usize = 0;
    assert(texts(out@) =~= compressed_paths(all.take(0), texts(exts@)));
    while i < visited.len()
        invariant
            i <= visited@.len(),
            all == places(visited@),
            texts(out@) == compressed_paths(all.take(i as int), texts(exts@)),
        decreases visited@.len() - i,
    {
        proof {
            let grown = all.take(i + 1);
            assert(grown.drop_last() =~= all.take(i as int));
            assert(grown.last() == visited@[i as int]@);
        }
        if visited[i].kind == Kind::File {
            let ext = crate::static_files::extension_or_empty(visited[i].path.as_str());
            if !text::same(ext.as_str(), "gz") && text::listed(exts, ext.as_str()) {
                let one = visited[i].path.clone();
                proof {
                    text::lemma_texts_push(out@, one);
                }
                out.push(one);
            }
        }
        i += 1;
    }
    assert(all.take(visited@.len() as int) =~= all);
    out
}

/// A sidecar is made for every file, and for no link and no directory, whose extension is listed,
/// unless it is compressed already; and for nothing else.
pub proof fn law_what_is_compressed(list: Seq<Place>, exts: Seq<Seq<char>>, p: Seq<char>)
    ensures
        compressed_paths(list, exts).contains(p) <==> exists|i: int|
            0 <= i < list.len() && (#[trigger] list[i]).path == p && list[i].kind == Kind::File
                && crate::static_files::ext_or_empty(p) != "gz"@ && exts.contains(
                crate::static_files::ext_or_empty(p),
            ),
    decreases list.len(),
{
    if list.len() > 0 {
        let front = list.drop_last();
        law_what_is_compressed(front, exts, p);
        let before = compressed_paths(front, exts);
        let all = compressed_paths(list, exts);
        if all.contains(p) {
            let k = choose|k: int| 0 <= k < all.len() && all[k] == p;
            if k < before.len() {
                assert(before[k] == p);
                let i = choose|i: int|
                    0 <= i < front.len() && (#[trigger] front[i]).path == p && front[i].kind
                        == Kind::File;
                assert(list[i] == front[i]);
            } else {
                assert(list[list.len() - 1].path == p);
            }
        }
        if exists|i: int|
            0 <= i < list.len() && (#[trigger] list[i]).path == p && compressed(list[i], exts) {
            let i = choose|i: int|
                0 <= i < list.len() && (#[trigger] list[i]).path == p && compressed(list[i], exts);
            if i < front.len() {
                assert(front[i] == list[i]);
                let k = choose|k: int| 0 <= k < before.len() && before[k] == p;
                assert(all[k] == p);
            } else {
                assert(all[before.len() as int] == p);
            }
        }
    }
}

} // verus!
