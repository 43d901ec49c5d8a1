//! When a vendored package is current.

use vstd::arithmetic::div_mod::{lemma_add_mod_noop, lemma_mod_bound, lemma_small_mod};
use vstd::prelude::*;

use crate::text;
use crate::vendor::spec::{Extract, Mode};

verus! {

/// Fingerprint of the source-compilation path, mixed into a compiled spec's cache key.
///
/// A compiled tree is derived output, so the source identifier alone does not describe it:
/// the same commit through a different compiler is a different tree, and a marker naming
/// only the commit would keep the old JavaScript across an upgrade.
pub const COMPILE_SCHEMA: &'static str = "compile0.1.0";

/// A cache key, carrying the compile fingerprint when the destination is compiled.
pub open spec fn keyed(key: Seq<char>, compile: bool) -> Seq<char> {
    if compile {
        key + "+"@ + COMPILE_SCHEMA@
    } else {
        key
    }
}

/// A spec's cache key, carrying the compile fingerprint when the destination is compiled.
///
/// An uncompiled destination is the archive's contents and nothing else, so its key stays
/// as it is; a compiled one is also the compiler's output, and a key that ignored that
/// would call a stale tree fresh.
pub fn compiled_key(key: &str, compile: bool) -> (r: String)
    ensures
        r@ == keyed(key@, compile),
{
    if compile {
        key.to_owned().concat("+").concat(COMPILE_SCHEMA)
    } else {
        key.to_owned()
    }
}

/// `c` is an ASCII hexadecimal digit.
pub open spec fn is_hex(c: char) -> bool {
    ('0' <= c && c <= '9') || ('a' <= c && c <= 'f') || ('A' <= c && c <= 'F')
}

/// A full commit id: forty hexadecimal digits.
pub open spec fn commit_id(reference: Seq<char>) -> bool {
    reference.len() == 40 && forall|i: int|
        0 <= i < reference.len() ==> is_hex(#[trigger] reference[i])
}

/// Whether a git reference is a commit id, and so cannot move.
///
/// A branch or tag can be repointed at any time, which is what makes keying a cache on
/// the reference name wrong; a commit id names one tree forever.
pub fn is_commit_ref(reference: &str) -> (r: bool)
    ensures
        r == commit_id(reference@),
{
    let all = text::chars(reference);
    if all.len() != 40 {
        return false;
    }
    let mut i: usize = 0;
    while i < all.len()
        invariant
            i <= all@.len(),
            all@ == reference@,
            forall|j: int| 0 <= j < i ==> is_hex(#[trigger] reference@[j]),
        decreases all@.len() - i,
    {
        let c = all[i];
        if !(('0' <= c && c <= '9') || ('a' <= c && c <= 'f') || ('A' <= c && c <= 'F')) {
            assert(!is_hex(reference@[i as int]));
            return false;
        }
        i += 1;
    }
    true
}

// ---------------------------------------------------------------------------
// Content keys
// ---------------------------------------------------------------------------

/// Two to the sixty-fourth.
pub open spec fn word() -> int {
    0x1_0000_0000_0000_0000
}

/// The sum of the bytes, each weighted by its place, counted from one.
pub open spec fn weighted(bytes: Seq<u8>) -> int
    decreases bytes.len(),
{
    if bytes.len() == 0 {
        0
    } else {
        weighted(bytes.drop_last()) + bytes.last() * bytes.len()
    }
}

/// The hexadecimal digit of a number below sixteen.
pub open spec fn hex_digit(d: int) -> char {
    if d < 10 {
        (d + 48) as char
    } else {
        (d + 87) as char
    }
}

/// The last `n` hexadecimal digits of a number.
pub open spec fn hex_digits(x: int, n: nat) -> Seq<char>
    decreases n,
{
    if n == 0 {
        Seq::empty()
    } else {
        hex_digits(x / 16, (n - 1) as nat).push(hex_digit(x % 16))
    }
}

/// The content key of an archive: the weighted sum in sixteen hexadecimal digits.
pub open spec fn key_of(bytes: Seq<u8>) -> Seq<char> {
    hex_digits(weighted(bytes) % word(), 16)
}

fn hex(x: u64, n: usize) -> (r: String)
    ensures
        r@ == hex_digits(x as int, n as nat),
    decreases n,
{
    if n == 0 {
        return String::new();
    }
    let mut s = hex(x / 16, n - 1);
    let d = (x % 16) as u8;
    if d < 10 {
        s.push((d + 48) as char);
    } else {
        s.push((d + 87) as char);
    }
    s
}

/// A cache key derived from an archive's bytes, for a source whose key is not knowable
/// before fetching: a position-weighted fold. It distinguishes one archive from another,
/// and is not an integrity check.
pub fn content_key(bytes: &[u8]) -> (r: String)
    ensures
        r@ == key_of(bytes@),
{
    let mut hash: u64 = 0;
    let mut i: usize = 0;
    proof {
        lemma_small_mod(0, word() as nat);
    }
    while i < bytes.len()
        invariant
            i <= bytes@.len(),
            hash == weighted(bytes@.take(i as int)) % word(),
        decreases bytes@.len() - i,
    {
        let place: u64 = i as u64 + 1;
        let term: u64 = (bytes[i] as u64).wrapping_mul(place);
        proof {
            let grown = bytes@.take(i + 1);
            assert(grown.drop_last() =~= bytes@.take(i as int));
            assert(grown.last() == bytes@[i as int]);
            let t = (bytes@[i as int] as int) * (i + 1);
            assert(term == t % word());
            let w = weighted(bytes@.take(i as int));
            lemma_add_mod_noop(w, t, word());
            lemma_mod_bound(w, word());
            lemma_mod_bound(t, word());
            let s = w % word() + t % word();
            if s < word() {
                lemma_small_mod(s as nat, word() as nat);
            } else {
                lemma_small_mod((s - word()) as nat, word() as nat);
                vstd::arithmetic::div_mod::lemma_mod_sub_multiples_vanish(s, word());
            }
        }
        hash = hash.wrapping_add(term);
        i += 1;
    }
    assert(bytes@.take(bytes@.len() as int) =~= bytes@);
    hex(hash, 16)
}

proof fn lemma_hex_digit_injective(a: int, b: int)
    requires
        0 <= a < 16,
        0 <= b < 16,
        hex_digit(a) == hex_digit(b),
    ensures
        a == b,
{
}

proof fn lemma_hex_injective(a: int, b: int, n: nat, bound: int)
    requires
        0 <= a < bound,
        0 <= b < bound,
        bound == vstd::arithmetic::power::pow(16, n),
        hex_digits(a, n) == hex_digits(b, n),
    ensures
        a == b,
    decreases n,
{
    reveal(vstd::arithmetic::power::pow);
    if n > 0 {
        let x = hex_digits(a, n);
        let y = hex_digits(b, n);
        assert(x.last() == y.last());
        assert(x.drop_last() =~= hex_digits(a / 16, (n - 1) as nat));
        assert(y.drop_last() =~= hex_digits(b / 16, (n - 1) as nat));
        lemma_hex_digit_injective(a % 16, b % 16);
        let smaller = vstd::arithmetic::power::pow(16, (n - 1) as nat);
        assert(bound == 16 * smaller);
        lemma_hex_injective(a / 16, b / 16, (n - 1) as nat, smaller);
    }
}

proof fn lemma_weighted_update(bytes: Seq<u8>, i: int, b: u8)
    requires
        0 <= i < bytes.len(),
    ensures
        weighted(bytes.update(i, b)) == weighted(bytes) + (b - bytes[i]) * (i + 1),
    decreases bytes.len(),
{
    let changed = bytes.update(i, b);
    if i == bytes.len() - 1 {
        assert(changed.drop_last() =~= bytes.drop_last());
        assert(b * bytes.len() == bytes[i] * bytes.len() + (b - bytes[i]) * (i + 1))
            by (nonlinear_arith)
            requires
                i + 1 == bytes.len(),
        ;
    } else {
        assert(changed.drop_last() =~= bytes.drop_last().update(i, b));
        lemma_weighted_update(bytes.drop_last(), i, b);
    }
}

/// Changing one byte of an archive changes its content key.
pub proof fn law_content_key_tracks_a_byte(bytes: Seq<u8>, i: int, b: u8)
    requires
        0 <= i < bytes.len(),
        b != bytes[i],
        bytes.len() <= 0x00ff_ffff_ffff_ffff,
    ensures
        key_of(bytes.update(i, b)) != key_of(bytes),
{
    let x = weighted(bytes);
    let y = weighted(bytes.update(i, b));
    lemma_weighted_update(bytes, i, b);
    let d = (b - bytes[i]) * (i + 1);
    assert(d != 0 && -word() < d < word()) by (nonlinear_arith)
        requires
            d == (b - bytes[i]) * (i + 1),
            b != bytes[i],
            0 <= i < 0x00ff_ffff_ffff_ffff,
            word() == 0x1_0000_0000_0000_0000,
    ;
    if key_of(bytes.update(i, b)) == key_of(bytes) {
        lemma_mod_bound(x, word());
        lemma_mod_bound(y, word());
        assert(vstd::arithmetic::power::pow(16, 16) == word()) by {
            reveal_with_fuel(vstd::arithmetic::power::pow, 17);
        }
        lemma_hex_injective(y % word(), x % word(), 16, word());
        vstd::arithmetic::div_mod::lemma_fundamental_div_mod(x, word());
        vstd::arithmetic::div_mod::lemma_fundamental_div_mod(y, word());
        let p = x / word();
        let q = y / word();
        assert(d == word() * (q - p)) by (nonlinear_arith)
            requires
                y == x + d,
                x == word() * p + x % word(),
                y == word() * q + y % word(),
                x % word() == y % word(),
        ;
        assert(false) by (nonlinear_arith)
            requires
                d == word() * (q - p),
                d != 0,
                -word() < d < word(),
                word() == 0x1_0000_0000_0000_0000,
        ;
    }
}

// ---------------------------------------------------------------------------
// Freshness
// ---------------------------------------------------------------------------

/// What the vendor tree says of a package.
#[derive(Clone, Copy, Debug, PartialEq, Eq, Structural)]
pub struct Found {
    /// The package's marker file holds the key asked about.
    pub marker_matches: bool,
    /// The one file of a single-file extract is there.
    pub file_present: bool,
    /// The destination directory holds anything.
    pub dir_filled: bool,
}

/// A package's destination is already populated for the key asked about.
pub open spec fn current(mode: Mode, found: Found) -> bool {
    &&& found.marker_matches
    &&& if mode is File {
        found.file_present
    } else {
        found.dir_filled
    }
}

/// Whether a spec's destination is already populated. For a single-file extract the
/// specific output must exist; otherwise the destination directory must be non-empty.
pub fn is_up_to_date(extract: &Extract, found: Found) -> (r: bool)
    ensures
        r == current(extract@, found),
{
    if !found.marker_matches {
        return false;
    }
    match extract {
        Extract::File { .. } => found.file_present,
        _ => found.dir_filled,
    }
}

/// A destination that is missing or empty is never current, whatever its marker says.
pub proof fn law_missing_destination_is_not_current(mode: Mode, found: Found)
    requires
        !found.dir_filled,
        !found.file_present,
    ensures
        !current(mode, found),
{
}

/// A compiled destination and an uncompiled one never share a key.
pub proof fn law_compiled_key_differs(key: Seq<char>)
    ensures
        keyed(key, true) != keyed(key, false),
{
    reveal_strlit("+");
    assert(keyed(key, true).len() > key.len());
}

/// Two sources whose keys differ keep different keys, compiled or not, and an uncompiled
/// destination's key is the source's own.
pub proof fn law_keys_stay_apart(a: Seq<char>, b: Seq<char>, compile: bool)
    ensures
        keyed(a, false) == a,
        keyed(a, compile) == keyed(b, compile) ==> a == b,
        a.is_prefix_of(keyed(a, compile)),
{
    let tail = "+"@ + COMPILE_SCHEMA@;
    assert(a + "+"@ + COMPILE_SCHEMA@ =~= a + tail);
    assert(b + "+"@ + COMPILE_SCHEMA@ =~= b + tail);
    if keyed(a, compile) == keyed(b, compile) && compile {
        assert((a + tail).len() == (b + tail).len());
        assert forall|i: int| 0 <= i < a.len() implies a[i] == b[i] by {
            assert((a + tail)[i] == a[i] && (b + tail)[i] == b[i]);
        }
        assert(a =~= b);
    }
}

/// A reference is a commit id when it is forty digits and letters from `a` to `f`, in either case;
/// one character more or less, or another character anywhere, makes it a name that can move.
pub proof fn law_commit_ids(reference: Seq<char>)
    ensures
        commit_id(reference) <==> reference.len() == 40 && forall|i: int|
            0 <= i < reference.len() ==> "0123456789abcdefABCDEF"@.contains(#[trigger] reference[i]),
{
    reveal_strlit("0123456789abcdefABCDEF");
    let digits = "0123456789abcdefABCDEF"@;
    assert forall|c: char| is_hex(c) == #[trigger] digits.contains(c) by {
        if is_hex(c) {
            let k = if c <= '9' {
                c as int - 48
            } else if c <= 'F' {
                c as int - 65 + 16
            } else {
                c as int - 97 + 10
            };
            assert(0 <= k < 22 && digits[k] == c);
        }
        if digits.contains(c) {
            let k = choose|k: int| 0 <= k < digits.len() && digits[k] == c;
            assert(0 <= k < 22);
        }
    }
}

/// A byte at the end of an archive adds itself as often as its place says, counted from one.
pub proof fn law_places_weigh(bytes: Seq<u8>, b: u8)
    ensures
        weighted(Seq::<u8>::empty()) == 0,
        weighted(bytes.push(b)) == weighted(bytes) + b * (bytes.len() + 1),
{
    assert(bytes.push(b).drop_last() =~= bytes);
}

/// The number that hexadecimal digits stand for.
pub open spec fn hex_value(digits: Seq<char>) -> int
    decreases digits.len(),
{
    if digits.len() == 0 {
        0
    } else {
        let c = digits.last();
        hex_value(digits.drop_last()) * 16 + (if c <= '9' {
            c as int - '0' as int
        } else {
            c as int - 'a' as int + 10
        })
    }
}

proof fn lemma_hex_digits_value(x: int, n: nat)
    requires
        0 <= x < vstd::arithmetic::power::pow(16, n),
    ensures
        hex_digits(x, n).len() == n,
        hex_value(hex_digits(x, n)) == x,
        forall|i: int|
            0 <= i < n ==> ('0' <= #[trigger] hex_digits(x, n)[i] <= '9' || 'a' <= hex_digits(x, n)[i]
                <= 'f'),
    decreases n,
{
    vstd::arithmetic::power::lemma_pow0(16);
    if n > 0 {
        let m = (n - 1) as nat;
        assert(vstd::arithmetic::power::pow(16, n) == 16 * vstd::arithmetic::power::pow(16, m)) by {
            reveal(vstd::arithmetic::power::pow);
        }
        lemma_hex_digits_value(x / 16, m);
        let front = hex_digits(x / 16, m);
        assert(front.push(hex_digit(x % 16)).drop_last() =~= front);
    }
}

/// The content key is sixteen lower-case hexadecimal digits, and read back they are the weighted
/// sum, up to the size of a word.
pub proof fn law_content_key_reads_back(bytes: Seq<u8>)
    ensures
        key_of(bytes).len() == 16,
        hex_value(key_of(bytes)) == weighted(bytes) % 0x1_0000_0000_0000_0000,
        forall|i: int|
            0 <= i < 16 ==> ('0' <= #[trigger] key_of(bytes)[i] <= '9' || 'a' <= key_of(bytes)[i]
                <= 'f'),
{
    assert(vstd::arithmetic::power::pow(16, 16) == 0x1_0000_0000_0000_0000) by {
        reveal_with_fuel(vstd::arithmetic::power::pow, 17);
    }
    lemma_hex_digits_value(weighted(bytes) % word(), 16);
}

/// Of a single-file extract the file must be there, of any other the directory must hold
/// something, and in each case the marker must match.
pub proof fn law_current(from: Seq<char>, to: Seq<char>, found: Found)
    ensures
        !found.marker_matches ==> !current(Mode::File { from, to }, found) && !current(
            Mode::Full,
            found,
        ),
        found.marker_matches ==> current(Mode::File { from, to }, found) == found.file_present,
        found.marker_matches ==> current(Mode::Full, found) == found.dir_filled,
        found.marker_matches ==> current(Mode::BrowserAssets, found) == found.dir_filled,
{
}

} // verus!
