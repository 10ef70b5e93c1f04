//! Fingerprints of static assets: a hash of their bytes that their public URL
//! carries, so that browsers may cache them forever.

use vstd::prelude::*;
use crate::text::{chars_of, last_index_of, lemma_last_index_bounds, matches_at, push_char, string_of};

verus! {

/// The FNV-1a 64-bit offset basis.
pub const FNV_OFFSET: u64 = 0xcbf2_9ce4_8422_2325;

/// The FNV-1a 64-bit prime.
pub const FNV_PRIME: u64 = 0x0000_0100_0000_01b3;

/// The 64-bit FNV-1a hash of `bytes`: start from the offset basis, and for each
/// byte exclusive-or it in and multiply by the prime, wrapping.
pub open spec fn fnv1a(bytes: Seq<u8>) -> u64
    decreases bytes.len(),
{
    if bytes.len() == 0 {
        FNV_OFFSET
    } else {
        vstd::wrapping::u64_specs::wrapping_mul(fnv1a(bytes.drop_last()) ^ (bytes.last() as u64), FNV_PRIME)
    }
}

/// FNV-1a folds in every byte, however long the input: the empty input hashes
/// to the offset basis, and one more byte exclusive-ors into the hash so far,
/// which is then multiplied by the prime modulo 2^64.
pub proof fn hash_folds_every_byte(bytes: Seq<u8>, b: u8)
    ensures
        fnv1a(Seq::<u8>::empty()) == 0xcbf2_9ce4_8422_2325u64,
        fnv1a(bytes.push(b)) as int == ((fnv1a(bytes) ^ (b as u64)) as int * 0x0000_0100_0000_01b3int)
            % 0x1_0000_0000_0000_0000int,
{
    assert(bytes.push(b).drop_last() =~= bytes);
}

proof fn lemma_prime_multiplication_injective(x: u64, y: u64)
    requires
        (x as int * 0x0000_0100_0000_01b3int) % 0x1_0000_0000_0000_0000int == (y as int
            * 0x0000_0100_0000_01b3int) % 0x1_0000_0000_0000_0000int,
    ensures
        x == y,
{
    assert(((x * 0x0000_0100_0000_01b3u64) % 0x1_0000_0000_0000_0000 == (y * 0x0000_0100_0000_01b3u64)
        % 0x1_0000_0000_0000_0000) ==> x == y) by (bit_vector);
}

/// Two inputs that differ only in their last byte hash differently, whatever
/// their length: a changed byte at the end always changes the fingerprint.
pub proof fn last_byte_changes_hash(bytes: Seq<u8>, a: u8, b: u8)
    requires
        a != b,
    ensures
        fnv1a(bytes.push(a)) != fnv1a(bytes.push(b)),
{
    hash_folds_every_byte(bytes, a);
    hash_folds_every_byte(bytes, b);
    let h = fnv1a(bytes);
    let xa = h ^ (a as u64);
    let xb = h ^ (b as u64);
    assert(xa != xb) by (bit_vector)
        requires
            xa == h ^ (a as u64),
            xb == h ^ (b as u64),
            a != b,
    ;
    if fnv1a(bytes.push(a)) == fnv1a(bytes.push(b)) {
        lemma_prime_multiplication_injective(xa, xb);
    }
}

/// The hash that fingerprints a static asset.
pub fn content_hash(bytes: &[u8]) -> (hash: u64)
    ensures
        hash == fnv1a(bytes@),
{
    let mut hash: u64 = FNV_OFFSET;
    let mut i: usize = 0;
    while i < bytes.len()
        invariant
            i <= bytes@.len(),
            hash == fnv1a(bytes@.take(i as int)),
        decreases bytes@.len() - i,
    {
        assert(bytes@.take(i + 1).drop_last() =~= bytes@.take(i as int));
        hash = (hash ^ (bytes[i] as u64)).wrapping_mul(FNV_PRIME);
        i += 1;
    }
    assert(bytes@.take(bytes@.len() as int) =~= bytes@);
    hash
}

/// The lower-case hexadecimal digit for `d` below 16.
pub open spec fn hex_digit(d: int) -> char {
    if d < 10 {
        (d + 48) as char
    } else {
        (d + 87) as char
    }
}

/// The last `width` hexadecimal digits of `n`, zeros in front.
pub open spec fn hex_width(n: nat, width: nat) -> Seq<char>
    decreases width,
{
    if width == 0 {
        seq![]
    } else {
        hex_width(n / 16, (width - 1) as nat).push(hex_digit((n % 16) as int))
    }
}

fn push_hex(out: &mut String, n: u64, width: usize)
    ensures
        final(out)@ == old(out)@ + hex_width(n as nat, width as nat),
    decreases width,
{
    if width > 0 {
        push_hex(out, n / 16, width - 1);
        let d = (n % 16) as u32;
        let c: char = if d < 10 {
            char_of(d + 48)
        } else {
            char_of(d + 87)
        };
        push_char(out, c);
        assert(out@ =~= old(out)@ + hex_width(n as nat, width as nat));
    } else {
        assert(out@ =~= old(out)@ + hex_width(n as nat, 0));
    }
}

fn char_of(code: u32) -> (c: char)
    requires
        48 <= code <= 57 || 97 <= code <= 102,
    ensures
        c == code as char,
{
    let b = code as u8;
    b as char
}

/// The fingerprinted name of a static asset: the directory it stands in, if
/// any, then the stem, `-`, the hash in sixteen lower-case hexadecimal digits,
/// and the extension after a `.`, if it has one.
pub open spec fn fingerprinted(parent: Option<Seq<char>>, stem: Seq<char>, extension: Option<Seq<char>>, hash: u64) -> Seq<char> {
    let name = stem + seq!['-'] + hex_width(hash as nat, 16) + match extension {
        Some(e) => seq!['.'] + e,
        None => seq![],
    };
    match parent {
        Some(p) => p + seq!['/'] + name,
        None => name,
    }
}

/// `16` to the power `w`.
pub open spec fn pow16(w: nat) -> nat
    decreases w,
{
    if w == 0 {
        1
    } else {
        16 * pow16((w - 1) as nat)
    }
}

proof fn lemma_hex_width_len(n: nat, width: nat)
    ensures
        hex_width(n, width).len() == width,
    decreases width,
{
    if width > 0 {
        lemma_hex_width_len(n / 16, (width - 1) as nat);
    }
}

proof fn lemma_hex_digit_injective(d: int, e: int)
    requires
        0 <= d < 16,
        0 <= e < 16,
        hex_digit(d) == hex_digit(e),
    ensures
        d == e,
{
    assert((hex_digit(d) as int) == if d < 10 { d + 48 } else { d + 87 });
    assert((hex_digit(e) as int) == if e < 10 { e + 48 } else { e + 87 });
}

proof fn lemma_hex_width_injective(n: nat, m: nat, width: nat)
    requires
        n < pow16(width),
        m < pow16(width),
        hex_width(n, width) == hex_width(m, width),
    ensures
        n == m,
    decreases width,
{
    if width > 0 {
        let w1 = (width - 1) as nat;
        let hn = hex_width(n, width);
        let hm = hex_width(m, width);
        assert(hn.last() == hex_digit((n % 16) as int));
        assert(hm.last() == hex_digit((m % 16) as int));
        lemma_hex_digit_injective((n % 16) as int, (m % 16) as int);
        assert(hn.drop_last() == hex_width(n / 16, w1));
        assert(hm.drop_last() == hex_width(m / 16, w1));
        assert(n / 16 < pow16(w1));
        assert(m / 16 < pow16(w1));
        lemma_hex_width_injective(n / 16, m / 16, w1);
    }
}

proof fn lemma_u64_below_pow16(n: u64)
    ensures
        (n as nat) < pow16(16),
{
    reveal_with_fuel(pow16, 17);
    assert(pow16(16) == 0x1_0000_0000_0000_0000);
}

/// Assets whose bytes hash differently get different fingerprinted paths, so
/// a changed asset never hides behind a URL that browsers cache forever.
pub proof fn distinct_hashes_give_distinct_paths(
    parent: Option<Seq<char>>,
    stem: Seq<char>,
    extension: Option<Seq<char>>,
    a: u64,
    b: u64,
)
    requires
        a != b,
    ensures
        fingerprinted(parent, stem, extension, a) != fingerprinted(parent, stem, extension, b),
{
    lemma_u64_below_pow16(a);
    lemma_u64_below_pow16(b);
    lemma_hex_width_len(a as nat, 16);
    lemma_hex_width_len(b as nat, 16);
    let ha = hex_width(a as nat, 16);
    let hb = hex_width(b as nat, 16);
    if ha == hb {
        lemma_hex_width_injective(a as nat, b as nat, 16);
    }
    let start = match parent {
        Some(p) => p.len() + 1 + stem.len() + 1,
        None => stem.len() + 1,
    };
    let fa = fingerprinted(parent, stem, extension, a);
    let fb = fingerprinted(parent, stem, extension, b);
    assert(fa.subrange(start as int, start as int + 16) =~= ha);
    assert(fb.subrange(start as int, start as int + 16) =~= hb);
}

/// Writes the fingerprinted path of a static asset from the parts of its path.
pub fn fingerprinted_path(parent: Option<&str>, stem: &str, extension: Option<&str>, hash: u64) -> (path: String)
    ensures
        path@ == fingerprinted(
            match parent {
                Some(p) => Some(p@),
                None => None,
            },
            stem@,
            match extension {
                Some(e) => Some(e@),
                None => None,
            },
            hash,
        ),
{
    let mut name = stem.to_owned();
    push_char(&mut name, '-');
    push_hex(&mut name, hash, 16);
    match extension {
        Some(e) => {
            push_char(&mut name, '.');
            name.append(e);
        },
        None => {},
    }
    match parent {
        Some(p) => {
            let mut path = p.to_owned();
            push_char(&mut path, '/');
            path.append(name.as_str());
            assert(path@ =~= p@ + seq!['/'] + name@);
            path
        },
        None => name,
    }
}

/// How `std::path::Path` splits a relative path of `/`-separated names: the
/// directory before its last `/` (none without one), the file name's stem, and
/// the extension after the file name's last `.` where that `.` is not the
/// name's first character. None where there is no file name: an empty one or
/// `..`.
pub open spec fn asset_parts(path: Seq<char>) -> Option<(Option<Seq<char>>, Seq<char>, Option<Seq<char>>)> {
    let k = last_index_of(path, '/');
    let parent = if k >= 0 {
        Some(path.take(k))
    } else {
        None
    };
    let name = path.skip(k + 1);
    if name.len() == 0 || name == seq!['.', '.'] {
        None
    } else {
        let d = last_index_of(name, '.');
        if d > 0 {
            Some((parent, name.take(d), Some(name.skip(d + 1))))
        } else {
            Some((parent, name, None))
        }
    }
}

/// The fingerprinted path of the asset at `path` whose bytes hash to `hash`:
/// the hash put in before the extension; none where the path has no file name.
pub open spec fn asset_fingerprint(path: Seq<char>, hash: u64) -> Option<Seq<char>> {
    match asset_parts(path) {
        Some((parent, stem, extension)) => Some(fingerprinted(parent, stem, extension, hash)),
        None => None,
    }
}

/// `s` holds no `c`.
pub open spec fn lacks(s: Seq<char>, c: char) -> bool {
    forall|i: int| 0 <= i < s.len() ==> s[i] != c
}

/// A path put back together from its directory, stem and extension.
pub open spec fn joined(parent: Option<Seq<char>>, stem: Seq<char>, extension: Option<Seq<char>>) -> Seq<char> {
    let name = stem + match extension {
        Some(e) => seq!['.'] + e,
        None => seq![],
    };
    match parent {
        Some(p) => p + seq!['/'] + name,
        None => name,
    }
}

/// The parts of a path as `asset_parts` gives them: no `/` in the stem or the
/// extension, no `.` in the extension, a stem before an extension, and no `.`
/// but at the front of a stem without one.
pub open spec fn is_split(parent: Option<Seq<char>>, stem: Seq<char>, extension: Option<Seq<char>>) -> bool {
    &&& lacks(stem, '/')
    &&& match extension {
        Some(e) => lacks(e, '/') && lacks(e, '.') && stem.len() > 0,
        None => last_index_of(stem, '.') <= 0,
    }
}

proof fn lemma_after_last(s: Seq<char>, c: char, i: int)
    requires
        last_index_of(s, c) < i < s.len(),
    ensures
        s[i] != c,
    decreases s.len(),
{
    lemma_last_index_bounds(s, c);
    if s.last() != c {
        assert(last_index_of(s, c) == last_index_of(s.drop_last(), c));
        if i < s.len() - 1 {
            lemma_after_last(s.drop_last(), c, i);
            assert(s.drop_last()[i] == s[i]);
        }
    }
}

proof fn lemma_skip_lacks(s: Seq<char>, c: char)
    ensures
        lacks(s.skip(last_index_of(s, c) + 1), c),
{
    lemma_last_index_bounds(s, c);
    let k = last_index_of(s, c);
    assert forall|i: int| 0 <= i < s.skip(k + 1).len() implies #[trigger] s.skip(k + 1)[i] != c by {
        lemma_after_last(s, c, k + 1 + i);
    }
}

proof fn lemma_last_index_append(s: Seq<char>, t: Seq<char>, c: char)
    requires
        lacks(t, c),
    ensures
        last_index_of(s + t, c) == last_index_of(s, c),
    decreases t.len(),
{
    if t.len() == 0 {
        assert(s + t =~= s);
    } else {
        assert((s + t).drop_last() =~= s + t.drop_last());
        assert((s + t).last() == t.last());
        assert(lacks(t.drop_last(), c)) by {
            assert forall|i: int| 0 <= i < t.drop_last().len() implies t.drop_last()[i] != c by {
                assert(t.drop_last()[i] == t[i]);
            }
        }
        lemma_last_index_append(s, t.drop_last(), c);
    }
}

proof fn lemma_hex_lacks(n: nat, width: nat, c: char)
    requires
        c == '/' || c == '.',
    ensures
        lacks(hex_width(n, width), c),
    decreases width,
{
    if width > 0 {
        let w1 = (width - 1) as nat;
        lemma_hex_lacks(n / 16, w1, c);
        let d = (n % 16) as int;
        assert(hex_digit(d) as int >= 48);
        assert(c as int <= 47);
        let h = hex_width(n, width);
        assert forall|i: int| 0 <= i < h.len() implies h[i] != c by {
            if i < h.len() - 1 {
                assert(h[i] == hex_width(n / 16, w1)[i]);
            }
        }
    }
}

/// A path with a file name is its parts put back together, and they are split
/// as `asset_parts` splits.
pub proof fn lemma_parts_rejoin(path: Seq<char>)
    requires
        asset_parts(path) is Some,
    ensures
        asset_parts(path) matches Some((parent, stem, extension)) && is_split(parent, stem, extension)
            && path == joined(parent, stem, extension),
{
    lemma_last_index_bounds(path, '/');
    lemma_skip_lacks(path, '/');
    let k = last_index_of(path, '/');
    let name = path.skip(k + 1);
    lemma_last_index_bounds(name, '.');
    lemma_skip_lacks(name, '.');
    let d = last_index_of(name, '.');
    let (parent, stem, extension) = asset_parts(path)->Some_0;
    if d > 0 {
        assert(name =~= name.take(d) + (seq!['.'] + name.skip(d + 1)));
        assert(lacks(stem, '/')) by {
            assert forall|i: int| 0 <= i < stem.len() implies stem[i] != '/' by {
                assert(stem[i] == name[i]);
            }
        }
        assert(lacks(name.skip(d + 1), '/')) by {
            assert forall|i: int| 0 <= i < name.skip(d + 1).len() implies #[trigger] name.skip(d + 1)[i] != '/' by {
                assert(name.skip(d + 1)[i] == name[d + 1 + i]);
            }
        }
    } else {
        assert(stem =~= name);
        assert(name =~= name + seq![]);
    }
    assert(joined(parent, stem, extension).skip(0) =~= joined(parent, stem, extension));
    if k >= 0 {
        assert(path =~= path.take(k) + seq!['/'] + name);
    } else {
        assert(name =~= path);
    }
}

/// The name part of a fingerprinted path: the stem, `-`, the hash and the
/// extension.
spec fn fingerprinted_name(stem: Seq<char>, extension: Option<Seq<char>>, hash: u64) -> Seq<char> {
    stem + seq!['-'] + hex_width(hash as nat, 16) + match extension {
        Some(e) => seq!['.'] + e,
        None => seq![],
    }
}

proof fn lemma_fingerprinted_name(stem: Seq<char>, extension: Option<Seq<char>>, hash: u64)
    requires
        is_split(None, stem, extension),
    ensures
        lacks(fingerprinted_name(stem, extension, hash), '/'),
        last_index_of(fingerprinted_name(stem, extension, hash), '.') == match extension {
            Some(e) => stem.len() + 17int,
            None => last_index_of(stem, '.'),
        },
        fingerprinted_name(stem, extension, hash).len() == stem.len() + 17 + match extension {
            Some(e) => e.len() + 1,
            None => 0,
        },
{
    let hex = hex_width(hash as nat, 16);
    lemma_hex_width_len(hash as nat, 16);
    lemma_hex_lacks(hash as nat, 16, '/');
    lemma_hex_lacks(hash as nat, 16, '.');
    let name = fingerprinted_name(stem, extension, hash);
    let front = stem + seq!['-'] + hex;
    assert forall|i: int| 0 <= i < name.len() implies name[i] != '/' by {
        if i < stem.len() {
            assert(name[i] == stem[i]);
        } else if i == stem.len() {
            assert(name[i] == '-');
        } else if i < stem.len() + 17 {
            assert(name[i] == hex[i - stem.len() - 1]);
        } else {
            let e = extension->Some_0;
            if i == stem.len() + 17 {
                assert(name[i] == '.');
            } else {
                assert(name[i] == e[i - stem.len() - 18]);
            }
        }
    }
    match extension {
        Some(e) => {
            assert(name =~= front.push('.') + e);
            lemma_last_index_append(front.push('.'), e, '.');
        },
        None => {
            let tail = seq!['-'] + hex;
            assert(name =~= stem + tail);
            assert(lacks(tail, '.')) by {
                assert forall|i: int| 0 <= i < tail.len() implies tail[i] != '.' by {
                    if i > 0 {
                        assert(tail[i] == hex[i - 1]);
                    }
                }
            }
            lemma_last_index_append(stem, tail, '.');
        },
    }
}

/// Two split paths with the same fingerprinted path have the same parts, and so
/// are one path.
pub proof fn fingerprint_determines_parts(
    parent1: Option<Seq<char>>,
    stem1: Seq<char>,
    extension1: Option<Seq<char>>,
    hash1: u64,
    parent2: Option<Seq<char>>,
    stem2: Seq<char>,
    extension2: Option<Seq<char>>,
    hash2: u64,
)
    requires
        is_split(parent1, stem1, extension1),
        is_split(parent2, stem2, extension2),
        fingerprinted(parent1, stem1, extension1, hash1) == fingerprinted(parent2, stem2, extension2, hash2),
    ensures
        parent1 == parent2,
        stem1 == stem2,
        extension1 == extension2,
{
    let n1 = fingerprinted_name(stem1, extension1, hash1);
    let n2 = fingerprinted_name(stem2, extension2, hash2);
    lemma_fingerprinted_slash(parent1, stem1, extension1, hash1);
    lemma_fingerprinted_slash(parent2, stem2, extension2, hash2);
    lemma_fingerprinted_name(stem1, extension1, hash1);
    lemma_fingerprinted_name(stem2, extension2, hash2);
    assert(n1 == n2);
    match (extension1, extension2) {
        (Some(e1), Some(e2)) => {
            assert(stem1 =~= n1.take(stem1.len() as int));
            assert(stem2 =~= n2.take(stem2.len() as int));
            assert(e1 =~= n1.skip(stem1.len() + 18int));
            assert(e2 =~= n2.skip(stem2.len() + 18int));
        },
        (None, None) => {
            assert(stem1 =~= n1.take(stem1.len() as int));
            assert(stem2 =~= n2.take(stem2.len() as int));
        },
        (Some(e1), None) => {
            assert(last_index_of(stem2, '.') < stem2.len() + 17);
        },
        (None, Some(e2)) => {
            assert(last_index_of(stem1, '.') < stem1.len() + 17);
        },
    }
}

/// Where the last `/` of a fingerprinted path stands: after the directory, or
/// nowhere without one; the name follows it.
proof fn lemma_fingerprinted_slash(parent: Option<Seq<char>>, stem: Seq<char>, extension: Option<Seq<char>>, hash: u64)
    requires
        is_split(parent, stem, extension),
    ensures
        ({
            let f = fingerprinted(parent, stem, extension, hash);
            let k = last_index_of(f, '/');
            &&& k == match parent {
                Some(p) => p.len() as int,
                None => -1,
            }
            &&& f.skip(k + 1) == fingerprinted_name(stem, extension, hash)
            &&& parent matches Some(p) ==> p == f.take(k)
        }),
{
    let n = fingerprinted_name(stem, extension, hash);
    lemma_fingerprinted_name(stem, extension, hash);
    let f = fingerprinted(parent, stem, extension, hash);
    assert(n =~= stem + seq!['-'] + hex_width(hash as nat, 16) + match extension {
        Some(e) => seq!['.'] + e,
        None => seq![],
    });
    match parent {
        Some(p) => {
            assert(f =~= p.push('/') + n);
            lemma_last_index_append(p.push('/'), n, '/');
            assert(f.skip(p.len() + 1int) =~= n);
            assert(f.take(p.len() as int) =~= p);
        },
        None => {
            assert(f =~= n);
            assert(seq![] + n =~= n);
            lemma_last_index_append(seq![], n, '/');
            assert(f.skip(0) =~= n);
        },
    }
}

/// Two assets with the same fingerprinted path stand at the same path.
pub proof fn fingerprints_tell_paths_apart(path1: Seq<char>, hash1: u64, path2: Seq<char>, hash2: u64)
    requires
        asset_fingerprint(path1, hash1) is Some,
        asset_fingerprint(path1, hash1) == asset_fingerprint(path2, hash2),
    ensures
        path1 == path2,
{
    lemma_parts_rejoin(path1);
    lemma_parts_rejoin(path2);
    let (p1, s1, e1) = asset_parts(path1)->Some_0;
    let (p2, s2, e2) = asset_parts(path2)->Some_0;
    fingerprint_determines_parts(p1, s1, e1, hash1, p2, s2, e2, hash2);
}

/// Where `c` last stands in `chars`, if anywhere.
fn last_position(chars: &Vec<char>, c: char) -> (k: Option<usize>)
    ensures
        match k {
            Some(i) => last_index_of(chars@, c) == i as int,
            None => last_index_of(chars@, c) == -1,
        },
{
    let mut i = chars.len();
    assert(chars@.take(i as int) =~= chars@);
    while i > 0
        invariant
            i <= chars@.len(),
            last_index_of(chars@, c) == last_index_of(chars@.take(i as int), c),
        decreases i,
    {
        assert(chars@.take(i as int).drop_last() =~= chars@.take(i - 1));
        if chars[i - 1] == c {
            return Some(i - 1);
        }
        i -= 1;
    }
    None
}

/// The fingerprinted path of the asset at `path` (a relative path of
/// `/`-separated names) whose bytes hash to `hash`.
pub fn fingerprint_of(path: &str, hash: u64) -> (r: Option<String>)
    ensures
        match asset_fingerprint(path@, hash) {
            Some(fp) => r matches Some(s) && s@ == fp,
            None => r is None,
        },
{
    let chars = chars_of(path);
    let slash = last_position(&chars, '/');
    proof {
        lemma_last_index_bounds(chars@, '/');
    }
    let (parent, start) = match slash {
        Some(k) => {
            assert(k < chars.len());
            (Some(string_of(&chars, 0, k)), k + 1)
        },
        None => (None, 0),
    };
    let name = chars_of(string_of(&chars, start, chars.len()).as_str());
    assert(name@ =~= path@.skip(last_index_of(path@, '/') + 1));
    if name.len() == 0 || (name.len() == 2 && name[0] == '.' && name[1] == '.') {
        proof {
            if name.len() == 2 {
                assert(name@ =~= seq!['.', '.']);
            }
        }
        return None;
    }
    proof {
        if name@ == seq!['.', '.'] {
            assert(name@[0] == '.' && name@[1] == '.');
        }
    }
    let dot = last_position(&name, '.');
    proof {
        lemma_last_index_bounds(name@, '.');
    }
    let (stem, extension) = match dot {
        Some(d) if d > 0 => (string_of(&name, 0, d), Some(string_of(&name, d + 1, name.len()))),
        _ => (string_of(&name, 0, name.len()), None),
    };
    proof {
        assert(chars@.subrange(0, chars@.len() as int) =~= chars@);
        assert(name@.subrange(0, name@.len() as int) =~= name@);
    }
    let parent_ref = match &parent {
        Some(p) => Some(p.as_str()),
        None => None,
    };
    let extension_ref = match &extension {
        Some(e) => Some(e.as_str()),
        None => None,
    };
    Some(fingerprinted_path(parent_ref, stem.as_str(), extension_ref, hash))
}

/// The stylesheets joined in order, each ended by a newline and followed by an
/// empty line.
pub open spec fn merged(sheets: Seq<Seq<char>>) -> Seq<char>
    decreases sheets.len(),
{
    if sheets.len() == 0 {
        seq![]
    } else {
        let sheet = sheets.last();
        merged(sheets.drop_last()) + sheet + if sheet.len() > 0 && sheet.last() == '\n' {
            seq!['\n']
        } else {
            seq!['\n', '\n']
        }
    }
}

/// Joins the stylesheets of the site into one.
pub fn merge_stylesheets(sheets: &Vec<String>) -> (merged_sheet: String)
    ensures
        merged_sheet@ == merged(sheets@.map_values(|s: String| s@)),
{
    let ghost views = sheets@.map_values(|s: String| s@);
    let mut out = String::new();
    let mut i: usize = 0;
    while i < sheets.len()
        invariant
            i <= sheets@.len(),
            views == sheets@.map_values(|s: String| s@),
            out@ == merged(views.take(i as int)),
        decreases sheets@.len() - i,
    {
        let sheet = sheets[i].as_str();
        out.append(sheet);
        let chars = chars_of(sheet);
        if !(chars.len() > 0 && chars[chars.len() - 1] == '\n') {
            push_char(&mut out, '\n');
        }
        push_char(&mut out, '\n');
        proof {
            assert(views.take(i + 1).drop_last() =~= views.take(i as int));
            assert(views.take(i + 1).last() == sheet@);
        }
        assert(out@ =~= merged(views.take(i + 1)));
        i += 1;
    }
    assert(views.take(sheets@.len() as int) =~= views);
    out
}

/// `pattern` stands in `s` at `i`.
pub open spec fn occurs_at(s: Seq<char>, pattern: Seq<char>, i: int) -> bool {
    0 <= i && i + pattern.len() <= s.len() && s.subrange(i, i + pattern.len()) == pattern
}

/// The first place at or after `from` where `pattern` stands in `s`.
pub open spec fn next_occurrence(s: Seq<char>, pattern: Seq<char>, from: int) -> Option<int>
    decreases s.len() + 1 - from,
{
    if from < 0 || from + pattern.len() > s.len() {
        None
    } else if occurs_at(s, pattern, from) {
        Some(from)
    } else {
        next_occurrence(s, pattern, from + 1)
    }
}

/// The placeholder for the font's URL that the stylesheets hold once.
pub open spec fn font_placeholder() -> Seq<char> {
    "__FIRA_CODE_URL__"@
}

/// The stylesheet with its one font placeholder replaced by `url`, or none
/// when the placeholder does not occur exactly once, counting occurrences from
/// the left without overlap as `str::matches` does.
pub open spec fn with_font_url(sheet: Seq<char>, url: Seq<char>) -> Option<Seq<char>> {
    let p = font_placeholder();
    match next_occurrence(sheet, p, 0) {
        Some(i) => if next_occurrence(sheet, p, i + p.len()) is None {
            Some(sheet.take(i) + url + sheet.skip(i + p.len()))
        } else {
            None
        },
        None => None,
    }
}

proof fn lemma_next_occurrence_bounds(s: Seq<char>, pattern: Seq<char>, from: int)
    ensures
        next_occurrence(s, pattern, from) matches Some(i) ==> from <= i && occurs_at(s, pattern, i),
    decreases s.len() + 1 - from,
{
    if !(from < 0 || from + pattern.len() > s.len()) && !occurs_at(s, pattern, from) {
        lemma_next_occurrence_bounds(s, pattern, from + 1);
    }
}

fn occurs_here(chars: &Vec<char>, pattern: &str, i: usize) -> (r: bool)
    requires
        i <= chars@.len(),
    ensures
        r == occurs_at(chars@, pattern@, i as int),
{
    let here = matches_at(chars.as_slice(), i, pattern);
    proof {
        if i + pattern@.len() <= chars@.len() {
            assert(chars@.skip(i as int).take(pattern@.len() as int) =~= chars@.subrange(i as int, i + pattern@.len()));
        }
    }
    here
}

fn find_from(chars: &Vec<char>, pattern: &str, from: usize) -> (r: Option<usize>)
    requires
        from <= chars@.len(),
    ensures
        match r {
            Some(i) => next_occurrence(chars@, pattern@, from as int) == Some(i as int),
            None => next_occurrence(chars@, pattern@, from as int) is None,
        },
{
    let mut i = from;
    while i < chars.len()
        invariant
            from <= i <= chars@.len(),
            next_occurrence(chars@, pattern@, from as int) == next_occurrence(chars@, pattern@, i as int),
        decreases chars@.len() - i,
    {
        if occurs_here(chars, pattern, i) {
            return Some(i);
        }
        i += 1;
    }
    if occurs_here(chars, pattern, i) {
        Some(i)
    } else {
        assert(next_occurrence(chars@, pattern@, i + 1) is None);
        None
    }
}

/// Puts the font's URL in place of the stylesheet's one font placeholder.
pub fn insert_font_url(sheet: &str, url: &str) -> (r: Option<String>)
    ensures
        match with_font_url(sheet@, url@) {
            Some(text) => r matches Some(s) && s@ == text,
            None => r is None,
        },
{
    let chars = chars_of(sheet);
    let n = chars.len();
    let placeholder = "__FIRA_CODE_URL__";
    proof {
        reveal_strlit("__FIRA_CODE_URL__");
        assert(placeholder@.len() == 17);
        assert(chars@ == sheet@);
    }
    let first = match find_from(&chars, placeholder, 0) {
        Some(i) => i,
        None => return None,
    };
    proof {
        lemma_next_occurrence_bounds(chars@, placeholder@, 0);
        let i = next_occurrence(chars@, placeholder@, 0)->Some_0;
        assert(occurs_at(chars@, placeholder@, i));
        assert(first as int == i);
        assert(first + 17 <= n);
        assert(font_placeholder() == placeholder@);
    }
    let after = first + 17;
    if find_from(&chars, placeholder, after).is_some() {
        return None;
    }
    let mut out = string_of(chars.as_slice(), 0, first);
    out.append(url);
    out.append(string_of(chars.as_slice(), after, chars.len()).as_str());
    assert(chars@.subrange(0, first as int) =~= sheet@.take(first as int));
    assert(chars@.subrange(after as int, chars@.len() as int) =~= sheet@.skip(after as int));
    Some(out)
}

} // verus!
