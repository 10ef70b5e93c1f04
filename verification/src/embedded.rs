//! The files the site is built from: Markdown content and fingerprinted static
//! assets, looked up by path.

use vstd::prelude::*;
use crate::text::{chars_of, ends_with, ends_with_word};
use crate::assets::{asset_fingerprint, content_hash, fingerprint_of, fingerprints_tell_paths_apart, fnv1a};

verus! {

broadcast use vstd::string::group_string_axioms;

/// A Markdown content file: its path below the site directory and its text.
pub struct ContentFile {
    pub path: String,
    pub source: String,
}

/// A static asset: its logical path, its fingerprinted path, the URL it is
/// served at, and its bytes.
pub struct StaticFile {
    pub path: String,
    pub fingerprinted: String,
    pub public_url: String,
    pub bytes: Vec<u8>,
}

/// The URL a fingerprinted path is served at: below `/static/`.
pub open spec fn static_url(fingerprinted: Seq<char>) -> Seq<char> {
    "/static/"@ + fingerprinted
}

/// A static file as the site serves it: its fingerprinted path is its path
/// with the hash of its bytes put in, and its URL is that path below
/// `/static/`.
pub open spec fn is_served_file(file: StaticFile) -> bool {
    &&& asset_fingerprint(file.path@, fnv1a(file.bytes@)) == Some(file.fingerprinted@)
    &&& file.public_url@ == static_url(file.fingerprinted@)
}

impl StaticFile {
    /// The static file at `path` (a relative path of `/`-separated names) with
    /// `bytes`, fingerprinted by their hash; none where the path has no file
    /// name.
    pub fn new(path: String, bytes: Vec<u8>) -> (r: Option<StaticFile>)
        ensures
            r is Some <==> asset_fingerprint(path@, fnv1a(bytes@)) is Some,
            r matches Some(file) ==> file.path@ == path@ && file.bytes@ == bytes@ && is_served_file(file),
    {
        let hash = content_hash(bytes.as_slice());
        match fingerprint_of(path.as_str(), hash) {
            Some(fingerprinted) => {
                let mut public_url = "/static/".to_owned();
                public_url.append(fingerprinted.as_str());
                proof {
                    reveal_strlit("/static/");
                }
                Some(StaticFile { path, fingerprinted, public_url, bytes })
            },
            None => None,
        }
    }
}

/// Every file of the site.
pub struct EmbeddedFiles {
    pub content: Vec<ContentFile>,
    pub statics: Vec<StaticFile>,
}

/// `i` is the first position in `keys` that holds `key`.
pub open spec fn is_first_index(keys: Seq<Seq<char>>, key: Seq<char>, i: int) -> bool {
    &&& 0 <= i < keys.len()
    &&& keys[i] == key
    &&& forall|j: int| 0 <= j < i ==> keys[j] != key
}

/// The first position in `keys` that holds `key`, if any does.
pub open spec fn first_index(keys: Seq<Seq<char>>, key: Seq<char>) -> Option<int> {
    if exists|i: int| is_first_index(keys, key, i) {
        Some(choose|i: int| is_first_index(keys, key, i))
    } else {
        None
    }
}

/// A position holding `key` that no earlier position holds is the first one.
pub proof fn lemma_first_index(keys: Seq<Seq<char>>, key: Seq<char>, i: int)
    requires
        is_first_index(keys, key, i),
    ensures
        first_index(keys, key) == Some(i),
{
    let k = choose|k: int| is_first_index(keys, key, k);
    assert(is_first_index(keys, key, k));
    if k < i {
        assert(keys[k] != key);
    } else if i < k {
        assert(keys[i] != key);
    }
}

/// No position holding `key` means there is no first one.
pub proof fn lemma_no_index(keys: Seq<Seq<char>>, key: Seq<char>)
    requires
        forall|j: int| 0 <= j < keys.len() ==> keys[j] != key,
    ensures
        first_index(keys, key) is None,
{
}

proof fn lemma_first_from(keys: Seq<Seq<char>>, key: Seq<char>, from: int, j: int)
    requires
        0 <= from <= j < keys.len(),
        keys[j] == key,
        forall|k: int| 0 <= k < from ==> keys[k] != key,
    ensures
        exists|i: int| is_first_index(keys, key, i),
    decreases j - from,
{
    if keys[from] == key {
        assert(is_first_index(keys, key, from));
    } else {
        lemma_first_from(keys, key, from + 1, j);
    }
}

/// A lookup finds an entry exactly when some entry has the key, and what it
/// finds has the key.
pub proof fn lookup_finds_present_keys(keys: Seq<Seq<char>>, key: Seq<char>)
    ensures
        first_index(keys, key) is Some <==> keys.contains(key),
        first_index(keys, key) matches Some(i) ==> 0 <= i < keys.len() && keys[i] == key,
{
    if keys.contains(key) {
        let j = choose|j: int| 0 <= j < keys.len() && keys[j] == key;
        lemma_first_from(keys, key, 0, j);
    }
    if first_index(keys, key) is Some {
        let i = choose|i: int| is_first_index(keys, key, i);
        assert(is_first_index(keys, key, i));
        assert(keys[i] == key);
    }
}

/// The paths of the content files, in order.
pub open spec fn content_paths(files: &EmbeddedFiles) -> Seq<Seq<char>> {
    files.content@.map_values(|f: ContentFile| f.path@)
}

/// The logical paths of the static files, in order.
pub open spec fn static_paths(files: &EmbeddedFiles) -> Seq<Seq<char>> {
    files.statics@.map_values(|f: StaticFile| f.path@)
}

/// The fingerprinted paths of the static files, in order.
pub open spec fn fingerprinted_paths(files: &EmbeddedFiles) -> Seq<Seq<char>> {
    files.statics@.map_values(|f: StaticFile| f.fingerprinted@)
}

/// Every static file is served as its fingerprint says.
pub open spec fn serves_fingerprinted(files: &EmbeddedFiles) -> bool {
    forall|i: int| 0 <= i < files.statics@.len() ==> is_served_file(#[trigger] files.statics@[i])
}

/// The URL that `asset_url` gives for an asset is `/static/` and the asset's
/// fingerprinted path, and `static_file` finds that path in the asset's own
/// entry: no other static file shares it, since a fingerprinted path tells
/// the path it was made from.
pub proof fn asset_urls_are_served(files: &EmbeddedFiles, path: Seq<char>, i: int)
    requires
        serves_fingerprinted(files),
        first_index(static_paths(files), path) == Some(i),
    ensures
        files.statics@[i].public_url@ == static_url(files.statics@[i].fingerprinted@),
        static_url(files.statics@[i].fingerprinted@).skip(8) == files.statics@[i].fingerprinted@,
        first_index(fingerprinted_paths(files), files.statics@[i].fingerprinted@) == Some(i),
{
    lookup_finds_present_keys(static_paths(files), path);
    let fp = files.statics@[i].fingerprinted@;
    let keys = fingerprinted_paths(files);
    assert(is_served_file(files.statics@[i]));
    reveal_strlit("/static/");
    assert(static_url(fp).skip(8) =~= fp);
    assert(keys[i] == fp);
    lookup_finds_present_keys(keys, fp);
    let j = first_index(keys, fp)->0;
    assert(is_first_index(keys, fp, j));
    if j > i {
        assert(keys[i] != fp);
    }
    if j < i {
        let other = files.statics@[j];
        assert(is_served_file(other));
        assert(other.fingerprinted@ == fp);
        fingerprints_tell_paths_apart(files.statics@[i].path@, fnv1a(files.statics@[i].bytes@),
            other.path@, fnv1a(other.bytes@));
        assert(is_first_index(static_paths(files), path, i));
        assert(static_paths(files)[j] == other.path@);
    }
}

/// `a` comes no later than `b` in `String`'s order: character by character, a
/// prefix first (comparing UTF-8 bytes orders as comparing characters does).
pub open spec fn path_le(a: Seq<char>, b: Seq<char>) -> bool
    decreases a.len(),
{
    if a.len() == 0 {
        true
    } else if b.len() == 0 {
        false
    } else if a[0] != b[0] {
        a[0] < b[0]
    } else {
        path_le(a.drop_first(), b.drop_first())
    }
}

/// Of two paths, one comes no later than the other.
pub proof fn lemma_path_le_total(a: Seq<char>, b: Seq<char>)
    ensures
        path_le(a, b) || path_le(b, a),
    decreases a.len(),
{
    if a.len() > 0 && b.len() > 0 {
        if a[0] == b[0] {
            lemma_path_le_total(a.drop_first(), b.drop_first());
        }
    }
}

/// The order of paths is transitive.
pub proof fn lemma_path_le_transitive(a: Seq<char>, b: Seq<char>, c: Seq<char>)
    requires
        path_le(a, b),
        path_le(b, c),
    ensures
        path_le(a, c),
    decreases a.len(),
{
    if a.len() > 0 && b.len() > 0 && c.len() > 0 && a[0] == b[0] && b[0] == c[0] {
        lemma_path_le_transitive(a.drop_first(), b.drop_first(), c.drop_first());
    }
}

/// Whether `a` comes no later than `b` in `String`'s order.
pub fn path_le_exec(a: &str, b: &str) -> (r: bool)
    ensures
        r == path_le(a@, b@),
{
    let x = chars_of(a);
    let y = chars_of(b);
    let mut i: usize = 0;
    assert(x@.skip(0) =~= x@);
    assert(y@.skip(0) =~= y@);
    while i < x.len() && i < y.len() && x[i] == y[i]
        invariant
            i <= x@.len(),
            i <= y@.len(),
            x@ == a@,
            y@ == b@,
            path_le(a@, b@) == path_le(x@.skip(i as int), y@.skip(i as int)),
        decreases x@.len() - i,
    {
        assert(x@.skip(i as int).drop_first() =~= x@.skip(i + 1));
        assert(y@.skip(i as int).drop_first() =~= y@.skip(i + 1));
        assert(x@.skip(i as int)[0] == x@[i as int]);
        assert(y@.skip(i as int)[0] == y@[i as int]);
        i += 1;
    }
    if i == x.len() {
        true
    } else if i == y.len() {
        false
    } else {
        assert(x@.skip(i as int)[0] == x@[i as int]);
        assert(y@.skip(i as int)[0] == y@[i as int]);
        x[i] < y[i]
    }
}

/// A Markdown file: its path ends in `.md`.
pub open spec fn is_markdown_file(path: Seq<char>) -> bool {
    ends_with(path, seq!['.', 'm', 'd'])
}

/// How many of `files` are Markdown files.
pub open spec fn markdown_count(files: Seq<ContentFile>) -> nat
    decreases files.len(),
{
    if files.len() == 0 {
        0
    } else {
        markdown_count(files.drop_last()) + if is_markdown_file(files.last().path@) {
            1nat
        } else {
            0nat
        }
    }
}

/// `table` holds the Markdown files of `files`, ordered by path, and `perm`
/// says where each stood in `files`: each once, and all of them.
pub open spec fn is_markdown_table(files: Seq<ContentFile>, table: Seq<ContentFile>, perm: Seq<int>) -> bool {
    &&& perm.len() == table.len()
    &&& table.len() == markdown_count(files)
    &&& forall|k: int| 0 <= k < perm.len() ==> 0 <= #[trigger] perm[k] < files.len()
    &&& forall|k: int| 0 <= k < perm.len() ==> #[trigger] table[k] == files[perm[k]]
    &&& forall|k: int, l: int| 0 <= k < l < perm.len() ==> perm[k] != perm[l]
    &&& forall|k: int| 0 <= k < table.len() ==> is_markdown_file(#[trigger] table[k].path@)
    &&& forall|k: int, l: int|
        0 <= k < l < table.len() ==> path_le(#[trigger] table[k].path@, #[trigger] table[l].path@)
}

fn path_insertion_point(sorted: &Vec<ContentFile>, path: &str) -> (p: usize)
    requires
        forall|k: int, l: int|
            0 <= k < l < sorted@.len() ==> path_le(#[trigger] sorted@[k].path@, #[trigger] sorted@[l].path@),
    ensures
        p <= sorted@.len(),
        forall|k: int| 0 <= k < p ==> path_le(#[trigger] sorted@[k].path@, path@),
        forall|k: int| p <= k < sorted@.len() ==> path_le(path@, #[trigger] sorted@[k].path@),
{
    let mut p: usize = 0;
    while p < sorted.len() && path_le_exec(sorted[p].path.as_str(), path)
        invariant
            p <= sorted@.len(),
            forall|k: int| 0 <= k < p ==> path_le(#[trigger] sorted@[k].path@, path@),
        decreases sorted@.len() - p,
    {
        p += 1;
    }
    if p < sorted.len() {
        proof {
            lemma_path_le_total(sorted@[p as int].path@, path@);
        }
        assert forall|k: int| p <= k < sorted@.len() implies path_le(path@, #[trigger] sorted@[k].path@) by {
            if k > p {
                lemma_path_le_transitive(path@, sorted@[p as int].path@, sorted@[k].path@);
            }
        }
    }
    p
}

/// The Markdown files among `files`, ordered by path.
pub fn markdown_table(files: Vec<ContentFile>) -> (table: Vec<ContentFile>)
    ensures
        exists|perm: Seq<int>| is_markdown_table(files@, table@, perm),
{
    let ghost input = files@;
    let mut table: Vec<ContentFile> = Vec::new();
    let ghost mut perm: Seq<int> = seq![];
    for file in it: files
        invariant
            input == it.seq(),
            is_markdown_table(input.take(it.index() as int), table@, perm),
            forall|k: int| 0 <= k < perm.len() ==> #[trigger] perm[k] < it.index(),
    {
        let ghost i = it.index() as int;
        let ghost old_table = table@;
        let ghost old_perm = perm;
        let ghost before = input.take(i);
        let ghost after = input.take(i + 1);
        proof {
            assert(after.drop_last() =~= before);
            assert(after.last() == input[i]);
            assert forall|k: int| 0 <= k < before.len() implies #[trigger] after[k] == before[k] by {}
            reveal_strlit(".md");
            assert(".md"@ =~= seq!['.', 'm', 'd']);
        }
        let path_chars = chars_of(file.path.as_str());
        if ends_with_word(&path_chars, ".md") {
            let p = path_insertion_point(&table, file.path.as_str());
            let ghost x = file;
            table.insert(p, file);
            proof {
                perm = old_perm.insert(p as int, i);
                assert(table@[p as int] == x);
                assert forall|k: int| 0 <= k < perm.len() implies #[trigger] table@[k] == after[perm[k]] by {
                    if k < p {
                        assert(table@[k] == old_table[k]);
                        assert(perm[k] == old_perm[k]);
                    } else if k > p {
                        assert(table@[k] == old_table[k - 1]);
                        assert(perm[k] == old_perm[k - 1]);
                    }
                }
                assert forall|k: int| 0 <= k < table@.len() implies is_markdown_file(#[trigger] table@[k].path@) by {
                    if k < p {
                        assert(table@[k] == old_table[k]);
                    } else if k > p {
                        assert(table@[k] == old_table[k - 1]);
                    }
                }
                assert forall|k: int, l: int| 0 <= k < l < table@.len() implies path_le(
                    #[trigger] table@[k].path@,
                    #[trigger] table@[l].path@,
                ) by {
                    if k < p && l < p {
                        assert(path_le(old_table[k].path@, old_table[l].path@));
                    } else if k < p && l > p {
                        assert(path_le(old_table[k].path@, old_table[l - 1].path@));
                    } else if k > p {
                        assert(path_le(old_table[k - 1].path@, old_table[l - 1].path@));
                    } else if k == p {
                        assert(table@[l] == old_table[l - 1]);
                    } else {
                        assert(table@[k] == old_table[k]);
                    }
                }
                assert forall|k: int, l: int| 0 <= k < l < perm.len() implies perm[k] != perm[l] by {
                    if k < p && l < p {
                    } else if k < p && l > p {
                        assert(old_perm[k] != old_perm[l - 1]);
                    } else if k > p {
                        assert(old_perm[k - 1] != old_perm[l - 1]);
                    } else if k == p {
                        assert(old_perm[l - 1] < i);
                    } else {
                        assert(old_perm[k] < i);
                    }
                }
                assert forall|k: int| 0 <= k < perm.len() implies #[trigger] perm[k] < i + 1 && 0 <= perm[k] by {
                    if k < p {
                        assert(perm[k] == old_perm[k]);
                    } else if k > p {
                        assert(perm[k] == old_perm[k - 1]);
                    }
                }
            }
        } else {
            proof {
                assert forall|k: int| 0 <= k < perm.len() implies #[trigger] table@[k] == after[perm[k]] by {
                    assert(after[perm[k]] == before[perm[k]]);
                }
            }
        }
    }
    assert(input.take(input.len() as int) =~= input);
    table
}

/// `output` is `input` ordered by path, and `perm` says where each path stood
/// in `input`: each once.
pub open spec fn is_path_order(input: Seq<String>, output: Seq<String>, perm: Seq<int>) -> bool {
    &&& perm.len() == input.len()
    &&& output.len() == input.len()
    &&& forall|k: int| 0 <= k < perm.len() ==> 0 <= #[trigger] perm[k] < input.len()
    &&& forall|k: int| 0 <= k < perm.len() ==> #[trigger] output[k] == input[perm[k]]
    &&& forall|k: int, l: int| 0 <= k < l < perm.len() ==> perm[k] != perm[l]
    &&& forall|k: int, l: int|
        0 <= k < l < output.len() ==> path_le(#[trigger] output[k]@, #[trigger] output[l]@)
}

fn string_insertion_point(sorted: &Vec<String>, path: &str) -> (p: usize)
    requires
        forall|k: int, l: int| 0 <= k < l < sorted@.len() ==> path_le(#[trigger] sorted@[k]@, #[trigger] sorted@[l]@),
    ensures
        p <= sorted@.len(),
        forall|k: int| 0 <= k < p ==> path_le(#[trigger] sorted@[k]@, path@),
        forall|k: int| p <= k < sorted@.len() ==> path_le(path@, #[trigger] sorted@[k]@),
{
    let mut p: usize = 0;
    while p < sorted.len() && path_le_exec(sorted[p].as_str(), path)
        invariant
            p <= sorted@.len(),
            forall|k: int| 0 <= k < p ==> path_le(#[trigger] sorted@[k]@, path@),
        decreases sorted@.len() - p,
    {
        p += 1;
    }
    if p < sorted.len() {
        proof {
            lemma_path_le_total(sorted@[p as int]@, path@);
        }
        assert forall|k: int| p <= k < sorted@.len() implies path_le(path@, #[trigger] sorted@[k]@) by {
            if k > p {
                lemma_path_le_transitive(path@, sorted@[p as int]@, sorted@[k]@);
            }
        }
    }
    p
}

/// The paths ordered as `String`s order.
pub fn sort_paths(paths: Vec<String>) -> (sorted: Vec<String>)
    ensures
        exists|perm: Seq<int>| is_path_order(paths@, sorted@, perm),
{
    let ghost input = paths@;
    let mut sorted: Vec<String> = Vec::new();
    let ghost mut perm: Seq<int> = seq![];
    for path in it: paths
        invariant
            input == it.seq(),
            is_path_order(input.take(it.index() as int), sorted@, perm),
            forall|k: int| 0 <= k < perm.len() ==> #[trigger] perm[k] < it.index(),
    {
        let ghost i = it.index() as int;
        let ghost old_sorted = sorted@;
        let ghost old_perm = perm;
        let ghost before = input.take(i);
        let ghost after = input.take(i + 1);
        let p = string_insertion_point(&sorted, path.as_str());
        let ghost x = path;
        sorted.insert(p, path);
        proof {
            perm = old_perm.insert(p as int, i);
            assert forall|k: int| 0 <= k < before.len() implies #[trigger] after[k] == before[k] by {}
            assert(after[i] == input[i]);
            assert(sorted@[p as int] == x);
            assert forall|k: int| 0 <= k < perm.len() implies #[trigger] sorted@[k] == after[perm[k]] by {
                if k < p {
                    assert(sorted@[k] == old_sorted[k]);
                    assert(perm[k] == old_perm[k]);
                } else if k > p {
                    assert(sorted@[k] == old_sorted[k - 1]);
                    assert(perm[k] == old_perm[k - 1]);
                }
            }
            assert forall|k: int, l: int| 0 <= k < l < sorted@.len() implies path_le(
                #[trigger] sorted@[k]@,
                #[trigger] sorted@[l]@,
            ) by {
                if k < p && l < p {
                    assert(path_le(old_sorted[k]@, old_sorted[l]@));
                } else if k < p && l > p {
                    assert(path_le(old_sorted[k]@, old_sorted[l - 1]@));
                } else if k > p {
                    assert(path_le(old_sorted[k - 1]@, old_sorted[l - 1]@));
                } else if k == p {
                    assert(sorted@[l] == old_sorted[l - 1]);
                } else {
                    assert(sorted@[k] == old_sorted[k]);
                }
            }
            assert forall|k: int, l: int| 0 <= k < l < perm.len() implies perm[k] != perm[l] by {
                if k < p && l < p {
                } else if k < p && l > p {
                    assert(old_perm[k] != old_perm[l - 1]);
                } else if k > p {
                    assert(old_perm[k - 1] != old_perm[l - 1]);
                } else if k == p {
                    assert(old_perm[l - 1] < i);
                } else {
                    assert(old_perm[k] < i);
                }
            }
            assert forall|k: int| 0 <= k < perm.len() implies #[trigger] perm[k] < i + 1 && 0 <= perm[k] by {
                if k < p {
                    assert(perm[k] == old_perm[k]);
                } else if k > p {
                    assert(perm[k] == old_perm[k - 1]);
                }
            }
        }
    }
    assert(input.take(input.len() as int) =~= input);
    sorted
}

impl EmbeddedFiles {
    /// The site's files: the Markdown files among `content`, ordered by path,
    /// and a static file for each path and bytes of `statics`, in order; none
    /// when a static path has no file name.
    pub fn new(content: Vec<ContentFile>, statics: Vec<(String, Vec<u8>)>) -> (r: Option<EmbeddedFiles>)
        ensures
            r is None <==> exists|k: int|
                0 <= k < statics@.len() && #[trigger] asset_fingerprint(statics@[k].0@, fnv1a(statics@[k].1@)) is None,
            r matches Some(files) ==> {
                &&& exists|perm: Seq<int>| is_markdown_table(content@, files.content@, perm)
                &&& files.statics@.len() == statics@.len()
                &&& forall|k: int|
                    0 <= k < statics@.len() ==> #[trigger] files.statics@[k].path@ == statics@[k].0@
                        && files.statics@[k].bytes@ == statics@[k].1@
                &&& serves_fingerprinted(&files)
            },
    {
        let ghost input = statics@;
        let mut served: Vec<StaticFile> = Vec::new();
        for item in it: statics
            invariant
                input == it.seq(),
                served@.len() == it.index(),
                forall|k: int| 0 <= k < it.index() ==> asset_fingerprint(#[trigger] input[k].0@, fnv1a(input[k].1@)) is Some,
                forall|k: int|
                    0 <= k < served@.len() ==> #[trigger] served@[k].path@ == input[k].0@
                        && served@[k].bytes@ == input[k].1@ && is_served_file(served@[k]),
        {
            let (path, bytes) = item;
            match StaticFile::new(path, bytes) {
                Some(file) => served.push(file),
                None => return None,
            }
        }
        let ghost given = content@;
        let table = markdown_table(content);
        let ghost perm = choose|perm: Seq<int>| is_markdown_table(given, table@, perm);
        let files = EmbeddedFiles { content: table, statics: served };
        assert(is_markdown_table(given, files.content@, perm));
        assert(files.statics@.len() == input.len());
        assert forall|k: int| 0 <= k < statics@.len() implies #[trigger] files.statics@[k].path@ == statics@[k].0@
            && files.statics@[k].bytes@ == statics@[k].1@ by {
            assert(files.statics@[k] == served@[k]);
        }
        assert(serves_fingerprinted(&files)) by {
            assert forall|i: int| 0 <= i < files.statics@.len() implies is_served_file(#[trigger] files.statics@[i]) by {
                assert(files.statics@[i] == served@[i]);
            }
        }
        Some(files)
    }
}

/// The text of the first content file at `path`.
pub open spec fn content_text(files: &EmbeddedFiles, path: Seq<char>) -> Option<Seq<char>> {
    match first_index(content_paths(files), path) {
        Some(i) => Some(files.content@[i].source@),
        None => None,
    }
}

/// The position of the first content file at `path`.
pub(crate) fn content_position(files: &EmbeddedFiles, path: &str) -> (r: Option<usize>)
    ensures
        match r {
            Some(i) => first_index(content_paths(files), path@) == Some(i as int)
                && i < files.content@.len(),
            None => first_index(content_paths(files), path@) is None,
        },
{
    let key = path.to_owned();
    let ghost keys = content_paths(files);
    let mut i: usize = 0;
    while i < files.content.len()
        invariant
            key@ == path@,
            keys == content_paths(files),
            i <= files.content@.len(),
            forall|j: int| 0 <= j < i ==> keys[j] != key@,
        decreases files.content@.len() - i,
    {
        if files.content[i].path == key {
            proof {
                lemma_first_index(keys, key@, i as int);
            }
            return Some(i);
        }
        i += 1;
    }
    proof {
        lemma_no_index(keys, key@);
    }
    None
}

/// The text of the content file at `path`.
pub fn content<'a>(files: &'a EmbeddedFiles, path: &str) -> (r: Option<&'a str>)
    ensures
        match r {
            Some(source) => content_text(files, path@) == Some(source@),
            None => content_text(files, path@) is None,
        },
{
    match content_position(files, path) {
        Some(i) => Some(files.content[i].source.as_str()),
        None => None,
    }
}

/// All content files, in order.
pub fn content_files(files: &EmbeddedFiles) -> (r: &[ContentFile])
    ensures
        r@ == files.content@,
{
    files.content.as_slice()
}

/// The URL of the static asset whose logical path is `path`.
pub fn asset_url<'a>(files: &'a EmbeddedFiles, path: &str) -> (r: Option<&'a str>)
    ensures
        match first_index(static_paths(files), path@) {
            Some(i) => r matches Some(url) && url@ == files.statics@[i].public_url@,
            None => r is None,
        },
{
    let key = path.to_owned();
    let ghost keys = static_paths(files);
    let mut i: usize = 0;
    while i < files.statics.len()
        invariant
            key@ == path@,
            keys == static_paths(files),
            i <= files.statics@.len(),
            forall|j: int| 0 <= j < i ==> keys[j] != key@,
        decreases files.statics@.len() - i,
    {
        if files.statics[i].path == key {
            proof {
                lemma_first_index(keys, key@, i as int);
            }
            return Some(files.statics[i].public_url.as_str());
        }
        i += 1;
    }
    proof {
        lemma_no_index(keys, key@);
    }
    None
}

/// The bytes of the static asset whose fingerprinted path is `path`.
pub fn static_file<'a>(files: &'a EmbeddedFiles, path: &str) -> (r: Option<&'a [u8]>)
    ensures
        match first_index(fingerprinted_paths(files), path@) {
            Some(i) => r matches Some(bytes) && bytes@ == files.statics@[i].bytes@,
            None => r is None,
        },
{
    let key = path.to_owned();
    let ghost keys = fingerprinted_paths(files);
    let mut i: usize = 0;
    while i < files.statics.len()
        invariant
            key@ == path@,
            keys == fingerprinted_paths(files),
            i <= files.statics@.len(),
            forall|j: int| 0 <= j < i ==> keys[j] != key@,
        decreases files.statics@.len() - i,
    {
        if files.statics[i].fingerprinted == key {
            proof {
                lemma_first_index(keys, key@, i as int);
            }
            return Some(files.statics[i].bytes.as_slice());
        }
        i += 1;
    }
    proof {
        lemma_no_index(keys, key@);
    }
    None
}

} // verus!
