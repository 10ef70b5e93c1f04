//! What each request is answered with, decided from the site and the request.
//! The HTTP server, the HTML templates and the headers stay outside.

use vstd::prelude::*;
use crate::embedded::{asset_urls_are_served, serves_fingerprinted, static_url, first_index, fingerprinted_paths, lookup_finds_present_keys, static_file, static_paths,
    EmbeddedFiles};
use crate::site::{Post, Site};
use crate::text::{char_views, chars_of, eq_ignore_ascii_case, pieces, range_eq_ignore_ascii_case,
    split_chars, starts_with, trim, trimmed, string_of};

verus! {

broadcast use vstd::string::group_string_axioms;

/// The first parameter among `params[from..]` that starts with `q=` once
/// trimmed, without the `q=`.
pub open spec fn quality_param(params: Seq<Seq<char>>, from: int) -> Option<Seq<char>>
    decreases params.len() - from,
{
    if from < 0 || from >= params.len() {
        None
    } else {
        let param = trim(params[from]);
        if starts_with(param, seq!['q', '=']) {
            Some(param.skip(2))
        } else {
            quality_param(params, from + 1)
        }
    }
}

/// For a media range naming `text/markdown` (in any ASCII case), its quality
/// parameter if it has one.
pub open spec fn range_quality(range: Seq<char>) -> Option<Option<Seq<char>>> {
    let parts = pieces(range, ';');
    if eq_ignore_ascii_case(trim(parts[0]), "text/markdown"@) {
        Some(quality_param(parts, 1))
    } else {
        None
    }
}

/// The qualities of the Markdown ranges among `ranges`, in order.
pub open spec fn ranges_qualities(ranges: Seq<Seq<char>>) -> Seq<Option<Seq<char>>>
    decreases ranges.len(),
{
    if ranges.len() == 0 {
        seq![]
    } else {
        ranges_qualities(ranges.drop_last()) + match range_quality(ranges.last()) {
            Some(q) => seq![q],
            None => seq![],
        }
    }
}

/// The qualities of the Markdown ranges of `Accept` header values, each value
/// a comma-separated list of media ranges.
pub open spec fn accept_qualities(values: Seq<Seq<char>>) -> Seq<Option<Seq<char>>>
    decreases values.len(),
{
    if values.len() == 0 {
        seq![]
    } else {
        accept_qualities(values.drop_last()) + ranges_qualities(pieces(values.last(), ','))
    }
}

/// The views of optional strings.
pub open spec fn option_views(v: Seq<Option<String>>) -> Seq<Option<Seq<char>>> {
    v.map_values(
        |o: Option<String>|
            match o {
                Some(s) => Some(s@),
                None => None,
            },
    )
}

/// The views of strings.
pub open spec fn string_views(v: Seq<String>) -> Seq<Seq<char>> {
    v.map_values(|s: String| s@)
}

fn quality_of(parts: &Vec<Vec<char>>) -> (q: Option<String>)
    ensures
        match quality_param(char_views(parts@), 1) {
            Some(p) => q matches Some(s) && s@ == p,
            None => q is None,
        },
{
    let mut k: usize = 1;
    while k < parts.len()
        invariant
            1 <= k,
            quality_param(char_views(parts@), 1) == quality_param(char_views(parts@), k as int),
        decreases parts@.len() - k,
    {
        let piece = &parts[k];
        let param = trimmed(piece.as_slice(), 0, piece.len());
        proof {
            assert(piece@.subrange(0, piece@.len() as int) =~= piece@);
            assert(char_views(parts@)[k as int] == piece@);
        }
        if param.len() >= 2 && param[0] == 'q' && param[1] == '=' {
            proof {
                assert(param@.take(2) =~= seq!['q', '=']);
            }
            return Some(string_of(param.as_slice(), 2, param.len()));
        }
        proof {
            if starts_with(param@, seq!['q', '=']) {
                assert(param@[0] == seq!['q', '='][0]);
                assert(param@[1] == seq!['q', '='][1]);
            }
        }
        k += 1;
    }
    None
}

fn range_quality_of(range: &Vec<char>) -> (r: Option<Option<String>>)
    ensures
        match range_quality(range@) {
            Some(Some(p)) => r matches Some(Some(s)) && s@ == p,
            Some(None) => r matches Some(None),
            None => r is None,
        },
{
    let parts = split_chars(range, ';');
    let first = trimmed(parts[0].as_slice(), 0, parts[0].len());
    proof {
        assert(parts[0]@.subrange(0, parts[0]@.len() as int) =~= parts[0]@);
        assert(char_views(parts@)[0] == parts@[0]@);
        assert(first@.subrange(0, first@.len() as int) =~= first@);
    }
    if range_eq_ignore_ascii_case(first.as_slice(), 0, first.len(), "text/markdown") {
        Some(quality_of(&parts))
    } else {
        None
    }
}

fn push_option_string(out: &mut Vec<Option<String>>, value: Option<String>)
    ensures
        option_views(final(out)@) == option_views(old(out)@).push(
            match value {
                Some(s) => Some(s@),
                None => None,
            },
        ),
{
    out.push(value);
    assert(option_views(out@) =~= option_views(old(out)@).push(
        match value {
            Some(s) => Some(s@),
            None => None,
        },
    ));
}

/// For every media range of the `Accept` header values that names
/// `text/markdown`, in order: its quality parameter (what follows `q=`), or
/// none when it has none. Whether such a quality is above zero is a
/// floating-point question that the caller answers.
pub fn markdown_qualities(values: &Vec<String>) -> (qualities: Vec<Option<String>>)
    ensures
        option_views(qualities@) == accept_qualities(string_views(values@)),
{
    let mut qualities: Vec<Option<String>> = Vec::new();
    let mut i: usize = 0;
    while i < values.len()
        invariant
            i <= values@.len(),
            option_views(qualities@) == accept_qualities(string_views(values@.take(i as int))),
        decreases values@.len() - i,
    {
        let ghost start = option_views(qualities@);
        let chars = chars_of(values[i].as_str());
        let ranges = split_chars(&chars, ',');
        let mut j: usize = 0;
        while j < ranges.len()
            invariant
                j <= ranges@.len(),
                option_views(qualities@) == start + ranges_qualities(char_views(ranges@).take(j as int)),
            decreases ranges@.len() - j,
        {
            match range_quality_of(&ranges[j]) {
                Some(q) => push_option_string(&mut qualities, q),
                None => {},
            }
            proof {
                let taken = char_views(ranges@).take(j + 1);
                assert(taken.drop_last() =~= char_views(ranges@).take(j as int));
                assert(taken.last() == ranges@[j as int]@);
                assert(option_views(qualities@) =~= start + ranges_qualities(taken));
            }
            j += 1;
        }
        proof {
            assert(char_views(ranges@).take(ranges@.len() as int) =~= char_views(ranges@));
            let taken = string_views(values@.take(i + 1));
            assert(taken.drop_last() =~= string_views(values@.take(i as int)));
            assert(taken.last() == values@[i as int]@);
        }
        i += 1;
    }
    assert(values@.take(values@.len() as int) =~= values@);
    qualities
}

/// What a page request is answered with.
pub enum Page<'a> {
    /// The Markdown source, as it is.
    Markdown(&'a str),
    /// The home page, rendered.
    Home,
    /// A post, rendered.
    Post(&'a Post),
    /// The not-found page.
    NotFound,
}

/// The home page: its Markdown source when the request asks for Markdown.
pub fn index<'a>(site: &'a Site, wants_markdown: bool) -> (page: Page<'a>)
    ensures
        wants_markdown ==> (page matches Page::Markdown(source) && source@ == site.home.source@),
        !wants_markdown ==> page is Home,
{
    if wants_markdown {
        Page::Markdown(site.home.source.as_str())
    } else {
        Page::Home
    }
}

/// The slugs of the posts, in order.
pub open spec fn slugs(posts: Seq<Post>) -> Seq<Seq<char>> {
    posts.map_values(|p: Post| p.slug@)
}

/// The post with the slug: its Markdown source when the request asks for
/// Markdown, the not-found page when no post has the slug.
pub fn post<'a>(site: &'a Site, slug: &str, wants_markdown: bool) -> (page: Page<'a>)
    ensures
        match first_index(slugs(site.posts@), slug@) {
            Some(i) => if wants_markdown {
                page matches Page::Markdown(source) && source@ == site.posts@[i].source@
            } else {
                page matches Page::Post(p) && *p == site.posts@[i]
            },
            None => page is NotFound,
        },
{
    let key = slug.to_owned();
    let ghost keys = slugs(site.posts@);
    let mut i: usize = 0;
    while i < site.posts.len()
        invariant
            key@ == slug@,
            keys == slugs(site.posts@),
            i <= site.posts@.len(),
            forall|j: int| 0 <= j < i ==> keys[j] != key@,
        decreases site.posts@.len() - i,
    {
        if site.posts[i].slug == key {
            proof {
                crate::embedded::lemma_first_index(keys, key@, i as int);
            }
            let found = &site.posts[i];
            if wants_markdown {
                return Page::Markdown(found.source.as_str());
            } else {
                return Page::Post(found);
            }
        }
        i += 1;
    }
    proof {
        crate::embedded::lemma_no_index(keys, key@);
    }
    Page::NotFound
}

/// Every post of the site has a page: looking up its slug finds a post with
/// that slug.
pub proof fn every_post_has_a_page(site: &Site, k: int)
    requires
        0 <= k < site.posts@.len(),
    ensures
        first_index(slugs(site.posts@), site.posts@[k].slug@) matches Some(i)
            && site.posts@[i].slug@ == site.posts@[k].slug@,
{
    let keys = slugs(site.posts@);
    assert(keys[k] == site.posts@[k].slug@);
    lookup_finds_present_keys(keys, site.posts@[k].slug@);
}

/// The media type `mime_guess` gives a path: the first it guesses from the
/// extension, `application/octet-stream` when it has none.
pub uninterp spec fn guessed_content_type(path: Seq<char>) -> Seq<char>;

/// Guesses a media type with `mime_guess::from_path(..).first_or_octet_stream()`.
/// The claim: the result is the named guess for the path.
#[verifier::external_body]
fn guess_content_type(path: &str) -> (content_type: String)
    ensures
        content_type@ == guessed_content_type(path@),
{
    let guess = mime_guess::from_path(path).first_or_octet_stream();
    let text: &str = guess.as_ref();
    text.to_owned()
}

/// A static asset to send.
pub struct Asset<'a> {
    pub content_type: String,
    pub bytes: &'a [u8],
}

/// The static asset at a fingerprinted path, with the media type its path
/// suggests; none when no asset has the path.
pub fn asset<'a>(files: &'a EmbeddedFiles, path: &str) -> (r: Option<Asset<'a>>)
    ensures
        match first_index(fingerprinted_paths(files), path@) {
            Some(i) => r matches Some(a) && a.bytes@ == files.statics@[i].bytes@
                && a.content_type@ == guessed_content_type(path@),
            None => r is None,
        },
{
    match static_file(files, path) {
        Some(bytes) => Some(Asset { content_type: guess_content_type(path), bytes }),
        None => None,
    }
}

/// The URL of a static asset that the site is known to have; where every
/// static file is served as its fingerprint says, it is `/static/` and the
/// fingerprinted path that `static_file` finds this asset at.
pub fn asset_url<'a>(files: &'a EmbeddedFiles, path: &str) -> (url: &'a str)
    requires
        first_index(static_paths(files), path@) is Some,
    ensures
        url@ == files.statics@[first_index(static_paths(files), path@)->Some_0].public_url@,
        serves_fingerprinted(files) ==> ({
            let i = first_index(static_paths(files), path@)->Some_0;
            &&& url@ == static_url(files.statics@[i].fingerprinted@)
            &&& first_index(fingerprinted_paths(files), url@.skip(8)) == Some(i)
        }),
{
    proof {
        if serves_fingerprinted(files) {
            asset_urls_are_served(files, path@, first_index(static_paths(files), path@)->Some_0);
        }
    }
    match crate::embedded::asset_url(files, path) {
        Some(url) => url,
        None => {
            assert(false);
            ""
        },
    }
}

} // verus!
