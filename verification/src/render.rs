//! Loading the site: the home page and the posts, from the content files and
//! what their frontmatter parsed to.

use vstd::prelude::*;
use vstd::string::StringSliceAdditionalSpecFns;
use vstd::utf8::encode_utf8;
use crate::dates::{long_date_text, slug_date, PostDate};
pub use crate::dates::post_date;
use crate::embedded::{content_paths, content_position, content_text, first_index, EmbeddedFiles};
pub use crate::error::SiteError;
use crate::frontmatter::split;
pub use crate::frontmatter::split_frontmatter;
pub use crate::markdown::markdown_to_html;
use crate::markdown::rendered_markdown;
pub use crate::site::{HomeMeta, HomePage, Post, PostMeta, SearchItem, Site};
use crate::feed::{rss_feed, sitemap};
pub use crate::feed::{build_rss_feed, build_sitemap};
pub use crate::escape::{escape_html, escape_xml};
use crate::order::{is_newest_first, post_rank, sort_newest_first};
use crate::dates::date_rank;
use crate::text::{chars_of, ends_with, ends_with_word, matches_at, starts_with, string_of};

verus! {

broadcast use vstd::string::group_string_axioms;

/// What parsing one content file's frontmatter as JSON gave, read as the home
/// page's frontmatter and as a post's; an error holds the parser's message.
pub struct ParsedFrontmatter {
    pub home: Result<HomeMeta, String>,
    pub post: Result<PostMeta, String>,
}

fn copy_strings(strings: &Vec<String>) -> (copy: Vec<String>)
    ensures
        copy@ == strings@,
{
    let mut copy: Vec<String> = Vec::new();
    let mut i: usize = 0;
    while i < strings.len()
        invariant
            i <= strings@.len(),
            copy@ == strings@.take(i as int),
        decreases strings@.len() - i,
    {
        copy.push(strings[i].clone());
        assert(copy@ =~= strings@.take(i + 1));
        i += 1;
    }
    assert(strings@.take(strings@.len() as int) =~= strings@);
    copy
}

/// Two frontmatters hold the same title, description and tags.
pub open spec fn same_meta(a: PostMeta, b: PostMeta) -> bool {
    &&& a.title == b.title
    &&& a.description == b.description
    &&& a.tags@ == b.tags@
}

impl Clone for PostMeta {
    fn clone(&self) -> (copy: Self)
        ensures
            same_meta(copy, *self),
    {
        let description = match &self.description {
            Some(text) => Some(text.clone()),
            None => None,
        };
        PostMeta { title: self.title.clone(), description, tags: copy_strings(&self.tags) }
    }
}

/// A post's content file: below `posts/` and ending in `.md`.
pub open spec fn is_post_file(path: Seq<char>) -> bool {
    starts_with(path, seq!['p', 'o', 's', 't', 's', '/']) && ends_with(path, seq!['.', 'm', 'd'])
}

/// Whether `path` names a post's content file.
pub fn is_post_path(path: &str) -> (r: bool)
    ensures
        r == is_post_file(path@),
{
    let chars = chars_of(path);
    let r = matches_at(&chars, 0, "posts/") && ends_with_word(&chars, ".md");
    proof {
        reveal_strlit("posts/");
        reveal_strlit(".md");
        assert("posts/"@ =~= seq!['p', 'o', 's', 't', 's', '/']);
        assert(".md"@ =~= seq!['.', 'm', 'd']);
        assert(chars@.skip(0) =~= chars@);
    }
    r
}

/// The message when no content file has the path.
pub open spec fn missing_content_message(path: Seq<char>) -> Seq<char> {
    "missing embedded content: "@ + path
}

/// The text of the content file at `path`, or an error naming the path.
pub fn embedded_content<'a>(files: &'a EmbeddedFiles, path: &str) -> (r: Result<&'a str, SiteError>)
    ensures
        match content_text(files, path@) {
            Some(text) => r matches Ok(source) && source@ == text,
            None => r matches Err(e) && e@ == missing_content_message(path@),
        },
{
    match content_position(files, path) {
        Some(i) => Ok(files.content[i].source.as_str()),
        None => Err(SiteError::with_prefix("missing embedded content: ", path)),
    }
}

/// Where the last segment of a path starts: just after its last `/`, or at 0.
pub open spec fn segment_start(path: Seq<char>) -> int
    decreases path.len(),
{
    if path.len() == 0 {
        0
    } else if path.last() == '/' {
        path.len() as int
    } else {
        segment_start(path.drop_last())
    }
}

/// The slug of a post path: its last segment without `.md`, if it ends so.
pub open spec fn slug_of(path: Seq<char>) -> Option<Seq<char>> {
    let name = path.skip(segment_start(path));
    if ends_with(name, seq!['.', 'm', 'd']) {
        Some(name.take(name.len() - 3))
    } else {
        None
    }
}

/// What a post is made of before its Markdown is rendered.
pub struct PostParts {
    pub slug: Seq<char>,
    pub meta: PostMeta,
    pub date: (int, int, int),
    pub source: Seq<char>,
    pub markdown: Seq<char>,
}

/// `message` behind `prefix` and `: `.
pub open spec fn prefixed(prefix: Seq<char>, message: Seq<char>) -> Seq<char> {
    prefix + ": "@ + message
}

/// The message for frontmatter that did not parse.
pub open spec fn invalid_frontmatter_message(path: Seq<char>, message: Seq<char>) -> Seq<char> {
    prefixed("invalid frontmatter in "@ + path, message)
}

/// How loading the post at `path` goes: its parts, or the error's message.
pub open spec fn post_load(files: &EmbeddedFiles, parsed: Seq<ParsedFrontmatter>, path: Seq<char>) -> Result<PostParts, Seq<char>> {
    match first_index(content_paths(files), path) {
        None => Err(missing_content_message(path)),
        Some(i) => {
            let source = files.content@[i].source@;
            match split(source) {
                Err(e) => Err(prefixed(path, e)),
                Ok((_, markdown)) => match parsed[i].post {
                    Err(e) => Err(invalid_frontmatter_message(path, e@)),
                    Ok(meta) => match slug_of(path) {
                        None => Err("invalid post path: "@ + path),
                        Some(slug) => match slug_date(encode_utf8(slug)) {
                            Err(e) => Err(prefixed(path, e)),
                            Ok(date) => Ok(PostParts { slug, meta, date, source, markdown }),
                        },
                    },
                },
            }
        },
    }
}

/// `post` is made of `parts`, its date label written as `%B %e, %Y` and its
/// body the HTML of its Markdown.
pub open spec fn post_has_parts(post: Post, parts: PostParts) -> bool {
    &&& post.slug@ == parts.slug
    &&& same_meta(post.meta, parts.meta)
    &&& post.date@ == parts.date
    &&& post.source@ == parts.source
    &&& post.date_label@ == long_date_text(parts.date.0, parts.date.1, parts.date.2)
    &&& post.body_html@ == rendered_markdown(parts.markdown)
}

/// A post before its Markdown is rendered.
struct PostHead {
    slug: String,
    meta: PostMeta,
    date: PostDate,
    source: String,
    markdown: String,
}

spec fn head_has_parts(head: PostHead, parts: PostParts) -> bool {
    &&& head.slug@ == parts.slug
    &&& same_meta(head.meta, parts.meta)
    &&& head.date@ == parts.date
    &&& head.source@ == parts.source
    &&& head.markdown@ == parts.markdown
}

fn prefixed_error(prefix: &str, error: &SiteError) -> (e: SiteError)
    ensures
        e@ == prefixed(prefix@, error@),
{
    let mut text = prefix.to_owned();
    text.append(": ");
    SiteError::with_prefix(text.as_str(), error.message())
}

fn slug_from_path(path: &str) -> (r: Option<String>)
    ensures
        match slug_of(path@) {
            Some(slug) => r matches Some(s) && s@ == slug,
            None => r is None,
        },
{
    let chars = chars_of(path);
    let mut start = chars.len();
    assert(chars@.take(start as int) =~= chars@);
    while start > 0 && chars[start - 1] != '/'
        invariant
            start <= chars@.len(),
            segment_start(path@) == segment_start(chars@.take(start as int)),
            chars@ == path@,
        decreases start,
    {
        assert(chars@.take(start as int).drop_last() =~= chars@.take(start - 1));
        start -= 1;
    }
    assert(chars@.take(chars@.len() as int) =~= chars@);
    assert(segment_start(path@) == start);
    let name = string_of(&chars, start, chars.len());
    let name_chars = chars_of(name.as_str());
    proof {
        reveal_strlit(".md");
        assert(".md"@ =~= seq!['.', 'm', 'd']);
        assert(name_chars@ =~= path@.skip(start as int));
    }
    if ends_with_word(&name_chars, ".md") {
        Some(string_of(&name_chars, 0, name_chars.len() - 3))
    } else {
        None
    }
}

fn post_head(files: &EmbeddedFiles, parsed: &Vec<ParsedFrontmatter>, path: &str) -> (r: Result<PostHead, SiteError>)
    requires
        parsed@.len() == files.content@.len(),
    ensures
        match post_load(files, parsed@, path@) {
            Ok(parts) => r matches Ok(head) && head_has_parts(head, parts),
            Err(message) => r matches Err(e) && e@ == message,
        },
{
    let i = match content_position(files, path) {
        Some(i) => i,
        None => return Err(SiteError::with_prefix("missing embedded content: ", path)),
    };
    let source = files.content[i].source.as_str();
    let markdown = match split_frontmatter(source) {
        Ok((_, markdown)) => markdown,
        Err(e) => return Err(prefixed_error(path, &e)),
    };
    let meta = match &parsed[i].post {
        Ok(meta) => meta.clone(),
        Err(message) => {
            let mut prefix = "invalid frontmatter in ".to_owned();
            prefix.append(path);
            let mut text = prefix.clone();
            text.append(": ");
            text.append(message.as_str());
            return Err(SiteError::new(text));
        },
    };
    let slug = match slug_from_path(path) {
        Some(slug) => slug,
        None => return Err(SiteError::with_prefix("invalid post path: ", path)),
    };
    let date = match post_date(slug.as_str()) {
        Ok(date) => date,
        Err(e) => return Err(prefixed_error(path, &e)),
    };
    Ok(PostHead { slug, meta, date, source: source.to_owned(), markdown })
}

/// Loads the post whose content file is at `path`.
pub fn load_post(files: &EmbeddedFiles, parsed: &Vec<ParsedFrontmatter>, path: &str) -> (r: Result<Post, SiteError>)
    requires
        parsed@.len() == files.content@.len(),
    ensures
        match post_load(files, parsed@, path@) {
            Ok(parts) => r matches Ok(post) && post_has_parts(post, parts),
            Err(message) => r matches Err(e) && e@ == message,
        },
{
    let head = post_head(files, parsed, path)?;
    let date_label = head.date.format("%B %e, %Y");
    let body_html = markdown_to_html(head.markdown.as_str());
    Ok(Post {
        slug: head.slug,
        meta: head.meta,
        date: head.date,
        source: head.source,
        body_html,
        date_label,
    })
}

/// How loading the posts among the first `count` content files goes, in the
/// order of the files: the parts of each post, or the first error.
pub open spec fn loaded_posts(files: &EmbeddedFiles, parsed: Seq<ParsedFrontmatter>, count: int) -> Result<Seq<PostParts>, Seq<char>>
    decreases count,
{
    if count <= 0 {
        Ok(seq![])
    } else {
        match loaded_posts(files, parsed, count - 1) {
            Err(e) => Err(e),
            Ok(posts) => {
                let path = files.content@[count - 1].path@;
                if is_post_file(path) {
                    match post_load(files, parsed, path) {
                        Ok(post) => Ok(posts.push(post)),
                        Err(e) => Err(e),
                    }
                } else {
                    Ok(posts)
                }
            },
        }
    }
}

/// How loading every post goes.
pub open spec fn all_posts(files: &EmbeddedFiles, parsed: Seq<ParsedFrontmatter>) -> Result<Seq<PostParts>, Seq<char>> {
    loaded_posts(files, parsed, files.content@.len() as int)
}

proof fn lemma_error_stays(files: &EmbeddedFiles, parsed: Seq<ParsedFrontmatter>, from: int, to: int, message: Seq<char>)
    requires
        0 <= from <= to,
        loaded_posts(files, parsed, from) == Err::<Seq<PostParts>, Seq<char>>(message),
    ensures
        loaded_posts(files, parsed, to) == Err::<Seq<PostParts>, Seq<char>>(message),
    decreases to - from,
{
    if from < to {
        lemma_error_stays(files, parsed, from, to - 1, message);
    }
}

/// The posts loaded from all post files, in file order.
pub fn load_posts(files: &EmbeddedFiles, parsed: &Vec<ParsedFrontmatter>) -> (r: Result<Vec<Post>, SiteError>)
    requires
        parsed@.len() == files.content@.len(),
    ensures
        match all_posts(files, parsed@) {
            Ok(parts) => r matches Ok(posts) && posts@.len() == parts.len() && forall|k: int|
                0 <= k < parts.len() ==> post_has_parts(#[trigger] posts@[k], parts[k]),
            Err(message) => r matches Err(e) && e@ == message,
        },
{
    let mut posts: Vec<Post> = Vec::new();
    let mut i: usize = 0;
    while i < files.content.len()
        invariant
            parsed@.len() == files.content@.len(),
            i <= files.content@.len(),
            loaded_posts(files, parsed@, i as int) matches Ok(parts) && posts@.len() == parts.len()
                && forall|k: int| 0 <= k < parts.len() ==> post_has_parts(#[trigger] posts@[k], parts[k]),
        decreases files.content@.len() - i,
    {
        let path = files.content[i].path.as_str();
        if is_post_path(path) {
            match load_post(files, parsed, path) {
                Ok(post) => {
                    posts.push(post);
                },
                Err(e) => {
                    proof {
                        lemma_error_stays(files, parsed@, i + 1, files.content@.len() as int, e@);
                    }
                    return Err(e);
                },
            }
        }
        i += 1;
    }
    Ok(posts)
}

/// How loading the home page goes: its description, its text and its
/// Markdown, or the error's message.
pub open spec fn home_load(files: &EmbeddedFiles, parsed: Seq<ParsedFrontmatter>) -> Result<(Seq<char>, Seq<char>, Seq<char>), Seq<char>> {
    match first_index(content_paths(files), "index.md"@) {
        None => Err(missing_content_message("index.md"@)),
        Some(i) => {
            let source = files.content@[i].source@;
            match split(source) {
                Err(e) => Err(e),
                Ok((_, markdown)) => match parsed[i].home {
                    Err(e) => Err(invalid_frontmatter_message("index.md"@, e@)),
                    Ok(meta) => Ok((meta.description@, source, markdown)),
                },
            }
        },
    }
}

/// The home page's description and text as loaded, and its body the HTML of
/// its Markdown.
pub open spec fn home_has_parts(home: HomePage, parts: (Seq<char>, Seq<char>, Seq<char>)) -> bool {
    &&& home.description@ == parts.0
    &&& home.source@ == parts.1
    &&& home.body_html@ == rendered_markdown(parts.2)
}

/// Loads the home page from `index.md`.
pub fn load_home(files: &EmbeddedFiles, parsed: &Vec<ParsedFrontmatter>) -> (r: Result<HomePage, SiteError>)
    requires
        parsed@.len() == files.content@.len(),
    ensures
        match home_load(files, parsed@) {
            Ok(parts) => r matches Ok(home) && home_has_parts(home, parts),
            Err(message) => r matches Err(e) && e@ == message,
        },
{
    let i = match content_position(files, "index.md") {
        Some(i) => i,
        None => return Err(SiteError::with_prefix("missing embedded content: ", "index.md")),
    };
    let source = files.content[i].source.as_str();
    let (_, markdown) = split_frontmatter(source)?;
    let description = match &parsed[i].home {
        Ok(meta) => meta.description.clone(),
        Err(message) => {
            let mut text = "invalid frontmatter in index.md".to_owned();
            text.append(": ");
            text.append(message.as_str());
            proof {
                reveal_strlit("invalid frontmatter in index.md");
                reveal_strlit("invalid frontmatter in ");
                reveal_strlit("index.md");
                assert("invalid frontmatter in index.md"@ =~= "invalid frontmatter in "@ + "index.md"@);
            }
            return Err(SiteError::new(text));
        },
    };
    Ok(HomePage { description, source: source.to_owned(), body_html: markdown_to_html(markdown.as_str()) })
}

/// The search entry of a post: its slug, title, description (empty when it has
/// none) and tags.
pub open spec fn is_search_item_of(item: SearchItem, post: Post) -> bool {
    &&& item.slug@ == post.slug@
    &&& item.title@ == post.meta.title@
    &&& item.description@ == match post.meta.description {
        Some(d) => d@,
        None => Seq::<char>::empty(),
    }
    &&& item.tags@ == post.meta.tags@
}

/// One search entry per post, in order.
pub fn search_items(posts: &[Post]) -> (items: Vec<SearchItem>)
    ensures
        items@.len() == posts@.len(),
        forall|k: int| 0 <= k < posts@.len() ==> is_search_item_of(#[trigger] items@[k], posts@[k]),
{
    let mut items: Vec<SearchItem> = Vec::new();
    let mut i: usize = 0;
    while i < posts.len()
        invariant
            i <= posts@.len(),
            items@.len() == i,
            forall|k: int| 0 <= k < i ==> is_search_item_of(#[trigger] items@[k], posts@[k]),
        decreases posts@.len() - i,
    {
        let post = &posts[i];
        let description = match &post.meta.description {
            Some(d) => d.clone(),
            None => String::new(),
        };
        items.push(SearchItem {
            slug: post.slug.clone(),
            title: post.meta.title.clone(),
            description,
            tags: copy_strings(&post.meta.tags),
        });
        i += 1;
    }
    items
}

/// How loading the site goes: the home page's parts and every post's parts,
/// or the first error, the home page's coming first.
pub open spec fn site_load(files: &EmbeddedFiles, parsed: Seq<ParsedFrontmatter>) -> Result<((Seq<char>, Seq<char>, Seq<char>), Seq<PostParts>), Seq<char>> {
    match home_load(files, parsed) {
        Err(e) => Err(e),
        Ok(home) => match all_posts(files, parsed) {
            Err(e) => Err(e),
            Ok(posts) => Ok((home, posts)),
        },
    }
}

/// A site that loads has only posts whose dates RFC 2822 can write (years 0 to
/// 9999); the feed cannot be written otherwise.
pub open spec fn feed_dates_fit(files: &EmbeddedFiles, parsed: Seq<ParsedFrontmatter>) -> bool {
    site_load(files, parsed) matches Ok((_, posts)) ==> forall|k: int|
        0 <= k < posts.len() ==> 0 <= #[trigger] posts[k].date.0 <= 9999
}

/// `posts` are the posts made of `parts`, newest first, and `perm` says which
/// parts each is made of: every part is used once, dates never rise, and posts
/// of the same date keep the order of their files.
pub open spec fn is_newest_first_of_parts(parts: Seq<PostParts>, posts: Seq<Post>, perm: Seq<int>) -> bool {
    &&& perm.len() == parts.len()
    &&& posts.len() == parts.len()
    &&& forall|k: int| 0 <= k < perm.len() ==> 0 <= #[trigger] perm[k] < parts.len()
    &&& forall|k: int, l: int| 0 <= k < l < perm.len() ==> perm[k] != perm[l]
    &&& forall|k: int| 0 <= k < perm.len() ==> post_has_parts(#[trigger] posts[k], parts[perm[k]])
    &&& forall|k: int, l: int|
        0 <= k < l < perm.len() ==> date_rank(parts[#[trigger] perm[k]].date) >= date_rank(
            parts[#[trigger] perm[l]].date,
        )
    &&& forall|k: int, l: int|
        0 <= k < l < perm.len() && date_rank(parts[#[trigger] perm[k]].date) == date_rank(
            parts[#[trigger] perm[l]].date,
        ) ==> perm[k] < perm[l]
}

/// What a loaded site holds, given the parts it was loaded from.
pub open spec fn site_is_built_from(site: Site, home: (Seq<char>, Seq<char>, Seq<char>), parts: Seq<PostParts>) -> bool {
    &&& home_has_parts(site.home, home)
    &&& exists|perm: Seq<int>| is_newest_first_of_parts(parts, site.posts@, perm)
    &&& site.search_items@.len() == site.posts@.len()
    &&& forall|k: int| 0 <= k < site.posts@.len() ==> is_search_item_of(#[trigger] site.search_items@[k], site.posts@[k])
    &&& site.rss_feed@ == rss_feed(site.home, site.posts@)
    &&& site.sitemap@ == sitemap(site.posts@)
}

/// Loads the whole site: the home page, the posts newest first, their search
/// entries, the RSS feed and the sitemap.
pub fn load_site(files: &EmbeddedFiles, parsed: &Vec<ParsedFrontmatter>) -> (r: Result<Site, SiteError>)
    requires
        parsed@.len() == files.content@.len(),
        feed_dates_fit(files, parsed@),
    ensures
        match site_load(files, parsed@) {
            Ok((home, parts)) => r matches Ok(site) && site_is_built_from(site, home, parts),
            Err(message) => r matches Err(e) && e@ == message,
        },
{
    let home = load_home(files, parsed)?;
    let loaded = load_posts(files, parsed)?;
    let ghost parts = all_posts(files, parsed@)->Ok_0;
    let ghost unsorted = loaded@;
    let posts = sort_newest_first(loaded);
    let ghost perm = choose|perm: Seq<int>| is_newest_first(unsorted, posts@, perm);
    proof {
        assert(is_newest_first(unsorted, posts@, perm));
        assert forall|k: int| 0 <= k < perm.len() implies post_has_parts(#[trigger] posts@[k], parts[perm[k]]) by {
            assert(posts@[k] == unsorted[perm[k]]);
        }
        assert forall|k: int, l: int| 0 <= k < l < perm.len() implies date_rank(parts[#[trigger] perm[k]].date) >= date_rank(
            parts[#[trigger] perm[l]].date,
        ) by {
            assert(post_rank(posts@[k]) >= post_rank(posts@[l]));
            assert(posts@[k] == unsorted[perm[k]]);
            assert(posts@[l] == unsorted[perm[l]]);
        }
        assert forall|k: int, l: int| 0 <= k < l < perm.len() && date_rank(parts[#[trigger] perm[k]].date) == date_rank(
            parts[#[trigger] perm[l]].date,
        ) implies perm[k] < perm[l] by {
            assert(posts@[k] == unsorted[perm[k]]);
            assert(posts@[l] == unsorted[perm[l]]);
            assert(post_rank(posts@[k]) == post_rank(posts@[l]));
        }
        assert(is_newest_first_of_parts(parts, posts@, perm));
        assert forall|k: int| 0 <= k < posts@.len() implies 0 <= #[trigger] posts@[k].date@.0 <= 9999 by {
            assert(posts@[k] == unsorted[perm[k]]);
            assert(post_has_parts(unsorted[perm[k]], parts[perm[k]]));
        }
    }
    let search_items = search_items(posts.as_slice());
    let rss_feed = build_rss_feed(&home, posts.as_slice());
    let sitemap = build_sitemap(posts.as_slice());
    Ok(Site { home, posts, search_items, rss_feed, sitemap })
}

fn home_loads(files: &EmbeddedFiles, parsed: &Vec<ParsedFrontmatter>) -> (ok: bool)
    requires
        parsed@.len() == files.content@.len(),
    ensures
        ok == home_load(files, parsed@) is Ok,
{
    match content_position(files, "index.md") {
        Some(i) => split_frontmatter(files.content[i].source.as_str()).is_ok() && parsed[i].home.is_ok(),
        None => false,
    }
}

fn post_dates_fit(files: &EmbeddedFiles, parsed: &Vec<ParsedFrontmatter>) -> (fit: bool)
    requires
        parsed@.len() == files.content@.len(),
    ensures
        fit == (all_posts(files, parsed@) matches Ok(parts) ==> forall|k: int|
            0 <= k < parts.len() ==> 0 <= #[trigger] parts[k].date.0 <= 9999),
{
    let mut fit = true;
    let mut i: usize = 0;
    while i < files.content.len()
        invariant
            parsed@.len() == files.content@.len(),
            i <= files.content@.len(),
            loaded_posts(files, parsed@, i as int) matches Ok(parts) && fit == forall|k: int|
                0 <= k < parts.len() ==> 0 <= #[trigger] parts[k].date.0 <= 9999,
        decreases files.content@.len() - i,
    {
        let path = files.content[i].path.as_str();
        if is_post_path(path) {
            match post_head(files, parsed, path) {
                Ok(head) => {
                    let year = head.date.year();
                    let ghost parts = loaded_posts(files, parsed@, i as int)->Ok_0;
                    let ghost next = loaded_posts(files, parsed@, i + 1)->Ok_0;
                    let ghost old_fit = fit;
                    fit = fit && 0 <= year && year <= 9999;
                    proof {
                        let new_part = post_load(files, parsed@, path@)->Ok_0;
                        assert(next == parts.push(new_part));
                        assert(year == new_part.date.0);
                        assert forall|k: int| 0 <= k < parts.len() implies #[trigger] next[k] == parts[k] by {}
                        if fit {
                            assert forall|k: int| 0 <= k < next.len() implies 0 <= #[trigger] next[k].date.0 <= 9999 by {
                                if k < parts.len() {
                                    assert(next[k] == parts[k]);
                                }
                            }
                        } else if !old_fit {
                            let k = choose|k: int| 0 <= k < parts.len() && !(0 <= #[trigger] parts[k].date.0 <= 9999);
                            assert(next[k] == parts[k]);
                        } else {
                            assert(next[parts.len() as int] == new_part);
                        }
                    }
                },
                Err(e) => {
                    proof {
                        lemma_error_stays(files, parsed@, i + 1, files.content@.len() as int, e@);
                    }
                    return true;
                },
            }
        }
        i += 1;
    }
    fit
}

/// Loads the site where `load_site` can: `None` when a post's date lies outside
/// the years that RFC 2822 covers, so that the feed cannot be written.
pub fn load_site_checked(files: &EmbeddedFiles, parsed: &Vec<ParsedFrontmatter>) -> (r: Option<Result<Site, SiteError>>)
    requires
        parsed@.len() == files.content@.len(),
    ensures
        r is None <==> !feed_dates_fit(files, parsed@),
        r matches Some(loaded) ==> match site_load(files, parsed@) {
            Ok((home, parts)) => loaded matches Ok(site) && site_is_built_from(site, home, parts),
            Err(message) => loaded matches Err(e) && e@ == message,
        },
{
    let fit = !home_loads(files, parsed) || post_dates_fit(files, parsed);
    if fit {
        Some(load_site(files, parsed))
    } else {
        None
    }
}

} // verus!
