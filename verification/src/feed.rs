//! The RSS feed and the sitemap.

use vstd::prelude::*;
use crate::dates::{rfc2822_text, iso_date_text, PostDate};
use crate::escape::{escape_xml, xml_escaped};
use crate::site::{HomePage, Post, ORIGIN};
use crate::assets::occurs_at;

verus! {

broadcast use vstd::string::group_string_axioms;

/// The absolute URL of a post.
pub open spec fn post_url(slug: Seq<char>) -> Seq<char> {
    ORIGIN@ + "/posts/"@ + slug
}

/// The RFC 2822 text of a date.
pub open spec fn rfc2822_of(date: PostDate) -> Seq<char> {
    rfc2822_text(date@.0, date@.1, date@.2)
}

/// The channel header of the feed.
pub open spec fn rss_header(home: HomePage) -> Seq<char> {
    "<?xml version=\"1.0\" encoding=\"UTF-8\"?>\n<rss version=\"2.0\" xmlns:atom=\"http://www.w3.org/2005/Atom\">\n<channel>\n<title>~/n8m.us</title>\n<link>"@
        + ORIGIN@ + "/</link>\n<description>"@ + xml_escaped(home.description@)
        + "</description>\n<language>en-us</language>\n<atom:link href=\""@ + xml_escaped(
        ORIGIN@ + "/feed.xml"@,
    ) + "\" rel=\"self\" type=\"application/rss+xml\" />\n"@
}

/// The categories of a post, one element per tag.
pub open spec fn rss_categories(tags: Seq<String>) -> Seq<char>
    decreases tags.len(),
{
    if tags.len() == 0 {
        seq![]
    } else {
        rss_categories(tags.drop_last()) + "<category>"@ + xml_escaped(tags.last()@)
            + "</category>\n"@
    }
}

/// The title, link, guid and publication date of a post's item.
pub open spec fn rss_item_head(post: Post) -> Seq<char> {
    let url = xml_escaped(post_url(post.slug@));
    "<item>\n<title>"@ + xml_escaped(post.meta.title@) + "</title>\n<link>"@ + url
        + "</link>\n<guid isPermaLink=\"true\">"@ + url + "</guid>\n<pubDate>"@ + rfc2822_of(
        post.date,
    ) + "</pubDate>\n"@
}

/// The description element of a post's item, if it has a description.
pub open spec fn rss_description(description: Option<String>) -> Seq<char> {
    match description {
        Some(description) => "<description>"@ + xml_escaped(description@) + "</description>\n"@,
        None => seq![],
    }
}

/// The item of one post.
pub open spec fn rss_item(post: Post) -> Seq<char> {
    rss_item_head(post) + rss_description(post.meta.description) + rss_categories(
        post.meta.tags@,
    ) + "</item>\n"@
}

/// The items of the posts, in order.
pub open spec fn rss_items(posts: Seq<Post>) -> Seq<char>
    decreases posts.len(),
{
    if posts.len() == 0 {
        seq![]
    } else {
        rss_items(posts.drop_last()) + rss_item(posts.last())
    }
}

/// The whole feed: the header, the build date (that of the first post), the
/// items, and the closing tags.
pub open spec fn rss_feed(home: HomePage, posts: Seq<Post>) -> Seq<char> {
    rss_header(home) + if posts.len() > 0 {
        "<lastBuildDate>"@ + rfc2822_of(posts[0].date) + "</lastBuildDate>\n"@
    } else {
        seq![]
    } + rss_items(posts) + "</channel>\n</rss>\n"@
}

/// Every post's date can be written in RFC 2822, which covers the years 0 to 9999.
pub open spec fn dates_fit_rfc2822(posts: Seq<Post>) -> bool {
    forall|i: int| 0 <= i < posts.len() ==> 0 <= #[trigger] posts[i].date@.0 <= 9999
}

fn push_post_url(out: &mut String, slug: &str)
    ensures
        final(out)@ == old(out)@ + post_url(slug@),
{
    out.append(ORIGIN);
    out.append("/posts/");
    out.append(slug);
}

fn push_item_head(feed: &mut String, post: &Post)
    requires
        0 <= post.date@.0 <= 9999,
    ensures
        final(feed)@ == old(feed)@ + rss_item_head(*post),
{
    let mut url = String::new();
    push_post_url(&mut url, post.slug.as_str());
    let url = escape_xml(url.as_str());
    let title = escape_xml(post.meta.title.as_str());
    let date = post.date.to_rfc2822();
    feed.append("<item>\n<title>");
    feed.append(title.as_str());
    feed.append("</title>\n<link>");
    feed.append(url.as_str());
    feed.append("</link>\n<guid isPermaLink=\"true\">");
    feed.append(url.as_str());
    feed.append("</guid>\n<pubDate>");
    feed.append(date.as_str());
    feed.append("</pubDate>\n");
    assert(feed@ =~= old(feed)@ + rss_item_head(*post));
}

fn push_description(feed: &mut String, description: &Option<String>)
    ensures
        final(feed)@ == old(feed)@ + rss_description(*description),
{
    match description {
        Some(description) => {
            let text = escape_xml(description.as_str());
            feed.append("<description>");
            feed.append(text.as_str());
            feed.append("</description>\n");
            assert(feed@ =~= old(feed)@ + rss_description(Some(*description)));
        },
        None => {
            assert(feed@ =~= old(feed)@ + rss_description(None));
        },
    }
}

fn push_categories(feed: &mut String, tags: &Vec<String>)
    ensures
        final(feed)@ == old(feed)@ + rss_categories(tags@),
{
    let mut i: usize = 0;
    while i < tags.len()
        invariant
            i <= tags@.len(),
            feed@ == old(feed)@ + rss_categories(tags@.take(i as int)),
        decreases tags@.len() - i,
    {
        let text = escape_xml(tags[i].as_str());
        feed.append("<category>");
        feed.append(text.as_str());
        feed.append("</category>\n");
        assert(tags@.take(i + 1).drop_last() =~= tags@.take(i as int));
        assert(feed@ =~= old(feed)@ + rss_categories(tags@.take(i + 1)));
        i += 1;
    }
    assert(tags@.take(tags@.len() as int) =~= tags@);
}

fn push_item(feed: &mut String, post: &Post)
    requires
        0 <= post.date@.0 <= 9999,
    ensures
        final(feed)@ == old(feed)@ + rss_item(*post),
{
    push_item_head(feed, post);
    push_description(feed, &post.meta.description);
    push_categories(feed, &post.meta.tags);
    feed.append("</item>\n");
    assert(feed@ =~= old(feed)@ + rss_item(*post));
}

/// Builds the RSS feed of the site.
pub fn build_rss_feed(home: &HomePage, posts: &[Post]) -> (feed: String)
    requires
        dates_fit_rfc2822(posts@),
    ensures
        feed@ == rss_feed(*home, posts@),
{
    let mut feed_url = ORIGIN.to_owned();
    feed_url.append("/feed.xml");
    let mut feed = "<?xml version=\"1.0\" encoding=\"UTF-8\"?>\n<rss version=\"2.0\" xmlns:atom=\"http://www.w3.org/2005/Atom\">\n<channel>\n<title>~/n8m.us</title>\n<link>".to_owned();
    feed.append(ORIGIN);
    feed.append("/</link>\n<description>");
    feed.append(escape_xml(home.description.as_str()).as_str());
    feed.append("</description>\n<language>en-us</language>\n<atom:link href=\"");
    feed.append(escape_xml(feed_url.as_str()).as_str());
    feed.append("\" rel=\"self\" type=\"application/rss+xml\" />\n");
    if posts.len() > 0 {
        feed.append("<lastBuildDate>");
        feed.append(posts[0].date.to_rfc2822().as_str());
        feed.append("</lastBuildDate>\n");
    }
    let ghost with_date = feed@;
    let mut i: usize = 0;
    while i < posts.len()
        invariant
            i <= posts@.len(),
            dates_fit_rfc2822(posts@),
            feed@ == with_date + rss_items(posts@.take(i as int)),
        decreases posts@.len() - i,
    {
        push_item(&mut feed, &posts[i]);
        assert(posts@.take(i + 1).drop_last() =~= posts@.take(i as int));
        i += 1;
    }
    assert(posts@.take(posts@.len() as int) =~= posts@);
    feed.append("</channel>\n</rss>\n");
    assert(feed@ =~= rss_feed(*home, posts@));
    feed
}

/// One `url` element of the sitemap.
pub open spec fn sitemap_url(location: Seq<char>, last_modified: Option<PostDate>) -> Seq<char> {
    "<url>\n"@ + "<loc>"@ + xml_escaped(location) + "</loc>\n"@ + match last_modified {
        Some(date) => "<lastmod>"@ + iso_date_text(date@.0, date@.1, date@.2) + "</lastmod>\n"@,
        None => seq![],
    } + "</url>\n"@
}

/// The `url` elements of the posts, in order.
pub open spec fn sitemap_post_urls(posts: Seq<Post>) -> Seq<char>
    decreases posts.len(),
{
    if posts.len() == 0 {
        seq![]
    } else {
        sitemap_post_urls(posts.drop_last()) + sitemap_url(
            post_url(posts.last().slug@),
            Some(posts.last().date),
        )
    }
}

/// The whole sitemap: the home page, last modified when the first post was
/// published, then every post.
pub open spec fn sitemap(posts: Seq<Post>) -> Seq<char> {
    "<?xml version=\"1.0\" encoding=\"UTF-8\"?>\n<urlset xmlns=\"http://www.sitemaps.org/schemas/sitemap/0.9\">\n"@
        + sitemap_url(
        ORIGIN@ + "/"@,
        if posts.len() > 0 {
            Some(posts[0].date)
        } else {
            None
        },
    ) + sitemap_post_urls(posts) + "</urlset>\n"@
}

/// Appends one `url` element to a sitemap.
pub fn push_sitemap_url(sitemap: &mut String, location: &str, last_modified: Option<&PostDate>)
    ensures
        final(sitemap)@ == old(sitemap)@ + sitemap_url(
            location@,
            match last_modified {
                Some(date) => Some(*date),
                None => None,
            },
        ),
{
    let loc = escape_xml(location);
    sitemap.append("<url>\n");
    sitemap.append("<loc>");
    sitemap.append(loc.as_str());
    sitemap.append("</loc>\n");
    match last_modified {
        Some(date) => {
            let text = date.format("%Y-%m-%d");
            sitemap.append("<lastmod>");
            sitemap.append(text.as_str());
            sitemap.append("</lastmod>\n");
        },
        None => {},
    }
    sitemap.append("</url>\n");
    assert(sitemap@ =~= old(sitemap)@ + sitemap_url(
        location@,
        match last_modified {
            Some(date) => Some(*date),
            None => None,
        },
    ));
}

/// Builds the sitemap of the site.
pub fn build_sitemap(posts: &[Post]) -> (map: String)
    ensures
        map@ == sitemap(posts@),
{
    let mut map = "<?xml version=\"1.0\" encoding=\"UTF-8\"?>\n<urlset xmlns=\"http://www.sitemaps.org/schemas/sitemap/0.9\">\n".to_owned();
    let mut home = ORIGIN.to_owned();
    home.append("/");
    let latest = if posts.len() > 0 {
        Some(&posts[0].date)
    } else {
        None
    };
    push_sitemap_url(&mut map, home.as_str(), latest);
    let ghost head = map@;
    let mut i: usize = 0;
    while i < posts.len()
        invariant
            i <= posts@.len(),
            map@ == head + sitemap_post_urls(posts@.take(i as int)),
        decreases posts@.len() - i,
    {
        let mut url = String::new();
        push_post_url(&mut url, posts[i].slug.as_str());
        push_sitemap_url(&mut map, url.as_str(), Some(&posts[i].date));
        assert(posts@.take(i + 1).drop_last() =~= posts@.take(i as int));
        assert(map@ =~= head + sitemap_post_urls(posts@.take(i + 1)));
        i += 1;
    }
    assert(posts@.take(posts@.len() as int) =~= posts@);
    map.append("</urlset>\n");
    assert(map@ =~= sitemap(posts@));
    map
}

proof fn lemma_items_prefix(posts: Seq<Post>, j: int)
    requires
        0 <= j <= posts.len(),
    ensures
        rss_items(posts.take(j)).len() <= rss_items(posts).len(),
        rss_items(posts).take(rss_items(posts.take(j)).len() as int) == rss_items(posts.take(j)),
    decreases posts.len(),
{
    if j == posts.len() {
        assert(posts.take(j) =~= posts);
        assert(rss_items(posts).take(rss_items(posts).len() as int) =~= rss_items(posts));
    } else {
        let shorter = posts.drop_last();
        lemma_items_prefix(shorter, j);
        assert(shorter.take(j) =~= posts.take(j));
        let n = rss_items(posts.take(j)).len() as int;
        assert(rss_items(posts).take(n) =~= rss_items(shorter).take(n));
    }
}

proof fn lemma_item_at(posts: Seq<Post>, k: int)
    requires
        0 <= k < posts.len(),
    ensures
        occurs_at(rss_items(posts), rss_item(posts[k]), rss_items(posts.take(k)).len() as int),
{
    lemma_items_prefix(posts, k + 1);
    let upto = posts.take(k + 1);
    assert(upto.drop_last() =~= posts.take(k));
    assert(upto.last() == posts[k]);
    let n = rss_items(posts.take(k)).len() as int;
    let m = rss_item(posts[k]).len() as int;
    assert(rss_items(posts).subrange(n, n + m) =~= rss_items(upto).subrange(n, n + m));
    assert(rss_items(upto).subrange(n, n + m) =~= rss_item(posts[k]));
}

/// Where the items start in the feed: after the header and the build date.
spec fn feed_items_start(home: HomePage, posts: Seq<Post>) -> int {
    rss_header(home).len() as int + if posts.len() > 0 {
        ("<lastBuildDate>"@ + rfc2822_of(posts[0].date) + "</lastBuildDate>\n"@).len() as int
    } else {
        0int
    }
}

proof fn lemma_feed_item_at(home: HomePage, posts: Seq<Post>, k: int)
    requires
        0 <= k < posts.len(),
    ensures
        occurs_at(
            rss_feed(home, posts),
            rss_item(posts[k]),
            feed_items_start(home, posts) + rss_items(posts.take(k)).len(),
        ),
{
    lemma_item_at(posts, k);
    let start = feed_items_start(home, posts);
    let items = rss_items(posts);
    let feed = rss_feed(home, posts);
    let n = rss_items(posts.take(k)).len() as int;
    let m = rss_item(posts[k]).len() as int;
    assert(feed.subrange(start + n, start + n + m) =~= items.subrange(n, n + m));
}

/// The feed holds the item of every post: its title, link, date, description
/// and categories, whole.
pub proof fn feed_lists_every_post(home: HomePage, posts: Seq<Post>, k: int) -> (at: int)
    requires
        0 <= k < posts.len(),
    ensures
        occurs_at(rss_feed(home, posts), rss_item(posts[k]), at),
{
    lemma_feed_item_at(home, posts, k);
    feed_items_start(home, posts) + rss_items(posts.take(k)).len()
}

/// The feed lists the posts in their order: the item of an earlier post ends
/// before the item of a later one starts.
pub proof fn feed_keeps_post_order(home: HomePage, posts: Seq<Post>, k: int, l: int) -> (at: (int, int))
    requires
        0 <= k < l < posts.len(),
    ensures
        occurs_at(rss_feed(home, posts), rss_item(posts[k]), at.0),
        occurs_at(rss_feed(home, posts), rss_item(posts[l]), at.1),
        at.0 + rss_item(posts[k]).len() <= at.1,
{
    lemma_feed_item_at(home, posts, k);
    lemma_feed_item_at(home, posts, l);
    let upto = posts.take(l);
    lemma_items_prefix(upto, k + 1);
    assert(upto.take(k + 1) =~= posts.take(k + 1));
    assert(posts.take(k + 1).drop_last() =~= posts.take(k));
    assert(posts.take(k + 1).last() == posts[k]);
    let start = feed_items_start(home, posts);
    (start + rss_items(posts.take(k)).len(), start + rss_items(posts.take(l)).len())
}

proof fn lemma_urls_prefix(posts: Seq<Post>, j: int)
    requires
        0 <= j <= posts.len(),
    ensures
        sitemap_post_urls(posts.take(j)).len() <= sitemap_post_urls(posts).len(),
        sitemap_post_urls(posts).take(sitemap_post_urls(posts.take(j)).len() as int) == sitemap_post_urls(posts.take(j)),
    decreases posts.len(),
{
    if j == posts.len() {
        assert(posts.take(j) =~= posts);
        assert(sitemap_post_urls(posts).take(sitemap_post_urls(posts).len() as int) =~= sitemap_post_urls(posts));
    } else {
        let shorter = posts.drop_last();
        lemma_urls_prefix(shorter, j);
        assert(shorter.take(j) =~= posts.take(j));
        let n = sitemap_post_urls(posts.take(j)).len() as int;
        assert(sitemap_post_urls(posts).take(n) =~= sitemap_post_urls(shorter).take(n));
    }
}

/// The sitemap names every post's URL with that post's own date as its last
/// modification.
pub proof fn sitemap_dates_each_post(posts: Seq<Post>, k: int) -> (at: int)
    requires
        0 <= k < posts.len(),
    ensures
        occurs_at(
            sitemap(posts),
            "<loc>"@ + xml_escaped(post_url(posts[k].slug@)) + "</loc>\n<lastmod>"@ + iso_date_text(
                posts[k].date@.0,
                posts[k].date@.1,
                posts[k].date@.2,
            ) + "</lastmod>\n"@,
            at,
        ),
{
    lemma_urls_prefix(posts, k + 1);
    let upto = posts.take(k + 1);
    assert(upto.drop_last() =~= posts.take(k));
    assert(upto.last() == posts[k]);
    let entry = sitemap_url(post_url(posts[k].slug@), Some(posts[k].date));
    let wanted = "<loc>"@ + xml_escaped(post_url(posts[k].slug@)) + "</loc>\n<lastmod>"@ + iso_date_text(
        posts[k].date@.0,
        posts[k].date@.1,
        posts[k].date@.2,
    ) + "</lastmod>\n"@;
    reveal_strlit("<url>\n");
    reveal_strlit("<loc>");
    reveal_strlit("</loc>\n");
    reveal_strlit("<lastmod>");
    reveal_strlit("</loc>\n<lastmod>");
    assert("</loc>\n<lastmod>"@ =~= "</loc>\n"@ + "<lastmod>"@);
    assert(entry.subrange(6, 6 + wanted.len() as int) =~= wanted);
    let urls = sitemap_post_urls(posts);
    let n = sitemap_post_urls(posts.take(k)).len() as int;
    assert(urls.subrange(n, n + entry.len()) =~= sitemap_post_urls(upto).subrange(n, n + entry.len()));
    assert(sitemap_post_urls(upto).subrange(n, n + entry.len()) =~= entry);
    let head = "<?xml version=\"1.0\" encoding=\"UTF-8\"?>\n<urlset xmlns=\"http://www.sitemaps.org/schemas/sitemap/0.9\">\n"@
        + sitemap_url(
        ORIGIN@ + "/"@,
        if posts.len() > 0 {
            Some(posts[0].date)
        } else {
            None
        },
    );
    assert(sitemap_post_urls(upto) =~= sitemap_post_urls(posts.take(k)) + entry);
    assert(n + entry.len() <= urls.len());
    assert(urls.subrange(n + 6, n + 6 + wanted.len()) =~= wanted) by {
        assert(urls.subrange(n + 6, n + 6 + wanted.len()) =~= urls.subrange(n, n + entry.len()).subrange(6, 6 + wanted.len() as int));
    }
    assert(sitemap(posts) =~= head + urls + "</urlset>\n"@);
    let at = head.len() as int + n + 6;
    assert(sitemap(posts).subrange(at, at + wanted.len()) =~= urls.subrange(n + 6, n + 6 + wanted.len()));
    at
}

} // verus!
