//! The site as it is served: the home page, the posts and what is built from them.

use vstd::prelude::*;
use crate::dates::PostDate;

verus! {

/// The address every absolute link of the site starts with.
pub const ORIGIN: &'static str = "https://n8m.us";

/// A post's frontmatter.
pub struct PostMeta {
    pub title: String,
    pub description: Option<String>,
    pub tags: Vec<String>,
}

/// The home page's frontmatter.
pub struct HomeMeta {
    pub description: String,
}

/// A post.
pub struct Post {
    /// The file name without `.md`: the date, a `-` and a name.
    pub slug: String,
    pub meta: PostMeta,
    pub date: PostDate,
    /// The whole content file, frontmatter included.
    pub source: String,
    pub body_html: String,
    /// The date as the post page shows it.
    pub date_label: String,
}

/// The home page.
pub struct HomePage {
    pub description: String,
    /// The whole content file, frontmatter included.
    pub source: String,
    pub body_html: String,
}

/// What the search index holds of a post.
pub struct SearchItem {
    pub slug: String,
    pub title: String,
    pub description: String,
    pub tags: Vec<String>,
}

/// The loaded site.
pub struct Site {
    pub home: HomePage,
    /// Newest first.
    pub posts: Vec<Post>,
    /// One per post, in the order of `posts`.
    pub search_items: Vec<SearchItem>,
    pub rss_feed: String,
    pub sitemap: String,
}

} // verus!
