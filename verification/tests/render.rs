use blog::dates::PostDate;
use blog::render::{
    build_rss_feed, build_sitemap, is_post_path, markdown_to_html, post_date, split_frontmatter,
    HomePage, Post, PostMeta,
};

#[test]
fn identifies_post_paths() {
    assert!(is_post_path("posts/example.md"));
    assert!(!is_post_path("pages/example.md"));
    assert!(!is_post_path("posts/example.txt"));
}

#[test]
fn derives_the_post_date_from_its_slug() {
    assert_eq!(
        post_date("2026-08-19-example").unwrap(),
        PostDate::from_ymd(2026, 8, 19).unwrap()
    );
    assert!(post_date("example").is_err());
    assert!(post_date("2026-02-30-example").is_err());
}

#[test]
fn renders_markdown_features_and_highlights_code() {
    let output = markdown_to_html("~~old~~\n\n```rust\nfn main() {}\n```");
    assert!(output.contains("<del>old</del>"));
    assert!(output.contains("background-color"));
}

#[test]
fn reports_missing_frontmatter() {
    let error = split_frontmatter("# No frontmatter").unwrap_err();
    assert!(error.to_string().contains("frontmatter"));
}

#[test]
fn builds_rss() {
    let home = HomePage {
        description: "Test & feed".to_owned(),
        source: "# Test feed".to_owned(),
        body_html: String::new(),
    };
    let posts = [Post {
        slug: "test-post".to_owned(),
        meta: PostMeta {
            title: "Test <Post>".to_owned(),
            description: Some("A \"description\"".to_owned()),
            tags: vec!["rust".to_owned(), "storage & systems".to_owned()],
        },
        date: PostDate::from_ymd(2026, 1, 2).unwrap(),
        source: "# Test Post".to_owned(),
        body_html: String::new(),
        date_label: "January 2, 2026".to_owned(),
    }];
    let feed = build_rss_feed(&home, &posts);

    assert!(feed.contains("<atom:link href=\"https://n8m.us/feed.xml\" rel=\"self\""));
    assert!(feed.contains("<guid isPermaLink=\"true\">https://n8m.us/posts/test-post</guid>"));
    assert!(feed.contains("<description>Test &amp; feed</description>"));
    assert!(feed.contains("<title>Test &lt;Post&gt;</title>"));
    assert!(feed.contains("<description>A &quot;description&quot;</description>"));
    assert!(feed.contains("<category>rust</category>"));
    assert!(feed.contains("<category>storage &amp; systems</category>"));
}

#[test]
fn builds_sitemap() {
    let posts = [Post {
        slug: "test-post".to_owned(),
        meta: PostMeta {
            title: "Test Post".to_owned(),
            description: None,
            tags: Vec::new(),
        },
        date: PostDate::from_ymd(2026, 1, 2).unwrap(),
        source: "# Test Post".to_owned(),
        body_html: String::new(),
        date_label: "January 2, 2026".to_owned(),
    }];
    let sitemap = build_sitemap(&posts);

    assert!(sitemap.contains("<loc>https://n8m.us/</loc>"));
    assert!(sitemap.contains("<loc>https://n8m.us/posts/test-post</loc>"));
    assert!(sitemap.contains("<lastmod>2026-01-02</lastmod>"));
}
