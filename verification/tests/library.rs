use blog::dates::PostDate;
use blog::embedded::{asset_url, content, content_files, static_file, ContentFile, EmbeddedFiles, StaticFile};
use blog::escape::{escape_html, escape_xml};
use blog::feed::push_sitemap_url;
use blog::frontmatter::split_frontmatter;
use blog::markdown::{highlight_code_blocks, markdown_to_html, MdEvent};
use blog::order::sort_newest_first;
use blog::render::{
    build_rss_feed, embedded_content, load_home, load_post, load_posts, load_site,
    load_site_checked, post_date, search_items, HomeMeta, HomePage, ParsedFrontmatter, Post,
    PostMeta, SiteError,
};
use blog::router::{asset, index, markdown_qualities, post, Page};

fn meta(title: &str, description: Option<&str>, tags: &[&str]) -> PostMeta {
    PostMeta {
        title: title.to_owned(),
        description: description.map(|d| d.to_owned()),
        tags: tags.iter().map(|t| t.to_string()).collect(),
    }
}

fn post_on(slug: &str, year: i32, month: u32, day: u32) -> Post {
    Post {
        slug: slug.to_owned(),
        meta: meta(slug, None, &[]),
        date: PostDate::from_ymd(year, month, day).unwrap(),
        source: String::new(),
        body_html: String::new(),
        date_label: String::new(),
    }
}

fn file(path: &str, source: &str) -> ContentFile {
    ContentFile { path: path.to_owned(), source: source.to_owned() }
}

fn post_meta(title: &str) -> ParsedFrontmatter {
    ParsedFrontmatter { home: Err("unknown field `title`".to_owned()), post: Ok(meta(title, Some("About it"), &["rust"])) }
}

fn home_meta(description: &str) -> ParsedFrontmatter {
    ParsedFrontmatter {
        home: Ok(HomeMeta { description: description.to_owned() }),
        post: Err("missing field `title`".to_owned()),
    }
}

fn sample_files() -> (EmbeddedFiles, Vec<ParsedFrontmatter>) {
    let files = EmbeddedFiles {
        content: vec![
            file("index.md", "---\n{}\n---\n# Home\n"),
            file("posts/2026-01-02-first.md", "---\n{}\n---\nFirst\n"),
            file("posts/2026-03-04-second.md", "---\n{}\n---\nSecond\n"),
            file("posts/2026-01-02-third.md", "---\n{}\n---\nThird\n"),
            file("drafts/2026-05-05-draft.md", "no frontmatter"),
        ],
        statics: vec![StaticFile {
            path: "css/main.css".to_owned(),
            fingerprinted: "css/main-00000000000000ff.css".to_owned(),
            public_url: "/static/css/main-00000000000000ff.css".to_owned(),
            bytes: b"body {}".to_vec(),
        }],
    };
    let parsed = vec![
        home_meta("A & B"),
        post_meta("First"),
        post_meta("Second"),
        post_meta("Third"),
        ParsedFrontmatter { home: Err("x".to_owned()), post: Err("x".to_owned()) },
    ];
    (files, parsed)
}

fn error_of<T>(result: Result<T, SiteError>) -> String {
    match result {
        Ok(_) => panic!("expected an error"),
        Err(e) => e.to_string(),
    }
}

#[test]
fn escapes_xml_and_html() {
    assert_eq!(
        escape_xml("<a href=\"x\">Tom & Jerry's</a>"),
        "&lt;a href=&quot;x&quot;&gt;Tom &amp; Jerry&apos;s&lt;/a&gt;"
    );
    assert_eq!(escape_html("'<>&\""), "'&lt;&gt;&amp;&quot;");
    assert_eq!(escape_xml(""), "");
    assert_eq!(escape_xml("plain ü"), "plain ü");
}

#[test]
fn splits_frontmatter_and_trims_the_body() {
    let (frontmatter, body) = split_frontmatter("---\n{\"a\":1}\n---\n\n  body\n").unwrap();
    assert_eq!(frontmatter, "{\"a\":1}\n");
    assert_eq!(body, "body\n");
    let (frontmatter, body) = split_frontmatter("---\r\n{}\r\n---\r\r\nbody").unwrap();
    assert_eq!(frontmatter, "{}\r\n");
    assert_eq!(body, "body");
    let (frontmatter, body) = split_frontmatter("---\n---").unwrap();
    assert_eq!(frontmatter, "");
    assert_eq!(body, "");
}

#[test]
fn reports_each_frontmatter_error() {
    assert_eq!(error_of(split_frontmatter("")), "content is empty");
    assert_eq!(error_of(split_frontmatter("x\n---\n")), "content must start with a frontmatter fence");
    assert_eq!(error_of(split_frontmatter("---\n{}\n--- \n")), "frontmatter is missing its closing fence");
}

#[test]
fn frames_and_splits_back() {
    let frontmatter = "{\n  \"title\": \"T\"\n}\n";
    let body = "\n\n# Title\n";
    let framed = format!("---\n{frontmatter}---\n{body}");
    let (f, b) = split_frontmatter(&framed).unwrap();
    assert_eq!(f, frontmatter);
    assert_eq!(b, "# Title\n");
}

#[test]
fn reads_dates_from_slugs() {
    assert_eq!(post_date("2024-02-29-leap").unwrap(), PostDate::from_ymd(2024, 2, 29).unwrap());
    assert_eq!(error_of(post_date("2026-08-19")), "post filename must start with YYYY-MM-DD-");
    assert_eq!(error_of(post_date("example")), "post filename must start with YYYY-MM-DD-");
    assert_eq!(
        error_of(post_date("2026/08/19-example")),
        "post filename must start with a valid YYYY-MM-DD- date"
    );
    assert_eq!(post_date("-999-01-01-old").unwrap().year(), -999);
}

#[test]
fn builds_only_calendar_dates() {
    assert!(PostDate::from_ymd(2024, 2, 29).is_some());
    assert!(PostDate::from_ymd(2023, 2, 29).is_none());
    assert!(PostDate::from_ymd(1900, 2, 29).is_none());
    assert!(PostDate::from_ymd(2000, 2, 29).is_some());
    assert!(PostDate::from_ymd(2026, 13, 1).is_none());
    assert!(PostDate::from_ymd(2026, 4, 31).is_none());
    let date = PostDate::from_ymd(2026, 1, 2).unwrap();
    assert_eq!((date.year(), date.month(), date.day()), (2026, 1, 2));
}

#[test]
fn writes_dates_as_chrono_does() {
    let date = PostDate::from_ymd(2026, 1, 2).unwrap();
    assert_eq!(date.format("%Y-%m-%d"), "2026-01-02");
    assert_eq!(date.format("%B %e, %Y"), "January  2, 2026");
    assert_eq!(date.to_rfc2822(), "Fri, 2 Jan 2026 00:00:00 +0000");
    assert!(date.rank() < PostDate::from_ymd(2026, 1, 3).unwrap().rank());
    assert!(PostDate::from_ymd(2025, 12, 31).unwrap().rank() < date.rank());
}

#[test]
fn renders_plain_markdown() {
    assert_eq!(markdown_to_html("plain *text*"), "<p>plain <em>text</em></p>\n");
    assert_eq!(markdown_to_html("\"quoted\""), "<p>\u{201c}quoted\u{201d}</p>\n");
}

#[test]
fn highlights_every_code_block() {
    let events = vec![
        MdEvent::Text("a".to_owned()),
        MdEvent::CodeBlockStart(Some("  rust extra".to_owned())),
        MdEvent::Text("fn main() {}".to_owned()),
        MdEvent::SoftBreak,
        MdEvent::Code("x".to_owned()),
        MdEvent::CodeBlockEnd,
        MdEvent::HardBreak,
        MdEvent::CodeBlockStart(None),
        MdEvent::Text("<b>".to_owned()),
    ];
    let out = highlight_code_blocks(events);
    assert_eq!(out.len(), 4);
    assert!(matches!(&out[0], MdEvent::Text(t) if t == "a"));
    match &out[1] {
        MdEvent::Html(html) => {
            assert!(html.starts_with("<pre style=\"background-color:"));
            assert!(html.contains("main"));
        }
        _ => panic!("expected the highlighted block"),
    }
    assert!(matches!(&out[2], MdEvent::HardBreak));
    match &out[3] {
        MdEvent::Html(html) => assert!(html.contains("&lt;b&gt;")),
        _ => panic!("expected the highlighted block"),
    }
}

#[test]
fn leaves_events_without_code_blocks_alone() {
    let out = highlight_code_blocks(vec![MdEvent::Text("t".to_owned()), MdEvent::SoftBreak]);
    assert_eq!(out.len(), 2);
    assert!(matches!(&out[0], MdEvent::Text(t) if t == "t"));
    assert!(matches!(&out[1], MdEvent::SoftBreak));
}

#[test]
fn looks_up_embedded_files() {
    let (mut files, _) = sample_files();
    files.content.push(file("index.md", "second copy"));
    assert_eq!(content(&files, "index.md"), Some("---\n{}\n---\n# Home\n"));
    assert_eq!(content(&files, "missing.md"), None);
    assert_eq!(content_files(&files).len(), 6);
    assert_eq!(asset_url(&files, "css/main.css"), Some("/static/css/main-00000000000000ff.css"));
    assert_eq!(asset_url(&files, "css/other.css"), None);
    assert_eq!(static_file(&files, "css/main-00000000000000ff.css"), Some(&b"body {}"[..]));
    assert_eq!(static_file(&files, "css/main.css"), None);
    assert_eq!(embedded_content(&files, "index.md").unwrap(), "---\n{}\n---\n# Home\n");
    assert_eq!(error_of(embedded_content(&files, "nope.md")), "missing embedded content: nope.md");
}

#[test]
fn sorts_posts_newest_first_keeping_ties_in_order() {
    let posts = vec![
        post_on("a", 2026, 1, 2),
        post_on("b", 2026, 3, 4),
        post_on("c", 2026, 1, 2),
        post_on("d", 2025, 12, 31),
        post_on("e", 2026, 3, 4),
    ];
    let sorted = sort_newest_first(posts);
    let slugs: Vec<&str> = sorted.iter().map(|p| p.slug.as_str()).collect();
    assert_eq!(slugs, ["b", "e", "a", "c", "d"]);
}

#[test]
fn loads_posts_and_the_home_page() {
    let (files, parsed) = sample_files();
    let home = load_home(&files, &parsed).unwrap();
    assert_eq!(home.description, "A & B");
    assert!(home.body_html.contains("<h1>Home</h1>"));
    let posts = load_posts(&files, &parsed).unwrap();
    let slugs: Vec<&str> = posts.iter().map(|p| p.slug.as_str()).collect();
    assert_eq!(slugs, ["2026-01-02-first", "2026-03-04-second", "2026-01-02-third"]);
    assert_eq!(posts[0].date_label, "January  2, 2026");
    assert_eq!(posts[0].body_html, "<p>First</p>\n");
    assert_eq!(posts[0].source, "---\n{}\n---\nFirst\n");
    let one = load_post(&files, &parsed, "posts/2026-03-04-second.md").unwrap();
    assert_eq!(one.meta.title, "Second");
}

#[test]
fn reports_post_loading_errors() {
    let (mut files, mut parsed) = sample_files();
    assert_eq!(error_of(load_post(&files, &parsed, "posts/missing.md")), "missing embedded content: posts/missing.md");
    assert_eq!(
        error_of(load_post(&files, &parsed, "drafts/2026-05-05-draft.md")),
        "drafts/2026-05-05-draft.md: content must start with a frontmatter fence"
    );
    files.content.push(file("posts/undated.md", "---\n{}\n---\n"));
    parsed.push(post_meta("Undated"));
    assert_eq!(
        error_of(load_post(&files, &parsed, "posts/undated.md")),
        "posts/undated.md: post filename must start with YYYY-MM-DD-"
    );
    files.content.push(file("posts/2026-01-01-bad.md", "---\n{}\n---\n"));
    parsed.push(ParsedFrontmatter { home: Err(String::new()), post: Err("missing field `title`".to_owned()) });
    assert_eq!(
        error_of(load_post(&files, &parsed, "posts/2026-01-01-bad.md")),
        "invalid frontmatter in posts/2026-01-01-bad.md: missing field `title`"
    );
    files.content.push(file("notes/x.txt", "---\n{}\n---\n"));
    parsed.push(post_meta("X"));
    assert_eq!(error_of(load_post(&files, &parsed, "notes/x.txt")), "invalid post path: notes/x.txt");
    assert_eq!(
        error_of(load_posts(&files, &parsed)),
        "posts/undated.md: post filename must start with YYYY-MM-DD-"
    );
}

#[test]
fn loads_the_whole_site() {
    let (files, parsed) = sample_files();
    let site = match load_site(&files, &parsed) {
        Ok(site) => site,
        Err(e) => panic!("{}", e.to_string()),
    };
    let slugs: Vec<&str> = site.posts.iter().map(|p| p.slug.as_str()).collect();
    assert_eq!(slugs, ["2026-03-04-second", "2026-01-02-first", "2026-01-02-third"]);
    assert_eq!(site.search_items.len(), 3);
    assert_eq!(site.search_items[0].slug, "2026-03-04-second");
    assert_eq!(site.search_items[0].description, "About it");
    assert_eq!(site.search_items[0].tags, ["rust"]);
    assert!(site.rss_feed.contains("<description>A &amp; B</description>"));
    assert!(site.rss_feed.contains("<lastBuildDate>Wed, 4 Mar 2026 00:00:00 +0000</lastBuildDate>"));
    assert!(site.sitemap.contains("<url>\n<loc>https://n8m.us/</loc>\n<lastmod>2026-03-04</lastmod>\n</url>\n"));
    assert!(load_site_checked(&files, &parsed).is_some());
}

#[test]
fn reports_site_loading_errors() {
    let (mut files, mut parsed) = sample_files();
    parsed[0] = ParsedFrontmatter { home: Err("unknown field `x`".to_owned()), post: Err(String::new()) };
    assert_eq!(error_of(load_site(&files, &parsed)), "invalid frontmatter in index.md: unknown field `x`");
    files.content[0].path = "home.md".to_owned();
    assert_eq!(error_of(load_site(&files, &parsed)), "missing embedded content: index.md");
}

#[test]
fn refuses_feeds_it_cannot_date() {
    let (mut files, mut parsed) = sample_files();
    files.content.push(file("posts/-999-01-01-ancient.md", "---\n{}\n---\nOld\n"));
    parsed.push(post_meta("Ancient"));
    assert!(load_site_checked(&files, &parsed).is_none());
}

#[test]
fn writes_one_sitemap_url() {
    let mut sitemap = String::new();
    push_sitemap_url(&mut sitemap, "https://n8m.us/a&b", None);
    assert_eq!(sitemap, "<url>\n<loc>https://n8m.us/a&amp;b</loc>\n</url>\n");
}

#[test]
fn writes_a_complete_feed() {
    let home = HomePage { description: "D".to_owned(), source: String::new(), body_html: String::new() };
    let mut first = post_on("2026-01-02-x", 2026, 1, 2);
    first.meta = meta("X", None, &["t"]);
    let feed = build_rss_feed(&home, &[first]);
    assert_eq!(
        feed,
        "<?xml version=\"1.0\" encoding=\"UTF-8\"?>\n<rss version=\"2.0\" xmlns:atom=\"http://www.w3.org/2005/Atom\">\n<channel>\n<title>~/n8m.us</title>\n<link>https://n8m.us/</link>\n<description>D</description>\n<language>en-us</language>\n<atom:link href=\"https://n8m.us/feed.xml\" rel=\"self\" type=\"application/rss+xml\" />\n<lastBuildDate>Fri, 2 Jan 2026 00:00:00 +0000</lastBuildDate>\n<item>\n<title>X</title>\n<link>https://n8m.us/posts/2026-01-02-x</link>\n<guid isPermaLink=\"true\">https://n8m.us/posts/2026-01-02-x</guid>\n<pubDate>Fri, 2 Jan 2026 00:00:00 +0000</pubDate>\n<category>t</category>\n</item>\n</channel>\n</rss>\n"
    );
    let empty = build_rss_feed(&home, &[]);
    assert!(!empty.contains("lastBuildDate"));
    assert!(empty.ends_with("/>\n</channel>\n</rss>\n"));
}

#[test]
fn finds_markdown_qualities_in_accept_headers() {
    let values = vec![
        "text/html, TEXT/Markdown ; charset=utf-8; q=0.5".to_owned(),
        " text/markdown".to_owned(),
        "text/markdownx;q=1".to_owned(),
    ];
    assert_eq!(markdown_qualities(&values), vec![Some("0.5".to_owned()), None]);
    assert_eq!(markdown_qualities(&vec!["text/markdown;q=0".to_owned()]), vec![Some("0".to_owned())]);
    assert!(markdown_qualities(&vec![String::new()]).is_empty());
}

#[test]
fn answers_page_requests() {
    let (files, parsed) = sample_files();
    let site = match load_site(&files, &parsed) {
        Ok(site) => site,
        Err(e) => panic!("{}", e.to_string()),
    };
    assert!(matches!(index(&site, true), Page::Markdown(s) if s == "---\n{}\n---\n# Home\n"));
    assert!(matches!(index(&site, false), Page::Home));
    assert!(matches!(post(&site, "2026-01-02-first", true), Page::Markdown(s) if s == "---\n{}\n---\nFirst\n"));
    assert!(matches!(post(&site, "2026-01-02-first", false), Page::Post(p) if p.meta.title == "First"));
    assert!(matches!(post(&site, "missing", false), Page::NotFound));
    let css = asset(&files, "css/main-00000000000000ff.css").unwrap();
    assert_eq!(css.content_type, "text/css");
    assert_eq!(css.bytes, b"body {}");
    assert!(asset(&files, "css/main.css").is_none());
    assert_eq!(blog::router::asset_url(&files, "css/main.css"), "/static/css/main-00000000000000ff.css");
}

#[test]
fn keeps_search_entries_in_post_order() {
    let mut a = post_on("a", 2026, 1, 1);
    a.meta = meta("A", Some("about a"), &["x", "y"]);
    let b = post_on("b", 2026, 1, 1);
    let items = search_items(&[a, b]);
    assert_eq!(items.len(), 2);
    assert_eq!((items[0].slug.as_str(), items[0].title.as_str(), items[0].description.as_str()), ("a", "A", "about a"));
    assert_eq!(items[0].tags, ["x", "y"]);
    assert_eq!(items[1].description, "");
}
