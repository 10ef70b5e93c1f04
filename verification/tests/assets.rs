use blog::assets::{content_hash, fingerprint_of, fingerprinted_path, insert_font_url, merge_stylesheets};
use blog::embedded::{asset_url, path_le_exec, sort_paths, static_file, ContentFile, EmbeddedFiles, StaticFile};

#[test]
fn hashes_with_fnv1a() {
    assert_eq!(content_hash(b""), 0xcbf2_9ce4_8422_2325);
    assert_eq!(content_hash(b"a"), 0xaf63_dc4c_8601_ec8c);
    assert_eq!(content_hash(b"foobar"), 0x8594_4171_f739_67e8);
}

#[test]
fn names_fingerprinted_assets() {
    assert_eq!(
        fingerprinted_path(Some("css"), "main", Some("css"), 0xff),
        "css/main-00000000000000ff.css"
    );
    assert_eq!(
        fingerprinted_path(None, "LICENSE", None, 0x0123_4567_89ab_cdef),
        "LICENSE-0123456789abcdef"
    );
    assert_ne!(
        fingerprinted_path(Some("fonts"), "FiraCode-VF", Some("woff2"), 1),
        fingerprinted_path(Some("fonts"), "FiraCode-VF", Some("woff2"), 2)
    );
}

#[test]
fn merges_stylesheets_with_blank_lines() {
    let sheets = vec!["a {}".to_owned(), "b {}\n".to_owned(), String::new()];
    assert_eq!(merge_stylesheets(&sheets), "a {}\n\nb {}\n\n\n\n");
    assert_eq!(merge_stylesheets(&Vec::new()), "");
}

#[test]
fn puts_the_font_url_in_its_one_place() {
    assert_eq!(
        insert_font_url("src: url(__FIRA_CODE_URL__);", "/static/f.woff2"),
        Some("src: url(/static/f.woff2);".to_owned())
    );
    assert_eq!(insert_font_url("no placeholder", "/x"), None);
    assert_eq!(insert_font_url("__FIRA_CODE_URL__ __FIRA_CODE_URL__", "/x"), None);
    assert_eq!(
        insert_font_url("__FIRA_CODE_URL__FIRA_CODE_URL__", "/x"),
        Some("/xFIRA_CODE_URL__".to_owned())
    );
}

#[test]
fn fingerprints_paths_as_std_splits_them() {
    assert_eq!(fingerprint_of("css/main.css", 0xff), Some("css/main-00000000000000ff.css".to_owned()));
    assert_eq!(
        fingerprint_of("fonts/FiraCode-VF.woff2", 1),
        Some("fonts/FiraCode-VF-0000000000000001.woff2".to_owned())
    );
    assert_eq!(fingerprint_of("a/b/c.tar.gz", 2), Some("a/b/c.tar-0000000000000002.gz".to_owned()));
    assert_eq!(fingerprint_of("LICENSE", 3), Some("LICENSE-0000000000000003".to_owned()));
    assert_eq!(fingerprint_of("x/.hidden", 4), Some("x/.hidden-0000000000000004".to_owned()));
    assert_eq!(fingerprint_of("", 5), None);
    assert_eq!(fingerprint_of("a/..", 6), None);
}

#[test]
fn serves_each_asset_at_the_url_it_is_given() {
    let css = StaticFile::new("css/main.css".to_owned(), b"body {}".to_vec()).unwrap();
    let hash = content_hash(b"body {}");
    assert_eq!(css.fingerprinted, fingerprinted_path(Some("css"), "main", Some("css"), hash));
    assert_eq!(css.public_url, format!("/static/{}", css.fingerprinted));
    let font = StaticFile::new("fonts/f.woff2".to_owned(), vec![1, 2, 3]).unwrap();
    assert!(StaticFile::new("a/..".to_owned(), vec![]).is_none());
    let files = EmbeddedFiles { content: vec![], statics: vec![css, font] };
    for (path, bytes) in [("css/main.css", &b"body {}"[..]), ("fonts/f.woff2", &[1u8, 2, 3][..])] {
        let url = asset_url(&files, path).unwrap();
        let served = url.strip_prefix("/static/").unwrap();
        assert_eq!(static_file(&files, served), Some(bytes));
    }
    assert_eq!(static_file(&files, "css/main.css"), None);
}

#[test]
fn orders_paths_as_strings_do() {
    assert!(path_le_exec("a", "b"));
    assert!(path_le_exec("posts/a.md", "posts/a.md"));
    assert!(path_le_exec("post", "posts"));
    assert!(!path_le_exec("posts", "post"));
    assert!(path_le_exec("Z", "a"));
    let paths = vec!["b.md".to_owned(), "a/c.md".to_owned(), "a.md".to_owned(), "é".to_owned()];
    let mut expected = paths.clone();
    expected.sort_unstable();
    assert_eq!(sort_paths(paths), expected);
}

#[test]
fn builds_the_tables_of_site_files() {
    let file = |path: &str| ContentFile { path: path.to_owned(), source: path.to_owned() };
    let content = vec![file("posts/b.md"), file("robots.txt"), file("index.md"), file("posts/a.md")];
    let statics = vec![
        ("css/main.css".to_owned(), b"body {}".to_vec()),
        ("fonts/f.woff2".to_owned(), vec![1, 2, 3]),
    ];
    let files = EmbeddedFiles::new(content, statics).unwrap();
    let paths: Vec<&str> = files.content.iter().map(|f| f.path.as_str()).collect();
    assert_eq!(paths, ["index.md", "posts/a.md", "posts/b.md"]);
    assert_eq!(files.statics.len(), 2);
    assert_eq!(files.statics[1].path, "fonts/f.woff2");
    let url = asset_url(&files, "fonts/f.woff2").unwrap();
    assert_eq!(static_file(&files, url.strip_prefix("/static/").unwrap()), Some(&[1u8, 2, 3][..]));
    assert!(EmbeddedFiles::new(vec![], vec![("a/..".to_owned(), vec![])]).is_none());
}
