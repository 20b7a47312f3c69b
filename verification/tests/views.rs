use blog_markdown::config::Config;
use blog_markdown::index::generate_index;
use blog_markdown::rss::generate_feed;
use blog_markdown::store::{FileEntry, PostStore};
use blog_markdown::utils::{detect_language, detect_title_md};
use blog_markdown::PostId;

fn id(year: u16, month: u8, day: u8, hour: u8, minute: u8, second: u8) -> PostId {
    PostId { year, month, day, hour, minute, second }
}

fn entry(name: &str, contents: &str) -> FileEntry {
    FileEntry { name: name.to_string(), contents: contents.to_string() }
}

/// The localized date the index shows, computed independently through chrono.
fn en_gb_date(p: &PostId) -> String {
    let date = chrono::NaiveDate::from_ymd_opt(p.year as i32, p.month as u32, p.day as u32)
        .unwrap()
        .and_hms_opt(p.hour as u32, p.minute as u32, p.second as u32)
        .unwrap();
    date.format_with_items(chrono::format::StrftimeItems::new_with_locale(
        "%x",
        chrono::Locale::en_GB,
    ))
    .to_string()
}

#[test]
fn title_is_the_first_level_one_heading() {
    assert_eq!(
        detect_title_md("# My title\nSome text"),
        Some("My title".to_string())
    );
    assert_eq!(detect_title_md("text\n# Later title\nmore"), Some("Later title".to_string()));
    assert_eq!(
        detect_title_md("## second level\n# real\n"),
        Some("real".to_string())
    );
}

#[test]
fn title_requires_the_space_after_the_hash() {
    assert_eq!(detect_title_md("#Title\nText"), None);
    assert_eq!(detect_title_md("Text without headings"), None);
    assert_eq!(detect_title_md(""), None);
    assert_eq!(detect_title_md("#"), None);
}

#[test]
fn title_is_trimmed() {
    assert_eq!(detect_title_md("#   padded   \nx"), Some("padded".to_string()));
    assert_eq!(detect_title_md("# "), Some("".to_string()));
    assert_eq!(detect_title_md("line\r\n# crlf title\r\nrest"), Some("crlf title".to_string()));
}

#[test]
fn title_trimming_covers_unicode_whitespace() {
    assert_eq!(
        detect_title_md("# \u{a0}padded\u{a0}\u{2003}\nx"),
        Some("padded".to_string())
    );
}

#[test]
fn only_the_first_heading_counts() {
    assert_eq!(
        detect_title_md("# first\n# second"),
        Some("first".to_string())
    );
}

#[test]
fn language_falls_back_without_a_usable_header() {
    assert_eq!(detect_language(None), "en_GB");
    assert_eq!(detect_language(Some("")), "en_GB");
    assert_eq!(detect_language(Some("xx-notalocale")), "en_GB");
    assert_eq!(detect_language(Some("en-US, en;q=0.5")), "en_GB");
}

#[test]
fn language_takes_the_best_supported_preference() {
    assert_eq!(detect_language(Some("POSIX")), "POSIX");
    assert_eq!(detect_language(Some("aa_DJ;q=0.1, POSIX")), "POSIX");
}

#[test]
fn language_treats_nan_qualities_as_invalid() {
    assert_eq!(detect_language(Some("aa_DJ;q=nan, POSIX")), "en_GB");
    assert_eq!(detect_language(Some("POSIX;q=NaN")), "en_GB");
    assert_eq!(detect_language(Some("POSIX;q= -nan")), "en_GB");
}

#[test]
fn language_accepts_nan_outside_a_quality() {
    // The Min Nan language tag is a supported locale, not a quality.
    assert_eq!(detect_language(Some("nan_TW")), "nan_TW");
    assert_eq!(detect_language(Some("banana;q=0.5, POSIX")), "POSIX");
}

#[test]
fn index_of_empty_listing_is_empty() {
    let entries: Vec<FileEntry> = Vec::new();
    assert_eq!(generate_index(&entries, "en_GB"), "");
}

#[test]
fn index_renders_one_line_per_post_newest_first() {
    let older = id(2015, 9, 18, 23, 56, 4);
    let newer = id(2016, 1, 2, 3, 4, 5);
    let mut store = PostStore::new();
    store.create(&older, "older body".to_string());
    store.create(&newer, "newer body".to_string());
    let text = generate_index(store.list(), "en_GB");
    let expected = format!(
        "\n[{}](post/2016-01-02_03-04-05)\n\n[{}](post/2015-09-18_23-56-04)\n",
        en_gb_date(&newer),
        en_gb_date(&older)
    );
    assert_eq!(text, expected);
}

#[test]
fn index_bolds_the_title_when_there_is_one() {
    let p = id(2015, 9, 18, 23, 56, 4);
    let mut store = PostStore::new();
    store.create(&p, "# Title\nText".to_string());
    let text = generate_index(store.list(), "en_GB");
    let expected = format!(
        "\n**Title**  \n[{}](post/2015-09-18_23-56-04)\n",
        en_gb_date(&p)
    );
    assert_eq!(text, expected);
}

#[test]
fn index_skips_entries_whose_stem_does_not_parse() {
    let p = id(2015, 9, 18, 23, 56, 4);
    let entries = vec![
        entry("notes.txt", "not a post"),
        entry("2015-09-18_23-56-04.md", "body"),
        entry("README.md", "# readme"),
        entry("2015-13-99_00-00-00.md", "bad stem"),
    ];
    let text = generate_index(&entries, "en_GB");
    let expected = format!("\n[{}](post/2015-09-18_23-56-04)\n", en_gb_date(&p));
    assert_eq!(text, expected);
}

#[test]
fn index_includes_a_parseable_name_without_extension() {
    let p = id(2015, 9, 18, 23, 56, 4);
    let entries = vec![entry("2015-09-18_23-56-04", "bare file")];
    let text = generate_index(&entries, "en_GB");
    let expected = format!("\n[{}](post/2015-09-18_23-56-04)\n", en_gb_date(&p));
    assert_eq!(text, expected);
}

#[test]
fn index_is_idempotent() {
    let entries = vec![
        entry("2015-09-18_23-56-04.md", "# A\nbody"),
        entry("2016-01-02_03-04-05.md", "other"),
    ];
    let once = generate_index(&entries, "en_GB");
    let twice = generate_index(&entries, "en_GB");
    assert_eq!(once, twice);
}

/// The document the feed generator must produce, built independently through
/// the syndication crate.
fn expected_feed(config: &Config, items: Vec<(String, String, String)>) -> String {
    let mut self_link = atom_syndication::Link::default();
    self_link.set_href(format!("https://{}/rss", config.hostname));
    let entries = items
        .into_iter()
        .map(|(title, content, href)| {
            let mut c = atom_syndication::Content::default();
            c.set_value(content);
            let mut l = atom_syndication::Link::default();
            l.set_href(href);
            atom_syndication::Entry {
                title: title.into(),
                content: Some(c),
                links: vec![l],
                ..Default::default()
            }
        })
        .collect();
    let feed = atom_syndication::Feed {
        title: config.rss_title.clone().into(),
        subtitle: Some(atom_syndication::Text::from(
            config.rss_subtitle.clone().unwrap_or_default(),
        )),
        links: vec![self_link],
        entries,
        ..Default::default()
    };
    feed.to_string()
}

#[test]
fn feed_has_the_configured_title_and_one_entry_per_md_file() {
    let config = Config::default();
    let entries = vec![
        entry("2015-09-18_23-56-04.md", "first body"),
        entry("notes.txt", "not a post"),
        entry("anything.md", "second body"),
    ];
    let text = generate_feed(&entries, &config);
    assert!(text.contains("<title>My blog</title>"));
    assert_eq!(text.matches("<entry>").count(), 2);
}

#[test]
fn feed_lists_two_posts_in_listing_order_with_raw_bodies() {
    let a = id(2015, 9, 18, 23, 56, 4);
    let b = id(2016, 1, 2, 3, 4, 5);
    let mut store = PostStore::new();
    store.create(&a, "first body".to_string());
    store.create(&b, "second body".to_string());
    let config = Config::default();
    let text = generate_feed(store.list(), &config);
    assert_eq!(text.matches("<entry>").count(), 2);
    let expected = expected_feed(
        &config,
        vec![
            (
                "2015-09-18_23-56-04".to_string(),
                "first body".to_string(),
                "https://blog.example.net/post/2015-09-18_23-56-04".to_string(),
            ),
            (
                "2016-01-02_03-04-05".to_string(),
                "second body".to_string(),
                "https://blog.example.net/post/2016-01-02_03-04-05".to_string(),
            ),
        ],
    );
    assert_eq!(text, expected);
}

#[test]
fn feed_uses_the_title_when_the_body_has_one() {
    let config = Config::default();
    let entries = vec![entry("2015-09-18_23-56-04.md", "# A real title\nBody")];
    let text = generate_feed(&entries, &config);
    assert!(text.contains("<title>A real title</title>"));
}

#[test]
fn feed_skips_a_bare_dot_md_name() {
    let config = Config::default();
    let entries = vec![entry(".md", "hidden file")];
    let text = generate_feed(&entries, &config);
    assert_eq!(text.matches("<entry>").count(), 0);
}

#[test]
fn feed_is_idempotent() {
    let config = Config::default();
    let entries = vec![
        entry("2015-09-18_23-56-04.md", "# A\nbody"),
        entry("other.md", "text"),
    ];
    let once = generate_feed(&entries, &config);
    let twice = generate_feed(&entries, &config);
    assert_eq!(once, twice);
}

#[test]
fn create_read_index_delete_scenario() {
    let mut store = PostStore::new();
    let p = id(2015, 9, 18, 23, 56, 4);
    store.create(&p, "#Title\nText".to_string());
    let canonical = p.canonical_string();
    assert_eq!(canonical, "2015-09-18_23-56-04");
    assert_eq!(store.read(&p).unwrap(), "#Title\nText");
    // The marker needs a space, so this body has no title: one plain line.
    let text = generate_index(store.list(), "en_GB");
    let expected = format!("\n[{}](post/{})\n", en_gb_date(&p), canonical);
    assert_eq!(text, expected);
    store.delete(&p).unwrap();
    assert_eq!(generate_index(store.list(), "en_GB"), "");
    let config = Config::default();
    assert_eq!(
        generate_feed(store.list(), &config),
        expected_feed(&config, Vec::new())
    );
}
