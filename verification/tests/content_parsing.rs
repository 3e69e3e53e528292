use oinky::content::{parse_content_file, parse_content_file_entry, parse_content_file_meta,
    count_words, slug_for_path, parse_content_files};

#[test]
fn meta_round_trip() {
    let meta = parse_content_file_meta("---\ntitle: A\nlayout: post\n---\nBody");
    assert_eq!(meta.get("title").map(|s| s.as_str()), Some("A"));
    assert_eq!(meta.get("layout").map(|s| s.as_str()), Some("post"));
    assert_eq!(meta.get("body"), None);
    let entry = parse_content_file_entry("---\ntitle: A\nlayout: post\n---\nBody");
    assert!(entry.contains("Body"));
    assert!(!entry.starts_with("---"));
    assert!(!entry.contains("title"));
}

#[test]
fn meta_absent_block_is_empty() {
    let meta = parse_content_file_meta("Just a body, no metadata");
    assert_eq!(meta.get("title"), None);
}

#[test]
fn meta_unterminated_block_is_empty() {
    let meta = parse_content_file_meta("---\ntitle: A\nno closing line");
    assert_eq!(meta.get("title"), None);
}

#[test]
fn meta_line_without_colon_spoils_block() {
    let meta = parse_content_file_meta("---\ntitle: A\nbroken line\n---\nBody");
    assert_eq!(meta.get("title"), None);
}

#[test]
fn meta_dots_terminator_and_trimming() {
    let meta = parse_content_file_meta("---\n  title :  Spaced  \n...\nBody");
    assert_eq!(meta.get("title").map(|s| s.as_str()), Some("Spaced"));
}

#[test]
fn meta_later_duplicate_key_wins() {
    let meta = parse_content_file_meta("---\nk: one\nk: two\n---\n");
    assert_eq!(meta.get("k").map(|s| s.as_str()), Some("two"));
}

#[test]
fn entry_without_block_is_whole_text() {
    let entry = parse_content_file_entry("Hello *world*");
    assert!(entry.contains("<em>world</em>"));
}

#[test]
fn entry_is_rendered_markdown() {
    let entry = parse_content_file_entry("---\nt: v\n---\n# Title");
    assert!(entry.contains("<h1>"));
}

#[test]
fn slug_strips_root_and_suffix() {
    assert_eq!(slug_for_path("/site", "/site/posts/a.md"), "/posts/a");
    assert_eq!(slug_for_path("/site", "/site/posts/b.markdown"), "/posts/b");
    assert_eq!(slug_for_path("/site", "/elsewhere/c.md"), "/elsewhere/c");
}

#[test]
fn word_counting() {
    assert_eq!(count_words(""), 0);
    assert_eq!(count_words("   "), 0);
    assert_eq!(count_words("one"), 1);
    assert_eq!(count_words("  one  two\nthree "), 3);
}

#[test]
fn whole_file_parse() {
    let item = parse_content_file(
        "/site",
        String::from("/site/posts/a.md"),
        "---\ntitle: A\nlayout: post\n---\nBody",
    );
    assert_eq!(item.path, "/site/posts/a.md");
    assert_eq!(item.slug, "/posts/a");
    assert_eq!(item.meta.get("layout").map(|s| s.as_str()), Some("post"));
    assert!(item.entry.contains("Body"));
    assert_eq!(item.time_to_read, 0);
}

#[test]
fn batch_parse_keeps_order() {
    let files = vec![
        (String::from("/s/a.md"), String::from("---\nn: 1\n---\nA")),
        (String::from("/s/b.md"), String::from("---\nn: 2\n---\nB")),
    ];
    let items = parse_content_files("/s", files);
    assert_eq!(items.len(), 2);
    assert_eq!(items[0].slug, "/a");
    assert_eq!(items[1].slug, "/b");
    assert_eq!(items[1].meta.get("n").map(|s| s.as_str()), Some("2"));
}

#[test]
fn meta_empty_block() {
    let meta = parse_content_file_meta("---\n---\nBody");
    assert_eq!(meta.get("title"), None);
    let entry = parse_content_file_entry("---\n---\nBody");
    assert!(entry.contains("Body"));
}

#[test]
fn meta_windows_line_endings() {
    let meta = parse_content_file_meta("---\r\ntitle: A\r\n---\r\nBody");
    assert_eq!(meta.get("title").map(|s| s.as_str()), Some("A"));
    let entry = parse_content_file_entry("---\r\ntitle: A\r\n---\r\nBody");
    assert!(entry.contains("Body"));
}

#[test]
fn word_counting_unicode_whitespace() {
    // no-break space and em space separate words like ASCII whitespace
    assert_eq!(count_words("one\u{a0}two"), 2);
    assert_eq!(count_words("one\u{2003}two three"), 3);
    assert_eq!(count_words("\u{3000}"), 0);
}
