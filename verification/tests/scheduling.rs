use oinky::cache::{KeyedCache, TimedCache};
use oinky::classify::{
    classify_change, filter_files, find_partials, is_asset_file, is_data_file,
    is_handlebars_file, is_handlebars_page_file, is_markdown_file, reaction_plan, FileType,
};
use oinky::content::{ContentItem, StrMap};
use oinky::schedule::{
    asset_target_path, chunk_items, content_item_job, template_item_job, Debouncer,
};

#[test]
fn classify_layout_template() {
    let d = "/site";
    let p = "/site/_layouts/post.hbs";
    assert!(is_handlebars_file(d, p));
    assert!(!is_handlebars_page_file(d, p));
    assert!(!is_markdown_file(d, p));
    assert!(!is_asset_file(d, p));
    let c = classify_change(d, p);
    assert!(c.layout_template && !c.page_template && !c.data && !c.content && !c.asset);
}

#[test]
fn classify_page_template() {
    let c = classify_change("/site", "/site/about.hbs");
    assert!(c.layout_template && c.page_template);
    let plan = reaction_plan(&c);
    assert!(plan.full_compile && plan.template_recompile);
    assert!(!plan.asset_resync && !plan.content_recompile);
}

#[test]
fn classify_content_file() {
    let c = classify_change("/site", "/site/posts/a.md");
    assert!(c.content && !c.layout_template && !c.data && !c.asset);
    let plan = reaction_plan(&c);
    assert!(plan.content_recompile && !plan.full_compile);
}

#[test]
fn classify_data_file() {
    assert!(is_data_file("/site", "/site/content.json"));
    assert!(is_data_file("/site", "/site/site.json"));
    assert!(!is_data_file("/site", "/site/other.json"));
    let plan = reaction_plan(&classify_change("/site", "/site/site.json"));
    assert!(plan.full_compile);
}

#[test]
fn classify_asset_file() {
    assert!(is_asset_file("/site", "/site/img/logo.png"));
    assert!(!is_asset_file("/site", "/site/.git/config"));
    assert!(!is_asset_file("/site", "/site/public/out.css"));
    assert!(!is_asset_file("/site", "/site/node_modules/x/y.js"));
    let plan = reaction_plan(&classify_change("/site", "/site/img/logo.png"));
    assert!(plan.asset_resync && !plan.full_compile);
}

#[test]
fn filtering_keeps_order() {
    let paths = vec![
        String::from("/site/a.md"),
        String::from("/site/b.hbs"),
        String::from("/site/c.md"),
        String::from("/site/_layouts/d.md"),
    ];
    let md = filter_files("/site", paths, &FileType::Markdown);
    assert_eq!(md, vec![String::from("/site/a.md"), String::from("/site/c.md")]);
}

#[test]
fn partials_are_named_from_their_file() {
    let parts = find_partials(vec![String::from("/site/_partials/head.hbs")]);
    assert_eq!(parts.len(), 1);
    assert_eq!(parts[0].name, "head");
    assert_eq!(parts[0].path, "/site/_partials/head.hbs");
}

#[test]
fn chunking_partitions_in_order() {
    let chunks = chunk_items(vec![1u32, 2, 3, 4, 5], 2);
    assert_eq!(chunks, vec![vec![1u32, 2], vec![3, 4], vec![5]]);
    let none: Vec<Vec<u32>> = chunk_items(Vec::<u32>::new(), 3);
    assert!(none.is_empty());
}

#[test]
fn content_job_paths() {
    let mut meta = StrMap::new();
    meta.insert(String::from("layout"), String::from("post"));
    let item = ContentItem {
        path: String::from("/site/posts/a.md"),
        slug: String::from("/posts/a"),
        meta,
        entry: String::new(),
        time_to_read: 0,
    };
    let job = content_item_job("/site", &item).expect("a job");
    assert_eq!(job.template_path, "/site/_layouts/post.hbs");
    assert_eq!(job.write_path, "/site/public/posts/a/index.html");
}

#[test]
fn content_without_layout_is_skipped() {
    let item = ContentItem {
        path: String::from("/site/posts/a.md"),
        slug: String::from("/posts/a"),
        meta: StrMap::new(),
        entry: String::new(),
        time_to_read: 0,
    };
    assert!(content_item_job("/site", &item).is_none());
}

#[test]
fn template_job_paths() {
    let job = template_item_job("/site", "/site/about.hbs");
    assert_eq!(job.slug, "/about");
    assert_eq!(job.write_path, "/site/public/about");
}

#[test]
fn asset_paths() {
    assert_eq!(asset_target_path("/site", "/site/img/logo.png"), "/site/public/img/logo.png");
}

#[test]
fn debounce_coalesces_burst_to_one_reaction() {
    let mut d = Debouncer::new(1000);
    d.observe(String::from("/site/a.md"), 0);
    d.observe(String::from("/site/a.md"), 500);
    // within the window after the last event: nothing fires
    assert_eq!(d.poll(1400), None);
    // after the window: exactly one reaction, carrying the latest path
    assert_eq!(d.poll(1500), Some(String::from("/site/a.md")));
    assert_eq!(d.poll(1600), None);
}

#[test]
fn debounce_carries_most_recent_path() {
    let mut d = Debouncer::new(1000);
    d.observe(String::from("/site/a.md"), 0);
    d.observe(String::from("/site/b.md"), 900);
    assert_eq!(d.poll(1000), None);
    assert_eq!(d.poll(1900), Some(String::from("/site/b.md")));
}

#[test]
fn timed_cache_window() {
    let mut c: TimedCache<u32> = TimedCache::new(2000);
    assert_eq!(c.get(0), None);
    c.put(42, 0);
    assert_eq!(c.get(1999), Some(&42));
    assert_eq!(c.get(2000), None);
    c.put(7, 2500);
    assert_eq!(c.get(2600), Some(&7));
}

#[test]
fn keyed_cache_window_and_overwrite() {
    let mut c: KeyedCache<String> = KeyedCache::new(1000);
    assert_eq!(c.get("config", 0), None);
    c.put(String::from("config"), String::from("v1"), 0);
    c.put(String::from("site"), String::from("s1"), 0);
    assert_eq!(c.get("config", 500).map(|s| s.as_str()), Some("v1"));
    assert_eq!(c.get("site", 500).map(|s| s.as_str()), Some("s1"));
    assert_eq!(c.get("config", 1000), None);
    c.put(String::from("config"), String::from("v2"), 1200);
    assert_eq!(c.get("config", 1300).map(|s| s.as_str()), Some("v2"));
}

#[test]
fn chunking_exact_multiple() {
    let chunks = chunk_items(vec![1u32, 2, 3, 4], 2);
    assert_eq!(chunks, vec![vec![1u32, 2], vec![3, 4]]);
}
