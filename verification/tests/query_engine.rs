use oinky::content::{ContentItem, StrMap};
use oinky::dsl::{
    compose_content_from_dsl, dsl_group, dsl_group_by_grouper, dsl_group_order_limit,
    dsl_sort_order_limit, parse_remote_body, plan_content_source, resolve_entry, wrap_pulled,
    ContentDSLItem, ContentGroup, DslError, EntryInput, SourcePlan, TemplateContentDSLItem,
};
use oinky::fields::{get_field_by_name, FieldError, FieldValue};
use oinky::sorting::sort_content_items;

fn item(slug: &str, date: &str) -> ContentItem {
    let mut meta = StrMap::new();
    if !date.is_empty() {
        meta.insert(String::from("date"), String::from(date));
    }
    ContentItem {
        path: format!("/site{}.md", slug),
        slug: String::from(slug),
        meta,
        entry: String::new(),
        time_to_read: 0,
    }
}

fn entry(name: &str, from: &str) -> ContentDSLItem {
    ContentDSLItem {
        name: String::from(name),
        from: String::from(from),
        sort_by: None,
        group_by: None,
        group_by_order: None,
        group_by_limit: None,
        order: None,
        limit: None,
        headers: None,
    }
}

#[test]
fn test_get_field_by_name() {
    let item = ContentItem {
        path: "test-path".to_string(),
        slug: "test-slug".to_string(),
        meta: StrMap::new(),
        entry: "test-entry".to_string(),
        time_to_read: 0,
    };

    let path = get_field_by_name(&item, "path");
    assert_eq!(Ok(FieldValue::Text("test-path".to_string())), path);

    let slug = get_field_by_name(&item, "slug");
    assert_eq!(Ok(FieldValue::Text("test-slug".to_string())), slug);

    let entry = get_field_by_name(&item, "entry");
    assert_eq!(Ok(FieldValue::Text("test-entry".to_string())), entry);

    let time_to_read = get_field_by_name(&item, "time_to_read");
    assert_eq!(Ok(FieldValue::Count(0)), time_to_read);

    let field_that_doesnt_exist = get_field_by_name(&item, "doesnt_exist");
    assert_eq!(Err(FieldError::NoSuchField), field_that_doesnt_exist);
}

#[test]
fn field_meta_is_not_a_string() {
    let it = item("/a", "2020-01-01");
    assert_eq!(get_field_by_name(&it, "meta"), Err(FieldError::TypeMismatch));
}

#[test]
fn sort_ascending_then_descending_reverses() {
    let make = || vec![item("/b", ""), item("/a", ""), item("/c", "")];
    let mut asc = make();
    sort_content_items(&mut asc, String::from("slug"), String::from("asc"));
    let mut desc = make();
    sort_content_items(&mut desc, String::from("slug"), String::from("desc"));
    let asc_slugs: Vec<&str> = asc.iter().map(|i| i.slug.as_str()).collect();
    let desc_slugs: Vec<&str> = desc.iter().map(|i| i.slug.as_str()).collect();
    assert_eq!(asc_slugs, vec!["/a", "/b", "/c"]);
    let mut reversed = asc_slugs.clone();
    reversed.reverse();
    assert_eq!(desc_slugs, reversed);
}

#[test]
fn sort_is_stable_on_ties() {
    let mut items = vec![item("/first", "2020-01-01"), item("/second", "2020-01-01")];
    sort_content_items(&mut items, String::from("meta.date"), String::from("asc"));
    assert_eq!(items[0].slug, "/first");
    assert_eq!(items[1].slug, "/second");
    let mut items = vec![item("/first", "2020-01-01"), item("/second", "2020-01-01")];
    sort_content_items(&mut items, String::from("meta.date"), String::from("desc"));
    assert_eq!(items[0].slug, "/first");
    assert_eq!(items[1].slug, "/second");
}

#[test]
fn sort_missing_meta_key_compares_as_empty() {
    let mut items = vec![item("/dated", "2020-01-01"), item("/undated", "")];
    sort_content_items(&mut items, String::from("meta.date"), String::from("asc"));
    assert_eq!(items[0].slug, "/undated");
    assert_eq!(items[1].slug, "/dated");
}

#[test]
fn grouper_date_modifiers() {
    let it = item("/a", "2023-06-01");
    assert_eq!(dsl_group_by_grouper(&it, &String::from("meta.date|year")), "2023");
    assert_eq!(dsl_group_by_grouper(&it, &String::from("meta.date|month")), "06");
    assert_eq!(dsl_group_by_grouper(&it, &String::from("meta.date|day")), "01");
    assert_eq!(dsl_group_by_grouper(&it, &String::from("meta.date")), "2023-06-01");
    assert_eq!(dsl_group_by_grouper(&it, &String::from("meta.date|upside")), "2023-06-01");
    assert_eq!(dsl_group_by_grouper(&it, &String::from("slug")), "/a");
}

#[test]
fn limit_zero_yields_empty() {
    let mut e = entry("posts", "posts");
    e.limit = Some(0);
    let out = dsl_sort_order_limit(&e, vec![item("/a", ""), item("/b", "")]);
    assert!(out.is_empty());
}

#[test]
fn group_limit_zero_yields_zero_groups() {
    let groups = dsl_group(
        vec![item("/a", "2021-01-01"), item("/b", "2022-01-01")],
        String::from("meta.date|year"),
        None,
        Some(0),
    );
    assert!(groups.is_empty());
}

#[test]
fn empty_group_by_yields_empty_grouped_map() {
    let groups = dsl_group(
        vec![item("/a", "2021-01-01")],
        String::new(),
        Some(String::from("asc")),
        None,
    );
    assert!(groups.is_empty());
}

#[test]
fn grouping_preserves_within_group_order() {
    // sorted beforehand, grouped by year: each group keeps the sorted order
    let mut items = vec![
        item("/a", "2021-03-01"),
        item("/b", "2021-01-01"),
        item("/c", "2022-02-01"),
        item("/d", "2021-02-01"),
    ];
    sort_content_items(&mut items, String::from("meta.date"), String::from("asc"));
    let groups = dsl_group(items, String::from("meta.date|year"), Some(String::from("asc")), None);
    assert_eq!(groups.len(), 2);
    assert_eq!(groups[0].key, "2021");
    let slugs: Vec<&str> = groups[0].items.iter().map(|i| i.slug.as_str()).collect();
    assert_eq!(slugs, vec!["/b", "/d", "/a"]);
    assert_eq!(groups[1].key, "2022");
    assert_eq!(groups[1].items.len(), 1);
    // flattening the groups reproduces every record exactly once
    let total: usize = groups.iter().map(|g| g.items.len()).sum();
    assert_eq!(total, 4);
}

#[test]
fn group_keys_ordered_and_limited() {
    let groups = vec![
        ContentGroup { key: String::from("2021"), items: vec![item("/a", "")] },
        ContentGroup { key: String::from("2023"), items: vec![item("/b", "")] },
        ContentGroup { key: String::from("2022"), items: vec![item("/c", "")] },
    ];
    let ordered = dsl_group_order_limit(groups, String::from("desc"), Some(2));
    let keys: Vec<&str> = ordered.iter().map(|g| g.key.as_str()).collect();
    assert_eq!(keys, vec!["2023", "2022"]);
}

#[test]
fn group_keys_ascending_by_default_string_order() {
    let groups = vec![
        ContentGroup { key: String::from("b"), items: vec![item("/a", "")] },
        ContentGroup { key: String::from("a"), items: vec![item("/b", "")] },
    ];
    let ordered = dsl_group_order_limit(groups, String::from("asc"), None);
    let keys: Vec<&str> = ordered.iter().map(|g| g.key.as_str()).collect();
    assert_eq!(keys, vec!["a", "b"]);
}

#[test]
fn grouping_defaults_to_descending_keys() {
    let groups = dsl_group(
        vec![item("/a", "2021-01-01"), item("/b", "2022-01-01")],
        String::from("meta.date|year"),
        None,
        None,
    );
    assert_eq!(groups[0].key, "2022");
    assert_eq!(groups[1].key, "2021");
}

#[test]
fn source_plans() {
    let d = "/site";
    assert!(matches!(
        plan_content_source(d, &entry("x", "https://example.org/feed")),
        SourcePlan::Remote
    ));
    match plan_content_source(d, &entry("x", "posts/a.md")) {
        SourcePlan::SingleFile(p) => assert_eq!(p, "/site/posts/a.md"),
        _ => panic!("expected a single file"),
    }
    match plan_content_source(d, &entry("x", "posts")) {
        SourcePlan::Directory(p) => assert_eq!(p, "/site/posts"),
        _ => panic!("expected a directory"),
    }
}

#[test]
fn recent_posts_scenario() {
    let mut e = entry("posts", "posts");
    e.sort_by = Some(String::from("meta.date"));
    e.order = Some(String::from("desc"));
    e.limit = Some(2);
    let items = vec![
        item("/p1", "2021-01-01"),
        item("/p2", "2022-01-01"),
        item("/p3", "2023-01-01"),
    ];
    let r = resolve_entry("/site", e, EntryInput::Items(items)).expect("an entry");
    assert_eq!(r.name, "posts");
    match r.content {
        TemplateContentDSLItem::Normal(v) => {
            assert_eq!(v.len(), 2);
            assert_eq!(v[0].slug, "/p3");
            assert_eq!(v[1].slug, "/p2");
        },
        _ => panic!("expected the flat shape"),
    }
}

#[test]
fn resolver_flat_for_omitted_and_for_empty_group_by() {
    // group_by omitted entirely: the flat variant
    let e1 = entry("a", "posts");
    let r1 = resolve_entry("/site", e1, EntryInput::Items(vec![item("/x", "")])).unwrap();
    match r1.content {
        TemplateContentDSLItem::Normal(v) => assert_eq!(v.len(), 1),
        _ => panic!("expected the flat shape"),
    }
    // group_by explicitly empty: grouping yields the empty grouped map,
    // which the resolver reads as "fall back to the flat shape"
    let mut e2 = entry("b", "posts");
    e2.group_by = Some(String::new());
    let r2 = resolve_entry("/site", e2, EntryInput::Items(vec![item("/x", "")])).unwrap();
    match r2.content {
        TemplateContentDSLItem::Normal(v) => assert_eq!(v.len(), 1),
        _ => panic!("expected the flat shape"),
    }
}

#[test]
fn resolver_single_file() {
    let e = entry("one", "posts/a.md");
    let r = resolve_entry("/site", e, EntryInput::Items(vec![item("/posts/a", "")])).unwrap();
    match r.content {
        TemplateContentDSLItem::Single(it) => assert_eq!(it.slug, "/posts/a"),
        _ => panic!("expected a single record"),
    }
    // an unparsable or missing file yields no entry
    let e = entry("one", "posts/a.md");
    assert!(resolve_entry("/site", e, EntryInput::Items(vec![])).is_none());
}

#[test]
fn resolver_remote() {
    let e = entry("feed", "https://example.org/feed.json");
    let payload = parse_remote_body(Some(String::from("{\"a\": 1}")));
    let r = resolve_entry("/site", e, EntryInput::Fetched(payload)).expect("an entry");
    match r.content {
        TemplateContentDSLItem::Pulled(v) => assert_eq!(v["a"], 1),
        _ => panic!("expected a pulled value"),
    }
    let e = entry("feed", "https://example.org/feed.json");
    let bad = parse_remote_body(Some(String::from("not json")));
    assert!(bad.is_none());
    assert!(resolve_entry("/site", e, EntryInput::Fetched(bad)).is_none());
    let e = entry("feed", "https://example.org/feed.json");
    assert!(parse_remote_body(None).is_none());
    assert!(resolve_entry("/site", e, EntryInput::Fetched(None)).is_none());
}

#[test]
fn wrap_pulled_carries_the_value() {
    let v: serde_json::Value = serde_json::from_str("[1, 2]").unwrap();
    let r = wrap_pulled(String::from("n"), Some(v)).unwrap();
    match r.content {
        TemplateContentDSLItem::Pulled(v) => assert_eq!(v[1], 2),
        _ => panic!("expected a pulled value"),
    }
    assert!(wrap_pulled(String::from("n"), None).is_none());
}

#[test]
fn compose_rejects_unknown_field() {
    let mut bad = entry("posts", "posts");
    bad.sort_by = Some(String::from("nope"));
    let r = compose_content_from_dsl(
        "/site",
        vec![(bad, EntryInput::Items(vec![]))],
    );
    assert_eq!(r.unwrap_err(), DslError::UnknownField(String::from("nope")));
}

#[test]
fn compose_collects_by_name_in_order() {
    let e1 = entry("a", "posts");
    let e2 = entry("b", "pages");
    let out = compose_content_from_dsl(
        "/site",
        vec![
            (e1, EntryInput::Items(vec![item("/x", "")])),
            (e2, EntryInput::Items(vec![])),
        ],
    )
    .unwrap();
    assert_eq!(out.len(), 2);
    assert_eq!(out[0].name, "a");
    assert_eq!(out[1].name, "b");
}

#[test]
fn compose_later_entry_overwrites_same_name() {
    let e1 = entry("a", "posts");
    let e2 = entry("a", "pages");
    let out = compose_content_from_dsl(
        "/site",
        vec![
            (e1, EntryInput::Items(vec![item("/x", "")])),
            (e2, EntryInput::Items(vec![item("/y", ""), item("/z", "")])),
        ],
    )
    .unwrap();
    assert_eq!(out.len(), 1);
    match &out[0].content {
        TemplateContentDSLItem::Normal(v) => assert_eq!(v.len(), 2),
        _ => panic!("expected the flat shape"),
    }
}

#[test]
fn compose_omits_failed_remote_entries() {
    let e = entry("feed", "https://example.org/feed.json");
    let out = compose_content_from_dsl("/site", vec![(e, EntryInput::Fetched(None))]).unwrap();
    assert!(out.is_empty());
}
