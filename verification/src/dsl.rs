//! The content-composition query engine: declarative manifest entries that
//! sort, order, limit and group collections of content records, and the
//! resolver that turns one entry into exactly one content result.
//!
//! The pipeline order for an entry is fixed: sort, order, limit, then group,
//! group-order, group-limit.

use vstd::prelude::*;
use vstd::multiset::Multiset;
use vstd::seq_lib::lemma_multiset_commutative;
use crate::content::{ContentItem, StrMap};
use crate::fields::{field_path_ok, field_path_ok_spec, get_sort_key, sort_key_spec};
use crate::sorting::{
    item_leq, sort_content_items, sort_strings, sorted_insert, stable_sort_by, str_leq,
};
use crate::strutil::{
    concat3, find_char, lemma_split_chars_two, lex_leq, spec_ends_with, spec_find_char,
    spec_starts_with, spec_strip_prefix, split_char, split_chars, str_ends_with, str_eq,
    str_starts_with, strip_prefix_str, views_of,
};

verus! {

// ---------------------------------------------------------------------------
// Manifest entries and content results
// ---------------------------------------------------------------------------

/// One declarative query: one entry of the content manifest.
#[derive(Debug, Clone)]
pub struct ContentDSLItem {
    /// Key under which the result is exposed.
    pub name: String,
    /// A relative path (file or directory) or an `http(s)://` URL.
    pub from: String,
    pub sort_by: Option<String>,
    pub group_by: Option<String>,
    pub group_by_order: Option<String>,
    pub group_by_limit: Option<usize>,
    pub order: Option<String>,
    pub limit: Option<usize>,
    /// Request headers, used only when `from` is remote.
    pub headers: Option<StrMap>,
}

/// One group of a grouped result: the derived key and its records, in
/// arrival order.
#[derive(Debug, Clone)]
pub struct ContentGroup {
    pub key: String,
    pub items: Vec<ContentItem>,
}

#[verifier::external_type_specification]
#[verifier::external_body]
pub struct ExValue(serde_json::Value);

/// A content result: exactly one variant per manifest entry.
#[derive(Debug)]
pub enum TemplateContentDSLItem {
    /// An ordered, shaped list of records.
    Normal(Vec<ContentItem>),
    /// An ordered mapping from group key to records.
    Grouped(Vec<ContentGroup>),
    /// Exactly one record, when `from` names one file.
    Single(ContentItem),
    /// An opaque JSON value pulled from a remote endpoint.
    Pulled(serde_json::Value),
}

/// Whether a text is valid JSON: a function of the text alone.
pub uninterp spec fn json_ok(s: Seq<char>) -> bool;

/// Relies on serde_json::from_str::<serde_json::Value>: parses JSON text
/// into a generic JSON value; succeeds exactly when the text is valid
/// JSON, which depends on the text alone.
#[verifier::external_body]
fn json_parse(s: &str) -> (r: Option<serde_json::Value>)
    ensures
        r is Some <==> json_ok(s@),
{
    serde_json::from_str(s).ok()
}

// ---------------------------------------------------------------------------
// Sort, order, limit
// ---------------------------------------------------------------------------

/// The order flag an entry requests: descending unless "asc"; omitted means
/// descending.
pub open spec fn order_is_desc(order: Option<String>) -> bool {
    match order {
        Some(o) => o@ == "desc"@,
        None => true,
    }
}

/// The flat shape of an entry: records sorted by `sort_by` (when given,
/// stably, in the requested order) and truncated to `limit` (when given).
pub open spec fn sort_order_limit_spec(
    sort_by: Option<String>,
    order: Option<String>,
    limit: Option<usize>,
    items: Seq<ContentItem>,
) -> Seq<ContentItem> {
    let sorted = match sort_by {
        Some(by) => stable_sort_by(items, item_leq(by@, order_is_desc(order))),
        None => items,
    };
    match limit {
        Some(l) => if l < sorted.len() {
            sorted.take(l as int)
        } else {
            sorted
        },
        None => sorted,
    }
}

/// Sorts, orders and limits `items` as the manifest entry `dsl` requests.
/// A `limit` of zero yields an empty result.
pub fn dsl_sort_order_limit(dsl: &ContentDSLItem, items: Vec<ContentItem>) -> (r: Vec<ContentItem>)
    ensures
        r@ == sort_order_limit_spec(dsl.sort_by, dsl.order, dsl.limit, items@),
{
    let mut items = items;
    match &dsl.sort_by {
        Some(by) => {
            let order = match &dsl.order {
                Some(o) => o.clone(),
                None => String::from_str("desc"),
            };
            sort_content_items(&mut items, by.clone(), order);
        },
        None => {},
    }
    match dsl.limit {
        Some(l) => {
            let ghost before = items@;
            items.truncate(l);
            proof {
                if l >= before.len() {
                } else {
                    assert(before.subrange(0, l as int) =~= before.take(l as int));
                }
            }
        },
        None => {},
    }
    items
}

// ---------------------------------------------------------------------------
// Group key derivation
// ---------------------------------------------------------------------------

/// Component `idx` of a `-`-separated value; empty when absent.
pub open spec fn date_part(value: Seq<char>, idx: int) -> Seq<char> {
    let parts = split_chars(value, '-');
    if 0 <= idx < parts.len() {
        parts[idx]
    } else {
        Seq::empty()
    }
}

/// The group key of a record for a grouping path `by`.  A `meta.`-prefixed
/// path reads the named metadata key (absent keys read as empty); the
/// modifiers `date|year`, `date|month` and `date|day` pick the respective
/// component of a `YYYY-MM-DD` value.  Any other path reads a string field,
/// unknown names reading as empty.
pub open spec fn grouper_spec(item: ContentItem, by: Seq<char>) -> Seq<char> {
    if spec_starts_with(by, "meta."@) {
        let rest = spec_strip_prefix(by, "meta."@);
        let has_mod = spec_find_char(rest, '|') >= 0;
        let key = if has_mod {
            split_chars(rest, '|')[0]
        } else {
            rest
        };
        let modifier = if has_mod {
            split_chars(rest, '|')[1]
        } else {
            Seq::empty()
        };
        let value = if item.meta@.contains_key(key) {
            item.meta@[key]
        } else {
            Seq::empty()
        };
        if key == "date"@ && modifier == "year"@ {
            date_part(value, 0)
        } else if key == "date"@ && modifier == "month"@ {
            date_part(value, 1)
        } else if key == "date"@ && modifier == "day"@ {
            date_part(value, 2)
        } else {
            value
        }
    } else {
        sort_key_spec(item, by)
    }
}

fn nth_date_part(value: &str, idx: usize) -> (r: String)
    ensures
        r@ == date_part(value@, idx as int),
{
    let parts = split_char(value, '-');
    if idx < parts.len() {
        proof {
            assert(views_of(parts@)[idx as int] == parts@[idx as int]@);
        }
        parts[idx].clone()
    } else {
        String::new()
    }
}

/// Returns the group key of `item` for the grouping path `by`.
pub fn dsl_group_by_grouper(item: &ContentItem, by: &String) -> (r: String)
    ensures
        r@ == grouper_spec(*item, by@),
{
    if str_starts_with(by.as_str(), "meta.") {
        let rest = strip_prefix_str(by.as_str(), "meta.");
        let has_mod = find_char(rest.as_str(), '|').is_some();
        let (key, modifier) = if has_mod {
            proof {
                lemma_split_chars_two(rest@, '|');
            }
            let segs = split_char(rest.as_str(), '|');
            proof {
                assert(views_of(segs@)[0] == segs@[0]@);
                assert(views_of(segs@)[1] == segs@[1]@);
            }
            (segs[0].clone(), segs[1].clone())
        } else {
            (rest, String::new())
        };
        let value = match item.meta.get(key.as_str()) {
            Some(v) => v.clone(),
            None => String::new(),
        };
        let key_is_date = str_eq(key.as_str(), "date");
        if key_is_date && str_eq(modifier.as_str(), "year") {
            nth_date_part(value.as_str(), 0)
        } else if key_is_date && str_eq(modifier.as_str(), "month") {
            nth_date_part(value.as_str(), 1)
        } else if key_is_date && str_eq(modifier.as_str(), "day") {
            nth_date_part(value.as_str(), 2)
        } else {
            value
        }
    } else {
        get_sort_key(item, by.as_str())
    }
}

// ---------------------------------------------------------------------------
// Grouping
// ---------------------------------------------------------------------------

/// The group keys of `items` in order of first occurrence.
pub open spec fn group_keys(items: Seq<ContentItem>, by: Seq<char>) -> Seq<Seq<char>>
    decreases items.len(),
{
    if items.len() == 0 {
        Seq::empty()
    } else {
        let prev = group_keys(items.drop_last(), by);
        let g = grouper_spec(items.last(), by);
        if prev.contains(g) {
            prev
        } else {
            prev.push(g)
        }
    }
}

/// The records of one group: the items whose key is `key`, in input order.
pub open spec fn group_items_for(
    items: Seq<ContentItem>,
    by: Seq<char>,
    key: Seq<char>,
) -> Seq<ContentItem> {
    items.filter(|it: ContentItem| grouper_spec(it, by) == key)
}

/// Grouping: keys in first-occurrence order, each with its records.
pub open spec fn group_spec(items: Seq<ContentItem>, by: Seq<char>) -> Seq<
    (Seq<char>, Seq<ContentItem>),
> {
    group_keys(items, by).map_values(|k: Seq<char>| (k, group_items_for(items, by, k)))
}

pub open spec fn group_view(g: ContentGroup) -> (Seq<char>, Seq<ContentItem>) {
    (g.key@, g.items@)
}

pub open spec fn groups_view(gs: Seq<ContentGroup>) -> Seq<(Seq<char>, Seq<ContentItem>)> {
    gs.map_values(|g: ContentGroup| group_view(g))
}

/// Every record's key occurs among the group keys.
pub proof fn lemma_group_keys_complete(items: Seq<ContentItem>, by: Seq<char>, i: int)
    requires
        0 <= i < items.len(),
    ensures
        group_keys(items, by).contains(grouper_spec(items[i], by)),
    decreases items.len(),
{
    let g = grouper_spec(items[i], by);
    if i == items.len() - 1 {
        let prev = group_keys(items.drop_last(), by);
        if !prev.contains(g) {
            assert(prev.push(g)[prev.len() as int] == g);
        }
    } else {
        assert(items.drop_last()[i] == items[i]);
        lemma_group_keys_complete(items.drop_last(), by, i);
        let prev = group_keys(items.drop_last(), by);
        let w = choose|w: int| 0 <= w < prev.len() && prev[w] == g;
        if !prev.contains(grouper_spec(items.last(), by)) {
            assert(prev.push(grouper_spec(items.last(), by))[w] == g);
        }
    }
}

/// Group keys never repeat.
pub proof fn lemma_group_keys_distinct(items: Seq<ContentItem>, by: Seq<char>)
    ensures
        group_keys(items, by).no_duplicates(),
    decreases items.len(),
{
    if items.len() > 0 {
        lemma_group_keys_distinct(items.drop_last(), by);
        let prev = group_keys(items.drop_last(), by);
        let g = grouper_spec(items.last(), by);
        if !prev.contains(g) {
            assert forall|i: int, j: int|
                0 <= i < prev.push(g).len() && 0 <= j < prev.push(g).len() && i != j implies prev
                .push(g)[i] != prev.push(g)[j] by {
                if i < prev.len() && j < prev.len() {
                } else if i < prev.len() {
                    assert(prev[i] == prev.push(g)[i]);
                    if prev.push(g)[i] == g {
                        assert(prev.contains(g));
                    }
                } else {
                    assert(prev[j] == prev.push(g)[j]);
                    if prev.push(g)[j] == g {
                        assert(prev.contains(g));
                    }
                }
            }
        }
    }
}

/// A key that is not among the group keys has no records.
pub proof fn lemma_absent_key_empty(items: Seq<ContentItem>, by: Seq<char>, key: Seq<char>)
    requires
        !group_keys(items, by).contains(key),
    ensures
        group_items_for(items, by, key) == Seq::<ContentItem>::empty(),
{
    let pred = |it: ContentItem| grouper_spec(it, by) == key;
    assert forall|i: int| 0 <= i < items.len() implies !pred(items[i]) by {
        lemma_group_keys_complete(items, by, i);
    }
    items.lemma_all_neg_filter_empty(pred);
    assert(group_items_for(items, by, key) =~= Seq::<ContentItem>::empty());
}

fn find_group_index(groups: &Vec<ContentGroup>, key: &str) -> (r: Option<usize>)
    ensures
        r is Some ==> r->0 < groups@.len() && groups@[r->0 as int].key@ == key@,
        r is None ==> forall|j: int| 0 <= j < groups@.len() ==> groups@[j].key@ != key@,
{
    let n = groups.len();
    let mut i: usize = 0;
    while i < n
        invariant
            i <= n,
            n == groups@.len(),
            forall|j: int| 0 <= j < i ==> groups@[j].key@ != key@,
        decreases n - i,
    {
        if str_eq(groups[i].key.as_str(), key) {
            return Some(i);
        }
        i = i + 1;
    }
    None
}

/// Buckets `items` by their group key, keys in first-occurrence order,
/// records within a group in arrival order.
fn group_items_by(items: Vec<ContentItem>, by: &String) -> (r: Vec<ContentGroup>)
    ensures
        groups_view(r@) == group_spec(items@, by@),
{
    let mut items = items;
    let ghost orig = items@;
    let mut groups: Vec<ContentGroup> = Vec::new();
    proof {
        assert(orig.subrange(0, 0) =~= Seq::<ContentItem>::empty());
        reveal(Seq::filter);
        assert(groups_view(groups@) =~= group_spec(orig.subrange(0, 0), by@));
    }
    while items.len() > 0
        invariant
            items@.len() <= orig.len(),
            items@ == orig.subrange(orig.len() - items@.len(), orig.len() as int),
            groups_view(groups@) == group_spec(orig.subrange(0, orig.len() - items@.len()), by@),
        decreases items@.len(),
    {
        let ghost i = orig.len() - items@.len();
        let ghost done = orig.subrange(0, i);
        let x = items.remove(0);
        proof {
            assert(x == orig[i]);
            assert(items@ =~= orig.subrange(orig.len() - items@.len(), orig.len() as int));
        }
        let g = dsl_group_by_grouper(&x, by);
        let ghost done2 = orig.subrange(0, i + 1);
        proof {
            assert(done2.drop_last() =~= done);
            assert(done2.last() == orig[i]);
            lemma_group_keys_distinct(done, by@);
        }
        let ghost keys = group_keys(done, by@);
        let ghost keys2 = group_keys(done2, by@);
        let ghost gv = grouper_spec(x, by@);
        proof {
            // filter over the extended prefix, for any key
            reveal(Seq::filter);
            assert forall|k: Seq<char>|
                #[trigger] group_items_for(done2, by@, k) == if k == gv {
                    group_items_for(done, by@, k).push(x)
                } else {
                    group_items_for(done, by@, k)
                } by {
                let pred = |it: ContentItem| grouper_spec(it, by@) == k;
                assert(done2.filter(pred) == if pred(done2.last()) {
                    done2.drop_last().filter(pred).push(done2.last())
                } else {
                    done2.drop_last().filter(pred)
                });
            }
        }
        let ghost gs0 = groups@;
        proof {
            assert(groups_view(gs0).len() == gs0.len());
            assert(group_spec(done, by@).len() == keys.len());
            assert forall|j: int| 0 <= j < keys.len() implies groups_view(gs0)[j] == (
                keys[j],
                group_items_for(done, by@, keys[j]),
            ) && groups_view(gs0)[j] == group_view(gs0[j]) by {
                assert(groups_view(gs0)[j] == group_view(gs0[j]));
                assert(group_spec(done, by@)[j] == (
                    keys[j],
                    group_items_for(done, by@, keys[j]),
                ));
            }
        }
        match find_group_index(&groups, g.as_str()) {
            Some(idx) => {
                proof {
                    assert(gs0[idx as int].key@ == gv);
                    assert(groups_view(gs0)[idx as int] == (
                        keys[idx as int],
                        group_items_for(done, by@, keys[idx as int]),
                    ));
                    assert(keys[idx as int] == gv);
                    assert(keys.contains(gv));
                    assert(keys2 == keys);
                }
                let mut grp = groups.remove(idx);
                grp.items.push(x);
                let ghost grp2 = grp;
                groups.insert(idx, grp);
                proof {
                    assert(grp2.key@ == gv);
                    assert(grp2.items@ == group_items_for(done, by@, gv).push(x));
                    assert(grp2.items@ == group_items_for(done2, by@, gv));
                    assert(groups@ =~= gs0.update(idx as int, grp2));
                    assert(groups@.len() == keys2.len());
                    assert forall|j: int| 0 <= j < keys2.len() implies groups_view(groups@)[j]
                        == (keys2[j], group_items_for(done2, by@, keys2[j])) by {
                        assert(groups_view(groups@)[j] == group_view(groups@[j]));
                        if j != idx {
                            assert(groups@[j] == gs0[j]);
                            assert(groups_view(gs0)[j] == (
                                keys[j],
                                group_items_for(done, by@, keys[j]),
                            ));
                            assert(groups_view(gs0)[j] == group_view(gs0[j]));
                            assert(keys[j] != keys[idx as int]);  // keys are distinct
                            assert(group_items_for(done2, by@, keys2[j]) == group_items_for(
                                done,
                                by@,
                                keys2[j],
                            ));
                        } else {
                            assert(groups@[j] == grp2);
                        }
                    }
                    assert(groups_view(groups@).len() == group_spec(done2, by@).len());
                    assert forall|j: int|
                        0 <= j < keys2.len() implies groups_view(groups@)[j] == group_spec(
                        done2,
                        by@,
                    )[j] by {
                        assert(group_spec(done2, by@)[j] == (
                            keys2[j],
                            group_items_for(done2, by@, keys2[j]),
                        ));
                    }
                    assert(groups_view(groups@) =~= group_spec(done2, by@));
                }
            },
            None => {
                proof {
                    assert forall|j: int| 0 <= j < keys.len() implies keys[j] != gv by {
                        assert(groups_view(gs0)[j] == (
                            keys[j],
                            group_items_for(done, by@, keys[j]),
                        ));
                        assert(gs0[j].key@ == keys[j]);
                    }
                    assert(!keys.contains(gv));
                    assert(keys2 == keys.push(gv));
                    lemma_absent_key_empty(done, by@, gv);
                }
                let mut only = Vec::new();
                only.push(x);
                let ghost newgrp = ContentGroup { key: g, items: only };
                groups.push(ContentGroup { key: g, items: only });
                proof {
                    assert(groups@ =~= gs0.push(newgrp));
                    assert(groups@.len() == keys2.len());
                    assert(newgrp.items@ =~= Seq::<ContentItem>::empty().push(x));
                    assert(group_items_for(done2, by@, gv) == group_items_for(
                        done,
                        by@,
                        gv,
                    ).push(x));
                    assert forall|j: int| 0 <= j < keys2.len() implies groups_view(groups@)[j]
                        == (keys2[j], group_items_for(done2, by@, keys2[j])) by {
                        assert(groups_view(groups@)[j] == group_view(groups@[j]));
                        if j < keys.len() {
                            assert(groups@[j] == gs0[j]);
                            assert(groups_view(gs0)[j] == (
                                keys[j],
                                group_items_for(done, by@, keys[j]),
                            ));
                            assert(groups_view(gs0)[j] == group_view(gs0[j]));
                            assert(keys[j] != gv);
                            assert(keys2[j] == keys[j]);
                            assert(group_items_for(done2, by@, keys2[j]) == group_items_for(
                                done,
                                by@,
                                keys2[j],
                            ));
                        } else {
                            assert(groups@[j] == newgrp);
                            assert(keys2[j] == gv);
                            assert(group_items_for(done2, by@, gv) == group_items_for(
                                done,
                                by@,
                                gv,
                            ).push(x));
                        }
                    }
                    assert(groups_view(groups@).len() == group_spec(done2, by@).len());
                    assert forall|j: int|
                        0 <= j < keys2.len() implies groups_view(groups@)[j] == group_spec(
                        done2,
                        by@,
                    )[j] by {
                        assert(group_spec(done2, by@)[j] == (
                            keys2[j],
                            group_items_for(done2, by@, keys2[j]),
                        ));
                    }
                    assert(groups_view(groups@) =~= group_spec(done2, by@));
                }
            },
        }
        proof {
            assert(orig.len() - items@.len() == i + 1);
        }
    }
    proof {
        assert(orig.subrange(0, orig.len() as int) =~= orig);
    }
    groups
}

// ---------------------------------------------------------------------------
// Group ordering and limiting
// ---------------------------------------------------------------------------

pub open spec fn keys_of(gs: Seq<(Seq<char>, Seq<ContentItem>)>) -> Seq<Seq<char>> {
    gs.map_values(|p: (Seq<char>, Seq<ContentItem>)| p.0)
}

/// Lexicographic order on group keys.
pub open spec fn lex_order() -> spec_fn(Seq<char>, Seq<char>) -> bool {
    |a: Seq<char>, b: Seq<char>| lex_leq(a, b)
}

/// The records grouped under `k`: those of the first group with that key.
pub open spec fn lookup_group(
    gs: Seq<(Seq<char>, Seq<ContentItem>)>,
    k: Seq<char>,
) -> Seq<ContentItem>
    decreases gs.len(),
{
    if gs.len() == 0 {
        Seq::empty()
    } else if gs[0].0 == k {
        gs[0].1
    } else {
        lookup_group(gs.drop_first(), k)
    }
}

/// No two groups share a key.
pub open spec fn distinct_keys(gs: Seq<(Seq<char>, Seq<ContentItem>)>) -> bool {
    forall|i: int, j: int| 0 <= i < j < gs.len() ==> (#[trigger] gs[i]).0 != (#[trigger] gs[j]).0
}

pub open spec fn distinct_group_keys(gs: Seq<ContentGroup>) -> bool {
    forall|i: int, j: int|
        0 <= i < j < gs.len() ==> (#[trigger] gs[i]).key@ != (#[trigger] gs[j]).key@
}

pub proof fn lemma_lookup_at(gs: Seq<(Seq<char>, Seq<ContentItem>)>, j: int)
    requires
        0 <= j < gs.len(),
        distinct_keys(gs),
    ensures
        lookup_group(gs, gs[j].0) == gs[j].1,
    decreases gs.len(),
{
    if j > 0 {
        assert(gs[0].0 != gs[j].0);
        assert(distinct_keys(gs.drop_first())) by {
            assert forall|i1: int, i2: int|
                0 <= i1 < i2 < gs.drop_first().len() implies (#[trigger] gs.drop_first()[i1]).0
                != (#[trigger] gs.drop_first()[i2]).0 by {
                assert(gs.drop_first()[i1] == gs[i1 + 1]);
                assert(gs.drop_first()[i2] == gs[i2 + 1]);
            }
        }
        lemma_lookup_at(gs.drop_first(), j - 1);
        assert(gs.drop_first()[j - 1] == gs[j]);
    }
}

/// The keys of the groups, sorted ascending, reversed when descending, and
/// truncated to the group limit.
pub open spec fn ordered_group_keys(
    gs: Seq<(Seq<char>, Seq<ContentItem>)>,
    desc: bool,
    limit: Option<usize>,
) -> Seq<Seq<char>> {
    let sorted = stable_sort_by(keys_of(gs), lex_order());
    let dir = if desc {
        sorted.reverse()
    } else {
        sorted
    };
    match limit {
        Some(l) => if l < dir.len() {
            dir.take(l as int)
        } else {
            dir
        },
        None => dir,
    }
}

/// Groups rearranged into key order (and truncated): the per-group record
/// lists are never reordered or limited here.
pub open spec fn order_groups_spec(
    gs: Seq<(Seq<char>, Seq<ContentItem>)>,
    desc: bool,
    limit: Option<usize>,
) -> Seq<(Seq<char>, Seq<ContentItem>)> {
    ordered_group_keys(gs, desc, limit).map_values(|k: Seq<char>| (k, lookup_group(gs, k)))
}

proof fn lemma_sorted_insert_views(s: Seq<String>, x: String)
    ensures
        views_of(sorted_insert(s, x, str_leq())) == sorted_insert(views_of(s), x@, lex_order()),
    decreases s.len(),
{
    if s.len() == 0 {
        assert(views_of(seq![x]) =~= seq![x@]);
    } else {
        assert(views_of(s)[s.len() - 1] == s.last()@);
        assert(str_leq()(s.last(), x) == lex_order()(views_of(s).last(), x@));
        if str_leq()(s.last(), x) {
            assert(views_of(s.push(x)) =~= views_of(s).push(x@));
        } else {
            lemma_sorted_insert_views(s.drop_last(), x);
            assert(views_of(s.drop_last()) =~= views_of(s).drop_last());
            assert(views_of(sorted_insert(s.drop_last(), x, str_leq()).push(s.last()))
                =~= views_of(sorted_insert(s.drop_last(), x, str_leq())).push(s.last()@));
        }
    }
}

proof fn lemma_stable_sort_views(s: Seq<String>)
    ensures
        views_of(stable_sort_by(s, str_leq())) == stable_sort_by(views_of(s), lex_order()),
    decreases s.len(),
{
    if s.len() == 0 {
        assert(views_of(Seq::<String>::empty()) =~= Seq::<Seq<char>>::empty());
    } else {
        lemma_stable_sort_views(s.drop_last());
        lemma_sorted_insert_views(stable_sort_by(s.drop_last(), str_leq()), s.last());
        assert(views_of(s.drop_last()) =~= views_of(s).drop_last());
        assert(views_of(s)[s.len() - 1] == s.last()@);
    }
}

fn reverse_strings(v: &mut Vec<String>)
    ensures
        final(v)@ == old(v)@.reverse(),
{
    let ghost orig = v@;
    let mut out: Vec<String> = Vec::new();
    while v.len() > 0
        invariant
            out@.len() + v@.len() == orig.len(),
            v@ == orig.take(v@.len() as int),
            forall|k: int| 0 <= k < out@.len() ==> out@[k] == orig[orig.len() - 1 - k],
        decreases v@.len(),
    {
        let x = match v.pop() {
            Some(x) => x,
            None => {
                proof {
                    assert(false);
                }
                String::new()
            },
        };
        proof {
            assert(orig.take(v@.len() as int + 1).last() == orig[v@.len() as int]);
            assert(orig.take(v@.len() as int + 1).drop_last() =~= orig.take(v@.len() as int));
        }
        out.push(x);
    }
    *v = out;
    proof {
        assert(v@ =~= orig.reverse());
    }
}


spec fn witness_in(gs: Seq<ContentGroup>, gv: Seq<(Seq<char>, Seq<ContentItem>)>, k: Seq<char>) -> bool {
    exists|w: int|
        0 <= w < gs.len() && (#[trigger] gs[w]).key@ == k && gs[w].items@ == lookup_group(gv, k)
}

/// Orders groups by key, ascending, reversed when `order` is "desc", and
/// keeps at most `limit` groups; a limit of zero yields zero groups.  The
/// records inside each group are untouched.
pub fn dsl_group_order_limit(
    groups: Vec<ContentGroup>,
    order: String,
    limit: Option<usize>,
) -> (r: Vec<ContentGroup>)
    requires
        distinct_group_keys(groups@),
    ensures
        groups_view(r@) == order_groups_spec(groups_view(groups@), order@ == "desc"@, limit),
{
    let desc = str_eq(order.as_str(), "desc");
    let ghost gv = groups_view(groups@);
    proof {
        assert(distinct_keys(gv)) by {
            assert forall|i: int, j: int|
                0 <= i < j < gv.len() implies (#[trigger] gv[i]).0 != (#[trigger] gv[j]).0 by {
                assert(gv[i] == group_view(groups@[i]));
                assert(gv[j] == group_view(groups@[j]));
            }
        }
        assert(keys_of(gv).no_duplicates()) by {
            assert forall|i: int, j: int|
                0 <= i < j < keys_of(gv).len() implies keys_of(gv)[i] != keys_of(gv)[j] by {
                assert(keys_of(gv)[i] == gv[i].0);
                assert(keys_of(gv)[j] == gv[j].0);
            }
        }
    }
    // collect the keys
    let mut keys: Vec<String> = Vec::new();
    let n = groups.len();
    let mut i: usize = 0;
    while i < n
        invariant
            i <= n,
            n == groups@.len(),
            keys@.len() == i,
            forall|j: int| 0 <= j < i ==> keys@[j]@ == groups@[j].key@,
        decreases n - i,
    {
        keys.push(groups[i].key.clone());
        i = i + 1;
    }
    proof {
        assert forall|j: int| 0 <= j < n implies views_of(keys@)[j] == keys_of(gv)[j] by {
            assert(views_of(keys@)[j] == keys@[j]@);
            assert(keys_of(gv)[j] == gv[j].0);
            assert(gv[j] == group_view(groups@[j]));
        }
        assert(views_of(keys@) =~= keys_of(gv));
    }
    // sort ascending
    let ghost unsorted = keys@;
    sort_strings(&mut keys);
    proof {
        lemma_stable_sort_views(unsorted);
    }
    // reverse when descending
    if desc {
        let ghost sorted = keys@;
        reverse_strings(&mut keys);
        proof {
            assert forall|j: int| 0 <= j < keys@.len() implies views_of(keys@)[j] == views_of(
                sorted,
            ).reverse()[j] by {
                assert(views_of(keys@)[j] == keys@[j]@);
                assert(keys@[j] == sorted[sorted.len() - 1 - j]);
                assert(views_of(sorted)[sorted.len() - 1 - j] == sorted[sorted.len() - 1 - j]@);
            }
            assert(views_of(keys@) =~= views_of(sorted).reverse());
        }
    }
    // truncate to the group limit
    match limit {
        Some(l) => {
            let ghost before = keys@;
            keys.truncate(l);
            proof {
                if l < before.len() {
                    assert forall|j: int| 0 <= j < l implies views_of(keys@)[j] == views_of(
                        before,
                    ).take(l as int)[j] by {
                        assert(views_of(keys@)[j] == keys@[j]@);
                        assert(views_of(before)[j] == before[j]@);
                    }
                    assert(views_of(keys@) =~= views_of(before).take(l as int));
                }
            }
        },
        None => {},
    }
    let ghost okeys = ordered_group_keys(gv, desc, limit);
    proof {
        assert(views_of(keys@) == okeys);
        // the chosen keys are distinct and all present among the groups
        broadcast use vstd::seq_lib::group_to_multiset_ensures, vstd::multiset::group_multiset_axioms;

        let base = keys_of(gv);
        let sorted = stable_sort_by(base, lex_order());
        crate::sorting::lemma_stable_sort_multiset(base, lex_order());
        base.lemma_multiset_has_no_duplicates();
        sorted.lemma_multiset_has_no_duplicates_conv();
        assert(sorted.no_duplicates());
        let dir = if desc {
            sorted.reverse()
        } else {
            sorted
        };
        assert(dir.no_duplicates()) by {
            if desc {
                assert forall|i1: int, i2: int|
                    0 <= i1 < i2 < dir.len() implies dir[i1] != dir[i2] by {
                    assert(dir[i1] == sorted[sorted.len() - 1 - i1]);
                    assert(dir[i2] == sorted[sorted.len() - 1 - i2]);
                }
            }
        }
        assert(okeys.no_duplicates()) by {
            assert forall|i1: int, i2: int|
                0 <= i1 < i2 < okeys.len() implies okeys[i1] != okeys[i2] by {
                assert(okeys[i1] == dir[i1]);
                assert(okeys[i2] == dir[i2]);
            }
        }
        assert forall|l: int| 0 <= l < okeys.len() implies base.contains(#[trigger] okeys[l]) by {
            assert(okeys[l] == dir[l]);
            if desc {
                assert(dir[l] == sorted[sorted.len() - 1 - l]);
            }
            assert(sorted.contains(okeys[l]));
            assert(sorted.to_multiset().count(okeys[l]) > 0);
            assert(base.to_multiset().count(okeys[l]) > 0);
        }
    }
    // rebuild the groups in key order
    let mut groups = groups;
    let mut out: Vec<ContentGroup> = Vec::new();
    let kn = keys.len();
    let mut ki: usize = 0;
    proof {
        assert forall|l: int| 0 <= l < okeys.len() implies witness_in(
            groups@,
            gv,
            #[trigger] okeys[l],
        ) by {
            let base = keys_of(gv);
            assert(base.contains(okeys[l]));
            let w = choose|w: int| 0 <= w < base.len() && base[w] == okeys[l];
            assert(gv[w] == group_view(groups@[w]));
            assert(keys_of(gv)[w] == gv[w].0);
            lemma_lookup_at(gv, w);
            assert(groups@[w].key@ == okeys[l] && groups@[w].items@ == lookup_group(
                gv,
                okeys[l],
            ));
        }
    }
    while ki < kn
        invariant
            ki <= kn,
            kn == keys@.len(),
            views_of(keys@) == okeys,
            okeys.no_duplicates(),
            out@.len() == ki,
            forall|j: int|
                0 <= j < ki ==> group_view(#[trigger] out@[j]) == (
                    okeys[j],
                    lookup_group(gv, okeys[j]),
                ),
            distinct_group_keys(groups@),
            forall|l: int|
                ki <= l < okeys.len() ==> witness_in(groups@, gv, #[trigger] okeys[l]),
        decreases kn - ki,
    {
        proof {
            assert(views_of(keys@)[ki as int] == keys@[ki as int]@);
        }
        let idx = match find_group_index(&groups, keys[ki].as_str()) {
            Some(idx) => idx,
            None => {
                proof {
                    assert(witness_in(groups@, gv, okeys[ki as int]));
                    let w = choose|w: int|
                        0 <= w < groups@.len() && (#[trigger] groups@[w]).key@ == okeys[ki as int]
                            && groups@[w].items@ == lookup_group(gv, okeys[ki as int]);
                    assert(false);
                }
                0
            },
        };
        let ghost gs0 = groups@;
        let grp = groups.remove(idx);
        proof {
            // the found group is the unique witness for this key
            assert(witness_in(gs0, gv, okeys[ki as int]));
            let w = choose|w: int|
                0 <= w < gs0.len() && (#[trigger] gs0[w]).key@ == okeys[ki as int]
                    && gs0[w].items@ == lookup_group(gv, okeys[ki as int]);
            if w != idx {
                assert(gs0[w].key@ != gs0[idx as int].key@);
                assert(false);
            }
            assert(grp.items@ == lookup_group(gv, okeys[ki as int]));
        }
        out.push(grp);
        proof {
            gs0.remove_ensures(idx as int);
            assert(distinct_group_keys(groups@)) by {
                assert forall|i1: int, i2: int|
                    0 <= i1 < i2 < groups@.len() implies (#[trigger] groups@[i1]).key@
                    != (#[trigger] groups@[i2]).key@ by {
                    let o1 = if i1 < idx {
                        i1
                    } else {
                        i1 + 1
                    };
                    let o2 = if i2 < idx {
                        i2
                    } else {
                        i2 + 1
                    };
                    assert(groups@[i1] == gs0[o1]);
                    assert(groups@[i2] == gs0[o2]);
                }
            }
            assert forall|l: int| ki + 1 <= l < okeys.len() implies witness_in(
                groups@,
                gv,
                #[trigger] okeys[l],
            ) by {
                assert(witness_in(gs0, gv, okeys[l]));
                let w0 = choose|w: int|
                    0 <= w < gs0.len() && (#[trigger] gs0[w]).key@ == okeys[l] && gs0[w].items@
                        == lookup_group(gv, okeys[l]);
                assert(okeys[l] != okeys[ki as int]);
                assert(w0 != idx);
                if w0 < idx {
                    assert(groups@[w0] == gs0[w0]);
                    assert(groups@[w0].key@ == okeys[l] && groups@[w0].items@ == lookup_group(
                        gv,
                        okeys[l],
                    ));
                } else {
                    assert(groups@[w0 - 1] == gs0[w0]);
                    assert(groups@[w0 - 1].key@ == okeys[l] && groups@[w0 - 1].items@
                        == lookup_group(gv, okeys[l]));
                }
            }
        }
        ki = ki + 1;
    }
    proof {
        assert(groups_view(out@).len() == order_groups_spec(gv, order@ == "desc"@, limit).len());
        assert forall|j: int| 0 <= j < okeys.len() implies groups_view(out@)[j]
            == order_groups_spec(gv, order@ == "desc"@, limit)[j] by {
            assert(groups_view(out@)[j] == group_view(out@[j]));
            assert(order_groups_spec(gv, order@ == "desc"@, limit)[j] == (
                okeys[j],
                lookup_group(gv, okeys[j]),
            ));
        }
        assert(groups_view(out@) =~= order_groups_spec(gv, order@ == "desc"@, limit));
    }
    out
}

/// Groups `items` by the path `by`, then orders and limits the groups.  An
/// empty `by` yields an empty grouped result without consulting records: the
/// resolver reads that as "use the flat shape instead".  Group ordering
/// defaults to descending when `order` is omitted.
pub open spec fn dsl_group_spec(
    items: Seq<ContentItem>,
    by: Seq<char>,
    order: Option<String>,
    limit: Option<usize>,
) -> Seq<(Seq<char>, Seq<ContentItem>)> {
    if by.len() == 0 {
        Seq::empty()
    } else {
        order_groups_spec(group_spec(items, by), order_is_desc(order), limit)
    }
}

pub fn dsl_group(
    items: Vec<ContentItem>,
    by: String,
    order: Option<String>,
    limit: Option<usize>,
) -> (r: Vec<ContentGroup>)
    ensures
        groups_view(r@) == dsl_group_spec(items@, by@, order, limit),
{
    if by.as_str().unicode_len() == 0 {
        let r: Vec<ContentGroup> = Vec::new();
        proof {
            assert(groups_view(r@) =~= Seq::<(Seq<char>, Seq<ContentItem>)>::empty());
        }
        return r;
    }
    let ghost items_v = items@;
    let groups = group_items_by(items, &by);
    proof {
        lemma_group_keys_distinct(items_v, by@);
        let gv = groups_view(groups@);
        assert(gv.len() == groups@.len());
        assert(group_spec(items_v, by@).len() == group_keys(items_v, by@).len());
        assert(distinct_group_keys(groups@)) by {
            assert forall|i: int, j: int|
                0 <= i < j < groups@.len() implies (#[trigger] groups@[i]).key@
                != (#[trigger] groups@[j]).key@ by {
                assert(gv[i] == group_view(groups@[i]));
                assert(gv[j] == group_view(groups@[j]));
                assert(group_spec(items_v, by@)[i] == (
                    group_keys(items_v, by@)[i],
                    group_items_for(items_v, by@, group_keys(items_v, by@)[i]),
                ));
                assert(group_spec(items_v, by@)[j] == (
                    group_keys(items_v, by@)[j],
                    group_items_for(items_v, by@, group_keys(items_v, by@)[j]),
                ));
            }
        }
    }
    let order_s = match order {
        Some(ref o) => o.clone(),
        None => String::from_str("desc"),
    };
    let r = dsl_group_order_limit(groups, order_s, limit);
    proof {
        assert((match order {
            Some(o) => o@ == "desc"@,
            None => true,
        }) == order_is_desc(order));
    }
    r
}

// ---------------------------------------------------------------------------
// The grouping law: groups partition the records
// ---------------------------------------------------------------------------

pub open spec fn flatten_groups(gs: Seq<(Seq<char>, Seq<ContentItem>)>) -> Seq<ContentItem> {
    gs.map_values(|p: (Seq<char>, Seq<ContentItem>)| p.1).flatten()
}

proof fn lemma_flatten_ms_update(
    gs1: Seq<Seq<ContentItem>>,
    gs2: Seq<Seq<ContentItem>>,
    t: int,
    x: ContentItem,
)
    requires
        gs1.len() == gs2.len(),
        0 <= t < gs1.len(),
        gs2[t] == gs1[t].push(x),
        forall|j: int| 0 <= j < gs1.len() && j != t ==> #[trigger] gs2[j] == gs1[j],
    ensures
        gs2.flatten().to_multiset() == gs1.flatten().to_multiset().insert(x),
    decreases gs1.len(),
{
    broadcast use vstd::seq_lib::group_to_multiset_ensures, vstd::multiset::group_multiset_axioms;
    broadcast use vstd::seq_lib::lemma_multiset_commutative;

    if t == 0 {
        assert(gs1.flatten() == gs1[0] + gs1.drop_first().flatten());
        assert(gs2.flatten() == gs2[0] + gs2.drop_first().flatten());
        assert(gs2.drop_first() =~= gs1.drop_first());
        assert(gs1[0].push(x).to_multiset() =~= gs1[0].to_multiset().insert(x));
        assert(gs2.flatten().to_multiset() =~= gs1.flatten().to_multiset().insert(x));
    } else {
        assert(gs2[0] == gs1[0]);
        assert(gs1.drop_first()[t - 1] == gs1[t]);
        assert(gs2.drop_first()[t - 1] == gs2[t]);
        assert forall|j: int|
            0 <= j < gs1.drop_first().len() && j != t - 1 implies #[trigger] gs2.drop_first()[j]
            == gs1.drop_first()[j] by {
            assert(gs2.drop_first()[j] == gs2[j + 1]);
            assert(gs1.drop_first()[j] == gs1[j + 1]);
        }
        lemma_flatten_ms_update(gs1.drop_first(), gs2.drop_first(), t - 1, x);
        assert(gs1.flatten() == gs1[0] + gs1.drop_first().flatten());
        assert(gs2.flatten() == gs2[0] + gs2.drop_first().flatten());
        assert(gs2.flatten().to_multiset() =~= gs1.flatten().to_multiset().insert(x));
    }
}

/// Law: grouping partitions the records.  Every group of `group_spec` holds
/// exactly the records whose key is the group's key, in their input order
/// (so records grouped after sorting keep the sorted order within each
/// group), and the groups together hold every record exactly once.
pub proof fn lemma_group_partition(items: Seq<ContentItem>, by: Seq<char>)
    ensures
        forall|j: int|
            0 <= j < group_spec(items, by).len() ==> (#[trigger] group_spec(items, by)[j]).1
                == group_items_for(items, by, group_spec(items, by)[j].0),
        flatten_groups(group_spec(items, by)).to_multiset() == items.to_multiset(),
    decreases items.len(),
{
    broadcast use vstd::seq_lib::group_to_multiset_ensures, vstd::multiset::group_multiset_axioms;
    broadcast use Seq::lemma_flatten_push;

    assert forall|j: int| 0 <= j < group_spec(items, by).len() implies (#[trigger] group_spec(
        items,
        by,
    )[j]).1 == group_items_for(items, by, group_spec(items, by)[j].0) by {
        assert(group_spec(items, by)[j] == (
            group_keys(items, by)[j],
            group_items_for(items, by, group_keys(items, by)[j]),
        ));
    }
    if items.len() == 0 {
        assert(group_keys(items, by) =~= Seq::<Seq<char>>::empty());
        assert(group_spec(items, by) =~= Seq::<(Seq<char>, Seq<ContentItem>)>::empty());
        assert(group_spec(items, by).map_values(|p: (Seq<char>, Seq<ContentItem>)| p.1)
            =~= Seq::<Seq<ContentItem>>::empty());
        assert(flatten_groups(group_spec(items, by)).to_multiset() =~= items.to_multiset());
    } else {
        let s = items.drop_last();
        let x = items.last();
        let g = grouper_spec(x, by);
        lemma_group_partition(s, by);
        lemma_group_keys_distinct(s, by);
        let keys = group_keys(s, by);
        let keys2 = group_keys(items, by);
        // how each key's records change when x arrives
        assert forall|k: Seq<char>|
            #[trigger] group_items_for(items, by, k) == if k == g {
                group_items_for(s, by, k).push(x)
            } else {
                group_items_for(s, by, k)
            } by {
            reveal(Seq::filter);
            let pred = |it: ContentItem| grouper_spec(it, by) == k;
            assert(items.drop_last() =~= s);
            assert(items.filter(pred) == if pred(items.last()) {
                s.filter(pred).push(items.last())
            } else {
                s.filter(pred)
            });
        }
        let m1 = group_spec(s, by).map_values(|p: (Seq<char>, Seq<ContentItem>)| p.1);
        let m2 = group_spec(items, by).map_values(|p: (Seq<char>, Seq<ContentItem>)| p.1);
        assert forall|j: int| 0 <= j < keys.len() implies m1[j] == group_items_for(
            s,
            by,
            keys[j],
        ) by {
            assert(group_spec(s, by)[j] == (keys[j], group_items_for(s, by, keys[j])));
        }
        if keys.contains(g) {
            assert(keys2 == keys);
            let t = choose|t: int| 0 <= t < keys.len() && keys[t] == g;
            assert forall|j: int| 0 <= j < keys2.len() implies m2[j] == group_items_for(
                items,
                by,
                keys[j],
            ) by {
                assert(group_spec(items, by)[j] == (keys2[j], group_items_for(items, by, keys2[j])));
            }
            assert(m2[t] == m1[t].push(x));
            assert forall|j: int| 0 <= j < m1.len() && j != t implies #[trigger] m2[j] == m1[j] by {
                assert(keys[j] != g);  // keys are distinct
                assert(m2[j] == group_items_for(items, by, keys[j]));
            }
            lemma_flatten_ms_update(m1, m2, t, x);
            assert(items.to_multiset() =~= s.to_multiset().insert(x)) by {
                assert(s.push(x) =~= items);
            }
        } else {
            assert(keys2 == keys.push(g));
            lemma_absent_key_empty(s, by, g);
            assert forall|j: int| 0 <= j < keys.len() implies #[trigger] m2[j] == m1[j] by {
                assert(group_spec(items, by)[j] == (keys2[j], group_items_for(items, by, keys2[j])));
                assert(keys2[j] == keys[j]);
                assert(keys[j] != g) by {
                    if keys[j] == g {
                        assert(keys.contains(g));
                    }
                }
                assert(m2[j] == group_items_for(items, by, keys[j]));
            }
            assert(m2[keys.len() as int] == group_items_for(items, by, g)) by {
                assert(group_spec(items, by)[keys.len() as int] == (
                    keys2[keys.len() as int],
                    group_items_for(items, by, keys2[keys.len() as int]),
                ));
            }
            assert(group_items_for(items, by, g) =~= Seq::<ContentItem>::empty().push(x));
            assert(m2 =~= m1.push(group_items_for(items, by, g)));
            assert(m2.flatten() =~= m1.flatten() + group_items_for(items, by, g));
            lemma_multiset_commutative(m1.flatten(), group_items_for(items, by, g));
            assert(group_items_for(items, by, g).to_multiset() =~= Multiset::<
                ContentItem,
            >::empty().insert(x)) by {
                assert(Seq::<ContentItem>::empty().push(x).to_multiset()
                    =~= Seq::<ContentItem>::empty().to_multiset().insert(x));
            }
            assert(m2.flatten().to_multiset() =~= m1.flatten().to_multiset().insert(x));
            assert(items.to_multiset() =~= s.to_multiset().insert(x)) by {
                assert(s.push(x) =~= items);
            }
        }
    }
}

// ---------------------------------------------------------------------------
// Content source resolution
// ---------------------------------------------------------------------------

/// Where one manifest entry's content comes from.
#[derive(Debug, Clone)]
pub enum SourcePlan {
    /// `from` is an `http(s)://` URL: fetch it.
    Remote,
    /// `from` names one content file: read and parse that file.
    SingleFile(String),
    /// `from` names a directory: scan it for content files.
    Directory(String),
}

/// The absolute path a non-remote entry points at.
pub open spec fn entry_path(dir: Seq<char>, from: Seq<char>) -> Seq<char> {
    dir + "/"@ + from
}

/// True when the path names a single content file rather than a directory.
pub open spec fn path_is_single(path: Seq<char>) -> bool {
    spec_ends_with(path, ".md"@) || spec_ends_with(path, ".markdown"@)
}

/// Decides what must be fetched or read for one entry.
pub fn plan_content_source(dir: &str, dsl: &ContentDSLItem) -> (r: SourcePlan)
    ensures
        spec_starts_with(dsl.from@, "http"@) <==> r is Remote,
        (!spec_starts_with(dsl.from@, "http"@) && path_is_single(entry_path(dir@, dsl.from@)))
            <==> (r matches SourcePlan::SingleFile(p) && p@ == entry_path(dir@, dsl.from@)),
        (!spec_starts_with(dsl.from@, "http"@) && !path_is_single(entry_path(dir@, dsl.from@)))
            <==> (r matches SourcePlan::Directory(p) && p@ == entry_path(dir@, dsl.from@)),
{
    if str_starts_with(dsl.from.as_str(), "http") {
        return SourcePlan::Remote;
    }
    let path = concat3(dir, "/", dsl.from.as_str());
    if str_ends_with(path.as_str(), ".md") || str_ends_with(path.as_str(), ".markdown") {
        SourcePlan::SingleFile(path)
    } else {
        SourcePlan::Directory(path)
    }
}

/// What the surrounding build hands the resolver for one entry: the parsed
/// payload of a remote entry (None when the fetch failed or the body was
/// not valid JSON; see `parse_remote_body`), or the parsed records of a
/// local one.
pub enum EntryInput {
    Fetched(Option<serde_json::Value>),
    Items(Vec<ContentItem>),
}

/// One named content result.
#[derive(Debug)]
pub struct NamedContent {
    pub name: String,
    pub content: TemplateContentDSLItem,
}

/// Parses the fetched body of a remote entry.  A missing body (the fetch
/// failed) or one that is not valid JSON yields nothing, and the entry
/// will be omitted: absence is a valid state.
pub fn parse_remote_body(body: Option<String>) -> (r: Option<serde_json::Value>)
    ensures
        r is Some <==> (body matches Some(s) && json_ok(s@)),
{
    match body {
        Some(s) => json_parse(s.as_str()),
        None => None,
    }
}

/// Wraps a parsed remote payload as a named `Pulled` result; a failed parse
/// (or fetch) yields no entry.
pub fn wrap_pulled(name: String, v: Option<serde_json::Value>) -> (r: Option<NamedContent>)
    ensures
        r is Some <==> v is Some,
        v is Some ==> (r matches Some(nc) && nc.name@ == name@ && (
        nc.content matches TemplateContentDSLItem::Pulled(pv) && pv == v->0)),
{
    match v {
        Some(v) => Some(NamedContent { name, content: TemplateContentDSLItem::Pulled(v) }),
        None => None,
    }
}

/// What resolving one entry must produce, given its input.
///
/// A remote entry yields exactly its parsed payload wrapped as `Pulled`,
/// or nothing when there is no payload: absence is a valid state.  An
/// entry naming one file yields `Single` with its record, or nothing when
/// the file did not parse.  An entry naming a directory always yields a
/// result, shaped by the fixed pipeline: `Grouped` when `group_by` is
/// present and non-empty, and the flat `Normal` shape both when `group_by`
/// is omitted and when it is explicitly empty — the empty grouping path is
/// the signal to fall back to the flat result.  An input of the wrong kind
/// for the entry yields nothing.
pub open spec fn entry_result_ok(
    dir: Seq<char>,
    dsl: ContentDSLItem,
    input: EntryInput,
    r: Option<NamedContent>,
) -> bool {
    let remote = spec_starts_with(dsl.from@, "http"@);
    let single = path_is_single(entry_path(dir, dsl.from@));
    match input {
        EntryInput::Fetched(v) => {
            if remote {
                match v {
                    None => r is None,
                    Some(pv) => r matches Some(nc) && nc.name@ == dsl.name@ && (
                    nc.content matches TemplateContentDSLItem::Pulled(p) && p == pv),
                }
            } else {
                r is None
            }
        },
        EntryInput::Items(items) => {
            if remote {
                r is None
            } else if single {
                if items@.len() > 0 {
                    r matches Some(nc) && nc.name@ == dsl.name@ && (
                    nc.content matches TemplateContentDSLItem::Single(it) && it == items@[0])
                } else {
                    r is None
                }
            } else {
                let flat = sort_order_limit_spec(dsl.sort_by, dsl.order, dsl.limit, items@);
                let flat_result = r matches Some(nc) && nc.name@ == dsl.name@ && (
                nc.content matches TemplateContentDSLItem::Normal(v) && v@ == flat);
                match dsl.group_by {
                    Some(by) => if by@.len() > 0 {
                        r matches Some(nc) && nc.name@ == dsl.name@ && (
                        nc.content matches TemplateContentDSLItem::Grouped(gs) && groups_view(gs@)
                            == dsl_group_spec(flat, by@, dsl.group_by_order, dsl.group_by_limit))
                    } else {
                        flat_result
                    },
                    None => flat_result,
                }
            }
        },
    }
}

/// Resolves one manifest entry to at most one named content result.  The
/// caller prepares `input` according to `plan_content_source`: the parsed
/// payload (`parse_remote_body`) for a remote entry, the parsed records
/// otherwise.
pub fn resolve_entry(dir: &str, dsl: ContentDSLItem, input: EntryInput) -> (r: Option<NamedContent>)
    ensures
        entry_result_ok(dir@, dsl, input, r),
{
    let remote = str_starts_with(dsl.from.as_str(), "http");
    match input {
        EntryInput::Fetched(v) => {
            if !remote {
                return None;
            }
            wrap_pulled(dsl.name, v)
        },
        EntryInput::Items(items) => {
            if remote {
                return None;
            }
            let path = concat3(dir, "/", dsl.from.as_str());
            let single = str_ends_with(path.as_str(), ".md") || str_ends_with(
                path.as_str(),
                ".markdown",
            );
            if single {
                let mut items = items;
                if items.len() > 0 {
                    let first = items.remove(0);
                    Some(NamedContent {
                        name: dsl.name,
                        content: TemplateContentDSLItem::Single(first),
                    })
                } else {
                    None
                }
            } else {
                let shaped = dsl_sort_order_limit(&dsl, items);
                match dsl.group_by {
                    Some(by) => {
                        if by.as_str().unicode_len() > 0 {
                            let gs = dsl_group(
                                shaped,
                                by,
                                dsl.group_by_order,
                                dsl.group_by_limit,
                            );
                            Some(NamedContent {
                                name: dsl.name,
                                content: TemplateContentDSLItem::Grouped(gs),
                            })
                        } else {
                            // an explicitly empty grouping path falls back
                            // to the flat shape
                            Some(NamedContent {
                                name: dsl.name,
                                content: TemplateContentDSLItem::Normal(shaped),
                            })
                        }
                    },
                    None => Some(NamedContent {
                        name: dsl.name,
                        content: TemplateContentDSLItem::Normal(shaped),
                    }),
                }
            }
        },
    }
}

// ---------------------------------------------------------------------------
// Composition over the whole manifest
// ---------------------------------------------------------------------------

/// A fatal manifest authoring error.
#[derive(Debug, Clone, PartialEq)]
pub enum DslError {
    /// A `sort_by` or `group_by` path names no field of a content record.
    UnknownField(String),
}

/// Every field path of the entry resolves on a content record.  An empty
/// `group_by` is allowed: it requests the empty grouped result.
pub open spec fn entry_fields_ok(dsl: ContentDSLItem) -> bool {
    &&& (match dsl.sort_by {
        Some(s) => field_path_ok_spec(s@),
        None => true,
    })
    &&& (match dsl.group_by {
        Some(s) => field_path_ok_spec(s@) || s@.len() == 0,
        None => true,
    })
}

/// `f` is a field path of `dsl` that resolves on no record field.
pub open spec fn bad_field_of(dsl: ContentDSLItem, f: Seq<char>) -> bool {
    ||| (dsl.sort_by matches Some(s) && !field_path_ok_spec(s@) && s@ == f)
    ||| (dsl.group_by matches Some(g) && !(field_path_ok_spec(g@) || g@.len() == 0) && g@ == f)
}

fn check_entry_fields(dsl: &ContentDSLItem) -> (r: Option<String>)
    ensures
        r is None <==> entry_fields_ok(*dsl),
        r matches Some(f) ==> bad_field_of(*dsl, f@),
{
    match &dsl.sort_by {
        Some(s) => {
            if !field_path_ok(s.as_str()) {
                return Some(s.clone());
            }
        },
        None => {},
    }
    match &dsl.group_by {
        Some(s) => {
            if !field_path_ok(s.as_str()) && s.as_str().unicode_len() > 0 {
                return Some(s.clone());
            }
        },
        None => {},
    }
    None
}

/// Index of the first entry exposed under `name`, or -1.
pub open spec fn find_name(out: Seq<NamedContent>, name: Seq<char>) -> int
    decreases out.len(),
{
    if out.len() == 0 {
        -1
    } else if out[0].name@ == name {
        0
    } else {
        let r = find_name(out.drop_first(), name);
        if r < 0 {
            -1
        } else {
            r + 1
        }
    }
}

proof fn lemma_find_name_exact(out: Seq<NamedContent>, name: Seq<char>, i: int)
    requires
        0 <= i <= out.len(),
        forall|k: int| 0 <= k < i ==> (#[trigger] out[k]).name@ != name,
        i < out.len() ==> out[i].name@ == name,
    ensures
        find_name(out, name) == if i < out.len() {
            i
        } else {
            -1
        },
    decreases i,
{
    if i == 0 {
    } else {
        assert(out[0].name@ != name);
        lemma_find_name_exact(out.drop_first(), name, i - 1);
        assert forall|k: int| 0 <= k < i - 1 implies (#[trigger] out.drop_first()[k]).name@
            != name by {
            assert(out.drop_first()[k] == out[k + 1]);
        }
    }
}

/// A named result added to the composition: it replaces the first earlier
/// result with the same name, in place, or is appended.
pub open spec fn upsert_spec(out: Seq<NamedContent>, nc: NamedContent) -> Seq<NamedContent> {
    let i = find_name(out, nc.name@);
    if 0 <= i < out.len() {
        out.update(i, nc)
    } else {
        out.push(nc)
    }
}

fn upsert(out: &mut Vec<NamedContent>, nc: NamedContent)
    ensures
        final(out)@ == upsert_spec(old(out)@, nc),
{
    let n = out.len();
    let mut i: usize = 0;
    while i < n
        invariant
            i <= n,
            n == out@.len(),
            out@ == old(out)@,
            forall|k: int| 0 <= k < i ==> (#[trigger] out@[k]).name@ != nc.name@,
        decreases n - i,
    {
        if str_eq(out[i].name.as_str(), nc.name.as_str()) {
            proof {
                lemma_find_name_exact(out@, nc.name@, i as int);
            }
            let ghost before = out@;
            let _replaced = out.remove(i);
            out.insert(i, nc);
            proof {
                assert(out@ =~= before.update(i as int, nc));
            }
            return;
        }
        i = i + 1;
    }
    proof {
        lemma_find_name_exact(out@, nc.name@, n as int);
    }
    out.push(nc);
}

/// Folding chosen per-entry results into the composition, in order.
pub open spec fn compose_fold(steps: Seq<Option<NamedContent>>) -> Seq<NamedContent>
    decreases steps.len(),
{
    if steps.len() == 0 {
        Seq::empty()
    } else {
        match steps.last() {
            Some(nc) => upsert_spec(compose_fold(steps.drop_last()), nc),
            None => compose_fold(steps.drop_last()),
        }
    }
}

/// The composition relation: `out` is what folding the entries produces,
/// each entry contributing at most one named result as `entry_result_ok`
/// allows, a later result replacing an earlier one of the same name.
pub open spec fn composes_to(
    dir: Seq<char>,
    entries: Seq<(ContentDSLItem, EntryInput)>,
    out: Seq<NamedContent>,
) -> bool {
    exists|steps: Seq<Option<NamedContent>>|
        #![trigger compose_fold(steps)]
        {
            &&& steps.len() == entries.len()
            &&& (forall|i: int|
                0 <= i < entries.len() ==> entry_result_ok(
                    dir,
                    entries[i].0,
                    entries[i].1,
                    #[trigger] steps[i],
                ))
            &&& out == compose_fold(steps)
        }
}

/// Composes the whole manifest: resolves each entry in order against its
/// prepared input, and exposes the results by name.  An unresolvable
/// `sort_by` or `group_by` field path anywhere in the manifest is a fatal
/// configuration error naming the offending path; otherwise the composition
/// always succeeds, entries whose source yielded nothing being omitted.
pub fn compose_content_from_dsl(dir: &str, entries: Vec<(ContentDSLItem, EntryInput)>) -> (r:
    Result<Vec<NamedContent>, DslError>)
    ensures
        r is Err <==> exists|i: int|
            0 <= i < entries@.len() && !entry_fields_ok((#[trigger] entries@[i]).0),
        r matches Err(e) ==> (e matches DslError::UnknownField(f) && exists|i: int|
            0 <= i < entries@.len() && bad_field_of((#[trigger] entries@[i]).0, f@)),
        r matches Ok(out) ==> composes_to(dir@, entries@, out@),
{
    let n = entries.len();
    let mut i: usize = 0;
    while i < n
        invariant
            i <= n,
            n == entries@.len(),
            forall|j: int| 0 <= j < i ==> entry_fields_ok((#[trigger] entries@[j]).0),
        decreases n - i,
    {
        match check_entry_fields(&entries[i].0) {
            Some(f) => {
                return Err(DslError::UnknownField(f));
            },
            None => {},
        }
        i = i + 1;
    }
    let mut entries = entries;
    let ghost all = entries@;
    let mut out: Vec<NamedContent> = Vec::new();
    let ghost mut steps = Seq::<Option<NamedContent>>::empty();
    while entries.len() > 0
        invariant
            entries@.len() <= all.len(),
            entries@ == all.subrange(all.len() - entries@.len(), all.len() as int),
            steps.len() == all.len() - entries@.len(),
            forall|j: int|
                0 <= j < steps.len() ==> entry_result_ok(
                    dir@,
                    all[j].0,
                    all[j].1,
                    #[trigger] steps[j],
                ),
            out@ == compose_fold(steps),
        decreases entries@.len(),
    {
        let ghost i = all.len() - entries@.len();
        let (dsl, input) = entries.remove(0);
        proof {
            assert(all[i] == (dsl, input));
            assert(entries@ =~= all.subrange(all.len() - entries@.len(), all.len() as int));
        }
        let step = resolve_entry(dir, dsl, input);
        match step {
            Some(nc) => {
                let ghost step_v = Some(nc);
                upsert(&mut out, nc);
                proof {
                    let steps0 = steps;
                    steps = steps0.push(step_v);
                    assert(steps.drop_last() =~= steps0);
                    assert(steps.last() == step_v);
                    assert(out@ == compose_fold(steps));
                }
            },
            None => {
                proof {
                    let steps0 = steps;
                    steps = steps0.push(None);
                    assert(steps.drop_last() =~= steps0);
                    assert(steps.last() == Option::<NamedContent>::None);
                    assert(out@ == compose_fold(steps));
                }
            },
        }
    }
    proof {
        assert(all.subrange(0, all.len() as int) =~= all);
        assert(steps.len() == all.len());
        assert(forall|i: int|
            0 <= i < all.len() ==> entry_result_ok(dir@, all[i].0, all[i].1, #[trigger] steps[i]));
        assert(out@ == compose_fold(steps));
        assert(composes_to(dir@, all, out@));
    }
    Ok(out)
}

// ---------------------------------------------------------------------------
// Limit and empty-path laws
// ---------------------------------------------------------------------------

/// Law: a limit of zero yields an empty flat result, whatever the records.
pub proof fn lemma_limit_zero_empty(
    sort_by: Option<String>,
    order: Option<String>,
    items: Seq<ContentItem>,
)
    ensures
        sort_order_limit_spec(sort_by, order, Some(0), items) == Seq::<ContentItem>::empty(),
{
    let sorted = match sort_by {
        Some(by) => stable_sort_by(items, item_leq(by@, order_is_desc(order))),
        None => items,
    };
    if sorted.len() > 0 {
        assert(sorted.take(0) =~= Seq::<ContentItem>::empty());
    } else {
        assert(sorted =~= Seq::<ContentItem>::empty());
    }
}

/// Law: a group limit of zero yields zero groups, not an error.
pub proof fn lemma_group_limit_zero(items: Seq<ContentItem>, by: Seq<char>, order: Option<String>)
    ensures
        dsl_group_spec(items, by, order, Some(0)).len() == 0,
{
    if by.len() == 0 {
    } else {
        let gs = group_spec(items, by);
        let sorted = stable_sort_by(keys_of(gs), lex_order());
        let dir = if order_is_desc(order) {
            sorted.reverse()
        } else {
            sorted
        };
        if dir.len() > 0 {
            assert(dir.take(0) =~= Seq::<Seq<char>>::empty());
        }
        assert(ordered_group_keys(gs, order_is_desc(order), Some(0)).len() == 0);
    }
}

/// Law: an empty grouping path yields the empty grouped result without
/// consulting the records; the resolver reads that as "use the flat shape".
pub proof fn lemma_empty_group_by(
    items: Seq<ContentItem>,
    order: Option<String>,
    limit: Option<usize>,
)
    ensures
        dsl_group_spec(items, Seq::empty(), order, limit) == Seq::<
            (Seq<char>, Seq<ContentItem>),
        >::empty(),
{
}

/// Law: ordering the groups does not disturb the partition.  With no group
/// limit, every group of the full grouping pipeline still holds exactly the
/// records with its key, in input order, and every record's key still has
/// its group.
pub proof fn lemma_ordered_groups_partition(
    items: Seq<ContentItem>,
    by: Seq<char>,
    order: Option<String>,
)
    requires
        by.len() > 0,
    ensures
        forall|j: int|
            0 <= j < dsl_group_spec(items, by, order, None).len() ==> (#[trigger] dsl_group_spec(
                items,
                by,
                order,
                None,
            )[j]).1 == group_items_for(items, by, dsl_group_spec(items, by, order, None)[j].0),
        forall|i: int|
            0 <= i < items.len() ==> exists|j: int|
                0 <= j < dsl_group_spec(items, by, order, None).len() && (#[trigger] dsl_group_spec(
                    items,
                    by,
                    order,
                    None,
                )[j]).0 == grouper_spec(#[trigger] items[i], by),
{
    broadcast use vstd::seq_lib::group_to_multiset_ensures, vstd::multiset::group_multiset_axioms;

    let gs = group_spec(items, by);
    let keys = group_keys(items, by);
    let desc = order_is_desc(order);
    let sorted = stable_sort_by(keys_of(gs), lex_order());
    let dir = if desc {
        sorted.reverse()
    } else {
        sorted
    };
    let okeys = ordered_group_keys(gs, desc, None);
    let out = dsl_group_spec(items, by, order, None);
    assert(okeys == dir);
    assert(out == order_groups_spec(gs, desc, None));
    lemma_group_keys_distinct(items, by);
    assert(keys_of(gs).len() == gs.len());
    assert forall|w: int| 0 <= w < gs.len() implies #[trigger] keys_of(gs)[w] == gs[w].0
        && gs[w] == (keys[w], group_items_for(items, by, keys[w])) by {
        assert(gs[w] == (keys[w], group_items_for(items, by, keys[w])));
    }
    assert(distinct_keys(gs)) by {
        assert forall|i1: int, i2: int|
            0 <= i1 < i2 < gs.len() implies (#[trigger] gs[i1]).0 != (#[trigger] gs[i2]).0 by {
            assert(gs[i1].0 == keys[i1] && gs[i2].0 == keys[i2]);
        }
    }
    crate::sorting::lemma_stable_sort_multiset(keys_of(gs), lex_order());
    // every chosen key is a key of the grouping
    assert forall|j: int| 0 <= j < out.len() implies (#[trigger] out[j]).1 == group_items_for(
        items,
        by,
        out[j].0,
    ) by {
        assert(out[j] == (okeys[j], lookup_group(gs, okeys[j])));
        let k = okeys[j];
        assert(k == dir[j]);
        if desc {
            assert(dir[j] == sorted[sorted.len() - 1 - j]);
        }
        assert(sorted.contains(k));
        assert(sorted.to_multiset().count(k) > 0);
        assert(keys_of(gs).to_multiset().count(k) > 0);
        assert(keys_of(gs).contains(k));
        let w = choose|w: int| 0 <= w < keys_of(gs).len() && keys_of(gs)[w] == k;
        lemma_lookup_at(gs, w);
        assert(lookup_group(gs, k) == gs[w].1);
        assert(gs[w].1 == group_items_for(items, by, keys[w]));
    }
    // every record's key has a group
    assert forall|i: int| 0 <= i < items.len() implies exists|j: int|
        0 <= j < out.len() && (#[trigger] out[j]).0 == grouper_spec(#[trigger] items[i], by) by {
        let g = grouper_spec(items[i], by);
        lemma_group_keys_complete(items, by, i);
        let w = choose|w: int| 0 <= w < keys.len() && keys[w] == g;
        assert(keys_of(gs)[w] == g);
        assert(keys_of(gs).contains(g));
        assert(keys_of(gs).to_multiset().count(g) > 0);
        assert(sorted.to_multiset().count(g) > 0);
        assert(sorted.contains(g));
        let v = choose|v: int| 0 <= v < sorted.len() && sorted[v] == g;
        if desc {
            assert(dir[sorted.len() - 1 - v] == sorted[v]);
            assert(out[sorted.len() - 1 - v] == (
                okeys[sorted.len() - 1 - v],
                lookup_group(gs, okeys[sorted.len() - 1 - v]),
            ));
            assert(out[sorted.len() - 1 - v].0 == g);
        } else {
            assert(out[v] == (okeys[v], lookup_group(gs, okeys[v])));
            assert(out[v].0 == g);
        }
    }
}

proof fn lemma_flatten_ms_remove(m: Seq<Seq<ContentItem>>, w: int)
    requires
        0 <= w < m.len(),
    ensures
        m.flatten().to_multiset() == m.remove(w).flatten().to_multiset().add(
            m[w].to_multiset(),
        ),
    decreases m.len(),
{
    broadcast use vstd::seq_lib::group_to_multiset_ensures, vstd::multiset::group_multiset_axioms;
    broadcast use lemma_multiset_commutative;

    if w == 0 {
        assert(m.flatten() == m[0] + m.drop_first().flatten());
        assert(m.remove(0) =~= m.drop_first());
        assert(m.flatten().to_multiset() =~= m.remove(0).flatten().to_multiset().add(
            m[0].to_multiset(),
        ));
    } else {
        lemma_flatten_ms_remove(m.drop_first(), w - 1);
        assert(m.flatten() == m[0] + m.drop_first().flatten());
        assert(m.drop_first()[w - 1] == m[w]);
        assert(m.remove(w).drop_first() =~= m.drop_first().remove(w - 1));
        assert(m.remove(w)[0] == m[0]);
        assert(m.remove(w).flatten() == m[0] + m.remove(w).drop_first().flatten());
        assert(m.flatten().to_multiset() =~= m.remove(w).flatten().to_multiset().add(
            m[w].to_multiset(),
        ));
    }
}

/// Flattening a key-indexed family depends only on the multiset of keys.
proof fn lemma_flatten_ms_perm(
    k1: Seq<Seq<char>>,
    k2: Seq<Seq<char>>,
    f: spec_fn(Seq<char>) -> Seq<ContentItem>,
)
    requires
        k1.to_multiset() == k2.to_multiset(),
    ensures
        k1.map_values(f).flatten().to_multiset() == k2.map_values(f).flatten().to_multiset(),
    decreases k1.len(),
{
    broadcast use vstd::seq_lib::group_to_multiset_ensures, vstd::multiset::group_multiset_axioms;

    if k1.len() == 0 {
        assert(k2.to_multiset().len() == 0);
        assert(k2.len() == 0);
        assert(k1.map_values(f) =~= k2.map_values(f));
    } else {
        let x = k1.last();
        assert(k1.contains(x));
        assert(k1.to_multiset().count(x) > 0);
        assert(k2.to_multiset().count(x) > 0);
        assert(k2.contains(x));
        let w = choose|w: int| 0 <= w < k2.len() && k2[w] == x;
        assert(k1.drop_last() =~= k1.remove(k1.len() - 1));
        assert(k1.remove(k1.len() - 1).to_multiset() =~= k1.to_multiset().remove(x));
        assert(k2.remove(w).to_multiset() =~= k2.to_multiset().remove(x));
        lemma_flatten_ms_perm(k1.drop_last(), k2.remove(w), f);
        // peel x from both mapped families
        let m1 = k1.map_values(f);
        let m2 = k2.map_values(f);
        assert(m1.len() == k1.len());
        lemma_flatten_ms_remove(m1, k1.len() - 1);
        lemma_flatten_ms_remove(m2, w);
        assert(m1[k1.len() - 1] == f(x));
        assert(m2[w] == f(x));
        assert(m1.remove(k1.len() - 1) =~= k1.drop_last().map_values(f)) by {
            assert forall|j: int| 0 <= j < k1.len() - 1 implies m1.remove(k1.len() - 1)[j]
                == k1.drop_last().map_values(f)[j] by {
                if j < k1.len() - 1 {
                    assert(m1.remove(k1.len() - 1)[j] == m1[j]);
                    assert(m1[j] == f(k1[j]));
                    assert(k1.drop_last().map_values(f)[j] == f(k1.drop_last()[j]));
                }
            }
        }
        assert(m2.remove(w) =~= k2.remove(w).map_values(f)) by {
            assert forall|j: int| 0 <= j < m2.len() - 1 implies m2.remove(w)[j] == k2.remove(
                w,
            ).map_values(f)[j] by {
                let o = if j < w {
                    j
                } else {
                    j + 1
                };
                assert(m2.remove(w)[j] == m2[o]);
                assert(m2[o] == f(k2[o]));
                assert(k2.remove(w)[j] == k2[o]);
                assert(k2.remove(w).map_values(f)[j] == f(k2.remove(w)[j]));
            }
        }
        assert(m1.flatten().to_multiset() =~= m2.flatten().to_multiset());
    }
}

/// Law: the full grouping pipeline, with no group limit, loses and invents
/// no records: flattening the ordered groups gives back exactly the records
/// that went in.
pub proof fn lemma_ordered_groups_flatten(
    items: Seq<ContentItem>,
    by: Seq<char>,
    order: Option<String>,
)
    requires
        by.len() > 0,
    ensures
        flatten_groups(dsl_group_spec(items, by, order, None)).to_multiset()
            == items.to_multiset(),
{
    broadcast use vstd::seq_lib::group_to_multiset_ensures, vstd::multiset::group_multiset_axioms;

    let gs = group_spec(items, by);
    let keys = group_keys(items, by);
    let desc = order_is_desc(order);
    let sorted = stable_sort_by(keys_of(gs), lex_order());
    let okeys = ordered_group_keys(gs, desc, None);
    let out = dsl_group_spec(items, by, order, None);
    let f = |k: Seq<char>| group_items_for(items, by, k);
    lemma_group_keys_distinct(items, by);
    lemma_group_partition(items, by);
    assert(keys_of(gs).len() == gs.len());
    assert forall|w: int| 0 <= w < gs.len() implies #[trigger] keys_of(gs)[w] == gs[w].0
        && gs[w] == (keys[w], group_items_for(items, by, keys[w])) by {
        assert(gs[w] == (keys[w], group_items_for(items, by, keys[w])));
    }
    assert(distinct_keys(gs)) by {
        assert forall|i1: int, i2: int|
            0 <= i1 < i2 < gs.len() implies (#[trigger] gs[i1]).0 != (#[trigger] gs[i2]).0 by {
            assert(gs[i1].0 == keys[i1] && gs[i2].0 == keys[i2]);
        }
    }
    crate::sorting::lemma_stable_sort_multiset(keys_of(gs), lex_order());
    // the chosen key order is a permutation of the group keys
    assert(okeys.to_multiset() == keys_of(gs).to_multiset()) by {
        if desc {
            sorted.lemma_reverse_to_multiset();
            assert(okeys == sorted.reverse());
        } else {
            assert(okeys == sorted);
        }
    }
    // the grouped family is the group keys mapped through the filter
    assert(gs.map_values(|p: (Seq<char>, Seq<ContentItem>)| p.1) =~= keys_of(gs).map_values(f))
        by {
        assert forall|j: int| 0 <= j < gs.len() implies gs.map_values(
            |p: (Seq<char>, Seq<ContentItem>)| p.1,
        )[j] == keys_of(gs).map_values(f)[j] by {
            assert(gs.map_values(|p: (Seq<char>, Seq<ContentItem>)| p.1)[j] == gs[j].1);
            assert(keys_of(gs).map_values(f)[j] == f(keys_of(gs)[j]));
        }
    }
    // the ordered family is the chosen keys mapped through the same filter
    assert(out.map_values(|p: (Seq<char>, Seq<ContentItem>)| p.1) =~= okeys.map_values(f)) by {
        assert(out == order_groups_spec(gs, desc, None));
        assert forall|j: int| 0 <= j < out.len() implies out.map_values(
            |p: (Seq<char>, Seq<ContentItem>)| p.1,
        )[j] == okeys.map_values(f)[j] by {
            assert(out[j] == (okeys[j], lookup_group(gs, okeys[j])));
            assert(okeys.map_values(f)[j] == f(okeys[j]));
            let k = okeys[j];
            assert(okeys.contains(k));
            assert(okeys.to_multiset().count(k) > 0);
            assert(keys_of(gs).to_multiset().count(k) > 0);
            assert(keys_of(gs).contains(k));
            let w = choose|w: int| 0 <= w < keys_of(gs).len() && keys_of(gs)[w] == k;
            lemma_lookup_at(gs, w);
            assert(lookup_group(gs, k) == gs[w].1);
        }
    }
    lemma_flatten_ms_perm(keys_of(gs), okeys, f);
    assert(flatten_groups(gs).to_multiset() == keys_of(gs).map_values(f).flatten().to_multiset());
    assert(flatten_groups(out).to_multiset() == okeys.map_values(f).flatten().to_multiset());
}

} // verus!
