//! Rebuild scheduling: the work items of a recompilation wave (chunked for
//! a bounded worker pool), the per-item render-job derivations, and the
//! debouncer that collapses bursts of change events into one reaction.

use vstd::prelude::*;
use crate::content::ContentItem;
use crate::strutil::{
    concat3, concat4, spec_strip_prefix, spec_strip_suffix, strip_prefix_str, strip_suffix_str,
};

verus! {

/// The views of a sequence of chunks.
pub open spec fn chunks_view<T>(cs: Seq<Vec<T>>) -> Seq<Seq<T>> {
    cs.map_values(|c: Vec<T>| c@)
}

/// Partitions `items` into chunks of `size`, keeping order: concatenating
/// the chunks gives back the input, every chunk is non-empty and at most
/// `size` long, and all but the last are exactly `size` long.
pub fn chunk_items<T>(items: Vec<T>, size: usize) -> (r: Vec<Vec<T>>)
    requires
        size > 0,
    ensures
        chunks_view(r@).flatten() == items@,
        forall|i: int| 0 <= i < r@.len() ==> 0 < (#[trigger] r@[i])@.len() <= size,
        forall|i: int| 0 <= i < r@.len() - 1 ==> (#[trigger] r@[i])@.len() == size,
{
    broadcast use Seq::lemma_flatten_push;

    let mut items = items;
    let ghost all = items@;
    let mut out: Vec<Vec<T>> = Vec::new();
    let mut cur: Vec<T> = Vec::new();
    proof {
        assert(chunks_view(out@) =~= Seq::<Seq<T>>::empty());
        assert(chunks_view(out@).flatten() + cur@ =~= all.subrange(0, 0));
    }
    while items.len() > 0
        invariant
            size > 0,
            items@.len() <= all.len(),
            items@ == all.subrange(all.len() - items@.len(), all.len() as int),
            cur@.len() < size,
            chunks_view(out@).flatten() + cur@ == all.subrange(0, all.len() - items@.len()),
            forall|i: int| 0 <= i < out@.len() ==> (#[trigger] out@[i])@.len() == size,
        decreases items@.len(),
    {
        let ghost i = all.len() - items@.len();
        let x = items.remove(0);
        proof {
            assert(x == all[i]);
            assert(items@ =~= all.subrange(all.len() - items@.len(), all.len() as int));
        }
        let ghost flat0 = chunks_view(out@).flatten();
        let ghost cur0 = cur@;
        cur.push(x);
        proof {
            assert(flat0 + cur@ =~= (flat0 + cur0).push(x));
            assert((flat0 + cur0).push(x) =~= all.subrange(0, i + 1));
        }
        if cur.len() == size {
            let ghost out0 = out@;
            let full = cur;
            out.push(full);
            cur = Vec::new();
            proof {
                assert(chunks_view(out@).drop_last() =~= chunks_view(out0));
                assert(chunks_view(out@) =~= chunks_view(out0).push(chunks_view(out@).last()));
                chunks_view(out0).lemma_flatten_push(chunks_view(out@).last());
                assert(chunks_view(out@).flatten() =~= chunks_view(out0).flatten()
                    + chunks_view(out@).last());
                assert(chunks_view(out@).flatten() + cur@ =~= all.subrange(0, i + 1));
            }
        }
    }
    if cur.len() > 0 {
        let ghost out0 = out@;
        out.push(cur);
        proof {
            assert(chunks_view(out@).drop_last() =~= chunks_view(out0));
            assert(chunks_view(out@) =~= chunks_view(out0).push(chunks_view(out@).last()));
            chunks_view(out0).lemma_flatten_push(chunks_view(out@).last());
            assert(chunks_view(out@).flatten() =~= chunks_view(out0).flatten() + chunks_view(
                out@,
            ).last());
        }
    }
    proof {
        assert(all.subrange(0, all.len() as int) =~= all);
        if chunks_view(out@).flatten().len() == all.len() {
        }
        assert(chunks_view(out@).flatten() =~= all);
    }
    out
}

// ---------------------------------------------------------------------------
// Render jobs
// ---------------------------------------------------------------------------

/// Where a content item renders from and writes to.
#[derive(Debug, Clone)]
pub struct ContentJob {
    /// The layout template the item names in its metadata.
    pub template_path: String,
    /// The output file under the public directory.
    pub write_path: String,
}

/// Derives the render job of one content item, or nothing when the item
/// names no layout: such an item is skipped with a diagnostic, not fatal.
pub fn content_item_job(dir: &str, item: &ContentItem) -> (r: Option<ContentJob>)
    ensures
        r is Some <==> item.meta@.contains_key("layout"@),
        r matches Some(j) ==> j.template_path@ == dir@ + "/_layouts/"@ + item.meta@["layout"@]
            + ".hbs"@ && j.write_path@ == dir@ + "/public"@ + item.slug@ + "/index.html"@,
{
    match item.meta.get("layout") {
        Some(layout) => {
            let template_path = concat4(dir, "/_layouts/", layout.as_str(), ".hbs");
            let write_path = concat4(dir, "/public", item.slug.as_str(), "/index.html");
            Some(ContentJob { template_path, write_path })
        },
        None => None,
    }
}

/// Where a page template renders to.
#[derive(Debug, Clone)]
pub struct TemplateJob {
    /// The template's routing key: its path relative to the content root,
    /// with the template suffix stripped.
    pub slug: String,
    /// The output file under the public directory.
    pub write_path: String,
}

pub fn template_item_job(dir: &str, file: &str) -> (r: TemplateJob)
    ensures
        r.slug@ == spec_strip_suffix(spec_strip_prefix(file@, dir@), ".hbs"@),
        r.write_path@ == dir@ + "/public"@ + spec_strip_suffix(
            spec_strip_prefix(file@, dir@),
            ".hbs"@,
        ),
{
    let rel = strip_prefix_str(file, dir);
    let slug = strip_suffix_str(rel.as_str(), ".hbs");
    let write_path = concat3(dir, "/public", slug.as_str());
    TemplateJob { slug, write_path }
}

/// The output path an asset is copied to (and deleted from): its path
/// relative to the content root, under the public directory.
pub fn asset_target_path(dir: &str, asset: &str) -> (r: String)
    ensures
        r@ == dir@ + "/public"@ + spec_strip_prefix(asset@, dir@),
{
    let rel = strip_prefix_str(asset, dir);
    concat3(dir, "/public", rel.as_str())
}

// ---------------------------------------------------------------------------
// Debouncing
// ---------------------------------------------------------------------------

/// Collapses bursts of change events into one reaction: each event resets a
/// timer to one window ahead and records its path; the reaction fires only
/// when the timer elapses without a newer event, carrying the most recent
/// path.  Times are in milliseconds, supplied by the caller.
#[derive(Debug, Clone)]
pub struct Debouncer {
    pub window: u64,
    pub pending: Option<(String, u64)>,
}

/// The state after an event arrives at `now`.
pub open spec fn observe_spec(d: Debouncer, path: String, now: u64) -> Debouncer {
    Debouncer { window: d.window, pending: Some((path, (now + d.window) as u64)) }
}

/// What a poll at `now` fires: the pending path once its deadline passed.
pub open spec fn poll_fire(d: Debouncer, now: u64) -> Option<String> {
    match d.pending {
        Some(p) => if now >= p.1 {
            Some(p.0)
        } else {
            None
        },
        None => None,
    }
}

/// The state after a poll at `now`: fired work is cleared.
pub open spec fn poll_next(d: Debouncer, now: u64) -> Debouncer {
    match d.pending {
        Some(p) => if now >= p.1 {
            Debouncer { window: d.window, pending: None }
        } else {
            d
        },
        None => d,
    }
}

impl Debouncer {
    pub fn new(window: u64) -> (r: Debouncer)
        ensures
            r.window == window,
            r.pending is None,
    {
        Debouncer { window, pending: None }
    }

    /// Records an event: the reaction is postponed to one window from now
    /// and will carry this path.
    pub fn observe(&mut self, path: String, now: u64)
        requires
            now + old(self).window <= u64::MAX,
        ensures
            *final(self) == observe_spec(*old(self), path, now),
    {
        let deadline = now + self.window;
        self.pending = Some((path, deadline));
    }

    /// Fires the pending reaction once its deadline has passed.
    pub fn poll(&mut self, now: u64) -> (r: Option<String>)
        ensures
            r == poll_fire(*old(self), now),
            *final(self) == poll_next(*old(self), now),
    {
        let fire = match &self.pending {
            Some(p) => now >= p.1,
            None => false,
        };
        if fire {
            let taken = self.pending.take();
            match taken {
                Some(p) => Some(p.0),
                None => None,
            }
        } else {
            None
        }
    }
}

/// Law: two events within one debounce window trigger exactly one reaction,
/// carrying the most recent path.  After the second event at `t2`, a poll
/// before the new deadline fires nothing and changes nothing; the first
/// poll past the deadline fires exactly the second path; and no further
/// poll fires again until another event arrives.
pub proof fn lemma_debounce_coalesce(d: Debouncer, p1: String, p2: String, t1: u64, t2: u64)
    requires
        t1 <= t2,
        (t2 as int) < t1 + d.window,
        t2 + d.window <= u64::MAX,
    ensures
        ({
            let after = observe_spec(observe_spec(d, p1, t1), p2, t2);
            &&& (forall|t: u64|
                (t as int) < t2 + d.window ==> poll_fire(after, t) is None && poll_next(after, t)
                    == after)
            &&& (forall|t: u64| t >= t2 + d.window ==> poll_fire(after, t) == Some(p2))
            &&& (forall|t: u64, u: u64|
                t >= t2 + d.window ==> poll_fire(poll_next(after, t), u) is None)
        }),
{
    let after = observe_spec(observe_spec(d, p1, t1), p2, t2);
    assert(after.pending == Some((p2, (t2 + d.window) as u64)));
}

} // verus!
