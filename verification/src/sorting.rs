//! Stable sorting for the query engine.
//!
//! The specification-level sort is an insertion sort: each element is placed
//! after every earlier element it does not strictly precede, so elements
//! that compare equal keep their original relative order.  The executable
//! sorts are proved to return exactly that sequence.

use vstd::prelude::*;
use crate::content::ContentItem;
use crate::fields::{get_sort_key, sort_key_spec};
use crate::strutil::{
    lemma_lex_antisym, lemma_lex_total, lemma_lex_trans, lex_leq, str_eq, str_lex_leq,
};

verus! {

/// Ordered (non-strictly) at every pair of positions.
pub open spec fn sorted_by_leq<A>(s: Seq<A>, leq: spec_fn(A, A) -> bool) -> bool {
    forall|i: int, j: int| 0 <= i < j < s.len() ==> leq(#[trigger] s[i], #[trigger] s[j])
}

/// `x` placed after every element of `s` that it does not strictly precede:
/// scanning from the back, elements strictly after `x` are shifted right.
pub open spec fn sorted_insert<A>(s: Seq<A>, x: A, leq: spec_fn(A, A) -> bool) -> Seq<A>
    decreases s.len(),
{
    if s.len() == 0 {
        seq![x]
    } else if leq(s.last(), x) {
        s.push(x)
    } else {
        sorted_insert(s.drop_last(), x, leq).push(s.last())
    }
}

/// Stable insertion sort: elements are inserted in input order, and an
/// element never moves past one it compares equal to.
pub open spec fn stable_sort_by<A>(s: Seq<A>, leq: spec_fn(A, A) -> bool) -> Seq<A>
    decreases s.len(),
{
    if s.len() == 0 {
        Seq::empty()
    } else {
        sorted_insert(stable_sort_by(s.drop_last(), leq), s.last(), leq)
    }
}

/// A total preorder: what a sort comparator must satisfy.
pub open spec fn total_preorder<A>(leq: spec_fn(A, A) -> bool) -> bool {
    &&& forall|a: A, b: A| #[trigger] leq(a, b) || #[trigger] leq(b, a)
    &&& forall|a: A, b: A, c: A| #[trigger] leq(a, b) && #[trigger] leq(b, c) ==> leq(a, c)
}

// ---------------------------------------------------------------------------
// Permutation and sortedness
// ---------------------------------------------------------------------------

pub proof fn lemma_sorted_insert_multiset<A>(s: Seq<A>, x: A, leq: spec_fn(A, A) -> bool)
    ensures
        sorted_insert(s, x, leq).to_multiset() == s.push(x).to_multiset(),
    decreases s.len(),
{
    broadcast use vstd::seq_lib::group_to_multiset_ensures, vstd::multiset::group_multiset_axioms;

    if s.len() == 0 {
        assert(seq![x] =~= Seq::<A>::empty().push(x));
    } else if leq(s.last(), x) {
    } else {
        lemma_sorted_insert_multiset(s.drop_last(), x, leq);
        assert(s.drop_last().push(s.last()) =~= s);
        assert(sorted_insert(s, x, leq).to_multiset() =~= s.push(x).to_multiset());
    }
}

pub proof fn lemma_stable_sort_multiset<A>(s: Seq<A>, leq: spec_fn(A, A) -> bool)
    ensures
        stable_sort_by(s, leq).to_multiset() == s.to_multiset(),
        stable_sort_by(s, leq).len() == s.len(),
    decreases s.len(),
{
    broadcast use vstd::seq_lib::group_to_multiset_ensures, vstd::multiset::group_multiset_axioms;

    if s.len() > 0 {
        lemma_stable_sort_multiset(s.drop_last(), leq);
        lemma_sorted_insert_multiset(stable_sort_by(s.drop_last(), leq), s.last(), leq);
        assert(s.drop_last().push(s.last()) =~= s);
        assert(stable_sort_by(s, leq).to_multiset() =~= s.to_multiset());
        assert(stable_sort_by(s, leq).to_multiset().len() == s.to_multiset().len());
        assert(stable_sort_by(s, leq).len() == stable_sort_by(s, leq).to_multiset().len());
        assert(s.len() == s.to_multiset().len());
    }
}

/// Sorting neither adds nor removes values.
pub proof fn lemma_stable_sort_contains<A>(s: Seq<A>, leq: spec_fn(A, A) -> bool, x: A)
    ensures
        stable_sort_by(s, leq).contains(x) <==> s.contains(x),
{
    broadcast use vstd::seq_lib::group_to_multiset_ensures, vstd::multiset::group_multiset_axioms;

    lemma_stable_sort_multiset(s, leq);
    let t = stable_sort_by(s, leq);
    assert(t.contains(x) <==> t.to_multiset().count(x) > 0);
    assert(s.contains(x) <==> s.to_multiset().count(x) > 0);
}

pub proof fn lemma_sorted_insert_sorted<A>(s: Seq<A>, x: A, leq: spec_fn(A, A) -> bool)
    requires
        sorted_by_leq(s, leq),
        total_preorder(leq),
    ensures
        sorted_by_leq(sorted_insert(s, x, leq), leq),
    decreases s.len(),
{
    broadcast use vstd::seq_lib::group_to_multiset_ensures, vstd::multiset::group_multiset_axioms;

    let r = sorted_insert(s, x, leq);
    if s.len() == 0 {
    } else if leq(s.last(), x) {
        assert forall|i: int, j: int| 0 <= i < j < r.len() implies leq(r[i], r[j]) by {
            if j == r.len() - 1 {
                if i < s.len() - 1 {
                    assert(leq(s[i], s.last()));
                }
            }
        }
    } else {
        assert(sorted_by_leq(s.drop_last(), leq));
        lemma_sorted_insert_sorted(s.drop_last(), x, leq);
        lemma_sorted_insert_multiset(s.drop_last(), x, leq);
        let t = sorted_insert(s.drop_last(), x, leq);
        assert(leq(x, s.last()));
        assert forall|i: int| 0 <= i < t.len() implies leq(t[i], s.last()) by {
            assert(t.contains(t[i]));
            assert(t.to_multiset().count(t[i]) > 0);
            assert(s.drop_last().push(x).contains(t[i]));
            let w = choose|w: int|
                0 <= w < s.drop_last().push(x).len() && s.drop_last().push(x)[w] == t[i];
            if w < s.len() - 1 {
                assert(leq(s[w], s.last()));
            }
        }
        assert forall|i: int, j: int| 0 <= i < j < r.len() implies leq(r[i], r[j]) by {
            if j < r.len() - 1 {
                assert(leq(t[i], t[j]));
            } else {
                assert(r[j] == s.last());
                assert(leq(t[i], s.last()));
            }
        }
    }
}

pub proof fn lemma_stable_sort_sorted<A>(s: Seq<A>, leq: spec_fn(A, A) -> bool)
    requires
        total_preorder(leq),
    ensures
        sorted_by_leq(stable_sort_by(s, leq), leq),
    decreases s.len(),
{
    if s.len() > 0 {
        lemma_stable_sort_sorted(s.drop_last(), leq);
        lemma_sorted_insert_sorted(stable_sort_by(s.drop_last(), leq), s.last(), leq);
    }
}

// ---------------------------------------------------------------------------
// Where an element lands: needed for the ascending/descending law
// ---------------------------------------------------------------------------

/// When `x` ties with no element of a sorted `s`, inserting it splits `s` at
/// the boundary `p` between the elements below `x` and those above it.
pub proof fn lemma_sorted_insert_split<A>(s: Seq<A>, x: A, leq: spec_fn(A, A) -> bool, p: int)
    requires
        sorted_by_leq(s, leq),
        total_preorder(leq),
        0 <= p <= s.len(),
        forall|k: int| 0 <= k < p ==> leq(#[trigger] s[k], x),
        forall|k: int| p <= k < s.len() ==> !leq(#[trigger] s[k], x),
    ensures
        sorted_insert(s, x, leq) == s.subrange(0, p) + seq![x] + s.subrange(p, s.len() as int),
    decreases s.len(),
{
    if s.len() == 0 {
        assert(sorted_insert(s, x, leq) =~= s.subrange(0, 0) + seq![x] + s.subrange(0, 0));
    } else if leq(s.last(), x) {
        assert(p == s.len());
        assert(sorted_insert(s, x, leq) =~= s.subrange(0, p) + seq![x] + s.subrange(
            p,
            s.len() as int,
        ));
    } else {
        assert(p < s.len());
        assert(sorted_by_leq(s.drop_last(), leq));
        lemma_sorted_insert_split(s.drop_last(), x, leq, p);
        assert(s.drop_last().subrange(0, p) =~= s.subrange(0, p));
        assert(s.drop_last().subrange(p, s.len() - 1) =~= s.subrange(p, s.len() - 1));
        assert(sorted_insert(s, x, leq) =~= s.subrange(0, p) + seq![x] + s.subrange(
            p,
            s.len() as int,
        ));
    }
}

/// Such a boundary always exists in a sorted sequence.
pub proof fn lemma_split_point_exists<A>(s: Seq<A>, x: A, leq: spec_fn(A, A) -> bool) -> (p: int)
    requires
        sorted_by_leq(s, leq),
        total_preorder(leq),
    ensures
        0 <= p <= s.len(),
        forall|k: int| 0 <= k < p ==> leq(#[trigger] s[k], x),
        forall|k: int| p <= k < s.len() ==> !leq(#[trigger] s[k], x),
    decreases s.len(),
{
    if s.len() == 0 {
        0
    } else if leq(s.last(), x) {
        let q = s.len() as int;
        assert forall|k: int| 0 <= k < q implies leq(#[trigger] s[k], x) by {
            if k < s.len() - 1 {
                assert(leq(s[k], s.last()));
            }
        }
        q
    } else {
        assert(sorted_by_leq(s.drop_last(), leq));
        let q = lemma_split_point_exists(s.drop_last(), x, leq);
        assert forall|k: int| 0 <= k < q implies leq(#[trigger] s[k], x) by {
            assert(s.drop_last()[k] == s[k]);
            assert(leq(s.drop_last()[k], x));
        }
        assert forall|k: int| q <= k < s.len() implies !leq(#[trigger] s[k], x) by {
            if k < s.len() - 1 {
                assert(s.drop_last()[k] == s[k]);
                assert(!leq(s.drop_last()[k], x));
            }
        }
        q
    }
}

// ---------------------------------------------------------------------------
// Stability
// ---------------------------------------------------------------------------

proof fn lemma_sorted_insert_filter<A>(
    t: Seq<A>,
    x: A,
    leq: spec_fn(A, A) -> bool,
    pred: spec_fn(A) -> bool,
)
    requires
        forall|a: A, b: A| #[trigger] pred(a) && #[trigger] pred(b) ==> leq(a, b),
    ensures
        sorted_insert(t, x, leq).filter(pred) == t.push(x).filter(pred),
    decreases t.len(),
{
    reveal(Seq::filter);
    if t.len() == 0 {
        assert(seq![x].drop_last() =~= Seq::<A>::empty());
        assert(t.push(x).drop_last() =~= Seq::<A>::empty());
        assert(sorted_insert(t, x, leq).filter(pred) =~= t.push(x).filter(pred));
    } else if leq(t.last(), x) {
    } else {
        let dl = t.drop_last();
        lemma_sorted_insert_filter(dl, x, leq, pred);
        let r = sorted_insert(dl, x, leq).push(t.last());
        assert(r.drop_last() =~= sorted_insert(dl, x, leq));
        assert(r.filter(pred) == if pred(t.last()) {
            sorted_insert(dl, x, leq).filter(pred).push(t.last())
        } else {
            sorted_insert(dl, x, leq).filter(pred)
        });
        assert(dl.push(x).drop_last() =~= dl);
        assert(dl.push(x).filter(pred) == if pred(x) {
            dl.filter(pred).push(x)
        } else {
            dl.filter(pred)
        });
        assert(t.push(x).drop_last() =~= t);
        assert(t.push(x).filter(pred) == if pred(x) {
            t.filter(pred).push(x)
        } else {
            t.filter(pred)
        });
        assert(t.filter(pred) == if pred(t.last()) {
            dl.filter(pred).push(t.last())
        } else {
            dl.filter(pred)
        });
        if pred(x) && pred(t.last()) {
            // same-key elements compare equal both ways, so the scan cannot
            // have stepped past one
            assert(leq(t.last(), x));
            assert(false);
        } else if pred(x) {
            assert(r.filter(pred) =~= t.push(x).filter(pred));
        } else if pred(t.last()) {
            assert(r.filter(pred) =~= t.push(x).filter(pred));
        } else {
            assert(r.filter(pred) =~= t.push(x).filter(pred));
        }
    }
}

proof fn lemma_stable_sort_filter<A>(
    s: Seq<A>,
    leq: spec_fn(A, A) -> bool,
    pred: spec_fn(A) -> bool,
)
    requires
        forall|a: A, b: A| #[trigger] pred(a) && #[trigger] pred(b) ==> leq(a, b),
    ensures
        stable_sort_by(s, leq).filter(pred) == s.filter(pred),
    decreases s.len(),
{
    reveal(Seq::filter);
    if s.len() > 0 {
        lemma_stable_sort_filter(s.drop_last(), leq, pred);
        lemma_sorted_insert_filter(stable_sort_by(s.drop_last(), leq), s.last(), leq, pred);
        let t = stable_sort_by(s.drop_last(), leq);
        assert(t.push(s.last()).drop_last() =~= t);
        assert(t.push(s.last()).filter(pred) == if pred(s.last()) {
            t.filter(pred).push(s.last())
        } else {
            t.filter(pred)
        });
    }
}

/// Law: the sort is stable.  For every key, the records that sort under
/// that key appear in the output in exactly their original relative order:
/// the output restricted to one key equals the input restricted to it.
pub proof fn lemma_sort_stability(items: Seq<ContentItem>, by: Seq<char>, desc: bool, k: Seq<char>)
    ensures
        stable_sort_by(items, item_leq(by, desc)).filter(
            |it: ContentItem| sort_key_spec(it, by) == k,
        ) == items.filter(|it: ContentItem| sort_key_spec(it, by) == k),
{
    let leq = item_leq(by, desc);
    let pred = |it: ContentItem| sort_key_spec(it, by) == k;
    assert forall|a: ContentItem, b: ContentItem|
        #[trigger] pred(a) && #[trigger] pred(b) implies leq(a, b) by {
        lemma_lex_total(sort_key_spec(a, by), sort_key_spec(b, by));
    }
    lemma_stable_sort_filter(items, leq, pred);
}

// ---------------------------------------------------------------------------
// Reversal: sorting by the flipped comparator
// ---------------------------------------------------------------------------

/// A sequence sorted one way is, reversed, sorted by the flipped comparator.
pub proof fn lemma_reverse_sorted<A>(
    s: Seq<A>,
    leq: spec_fn(A, A) -> bool,
    fleq: spec_fn(A, A) -> bool,
)
    requires
        sorted_by_leq(s, leq),
        forall|a: A, b: A| #[trigger] fleq(a, b) == leq(b, a),
    ensures
        sorted_by_leq(s.reverse(), fleq),
{
    let r = s.reverse();
    let n = s.len() as int;
    assert forall|i: int, j: int| 0 <= i < j < r.len() implies fleq(r[i], r[j]) by {
        assert(r[i] == s[n - 1 - i] && r[j] == s[n - 1 - j]);
        assert(leq(s[n - 1 - j], s[n - 1 - i]));
    }
}

/// Inserting into the reversed sequence with the flipped comparator gives
/// the reverse of inserting into the original, provided `x` ties with
/// nothing already there.
pub proof fn lemma_insert_flip<A>(
    s: Seq<A>,
    x: A,
    leq: spec_fn(A, A) -> bool,
    fleq: spec_fn(A, A) -> bool,
)
    requires
        sorted_by_leq(s, leq),
        total_preorder(leq),
        forall|a: A, b: A| #[trigger] fleq(a, b) == leq(b, a),
        forall|k: int|
            0 <= k < s.len() ==> !(leq(#[trigger] s[k], x) && leq(x, s[k])),
    ensures
        sorted_insert(s.reverse(), x, fleq) == sorted_insert(s, x, leq).reverse(),
{
    let n = s.len() as int;
    let p = lemma_split_point_exists(s, x, leq);
    lemma_sorted_insert_split(s, x, leq, p);
    assert(total_preorder(fleq)) by {
        assert forall|a: A, b: A| #[trigger] fleq(a, b) || #[trigger] fleq(b, a) by {
            assert(leq(b, a) || leq(a, b));
        }
        assert forall|a: A, b: A, c: A|
            #[trigger] fleq(a, b) && #[trigger] fleq(b, c) implies fleq(a, c) by {
            assert(leq(c, b) && leq(b, a));
        }
    }
    lemma_reverse_sorted(s, leq, fleq);
    let r = s.reverse();
    assert forall|k: int| 0 <= k < n - p implies fleq(#[trigger] r[k], x) by {
        assert(r[k] == s[n - 1 - k]);
        assert(!leq(s[n - 1 - k], x));
        assert(leq(x, s[n - 1 - k]));
    }
    assert forall|k: int| n - p <= k < n implies !fleq(#[trigger] r[k], x) by {
        assert(r[k] == s[n - 1 - k]);
        assert(leq(s[n - 1 - k], x));
        assert(!leq(x, s[n - 1 - k]));
    }
    lemma_sorted_insert_split(r, x, fleq, n - p);
    let lhs = r.subrange(0, n - p) + seq![x] + r.subrange(n - p, n);
    let rhs = (s.subrange(0, p) + seq![x] + s.subrange(p, n)).reverse();
    assert forall|i: int| 0 <= i < n + 1 implies lhs[i] == rhs[i] by {
        let orig = s.subrange(0, p) + seq![x] + s.subrange(p, n);
        assert(rhs[i] == orig[n - i]);
        if i < n - p {
            assert(lhs[i] == r[i]);
            assert(r[i] == s[n - 1 - i]);
            assert(orig[n - i] == s.subrange(p, n)[n - i - p - 1]);
        } else if i == n - p {
            assert(lhs[i] == x);
            assert(orig[n - i] == x);
        } else {
            assert(lhs[i] == r.subrange(n - p, n)[i - (n - p) - 1]);
            assert(r[i - 1] == s[n - i]);
            assert(orig[n - i] == s.subrange(0, p)[n - i]);
        }
    }
    assert(lhs =~= rhs);
}

/// No two elements of `s` compare equal.
pub open spec fn no_ties<A>(s: Seq<A>, leq: spec_fn(A, A) -> bool) -> bool {
    forall|i: int, j: int|
        0 <= i < s.len() && 0 <= j < s.len() && i != j ==> !(leq(#[trigger] s[i], #[trigger] s[j])
            && leq(s[j], s[i]))
}

/// Sorting by the flipped comparator yields exactly the reversed order,
/// when no two elements tie.
pub proof fn lemma_stable_sort_flip_reverse<A>(
    s: Seq<A>,
    leq: spec_fn(A, A) -> bool,
    fleq: spec_fn(A, A) -> bool,
)
    requires
        total_preorder(leq),
        forall|a: A, b: A| #[trigger] fleq(a, b) == leq(b, a),
        no_ties(s, leq),
    ensures
        stable_sort_by(s, fleq) == stable_sort_by(s, leq).reverse(),
    decreases s.len(),
{
    if s.len() == 0 {
        assert(stable_sort_by(s, fleq) =~= stable_sort_by(s, leq).reverse());
    } else {
        let dl = s.drop_last();
        let x = s.last();
        assert(no_ties(dl, leq)) by {
            assert forall|i: int, j: int|
                0 <= i < dl.len() && 0 <= j < dl.len() && i != j implies !(leq(
                #[trigger] dl[i],
                #[trigger] dl[j],
            ) && leq(dl[j], dl[i])) by {
                assert(dl[i] == s[i] && dl[j] == s[j]);
            }
        }
        lemma_stable_sort_flip_reverse(dl, leq, fleq);
        let t = stable_sort_by(dl, leq);
        lemma_stable_sort_sorted(dl, leq);
        assert forall|k: int| 0 <= k < t.len() implies !(leq(#[trigger] t[k], x) && leq(
            x,
            t[k],
        )) by {
            assert(t.contains(t[k]));
            lemma_stable_sort_contains(dl, leq, t[k]);
            assert(dl.contains(t[k]));
            let w = choose|w: int| 0 <= w < dl.len() && dl[w] == t[k];
            assert(dl[w] == s[w]);
            assert(!(leq(s[w], s[s.len() - 1]) && leq(s[s.len() - 1], s[w])));
        }
        lemma_insert_flip(t, x, leq, fleq);
    }
}

// ---------------------------------------------------------------------------
// The comparator of the query engine
// ---------------------------------------------------------------------------

/// Record order for a field path: by the records' sort keys, flipped when
/// descending.
pub open spec fn item_leq(by: Seq<char>, desc: bool) -> spec_fn(ContentItem, ContentItem) -> bool {
    if desc {
        |a: ContentItem, b: ContentItem| lex_leq(sort_key_spec(b, by), sort_key_spec(a, by))
    } else {
        |a: ContentItem, b: ContentItem| lex_leq(sort_key_spec(a, by), sort_key_spec(b, by))
    }
}

pub proof fn lemma_item_leq_preorder(by: Seq<char>, desc: bool)
    ensures
        total_preorder(item_leq(by, desc)),
{
    let leq = item_leq(by, desc);
    assert forall|a: ContentItem, b: ContentItem| #[trigger] leq(a, b) || #[trigger] leq(
        b,
        a,
    ) by {
        lemma_lex_total(sort_key_spec(a, by), sort_key_spec(b, by));
    }
    assert forall|a: ContentItem, b: ContentItem, c: ContentItem|
        #[trigger] leq(a, b) && #[trigger] leq(b, c) implies leq(a, c) by {
        if desc {
            lemma_lex_trans(sort_key_spec(c, by), sort_key_spec(b, by), sort_key_spec(a, by));
        } else {
            lemma_lex_trans(sort_key_spec(a, by), sort_key_spec(b, by), sort_key_spec(c, by));
        }
    }
}

/// Law: sorting ascending and sorting descending by a key under which no
/// two records tie produce exactly reversed orderings.
pub proof fn lemma_sort_order_reversal(items: Seq<ContentItem>, by: Seq<char>)
    requires
        forall|i: int, j: int|
            0 <= i < items.len() && 0 <= j < items.len() && i != j ==> sort_key_spec(
                #[trigger] items[i],
                by,
            ) != sort_key_spec(#[trigger] items[j], by),
    ensures
        stable_sort_by(items, item_leq(by, true)) == stable_sort_by(
            items,
            item_leq(by, false),
        ).reverse(),
{
    let asc = item_leq(by, false);
    let desc = item_leq(by, true);
    lemma_item_leq_preorder(by, false);
    assert forall|a: ContentItem, b: ContentItem| #[trigger] desc(a, b) == asc(b, a) by {}
    assert(no_ties(items, asc)) by {
        assert forall|i: int, j: int|
            0 <= i < items.len() && 0 <= j < items.len() && i != j implies !(asc(
            #[trigger] items[i],
            #[trigger] items[j],
        ) && asc(items[j], items[i])) by {
            if asc(items[i], items[j]) && asc(items[j], items[i]) {
                lemma_lex_antisym(sort_key_spec(items[i], by), sort_key_spec(items[j], by));
            }
        }
    }
    lemma_stable_sort_flip_reverse(items, asc, desc);
}

// ---------------------------------------------------------------------------
// Executable sorting
// ---------------------------------------------------------------------------

fn item_leq_exec(a: &ContentItem, b: &ContentItem, by: &str, desc: bool) -> (r: bool)
    ensures
        r == item_leq(by@, desc)(*a, *b),
{
    let ka = get_sort_key(a, by);
    let kb = get_sort_key(b, by);
    if desc {
        str_lex_leq(kb.as_str(), ka.as_str())
    } else {
        str_lex_leq(ka.as_str(), kb.as_str())
    }
}

/// Sorts records by the field path `by` ("meta."-prefixed paths compare the
/// records' metadata values, a missing key comparing as the empty string),
/// descending when `order` is "desc", ascending otherwise.  The sort is
/// stable: records with equal keys keep their original relative order.
pub fn sort_content_items(items: &mut Vec<ContentItem>, by: String, order: String)
    ensures
        final(items)@ == stable_sort_by(old(items)@, item_leq(by@, order@ == "desc"@)),
{
    let desc = str_eq(order.as_str(), "desc");
    let ghost leq = item_leq(by@, desc);
    let ghost orig = items@;
    let mut out: Vec<ContentItem> = Vec::new();
    while items.len() > 0
        invariant
            leq == item_leq(by@, desc),
            out@.len() + items@.len() == orig.len(),
            items@ == orig.subrange(orig.len() - items@.len(), orig.len() as int),
            out@ == stable_sort_by(orig.subrange(0, orig.len() - items@.len()), leq),
        decreases items@.len(),
    {
        let ghost i = orig.len() - items@.len();
        let x = items.remove(0);
        proof {
            assert(x == orig[i]);
            assert(items@ =~= orig.subrange(orig.len() - items@.len(), orig.len() as int));
        }
        let ghost before = out@;
        let mut p = out.len();
        proof {
            assert(before.subrange(0, p as int) =~= before);
            assert(before.subrange(p as int, p as int) =~= Seq::<ContentItem>::empty());
            assert(sorted_insert(before, x, leq) =~= sorted_insert(
                before.subrange(0, p as int),
                x,
                leq,
            ) + before.subrange(p as int, before.len() as int));
        }
        loop
            invariant
                p <= out.len(),
                out@ == before,
                leq == item_leq(by@, desc),
                sorted_insert(before, x, leq) == sorted_insert(
                    before.subrange(0, p as int),
                    x,
                    leq,
                ) + before.subrange(p as int, before.len() as int),
            ensures
                p <= out.len(),
                out@ == before,
                sorted_insert(before, x, leq) == before.subrange(0, p as int).push(x)
                    + before.subrange(p as int, before.len() as int),
            decreases p,
        {
            if p == 0 {
                proof {
                    assert(before.subrange(0, 0).len() == 0);
                    assert(sorted_insert(before.subrange(0, 0), x, leq) =~= before.subrange(
                        0,
                        0,
                    ).push(x));
                }
                break;
            }
            if item_leq_exec(&out[p - 1], &x, by.as_str(), desc) {
                proof {
                    let pre = before.subrange(0, p as int);
                    assert(pre.last() == before[p - 1]);
                    assert(sorted_insert(pre, x, leq) =~= pre.push(x));
                }
                break;
            }
            proof {
                let pre = before.subrange(0, p as int);
                assert(pre.last() == before[p - 1]);
                assert(!leq(pre.last(), x));
                assert(pre.drop_last() =~= before.subrange(0, p - 1));
                assert(sorted_insert(pre, x, leq) == sorted_insert(
                    before.subrange(0, p - 1),
                    x,
                    leq,
                ).push(before[p - 1]));
                assert(sorted_insert(before.subrange(0, p - 1), x, leq).push(before[p - 1])
                    + before.subrange(p as int, before.len() as int) =~= sorted_insert(
                    before.subrange(0, p - 1),
                    x,
                    leq,
                ) + before.subrange(p - 1, before.len() as int));
            }
            p = p - 1;
        }
        out.insert(p, x);
        proof {
            assert(out@ =~= before.subrange(0, p as int).push(x) + before.subrange(
                p as int,
                before.len() as int,
            ));
            assert(out@ == sorted_insert(before, x, leq));
            let done = orig.subrange(0, i + 1);
            assert(done.drop_last() =~= orig.subrange(0, i));
            assert(done.last() == orig[i]);
            assert(out@ == stable_sort_by(done, leq));
            assert(orig.len() - items@.len() == i + 1);
        }
    }
    *items = out;
    proof {
        assert(orig.subrange(0, orig.len() as int) =~= orig);
    }
}

/// Group-key order: plain lexicographic order on the strings themselves.
pub open spec fn str_leq() -> spec_fn(String, String) -> bool {
    |a: String, b: String| lex_leq(a@, b@)
}

/// Sorts strings lexicographically ascending.
pub fn sort_strings(keys: &mut Vec<String>)
    ensures
        final(keys)@ == stable_sort_by(old(keys)@, str_leq()),
{
    let ghost leq = str_leq();
    let ghost orig = keys@;
    let mut out: Vec<String> = Vec::new();
    while keys.len() > 0
        invariant
            leq == str_leq(),
            out@.len() + keys@.len() == orig.len(),
            keys@ == orig.subrange(orig.len() - keys@.len(), orig.len() as int),
            out@ == stable_sort_by(orig.subrange(0, orig.len() - keys@.len()), leq),
        decreases keys@.len(),
    {
        let ghost i = orig.len() - keys@.len();
        let x = keys.remove(0);
        proof {
            assert(x == orig[i]);
            assert(keys@ =~= orig.subrange(orig.len() - keys@.len(), orig.len() as int));
        }
        let ghost before = out@;
        let mut p = out.len();
        proof {
            assert(before.subrange(0, p as int) =~= before);
            assert(sorted_insert(before, x, leq) =~= sorted_insert(
                before.subrange(0, p as int),
                x,
                leq,
            ) + before.subrange(p as int, before.len() as int));
        }
        loop
            invariant
                p <= out.len(),
                out@ == before,
                leq == str_leq(),
                sorted_insert(before, x, leq) == sorted_insert(
                    before.subrange(0, p as int),
                    x,
                    leq,
                ) + before.subrange(p as int, before.len() as int),
            ensures
                p <= out.len(),
                out@ == before,
                sorted_insert(before, x, leq) == before.subrange(0, p as int).push(x)
                    + before.subrange(p as int, before.len() as int),
            decreases p,
        {
            if p == 0 {
                proof {
                    assert(sorted_insert(before.subrange(0, 0), x, leq) =~= before.subrange(
                        0,
                        0,
                    ).push(x));
                }
                break;
            }
            if str_lex_leq(out[p - 1].as_str(), x.as_str()) {
                proof {
                    let pre = before.subrange(0, p as int);
                    assert(pre.last() == before[p - 1]);
                    assert(sorted_insert(pre, x, leq) =~= pre.push(x));
                }
                break;
            }
            proof {
                let pre = before.subrange(0, p as int);
                assert(pre.last() == before[p - 1]);
                assert(!leq(pre.last(), x));
                assert(pre.drop_last() =~= before.subrange(0, p - 1));
                assert(sorted_insert(pre, x, leq) == sorted_insert(
                    before.subrange(0, p - 1),
                    x,
                    leq,
                ).push(before[p - 1]));
                assert(sorted_insert(before.subrange(0, p - 1), x, leq).push(before[p - 1])
                    + before.subrange(p as int, before.len() as int) =~= sorted_insert(
                    before.subrange(0, p - 1),
                    x,
                    leq,
                ) + before.subrange(p - 1, before.len() as int));
            }
            p = p - 1;
        }
        out.insert(p, x);
        proof {
            assert(out@ =~= before.subrange(0, p as int).push(x) + before.subrange(
                p as int,
                before.len() as int,
            ));
            assert(out@ == sorted_insert(before, x, leq));
            let done = orig.subrange(0, i + 1);
            assert(done.drop_last() =~= orig.subrange(0, i));
            assert(done.last() == orig[i]);
            assert(out@ == stable_sort_by(done, leq));
        }
    }
    *keys = out;
    proof {
        assert(orig.subrange(0, orig.len() as int) =~= orig);
    }
}

} // verus!
