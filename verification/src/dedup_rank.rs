//! Deduplication and recency ranking of aggregated news items.
//!
//! Items are duplicates when their normalized URLs and normalized titles
//! agree. Of each group of duplicates the item with the smallest source URL
//! is kept (the first such item when several share it), so a rerun on the
//! same input gives the same result. The kept items are listed by
//! (URL, source); ranking then lists items with a parseable RFC 3339 timestamp newest
//! first by the instant it denotes, and the others after them, alphabetically
//! by title.

use vstd::prelude::*;

use crate::item::NewsItem;
use crate::order::{
    before, hits, instant_lt, rfc3339_instant, lemma_stable_sort_of_sorted, stamp_instant, lemma_stable_sort_unique, sorted_by,
    stable_rearrangement, stable_sort, stable_sort_of, SortOrder,
};
use crate::text::{
    canonical_title, canonical_url, lemma_seq_lt_asymmetric, lemma_seq_lt_total,
    count_char, is_whitespace_char, law_trailing_slash_dropped, lemma_seq_lt_transitive, seq_lt,
    str_lt, title_key, url_key,
};

verus! {

/// `a` and `b` report the same article: same normalized URL and title.
pub open spec fn same_key(a: NewsItem, b: NewsItem) -> bool {
    url_key(a.url@) == url_key(b.url@) && title_key(a.title@) == title_key(b.title@)
}

/// Among the first `len` items, `items[j]` is the one kept of its group:
/// every earlier duplicate has a larger source URL and no later duplicate a
/// smaller one.
pub open spec fn kept_among(items: Seq<NewsItem>, len: int, j: int) -> bool {
    &&& 0 <= j < len <= items.len()
    &&& forall|m: int|
        0 <= m < len && m != j && same_key(#[trigger] items[m], items[j]) ==> (m < j ==> seq_lt(
            items[j].source@,
            items[m].source@,
        )) && (j < m ==> !seq_lt(items[m].source@, items[j].source@))
}

/// `items[j]` is the item of its group that deduplication keeps.
pub open spec fn is_kept(items: Seq<NewsItem>, j: int) -> bool {
    kept_among(items, items.len() as int, j)
}

/// `x` is one of the items that deduplication of `items` keeps.
pub open spec fn is_kept_item(items: Seq<NewsItem>, x: NewsItem) -> bool {
    exists|j: int| #[trigger] is_kept(items, j) && items[j] == x
}

/// Some item of `out` has the same key as `x`.
pub open spec fn has_key_of(out: Seq<NewsItem>, x: NewsItem) -> bool {
    exists|k: int| 0 <= k < out.len() && same_key(#[trigger] out[k], x)
}

/// No earlier item has the same key as `items[m]`.
pub open spec fn first_of_key(items: Seq<NewsItem>, m: int) -> bool {
    forall|i: int| 0 <= i < m ==> !same_key(#[trigger] items[i], items[m])
}

/// The positions among the first `len` items where a key occurs for the
/// first time, in order.
pub open spec fn first_positions(items: Seq<NewsItem>, len: int) -> Seq<int>
    decreases len,
{
    if len <= 0 {
        Seq::empty()
    } else if first_of_key(items, len - 1) {
        first_positions(items, len - 1).push(len - 1)
    } else {
        first_positions(items, len - 1)
    }
}

/// The kept item of the group `items[m]` belongs to.
pub open spec fn kept_of(items: Seq<NewsItem>, m: int) -> NewsItem {
    items[choose|j: int| is_kept(items, j) && same_key(items[j], items[m])]
}

/// One kept item per key, in the order in which the keys first occur.
pub open spec fn kept_in_first_order(items: Seq<NewsItem>) -> Seq<NewsItem> {
    first_positions(items, items.len() as int).map_values(|m: int| kept_of(items, m))
}

/// `out` is the kept items of `items`, one per key in the order the keys
/// first occur, stably sorted by (URL, source). Hence `out` holds each kept
/// item once and nothing else, no two of its items share a key, and every
/// input item has its duplicate in `out`.
pub open spec fn dedup_of(items: Seq<NewsItem>, out: Seq<NewsItem>) -> bool {
    &&& stable_sort_of(SortOrder::UrlThenSource, kept_in_first_order(items), out)
    &&& forall|m: int| 0 <= m < items.len() ==> #[trigger] has_key_of(out, items[m])
    &&& forall|k: int| 0 <= k < out.len() ==> is_kept_item(items, #[trigger] out[k])
    &&& forall|j: int| #[trigger] is_kept(items, j) ==> out.contains(items[j])
    &&& forall|k: int, l: int| 0 <= k < l < out.len() ==> !same_key(#[trigger] out[k], #[trigger] out[l])
    &&& sorted_by(SortOrder::UrlThenSource, out)
}

/// The normalized URL used as half of the dedup key.
fn normalize_url(u: &str) -> (r: String)
    ensures
        r@ == url_key(u@),
{
    canonical_url(u)
}

/// The normalized title used as the other half of the dedup key.
fn normalize_title(t: &str) -> (r: String)
    ensures
        r@ == title_key(t@),
{
    canonical_title(t)
}

/// Two kept items with the same key are the same item.
proof fn lemma_kept_unique(items: Seq<NewsItem>, len: int, j1: int, j2: int)
    requires
        kept_among(items, len, j1),
        kept_among(items, len, j2),
        same_key(items[j1], items[j2]),
    ensures
        j1 == j2,
{
    if j1 < j2 {
        assert(same_key(items[j1], items[j2]));
        lemma_seq_lt_asymmetric(items[j2].source@, items[j1].source@);
    } else if j2 < j1 {
        assert(same_key(items[j2], items[j1]));
        lemma_seq_lt_asymmetric(items[j1].source@, items[j2].source@);
    }
}

/// Groups appear in `out` in the order their keys first occur.
spec fn first_order_inv(orig: Seq<NewsItem>, i: int, out: Seq<NewsItem>) -> bool {
    let f = first_positions(orig, i);
    &&& out.len() == f.len()
    &&& forall|k: int| 0 <= k < out.len() ==> same_key(#[trigger] out[k], orig[f[k]])
}

proof fn lemma_first_positions_bounds(orig: Seq<NewsItem>, i: int)
    requires
        0 <= i <= orig.len(),
    ensures
        forall|k: int| 0 <= k < first_positions(orig, i).len() ==> 0 <= #[trigger] first_positions(orig, i)[k] < i
            && first_of_key(orig, first_positions(orig, i)[k]),
    decreases i,
{
    if i > 0 {
        lemma_first_positions_bounds(orig, i - 1);
        let f = first_positions(orig, i - 1);
        assert forall|k: int| 0 <= k < first_positions(orig, i).len() implies 0
            <= #[trigger] first_positions(orig, i)[k] < i && first_of_key(orig, first_positions(orig, i)[k]) by {
            if k < f.len() {
                assert(first_positions(orig, i)[k] == f[k]);
            }
        }
    }
}

proof fn lemma_first_order_new(orig: Seq<NewsItem>, i: int, out: Seq<NewsItem>)
    requires
        first_order_inv(orig, i, out),
        0 <= i < orig.len(),
        first_of_key(orig, i),
    ensures
        first_order_inv(orig, i + 1, out.push(orig[i])),
{
    let f = first_positions(orig, i);
    let o2 = out.push(orig[i]);
    assert(first_positions(orig, i + 1) == f.push(i));
    assert forall|k: int| 0 <= k < o2.len() implies same_key(#[trigger] o2[k], orig[f.push(i)[k]]) by {
        if k < out.len() {
            assert(same_key(out[k], orig[f[k]]));
        }
    }
}

proof fn lemma_first_order_same(orig: Seq<NewsItem>, i: int, out: Seq<NewsItem>, out2: Seq<NewsItem>, k: int)
    requires
        first_order_inv(orig, i, out),
        0 <= i < orig.len(),
        0 <= k < out.len(),
        same_key(out[k], orig[i]),
        exists|j: int| 0 <= j < i && orig[j] == out[k],
        out2.len() == out.len(),
        forall|kk: int| 0 <= kk < out.len() && kk != k ==> #[trigger] out2[kk] == out[kk],
        same_key(out2[k], orig[i]),
    ensures
        first_order_inv(orig, i + 1, out2),
{
    let j = choose|j: int| 0 <= j < i && orig[j] == out[k];
    assert(!first_of_key(orig, i)) by {
        assert(same_key(orig[j], orig[i]));
    }
    assert(first_positions(orig, i + 1) == first_positions(orig, i));
    let f = first_positions(orig, i);
    assert forall|kk: int| 0 <= kk < out2.len() implies same_key(#[trigger] out2[kk], orig[f[kk]]) by {
        assert(same_key(out[kk], orig[f[kk]]));
    }
}

/// After the whole input, the loop's contents are the kept items in the
/// order their keys first occur.
proof fn lemma_first_order_done(
    orig: Seq<NewsItem>,
    out: Seq<NewsItem>,
    keys: Seq<(String, String)>,
    w: Seq<int>,
)
    requires
        dedup_inv(orig, orig.len() as int, out, keys, w),
        first_order_inv(orig, orig.len() as int, out),
    ensures
        out == kept_in_first_order(orig),
{
    let n = orig.len() as int;
    let f = first_positions(orig, n);
    lemma_first_positions_bounds(orig, n);
    let target = kept_in_first_order(orig);
    assert forall|k: int| 0 <= k < out.len() implies #[trigger] out[k] == target[k] by {
        assert(same_key(out[k], orig[f[k]]));
        assert(kept_among(orig, n, w[k]));
        assert(out[k] == orig[w[k]]);
        assert(is_kept(orig, w[k]) && same_key(orig[w[k]], orig[f[k]]));
        let j = choose|j: int| is_kept(orig, j) && same_key(orig[j], orig[f[k]]);
        lemma_kept_unique(orig, n, j, w[k]);
    }
    assert(out =~= target);
}

/// What the dedup loop keeps after reading the first `i` items.
spec fn dedup_inv(
    orig: Seq<NewsItem>,
    i: int,
    out: Seq<NewsItem>,
    keys: Seq<(String, String)>,
    w: Seq<int>,
) -> bool {
    &&& 0 <= i <= orig.len()
    &&& out.len() == keys.len() == w.len()
    &&& forall|k: int|
        0 <= k < out.len() ==> (#[trigger] keys[k]).0@ == url_key(out[k].url@) && keys[k].1@
            == title_key(out[k].title@)
    &&& forall|k: int| 0 <= k < out.len() ==> #[trigger] out[k] == orig[w[k]]
    &&& forall|k: int| 0 <= k < out.len() ==> kept_among(orig, i, #[trigger] w[k])
    &&& forall|k: int, l: int| 0 <= k < l < out.len() ==> !same_key(#[trigger] out[k], #[trigger] out[l])
    &&& forall|m: int| 0 <= m < i ==> #[trigger] has_key_of(out, orig[m])
}

proof fn lemma_dedup_new_key(
    orig: Seq<NewsItem>,
    i: int,
    out: Seq<NewsItem>,
    keys: Seq<(String, String)>,
    w: Seq<int>,
    uk: String,
    tk: String,
)
    requires
        dedup_inv(orig, i, out, keys, w),
        i < orig.len(),
        uk@ == url_key(orig[i].url@),
        tk@ == title_key(orig[i].title@),
        forall|k: int| 0 <= k < keys.len() ==> !((#[trigger] keys[k]).0@ == uk@ && keys[k].1@ == tk@),
    ensures
        dedup_inv(orig, i + 1, out.push(orig[i]), keys.push((uk, tk)), w.push(i)),
        first_of_key(orig, i),
{
    let x = orig[i];
    let out2 = out.push(x);
    let w2 = w.push(i);
    assert forall|m: int| 0 <= m < i implies !same_key(orig[m], x) by {
        assert(has_key_of(out, orig[m]));
        let k = choose|k: int| 0 <= k < out.len() && same_key(#[trigger] out[k], orig[m]);
        assert(keys[k].0@ == url_key(out[k].url@));
    }
    assert forall|k: int| 0 <= k < out2.len() implies kept_among(orig, i + 1, #[trigger] w2[k]) by {
        if k < out.len() {
            assert(kept_among(orig, i, w[k]));
            assert(w2[k] == w[k]);
            assert(out[k] == orig[w[k]]);
            assert(!same_key(orig[w[k]], x));
        }
    }
    assert forall|k: int, l: int| 0 <= k < l < out2.len() implies !same_key(
        #[trigger] out2[k],
        #[trigger] out2[l],
    ) by {
        if l == out.len() {
            assert(out[k] == orig[w[k]]);
            assert(kept_among(orig, i, w[k]));
        }
    }
    assert forall|m: int| 0 <= m < i + 1 implies #[trigger] has_key_of(out2, orig[m]) by {
        if m < i {
            assert(has_key_of(out, orig[m]));
            let k = choose|k: int| 0 <= k < out.len() && same_key(#[trigger] out[k], orig[m]);
            assert(same_key(out2[k], orig[m]));
        } else {
            assert(same_key(out2[out.len() as int], orig[m]));
        }
    }
}

proof fn lemma_dedup_replace(
    orig: Seq<NewsItem>,
    i: int,
    out: Seq<NewsItem>,
    keys: Seq<(String, String)>,
    w: Seq<int>,
    k: int,
)
    requires
        dedup_inv(orig, i, out, keys, w),
        i < orig.len(),
        0 <= k < keys.len(),
        keys[k].0@ == url_key(orig[i].url@),
        keys[k].1@ == title_key(orig[i].title@),
        seq_lt(orig[i].source@, out[k].source@),
    ensures
        dedup_inv(orig, i + 1, out.update(k, orig[i]), keys, w.update(k, i)),
{
    let x = orig[i];
    let out2 = out.update(k, x);
    let w2 = w.update(k, i);
    assert(out[k] == orig[w[k]]);
    assert(kept_among(orig, i, w[k]));
    assert forall|m: int| 0 <= m < i + 1 && m != i && same_key(#[trigger] orig[m], orig[i]) implies seq_lt(
        orig[i].source@,
        orig[m].source@,
    ) by {
        if m != w[k] {
            assert(same_key(orig[m], orig[w[k]]));
            lemma_seq_lt_total(orig[m].source@, orig[w[k]].source@);
            if seq_lt(orig[w[k]].source@, orig[m].source@) {
                lemma_seq_lt_transitive(orig[i].source@, orig[w[k]].source@, orig[m].source@);
            }
        }
    }
    assert forall|kk: int| 0 <= kk < out2.len() implies kept_among(orig, i + 1, #[trigger] w2[kk]) by {
        if kk != k {
            assert(kept_among(orig, i, w[kk]));
            assert(out[kk] == orig[w[kk]]);
            assert(!same_key(out[k], out[kk]) && !same_key(out[kk], out[k])) by {
                if kk < k {
                    assert(!same_key(out[kk], out[k]));
                } else {
                    assert(!same_key(out[k], out[kk]));
                }
            }
        }
    }
    assert forall|a: int, b: int| 0 <= a < b < out2.len() implies !same_key(
        #[trigger] out2[a],
        #[trigger] out2[b],
    ) by {
        assert(!same_key(out[a], out[b]));
    }
    assert forall|m: int| 0 <= m < i + 1 implies #[trigger] has_key_of(out2, orig[m]) by {
        if m < i {
            assert(has_key_of(out, orig[m]));
            let kk = choose|kk: int| 0 <= kk < out.len() && same_key(#[trigger] out[kk], orig[m]);
            assert(same_key(out2[kk], orig[m]));
        } else {
            assert(same_key(out2[k], orig[m]));
        }
    }
}

proof fn lemma_dedup_keep(
    orig: Seq<NewsItem>,
    i: int,
    out: Seq<NewsItem>,
    keys: Seq<(String, String)>,
    w: Seq<int>,
    k: int,
)
    requires
        dedup_inv(orig, i, out, keys, w),
        i < orig.len(),
        0 <= k < keys.len(),
        keys[k].0@ == url_key(orig[i].url@),
        keys[k].1@ == title_key(orig[i].title@),
        !seq_lt(orig[i].source@, out[k].source@),
    ensures
        dedup_inv(orig, i + 1, out, keys, w),
{
    assert(out[k] == orig[w[k]]);
    assert forall|kk: int| 0 <= kk < out.len() implies kept_among(orig, i + 1, #[trigger] w[kk]) by {
        assert(kept_among(orig, i, w[kk]));
        assert(out[kk] == orig[w[kk]]);
        if kk != k {
            if kk < k {
                assert(!same_key(out[kk], out[k]));
            } else {
                assert(!same_key(out[k], out[kk]));
            }
        }
    }
    assert forall|m: int| 0 <= m < i + 1 implies #[trigger] has_key_of(out, orig[m]) by {
        if m == i {
            assert(same_key(out[k], orig[m]));
        }
    }
}

/// After the whole input has been read, the loop's contents satisfy the
/// dedup contract up to order.
proof fn lemma_dedup_done(
    orig: Seq<NewsItem>,
    out: Seq<NewsItem>,
    keys: Seq<(String, String)>,
    w: Seq<int>,
)
    requires
        dedup_inv(orig, orig.len() as int, out, keys, w),
    ensures
        forall|k: int| 0 <= k < out.len() ==> is_kept_item(orig, #[trigger] out[k]),
        forall|j: int| #[trigger] is_kept(orig, j) ==> out.contains(orig[j]),
        forall|k: int, l: int| 0 <= k < l < out.len() ==> !same_key(#[trigger] out[k], #[trigger] out[l]),
        forall|m: int| 0 <= m < orig.len() ==> #[trigger] has_key_of(out, orig[m]),
{
    let n = orig.len() as int;
    assert forall|k: int| 0 <= k < out.len() implies is_kept_item(orig, #[trigger] out[k]) by {
        assert(kept_among(orig, n, w[k]));
        assert(is_kept(orig, w[k]));
    }
    assert forall|j: int| #[trigger] is_kept(orig, j) implies out.contains(orig[j]) by {
        assert(has_key_of(out, orig[j]));
        let k = choose|k: int| 0 <= k < out.len() && same_key(#[trigger] out[k], orig[j]);
        assert(kept_among(orig, n, w[k]));
        assert(out[k] == orig[w[k]]);
        lemma_kept_unique(orig, n, w[k], j);
    }
}

/// A rearrangement keeps the unordered part of the dedup contract.
proof fn lemma_dedup_rearranged(
    orig: Seq<NewsItem>,
    out: Seq<NewsItem>,
    sorted: Seq<NewsItem>,
    p: Seq<int>,
)
    requires
        forall|k: int| 0 <= k < out.len() ==> is_kept_item(orig, #[trigger] out[k]),
        forall|j: int| #[trigger] is_kept(orig, j) ==> out.contains(orig[j]),
        forall|k: int, l: int| 0 <= k < l < out.len() ==> !same_key(#[trigger] out[k], #[trigger] out[l]),
        forall|m: int| 0 <= m < orig.len() ==> #[trigger] has_key_of(out, orig[m]),
        stable_rearrangement(SortOrder::UrlThenSource, out, sorted, p),
        out == kept_in_first_order(orig),
    ensures
        dedup_of(orig, sorted),
{
    assert(stable_sort_of(SortOrder::UrlThenSource, kept_in_first_order(orig), sorted));
    let n = out.len();
    assert forall|m: int| 0 <= m < orig.len() implies #[trigger] has_key_of(sorted, orig[m]) by {
        assert(has_key_of(out, orig[m]));
        let q = choose|q: int| 0 <= q < out.len() && same_key(#[trigger] out[q], orig[m]);
        assert(hits(p, n, q));
        let k = choose|k: int| 0 <= k < n && #[trigger] p[k] == q;
        assert(sorted[k] == out[q]);
        assert(same_key(sorted[k], orig[m]));
    }
    assert forall|k: int| 0 <= k < sorted.len() implies is_kept_item(orig, #[trigger] sorted[k]) by {
        assert(sorted[k] == out[p[k]]);
        assert(0 <= p[k] < n);
        assert(is_kept_item(orig, out[p[k]]));
    }
    assert forall|j: int| #[trigger] is_kept(orig, j) implies sorted.contains(orig[j]) by {
        assert(out.contains(orig[j]));
        let m = choose|m: int| 0 <= m < out.len() && out[m] == orig[j];
        assert(hits(p, n, m));
        let k = choose|k: int| 0 <= k < n && #[trigger] p[k] == m;
        assert(sorted[k] == out[m]);
    }
    assert forall|k: int, l: int| 0 <= k < l < sorted.len() implies !same_key(
        #[trigger] sorted[k],
        #[trigger] sorted[l],
    ) by {
        assert(sorted[k] == out[p[k]]);
        assert(sorted[l] == out[p[l]]);
        assert(p[k] != p[l]);
        assert(0 <= p[k] < n && 0 <= p[l] < n);
        if p[k] < p[l] {
            assert(!same_key(out[p[k]], out[p[l]]));
        } else {
            assert(!same_key(out[p[l]], out[p[k]]));
        }
    }
}

/// Deduplicate by (normalized URL, normalized title). Of each group of
/// duplicates the item with the smallest source URL is kept (the earliest
/// one when several share it); the result is listed by (URL, source).
pub fn dedup(items: Vec<NewsItem>) -> (out: Vec<NewsItem>)
    ensures
        dedup_of(items@, out@),
{
    let ghost orig = items@;
    let n = items.len();
    let mut out: Vec<NewsItem> = Vec::new();
    let mut keys: Vec<(String, String)> = Vec::new();
    let ghost mut w: Seq<int> = Seq::empty();
    for item in it: items
        invariant
            n == orig.len(),
            it.seq() == orig,
            dedup_inv(orig, it.index() as int, out@, keys@, w),
            first_order_inv(orig, it.index() as int, out@),
    {
        let ghost i = it.index() as int;
        assert(item == orig[i]);
        let uk = normalize_url(item.url.as_str());
        let tk = normalize_title(item.title.as_str());
        let mut k: usize = 0;
        while k < keys.len() && !(keys[k].0 == uk && keys[k].1 == tk)
            invariant
                k <= keys@.len(),
                forall|kk: int| 0 <= kk < k ==> !((#[trigger] keys@[kk]).0@ == uk@ && keys@[kk].1@ == tk@),
            decreases keys@.len() - k,
        {
            k = k + 1;
        }
        if k == keys.len() {
            proof {
                lemma_dedup_new_key(orig, i, out@, keys@, w, uk, tk);
                lemma_first_order_new(orig, i, out@);
                w = w.push(i);
            }
            keys.push((uk, tk));
            out.push(item);
        } else if str_lt(item.source.as_str(), out[k].source.as_str()) {
            proof {
                lemma_dedup_replace(orig, i, out@, keys@, w, k as int);
                assert(out@[k as int] == orig[w[k as int]] && kept_among(orig, i, w[k as int]));
                assert(same_key(out@[k as int], orig[i]));
                lemma_first_order_same(orig, i, out@, out@.update(k as int, item), k as int);
                w = w.update(k as int, i);
            }
            out.set(k, item);
        } else {
            proof {
                lemma_dedup_keep(orig, i, out@, keys@, w, k as int);
                assert(out@[k as int] == orig[w[k as int]] && kept_among(orig, i, w[k as int]));
                assert(same_key(out@[k as int], orig[i]));
                lemma_first_order_same(orig, i, out@, out@, k as int);
            }
        }
    }
    proof {
        lemma_dedup_done(orig, out@, keys@, w);
        lemma_first_order_done(orig, out@, keys@, w);
    }
    let ghost unsorted = out@;
    stable_sort(&mut out, SortOrder::UrlThenSource);
    proof {
        let p = choose|p: Seq<int>| stable_rearrangement(SortOrder::UrlThenSource, unsorted, out@, p);
        lemma_dedup_rearranged(orig, unsorted, out@, p);
    }
    out
}

/// Rank newest first: items whose `published_iso` is a parseable RFC 3339
/// date-time in descending order of the instant it denotes, then the items
/// without one in ascending title order; items that compare equal keep their
/// input order.
pub fn rank_by_recency(items: Vec<NewsItem>) -> (out: Vec<NewsItem>)
    ensures
        stable_sort_of(SortOrder::Recency, items@, out@),
{
    let mut out = items;
    stable_sort(&mut out, SortOrder::Recency);
    out
}

/// `dedup` followed by `rank_by_recency`.
pub fn dedup_and_rank(items: Vec<NewsItem>) -> (out: Vec<NewsItem>)
    ensures
        exists|mid: Seq<NewsItem>| dedup_of(items@, mid) && stable_sort_of(
            SortOrder::Recency,
            mid,
            out@,
        ),
{
    let mid = dedup(items);
    let ghost m = mid@;
    let out = rank_by_recency(mid);
    assert(dedup_of(items@, m) && stable_sort_of(SortOrder::Recency, m, out@));
    out
}


/// Ranking is deterministic: the ranked list is determined by the input.
pub proof fn law_rank_deterministic(items: Seq<NewsItem>, a: Seq<NewsItem>, b: Seq<NewsItem>)
    requires
        stable_sort_of(SortOrder::Recency, items, a),
        stable_sort_of(SortOrder::Recency, items, b),
    ensures
        a == b,
{
    lemma_stable_sort_unique(SortOrder::Recency, items, a, b);
}

/// Ranking is idempotent: ranking a ranked list gives the same list.
pub proof fn law_rank_idempotent(items: Seq<NewsItem>, once: Seq<NewsItem>, twice: Seq<NewsItem>)
    requires
        stable_sort_of(SortOrder::Recency, items, once),
        stable_sort_of(SortOrder::Recency, once, twice),
    ensures
        twice == once,
{
    let p = choose|p: Seq<int>| stable_rearrangement(SortOrder::Recency, items, once, p);
    assert(sorted_by(SortOrder::Recency, once));
    lemma_stable_sort_of_sorted(SortOrder::Recency, once, twice);
}

/// In a ranked list every item with a parseable timestamp comes before every
/// item without one, dated items are newest first by the instant their
/// timestamp denotes, and undated items are in title order.
pub proof fn law_ranked_newest_first(items: Seq<NewsItem>, ranked: Seq<NewsItem>, k: int, l: int)
    requires
        stable_sort_of(SortOrder::Recency, items, ranked),
        0 <= k < l < ranked.len(),
    ensures
        stamp_instant(ranked[l].published_iso) is Some ==> stamp_instant(ranked[k].published_iso) is Some,
        stamp_instant(ranked[k].published_iso) is Some && stamp_instant(ranked[l].published_iso) is Some
            ==> !instant_lt(
            stamp_instant(ranked[k].published_iso)->0,
            stamp_instant(ranked[l].published_iso)->0,
        ),
        stamp_instant(ranked[k].published_iso) is None ==> !seq_lt(ranked[l].title@, ranked[k].title@),
{
    let p = choose|p: Seq<int>| stable_rearrangement(SortOrder::Recency, items, ranked, p);
    assert(!before(SortOrder::Recency, ranked[l], ranked[k]));
}

/// Ranking reorders and drops nothing: the ranked list holds the input items,
/// each as often as in the input.
pub proof fn law_rank_is_permutation(items: Seq<NewsItem>, ranked: Seq<NewsItem>, j: int)
    requires
        stable_sort_of(SortOrder::Recency, items, ranked),
        0 <= j < items.len(),
    ensures
        ranked.len() == items.len(),
        ranked.contains(items[j]),
{
    let p = choose|p: Seq<int>| stable_rearrangement(SortOrder::Recency, items, ranked, p);
    assert(hits(p, items.len(), j));
    let k = choose|k: int| 0 <= k < items.len() && #[trigger] p[k] == j;
    assert(ranked[k] == items[j]);
}

/// Among duplicates, the item kept has the smallest source URL.
pub proof fn law_dedup_keeps_smallest_source(
    items: Seq<NewsItem>,
    out: Seq<NewsItem>,
    k: int,
    m: int,
)
    requires
        dedup_of(items, out),
        0 <= k < out.len(),
        0 <= m < items.len(),
        same_key(items[m], out[k]),
    ensures
        !seq_lt(items[m].source@, out[k].source@),
{
    assert(is_kept_item(items, out[k]));
    let j = choose|j: int| #[trigger] is_kept(items, j) && items[j] == out[k];
    crate::text::lemma_seq_lt_irreflexive(items[m].source@);
    if m < j {
        lemma_seq_lt_asymmetric(items[j].source@, items[m].source@);
    }
}

/// Deduplication is deterministic: its result is determined by the input.
pub proof fn law_dedup_deterministic(items: Seq<NewsItem>, a: Seq<NewsItem>, b: Seq<NewsItem>)
    requires
        dedup_of(items, a),
        dedup_of(items, b),
    ensures
        a == b,
{
    lemma_stable_sort_unique(SortOrder::UrlThenSource, kept_in_first_order(items), a, b);
}

proof fn lemma_first_positions_all(s: Seq<NewsItem>, len: int)
    requires
        0 <= len <= s.len(),
        forall|k: int, l: int| 0 <= k < l < s.len() ==> !same_key(#[trigger] s[k], #[trigger] s[l]),
    ensures
        first_positions(s, len) == Seq::new(len as nat, |i: int| i),
    decreases len,
{
    if len > 0 {
        lemma_first_positions_all(s, len - 1);
        assert(first_of_key(s, len - 1));
        assert(first_positions(s, len) =~= Seq::new(len as nat, |i: int| i));
    }
}

/// Deduplicating an already deduplicated list gives the same list.
pub proof fn law_dedup_idempotent(items: Seq<NewsItem>, once: Seq<NewsItem>, twice: Seq<NewsItem>)
    requires
        dedup_of(items, once),
        dedup_of(once, twice),
    ensures
        twice == once,
{
    let n = once.len() as int;
    assert forall|j: int| 0 <= j < n implies #[trigger] is_kept(once, j) by {
        assert forall|m: int|
            0 <= m < n && m != j && same_key(#[trigger] once[m], once[j]) implies false by {
            if m < j {
                assert(!same_key(once[m], once[j]));
            } else {
                assert(!same_key(once[j], once[m]));
            }
        }
    }
    lemma_first_positions_all(once, n);
    let t = kept_in_first_order(once);
    assert forall|m: int| 0 <= m < n implies #[trigger] t[m] == once[m] by {
        assert(first_positions(once, n)[m] == m);
        assert(is_kept(once, m) && same_key(once[m], once[m]));
        let j = choose|j: int| is_kept(once, j) && same_key(once[j], once[m]);
        if j != m {
            if j < m {
                assert(!same_key(once[j], once[m]));
            } else {
                assert(!same_key(once[m], once[j]));
            }
        }
    }
    assert(t =~= once);
    let p = choose|p: Seq<int>|
        stable_rearrangement(SortOrder::UrlThenSource, kept_in_first_order(items), once, p);
    assert(sorted_by(SortOrder::UrlThenSource, once));
    lemma_stable_sort_of_sorted(SortOrder::UrlThenSource, once, twice);
}

/// Deduplicating then ranking is deterministic.
pub proof fn law_dedup_and_rank_deterministic(
    items: Seq<NewsItem>,
    mid_a: Seq<NewsItem>,
    a: Seq<NewsItem>,
    mid_b: Seq<NewsItem>,
    b: Seq<NewsItem>,
)
    requires
        dedup_of(items, mid_a),
        stable_sort_of(SortOrder::Recency, mid_a, a),
        dedup_of(items, mid_b),
        stable_sort_of(SortOrder::Recency, mid_b, b),
    ensures
        a == b,
{
    law_dedup_deterministic(items, mid_a, mid_b);
    lemma_stable_sort_unique(SortOrder::Recency, mid_a, a, b);
}

/// Two items whose URLs differ only by a trailing path slash (the URL has
/// more than three slashes, no white space, `'#'` or `'?'`, and no second
/// slash before the last) and whose titles normalize alike report the same
/// article, so deduplication keeps one of them.
pub proof fn law_trailing_slash_same_article(a: NewsItem, b: NewsItem)
    requires
        forall|k: int|
            0 <= k < a.url@.len() ==> !is_whitespace_char(#[trigger] a.url@[k]) && a.url@[k] != '#'
                && a.url@[k] != '?',
        a.url@.len() > 1,
        a.url@.last() == '/',
        a.url@[a.url@.len() - 2] != '/',
        count_char(a.url@, '/') > 3,
        b.url@ == a.url@.drop_last(),
        title_key(a.title@) == title_key(b.title@),
    ensures
        same_key(a, b),
{
    law_trailing_slash_dropped(a.url@);
}

/// Of two ranked items whose timestamps both parse, the one whose timestamp
/// denotes the strictly later instant (to the second and nanosecond, as
/// `chrono` reads it) is listed first.
pub proof fn law_later_instant_ranked_first(
    items: Seq<NewsItem>,
    ranked: Seq<NewsItem>,
    k: int,
    l: int,
)
    requires
        stable_sort_of(SortOrder::Recency, items, ranked),
        0 <= k < ranked.len(),
        0 <= l < ranked.len(),
        ranked[k].published_iso is Some,
        ranked[l].published_iso is Some,
        rfc3339_instant(ranked[k].published_iso->0@) is Some,
        rfc3339_instant(ranked[l].published_iso->0@) is Some,
        ({
            let x = rfc3339_instant(ranked[k].published_iso->0@)->0;
            let y = rfc3339_instant(ranked[l].published_iso->0@)->0;
            x.0 > y.0 || (x.0 == y.0 && x.1 > y.1)
        }),
    ensures
        k < l,
{
    let p = choose|p: Seq<int>| stable_rearrangement(SortOrder::Recency, items, ranked, p);
    if l < k {
        assert(!before(SortOrder::Recency, ranked[k], ranked[l]));
    }
}

} // verus!
