//! The two orders in which news items are listed, and a stable insertion
//! sort over them.

use vstd::prelude::*;

use crate::item::NewsItem;
use crate::text::{
    lemma_seq_lt_asymmetric, lemma_seq_lt_irreflexive, lemma_seq_lt_total,
    lemma_seq_lt_transitive, seq_lt, str_lt,
};

verus! {

/// Ascending by URL, then by source URL (`(&a.url, &a.source).cmp(..)`).
pub open spec fn url_source_before(a: NewsItem, b: NewsItem) -> bool {
    seq_lt(a.url@, b.url@) || (a.url@ == b.url@ && seq_lt(a.source@, b.source@))
}

/// The instant an RFC 3339 timestamp denotes, as whole seconds since the
/// Unix epoch and the nanoseconds into that second (from 10^9 up for a leap
/// second), or `None` when `chrono` does not read the text as RFC 3339.
pub uninterp spec fn rfc3339_instant(s: Seq<char>) -> Option<(i64, u32)>;

/// Trusted: `chrono::DateTime::parse_from_rfc3339`, with the parsed time read
/// back by `timestamp` and `timestamp_subsec_nanos`. The parse depends on the
/// text alone; the contract names its result and states nothing else of it.
#[verifier::external_body]
fn parse_rfc3339(s: &str) -> (r: Option<(i64, u32)>)
    ensures
        r == rfc3339_instant(s@),
{
    chrono::DateTime::parse_from_rfc3339(s).ok().map(|d| (d.timestamp(), d.timestamp_subsec_nanos()))
}

/// The instant of an item's timestamp; `None` when it has none or when the
/// text is not a parseable RFC 3339 date-time.
pub open spec fn stamp_instant(p: Option<String>) -> Option<(i64, u32)> {
    match p {
        Some(s) => rfc3339_instant(s@),
        None => None,
    }
}

/// `x` is an earlier instant than `y`.
pub open spec fn instant_lt(x: (i64, u32), y: (i64, u32)) -> bool {
    x.0 < y.0 || (x.0 == y.0 && x.1 < y.1)
}

/// Recency order on (instant, title) pairs: dated before undated, dated ones
/// newest first, undated ones in ascending title order.
pub open spec fn keyed_before(
    ka: Option<(i64, u32)>,
    ta: Seq<char>,
    kb: Option<(i64, u32)>,
    tb: Seq<char>,
) -> bool {
    match ka {
        Some(x) => match kb {
            Some(y) => instant_lt(y, x),
            None => true,
        },
        None => match kb {
            Some(_) => false,
            None => seq_lt(ta, tb),
        },
    }
}

/// Newest first by the instant the timestamp denotes; items without a
/// parseable timestamp after all dated items, in ascending title order.
pub open spec fn recency_before(a: NewsItem, b: NewsItem) -> bool {
    keyed_before(stamp_instant(a.published_iso), a.title@, stamp_instant(b.published_iso), b.title@)
}

/// Which order a sort follows.
#[derive(Clone, Copy)]
pub enum SortOrder {
    UrlThenSource,
    Recency,
}

/// `a` must be listed before `b`.
pub open spec fn before(order: SortOrder, a: NewsItem, b: NewsItem) -> bool {
    match order {
        SortOrder::UrlThenSource => url_source_before(a, b),
        SortOrder::Recency => recency_before(a, b),
    }
}

/// Neither must come before the other.
pub open spec fn tied(order: SortOrder, a: NewsItem, b: NewsItem) -> bool {
    !before(order, a, b) && !before(order, b, a)
}

/// No item is listed after one that must come after it.
pub open spec fn sorted_by(order: SortOrder, s: Seq<NewsItem>) -> bool {
    forall|k: int, l: int| 0 <= k < l < s.len() ==> !before(order, #[trigger] s[l], #[trigger] s[k])
}

/// Some position among the first `n` of `p` holds `j`.
pub open spec fn hits(p: Seq<int>, n: nat, j: int) -> bool {
    exists|k: int| 0 <= k < n && #[trigger] p[k] == j
}

/// `p` is a permutation of the indices `0..n`.
pub open spec fn is_index_perm(p: Seq<int>, n: nat) -> bool {
    &&& p.len() == n
    &&& forall|k: int| 0 <= k < n ==> 0 <= #[trigger] p[k] < n
    &&& forall|k: int, l: int| 0 <= k < n && 0 <= l < n && k != l ==> #[trigger] p[k] != #[trigger] p[l]
    &&& forall|j: int| 0 <= j < n ==> #[trigger] hits(p, n, j)
}

/// `out` lists the items of `orig` rearranged by `p`, in order, and items that
/// are tied keep their original relative order.
pub open spec fn stable_rearrangement(
    order: SortOrder,
    orig: Seq<NewsItem>,
    out: Seq<NewsItem>,
    p: Seq<int>,
) -> bool {
    &&& out.len() == orig.len()
    &&& is_index_perm(p, orig.len())
    &&& forall|k: int| 0 <= k < out.len() ==> #[trigger] out[k] == orig[p[k]]
    &&& sorted_by(order, out)
    &&& forall|k: int, l: int|
        0 <= k < l < out.len() && tied(order, #[trigger] out[k], #[trigger] out[l]) ==> p[k] < p[l]
}

/// `out` is the stable sort of `orig` in `order`.
pub open spec fn stable_sort_of(order: SortOrder, orig: Seq<NewsItem>, out: Seq<NewsItem>) -> bool {
    exists|p: Seq<int>| stable_rearrangement(order, orig, out, p)
}

pub proof fn lemma_seq_lt_negative_transitive(x: Seq<char>, y: Seq<char>, z: Seq<char>)
    requires
        seq_lt(x, z),
    ensures
        seq_lt(x, y) || seq_lt(y, z),
{
    lemma_seq_lt_total(x, y);
    lemma_seq_lt_total(y, z);
    if seq_lt(z, y) && seq_lt(y, x) {
        lemma_seq_lt_transitive(z, y, x);
        lemma_seq_lt_asymmetric(x, z);
    }
}

/// `before` is irreflexive.
pub proof fn lemma_before_irreflexive(order: SortOrder, a: NewsItem)
    ensures
        !before(order, a, a),
{
    lemma_seq_lt_irreflexive(a.url@);
    lemma_seq_lt_irreflexive(a.source@);
    lemma_seq_lt_irreflexive(a.title@);
}

/// `before` is asymmetric.
pub proof fn lemma_before_asymmetric(order: SortOrder, a: NewsItem, b: NewsItem)
    ensures
        !(before(order, a, b) && before(order, b, a)),
{
    lemma_seq_lt_asymmetric(a.url@, b.url@);
    lemma_seq_lt_asymmetric(a.source@, b.source@);
    lemma_seq_lt_asymmetric(a.title@, b.title@);
    lemma_seq_lt_irreflexive(a.source@);
}

/// `before` is transitive.
pub proof fn lemma_before_transitive(order: SortOrder, a: NewsItem, b: NewsItem, c: NewsItem)
    requires
        before(order, a, b),
        before(order, b, c),
    ensures
        before(order, a, c),
{
    match order {
        SortOrder::UrlThenSource => {
            if seq_lt(a.url@, b.url@) && seq_lt(b.url@, c.url@) {
                lemma_seq_lt_transitive(a.url@, b.url@, c.url@);
            }
            lemma_seq_lt_irreflexive(a.url@);
            lemma_seq_lt_irreflexive(b.url@);
            if a.url@ == b.url@ && b.url@ == c.url@ {
                lemma_seq_lt_transitive(a.source@, b.source@, c.source@);
            }
        },
        SortOrder::Recency => {
            if stamp_instant(a.published_iso) is None {
                lemma_seq_lt_transitive(a.title@, b.title@, c.title@);
            }
        },
    }
}

/// If `a` must precede `c`, then for any `b`, `a` must precede `b` or `b`
/// must precede `c` (ties are transitive).
pub proof fn lemma_before_negative_transitive(
    order: SortOrder,
    a: NewsItem,
    b: NewsItem,
    c: NewsItem,
)
    requires
        before(order, a, c),
    ensures
        before(order, a, b) || before(order, b, c),
{
    match order {
        SortOrder::UrlThenSource => {
            lemma_seq_lt_total(a.url@, b.url@);
            lemma_seq_lt_total(b.url@, c.url@);
            if seq_lt(a.url@, c.url@) {
                lemma_seq_lt_negative_transitive(a.url@, b.url@, c.url@);
            } else {
                lemma_seq_lt_negative_transitive(a.source@, b.source@, c.source@);
                lemma_seq_lt_irreflexive(a.url@);
                lemma_seq_lt_asymmetric(a.url@, b.url@);
            }
        },
        SortOrder::Recency => {
            if stamp_instant(a.published_iso) is None && stamp_instant(b.published_iso) is None {
                lemma_seq_lt_negative_transitive(a.title@, b.title@, c.title@);
            }
        },
    }
}

/// The instant of an item's timestamp, read with `chrono`.
fn published_instant(p: &Option<String>) -> (r: Option<(i64, u32)>)
    ensures
        r == stamp_instant(*p),
{
    match p {
        Some(s) => parse_rfc3339(s.as_str()),
        None => None,
    }
}

/// Whether an item with instant `ka` and title `ta` is ranked before one
/// with instant `kb` and title `tb`.
pub fn keyed_precedes(ka: Option<(i64, u32)>, ta: &str, kb: Option<(i64, u32)>, tb: &str) -> (r: bool)
    ensures
        r == keyed_before(ka, ta@, kb, tb@),
{
    match (ka, kb) {
        (Some(x), Some(y)) => y.0 < x.0 || (y.0 == x.0 && y.1 < x.1),
        (Some(_), None) => true,
        (None, Some(_)) => false,
        (None, None) => str_lt(ta, tb),
    }
}

/// Whether `a` must be listed before `b`.
pub fn precedes(order: SortOrder, a: &NewsItem, b: &NewsItem) -> (r: bool)
    ensures
        r == before(order, *a, *b),
{
    match order {
        SortOrder::UrlThenSource => {
            if str_lt(a.url.as_str(), b.url.as_str()) {
                true
            } else if a.url == b.url {
                str_lt(a.source.as_str(), b.source.as_str())
            } else {
                false
            }
        },
        SortOrder::Recency => {
            let ka = published_instant(&a.published_iso);
            let kb = published_instant(&b.published_iso);
            keyed_precedes(ka, a.title.as_str(), kb, b.title.as_str())
        },
    }
}

/// What the insertion sort keeps after its first `i` steps.
pub open spec fn sort_inv(
    order: SortOrder,
    orig: Seq<NewsItem>,
    v: Seq<NewsItem>,
    p: Seq<int>,
    i: int,
) -> bool {
    let n = orig.len();
    &&& 0 <= i <= n
    &&& v.len() == n
    &&& is_index_perm(p, n)
    &&& forall|k: int| 0 <= k < n ==> #[trigger] v[k] == orig[p[k]]
    &&& forall|k: int| i <= k < n ==> #[trigger] p[k] == k
    &&& forall|k: int| 0 <= k < i ==> #[trigger] p[k] < i
    &&& forall|k: int, l: int| 0 <= k < l < i ==> !before(order, #[trigger] v[l], #[trigger] v[k])
    &&& forall|k: int, l: int|
        0 <= k < l < i && tied(order, #[trigger] v[k], #[trigger] v[l]) ==> p[k] < p[l]
}

/// Where the element at position `k` after moving position `i` to position
/// `j` (`j <= i`) was before.
pub open spec fn moved_from(k: int, i: int, j: int) -> int {
    if k < j {
        k
    } else if k == j {
        i
    } else if k <= i {
        k - 1
    } else {
        k
    }
}

proof fn lemma_move_index(s: Seq<int>, i: int, j: int, x: int, k: int)
    requires
        0 <= j <= i < s.len(),
        0 <= k < s.len(),
    ensures
        s.remove(i).insert(j, x)[k] == if k == j { x } else { s[moved_from(k, i, j)] },
{
}

proof fn lemma_move_item(s: Seq<NewsItem>, i: int, j: int, x: NewsItem, k: int)
    requires
        0 <= j <= i < s.len(),
        0 <= k < s.len(),
    ensures
        s.remove(i).insert(j, x)[k] == if k == j { x } else { s[moved_from(k, i, j)] },
{
}

proof fn lemma_step_perm(p: Seq<int>, n: nat, i: int, j: int)
    requires
        is_index_perm(p, n),
        0 <= j <= i < n,
        p[i] == i,
        forall|k: int| i <= k < n ==> #[trigger] p[k] == k,
        forall|k: int| 0 <= k < i ==> #[trigger] p[k] < i,
    ensures
        is_index_perm(p.remove(i).insert(j, i), n),
        forall|k: int| i + 1 <= k < n ==> #[trigger] p.remove(i).insert(j, i)[k] == k,
        forall|k: int| 0 <= k < i + 1 ==> #[trigger] p.remove(i).insert(j, i)[k] < i + 1,
{
    let q = p.remove(i).insert(j, i);
    assert forall|k: int| 0 <= k < n implies #[trigger] q[k] == p[moved_from(k, i, j)] by {
        lemma_move_index(p, i, j, i, k);
    }
    assert forall|k: int| 0 <= k < n implies 0 <= #[trigger] q[k] < n by {
        assert(q[k] == p[moved_from(k, i, j)]);
    }
    assert forall|k: int, l: int| 0 <= k < n && 0 <= l < n && k != l implies #[trigger] q[k]
        != #[trigger] q[l] by {
        assert(q[k] == p[moved_from(k, i, j)]);
        assert(q[l] == p[moved_from(l, i, j)]);
    }
    assert forall|jj: int| 0 <= jj < n implies #[trigger] hits(q, n, jj) by {
        assert(hits(p, n, jj));
        let ok = choose|k: int| 0 <= k < n && #[trigger] p[k] == jj;
        let nk = if ok < j {
            ok
        } else if ok == i {
            j
        } else if ok < i {
            ok + 1
        } else {
            ok
        };
        assert(q[nk] == p[moved_from(nk, i, j)]);
    }
    assert forall|k: int| i + 1 <= k < n implies #[trigger] q[k] == k by {
        assert(q[k] == p[moved_from(k, i, j)]);
    }
    assert forall|k: int| 0 <= k < i + 1 implies #[trigger] q[k] < i + 1 by {
        assert(q[k] == p[moved_from(k, i, j)]);
    }
}

proof fn lemma_step_sorted(order: SortOrder, vb: Seq<NewsItem>, i: int, j: int)
    requires
        0 <= j <= i < vb.len(),
        forall|k: int, l: int| 0 <= k < l < i ==> !before(order, #[trigger] vb[l], #[trigger] vb[k]),
        j == 0 || !before(order, vb[i], vb[j - 1]),
        forall|m: int| j <= m < i ==> before(order, vb[i], #[trigger] vb[m]),
    ensures
        forall|k: int, l: int|
            0 <= k < l < i + 1 ==> !before(
                order,
                #[trigger] vb.remove(i).insert(j, vb[i])[l],
                #[trigger] vb.remove(i).insert(j, vb[i])[k],
            ),
{
    let x = vb[i];
    let w = vb.remove(i).insert(j, x);
    assert forall|k: int, l: int| 0 <= k < l < i + 1 implies !before(
        order,
        #[trigger] w[l],
        #[trigger] w[k],
    ) by {
        lemma_move_item(vb, i, j, x, k);
        lemma_move_item(vb, i, j, x, l);
        if k == j {
            assert(before(order, x, vb[l - 1]));
            lemma_before_asymmetric(order, x, vb[l - 1]);
        } else if l == j {
            if k < j - 1 && before(order, x, vb[k]) {
                lemma_before_negative_transitive(order, x, vb[j - 1], vb[k]);
            }
        }
    }
}

proof fn lemma_step_stable(order: SortOrder, vb: Seq<NewsItem>, p: Seq<int>, i: int, j: int)
    requires
        0 <= j <= i < vb.len() == p.len(),
        p[i] == i,
        forall|k: int| 0 <= k < i ==> #[trigger] p[k] < i,
        forall|k: int, l: int|
            0 <= k < l < i && tied(order, #[trigger] vb[k], #[trigger] vb[l]) ==> p[k] < p[l],
        forall|m: int| j <= m < i ==> before(order, vb[i], #[trigger] vb[m]),
    ensures
        forall|k: int, l: int|
            0 <= k < l < i + 1 && tied(
                order,
                #[trigger] vb.remove(i).insert(j, vb[i])[k],
                #[trigger] vb.remove(i).insert(j, vb[i])[l],
            ) ==> p.remove(i).insert(j, i)[k] < p.remove(i).insert(j, i)[l],
{
    let x = vb[i];
    let w = vb.remove(i).insert(j, x);
    let q = p.remove(i).insert(j, i);
    assert forall|k: int, l: int| 0 <= k < l < i + 1 && tied(
        order,
        #[trigger] w[k],
        #[trigger] w[l],
    ) implies q[k] < q[l] by {
        lemma_move_item(vb, i, j, x, k);
        lemma_move_item(vb, i, j, x, l);
        lemma_move_index(p, i, j, i, k);
        lemma_move_index(p, i, j, i, l);
        if k == j {
            assert(before(order, x, vb[l - 1]));
        }
    }
}

proof fn lemma_sort_step(
    order: SortOrder,
    orig: Seq<NewsItem>,
    vb: Seq<NewsItem>,
    p: Seq<int>,
    i: int,
    j: int,
)
    requires
        sort_inv(order, orig, vb, p, i),
        0 <= j <= i < orig.len(),
        j == 0 || !before(order, vb[i], vb[j - 1]),
        forall|m: int| j <= m < i ==> before(order, vb[i], #[trigger] vb[m]),
    ensures
        sort_inv(order, orig, vb.remove(i).insert(j, vb[i]), p.remove(i).insert(j, i), i + 1),
{
    let n = orig.len();
    let x = vb[i];
    let w = vb.remove(i).insert(j, x);
    let q = p.remove(i).insert(j, i);
    lemma_step_perm(p, n, i, j);
    lemma_step_sorted(order, vb, i, j);
    lemma_step_stable(order, vb, p, i, j);
    assert forall|k: int| 0 <= k < n implies #[trigger] w[k] == orig[q[k]] by {
        lemma_move_item(vb, i, j, x, k);
        lemma_move_index(p, i, j, i, k);
    }
}

/// Stable insertion sort of `v` in `order`.
pub fn stable_sort(v: &mut Vec<NewsItem>, order: SortOrder)
    ensures
        stable_sort_of(order, old(v)@, final(v)@),
{
    let n = v.len();
    let ghost orig = v@;
    let ghost mut p: Seq<int> = Seq::new(n as nat, |k: int| k);
    assert forall|j: int| 0 <= j < n implies #[trigger] hits(p, n as nat, j) by {
        assert(p[j] == j);
    }
    for i in 0..n
        invariant
            n == orig.len(),
            sort_inv(order, orig, v@, p, i as int),
    {
        let ghost vb = v@;
        let x = v.remove(i);
        let mut j = i;
        while j > 0 && precedes(order, &x, &v[j - 1])
            invariant
                j <= i < n,
                vb.len() == n,
                v@.len() == n - 1,
                v@ == vb.remove(i as int),
                x == vb[i as int],
                forall|m: int| j <= m < i ==> before(order, vb[i as int], #[trigger] vb[m]),
            decreases j,
        {
            assert(v@[j - 1] == vb[j - 1]);
            j = j - 1;
        }
        proof {
            if j > 0 {
                assert(v@[j - 1] == vb[j - 1]);
            }
            lemma_sort_step(order, orig, vb, p, i as int, j as int);
            p = p.remove(i as int).insert(j as int, i as int);
        }
        v.insert(j, x);
    }
    assert(stable_rearrangement(order, orig, v@, p));
}

proof fn lemma_perm_lower(p: Seq<int>, n: int, k: int)
    requires
        0 <= k < n <= p.len(),
        forall|a: int| 0 <= a < n ==> 0 <= #[trigger] p[a],
        forall|a: int, b: int| 0 <= a < b < n ==> #[trigger] p[a] < #[trigger] p[b],
    ensures
        p[k] >= k,
    decreases k,
{
    if k > 0 {
        lemma_perm_lower(p, n, k - 1);
        assert(p[k - 1] < p[k]);
    }
}

proof fn lemma_perm_upper(p: Seq<int>, n: int, k: int)
    requires
        0 <= k < n <= p.len(),
        forall|a: int| 0 <= a < n ==> #[trigger] p[a] < n,
        forall|a: int, b: int| 0 <= a < b < n ==> #[trigger] p[a] < #[trigger] p[b],
    ensures
        p[k] <= k,
    decreases n - k,
{
    if k < n - 1 {
        lemma_perm_upper(p, n, k + 1);
        assert(p[k] < p[k + 1]);
    }
}

/// A stable sort of a list that is already in order leaves it as it is.
pub proof fn lemma_stable_sort_of_sorted(order: SortOrder, s: Seq<NewsItem>, out: Seq<NewsItem>)
    requires
        sorted_by(order, s),
        stable_sort_of(order, s, out),
    ensures
        out == s,
{
    let p = choose|p: Seq<int>| stable_rearrangement(order, s, out, p);
    let n = s.len() as int;
    assert forall|a: int, b: int| 0 <= a < b < n implies #[trigger] p[a] < #[trigger] p[b] by {
        assert(out[a] == s[p[a]]);
        assert(out[b] == s[p[b]]);
        assert(p[a] != p[b]);
        if p[b] < p[a] {
            assert(!before(order, out[b], out[a]));
            assert(!before(order, s[p[a]], s[p[b]]));
            assert(tied(order, out[a], out[b]));
        }
    }
    assert forall|k: int| 0 <= k < n implies #[trigger] out[k] == s[k] by {
        lemma_perm_lower(p, n, k);
        lemma_perm_upper(p, n, k);
    }
    assert(out =~= s);
}

/// A stable sort's result is determined by its input: two stable sorts of
/// the same list in the same order are equal.
pub proof fn lemma_stable_sort_unique(
    order: SortOrder,
    s: Seq<NewsItem>,
    a: Seq<NewsItem>,
    b: Seq<NewsItem>,
)
    requires
        stable_sort_of(order, s, a),
        stable_sort_of(order, s, b),
    ensures
        a == b,
{
    let p = choose|p: Seq<int>| stable_rearrangement(order, s, a, p);
    let q = choose|q: Seq<int>| stable_rearrangement(order, s, b, q);
    let n = s.len();
    // position in `a` of each input index
    let inv = Seq::new(n, |j: int| choose|k: int| 0 <= k < n && #[trigger] p[k] == j);
    assert forall|j: int| 0 <= j < n implies 0 <= #[trigger] inv[j] < n && p[inv[j]] == j by {
        assert(hits(p, n, j));
    }
    let r = Seq::new(n, |k: int| inv[q[k]]);
    assert forall|k: int| 0 <= k < n implies 0 <= #[trigger] r[k] < n && p[r[k]] == q[k] by {
        assert(0 <= q[k] < n);
    }
    assert forall|k: int, l: int| 0 <= k < n && 0 <= l < n && k != l implies #[trigger] r[k]
        != #[trigger] r[l] by {
        assert(p[r[k]] == q[k]);
        assert(p[r[l]] == q[l]);
        assert(q[k] != q[l]);
    }
    assert forall|j: int| 0 <= j < n implies #[trigger] hits(r, n, j) by {
        assert(0 <= p[j] < n);
        assert(hits(q, n, p[j]));
        let k = choose|k: int| 0 <= k < n && #[trigger] q[k] == p[j];
        assert(p[r[k]] == q[k]);
        assert(0 <= r[k] < n);
        if r[k] != j {
            assert(p[r[k]] != p[j]);
        }
        assert(r[k] == j);
    }
    assert forall|k: int| 0 <= k < n implies #[trigger] b[k] == a[r[k]] by {
        assert(p[r[k]] == q[k]);
        assert(a[r[k]] == s[p[r[k]]]);
    }
    assert forall|k: int, l: int| 0 <= k < l < n && tied(order, #[trigger] b[k], #[trigger] b[l]) implies r[k]
        < r[l] by {
        assert(q[k] < q[l]);
        assert(p[r[k]] == q[k]);
        assert(p[r[l]] == q[l]);
        assert(r[k] != r[l]);
        if r[l] < r[k] {
            assert(a[r[l]] == b[l]);
            assert(a[r[k]] == b[k]);
            assert(tied(order, a[r[l]], a[r[k]]));
            assert(p[r[l]] < p[r[k]]);
        }
    }
    assert(stable_rearrangement(order, a, b, r));
    lemma_stable_sort_of_sorted(order, a, b);
}

} // verus!
