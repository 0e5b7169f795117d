//! Service-level settings and the decisions of the aggregation cycle: which
//! configured sources are used, whether the cached result is still fresh,
//! and how per-feed results are merged.

use vstd::prelude::*;

use crate::dedup_rank::{dedup_and_rank, dedup_of};
use crate::fetcher::starts_with;
use crate::item::NewsItem;
use crate::order::{stable_sort_of, SortOrder};
use crate::text::{chars_of, lemma_trim_idempotent, string_from_chars, trim_chars, trim_spec};

verus! {

pub const SERVICE_NAME: &'static str = "sacredvote-civic-news";

/// Listen address: local loopback only.
pub const DEFAULT_BIND: &'static str = "127.0.0.1:3005";

/// Time allowed for serving one request, in seconds.
pub const REQUEST_TIMEOUT_SECS: u64 = 10;

/// Largest request body accepted, in bytes.
pub const REQUEST_BODY_LIMIT_BYTES: usize = 4096;

/// How long an aggregated result is served from the cache, in seconds.
pub const CACHE_TTL_SECS: u64 = 600;

/// Most items in one aggregated result.
pub const MAX_AGGREGATED_ITEMS: usize = 200;

#[verifier::external_type_specification]
#[verifier::external_body]
pub struct ExInstant(std::time::Instant);

#[verifier::external_type_specification]
#[verifier::external_body]
pub struct ExSystemTime(std::time::SystemTime);

/// An aggregated result and when it was fetched.
pub struct CacheEntry {
    pub items: Vec<NewsItem>,
    pub fetched_at: std::time::Instant,
}

/// Trusted: `Instant::elapsed`, in whole seconds. The value depends on the
/// clock, so nothing is stated of it.
#[verifier::external_body]
fn elapsed_secs(t: &std::time::Instant) -> u64 {
    t.elapsed().as_secs()
}

/// Trusted: `SystemTime::now`. The value depends on the clock, so nothing is
/// stated of it.
#[verifier::external_body]
fn system_now() -> std::time::SystemTime {
    std::time::SystemTime::now()
}

/// Trusted: `SystemTime::duration_since(UNIX_EPOCH)` in whole seconds,
/// `None` when the time lies before the epoch. Nothing is stated of the
/// value.
#[verifier::external_body]
fn secs_since_unix_epoch(t: &std::time::SystemTime) -> Option<u64> {
    t.duration_since(std::time::UNIX_EPOCH).ok().map(|d| d.as_secs())
}

/// Seconds since the Unix epoch, or 0 when the clock reads before it.
pub fn unix_timestamp() -> u64 {
    let now = system_now();
    match secs_since_unix_epoch(&now) {
        Some(s) => s,
        None => 0,
    }
}

/// A cached result of this age is still served.
pub fn is_fresh(age_secs: u64) -> (r: bool)
    ensures
        r == (age_secs < CACHE_TTL_SECS),
{
    age_secs < CACHE_TTL_SECS
}

/// The cached items, when there is a cached result and it is `age_secs`
/// old, younger than `CACHE_TTL_SECS`; `None` otherwise.
pub fn cached_items_at_age(cache: &Option<CacheEntry>, age_secs: u64) -> (r: Option<Vec<NewsItem>>)
    ensures
        (r is Some) <==> (cache is Some && age_secs < CACHE_TTL_SECS),
        r matches Some(items) ==> items@ == cache->0.items@,
{
    match cache {
        Some(entry) => {
            if is_fresh(age_secs) {
                Some(entry.items.clone())
            } else {
                None
            }
        },
        None => None,
    }
}

/// The cached items, when there is a cached result that is still fresh: its
/// age is read from the clock and the choice is `cached_items_at_age`'s.
pub fn fresh_cached_items(cache: &Option<CacheEntry>) -> (r: Option<Vec<NewsItem>>)
    ensures
        cache is None ==> r is None,
        r matches Some(items) ==> cache matches Some(e) && items@ == e.items@,
{
    match cache {
        Some(entry) => cached_items_at_age(cache, elapsed_secs(&entry.fetched_at)),
        None => None,
    }
}

/// All items of all feeds, feed after feed.
pub open spec fn flatten_items(rs: Seq<Vec<NewsItem>>) -> Seq<NewsItem>
    decreases rs.len(),
{
    if rs.len() == 0 {
        Seq::empty()
    } else {
        flatten_items(rs.drop_last()) + rs.last()@
    }
}

/// At most the first `MAX_AGGREGATED_ITEMS` items.
pub open spec fn cap_items(s: Seq<NewsItem>) -> Seq<NewsItem> {
    if s.len() > MAX_AGGREGATED_ITEMS {
        s.take(MAX_AGGREGATED_ITEMS as int)
    } else {
        s
    }
}

/// Merge per-feed results: all items, deduplicated and ranked, cut to the
/// first `MAX_AGGREGATED_ITEMS`.
pub fn merge_feed_results(results: Vec<Vec<NewsItem>>) -> (out: Vec<NewsItem>)
    ensures
        exists|mid: Seq<NewsItem>, ranked: Seq<NewsItem>|
            dedup_of(flatten_items(results@), mid) && stable_sort_of(SortOrder::Recency, mid, ranked)
                && out@ == cap_items(ranked),
        out@.len() <= MAX_AGGREGATED_ITEMS,
{
    let ghost rs = results@;
    let mut merged: Vec<NewsItem> = Vec::new();
    for feed in it: results
        invariant
            it.seq() == rs,
            merged@ == flatten_items(rs.take(it.index() as int)),
    {
        let ghost i = it.index() as int;
        assert(rs.take(i + 1).drop_last() =~= rs.take(i));
        let mut feed = feed;
        merged.append(&mut feed);
    }
    assert(rs.take(rs.len() as int) =~= rs);
    let mut ranked = dedup_and_rank(merged);
    let ghost full = ranked@;
    if ranked.len() > MAX_AGGREGATED_ITEMS {
        ranked.truncate(MAX_AGGREGATED_ITEMS);
    }
    assert(ranked@ == cap_items(full));
    ranked
}

/// The comma-separated parts of `s` (`str::split(',')`): always at least
/// one part, empty parts included.
pub open spec fn split_commas(s: Seq<char>) -> Seq<Seq<char>>
    decreases s.len(),
{
    if s.len() == 0 {
        seq![Seq::empty()]
    } else {
        let parts = split_commas(s.drop_last());
        if s.last() == ',' {
            parts.push(Seq::empty())
        } else {
            parts.update(parts.len() - 1, parts.last().push(s.last()))
        }
    }
}

/// A configured source is used when, trimmed, it is a nonempty HTTPS URL.
pub open spec fn usable_source(part: Seq<char>) -> bool {
    trim_spec(part).len() > 0 && "https://"@.is_prefix_of(trim_spec(part))
}

/// The trimmed usable parts, in order.
pub open spec fn listed_sources(parts: Seq<Seq<char>>) -> Seq<Seq<char>>
    decreases parts.len(),
{
    if parts.len() == 0 {
        Seq::empty()
    } else if usable_source(parts.last()) {
        listed_sources(parts.drop_last()).push(trim_spec(parts.last()))
    } else {
        listed_sources(parts.drop_last())
    }
}

/// The text of each string.
pub open spec fn texts(v: Seq<String>) -> Seq<Seq<char>> {
    v.map_values(|s: String| s@)
}

proof fn lemma_split_commas_nonempty(s: Seq<char>)
    ensures
        split_commas(s).len() > 0,
    decreases s.len(),
{
    if s.len() > 0 {
        lemma_split_commas_nonempty(s.drop_last());
    }
}

/// Whether `url` uses the HTTPS scheme.
pub fn has_https_scheme(url: &str) -> (r: bool)
    ensures
        r == "https://"@.is_prefix_of(url@),
{
    let chars = chars_of(url);
    starts_with(&chars, "https://")
}

/// Appends the trimmed part to `out` when it is a usable source.
fn push_if_usable(out: &mut Vec<String>, part: &Vec<char>)
    ensures
        texts(final(out)@) == if usable_source(part@) {
            texts(old(out)@).push(trim_spec(part@))
        } else {
            texts(old(out)@)
        },
{
    let t = trim_chars(part);
    if t.len() > 0 && starts_with(&t, "https://") {
        let s = string_from_chars(&t);
        out.push(s);
        assert(texts(out@) =~= texts(old(out)@).push(trim_spec(part@)));
    }
}

/// The configured source list: the comma-separated entries of `s`, trimmed,
/// without empty ones and without any that is not an HTTPS URL.
pub fn parse_source_list(s: &str) -> (r: Vec<String>)
    ensures
        texts(r@) == listed_sources(split_commas(s@)),
{
    let chars = chars_of(s);
    let mut out: Vec<String> = Vec::new();
    let mut current: Vec<char> = Vec::new();
    for i in 0..chars.len()
        invariant
            ({
                let parts = split_commas(chars@.take(i as int));
                &&& parts.len() > 0
                &&& current@ == parts.last()
                &&& texts(out@) == listed_sources(parts.drop_last())
            }),
    {
        let ghost prev = split_commas(chars@.take(i as int));
        assert(chars@.take(i + 1).drop_last() =~= chars@.take(i as int));
        proof {
            lemma_split_commas_nonempty(chars@.take(i as int));
        }
        let c = chars[i];
        if c == ',' {
            push_if_usable(&mut out, &current);
            current = Vec::new();
            proof {
                let parts = split_commas(chars@.take(i + 1));
                assert(parts == prev.push(Seq::empty()));
                assert(parts.drop_last() =~= prev);
                assert(prev.drop_last().push(prev.last()) =~= prev);
            }
        } else {
            current.push(c);
            proof {
                let parts = split_commas(chars@.take(i + 1));
                assert(parts.drop_last() =~= prev.drop_last());
            }
        }
    }
    push_if_usable(&mut out, &current);
    proof {
        let parts = split_commas(chars@.take(chars@.len() as int));
        assert(chars@.take(chars@.len() as int) =~= chars@);
        assert(parts.drop_last().push(parts.last()) =~= parts);
    }
    out
}

/// Every source the list yields is a nonempty HTTPS URL without surrounding
/// whitespace.
pub proof fn law_listed_sources_are_https(s: Seq<char>, k: int)
    requires
        0 <= k < listed_sources(split_commas(s)).len(),
    ensures
        "https://"@.is_prefix_of(listed_sources(split_commas(s))[k]),
        listed_sources(split_commas(s))[k] == trim_spec(listed_sources(split_commas(s))[k]),
{
    lemma_listed_https(split_commas(s), k);
}

proof fn lemma_listed_https(parts: Seq<Seq<char>>, k: int)
    requires
        0 <= k < listed_sources(parts).len(),
    ensures
        "https://"@.is_prefix_of(listed_sources(parts)[k]),
        listed_sources(parts)[k] == trim_spec(listed_sources(parts)[k]),
    decreases parts.len(),
{
    let d = parts.drop_last();
    if usable_source(parts.last()) {
        if k < listed_sources(d).len() {
            lemma_listed_https(d, k);
        } else {
            lemma_trim_idempotent(parts.last());
        }
    } else {
        lemma_listed_https(d, k);
    }
}

} // verus!
