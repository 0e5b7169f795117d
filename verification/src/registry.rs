//! Per-source bias and factual-tier registry.
//!
//! The registry maps source URLs, in their normalized form (trimmed,
//! fragment cut, tracking query parameters removed, trailing path slash
//! removed, lowercased, as dedup compares them), to ratings. A URL that is not registered rates as
//! (Unknown, Unknown). When a URL is given twice, the later rating wins.

use vstd::prelude::*;

use crate::neutrality::{BiasRating, FactualTier};
use crate::dedup_rank::same_key;
use crate::item::NewsItem;
use crate::text::{canonical_url, url_key};

verus! {

/// One source's rating, as read from the ratings file.
pub struct SourceRating {
    pub url: String,
    pub bias: BiasRating,
    pub factual: FactualTier,
}

/// The ratings a list of sources gives, each under its normalized URL; a
/// later entry for the same URL replaces an earlier one.
pub open spec fn ratings_map(sources: Seq<SourceRating>) -> Map<Seq<char>, (BiasRating, FactualTier)>
    decreases sources.len(),
{
    if sources.len() == 0 {
        Map::empty()
    } else {
        let s = sources.last();
        ratings_map(sources.drop_last()).insert(url_key(s.url@), (s.bias, s.factual))
    }
}

/// The rating a registry gives `url`: the one registered under its
/// normalized form, or (Unknown, Unknown) when there is none.
pub open spec fn rating_of(
    reg: Map<Seq<char>, (BiasRating, FactualTier)>,
    url: Seq<char>,
) -> (BiasRating, FactualTier) {
    if reg.contains_key(url_key(url)) {
        reg[url_key(url)]
    } else {
        (BiasRating::Unknown, FactualTier::Unknown)
    }
}

/// Registered ratings by normalized source URL.
#[derive(Debug)]
pub struct Registry {
    by_url: Vec<(String, BiasRating, FactualTier)>,
}

/// The map that a list of (key, bias, factual) entries stands for.
pub open spec fn entries_map(e: Seq<(String, BiasRating, FactualTier)>) -> Map<
    Seq<char>,
    (BiasRating, FactualTier),
>
    decreases e.len(),
{
    if e.len() == 0 {
        Map::empty()
    } else {
        entries_map(e.drop_last()).insert(e.last().0@, (e.last().1, e.last().2))
    }
}

/// No key occurs twice.
pub open spec fn keys_distinct(e: Seq<(String, BiasRating, FactualTier)>) -> bool {
    forall|i: int, j: int| 0 <= i < j < e.len() ==> (#[trigger] e[i]).0@ != (#[trigger] e[j]).0@
}

impl View for Registry {
    type V = Map<Seq<char>, (BiasRating, FactualTier)>;

    closed spec fn view(&self) -> Self::V {
        entries_map(self.by_url@)
    }
}

proof fn lemma_entries_map_lookup(e: Seq<(String, BiasRating, FactualTier)>, k: Seq<char>)
    requires
        keys_distinct(e),
    ensures
        entries_map(e).contains_key(k) <==> exists|i: int| 0 <= i < e.len() && (#[trigger] e[i]).0@ == k,
        forall|i: int| 0 <= i < e.len() && (#[trigger] e[i]).0@ == k ==> entries_map(e)[k] == (e[i].1, e[i].2),
        entries_map(e).dom().finite(),
        entries_map(e).len() == e.len(),
    decreases e.len(),
{
    if e.len() > 0 {
        let d = e.drop_last();
        assert(keys_distinct(d));
        lemma_entries_map_lookup(d, k);
        lemma_entries_map_lookup(d, e.last().0@);
        assert forall|i: int| 0 <= i < d.len() implies (#[trigger] d[i]).0@ != e.last().0@ by {
            assert(d[i] == e[i]);
        }
        if entries_map(e).contains_key(k) && k != e.last().0@ {
            let i = choose|i: int| 0 <= i < d.len() && (#[trigger] d[i]).0@ == k;
            assert(e[i] == d[i]);
        }
        assert forall|i: int| 0 <= i < e.len() && (#[trigger] e[i]).0@ == k implies entries_map(e)[k] == (
        e[i].1, e[i].2) by {
            if i < e.len() - 1 {
                assert(e[i] == d[i]);
            }
        }
        if exists|i: int| 0 <= i < e.len() && (#[trigger] e[i]).0@ == k {
            let i = choose|i: int| 0 <= i < e.len() && (#[trigger] e[i]).0@ == k;
            if i < e.len() - 1 {
                assert(e[i] == d[i]);
            }
        }
    }
}

proof fn lemma_entries_map_update(
    e: Seq<(String, BiasRating, FactualTier)>,
    i: int,
    x: (String, BiasRating, FactualTier),
)
    requires
        0 <= i < e.len(),
        x.0@ == e[i].0@,
        keys_distinct(e),
    ensures
        entries_map(e.update(i, x)) == entries_map(e).insert(x.0@, (x.1, x.2)),
    decreases e.len(),
{
    let u = e.update(i, x);
    if i == e.len() - 1 {
        assert(u.drop_last() =~= e.drop_last());
        assert(entries_map(u) =~= entries_map(e).insert(x.0@, (x.1, x.2)));
    } else {
        let d = e.drop_last();
        assert(u.drop_last() =~= d.update(i, x));
        assert(d[i] == e[i]);
        lemma_entries_map_update(d, i, x);
        assert(e.last().0@ != x.0@);
        assert(entries_map(u) =~= entries_map(e).insert(x.0@, (x.1, x.2)));
    }
}

impl Registry {
    #[verifier::type_invariant]
    spec fn wf(self) -> bool {
        keys_distinct(self.by_url@)
    }

    /// A registry with no sources.
    pub fn empty() -> (r: Self)
        ensures
            r@ == Map::<Seq<char>, (BiasRating, FactualTier)>::empty(),
    {
        Registry { by_url: Vec::new() }
    }

    /// Number of registered (distinct, normalized) source URLs.
    pub fn len(&self) -> (r: usize)
        ensures
            r == self@.len(),
    {
        proof {
            use_type_invariant(self);
            lemma_entries_map_lookup(self.by_url@, Seq::empty());
        }
        self.by_url.len()
    }

    /// Whether no source is registered.
    pub fn is_empty(&self) -> (r: bool)
        ensures
            r == (self@.len() == 0),
    {
        proof {
            use_type_invariant(self);
            lemma_entries_map_lookup(self.by_url@, Seq::empty());
        }
        self.by_url.len() == 0
    }

    /// The rating registered for `url` (compared in normalized form), or
    /// (Unknown, Unknown) when it has none.
    pub fn lookup(&self, url: &str) -> (r: (BiasRating, FactualTier))
        ensures
            r == rating_of(self@, url@),
    {
        proof {
            use_type_invariant(self);
        }
        let key = normalize_for_lookup(url);
        proof {
            lemma_entries_map_lookup(self.by_url@, key@);
        }
        let mut i: usize = 0;
        while i < self.by_url.len()
            invariant
                i <= self.by_url@.len(),
                key@ == url_key(url@),
                keys_distinct(self.by_url@),
                forall|m: int| 0 <= m < i ==> (#[trigger] self.by_url@[m]).0@ != key@,
            decreases self.by_url@.len() - i,
        {
            if self.by_url[i].0 == key {
                proof {
                    lemma_entries_map_lookup(self.by_url@, key@);
                }
                return (self.by_url[i].1, self.by_url[i].2);
            }
            i = i + 1;
        }
        (BiasRating::Unknown, FactualTier::Unknown)
    }

    /// The registry of a list of source ratings: each rating is registered
    /// under its normalized URL, and a later rating for the same URL
    /// replaces an earlier one.
    pub fn from_sources(sources: Vec<SourceRating>) -> (r: Self)
        ensures
            r@ == ratings_map(sources@),
    {
        let ghost src = sources@;
        let mut by_url: Vec<(String, BiasRating, FactualTier)> = Vec::new();
        for s in it: sources
            invariant
                it.seq() == src,
                keys_distinct(by_url@),
                entries_map(by_url@) == ratings_map(src.take(it.index() as int)),
        {
            let ghost i = it.index() as int;
            assert(src.take(i + 1).drop_last() =~= src.take(i));
            assert(src.take(i + 1).last() == s);
            let key = normalize_for_lookup(s.url.as_str());
            let mut k: usize = 0;
            while k < by_url.len() && by_url[k].0 != key
                invariant
                    k <= by_url@.len(),
                    forall|m: int| 0 <= m < k ==> (#[trigger] by_url@[m]).0@ != key@,
                decreases by_url@.len() - k,
            {
                k = k + 1;
            }
            let ghost old_e = by_url@;
            if k < by_url.len() {
                proof {
                    lemma_entries_map_update(old_e, k as int, (key, s.bias, s.factual));
                }
                by_url.set(k, (key, s.bias, s.factual));
                assert(by_url@ =~= old_e.update(k as int, (key, s.bias, s.factual)));
            } else {
                by_url.push((key, s.bias, s.factual));
                assert(by_url@.drop_last() =~= old_e);
            }
        }
        assert(src.take(src.len() as int) =~= src);
        Registry { by_url }
    }
}

impl Clone for Registry {
    fn clone(&self) -> (r: Self)
        ensures
            r@ == self@,
    {
        proof {
            use_type_invariant(self);
        }
        let mut by_url: Vec<(String, BiasRating, FactualTier)> = Vec::new();
        for i in 0..self.by_url.len()
            invariant
                keys_distinct(self.by_url@),
                by_url@.len() == i,
                forall|k: int| 0 <= k < i ==> (#[trigger] by_url@[k]) == self.by_url@[k],
        {
            let e = &self.by_url[i];
            by_url.push((e.0.clone(), e.1, e.2));
        }
        assert(by_url@ =~= self.by_url@);
        Registry { by_url }
    }
}

impl Default for Registry {
    fn default() -> (r: Self)
        ensures
            r@ == Map::<Seq<char>, (BiasRating, FactualTier)>::empty(),
    {
        Registry::empty()
    }
}

/// The normalized form in which source URLs are registered and looked up.
fn normalize_for_lookup(u: &str) -> (r: String)
    ensures
        r@ == url_key(u@),
{
    canonical_url(u)
}

/// Looking a URL up after registering a list of sources gives the rating of
/// the last source whose URL normalizes to the same key.
pub proof fn law_lookup_gives_last_rating(sources: Seq<SourceRating>, j: int)
    requires
        0 <= j < sources.len(),
        forall|m: int| j < m < sources.len() ==> url_key(#[trigger] sources[m].url@) != url_key(sources[j].url@),
    ensures
        ratings_map(sources).contains_key(url_key(sources[j].url@)),
        ratings_map(sources)[url_key(sources[j].url@)] == (sources[j].bias, sources[j].factual),
    decreases sources.len(),
{
    if j < sources.len() - 1 {
        let d = sources.drop_last();
        assert forall|m: int| j < m < d.len() implies url_key(#[trigger] d[m].url@) != url_key(d[j].url@) by {
            assert(d[m] == sources[m]);
        }
        law_lookup_gives_last_rating(d, j);
        assert(sources.last() == sources[sources.len() - 1]);
    }
}

/// A URL that no source normalizes to is not registered, so it rates as
/// (Unknown, Unknown).
pub proof fn law_unlisted_url_is_unknown(sources: Seq<SourceRating>, key: Seq<char>)
    requires
        forall|m: int| 0 <= m < sources.len() ==> url_key(#[trigger] sources[m].url@) != key,
    ensures
        !ratings_map(sources).contains_key(key),
    decreases sources.len(),
{
    if sources.len() > 0 {
        let d = sources.drop_last();
        assert forall|m: int| 0 <= m < d.len() implies url_key(#[trigger] d[m].url@) != key by {
            assert(d[m] == sources[m]);
        }
        law_unlisted_url_is_unknown(d, key);
    }
}

/// Lookups normalize URLs exactly as deduplication does: the URLs of two
/// items that dedup counts as one article get the same rating from any
/// registry.
pub proof fn law_lookup_normalizes_like_dedup(
    reg: Map<Seq<char>, (BiasRating, FactualTier)>,
    a: NewsItem,
    b: NewsItem,
)
    requires
        same_key(a, b),
    ensures
        rating_of(reg, a.url@) == rating_of(reg, b.url@),
{
}

} // verus!
