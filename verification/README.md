# sacredvote-civic-news

Civic news aggregator sidecar for Sacred.Vote: fetches curated RSS/Atom
feeds, deduplicates by URL + title, ranks by recency and serves the result as
JSON on `127.0.0.1:3005`.

The library (`src/`) is written in Verus and verified:

- `text` — character predicates, trimming, whitespace collapsing, URL and
  title normal forms (tracking query parameters dropped), string order.
- `item` — the news item.
- `order` — the (URL, source) order, the recency order (by the instant an
  RFC 3339 timestamp denotes, read with `chrono`) and a stable insertion sort.
- `dedup_rank` — deduplication and recency ranking, with their laws.
- `fetcher` — title sanitizing, feed-entry extraction (the feed format is
  parsed by `feed-rs`, on the bytes it is known to return on), response-size
  budget.
- `registry` — per-source bias and factual ratings.
- `neutrality` — rating enums, labels and the exact neutrality score.
- `service` — settings, source-list parsing, cache freshness, merging feeds.

`app/` is the HTTP service around it (axum, reqwest, tokio, TOML loading,
floating-point score views).
