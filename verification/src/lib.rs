//! Civic news aggregation: text normalization, deduplication and recency
//! ranking of feed items, feed-entry extraction, per-source ratings and the
//! neutrality score.

pub mod dedup_rank;
pub mod fetcher;
pub mod item;
pub mod neutrality;
pub mod order;
pub mod registry;
pub mod service;
pub mod text;

pub use dedup_rank::{dedup, dedup_and_rank, rank_by_recency};
pub use fetcher::{
    parse_bytes, sanitize_text, FETCH_TIMEOUT_SECS, MAX_ITEMS_PER_FEED, MAX_RESPONSE_BYTES,
};
pub use item::NewsItem;
pub use neutrality::{format_bias_label, format_factual_label, BiasRating, FactualTier};
pub use registry::Registry;
pub use service::{
    unix_timestamp, CacheEntry, CACHE_TTL_SECS, DEFAULT_BIND, MAX_AGGREGATED_ITEMS,
    REQUEST_BODY_LIMIT_BYTES, REQUEST_TIMEOUT_SECS, SERVICE_NAME,
};
