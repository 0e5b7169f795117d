use sacredvote_civic_news::service::{
    cached_items_at_age, fresh_cached_items, has_https_scheme, is_fresh, merge_feed_results, parse_source_list,
};
use sacredvote_civic_news::{
    unix_timestamp, NewsItem, CACHE_TTL_SECS, DEFAULT_BIND, MAX_AGGREGATED_ITEMS,
    REQUEST_BODY_LIMIT_BYTES, REQUEST_TIMEOUT_SECS, SERVICE_NAME,
};

fn item(source: &str, title: &str, url: &str, published: Option<&str>) -> NewsItem {
    NewsItem {
        source: source.to_string(),
        title: title.to_string(),
        url: url.to_string(),
        published_iso: published.map(|s| s.to_string()),
        bias: None,
        factual: None,
        neutrality_score: None,
        bias_label: None,
        factual_label: None,
    }
}

#[test]
fn service_name_constant() {
    assert_eq!(SERVICE_NAME, "sacredvote-civic-news");
}

#[test]
fn default_bind_is_localhost() {
    assert!(DEFAULT_BIND.starts_with("127.0.0.1:"));
}

#[test]
fn default_bind_is_port_3005() {
    assert!(DEFAULT_BIND.ends_with(":3005"));
}

#[test]
fn unix_timestamp_is_recent_and_finite() {
    let t = unix_timestamp();
    assert!(t > 1_577_836_800, "timestamp too old: {}", t);
    assert!(t < 4_102_444_800, "timestamp too new: {}", t);
}

#[test]
fn request_body_limit_is_tiny() {
    assert!(REQUEST_BODY_LIMIT_BYTES <= 4096);
}

#[test]
fn timeout_is_bounded() {
    assert!(REQUEST_TIMEOUT_SECS <= 30);
}

#[test]
fn parse_source_list_https_only() {
    let result = parse_source_list("https://example.com/rss,http://insecure.com/rss,not-a-url");
    assert_eq!(result.len(), 1);
    assert_eq!(result[0], "https://example.com/rss");
}

#[test]
fn parse_source_list_trims_whitespace() {
    let sources = parse_source_list("  https://a.example/rss  ,  https://b.example/rss  ");
    assert_eq!(sources.len(), 2);
    assert_eq!(sources[0], "https://a.example/rss");
    assert_eq!(sources[1], "https://b.example/rss");
}

#[test]
fn parse_source_list_empty_and_blank_entries() {
    assert!(parse_source_list("").is_empty());
    assert_eq!(parse_source_list(",, ,https://x.example/,").len(), 1);
}

#[test]
fn has_https_scheme_checks_prefix() {
    assert!(has_https_scheme("https://example.com/rss"));
    assert!(!has_https_scheme("http://example.com/rss"));
    assert!(!has_https_scheme(" https://example.com/rss"));
}

#[test]
fn cache_freshness_boundary() {
    assert!(is_fresh(0));
    assert!(is_fresh(CACHE_TTL_SECS - 1));
    assert!(!is_fresh(CACHE_TTL_SECS));
}

#[test]
fn no_cache_means_no_cached_items() {
    assert!(fresh_cached_items(&None).is_none());
}

#[test]
fn fresh_cache_entry_is_served() {
    let entry = sacredvote_civic_news::CacheEntry {
        items: vec![item("s", "T", "https://x/t", None)],
        fetched_at: std::time::Instant::now(),
    };
    let got = fresh_cached_items(&Some(entry)).unwrap();
    assert_eq!(got.len(), 1);
    assert_eq!(got[0].title, "T");
}

#[test]
fn merge_feed_results_dedups_ranks_and_caps() {
    let mut feed_a = Vec::new();
    for i in 0..150 {
        feed_a.push(item(
            "https://a.com",
            &format!("Story {i:03}"),
            &format!("https://n.com/{i}"),
            Some(&format!("2026-01-01T00:00:{:02}Z", i % 60)),
        ));
    }
    let mut feed_b = Vec::new();
    for i in 100..250 {
        feed_b.push(item(
            "https://b.com",
            &format!("Story {i:03}"),
            &format!("https://n.com/{i}"),
            None,
        ));
    }
    let out = merge_feed_results(vec![feed_a, feed_b]);
    assert_eq!(out.len(), MAX_AGGREGATED_ITEMS);
    // Shared stories keep the smaller source.
    assert!(out.iter().filter(|i| i.title == "Story 120").all(|i| i.source == "https://a.com"));
    // Dated first.
    assert!(out[0].published_iso.is_some());
    assert!(out[149].published_iso.is_some());
    assert!(out[150].published_iso.is_none());
}

#[test]
fn cached_items_served_while_younger_than_ttl() {
    let cache = Some(sacredvote_civic_news::CacheEntry {
        items: vec![item("s", "T", "https://x/t", None)],
        fetched_at: std::time::Instant::now(),
    });
    let got = cached_items_at_age(&cache, CACHE_TTL_SECS - 1).unwrap();
    assert_eq!(got.len(), 1);
    assert_eq!(got[0].title, "T");
    assert!(cached_items_at_age(&cache, 0).is_some());
    assert!(cached_items_at_age(&cache, CACHE_TTL_SECS).is_none());
    assert!(cached_items_at_age(&cache, CACHE_TTL_SECS + 3600).is_none());
    assert!(cached_items_at_age(&None, 0).is_none());
}
