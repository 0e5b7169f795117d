use sacredvote_civic_news::{dedup, dedup_and_rank, rank_by_recency, NewsItem};
use sacredvote_civic_news::order::keyed_precedes;
use sacredvote_civic_news::text::canonical_url;

fn item(source: &str, title: &str, url: &str, published: Option<&str>) -> NewsItem {
    NewsItem {
        source: source.to_string(),
        title: title.to_string(),
        url: url.to_string(),
        published_iso: published.map(|s| s.to_string()),
        bias: None,
        factual: None,
        neutrality_score: None,
        bias_label: None,
        factual_label: None,
    }
}

#[test]
fn dedup_collapses_identical_url_title() {
    let items = vec![
        item(
            "https://feed-a.com/rss",
            "Headline",
            "https://news.com/article-1",
            Some("2026-05-17T10:00:00Z"),
        ),
        item(
            "https://feed-b.com/rss",
            "Headline",
            "https://news.com/article-1",
            Some("2026-05-17T10:00:00Z"),
        ),
    ];
    let out = dedup(items);
    assert_eq!(out.len(), 1);
    assert_eq!(out[0].source, "https://feed-a.com/rss");
}

#[test]
fn dedup_treats_trailing_slash_as_same() {
    let items = vec![
        item("https://f.com", "T", "https://news.com/post/", None),
        item("https://g.com", "T", "https://news.com/post", None),
    ];
    let out = dedup(items);
    assert_eq!(out.len(), 1);
}

#[test]
fn dedup_treats_fragment_as_same() {
    let items = vec![
        item("https://f.com", "T", "https://news.com/post#section-1", None),
        item("https://g.com", "T", "https://news.com/post", None),
    ];
    let out = dedup(items);
    assert_eq!(out.len(), 1);
}

#[test]
fn dedup_case_insensitive_url() {
    let items = vec![
        item("https://f.com", "T", "https://NEWS.com/post", None),
        item("https://g.com", "T", "https://news.com/post", None),
    ];
    let out = dedup(items);
    assert_eq!(out.len(), 1);
}

#[test]
fn dedup_keeps_distinct_articles() {
    let items = vec![
        item("https://f.com", "A", "https://news.com/a", None),
        item("https://f.com", "B", "https://news.com/b", None),
    ];
    let out = dedup(items);
    assert_eq!(out.len(), 2);
}

#[test]
fn rank_by_recency_descending() {
    let items = vec![
        item("s", "Old", "https://x/old", Some("2026-01-01T00:00:00Z")),
        item("s", "New", "https://x/new", Some("2026-05-17T00:00:00Z")),
        item("s", "Mid", "https://x/mid", Some("2026-03-01T00:00:00Z")),
    ];
    let out = rank_by_recency(items);
    assert_eq!(out[0].title, "New");
    assert_eq!(out[1].title, "Mid");
    assert_eq!(out[2].title, "Old");
}

#[test]
fn rank_no_date_sorts_to_end() {
    let items = vec![
        item("s", "Dated", "https://x/d", Some("2026-05-17T00:00:00Z")),
        item("s", "Undated", "https://x/u", None),
    ];
    let out = rank_by_recency(items);
    assert_eq!(out[0].title, "Dated");
    assert_eq!(out[1].title, "Undated");
}

#[test]
fn rank_two_undated_stable_by_title() {
    let items = vec![
        item("s", "Zebra", "https://x/z", None),
        item("s", "Apple", "https://x/a", None),
    ];
    let out = rank_by_recency(items);
    assert_eq!(out[0].title, "Apple");
    assert_eq!(out[1].title, "Zebra");
}

#[test]
fn dedup_is_deterministic_across_runs() {
    let items = vec![
        item("https://a.com", "X", "https://n.com/p", None),
        item("https://b.com", "X", "https://n.com/p", None),
        item("https://c.com", "X", "https://n.com/p", None),
    ];
    let r1 = dedup(items.clone());
    let r2 = dedup(items);
    assert_eq!(r1.len(), r2.len());
    assert_eq!(r1[0].source, r2[0].source);
}

#[test]
fn dedup_and_rank_end_to_end() {
    let items = vec![
        item(
            "https://a.com",
            "Headline A",
            "https://news.com/a",
            Some("2026-05-17T10:00:00Z"),
        ),
        item(
            "https://b.com",
            "Headline A",
            "https://news.com/a",
            Some("2026-05-17T10:00:00Z"),
        ),
        item(
            "https://a.com",
            "Older Story",
            "https://news.com/old",
            Some("2026-01-01T00:00:00Z"),
        ),
    ];
    let out = dedup_and_rank(items);
    assert_eq!(out.len(), 2);
    assert_eq!(out[0].title, "Headline A");
    assert_eq!(out[1].title, "Older Story");
}

#[test]
fn dedup_handles_empty_input() {
    let out = dedup(Vec::new());
    assert!(out.is_empty());
}

#[test]
fn rank_handles_empty_input() {
    let out = rank_by_recency(Vec::new());
    assert!(out.is_empty());
}

#[test]
fn normalize_title_collapses_whitespace_and_case() {
    let items = vec![
        item("https://a.com", "Hello   World", "https://n.com/x", None),
        item("https://b.com", "hello world", "https://n.com/x", None),
        item("https://c.com", "HELLO\tWORLD", "https://n.com/x", None),
    ];
    let out = dedup(items);
    assert_eq!(out.len(), 1);
}

#[test]
fn dedup_keeps_smallest_source_whatever_the_input_order() {
    let items = vec![
        item("https://c.com", "X", "https://n.com/p", None),
        item("https://a.com", "X", "https://n.com/p", None),
        item("https://b.com", "X", "https://n.com/p", None),
    ];
    let out = dedup(items);
    assert_eq!(out.len(), 1);
    assert_eq!(out[0].source, "https://a.com");
}

#[test]
fn dedup_equal_sources_keeps_first() {
    let items = vec![
        item("https://a.com", "X", "https://n.com/p", Some("first")),
        item("https://a.com", "x", "https://N.com/p/", Some("second")),
    ];
    let out = dedup(items);
    assert_eq!(out.len(), 1);
    assert_eq!(out[0].published_iso.as_deref(), Some("first"));
}

#[test]
fn dedup_lists_by_url_then_source() {
    let items = vec![
        item("https://z.com", "Z", "https://n.com/z", None),
        item("https://b.com", "A2", "https://n.com/a", None),
        item("https://a.com", "A1", "https://n.com/a", None),
    ];
    let out = dedup(items);
    let order: Vec<(&str, &str)> = out
        .iter()
        .map(|i| (i.url.as_str(), i.source.as_str()))
        .collect();
    assert_eq!(
        order,
        vec![
            ("https://n.com/a", "https://a.com"),
            ("https://n.com/a", "https://b.com"),
            ("https://n.com/z", "https://z.com"),
        ]
    );
}

#[test]
fn dedup_slash_only_stripped_with_path() {
    // "https://n.com/" has three slashes: its trailing slash is kept, so it
    // differs from "https://n.com".
    let items = vec![
        item("https://a.com", "T", "https://n.com/", None),
        item("https://a.com", "T", "https://n.com", None),
    ];
    let out = dedup(items);
    assert_eq!(out.len(), 2);
}

#[test]
fn dedup_twice_keeps_everything() {
    let items = vec![
        item("https://b.com", "X", "https://n.com/p", None),
        item("https://a.com", "X", "https://n.com/p", None),
        item("https://a.com", "Y", "https://n.com/q", None),
    ];
    let once = dedup(items);
    let titles_once: Vec<String> = once.iter().map(|i| i.source.clone() + &i.title).collect();
    let twice = dedup(once);
    let titles_twice: Vec<String> = twice.iter().map(|i| i.source.clone() + &i.title).collect();
    assert_eq!(titles_once, titles_twice);
}

#[test]
fn rank_is_idempotent_on_example() {
    let items = vec![
        item("s", "B", "https://x/b", None),
        item("s", "Dated", "https://x/d", Some("2026-02-01T00:00:00Z")),
        item("s", "A", "https://x/a", None),
        item("s", "Tie 1", "https://x/t1", Some("2026-03-01T00:00:00Z")),
        item("s", "Tie 2", "https://x/t2", Some("2026-03-01T00:00:00Z")),
    ];
    let once = rank_by_recency(items);
    let t1: Vec<String> = once.iter().map(|i| i.title.clone()).collect();
    assert_eq!(t1, vec!["Tie 1", "Tie 2", "Dated", "A", "B"]);
    let twice = rank_by_recency(once);
    let t2: Vec<String> = twice.iter().map(|i| i.title.clone()).collect();
    assert_eq!(t1, t2);
}

#[test]
fn rank_empty_timestamp_counts_as_undated() {
    let items = vec![
        item("s", "Empty stamp", "https://x/e", Some("")),
        item("s", "Dated", "https://x/d", Some("2020-01-01T00:00:00Z")),
    ];
    let out = rank_by_recency(items);
    assert_eq!(out[0].title, "Dated");
    assert_eq!(out[1].title, "Empty stamp");
}

#[test]
fn rank_unparseable_stamp_sorts_after_dated() {
    let items = vec![
        item("s", "X", "https://x/x", Some("not-a-date")),
        item("s", "Y", "https://x/y", Some("2026-05-17T00:00:00Z")),
    ];
    let out = rank_by_recency(items);
    assert_eq!(out[0].title, "Y");
    assert_eq!(out[1].title, "X");
}

#[test]
fn rank_unparseable_stamps_go_by_title() {
    let items = vec![
        item("s", "Zeta", "https://x/z", Some("yesterday")),
        item("s", "Alpha", "https://x/a", None),
        item("s", "Dated", "https://x/d", Some("2026-01-01T00:00:00Z")),
    ];
    let out = rank_by_recency(items);
    let titles: Vec<String> = out.iter().map(|i| i.title.clone()).collect();
    assert_eq!(titles, vec!["Dated", "Alpha", "Zeta"]);
}

#[test]
fn rank_compares_instants_across_offsets() {
    // 10:00+02:00 is 08:00Z, earlier than 09:00Z, although its text sorts later.
    let items = vec![
        item("s", "Plus two", "https://x/p", Some("2026-05-17T10:00:00+02:00")),
        item("s", "Zulu", "https://x/z", Some("2026-05-17T09:00:00Z")),
    ];
    let out = rank_by_recency(items);
    assert_eq!(out[0].title, "Zulu");
    assert_eq!(out[1].title, "Plus two");
}

#[test]
fn rank_same_instant_keeps_input_order() {
    let items = vec![
        item("s", "B", "https://x/b", Some("2026-05-17T10:00:00+02:00")),
        item("s", "A", "https://x/a", Some("2026-05-17T08:00:00Z")),
    ];
    let out = rank_by_recency(items);
    assert_eq!(out[0].title, "B");
    assert_eq!(out[1].title, "A");
}

#[test]
fn rank_uses_fractional_seconds() {
    let items = vec![
        item("s", "Early", "https://x/e", Some("2026-05-17T08:00:00.250Z")),
        item("s", "Late", "https://x/l", Some("2026-05-17T08:00:00.750Z")),
    ];
    let out = rank_by_recency(items);
    assert_eq!(out[0].title, "Late");
    assert_eq!(out[1].title, "Early");
}

#[test]
fn keyed_precedes_orders_instants_then_titles() {
    assert!(keyed_precedes(Some((200, 0)), "b", Some((100, 0)), "a"));
    assert!(!keyed_precedes(Some((100, 0)), "a", Some((200, 0)), "b"));
    assert!(keyed_precedes(Some((100, 5)), "a", Some((100, 4)), "b"));
    assert!(!keyed_precedes(Some((100, 4)), "a", Some((100, 4)), "b"));
    assert!(keyed_precedes(Some((0, 0)), "z", None, "a"));
    assert!(!keyed_precedes(None, "a", Some((0, 0)), "z"));
    assert!(keyed_precedes(None, "Apple", None, "Zebra"));
    assert!(!keyed_precedes(None, "Zebra", None, "Apple"));
}

#[test]
fn dedup_ignores_tracking_parameters() {
    let items = vec![
        item("https://f.com", "T", "https://news.com/a?utm_source=rss&utm_medium=feed", None),
        item("https://g.com", "T", "https://news.com/a", None),
    ];
    let out = dedup(items);
    assert_eq!(out.len(), 1);
    assert_eq!(out[0].source, "https://f.com");
}

#[test]
fn dedup_keeps_other_query_parameters() {
    let items = vec![
        item("https://f.com", "T", "https://news.com/a?id=1&UTM_Campaign=x", None),
        item("https://g.com", "T", "https://news.com/a?id=2", None),
        item("https://h.com", "T", "https://news.com/a?id=1", None),
    ];
    let out = dedup(items);
    assert_eq!(out.len(), 2);
}

#[test]
fn normalize_url_strips_tracking_parameters() {
    assert_eq!(
        canonical_url("https://news.com/a?utm_source=rss&utm_medium=feed"),
        "https://news.com/a"
    );
    assert_eq!(canonical_url("https://news.com/a/?utm_source=rss"), "https://news.com/a");
    assert_eq!(
        canonical_url("https://News.com/a?id=5&fbclid=xyz&page=2#top"),
        "https://news.com/a?id=5&page=2"
    );
    assert_eq!(canonical_url("https://news.com/a?gclid"), "https://news.com/a");
    assert_eq!(canonical_url("https://news.com/a?gclidx=1"), "https://news.com/a?gclidx=1");
    assert_eq!(canonical_url("https://news.com/a?"), "https://news.com/a?");
    assert_eq!(canonical_url("  https://news.com/post/  "), "https://news.com/post");
}
