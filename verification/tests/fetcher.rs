use sacredvote_civic_news::fetcher::{accept_chunk, is_supported_feed, FeedError};
use sacredvote_civic_news::{parse_bytes, sanitize_text, MAX_ITEMS_PER_FEED};

#[test]
fn sanitize_text_strips_control_chars() {
    let raw = "hello\x00\x01world\x07!";
    let clean = sanitize_text(raw);
    assert_eq!(clean, "helloworld!");
}

#[test]
fn sanitize_text_collapses_whitespace() {
    let raw = "hello\n\n   world   foo   ";
    let clean = sanitize_text(raw);
    assert_eq!(clean, "hello world foo");
}

#[test]
fn sanitize_text_caps_at_300_chars() {
    let raw = "x".repeat(500);
    let clean = sanitize_text(&raw);
    assert_eq!(clean.chars().count(), 300);
}

#[test]
fn sanitize_text_preserves_unicode() {
    let raw = "Hola — bienvenido";
    let clean = sanitize_text(raw);
    assert_eq!(clean, "Hola — bienvenido");
}

#[test]
fn sanitize_text_carriage_return_is_removed_not_spaced() {
    assert_eq!(sanitize_text("a\rb\tc\u{3000}d"), "ab c d");
}

#[test]
fn sanitize_text_cap_counts_characters_not_bytes() {
    let raw = "é".repeat(400);
    let clean = sanitize_text(&raw);
    assert_eq!(clean.chars().count(), 300);
    assert_eq!(clean, "é".repeat(300));
}

#[test]
fn parse_bytes_handles_minimal_rss() {
    let rss = br#"<?xml version="1.0" encoding="UTF-8"?>
<rss version="2.0">
  <channel>
    <title>Test Feed</title>
    <link>https://example.com/</link>
    <description>Test</description>
    <item>
      <title>Headline One</title>
      <link>https://example.com/post-1</link>
      <pubDate>Wed, 17 May 2026 12:00:00 +0000</pubDate>
    </item>
    <item>
      <title>Headline Two</title>
      <link>https://example.com/post-2</link>
      <pubDate>Tue, 16 May 2026 09:00:00 +0000</pubDate>
    </item>
  </channel>
</rss>"#;
    let items = parse_bytes(rss, "https://example.com/feed").unwrap();
    assert_eq!(items.len(), 2);
    assert_eq!(items[0].title, "Headline One");
    assert_eq!(items[0].url, "https://example.com/post-1");
    assert!(items[0].published_iso.is_some());
    assert_eq!(items[0].source, "https://example.com/feed");
}

#[test]
fn parse_bytes_drops_entries_without_title_or_link() {
    let rss = br#"<?xml version="1.0" encoding="UTF-8"?>
<rss version="2.0">
  <channel>
    <title>Test</title>
    <link>https://example.com/</link>
    <description>Test</description>
    <item><title>Has title but no link</title></item>
    <item><link>https://example.com/no-title</link></item>
    <item><title>Good</title><link>https://example.com/ok</link></item>
  </channel>
</rss>"#;
    let items = parse_bytes(rss, "https://example.com/feed").unwrap();
    assert_eq!(items.len(), 1);
    assert_eq!(items[0].title, "Good");
}

#[test]
fn parse_bytes_rejects_non_http_links() {
    let rss = br#"<?xml version="1.0" encoding="UTF-8"?>
<rss version="2.0">
  <channel>
    <title>Test</title>
    <link>https://example.com/</link>
    <description>Test</description>
    <item><title>JS Trap</title><link>javascript:alert(1)</link></item>
    <item><title>Mailto</title><link>mailto:bad@example.com</link></item>
    <item><title>Good</title><link>https://example.com/ok</link></item>
  </channel>
</rss>"#;
    let items = parse_bytes(rss, "https://example.com/feed").unwrap();
    assert_eq!(items.len(), 1);
    assert_eq!(items[0].title, "Good");
}

#[test]
fn parse_bytes_caps_at_max_items() {
    let mut rss = String::from(
        r#"<?xml version="1.0" encoding="UTF-8"?>
<rss version="2.0"><channel><title>T</title><link>https://e.com/</link><description>T</description>"#,
    );
    for i in 0..(MAX_ITEMS_PER_FEED + 50) {
        rss.push_str(&format!(
            r#"<item><title>Item {i}</title><link>https://e.com/{i}</link></item>"#
        ));
    }
    rss.push_str("</channel></rss>");
    let items = parse_bytes(rss.as_bytes(), "https://e.com/feed").unwrap();
    assert_eq!(items.len(), MAX_ITEMS_PER_FEED);
}

#[test]
fn parse_bytes_atom_feed() {
    let atom = br#"<?xml version="1.0" encoding="utf-8"?>
<feed xmlns="http://www.w3.org/2005/Atom">
  <title>Test Atom</title>
  <id>https://example.com/atom</id>
  <updated>2026-05-17T12:00:00Z</updated>
  <entry>
    <title>Atom Headline</title>
    <id>https://example.com/atom-1</id>
    <updated>2026-05-17T12:00:00Z</updated>
    <link href="https://example.com/atom-1" />
  </entry>
</feed>"#;
    let items = parse_bytes(atom, "https://example.com/atom").unwrap();
    assert_eq!(items.len(), 1);
    assert_eq!(items[0].title, "Atom Headline");
}

#[test]
fn parse_bytes_malformed_returns_err() {
    let r = parse_bytes(b"not a feed", "https://x");
    assert!(r.is_err());
}

#[test]
fn parse_bytes_error_is_unparseable() {
    let r = parse_bytes(b"not a feed", "https://x");
    assert_eq!(r.unwrap_err(), FeedError::Unparseable);
}

#[test]
fn parse_bytes_atom_prefers_alternate_link_and_sanitizes_title() {
    let atom = br#"<?xml version="1.0" encoding="utf-8"?>
<feed xmlns="http://www.w3.org/2005/Atom">
  <title>T</title>
  <id>https://example.com/atom</id>
  <updated>2026-05-17T12:00:00Z</updated>
  <entry>
    <title>  Spaced    out   title </title>
    <id>https://example.com/e</id>
    <updated>2026-05-17T12:00:00Z</updated>
    <link rel="self" href="https://example.com/self" />
    <link rel="alternate" href="https://example.com/article" />
  </entry>
</feed>"#;
    let items = parse_bytes(atom, "https://example.com/atom").unwrap();
    assert_eq!(items.len(), 1);
    assert_eq!(items[0].title, "Spaced out title");
    assert_eq!(items[0].url, "https://example.com/article");
    assert_eq!(items[0].published_iso.as_deref(), Some("2026-05-17T12:00:00+00:00"));
}

#[test]
fn accept_chunk_within_and_over_cap() {
    assert_eq!(accept_chunk(10, 5, 20), Some(15));
    assert_eq!(accept_chunk(10, 10, 20), Some(20));
    assert_eq!(accept_chunk(10, 11, 20), None);
    assert_eq!(accept_chunk(u64::MAX, 1, u64::MAX), None);
}

#[test]
fn sanitize_text_is_idempotent_on_short_text() {
    let raw = "  A\x07 title \t with\n\n gaps  ";
    let once = sanitize_text(raw);
    assert_eq!(once, "A title with gaps");
    assert_eq!(sanitize_text(&once), once);
}

#[test]
fn sanitize_text_cut_can_leave_trailing_space() {
    let raw = format!("{} yz", "x".repeat(299));
    let once = sanitize_text(&raw);
    assert_eq!(once.chars().count(), 300);
    assert!(once.ends_with(' '));
    assert_eq!(sanitize_text(&once), "x".repeat(299));
}

const PLAIN_RSS: &[u8] = br#"<?xml version="1.0" encoding="UTF-8"?>
<rss version="2.0"><channel><title>T</title>
<item><title>A</title><link>https://e.com/a</link></item>
</channel></rss>"#;

#[test]
fn plain_rss_is_supported() {
    assert!(is_supported_feed(PLAIN_RSS));
    assert!(is_supported_feed(b""));
    assert!(is_supported_feed(b"not a feed"));
}

#[test]
fn nul_or_escape_bytes_are_not_supported() {
    assert!(!is_supported_feed(b"<\x00r\x00s\x00s\x00>"));
    assert!(!is_supported_feed(b"<rss>\x1b(J</rss>"));
}

#[test]
fn itunes_duration_overflow_is_not_supported() {
    let feed = br#"<rss xmlns:itunes="http://www.itunes.com/dtds/podcast-1.0.dtd"><channel>
<item><title>E</title><link>https://e.com/1</link><itunes:duration>99999999999999999999999</itunes:duration></item>
</channel></rss>"#;
    assert!(!is_supported_feed(feed));
    // Non-ASCII text (Arabic-Indic digits) and character references are left out too.
    let arabic = "<rss xmlns:itunes=\"http://www.itunes.com/dtds/podcast-1.0.dtd\"><channel><item><itunes:duration>\u{661}\u{662}</itunes:duration></item></channel></rss>";
    assert!(!is_supported_feed(arabic.as_bytes()));
    let reference = br#"<rss xmlns:itunes="http://www.itunes.com/dtds/podcast-1.0.dtd"><channel><item><itunes:duration>&#x661;</itunes:duration></item></channel></rss>"#;
    assert!(!is_supported_feed(reference));
    // Text that may run on past a comment or CDATA section is left out.
    let cdata = br#"<rss xmlns:itunes="http://www.itunes.com/dtds/podcast-1.0.dtd"><channel><item><itunes:duration><![CDATA[30:00]]></itunes:duration></item></channel></rss>"#;
    assert!(!is_supported_feed(cdata));
    // The same feed without the namespace binding never reaches the duration reader.
    let unbound = br#"<rss><channel><item><title>E</title><link>https://e.com/1</link><itunes:duration>99999999999999999999999</itunes:duration></item></channel></rss>"#;
    assert!(is_supported_feed(unbound));
}

#[test]
fn podcast_feed_with_durations_is_supported() {
    let feed = br#"<?xml version="1.0" encoding="UTF-8"?>
<rss version="2.0" xmlns:itunes="http://www.itunes.com/dtds/podcast-1.0.dtd"><channel>
<title>P</title><link>https://e.com/</link><description>D</description>
<item><title>Episode 1</title><link>https://e.com/1</link><itunes:duration>30:00</itunes:duration>
<itunes:author>A "quoted" host</itunes:author></item>
<item><title>Episode 2</title><link>https://e.com/2</link><itunes:duration>3600</itunes:duration></item>
<item><title>Episode 3</title><link>https://e.com/3</link><itunes:duration>123456789012345</itunes:duration></item>
</channel></rss>"#;
    assert!(is_supported_feed(feed));
    let items = parse_bytes(feed, "https://e.com/feed").unwrap();
    assert_eq!(items.len(), 3);
    assert_eq!(items[0].title, "Episode 1");
    // Sixteen digits could overflow the hour arithmetic, so they are left out.
    let long = br#"<rss xmlns:itunes="http://www.itunes.com/dtds/podcast-1.0.dtd"><channel><item><itunes:duration>1234567890123456</itunes:duration></item></channel></rss>"#;
    assert!(!is_supported_feed(long));
}

#[test]
fn media_rss_time_attributes_are_checked() {
    let bad = br#"<rss xmlns:media="http://search.yahoo.com/mrss/"><channel><item><title>E</title>
<media:thumbnail url="https://e.com/t.jpg" time = "99999999999999999999:05:35"/></item></channel></rss>"#;
    assert!(!is_supported_feed(bad));
    let escaped = br#"<rss xmlns:media="http://search.yahoo.com/mrss/"><channel><item>
<media:text start='&#x661;'>x</media:text></item></channel></rss>"#;
    assert!(!is_supported_feed(escaped));
    let unclosed = br#"<rss xmlns:media="http://search.yahoo.com/mrss/"><channel><item>
<media:text end="1"#;
    assert!(!is_supported_feed(unclosed));
    let good = br#"<?xml version="1.0" encoding="UTF-8"?>
<rss version="2.0" xmlns:media="http://search.yahoo.com/mrss/"><channel><title>T</title>
<link>https://e.com/</link><description>&lt;time datetime=&quot;2026-05-17&quot;&gt;x&lt;/time&gt;</description>
<item><title>E</title><link>https://e.com/1</link>
<media:thumbnail url="https://e.com/t.jpg" time="12:05:35.5"/>
<media:text start="00:00:01" end="00:00:09">x</media:text>
<media:content url="https://e.com/i.jpg" medium="image"/></item></channel></rss>"#;
    assert!(is_supported_feed(good));
    let items = parse_bytes(good, "https://e.com/feed").unwrap();
    assert_eq!(items.len(), 1);
}
