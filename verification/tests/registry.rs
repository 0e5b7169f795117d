use sacredvote_civic_news::registry::SourceRating;
use sacredvote_civic_news::{BiasRating, FactualTier, Registry};

fn rating(url: &str, bias: BiasRating, factual: FactualTier) -> SourceRating {
    SourceRating {
        url: url.to_string(),
        bias,
        factual,
    }
}

fn fixture() -> Registry {
    Registry::from_sources(vec![
        rating("https://example.com/rss", BiasRating::Center, FactualTier::High),
        rating(
            "https://another.example/atom",
            BiasRating::CenterRight,
            FactualTier::VeryHigh,
        ),
    ])
}

#[test]
fn empty_registry_is_empty() {
    let r = Registry::empty();
    assert_eq!(r.len(), 0);
    assert!(r.is_empty());
}

#[test]
fn empty_registry_returns_unknown() {
    let r = Registry::empty();
    assert_eq!(
        r.lookup("https://anything"),
        (BiasRating::Unknown, FactualTier::Unknown)
    );
}

#[test]
fn from_sources_registers_two_sources() {
    assert_eq!(fixture().len(), 2);
    assert!(!fixture().is_empty());
}

#[test]
fn from_sources_lookup_exact_match() {
    let r = fixture();
    assert_eq!(
        r.lookup("https://example.com/rss"),
        (BiasRating::Center, FactualTier::High)
    );
    assert_eq!(
        r.lookup("https://another.example/atom"),
        (BiasRating::CenterRight, FactualTier::VeryHigh)
    );
}

#[test]
fn from_sources_lookup_case_insensitive() {
    assert_eq!(
        fixture().lookup("https://EXAMPLE.com/RSS"),
        (BiasRating::Center, FactualTier::High)
    );
}

#[test]
fn from_sources_lookup_trailing_slash_normalized() {
    let r = Registry::from_sources(vec![rating(
        "https://example.com/rss/",
        BiasRating::Center,
        FactualTier::High,
    )]);
    assert_eq!(r.lookup("https://example.com/rss/").0, BiasRating::Center);
    assert_eq!(r.lookup("https://example.com/rss").0, BiasRating::Center);
}

#[test]
fn from_sources_lookup_fragment_stripped() {
    assert_eq!(
        fixture().lookup("https://example.com/rss#fragment"),
        (BiasRating::Center, FactualTier::High)
    );
}

#[test]
fn from_sources_lookup_unknown_url() {
    assert_eq!(
        fixture().lookup("https://nope.example/feed"),
        (BiasRating::Unknown, FactualTier::Unknown)
    );
}

#[test]
fn from_sources_later_rating_wins() {
    let r = Registry::from_sources(vec![
        rating("https://x.example/rss", BiasRating::Left, FactualTier::Low),
        rating("https://X.example/rss/", BiasRating::Right, FactualTier::High),
    ]);
    assert_eq!(r.len(), 1);
    assert_eq!(
        r.lookup("https://x.example/rss"),
        (BiasRating::Right, FactualTier::High)
    );
}

#[test]
fn from_sources_empty_yields_empty() {
    assert!(Registry::from_sources(Vec::new()).is_empty());
}

#[test]
fn registry_clone_and_default() {
    let r = fixture();
    let c = r.clone();
    assert_eq!(c.len(), 2);
    assert_eq!(c.lookup("https://example.com/rss").1, FactualTier::High);
    assert!(Registry::default().is_empty());
}

#[test]
fn lookup_ignores_tracking_parameters() {
    let r = fixture();
    assert_eq!(
        r.lookup("https://example.com/rss?utm_source=newsletter&utm_medium=email"),
        (BiasRating::Center, FactualTier::High)
    );
    assert_eq!(
        r.lookup("https://example.com/rss?fbclid=abc"),
        (BiasRating::Center, FactualTier::High)
    );
    assert_eq!(
        r.lookup("https://example.com/rss?page=2"),
        (BiasRating::Unknown, FactualTier::Unknown)
    );
}
