use sacredvote_civic_news::neutrality::{
    bias_distance_thirds, bias_thirds, factual_weight_tenths, neutrality_points,
    BIAS_WEIGHT_PERCENT, FACTUAL_WEIGHT_PERCENT,
};
use sacredvote_civic_news::{format_bias_label, format_factual_label, BiasRating, FactualTier};

const ALL_BIAS: [BiasRating; 9] = [
    BiasRating::LeftExtreme,
    BiasRating::Left,
    BiasRating::CenterLeft,
    BiasRating::Center,
    BiasRating::CenterRight,
    BiasRating::Right,
    BiasRating::RightExtreme,
    BiasRating::Mixed,
    BiasRating::Unknown,
];

const ALL_TIERS: [FactualTier; 5] = [
    FactualTier::VeryHigh,
    FactualTier::High,
    FactualTier::Mixed,
    FactualTier::Low,
    FactualTier::Unknown,
];

#[test]
fn formula_constants_locked() {
    let bias_weight = BIAS_WEIGHT_PERCENT as f64 / 100.0;
    let factual_weight = FACTUAL_WEIGHT_PERCENT as f64 / 100.0;
    assert_eq!(bias_weight, 0.6);
    assert_eq!(factual_weight, 0.4);
    assert_eq!(bias_weight + factual_weight, 1.0);
}

#[test]
fn format_bias_label_ascii_only() {
    for rating in ALL_BIAS {
        let label = format_bias_label(rating);
        assert!(!label.is_empty());
        assert!(label.is_ascii(), "label={}", label);
    }
}

#[test]
fn format_factual_label_ascii_only() {
    for tier in ALL_TIERS {
        let label = format_factual_label(tier);
        assert!(!label.is_empty());
        assert!(label.is_ascii(), "label={}", label);
    }
}

#[test]
fn format_bias_label_specific_strings() {
    assert_eq!(format_bias_label(BiasRating::LeftExtreme), "Left (Strong)");
    assert_eq!(format_bias_label(BiasRating::Center), "Center");
    assert_eq!(format_bias_label(BiasRating::RightExtreme), "Right (Strong)");
    assert_eq!(format_bias_label(BiasRating::Mixed), "Mixed");
}

#[test]
fn format_factual_label_specific_strings() {
    assert_eq!(format_factual_label(FactualTier::VeryHigh), "Very High");
    assert_eq!(format_factual_label(FactualTier::Unknown), "Unknown");
}

// Floating-point readings of the library's exact scale, as the service
// exposes them.
fn bias_rating_to_score(rating: BiasRating) -> f64 {
    bias_thirds(rating).map(|k| k as f64 / 3.0).unwrap_or(f64::NAN)
}

fn bias_distance(rating: BiasRating) -> f64 {
    bias_distance_thirds(rating).map(|d| d as f64 / 3.0).unwrap_or(f64::NAN)
}

fn factual_tier_weight(tier: FactualTier) -> f64 {
    factual_weight_tenths(tier) as f64 / 10.0
}

fn compute_neutrality_score(bias: BiasRating, factual: FactualTier) -> f64 {
    neutrality_points(bias, factual).map(|p| p as f64).unwrap_or(f64::NAN)
}

#[test]
fn bias_rating_to_score_known_anchors() {
    assert_eq!(bias_rating_to_score(BiasRating::LeftExtreme), -1.0);
    assert_eq!(bias_rating_to_score(BiasRating::Center), 0.0);
    assert_eq!(bias_rating_to_score(BiasRating::RightExtreme), 1.0);
}

#[test]
fn bias_rating_to_score_mid_tiers_thirds() {
    let l = bias_rating_to_score(BiasRating::Left);
    let r = bias_rating_to_score(BiasRating::Right);
    assert!((l - -2.0 / 3.0).abs() < 1e-9);
    assert!((r - 2.0 / 3.0).abs() < 1e-9);
    assert!((l + r).abs() < 1e-9);
}

#[test]
fn bias_rating_to_score_nan_for_mixed_and_unknown() {
    assert!(bias_rating_to_score(BiasRating::Mixed).is_nan());
    assert!(bias_rating_to_score(BiasRating::Unknown).is_nan());
}

#[test]
fn bias_distance_is_abs() {
    for rating in &ALL_BIAS[..7] {
        let d = bias_distance(*rating);
        assert!((0.0..=1.0).contains(&d), "rating={:?} dist={}", rating, d);
    }
}

#[test]
fn bias_distance_nan_for_missing() {
    assert!(bias_distance(BiasRating::Mixed).is_nan());
    assert!(bias_distance(BiasRating::Unknown).is_nan());
}

#[test]
fn factual_tier_weight_values_locked() {
    assert_eq!(factual_tier_weight(FactualTier::VeryHigh), 1.0);
    assert_eq!(factual_tier_weight(FactualTier::High), 0.8);
    assert_eq!(factual_tier_weight(FactualTier::Mixed), 0.4);
    assert_eq!(factual_tier_weight(FactualTier::Low), 0.1);
    assert_eq!(factual_tier_weight(FactualTier::Unknown), 0.5);
}

#[test]
fn compute_neutrality_score_center_very_high() {
    let score = compute_neutrality_score(BiasRating::Center, FactualTier::VeryHigh);
    assert_eq!(score, 100.0);
}

#[test]
fn compute_neutrality_score_extreme_low() {
    let score = compute_neutrality_score(BiasRating::LeftExtreme, FactualTier::Low);
    assert_eq!(score, 4.0);
}

#[test]
fn compute_neutrality_score_symmetric_left_right() {
    for tier in ALL_TIERS {
        let l = compute_neutrality_score(BiasRating::LeftExtreme, tier);
        let r = compute_neutrality_score(BiasRating::RightExtreme, tier);
        assert_eq!(l, r, "tier={:?}", tier);
    }
    for tier in [FactualTier::VeryHigh, FactualTier::High] {
        let l = compute_neutrality_score(BiasRating::Left, tier);
        let r = compute_neutrality_score(BiasRating::Right, tier);
        assert_eq!(l, r, "tier={:?}", tier);
    }
}

#[test]
fn compute_neutrality_score_nan_for_mixed_bias() {
    assert!(compute_neutrality_score(BiasRating::Mixed, FactualTier::High).is_nan());
    assert!(compute_neutrality_score(BiasRating::Unknown, FactualTier::High).is_nan());
}

#[test]
fn compute_neutrality_score_monotonic_by_bias() {
    let center = compute_neutrality_score(BiasRating::Center, FactualTier::High);
    let cl = compute_neutrality_score(BiasRating::CenterLeft, FactualTier::High);
    let l = compute_neutrality_score(BiasRating::Left, FactualTier::High);
    let le = compute_neutrality_score(BiasRating::LeftExtreme, FactualTier::High);
    assert!(center > cl);
    assert!(cl > l);
    assert!(l > le);
}

#[test]
fn compute_neutrality_score_monotonic_by_factual() {
    let vh = compute_neutrality_score(BiasRating::Center, FactualTier::VeryHigh);
    let high = compute_neutrality_score(BiasRating::Center, FactualTier::High);
    let mix = compute_neutrality_score(BiasRating::Center, FactualTier::Mixed);
    let low = compute_neutrality_score(BiasRating::Center, FactualTier::Low);
    assert!(vh > high);
    assert!(high > mix);
    assert!(mix > low);
}

#[test]
fn deterministic_same_input_same_output() {
    let a = compute_neutrality_score(BiasRating::Center, FactualTier::High);
    let b = compute_neutrality_score(BiasRating::Center, FactualTier::High);
    assert_eq!(a, b);
}

#[test]
fn neutrality_score_in_normalized_range() {
    for bias in &ALL_BIAS[..7] {
        for tier in ALL_TIERS {
            let score = compute_neutrality_score(*bias, tier);
            assert!(!score.is_nan(), "bias={:?} tier={:?}", bias, tier);
            assert!(score >= 0.0, "score below 0: {}", score);
            assert!(score <= 100.0, "score above 100: {}", score);
        }
    }
}

#[test]
fn neutrality_points_matches_float_formula() {
    for bias in ALL_BIAS {
        for tier in ALL_TIERS {
            let expected = bias_distance_thirds(bias).map(|d| {
                let dist = d as f64 / 3.0;
                let fw = factual_weight_tenths(tier) as f64 / 10.0;
                (((1.0 - dist) * 0.6 + fw * 0.4) * 100.0).round() as u8
            });
            assert_eq!(neutrality_points(bias, tier), expected, "{:?} {:?}", bias, tier);
        }
    }
}

#[test]
fn neutrality_points_exact_values() {
    assert_eq!(neutrality_points(BiasRating::Center, FactualTier::VeryHigh), Some(100));
    assert_eq!(neutrality_points(BiasRating::LeftExtreme, FactualTier::Low), Some(4));
    assert_eq!(neutrality_points(BiasRating::CenterRight, FactualTier::High), Some(72));
    assert_eq!(neutrality_points(BiasRating::Right, FactualTier::Unknown), Some(40));
    assert_eq!(neutrality_points(BiasRating::Mixed, FactualTier::VeryHigh), None);
}
