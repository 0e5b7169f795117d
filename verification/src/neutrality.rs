//! Per-source bias and factual-reporting ratings and the neutrality score.
//!
//! The score formula is
//!   raw   = (1 - bias_distance) * 0.6 + factual_weight * 0.4
//!   score = round(raw * 100)
//! Every bias position is a whole number of thirds and every factual weight
//! a whole number of tenths, so the score is computed here exactly, in
//! integer points: (3 - d) * 60 / 3 + w * 40 / 10 for a distance of d thirds
//! and a weight of w tenths.

use vstd::prelude::*;

verus! {

/// Bias rating axis.
#[derive(Debug, Clone, Copy, PartialEq, Eq, Hash, Structural)]
pub enum BiasRating {
    LeftExtreme,
    Left,
    CenterLeft,
    Center,
    CenterRight,
    Right,
    RightExtreme,
    Mixed,
    Unknown,
}

/// Factual-reporting tier.
#[derive(Debug, Clone, Copy, PartialEq, Eq, Hash, Structural)]
pub enum FactualTier {
    VeryHigh,
    High,
    Mixed,
    Low,
    Unknown,
}

/// Share of the score carried by the bias axis, in percent.
pub const BIAS_WEIGHT_PERCENT: u8 = 60;

/// Share of the score carried by the factual tier, in percent.
pub const FACTUAL_WEIGHT_PERCENT: u8 = 40;

/// Position on the bias axis in thirds, from -3 (left extreme) to +3
/// (right extreme); none for "mixed" and "unknown".
pub open spec fn bias_thirds_spec(rating: BiasRating) -> Option<int> {
    match rating {
        BiasRating::LeftExtreme => Some(-3),
        BiasRating::Left => Some(-2),
        BiasRating::CenterLeft => Some(-1),
        BiasRating::Center => Some(0),
        BiasRating::CenterRight => Some(1),
        BiasRating::Right => Some(2),
        BiasRating::RightExtreme => Some(3),
        BiasRating::Mixed => None,
        BiasRating::Unknown => None,
    }
}

/// Distance from the center in thirds (absolute position).
pub open spec fn bias_distance_spec(rating: BiasRating) -> Option<int> {
    match bias_thirds_spec(rating) {
        Some(k) => Some(if k < 0 { -k } else { k }),
        None => None,
    }
}

/// Factual-tier weight in tenths: very-high 10, high 8, mixed 4, low 1,
/// unknown 5 (neither reward nor punish absence of data).
pub open spec fn factual_tenths_spec(tier: FactualTier) -> int {
    match tier {
        FactualTier::VeryHigh => 10,
        FactualTier::High => 8,
        FactualTier::Mixed => 4,
        FactualTier::Low => 1,
        FactualTier::Unknown => 5,
    }
}

/// The neutrality score in points, none when the bias has no anchor on the
/// axis.
pub open spec fn neutrality_points_spec(bias: BiasRating, factual: FactualTier) -> Option<int> {
    match bias_distance_spec(bias) {
        Some(d) => Some(
            (3 - d) * BIAS_WEIGHT_PERCENT / 3 + factual_tenths_spec(factual) * FACTUAL_WEIGHT_PERCENT
                / 10,
        ),
        None => None,
    }
}

/// Bias position in thirds of the [-1, +1] axis; `None` for "mixed" and
/// "unknown".
pub fn bias_thirds(rating: BiasRating) -> (r: Option<i8>)
    ensures
        match r {
            Some(k) => bias_thirds_spec(rating) == Some(k as int),
            None => bias_thirds_spec(rating) is None,
        },
{
    match rating {
        BiasRating::LeftExtreme => Some(-3),
        BiasRating::Left => Some(-2),
        BiasRating::CenterLeft => Some(-1),
        BiasRating::Center => Some(0),
        BiasRating::CenterRight => Some(1),
        BiasRating::Right => Some(2),
        BiasRating::RightExtreme => Some(3),
        BiasRating::Mixed => None,
        BiasRating::Unknown => None,
    }
}

/// Distance from the center in thirds, from 0 to 3; `None` for "mixed" and
/// "unknown".
pub fn bias_distance_thirds(rating: BiasRating) -> (r: Option<u8>)
    ensures
        match r {
            Some(d) => bias_distance_spec(rating) == Some(d as int) && d <= 3,
            None => bias_distance_spec(rating) is None,
        },
{
    match bias_thirds(rating) {
        Some(k) => {
            if k < 0 {
                Some((-k) as u8)
            } else {
                Some(k as u8)
            }
        },
        None => None,
    }
}

/// Factual-tier weight in tenths, from 1 to 10.
pub fn factual_weight_tenths(tier: FactualTier) -> (r: u8)
    ensures
        r as int == factual_tenths_spec(tier),
        1 <= r <= 10,
{
    match tier {
        FactualTier::VeryHigh => 10,
        FactualTier::High => 8,
        FactualTier::Mixed => 4,
        FactualTier::Low => 1,
        FactualTier::Unknown => 5,
    }
}

/// Composite neutrality score on [0, 100], computed exactly; `None` when the
/// bias is "mixed" or "unknown".
pub fn neutrality_points(bias: BiasRating, factual: FactualTier) -> (r: Option<u8>)
    ensures
        match r {
            Some(p) => neutrality_points_spec(bias, factual) == Some(p as int) && p <= 100,
            None => neutrality_points_spec(bias, factual) is None,
        },
{
    match bias_distance_thirds(bias) {
        Some(d) => {
            let w = factual_weight_tenths(factual);
            let bias_part: u16 = (3 - d) as u16 * BIAS_WEIGHT_PERCENT as u16 / 3;
            let factual_part: u16 = w as u16 * FACTUAL_WEIGHT_PERCENT as u16 / 10;
            Some((bias_part + factual_part) as u8)
        },
        None => None,
    }
}

/// The display text of a bias rating.
pub open spec fn bias_label_text(rating: BiasRating) -> Seq<char> {
    match rating {
        BiasRating::LeftExtreme => "Left (Strong)"@,
        BiasRating::Left => "Left"@,
        BiasRating::CenterLeft => "Center-Left"@,
        BiasRating::Center => "Center"@,
        BiasRating::CenterRight => "Center-Right"@,
        BiasRating::Right => "Right"@,
        BiasRating::RightExtreme => "Right (Strong)"@,
        BiasRating::Mixed => "Mixed"@,
        BiasRating::Unknown => "Unknown"@,
    }
}

/// The display text of a factual tier.
pub open spec fn factual_label_text(tier: FactualTier) -> Seq<char> {
    match tier {
        FactualTier::VeryHigh => "Very High"@,
        FactualTier::High => "High"@,
        FactualTier::Mixed => "Mixed"@,
        FactualTier::Low => "Low"@,
        FactualTier::Unknown => "Unknown"@,
    }
}

/// Every character is ASCII.
pub open spec fn all_ascii(s: Seq<char>) -> bool {
    forall|i: int| 0 <= i < s.len() ==> (#[trigger] s[i] as u32) < 128
}

/// Display label for a bias rating: nonempty ASCII text.
pub fn format_bias_label(rating: BiasRating) -> (r: &'static str)
    ensures
        r@ == bias_label_text(rating),
        r@.len() > 0,
        all_ascii(r@),
{
    match rating {
        BiasRating::LeftExtreme => {
            proof {
                reveal_strlit("Left (Strong)");
            }
            "Left (Strong)"
        },
        BiasRating::Left => {
            proof {
                reveal_strlit("Left");
            }
            "Left"
        },
        BiasRating::CenterLeft => {
            proof {
                reveal_strlit("Center-Left");
            }
            "Center-Left"
        },
        BiasRating::Center => {
            proof {
                reveal_strlit("Center");
            }
            "Center"
        },
        BiasRating::CenterRight => {
            proof {
                reveal_strlit("Center-Right");
            }
            "Center-Right"
        },
        BiasRating::Right => {
            proof {
                reveal_strlit("Right");
            }
            "Right"
        },
        BiasRating::RightExtreme => {
            proof {
                reveal_strlit("Right (Strong)");
            }
            "Right (Strong)"
        },
        BiasRating::Mixed => {
            proof {
                reveal_strlit("Mixed");
            }
            "Mixed"
        },
        BiasRating::Unknown => {
            proof {
                reveal_strlit("Unknown");
            }
            "Unknown"
        },
    }
}

/// Display label for a factual tier: nonempty ASCII text.
pub fn format_factual_label(tier: FactualTier) -> (r: &'static str)
    ensures
        r@ == factual_label_text(tier),
        r@.len() > 0,
        all_ascii(r@),
{
    match tier {
        FactualTier::VeryHigh => {
            proof {
                reveal_strlit("Very High");
            }
            "Very High"
        },
        FactualTier::High => {
            proof {
                reveal_strlit("High");
            }
            "High"
        },
        FactualTier::Mixed => {
            proof {
                reveal_strlit("Mixed");
            }
            "Mixed"
        },
        FactualTier::Low => {
            proof {
                reveal_strlit("Low");
            }
            "Low"
        },
        FactualTier::Unknown => {
            proof {
                reveal_strlit("Unknown");
            }
            "Unknown"
        },
    }
}

/// The mirror image of a rating across the center of the axis.
pub open spec fn mirror(rating: BiasRating) -> BiasRating {
    match rating {
        BiasRating::LeftExtreme => BiasRating::RightExtreme,
        BiasRating::Left => BiasRating::Right,
        BiasRating::CenterLeft => BiasRating::CenterRight,
        BiasRating::Center => BiasRating::Center,
        BiasRating::CenterRight => BiasRating::CenterLeft,
        BiasRating::Right => BiasRating::Left,
        BiasRating::RightExtreme => BiasRating::LeftExtreme,
        BiasRating::Mixed => BiasRating::Mixed,
        BiasRating::Unknown => BiasRating::Unknown,
    }
}

/// Symmetric scoring: a rating and its mirror image on the other side of the
/// center get the same score for every factual tier.
pub proof fn law_symmetric_scoring(bias: BiasRating, factual: FactualTier)
    ensures
        neutrality_points_spec(bias, factual) == neutrality_points_spec(mirror(bias), factual),
        bias_distance_spec(bias) == bias_distance_spec(mirror(bias)),
{
}

/// The score is defined exactly when the bias has an anchor on the axis
/// (neither "mixed" nor "unknown"), and then lies in [0, 100].
pub proof fn law_score_defined_and_in_range(bias: BiasRating, factual: FactualTier)
    ensures
        (neutrality_points_spec(bias, factual) is Some) <==> (bias != BiasRating::Mixed && bias
            != BiasRating::Unknown),
        neutrality_points_spec(bias, factual) matches Some(p) ==> 0 <= p <= 100,
{
}

/// For a fixed factual tier, a rating farther from the center scores
/// strictly lower.
pub proof fn law_score_decreases_with_bias_distance(
    near: BiasRating,
    far: BiasRating,
    factual: FactualTier,
)
    requires
        bias_distance_spec(near) matches Some(dn) && bias_distance_spec(far) matches Some(df)
            && dn < df,
    ensures
        neutrality_points_spec(near, factual)->0 > neutrality_points_spec(far, factual)->0,
{
}

/// For a fixed anchored bias, a higher factual-tier weight scores strictly
/// higher.
pub proof fn law_score_increases_with_factual_weight(
    bias: BiasRating,
    lower: FactualTier,
    higher: FactualTier,
)
    requires
        bias_distance_spec(bias) is Some,
        factual_tenths_spec(lower) < factual_tenths_spec(higher),
    ensures
        neutrality_points_spec(bias, lower)->0 < neutrality_points_spec(bias, higher)->0,
{
}

/// The two weights split the score completely: 60 % + 40 % = 100 %.
pub proof fn law_weights_sum_to_whole()
    ensures
        BIAS_WEIGHT_PERCENT + FACTUAL_WEIGHT_PERCENT == 100,
{
}

} // verus!
