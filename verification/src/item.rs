//! The aggregated news item.

use vstd::prelude::*;

use crate::neutrality::{BiasRating, FactualTier};

verus! {

/// One syndicated article, attributed to the feed it came from.
#[derive(Debug)]
pub struct NewsItem {
    /// URL of the feed the item was read from.
    pub source: String,
    pub title: String,
    pub url: String,
    /// Publication (or update) time in RFC 3339, when the feed gives one.
    pub published_iso: Option<String>,
    pub bias: Option<BiasRating>,
    pub factual: Option<FactualTier>,
    /// Neutrality score in points, 0 to 100.
    pub neutrality_score: Option<u8>,
    pub bias_label: Option<String>,
    pub factual_label: Option<String>,
}

fn clone_opt_string(o: &Option<String>) -> (r: Option<String>)
    ensures
        r == *o,
{
    match o {
        Some(s) => Some(s.clone()),
        None => None,
    }
}

impl Clone for NewsItem {
    fn clone(&self) -> (r: Self)
        ensures
            r == *self,
    {
        NewsItem {
            source: self.source.clone(),
            title: self.title.clone(),
            url: self.url.clone(),
            published_iso: clone_opt_string(&self.published_iso),
            bias: self.bias,
            factual: self.factual,
            neutrality_score: self.neutrality_score,
            bias_label: clone_opt_string(&self.bias_label),
            factual_label: clone_opt_string(&self.factual_label),
        }
    }
}

} // verus!
