//! Language-model post-processing for a batch of texts.

use vstd::prelude::*;
use crate::metrics::nlp::{Entity, Polarity, organization_words};

verus! {

/// For each text, the words of the organisations the entity model found in
/// it with a confidence above `0.24`.
pub fn bert_organization_tokenization(predictions: &Vec<Vec<Entity>>) -> (companies_list: Vec<
    Vec<String>,
>)
    ensures
        companies_list.len() == predictions.len(),
        forall|i: int|
            0 <= i < predictions.len() ==> #[trigger] companies_list@[i].deep_view()
                == organization_words(predictions@[i]@),
{
    let mut companies_list: Vec<Vec<String>> = Vec::new();
    let mut i: usize = 0;
    while i < predictions.len()
        invariant
            i <= predictions.len(),
            companies_list.len() == i,
            forall|k: int|
                0 <= k < i ==> #[trigger] companies_list@[k].deep_view() == organization_words(
                    predictions@[k]@,
                ),
        decreases predictions.len() - i,
    {
        let companies = crate::metrics::nlp::bert_organization_tokenization(&predictions[i]);
        companies_list.push(companies);
        i = i + 1;
    }
    companies_list
}

/// For each text, the polarity of the first sentiment the model returned.
pub fn sentiment_classifier(predictions: &Vec<Vec<Polarity>>) -> (sentiment_scores: Vec<Polarity>)
    requires
        forall|i: int| 0 <= i < predictions.len() ==> #[trigger] predictions@[i]@.len() > 0,
    ensures
        sentiment_scores.len() == predictions.len(),
        forall|i: int|
            0 <= i < predictions.len() ==> #[trigger] sentiment_scores@[i] == predictions@[i]@[0],
{
    let mut sentiment_scores: Vec<Polarity> = Vec::new();
    let mut i: usize = 0;
    while i < predictions.len()
        invariant
            i <= predictions.len(),
            forall|k: int| 0 <= k < predictions.len() ==> #[trigger] predictions@[k]@.len() > 0,
            sentiment_scores.len() == i,
            forall|k: int| 0 <= k < i ==> #[trigger] sentiment_scores@[k] == predictions@[k]@[0],
        decreases predictions.len() - i,
    {
        assert(predictions@[i as int]@.len() > 0);
        let first = crate::metrics::nlp::sentiment_classifier(&predictions[i]);
        sentiment_scores.push(first[0]);
        i = i + 1;
    }
    sentiment_scores
}

} // verus!
