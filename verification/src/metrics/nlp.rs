//! Post-processing of the language-model outputs used for one title.

use vstd::prelude::*;

verus! {

/// Polarity that the sentiment model assigns to a text.
#[derive(Clone, Copy, Debug, PartialEq, Eq, Structural)]
pub enum Polarity {
    Positive,
    Negative,
}

/// One entity recognised in a text by the named-entity model.
///
/// `score_bits` is the IEEE-754 bit pattern (`f64::to_bits`) of the model's
/// confidence score, so that the score is compared exactly.
pub struct Entity {
    pub word: String,
    pub label: String,
    pub score_bits: u64,
}

/// Bit pattern of the `f64` confidence threshold `0.24`.
pub const BASE_CONFIDENCE_SCORE_BITS: u64 = 0x3fce_b851_eb85_1eb8;

/// Bit pattern of `f64::INFINITY`; every larger pattern with a clear sign bit is a NaN.
pub const POSITIVE_INFINITY_BITS: u64 = 0x7ff0_0000_0000_0000;

/// The label the model gives to (the inside of) an organisation name.
pub open spec fn organization_label() -> Seq<char> {
    seq!['I', '-', 'O', 'R', 'G']
}

/// Whether the `f64` with bit pattern `bits` is greater than `0.24`.
///
/// Non-negative doubles are ordered as their bit patterns; negative values,
/// NaNs and `0.24` itself are not greater than the threshold.
pub open spec fn above_confidence(bits: u64) -> bool {
    BASE_CONFIDENCE_SCORE_BITS < bits <= POSITIVE_INFINITY_BITS
}

/// Whether an entity is a confidently recognised organisation.
pub open spec fn is_confident_organization(e: Entity) -> bool {
    e.label@ == organization_label() && above_confidence(e.score_bits)
}

/// The words of the confidently recognised organisations, in order.
pub open spec fn organization_words(entities: Seq<Entity>) -> Seq<Seq<char>>
    decreases entities.len(),
{
    if entities.len() == 0 {
        Seq::empty()
    } else {
        let rest = organization_words(entities.drop_last());
        if is_confident_organization(entities.last()) {
            rest.push(entities.last().word@)
        } else {
            rest
        }
    }
}

/// Keeps the words of the entities labelled as organisations whose
/// confidence score is above `0.24`, in the order of the model output.
pub fn bert_organization_tokenization(entities: &Vec<Entity>) -> (companies: Vec<String>)
    ensures
        companies.deep_view() == organization_words(entities@),
{
    let org = String::from_str("I-ORG");
    proof {
        reveal_strlit("I-ORG");
    }
    assert(org@ == organization_label());
    let mut companies: Vec<String> = Vec::new();
    let mut i: usize = 0;
    while i < entities.len()
        invariant
            i <= entities.len(),
            org@ == organization_label(),
            companies.deep_view() == organization_words(entities@.take(i as int)),
        decreases entities.len() - i,
    {
        let entity = &entities[i];
        proof {
            assert(entities@.take(i + 1).drop_last() =~= entities@.take(i as int));
        }
        if entity.label == org && BASE_CONFIDENCE_SCORE_BITS < entity.score_bits
            && entity.score_bits <= POSITIVE_INFINITY_BITS {
            companies.push(entity.word.clone());
            assert(companies.deep_view() =~= organization_words(entities@.take(i + 1)));
        }
        i = i + 1;
    }
    assert(entities@.take(entities.len() as int) =~= entities@);
    companies
}

/// The polarity of the first sentiment the model returned, as a
/// one-element list.
pub fn sentiment_classifier(scores: &Vec<Polarity>) -> (sentiment_scores: Vec<Polarity>)
    requires
        scores.len() > 0,
    ensures
        sentiment_scores@ == seq![scores@[0]],
{
    let mut sentiment_scores: Vec<Polarity> = Vec::new();
    match scores[0] {
        Polarity::Positive => sentiment_scores.push(Polarity::Positive),
        Polarity::Negative => sentiment_scores.push(Polarity::Negative),
    }
    sentiment_scores
}

/// Every kept word is the word of a confidently recognised organisation,
/// and no more words are kept than there are entities.
pub proof fn lemma_organization_words_sound(entities: Seq<Entity>, w: Seq<char>)
    ensures
        organization_words(entities).len() <= entities.len(),
        organization_words(entities).contains(w) ==> exists|i: int|
            0 <= i < entities.len() && is_confident_organization(#[trigger] entities[i])
                && entities[i].word@ == w,
    decreases entities.len(),
{
    if entities.len() > 0 {
        let prefix = entities.drop_last();
        let rest = organization_words(prefix);
        lemma_organization_words_sound(prefix, w);
        if organization_words(entities).contains(w) {
            if rest.contains(w) {
                let i = choose|i: int|
                    0 <= i < prefix.len() && is_confident_organization(#[trigger] prefix[i])
                        && prefix[i].word@ == w;
                assert(entities[i] == prefix[i]);
            } else {
                let q = choose|q: int|
                    0 <= q < organization_words(entities).len() && organization_words(entities)[q] == w;
                if q < rest.len() {
                    assert(rest[q] == w);
                }
                assert(is_confident_organization(entities[entities.len() - 1]));
            }
        }
    }
}

/// A word is kept exactly when some entity with that word is labelled
/// `I-ORG` and scores above `0.24`: its score's bit pattern lies above
/// `0x3fce_b851_eb85_1eb8` (the pattern of `0.24`) and at most at
/// `0x7ff0_0000_0000_0000` (that of positive infinity), so that `0.24`
/// itself, negative scores and NaNs are not enough.
pub proof fn lemma_kept_words_are_confident_organizations(entities: Seq<Entity>, w: Seq<char>)
    ensures
        organization_words(entities).contains(w) <==> exists|i: int|
            0 <= i < entities.len() && entities[i].word@ == w && #[trigger] entities[i].label@
                == seq!['I', '-', 'O', 'R', 'G'] && 0x3fce_b851_eb85_1eb8u64 < entities[i].score_bits
                <= 0x7ff0_0000_0000_0000u64,
    decreases entities.len(),
{
    if entities.len() > 0 {
        let prefix = entities.drop_last();
        let last = entities.last();
        let rest = organization_words(prefix);
        lemma_kept_words_are_confident_organizations(prefix, w);
        assert(entities[entities.len() - 1] == last);
        if organization_words(entities).contains(w) {
            if rest.contains(w) {
                let i = choose|i: int|
                    0 <= i < prefix.len() && prefix[i].word@ == w && #[trigger] prefix[i].label@
                        == seq!['I', '-', 'O', 'R', 'G'] && 0x3fce_b851_eb85_1eb8u64
                        < prefix[i].score_bits <= 0x7ff0_0000_0000_0000u64;
                assert(entities[i] == prefix[i]);
            } else {
                let q = choose|q: int|
                    0 <= q < organization_words(entities).len() && organization_words(entities)[q] == w;
                if q < rest.len() {
                    assert(rest[q] == w);
                }
                assert(is_confident_organization(last));
            }
        }
        if exists|i: int|
            0 <= i < entities.len() && entities[i].word@ == w && #[trigger] entities[i].label@
                == seq!['I', '-', 'O', 'R', 'G'] && 0x3fce_b851_eb85_1eb8u64 < entities[i].score_bits
                <= 0x7ff0_0000_0000_0000u64 {
            let i = choose|i: int|
                0 <= i < entities.len() && entities[i].word@ == w && #[trigger] entities[i].label@
                    == seq!['I', '-', 'O', 'R', 'G'] && 0x3fce_b851_eb85_1eb8u64
                    < entities[i].score_bits <= 0x7ff0_0000_0000_0000u64;
            if i < entities.len() - 1 {
                assert(prefix[i] == entities[i]);
                assert(rest.contains(w));
                let q = choose|q: int| 0 <= q < rest.len() && rest[q] == w;
                if is_confident_organization(last) {
                    assert(rest.push(last.word@)[q] == w);
                }
            } else {
                assert(is_confident_organization(last));
                assert(rest.push(last.word@)[rest.len() as int] == w);
            }
        }
    }
}

/// When every entity is labelled `I-ORG` with a score above `0.24`, every
/// word is kept, in order and with its repetitions; when none is labelled
/// `I-ORG`, no word is kept.
pub proof fn lemma_organization_words_order(entities: Seq<Entity>)
    ensures
        (forall|i: int|
            0 <= i < entities.len() ==> #[trigger] entities[i].label@ == seq!['I', '-', 'O', 'R', 'G']
                && 0x3fce_b851_eb85_1eb8u64 < entities[i].score_bits <= 0x7ff0_0000_0000_0000u64)
            ==> organization_words(entities) == entities.map_values(|e: Entity| e.word@),
        (forall|i: int|
            0 <= i < entities.len() ==> #[trigger] entities[i].label@ != seq!['I', '-', 'O', 'R', 'G'])
            ==> organization_words(entities).len() == 0,
    decreases entities.len(),
{
    if entities.len() > 0 {
        let prefix = entities.drop_last();
        lemma_organization_words_order(prefix);
        assert(entities[entities.len() - 1] == entities.last());
        if forall|i: int|
            0 <= i < entities.len() ==> #[trigger] entities[i].label@ == seq!['I', '-', 'O', 'R', 'G']
                && 0x3fce_b851_eb85_1eb8u64 < entities[i].score_bits <= 0x7ff0_0000_0000_0000u64 {
            assert forall|i: int| 0 <= i < prefix.len() implies #[trigger] prefix[i].label@ == seq![
                'I',
                '-',
                'O',
                'R',
                'G',
            ] && 0x3fce_b851_eb85_1eb8u64 < prefix[i].score_bits <= 0x7ff0_0000_0000_0000u64 by {
                assert(prefix[i] == entities[i]);
            }
            let last = entities.last();
            let n = entities.len() - 1;
            assert(entities[n].label@ == seq!['I', '-', 'O', 'R', 'G'] && 0x3fce_b851_eb85_1eb8u64
                < entities[n].score_bits <= 0x7ff0_0000_0000_0000u64);
            assert(is_confident_organization(last));
            assert(entities.map_values(|e: Entity| e.word@) =~= prefix.map_values(|e: Entity| e.word@).push(
                last.word@,
            ));
        }
        if forall|i: int|
            0 <= i < entities.len() ==> #[trigger] entities[i].label@ != seq!['I', '-', 'O', 'R', 'G'] {
            assert forall|i: int| 0 <= i < prefix.len() implies #[trigger] prefix[i].label@ != seq![
                'I',
                '-',
                'O',
                'R',
                'G',
            ] by {
                assert(prefix[i] == entities[i]);
            }
        }
    }
}

/// The sentiment kept for a text is the first polarity the model returned.
pub proof fn lemma_first_polarity_kept(scores: Seq<Polarity>, kept: Seq<Polarity>)
    requires
        scores.len() > 0,
        kept == seq![scores[0]],
    ensures
        kept.len() == 1,
        kept[0] == scores[0],
{
}

} // verus!
